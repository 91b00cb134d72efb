//! How far rounded results are from exact ones.

use crate::binary64::{distance, lemma_value_order, signed, Binary64};
use crate::exact::lemma_whole_count;
use crate::rounding::{
    excess, lemma_excess, lemma_nearest_even, lemma_pow2_53, magnitude, nearest_even, rounded,
    scale, significand, HIDDEN, INFINITE,
};
use crate::signs::{lemma_one, lemma_zero};
use vstd::arithmetic::div_mod::{lemma_fundamental_div_mod, lemma_fundamental_div_mod_converse};
use vstd::arithmetic::power2::{
    lemma2_to64, lemma_pow2_adds, lemma_pow2_pos, lemma_pow2_strictly_increases, lemma_pow2_unfold,
    pow2,
};
use vstd::prelude::*;

verus! {

/// A significand at a scale is held where it stands.
proof fn lemma_held_at(f: nat, k: nat)
    requires
        f < 2 * HIDDEN,
        k > 0 ==> f >= HIDDEN,
    ensures
        magnitude(k * (HIDDEN as nat) + f) == f * pow2(k),
{
    let h = HIDDEN as int;
    let bits = k * (HIDDEN as nat) + f;
    if f < HIDDEN {
        assert(k == 0);
        assert(0 * (HIDDEN as nat) == 0) by (nonlinear_arith);
    } else {
        assert(bits == (k + 1) * h + (f - h)) by (nonlinear_arith)
            requires
                bits == k * h + f,
        ;
        lemma_fundamental_div_mod_converse(bits as int, h, k + 1int, f - h);
        assert(bits >= HIDDEN) by (nonlinear_arith)
            requires
                bits == k * h + f,
                f >= h,
                k >= 0,
                h >= 0,
                h == HIDDEN,
        ;
        assert(scale(bits) == k);
        assert(significand(bits) == f);
    }
}

/// A rounded quotient is off by at most half a unit, or by one part in `2^53`.
proof fn lemma_rounded_error(a: nat, c: nat)
    requires
        c > 0,
        rounded(a, c) < INFINITE,
    ensures
        ({
            let off = magnitude(rounded(a, c)) * c - a;
            (-c <= 2 * off <= c) || (-(a as int) <= off * pow2(53) <= a)
        }),
        c == 1 ==> ({
            let off = magnitude(rounded(a, c)) - a;
            -(a as int) <= off * pow2(53) <= a
        }),
{
    let k = excess(a / c);
    let r = nearest_even(a, c * pow2(k));
    let bits = k * (HIDDEN as nat) + r;
    lemma_pow2_53();
    lemma_pow2_pos(k);
    assert(c * pow2(k) > 0) by (nonlinear_arith)
        requires
            c > 0,
            pow2(k) > 0,
    ;
    lemma_nearest_even(a, c * pow2(k));
    lemma_excess(a / c);
    lemma_fundamental_div_mod(a as int, c as int);
    let q = a / c;
    let s = pow2(k);
    lemma_pow2_adds(53, k);
    lemma_pow2_adds(52, k);
    assert(a < pow2(53) * s * c) by (nonlinear_arith)
        requires
            a == c * q + a % c,
            a % c < c,
            q + 1 <= pow2(53) * s,
            c > 0,
    ;
    assert(r <= pow2(53)) by (nonlinear_arith)
        requires
            2 * (r * (c * s)) - c * s <= 2 * a,
            a < pow2(53) * s * c,
            c * s > 0,
    ;
    if k > 0 {
        assert(a >= pow2(52) * s * c) by (nonlinear_arith)
            requires
                a == c * q + a % c,
                a % c >= 0,
                q >= pow2(52) * s,
                c > 0,
        ;
        assert(r >= pow2(52)) by (nonlinear_arith)
            requires
                2 * a <= 2 * (r * (c * s)) + c * s,
                a >= pow2(52) * s * c,
                c * s > 0,
        ;
    }
    assert(magnitude(bits) == r * s) by {
        if r < 2 * HIDDEN {
            lemma_held_at(r, k);
        } else {
            lemma_held_at(HIDDEN as nat, k + 1);
            lemma_pow2_unfold(k + 1);
            assert((k + 1) * (HIDDEN as nat) + (HIDDEN as nat) == bits) by (nonlinear_arith)
                requires
                    bits == k * (HIDDEN as nat) + 2 * (HIDDEN as nat),
            ;
            assert(HIDDEN * (2 * s) == (2 * HIDDEN) * s) by (nonlinear_arith);
        }
    }
    let off = magnitude(bits) * c - a;
    assert(magnitude(bits) * c == r * (c * s)) by (nonlinear_arith)
        requires
            magnitude(bits) == r * s,
    ;
    if k == 0 {
        assert(c * s == c) by (nonlinear_arith)
            requires
                s == 1,
        ;
        if c == 1 {
            assert(off == 0);
            assert(off * pow2(53) == 0) by (nonlinear_arith)
                requires
                    off == 0,
            ;
        }
    } else {
        assert(-(a as int) <= off * pow2(53) <= a) by (nonlinear_arith)
            requires
                -(c * s) <= 2 * off <= c * s,
                a >= pow2(52) * s * c,
                pow2(53) == 2 * pow2(52),
                pow2(52) > 0,
        ;
        if c == 1 {
            assert(magnitude(bits) * c == magnitude(bits)) by (nonlinear_arith)
                requires
                    c == 1,
            ;
        }
    }
}

/// A quotient that is not too large rounds to a number.
proof fn lemma_rounded_finite(a: nat, c: nat)
    requires
        c > 0,
        a <= c * pow2(2074),
    ensures
        rounded(a, c) < INFINITE,
{
    let k = excess(a / c);
    let q = a / c;
    let s = pow2(k);
    lemma_pow2_53();
    lemma_excess(q);
    lemma_fundamental_div_mod(a as int, c as int);
    lemma_pow2_pos(k);
    assert(q <= pow2(2074)) by (nonlinear_arith)
        requires
            a == c * q + a % c,
            a % c >= 0,
            a <= c * pow2(2074),
            c > 0,
    ;
    if k > 2022 {
        lemma_pow2_strictly_increases(2074, 52 + k);
    }
    assert(c * s > 0) by (nonlinear_arith)
        requires
            c > 0,
            s > 0,
    ;
    lemma_nearest_even(a, c * s);
    lemma_pow2_adds(53, k);
    let r = nearest_even(a, c * s);
    assert(a < pow2(53) * s * c) by (nonlinear_arith)
        requires
            a == c * q + a % c,
            a % c < c,
            q + 1 <= pow2(53) * s,
            c > 0,
    ;
    assert(r <= pow2(53)) by (nonlinear_arith)
        requires
            2 * (r * (c * s)) - c * s <= 2 * a,
            a < pow2(53) * s * c,
            c * s > 0,
    ;
    assert(k * (HIDDEN as nat) <= 2022 * (HIDDEN as nat)) by (nonlinear_arith)
        requires
            k <= 2022,
    ;
}

/// The number `2^1074`, the inverse of a unit.
pub open spec fn unit() -> real {
    pow2(1074) as real
}

/// The exact amount of a finite number.
pub open spec fn amount(x: Binary64) -> real {
    (x.value() as real) / unit()
}

/// One part in `2^53`.
#[verifier::inline]
pub open spec fn ulp() -> real {
    1real / 9007199254740992real
}

/// Half the smallest positive number.
pub open spec fn tiny() -> real {
    1real / (2real * unit())
}

/// The largest amount that is surely held: `2^1000`.
pub open spec fn huge() -> real {
    pow2(1000) as real
}

/// `x` is within `e` of `y`.
pub open spec fn near(x: real, y: real, e: real) -> bool {
    y - e <= x <= y + e
}

/// The size of an amount.
#[verifier::opaque]
pub open spec fn size(r: real) -> real {
    if r < 0real {
        -r
    } else {
        r
    }
}

/// Sizes add up.
pub proof fn lemma_sizes(a: real, b: real)
    ensures
        0real <= size(a),
        -size(a) <= a <= size(a),
        size(a) == a || size(a) == -a,
        size(a + b) <= size(a) + size(b),
        size(a - b) <= size(a) + size(b),
{
    reveal(size);
}

/// What is near to something is not much larger.
pub proof fn lemma_near(x: real, y: real, e: real)
    requires
        near(x, y, e),
    ensures
        size(x) <= size(y) + e,
        e >= 0real,
        -size(y) <= y <= size(y),
        -size(x) <= x <= size(x),
{
    reveal(size);
}

/// The inverse of a unit is positive.
pub proof fn lemma_unit()
    ensures
        unit() > 1real,
        ulp() > 0real,
        tiny() > 0real,
        huge() > 1real,
{
    lemma_pow2_pos(1074);
    lemma_pow2_pos(1000);
    lemma_pow2_53();
    lemma_pow2_strictly_increases(0, 1074);
    lemma_pow2_strictly_increases(0, 1000);
    assert(tiny() > 0real) by (nonlinear_arith)
        requires
            unit() > 1real,
            tiny() == 1real / (2real * unit()),
    ;
}

/// Amounts are ordered as numbers are.
pub proof fn lemma_amount_order(x: Binary64, y: Binary64)
    requires
        x.is_finite(),
        y.is_finite(),
    ensures
        x.lt(y) <==> amount(x) < amount(y),
        x.le(y) <==> amount(x) <= amount(y),
        x.same(y) <==> amount(x) == amount(y),
{
    lemma_value_order(x, y);
    lemma_unit();
    let (a, b, u) = (x.value() as real, y.value() as real, unit());
    assert(a < b <==> a / u < b / u) by (nonlinear_arith)
        requires
            u > 1real,
    ;
    assert(a == b <==> a / u == b / u) by (nonlinear_arith)
        requires
            u > 1real,
    ;
}

/// The amount of a zero.
pub proof fn lemma_amount_zero()
    ensures
        amount(Binary64::zero()) == 0real,
        amount(-Binary64::zero()) == 0real,
{
    reveal(Binary64::spec_neg);
    lemma_zero();
    lemma_unit();
    let u = unit();
    assert(0real / u == 0real) by (nonlinear_arith)
        requires
            u > 1real,
    ;
}

/// The opposite number has the opposite amount.
pub proof fn lemma_amount_neg(x: Binary64)
    ensures
        amount(-x) == -amount(x),
        (-x).is_finite() == x.is_finite(),
{
    reveal(Binary64::spec_neg);
    lemma_unit();
    let (a, u) = (x.value() as real, unit());
    assert((-x).value() == -x.value());
    assert((-a) / u == -(a / u)) by (nonlinear_arith)
        requires
            u > 1real,
    ;
}

/// The number without its sign has the size as its amount.
pub proof fn lemma_amount_abs(x: Binary64)
    ensures
        amount(x.abs()) == size(amount(x)),
        x.abs().is_finite() == x.is_finite(),
{
    reveal(size);
    reveal(Binary64::spec_abs);
    lemma_unit();
    let (a, u) = (x.value() as real, unit());
    assert((-a) / u == -(a / u)) by (nonlinear_arith)
        requires
            u > 1real,
    ;
    assert(a >= 0real <==> a / u >= 0real) by (nonlinear_arith)
        requires
            u > 1real,
    ;
}

/// A sum is off by at most one part in `2^53`.
pub proof fn lemma_add_error(x: Binary64, y: Binary64)
    requires
        x.is_finite(),
        y.is_finite(),
        size(amount(x) + amount(y)) <= huge(),
    ensures
        (x + y).is_finite(),
        near(amount(x + y), amount(x) + amount(y), ulp() * size(amount(x) + amount(y))),
{
    reveal(size);
    reveal(Binary64::spec_add);
    lemma_unit();
    lemma_zero();
    lemma_pow2_53();
    let v = x.value() + y.value();
    let u = unit();
    assert((v as real) / u == amount(x) + amount(y)) by (nonlinear_arith)
        requires
            u > 1real,
            v as real == x.value() as real + y.value() as real,
            amount(x) == (x.value() as real) / u,
            amount(y) == (y.value() as real) / u,
    ;
    let a = distance(v);
    assert(a <= pow2(2074)) by {
        lemma_pow2_adds(1074, 1000);
        let b = a as real;
        let h = huge();
        assert(b <= u * h) by (nonlinear_arith)
            requires
                u > 1real,
                -h <= (v as real) / u <= h,
                b == v as real || b == -(v as real),
        ;
        lemma_product_cast(pow2(1074), pow2(1000));
    }
    assert(1 * pow2(2074) == pow2(2074));
    lemma_rounded_finite(a, 1);
    lemma_rounded_error(a, 1);
    let s = x + y;
    let w = s.value();
    assert(w == if v < 0 {
        -(magnitude(rounded(a, 1)) as int)
    } else {
        magnitude(rounded(a, 1)) as int
    });
    let off = w - v;
    assert(-(a as int) <= off * pow2(53) <= a) by {
        let up = magnitude(rounded(a, 1)) - a;
        if v < 0 {
            assert(off * pow2(53) == -(up * pow2(53))) by (nonlinear_arith)
                requires
                    off == -up,
            ;
        }
    }
    let (p, q, b) = (w as real, v as real, a as real);
    assert(-b <= (p - q) * 9007199254740992real <= b) by {
        assert((off * 9007199254740992) as real == (p - q) * 9007199254740992real);
    }
    assert(size(p / u - q / u) <= ulp() * size(q / u)) by {
        assert(-(b / u) <= (p / u - q / u) * 9007199254740992real <= b / u) by (nonlinear_arith)
            requires
                u > 1real,
                -b <= (p - q) * 9007199254740992real <= b,
        ;
        assert(size(q / u) == b / u) by (nonlinear_arith)
            requires
                u > 1real,
                (q >= 0real && b == q) || (q < 0real && b == -q),
                size(q / u) == if q / u < 0real {
                    -(q / u)
                } else {
                    q / u
                },
        ;
    }
}

/// A difference is off by at most one part in `2^53`.
pub proof fn lemma_sub_error(x: Binary64, y: Binary64)
    requires
        x.is_finite(),
        y.is_finite(),
        size(amount(x) - amount(y)) <= huge(),
    ensures
        (x - y).is_finite(),
        near(amount(x - y), amount(x) - amount(y), ulp() * size(amount(x) - amount(y))),
{
    reveal(Binary64::spec_sub);
    lemma_amount_neg(y);
    lemma_add_error(x, -y);
}

/// The product of two integers, cast.
proof fn lemma_product_cast(a: nat, b: nat)
    ensures
        (a * b) as real == (a as real) * (b as real),
{
    assert((a * b) as real == (a as real) * (b as real)) by (nonlinear_arith);
}

/// A rounded quotient over a unit: off by one part in `2^53`, or by half the
/// smallest number.
proof fn lemma_quotient_error(a: nat, c: nat)
    requires
        c > 0,
        (a as real) / (c as real) <= huge() * unit(),
    ensures
        rounded(a, c) < INFINITE,
        ({
            let exact = (a as real) / (c as real) / unit();
            let held = (magnitude(rounded(a, c)) as real) / unit();
            &&& exact >= 0real
            &&& near(held, exact, ulp() * exact + tiny())
        }),
{
    lemma_unit();
    lemma_pow2_53();
    let (x, d, u, h) = (a as real, c as real, unit(), huge());
    assert(a <= c * pow2(2074)) by {
        lemma_pow2_adds(1074, 1000);
        lemma_product_cast(pow2(1074), pow2(1000));
        lemma_product_cast(c, pow2(2074));
        let l = pow2(2074) as real;
        assert(x <= d * l) by (nonlinear_arith)
            requires
                x / d <= h * u,
                l == u * h,
                d > 0real,
        ;
    }
    lemma_rounded_finite(a, c);
    lemma_rounded_error(a, c);
    let m = magnitude(rounded(a, c));
    let off = m * c - a;
    lemma_product_cast(m, c);
    let w = m as real;
    let e = w * d - x;
    let exact = x / d / u;
    let held = w / u;
    assert(e == off as real);
    assert(exact >= 0real) by (nonlinear_arith)
        requires
            exact == x / d / u,
            x >= 0real,
            d > 0real,
            u > 1real,
    ;
    let gap = held - exact;
    assert(gap * (d * u) == e) by (nonlinear_arith)
        requires
            gap == w / u - x / d / u,
            e == w * d - x,
            d > 0real,
            u > 1real,
    ;
    if -c <= 2 * off <= c {
        assert(-d <= 2real * e <= d);
        let t = tiny();
        assert(-t <= gap <= t) by (nonlinear_arith)
            requires
                t == 1real / (2real * u),
                gap * (d * u) == e,
                -d <= 2real * e <= d,
                d > 0real,
                u > 1real,
        ;
        assert(ulp() * exact >= 0real) by (nonlinear_arith)
            requires
                ulp() > 0real,
                exact >= 0real,
        ;
    } else {
        assert((off * 9007199254740992) as real == e * 9007199254740992real);
        assert(-x <= e * 9007199254740992real <= x);
        assert(-exact <= gap * 9007199254740992real <= exact) by (nonlinear_arith)
            requires
                exact == x / d / u,
                gap * (d * u) == e,
                -x <= e * 9007199254740992real <= x,
                d > 0real,
                u > 1real,
        ;
    }
}

/// The size of an amount is the amount of the magnitude.
proof fn lemma_size(x: Binary64)
    ensures
        size(amount(x)) == (magnitude(x.mag()) as real) / unit(),
        amount(x) == if x.negative() {
            -size(amount(x))
        } else {
            size(amount(x))
        },
        magnitude(x.mag()) as real == size(amount(x)) * unit(),
{
    reveal(size);
    lemma_unit();
    let (m, u) = (magnitude(x.mag()) as real, unit());
    assert((-m) / u == -(m / u) && m / u >= 0real && (m / u) * u == m) by (nonlinear_arith)
        requires
            u > 1real,
            m >= 0real,
    ;
}

/// A number with its sign set has an amount of that sign.
proof fn lemma_signed(negative: bool, m: nat)
    requires
        m <= INFINITE,
    ensures
        amount(signed(negative, m)) == if negative {
            -((magnitude(m) as real) / unit())
        } else {
            (magnitude(m) as real) / unit()
        },
        signed(negative, m).is_finite() == (m < INFINITE),
{
    let x = signed(negative, m);
    assert(x.mag() == m && x.negative() == negative);
    lemma_size(x);
}

/// A product is off by at most one part in `2^53`, or by half the smallest
/// number.
pub proof fn lemma_mul_error(x: Binary64, y: Binary64)
    requires
        x.is_finite(),
        y.is_finite(),
        size(amount(x) * amount(y)) <= huge(),
    ensures
        (x * y).is_finite(),
        near(
            amount(x * y),
            amount(x) * amount(y),
            ulp() * size(amount(x) * amount(y)) + tiny(),
        ),
{
    reveal(size);
    reveal(Binary64::spec_mul);
    lemma_unit();
    lemma_size(x);
    lemma_size(y);
    let (a, b, u, h) = (size(amount(x)), size(amount(y)), unit(), huge());
    let (m, n) = (magnitude(x.mag()), magnitude(y.mag()));
    lemma_product_cast(m, n);
    let negative = x.negative() != y.negative();
    assert(amount(x) * amount(y) == if negative {
        -(a * b)
    } else {
        a * b
    }) by (nonlinear_arith)
        requires
            negative == (x.negative() != y.negative()),
            amount(x) == if x.negative() {
                -a
            } else {
                a
            },
            amount(y) == if y.negative() {
                -b
            } else {
                b
            },
    ;
    assert(a * b >= 0real) by (nonlinear_arith)
        requires
            a >= 0real,
            b >= 0real,
    ;
    lemma_pow2_pos(1074);
    let q = (m as real) * (n as real);
    assert(q / u / u == a * b && q / u <= h * u) by (nonlinear_arith)
        requires
            q == (m as real) * (n as real),
            m as real == a * u,
            n as real == b * u,
            a * b <= h,
            u > 1real,
    ;
    lemma_quotient_error(m * n, pow2(1074));
    lemma_signed(negative, rounded(m * n, pow2(1074)));
}

/// A quotient is off by at most one part in `2^53`, or by half the smallest
/// number.
pub proof fn lemma_div_error(x: Binary64, y: Binary64)
    requires
        x.is_finite(),
        y.is_finite(),
        amount(y) != 0real,
        size(amount(x) / amount(y)) <= huge(),
    ensures
        (x / y).is_finite(),
        near(
            amount(x / y),
            amount(x) / amount(y),
            ulp() * size(amount(x) / amount(y)) + tiny(),
        ),
{
    reveal(size);
    reveal(Binary64::spec_euclidean_or_real_div);
    lemma_unit();
    lemma_zero();
    lemma_size(x);
    lemma_size(y);
    let (a, b, u, h) = (size(amount(x)), size(amount(y)), unit(), huge());
    let (m, n) = (magnitude(x.mag()), magnitude(y.mag()));
    lemma_pow2_pos(1074);
    lemma_product_cast(m, pow2(1074));
    let negative = x.negative() != y.negative();
    assert(b > 0real);
    assert(n > 0) by (nonlinear_arith)
        requires
            n as real == b * u,
            b > 0real,
            u > 1real,
            n >= 0,
    ;
    assert(y.mag() != 0);
    assert(a / b >= 0real && amount(x) / amount(y) == if negative {
        -(a / b)
    } else {
        a / b
    }) by (nonlinear_arith)
        requires
            a >= 0real,
            b > 0real,
            negative == (x.negative() != y.negative()),
            amount(x) == if x.negative() {
                -a
            } else {
                a
            },
            amount(y) == if y.negative() {
                -b
            } else {
                b
            },
    ;
    let q = (m as real) * u;
    let d = n as real;
    assert(q / d / u == a / b && q / d <= h * u) by (nonlinear_arith)
        requires
            q == (m as real) * u,
            m as real == a * u,
            d == b * u,
            a / b <= h,
            b > 0real,
            u > 1real,
    ;
    lemma_quotient_error(m * pow2(1074), n);
    lemma_signed(negative, rounded(m * pow2(1074), n));
}

/// Half the smallest number stays small when it is scaled.
pub proof fn lemma_tiny(scale: real)
    requires
        0real <= scale <= huge(),
    ensures
        0real <= tiny() * scale <= 1real / 18446744073709551616real,
        tiny() <= 1real / 18446744073709551616real,
{
    lemma_unit();
    lemma_pow2_adds(1000, 74);
    lemma_pow2_adds(64, 10);
    lemma2_to64();
    lemma_product_cast(pow2(1000), pow2(74));
    assert(pow2(74) == pow2(64) * pow2(10));
    assert(pow2(64) == 18446744073709551616 && pow2(10) == 1024);
    let (t, u, h) = (tiny(), unit(), huge());
    let k = pow2(74) as real;
    assert(k == 18446744073709551616real * 1024real);
    assert(t * h == 1real / (2real * k)) by (nonlinear_arith)
        requires
            t == 1real / (2real * u),
            u == h * k,
            h > 1real,
            k == 18446744073709551616real * 1024real,
    ;
    assert(0real <= t * scale <= t * h && t <= t * h) by (nonlinear_arith)
        requires
            t > 0real,
            0real <= scale <= h,
            h > 1real,
    ;
}

/// The number nearest to a fraction.
pub proof fn lemma_ratio_error(num: u64, den: u64)
    requires
        den > 0,
    ensures
        Binary64::ratio(num, den).is_finite(),
        near(
            amount(Binary64::ratio(num, den)),
            (num as real) / (den as real),
            ulp() * ((num as real) / (den as real)) + tiny(),
        ),
        amount(Binary64::ratio(num, den)) >= 0real,
{
    reveal(Binary64::spec_ratio);
    lemma_unit();
    lemma_pow2_pos(1074);
    lemma_product_cast(num as nat, pow2(1074));
    let (n, d, u, h) = (num as real, den as real, unit(), huge());
    assert(n <= h) by {
        lemma2_to64();
        lemma_pow2_strictly_increases(64, 1000);
    }
    let q = n * u;
    assert(q / d / u == n / d && q / d <= h * u) by (nonlinear_arith)
        requires
            q == n * u,
            d >= 1real,
            u > 1real,
            0real <= n <= h,
    ;
    lemma_quotient_error(num as nat * pow2(1074), den as nat);
    lemma_signed(false, rounded(num as nat * pow2(1074), den as nat));
    lemma_size(Binary64::ratio(num, den));
    reveal(size);
}

/// A count is held within a word.
pub proof fn lemma_count(n: usize)
    ensures
        Binary64::from_count(n).is_finite(),
        0real <= amount(Binary64::from_count(n)) <= 36893488147419103232real,
        n == 0 ==> amount(Binary64::from_count(n)) == 0real,
        n > 0 ==> amount(Binary64::from_count(n)) >= 1real / 2real,
        n < 9007199254740992 ==> amount(Binary64::from_count(n)) == n as real,
{
    lemma_ratio_error(n as u64, 1);
    lemma_unit();
    lemma_tiny(1real);
    assert((n as real) / 1real == n as real);
    assert((n as u64) as real == n as real && 1u64 as real == 1real);
    if n < 9007199254740992 {
        lemma_whole_count(n);
        let (u, x) = (unit(), Binary64::from_count(n));
        lemma_pow2_pos(1074);
        lemma_product_cast(n as nat, pow2(1074));
        assert(x.value() as real == (n as real) * u);
        assert(((n as real) * u) / u == n as real) by (nonlinear_arith)
            requires
                u > 1real,
        ;
    }
}

/// The amount of one.
pub proof fn lemma_amount_one()
    ensures
        amount(Binary64::one()) == 1real,
{
    lemma_one();
    lemma_unit();
    let u = unit();
    assert(u / u == 1real) by (nonlinear_arith)
        requires
            u > 1real,
    ;
}

}
