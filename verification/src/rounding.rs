//! Rounding of exact magnitudes to 53 significant bits.
//!
//! A magnitude is a quotient of two naturals, counted in units of `2^-1074`,
//! the distance between the smallest neighbours of the format.

use vstd::arithmetic::div_mod::{lemma_fundamental_div_mod, lemma_fundamental_div_mod_converse};
use vstd::arithmetic::power2::{
    lemma_pow2_adds, lemma_pow2_pos, lemma_pow2_strictly_increases, lemma_pow2_unfold, pow2,
};
use vstd::prelude::*;

verus! {

/// `2^52`, the weight of the leading bit of a normal significand.
pub const HIDDEN: u64 = 0x10_0000_0000_0000;

/// The bits of infinity.
pub const INFINITE: u64 = 0x7ff0_0000_0000_0000;

/// How many bits the integer `n` has beyond the 53 of a significand.
pub open spec fn excess(n: nat) -> nat
    decreases n,
{
    if n < 2 * HIDDEN {
        0
    } else {
        1 + excess(n / 2)
    }
}

/// The integer nearest to `a / c`; of two equally near, the even one.
pub open spec fn nearest_even(a: nat, c: nat) -> nat {
    if 2 * (a % c) < c || (2 * (a % c) == c && (a / c) % 2 == 0) {
        a / c
    } else {
        a / c + 1
    }
}

/// The bits of the magnitude nearest to `a / c`: the exponent field stands
/// above the significand, and whatever is too large becomes infinity.
pub open spec fn rounded(a: nat, c: nat) -> nat {
    let k = excess(a / c);
    let bits = k * (HIDDEN as nat) + nearest_even(a, c * pow2(k));
    if bits > INFINITE {
        INFINITE as nat
    } else {
        bits
    }
}

/// The significand held in the magnitude bits `m`.
pub open spec fn significand(m: nat) -> nat {
    if m < HIDDEN {
        m
    } else {
        (HIDDEN + m % (HIDDEN as nat)) as nat
    }
}

/// The power of two that scales the significand of the magnitude bits `m`.
pub open spec fn scale(m: nat) -> nat {
    if m < HIDDEN {
        0
    } else {
        (m / (HIDDEN as nat) - 1) as nat
    }
}

/// The magnitude that finite magnitude bits stand for.
pub open spec fn magnitude(m: nat) -> nat {
    significand(m) * pow2(scale(m))
}

/// `nearest_even` is the one integer within half a unit that is even on a tie.
pub proof fn lemma_nearest_even_is(a: nat, c: nat, r: nat)
    requires
        c > 0,
        2 * (r * c) - c <= 2 * a <= 2 * (r * c) + c,
        2 * a == 2 * (r * c) - c || 2 * a == 2 * (r * c) + c ==> r % 2 == 0,
    ensures
        nearest_even(a, c) == r,
{
    let q = a / c;
    let m = a % c;
    lemma_fundamental_div_mod(a as int, c as int);
    assert(a == c * q + m && 0 <= m < c);
    assert(q <= r <= q + 1) by (nonlinear_arith)
        requires
            c > 0,
            a == c * q + m,
            0 <= m < c,
            2 * (r * c) - c <= 2 * a <= 2 * (r * c) + c,
    ;
    if r == q {
        assert(r * c == c * q) by (nonlinear_arith)
            requires
                r == q,
        ;
    } else {
        assert(r * c == c * q + c) by (nonlinear_arith)
            requires
                r == q + 1,
        ;
    }
}

/// What `nearest_even` satisfies.
pub proof fn lemma_nearest_even(a: nat, c: nat)
    requires
        c > 0,
    ensures
        2 * (nearest_even(a, c) * c) - c <= 2 * a <= 2 * (nearest_even(a, c) * c) + c,
        2 * a == 2 * (nearest_even(a, c) * c) - c || 2 * a == 2 * (nearest_even(a, c) * c) + c
            ==> nearest_even(a, c) % 2 == 0,
{
    let q = a / c;
    let m = a % c;
    lemma_fundamental_div_mod(a as int, c as int);
    assert(q * c == c * q) by (nonlinear_arith);
    assert((q + 1) * c == c * q + c) by (nonlinear_arith);
}

/// Rounding does not depend on a common factor.
pub proof fn lemma_nearest_even_scaled(a: nat, c: nat, t: nat)
    requires
        c > 0,
        t > 0,
    ensures
        nearest_even(a * t, c * t) == nearest_even(a, c),
{
    let r = nearest_even(a, c);
    lemma_nearest_even(a, c);
    let x = r * c;
    assert(r * (c * t) == x * t) by (nonlinear_arith)
        requires
            x == r * c,
    ;
    assert(2 * (x * t) - c * t <= 2 * (a * t) <= 2 * (x * t) + c * t) by (nonlinear_arith)
        requires
            2 * x - c <= 2 * a <= 2 * x + c,
    ;
    assert(2 * (a * t) == 2 * (x * t) - c * t ==> 2 * a == 2 * x - c) by (nonlinear_arith)
        requires
            t > 0,
    ;
    assert(2 * (a * t) == 2 * (x * t) + c * t ==> 2 * a == 2 * x + c) by (nonlinear_arith)
        requires
            t > 0,
    ;
    assert(c * t > 0) by (nonlinear_arith)
        requires
            c > 0,
            t > 0,
    ;
    lemma_nearest_even_is(a * t, c * t, r);
}

/// Rounding to integers keeps the order.
pub proof fn lemma_nearest_even_monotone(a: nat, b: nat, c: nat)
    requires
        c > 0,
        a <= b,
    ensures
        nearest_even(a, c) <= nearest_even(b, c),
{
    let r = nearest_even(a, c);
    let s = nearest_even(b, c);
    lemma_nearest_even(a, c);
    lemma_nearest_even(b, c);
    if s < r {
        assert(s * c + c <= r * c) by (nonlinear_arith)
            requires
                s + 1 <= r,
        ;
        // Both must then lie on the midpoint between `s` and `r == s + 1`.
        assert(2 * a == 2 * b);
    }
}

/// The number of surplus bits, from the bit length.
pub proof fn lemma_excess_of_length(n: nat, length: nat)
    requires
        length > 0,
        pow2((length - 1) as nat) <= n < pow2(length),
    ensures
        excess(n) == if length <= 53 {
            0
        } else {
            (length - 53) as nat
        },
    decreases length,
{
    lemma_pow2_53();
    if length <= 53 {
        if length < 53 {
            lemma_pow2_strictly_increases(length, 53);
        }
    } else {
        if length > 54 {
            lemma_pow2_strictly_increases(53, (length - 1) as nat);
        }
        lemma_pow2_unfold(length);
        lemma_pow2_unfold((length - 1) as nat);
        lemma_excess_of_length(n / 2, (length - 1) as nat);
    }
}

/// Values of the powers of two that frame a significand.
pub proof fn lemma_pow2_53()
    ensures
        pow2(0) == 1,
        pow2(1) == 2,
        pow2(2) == 4,
        pow2(52) == HIDDEN,
        pow2(53) == 2 * HIDDEN,
        pow2(54) == 4 * HIDDEN,
        pow2(63) == 0x8000_0000_0000_0000,
        pow2(64) == 0x1_0000_0000_0000_0000,
{
    vstd::arithmetic::power2::lemma2_to64();
    vstd::arithmetic::power2::lemma2_to64_rest();
}

/// The surplus bits leave a significand of 53 bits.
pub proof fn lemma_excess(n: nat)
    ensures
        n < pow2(53 + excess(n)),
        excess(n) > 0 ==> n >= pow2(52 + excess(n)),
    decreases n,
{
    lemma_pow2_53();
    if n >= 2 * HIDDEN {
        lemma_excess(n / 2);
        let k = excess(n / 2);
        assert(excess(n) == k + 1);
        lemma_pow2_unfold(53 + excess(n));
        lemma_pow2_unfold(52 + excess(n));
        assert((53 + excess(n) - 1) as nat == 53 + k);
        assert((52 + excess(n) - 1) as nat == 52 + k);
        if k == 0 {
            assert(pow2((52 + k) as nat) == HIDDEN);
            assert(n >= 2 * HIDDEN);
        }
    }
}

/// More bits, more surplus.
pub proof fn lemma_excess_monotone(m: nat, n: nat)
    requires
        m <= n,
    ensures
        excess(m) <= excess(n),
    decreases n,
{
    if m >= 2 * HIDDEN {
        lemma_excess_monotone(m / 2, n / 2);
    }
}

/// `rounded` of `p * 2^e`.
pub open spec fn rounded_scaled(p: nat, e: int) -> nat {
    rounded(p * pow2(raise(e)), pow2(raise(-e)))
}

/// The part of an exponent above zero.
pub open spec fn raise(e: int) -> nat {
    if e > 0 {
        e as nat
    } else {
        0
    }
}

/// Halves the search for the top bit: moves `width` bits of `q` to `length`.
fn narrow(p: Ghost<u128>, q: u128, length: u32, width: u32) -> (r: (u128, u32))
    requires
        q > 0,
        length + width < 0x1000,
        width < 128,
        q * pow2(length as nat) <= p@ < (q + 1) * pow2(length as nat),
        width > 0,
        q < pow2(2 * width as nat),
    ensures
        r.0 > 0,
        length <= r.1 <= length + width,
        r.0 * pow2(r.1 as nat) <= p@ < (r.0 + 1) * pow2(r.1 as nat),
        r.0 < pow2(width as nat),
{
    let top: u128 = q >> width;
    proof {
        vstd::bits::lemma_u128_shr_is_div(q, width as u128);
        lemma_pow2_pos(width as nat);
        lemma_pow2_pos(length as nat);
        lemma_fundamental_div_mod(q as int, pow2(width as nat) as int);
        lemma_pow2_adds(length as nat, width as nat);
        lemma_pow2_adds(width as nat, width as nat);
    }
    let ghost w = pow2(width as nat);
    let ghost l = pow2(length as nat);
    if top > 0 {
        proof {
            let m = q as nat % w;
            assert(q == w * top + m && 0 <= m < w);
            assert(top * (l * w) <= p@ < (top + 1) * (l * w)) by (nonlinear_arith)
                requires
                    q * l <= p@ < (q + 1) * l,
                    q == w * top + m,
                    0 <= m < w,
                    l > 0,
            ;
            assert(top < w) by (nonlinear_arith)
                requires
                    q == w * top + m,
                    0 <= m,
                    q < w * w,
                    w > 0,
            ;
        }
        (top, length + width)
    } else {
        assert(w * top == 0) by (nonlinear_arith)
            requires
                top == 0,
        ;
        (q, length)
    }
}

/// The number of bits of a positive integer.
pub fn bit_length(p: u128) -> (length: u32)
    requires
        p > 0,
    ensures
        0 < length <= 128,
        pow2((length - 1) as nat) <= p < pow2(length as nat),
{
    let g: Ghost<u128> = Ghost(p);
    proof {
        lemma_pow2_53();
        lemma_pow2_adds(64, 64);
        assert(pow2(128) == 0x1_0000_0000_0000_0000 * 0x1_0000_0000_0000_0000);
    }
    let (q, l): (u128, u32) = narrow(g, p, 0, 64);
    let (q, l): (u128, u32) = narrow(g, q, l, 32);
    let (q, l): (u128, u32) = narrow(g, q, l, 16);
    let (q, l): (u128, u32) = narrow(g, q, l, 8);
    let (q, l): (u128, u32) = narrow(g, q, l, 4);
    let (q, l): (u128, u32) = narrow(g, q, l, 2);
    let (q, l): (u128, u32) = narrow(g, q, l, 1);
    proof {
        assert(q == 1);
        lemma_pow2_unfold((l + 1) as nat);
    }
    l + 1
}

/// The bits of the magnitude nearest to `p * 2^e`.
pub fn round_scaled(p: u128, e: i32) -> (m: u64)
    requires
        p < pow2(127),
        -4000 <= e <= 3200,
    ensures
        m == rounded_scaled(p as nat, e as int),
        m <= INFINITE,
{
    let ghost up = pow2(raise(e as int));
    let ghost down = pow2(raise(-e));
    proof {
        lemma_pow2_53();
        lemma_pow2_pos(raise(e as int));
        lemma_pow2_pos(raise(-e));
    }
    if p == 0 {
        proof {
            assert(0 * up == 0) by (nonlinear_arith);
            assert(0nat / down == 0) by {
                lemma_fundamental_div_mod_converse(0, down as int, 0, 0);
            }
            assert(down * pow2(0) == down) by (nonlinear_arith)
                requires
                    pow2(0) == 1,
            ;
            assert(0 * down == 0) by (nonlinear_arith);
            lemma_nearest_even_is(0, down, 0);
        }
        return 0;
    }
    let length: i32 = bit_length(p) as i32;
    let k: i32 = if length + e > 53 {
        length + e - 53
    } else {
        0
    };
    proof {
        lemma_surplus(p as nat, e as int, length as int);
    }
    let s: i32 = k - e;
    let r: u64 = if s <= 0 {
        proof {
            let shift = (e - k) as nat;
            lemma_pow2_pos(shift);
            lemma_pow2_adds(shift, k as nat);
            lemma_pow2_adds(length as nat, shift);
            assert(p * pow2(shift) < pow2(length as nat) * pow2(shift)) by (nonlinear_arith)
                requires
                    p < pow2(length as nat),
                    pow2(shift) > 0,
            ;
            assert(length + shift <= 53);
            if length + shift < 53 {
                lemma_pow2_strictly_increases((length + shift) as nat, 53);
            }
            lemma_shl(p, (e - k) as u128);
            let v = p as nat * pow2(shift);
            assert(p * up == v * pow2(k as nat)) by (nonlinear_arith)
                requires
                    v == p as nat * pow2(shift),
                    up == pow2(shift) * pow2(k as nat),
            ;
            assert(1 * pow2(k as nat) == pow2(k as nat)) by (nonlinear_arith);
            lemma_pow2_pos(k as nat);
            lemma_nearest_even_scaled(v, 1, pow2(k as nat));
            lemma_nearest_even_is(v, 1, v);
            assert(down == 1);
            assert(down * pow2(k as nat) == pow2(k as nat)) by (nonlinear_arith)
                requires
                    down == 1,
            ;
        }
        (p << ((e - k) as u32)) as u64
    } else {
        proof {
            lemma_pow2_pos(s as nat);
            if e >= 0 {
                lemma_pow2_adds(s as nat, e as nat);
                lemma_nearest_even_scaled(p as nat, pow2(s as nat), up);
                assert(down * pow2(k as nat) == pow2(s as nat) * up) by (nonlinear_arith)
                    requires
                        down == 1,
                        pow2(k as nat) == pow2(s as nat) * up,
                ;
            } else {
                lemma_pow2_adds((-e) as nat, k as nat);
                assert(p * up == p) by (nonlinear_arith)
                    requires
                        up == 1,
                ;
            }
            assert(nearest_even(p as nat * up, down * pow2(k as nat)) == nearest_even(
                p as nat,
                pow2(s as nat),
            ));
        }
        if s > 127 {
            proof {
                lemma_pow2_unfold(s as nat);
                if s > 128 {
                    lemma_pow2_strictly_increases(127, (s - 1) as nat);
                }
                assert(0 * pow2(s as nat) == 0) by (nonlinear_arith);
                lemma_nearest_even_is(p as nat, pow2(s as nat), 0);
            }
            0
        } else {
            proof {
                lemma_pow2_adds(64, 64);
                lemma_pow2_strictly_increases(s as nat, 128);
                lemma_shl(1u128, s as u128);
                vstd::bits::lemma_u128_shr_is_div(p, s as u128);
                lemma_fundamental_div_mod(p as int, pow2(s as nat) as int);
            }
            let d: u128 = 1u128 << (s as u32);
            let q: u128 = p >> (s as u32);
            proof {
                lemma_quotient_bound(p as nat, s as nat, length as nat);
                assert(q * d == d * q) by (nonlinear_arith);
            }
            let rest: u128 = p - q * d;
            if rest < d - rest || (rest == d - rest && q % 2 == 0) {
                q as u64
            } else {
                (q + 1) as u64
            }
        }
    };
    assert(r == nearest_even(p as nat * up, down * pow2(k as nat)));
    assert(r <= 2 * HIDDEN);
    let bits: u64 = (k as u64) * HIDDEN + r;
    if bits > INFINITE {
        INFINITE
    } else {
        bits
    }
}

/// The surplus of `p * 2^e` where `p` has `length` bits.
proof fn lemma_surplus(p: nat, e: int, length: int)
    requires
        length > 0,
        pow2((length - 1) as nat) <= p < pow2(length as nat),
    ensures
        excess(p * pow2(raise(e)) / pow2(raise(-e))) == raise(length + e - 53),
{
    lemma_pow2_53();
    if e >= 0 {
        let up = pow2(e as nat);
        lemma_pow2_pos(e as nat);
        lemma_pow2_adds((length - 1) as nat, e as nat);
        lemma_pow2_adds(length as nat, e as nat);
        assert(pow2((length - 1) as nat) * up <= p * up < pow2(length as nat) * up)
            by (nonlinear_arith)
            requires
                pow2((length - 1) as nat) <= p < pow2(length as nat),
                up > 0,
        ;
        assert((p * up) / 1 == p * up);
        lemma_excess_of_length(p * up, (length + e) as nat);
    } else {
        let t = (-e) as nat;
        let down = pow2(t);
        lemma_pow2_pos(t);
        assert(p * pow2(0) == p) by (nonlinear_arith)
            requires
                pow2(0) == 1,
        ;
        let q = p / down;
        let m = p % down;
        lemma_fundamental_div_mod(p as int, down as int);
        if length > t {
            lemma_pow2_adds((length - 1 - t) as nat, t);
            lemma_pow2_adds((length - t) as nat, t);
            let low = pow2((length - 1 - t) as nat);
            let high = pow2((length - t) as nat);
            assert(low <= q < high) by (nonlinear_arith)
                requires
                    low * down <= p < high * down,
                    p == down * q + m,
                    0 <= m < down,
            ;
            lemma_excess_of_length(q, (length - t) as nat);
        } else {
            if length < t {
                lemma_pow2_strictly_increases(length as nat, t);
            }
            lemma_fundamental_div_mod_converse(p as int, down as int, 0, p as int);
        }
    }
}

/// A `length`-bit integer loses `s` bits on division by `2^s`.
proof fn lemma_quotient_bound(p: nat, s: nat, length: nat)
    requires
        length <= s + 53,
        p < pow2(length),
    ensures
        p / pow2(s) < 2 * HIDDEN,
        p / pow2(s) * pow2(s) <= p,
{
    lemma_pow2_53();
    lemma_pow2_pos(s);
    lemma_pow2_adds(53, s);
    if length < s + 53 {
        lemma_pow2_strictly_increases(length, s + 53);
    }
    let d = pow2(s);
    let q = p / d;
    let m = p % d;
    lemma_fundamental_div_mod(p as int, d as int);
    assert(q < pow2(53) && q * d <= p) by (nonlinear_arith)
        requires
            p == d * q + m,
            0 <= m < d,
            p < pow2(53) * d,
    ;
}

/// A left shift that loses no bit multiplies by a power of two.
pub proof fn lemma_shl(x: u128, s: u128)
    requires
        s < 128,
        x * pow2(s as nat) <= u128::MAX,
    ensures
        x << s == x * pow2(s as nat),
    decreases s,
{
    if s == 0 {
        assert(x << 0 == x) by (bit_vector);
        lemma_pow2_53();
        assert(x * pow2(0) == x) by (nonlinear_arith)
            requires
                pow2(0) == 1,
        ;
    } else {
        let t = (s - 1) as u128;
        lemma_pow2_unfold(s as nat);
        let h = pow2(t as nat);
        assert(2 * (x * h) == x * (2 * h)) by (nonlinear_arith);
        lemma_shl(x, t);
        let y = x << t;
        assert(x << s == (x << t) << 1) by (bit_vector)
            requires
                0 < s < 128,
                t == s - 1,
        ;
        assert(y << 1 == 2 * y) by (bit_vector)
            requires
                y < 0x8000_0000_0000_0000_0000_0000_0000_0000,
        ;
    }
}

/// Rounding only looks at whether anything is left below the last integer:
/// `q` and a proper fraction round as `q` and a half do, on an even grid.
proof fn lemma_sticky(q: nat, rest: nat, c: nat, d: nat)
    requires
        c > 0,
        d > 0,
        0 < rest < c,
    ensures
        nearest_even(q * c + rest, 2 * d * c) == nearest_even(2 * q + 1, 4 * d),
{
    let r = nearest_even(2 * q + 1, 4 * d);
    lemma_nearest_even(2 * q + 1, 4 * d);
    let x = r * d;
    assert(r * (4 * d) == 4 * x) by (nonlinear_arith)
        requires
            x == r * d,
    ;
    assert(2 * x - d <= q <= 2 * x + d - 1);
    let a = q * c + rest;
    assert(r * (2 * d * c) == 2 * (x * c)) by (nonlinear_arith)
        requires
            x == r * d,
    ;
    assert(2 * (2 * (x * c)) - 2 * d * c < 2 * a < 2 * (2 * (x * c)) + 2 * d * c)
        by (nonlinear_arith)
        requires
            2 * x - d <= q <= 2 * x + d - 1,
            0 < rest < c,
            a == q * c + rest,
    ;
    assert(2 * d * c > 0) by (nonlinear_arith)
        requires
            c > 0,
            d > 0,
    ;
    lemma_nearest_even_is(a, 2 * d * c, r);
}

/// A common factor changes neither the integer part nor the rounding.
pub proof fn lemma_rounded_scaled(a: nat, c: nat, t: nat)
    requires
        c > 0,
        t > 0,
    ensures
        rounded(a * t, c * t) == rounded(a, c),
{
    let q = a / c;
    let m = a % c;
    lemma_fundamental_div_mod(a as int, c as int);
    assert(a * t == q * (c * t) + m * t && 0 <= m * t < c * t) by (nonlinear_arith)
        requires
            a == c * q + m,
            0 <= m < c,
            t > 0,
    ;
    lemma_fundamental_div_mod_converse((a * t) as int, (c * t) as int, q as int, (m * t) as int);
    let k = pow2(excess(q));
    lemma_pow2_pos(excess(q));
    assert(c * t * k == c * k * t) by (nonlinear_arith);
    assert(c * k > 0) by (nonlinear_arith)
        requires
            c > 0,
            k > 0,
    ;
    lemma_nearest_even_scaled(a, c * k, t);
}

/// Equal quotients round alike.
pub proof fn lemma_rounded_same(a: nat, c: nat, b: nat, d: nat)
    requires
        c > 0,
        d > 0,
        a * d == b * c,
    ensures
        rounded(a, c) == rounded(b, d),
{
    lemma_rounded_scaled(a, c, d);
    lemma_rounded_scaled(b, d, c);
    assert(c * d == d * c) by (nonlinear_arith);
}

/// Folds the two parts of an exponent into one shift of the divisor.
proof fn lemma_fold_exponent(x: nat, c: nat, e: int, k: nat)
    requires
        c > 0,
        k >= e,
    ensures
        nearest_even(x * pow2(raise(e)), c * pow2(raise(-e)) * pow2(k)) == nearest_even(
            x,
            c * pow2((k - e) as nat),
        ),
{
    let s = (k - e) as nat;
    lemma_pow2_53();
    lemma_pow2_pos(s);
    lemma_pow2_pos(raise(e));
    assert(c * pow2(s) > 0) by (nonlinear_arith)
        requires
            c > 0,
            pow2(s) > 0,
    ;
    if e >= 0 {
        let up = pow2(raise(e));
        lemma_pow2_adds(s, raise(e));
        assert(s + raise(e) == k);
        assert(c * pow2(raise(-e)) * pow2(k) == c * pow2(s) * up) by (nonlinear_arith)
            requires
                pow2(raise(-e)) == 1,
                pow2(k) == pow2(s) * up,
        ;
        lemma_nearest_even_scaled(x, c * pow2(s), up);
    } else {
        lemma_pow2_adds(raise(-e), k);
        assert(raise(-e) + k == s);
        assert(c * pow2(raise(-e)) * pow2(k) == c * pow2(s)) by (nonlinear_arith)
            requires
                pow2(s) == pow2(raise(-e)) * pow2(k),
        ;
        assert(x * pow2(raise(e)) == x) by (nonlinear_arith)
            requires
                pow2(raise(e)) == 1,
        ;
    }
}

/// A quotient with a remainder rounds as its integer part and a half.
proof fn lemma_sticky_quotient(q: nat, rest: nat, c: nat, e: int, length: int)
    requires
        0 < rest < c,
        length >= 54,
        pow2((length - 1) as nat) <= q < pow2(length as nat),
    ensures
        rounded((q * c + rest) * pow2(raise(e)), c * pow2(raise(-e))) == rounded_scaled(
            2 * q + 1,
            e - 1,
        ),
{
    lemma_pow2_53();
    let x = q * c + rest;
    let up = pow2(raise(e));
    let down = pow2(raise(-e));
    lemma_pow2_pos(raise(e));
    lemma_pow2_pos(raise(-e));
    let k = raise(length + e - 53);
    assert(c * down > 0) by (nonlinear_arith)
        requires
            c > 0,
            down > 0,
    ;
    assert(excess((x * up) / (c * down)) == k) by {
        lemma_surplus(q, e, length);
        if e >= 0 {
            let v = (x * up) / (c * down);
            let m = (x * up) % (c * down);
            lemma_fundamental_div_mod((x * up) as int, (c * down) as int);
            assert(c * down == c) by (nonlinear_arith)
                requires
                    down == 1,
            ;
            assert(q * up <= v < (q + 1) * up) by (nonlinear_arith)
                requires
                    x * up == c * v + m,
                    0 <= m < c,
                    x == q * c + rest,
                    0 < rest < c,
                    up > 0,
            ;
            let low = pow2((length - 1) as nat);
            let high = pow2(length as nat);
            lemma_pow2_adds((length - 1) as nat, raise(e));
            lemma_pow2_adds(length as nat, raise(e));
            assert(low * up <= q * up && (q + 1) * up <= high * up) by (nonlinear_arith)
                requires
                    low <= q,
                    q + 1 <= high,
                    up > 0,
            ;
            lemma_excess_of_length(v, (length + e) as nat);
        } else {
            assert(x * up == x) by (nonlinear_arith)
                requires
                    up == 1,
            ;
            assert(q * up == q) by (nonlinear_arith)
                requires
                    up == 1,
            ;
            let v = q / down;
            let m = q % down;
            lemma_fundamental_div_mod(q as int, down as int);
            let w = m * c + rest;
            assert(x == v * (c * down) + w && 0 <= w < c * down) by (nonlinear_arith)
                requires
                    x == q * c + rest,
                    q == down * v + m,
                    0 <= m <= down - 1,
                    0 < rest < c,
                    w == m * c + rest,
            ;
            lemma_fundamental_div_mod_converse(x as int, (c * down) as int, v as int, w as int);
        }
    }
    lemma_pow2_unfold((length + 1) as nat);
    lemma_pow2_unfold(length as nat);
    lemma_surplus(2 * q + 1, e - 1, length + 1);
    assert(pow2(raise(-(e - 1))) == 1 * pow2(raise(-(e - 1))));
    let s = (k - e) as nat;
    lemma_fold_exponent(x, c, e, k);
    lemma_fold_exponent(2 * q + 1, 1, e - 1, k);
    assert(1 * pow2(raise(-(e - 1))) * pow2(k) == pow2(raise(-(e - 1))) * pow2(k))
        by (nonlinear_arith);
    let d = pow2((s - 1) as nat);
    lemma_pow2_pos((s - 1) as nat);
    lemma_pow2_unfold(s);
    lemma_pow2_unfold(s + 1);
    assert((k - (e - 1)) as nat == s + 1);
    assert(1 * pow2(s + 1) == 4 * d);
    assert(c * pow2(s) == 2 * d * c) by (nonlinear_arith)
        requires
            pow2(s) == 2 * d,
    ;
    lemma_sticky(q, rest, c, d);
}

/// The bits of the magnitude nearest to `num / den * 2^e`.
pub fn round_quotient(num: u64, den: u64, e: i32) -> (m: u64)
    requires
        den > 0,
        -3000 <= e <= 3200,
    ensures
        m == rounded(num as nat * pow2(raise(e as int)), den as nat * pow2(raise(-e))),
        m <= INFINITE,
{
    // Bring the numerator to 125 bits, so that the quotient has at least 61.
    let wide: u128 = num as u128;
    proof {
        lemma_pow2_53();
        lemma_pow2_adds(64, 61);
        lemma_pow2_adds(64, 63);
        vstd::arithmetic::power2::lemma2_to64_rest();
        assert(pow2(125) == 0x2000_0000_0000_0000_0000_0000_0000_0000);
        assert(pow2(127) == 0x8000_0000_0000_0000_0000_0000_0000_0000);
    }
    let shift: u32 = if num == 0 {
        0
    } else {
        let length: u32 = bit_length(wide);
        proof {
            if length > 65 {
                lemma_pow2_strictly_increases(64, (length - 1) as nat);
            }
            assert(length <= 64);
        }
        125 - length
    };
    proof {
        if num > 0 {
            let l = (125 - shift) as nat;
            lemma_pow2_adds(l, shift as nat);
            lemma_pow2_adds((l - 1) as nat, shift as nat);
            lemma_pow2_pos(shift as nat);
            assert(pow2((l - 1) as nat) * pow2(shift as nat) <= wide * pow2(shift as nat) < pow2(l)
                * pow2(shift as nat)) by (nonlinear_arith)
                requires
                    pow2((l - 1) as nat) <= wide < pow2(l),
                    pow2(shift as nat) > 0,
            ;
            assert(((l - 1) as nat + shift as nat) == 124);
            assert(l + shift as nat == 125);
        } else {
            assert(wide * pow2(shift as nat) == 0) by (nonlinear_arith)
                requires
                    wide == 0,
            ;
        }
        lemma_shl(wide, shift as u128);
    }
    let n: u128 = wide << shift;
    let d: u128 = den as u128;
    let q: u128 = n / d;
    proof {
        lemma_fundamental_div_mod(n as int, d as int);
        assert(q * d == d * q) by (nonlinear_arith);
    }
    let rest: u128 = n - q * d;
    let f: i32 = e - shift as i32;
    proof {
        lemma_quotient_parts(num as nat, den as nat, e as int, shift as nat);
        assert(q <= n) by (nonlinear_arith)
            requires
                n == d * q + rest,
                d >= 1,
                rest >= 0,
        ;
    }
    if rest == 0 {
        proof {
            lemma_pow2_pos(raise(-f));
            let up = pow2(raise(f as int));
            let down = pow2(raise(-f));
            assert(n * up * down == q * up * (den * down)) by (nonlinear_arith)
                requires
                    n == q * den,
            ;
            assert(den * down > 0) by (nonlinear_arith)
                requires
                    den > 0,
                    down > 0,
            ;
            lemma_rounded_same(n as nat * up, den as nat * down, q as nat * up, down);
        }
        round_scaled(q, f)
    } else {
        proof {
            if num == 0 {
                assert(false);
            }
            lemma_pow2_adds(64, 60);
            lemma_pow2_unfold(125);
            assert(pow2(124) == 0x1000_0000_0000_0000_0000_0000_0000_0000);
            assert(q >= 0x1000_0000_0000_0000) by (nonlinear_arith)
                requires
                    n == d * q + rest,
                    n >= 0x1000_0000_0000_0000_0000_0000_0000_0000,
                    rest < d,
                    d <= 0x1_0000_0000_0000_0000,
            ;
        }
        proof {
            lemma_length_exists(q as nat);
            let length = choose|length: int|
                length > 0 && pow2((length - 1) as nat) <= q < #[trigger] pow2(length as nat);
            if length < 54 {
                lemma_pow2_strictly_increases(length as nat, 54);
            }
            lemma_sticky_quotient(q as nat, rest as nat, d as nat, f as int, length);
        }
        round_scaled(2 * q + 1, f - 1)
    }
}

/// Every positive integer has a bit length.
proof fn lemma_length_exists(q: nat)
    requires
        q > 0,
    ensures
        exists|length: int|
            length > 0 && pow2((length - 1) as nat) <= q < #[trigger] pow2(length as nat),
    decreases q,
{
    lemma_pow2_53();
    if q == 1 {
        assert(pow2((1 - 1) as nat) <= q < pow2(1int as nat));
    } else {
        lemma_length_exists(q / 2);
        let l = choose|length: int|
            length > 0 && pow2((length - 1) as nat) <= q / 2 < #[trigger] pow2(length as nat);
        lemma_pow2_unfold((l + 1) as nat);
        lemma_pow2_unfold(l as nat);
        assert(pow2((l + 1 - 1) as nat) <= q < pow2((l + 1) as nat));
    }
}

/// Shifting the numerator and lowering the exponent keeps the quotient.
proof fn lemma_quotient_parts(num: nat, den: nat, e: int, shift: nat)
    requires
        den > 0,
    ensures
        rounded(num * pow2(raise(e)), den * pow2(raise(-e))) == rounded(
            num * pow2(shift) * pow2(raise(e - shift)),
            den * pow2(raise(-(e - shift))),
        ),
{
    let f = e - shift;
    let (eu, ed, fu, fd) = (raise(e), raise(-e), raise(f), raise(-f));
    assert(eu + fd == shift + fu + ed);
    lemma_pow2_adds(eu, fd);
    lemma_pow2_adds(shift, fu);
    lemma_pow2_adds(shift + fu, ed);
    lemma_pow2_pos(ed);
    lemma_pow2_pos(fd);
    let (a, b, c, d, s) = (pow2(eu), pow2(ed), pow2(fu), pow2(fd), pow2(shift));
    assert(a * d == s * c * b);
    assert((num * a) * (den * d) == (num * s * c) * (den * b)) by (nonlinear_arith)
        requires
            a * d == s * c * b,
    ;
    assert(den * b > 0 && den * d > 0) by (nonlinear_arith)
        requires
            den > 0,
            b > 0,
            d > 0,
    ;
    lemma_rounded_same(num * a, den * b, num * s * c, den * d);
}

/// How magnitude bits split into their two fields.
pub proof fn lemma_fields(m: nat)
    ensures
        m == scale(m) * HIDDEN + significand(m),
        significand(m) < 2 * HIDDEN,
        scale(m) > 0 ==> significand(m) >= HIDDEN,
        m < INFINITE ==> scale(m) <= 2045,
{
    lemma_fundamental_div_mod(m as int, HIDDEN as int);
}

/// The integer `x` rounds to `r` units of `2^k` when it is `k` bits too long.
proof fn lemma_rounded_integer(x: nat, k: nat, r: nat)
    requires
        x < pow2(53 + k),
        k > 0 ==> x >= pow2(52 + k),
        2 * (r * pow2(k)) - pow2(k) <= 2 * x <= 2 * (r * pow2(k)) + pow2(k),
        2 * x == 2 * (r * pow2(k)) - pow2(k) || 2 * x == 2 * (r * pow2(k)) + pow2(k) ==> r % 2 == 0,
        k * HIDDEN + r < INFINITE,
    ensures
        rounded(x, 1) == k * HIDDEN + r,
{
    lemma_pow2_53();
    lemma_pow2_pos(k);
    assert(x / 1 == x);
    if k > 0 {
        lemma_excess_of_length(x, 53 + k);
    } else {
        assert(x < 2 * HIDDEN);
    }
    assert(1 * pow2(k) == pow2(k));
    lemma_nearest_even_is(x, pow2(k), r);
}

/// A magnitude is its own rounding.
pub proof fn lemma_rounded_magnitude(m: nat)
    requires
        m < INFINITE,
    ensures
        rounded(magnitude(m), 1) == m,
{
    lemma_pow2_pos(scale(m));
    lemma_absorbed(m, 0);
}

/// What is less than a quarter of a unit is absorbed.
pub proof fn lemma_absorbed(m: nat, y: nat)
    requires
        m < INFINITE,
        4 * y < pow2(scale(m)),
        y == 0 || scale(m) > 0,
    ensures
        y <= magnitude(m),
        rounded(magnitude(m) + y, 1) == m,
        rounded((magnitude(m) - y) as nat, 1) == m,
{
    lemma_fields(m);
    lemma_pow2_53();
    let k = scale(m);
    let f = significand(m);
    let u = pow2(k);
    let x = magnitude(m);
    lemma_pow2_pos(k);
    lemma_pow2_adds(53, k);
    lemma_pow2_adds(52, k);
    assert(x + u <= 2 * HIDDEN * u) by (nonlinear_arith)
        requires
            x == f * u,
            f + 1 <= 2 * HIDDEN,
            u > 0,
    ;
    if k > 0 {
        assert(HIDDEN * u <= x) by (nonlinear_arith)
            requires
                x == f * u,
                HIDDEN <= f,
                u > 0,
        ;
    }
    assert(x + y < pow2(53 + k));
    lemma_rounded_integer(x + y, k, f);
    if y == 0 {
    } else {
        assert(u <= HIDDEN * u) by (nonlinear_arith)
            requires
                u > 0,
        ;
        if f > HIDDEN {
            assert(HIDDEN * u + u <= x) by (nonlinear_arith)
                requires
                    x == f * u,
                    HIDDEN + 1 <= f,
                    u > 0,
            ;
            lemma_rounded_integer((x - y) as nat, k, f);
        } else {
            // Just below a power of two the units are half as large.
            let j = (k - 1) as nat;
            lemma_pow2_unfold(k);
            let h = pow2(j);
            assert(u == 2 * h);
            lemma_pow2_adds(53, j);
            lemma_pow2_adds(52, j);
            assert(x == 2 * HIDDEN * h) by (nonlinear_arith)
                requires
                    x == HIDDEN * u,
                    u == 2 * h,
            ;
            let r = (2 * HIDDEN) as nat;
            assert(r * h == x);
            assert(53 + j == 52 + k);
            assert(2 * (r * h) - h <= 2 * (x - y));
            assert(k * HIDDEN == j * HIDDEN + HIDDEN) by (nonlinear_arith)
                requires
                    k == j + 1,
            ;
            assert(x - y >= pow2(52 + j)) by {
                assert(h <= HIDDEN * h) by (nonlinear_arith)
                    requires
                        h > 0,
                ;
                assert(2 * (HIDDEN * h) == 2 * HIDDEN * h) by (nonlinear_arith);
            }
            lemma_rounded_integer((x - y) as nat, j, r);
        }
    }
}

/// Rounding keeps the order of magnitudes.
pub proof fn lemma_rounded_monotone(a: nat, b: nat, c: nat)
    requires
        c > 0,
        a <= b,
    ensures
        rounded(a, c) <= rounded(b, c),
{
    let (p, q) = (a / c, b / c);
    let (i, j) = (excess(p), excess(q));
    vstd::arithmetic::div_mod::lemma_div_is_ordered(a as int, b as int, c as int);
    lemma_excess_monotone(p, q);
    lemma_pow2_pos(i);
    lemma_pow2_pos(j);
    assert(c * pow2(i) > 0 && c * pow2(j) > 0) by (nonlinear_arith)
        requires
            c > 0,
            pow2(i) > 0,
            pow2(j) > 0,
    ;
    if i == j {
        lemma_nearest_even_monotone(a, b, c * pow2(i));
    } else {
        lemma_pow2_53();
        lemma_excess(p);
        lemma_excess(q);
        lemma_pow2_adds(53, i);
        lemma_pow2_adds(52, j);
        lemma_fundamental_div_mod(a as int, c as int);
        lemma_fundamental_div_mod(b as int, c as int);
        let u = pow2(i);
        let v = pow2(j);
        let r = nearest_even(a, c * u);
        let s = nearest_even(b, c * v);
        lemma_nearest_even(a, c * u);
        lemma_nearest_even(b, c * v);
        let (x, y) = (a % c, b % c);
        assert(a < 2 * HIDDEN * (c * u)) by (nonlinear_arith)
            requires
                a == c * p + x,
                0 <= x < c,
                p + 1 <= 2 * HIDDEN * u,
        ;
        assert(b >= HIDDEN * (c * v)) by (nonlinear_arith)
            requires
                b == c * q + y,
                0 <= y,
                q >= HIDDEN * v,
        ;
        let cu = c * u;
        let cv = c * v;
        assert(r <= 2 * HIDDEN) by (nonlinear_arith)
            requires
                2 * (r * cu) - cu <= 2 * a,
                a < 2 * HIDDEN * cu,
                cu > 0,
        ;
        assert(s >= HIDDEN) by (nonlinear_arith)
            requires
                2 * b <= 2 * (s * cv) + cv,
                b >= HIDDEN * cv,
                cv > 0,
        ;
        assert(i * HIDDEN + HIDDEN <= j * HIDDEN) by (nonlinear_arith)
            requires
                i + 1 <= j,
        ;
    }
}

/// Magnitudes are ordered as their bits are.
pub proof fn lemma_magnitude_monotone(m: nat, n: nat)
    requires
        m < n,
    ensures
        magnitude(m) < magnitude(n),
{
    lemma_fields(m);
    lemma_fields(n);
    let (i, j) = (scale(m), scale(n));
    let (f, g) = (significand(m), significand(n));
    let (u, v) = (pow2(i), pow2(j));
    lemma_pow2_pos(i);
    lemma_pow2_pos(j);
    if i == j {
        assert(f * u < g * u) by (nonlinear_arith)
            requires
                f < g,
                u > 0,
        ;
    } else {
        assert(i < j) by (nonlinear_arith)
            requires
                i * HIDDEN + f < j * HIDDEN + g,
                i != j,
                f < 2 * HIDDEN,
                g < 2 * HIDDEN,
                i > 0 ==> f >= HIDDEN,
                j > 0 ==> g >= HIDDEN,
        ;
        lemma_pow2_unfold(j);
        if i < j - 1 {
            lemma_pow2_strictly_increases(i, (j - 1) as nat);
        }
        assert(f * u < g * v) by (nonlinear_arith)
            requires
                f < 2 * HIDDEN,
                g >= HIDDEN,
                2 * u <= v,
                u > 0,
        ;
    }
}

}
