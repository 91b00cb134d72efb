//! Signs and order through rounded arithmetic.

use crate::binary64::{law_add_monotone, Binary64};
use crate::rounding::{
    lemma_magnitude_monotone, lemma_pow2_53, lemma_rounded_magnitude, lemma_rounded_monotone,
    lemma_rounded_scaled, magnitude, rounded, scale, significand, HIDDEN,
};
use vstd::arithmetic::power2::{lemma_pow2_pos, pow2};
use vstd::prelude::*;

verus! {

/// Not below zero; what is no number is not.
pub open spec fn not_negative(x: Binary64) -> bool {
    !x.lt(Binary64::zero())
}

/// `q` is no number, or not below `p`.
pub open spec fn at_least(q: Binary64, p: Binary64) -> bool {
    q.is_nan() || p.le(q)
}

/// Zero stands for nothing, and rounds to nothing.
pub proof fn lemma_zero()
    ensures
        magnitude(0) == 0,
        forall|c: nat| c > 0 ==> #[trigger] rounded(0, c) == 0,
{
    assert(magnitude(0) == 0) by {
        assert(0 * pow2(0) == 0) by (nonlinear_arith);
    }
    assert forall|c: nat| c > 0 implies #[trigger] rounded(0, c) == 0 by {
        let z: nat = 0;
        assert(z / c == 0) by {
            vstd::arithmetic::div_mod::lemma_basic_div(0, c as int);
        }
        lemma_pow2_pos(0);
        assert(pow2(0) == 1) by {
            vstd::arithmetic::power2::lemma2_to64();
        }
        assert(c * 1 == c) by (nonlinear_arith);
        assert(z % c == 0) by {
            vstd::arithmetic::div_mod::lemma_small_mod(0, c);
        }
    }
}

/// Sums of what is not below zero are not below zero.
pub proof fn lemma_add_sign(x: Binary64, y: Binary64)
    requires
        not_negative(x),
        not_negative(y),
    ensures
        not_negative(x + y),
        !x.negative() || !y.negative() ==> !(x + y).negative(),
{
    reveal(Binary64::spec_add);
    lemma_zero();
}

/// Products of what is not below zero are not below zero.
pub proof fn lemma_mul_sign(x: Binary64, y: Binary64)
    requires
        not_negative(x),
        not_negative(y),
    ensures
        not_negative(x * y),
        !x.negative() && !y.negative() ==> !(x * y).negative(),
{
    reveal(Binary64::spec_mul);
    lemma_zero();
    lemma_pow2_pos(1074);
    if x.mag() == 0 {
        assert(magnitude(x.mag()) * magnitude(y.mag()) == 0) by (nonlinear_arith)
            requires
                magnitude(x.mag()) == 0,
        ;
    }
    if y.mag() == 0 {
        assert(magnitude(x.mag()) * magnitude(y.mag()) == 0) by (nonlinear_arith)
            requires
                magnitude(y.mag()) == 0,
        ;
    }
}

/// Quotients of what is not below zero by what has no sign are not below zero.
pub proof fn lemma_div_sign(x: Binary64, y: Binary64)
    requires
        not_negative(x),
        !y.negative(),
    ensures
        not_negative(x / y),
{
    reveal(Binary64::spec_euclidean_or_real_div);
    lemma_zero();
    if x.mag() == 0 && y.mag() > 0 {
        lemma_magnitude_monotone(0, y.mag());
        assert(magnitude(x.mag()) * pow2(1074) == 0) by (nonlinear_arith)
            requires
                magnitude(x.mag()) == 0,
        ;
    }
}

/// A size is not below zero.
pub proof fn lemma_abs_sign(x: Binary64)
    ensures
        not_negative(x.abs()),
        !x.abs().negative(),
        x.abs().mag() == x.mag(),
{
    reveal(Binary64::spec_abs);
}

/// Adding what is not below zero does not lower a number.
pub proof fn lemma_add_raises(q: Binary64, p: Binary64, c: Binary64)
    requires
        at_least(q, p),
        not_negative(c),
    ensures
        at_least(q + c, p),
{
    reveal(Binary64::spec_add);
    let z = Binary64::zero();
    lemma_zero();
    if !q.is_nan() && !c.is_nan() {
        law_add_monotone(c, z, q);
        if q.is_finite() {
            lemma_rounded_magnitude(q.mag());
            assert((z + q).same(q)) by {
                if q.mag() > 0 {
                    lemma_magnitude_monotone(0, q.mag());
                }
            }
        }
        assert(c + q == q + c);
    }
}

/// Adding keeps an order.
pub proof fn lemma_add_keeps(q: Binary64, p: Binary64, c: Binary64)
    requires
        at_least(q, p),
        !p.is_nan(),
        !(p + c).is_nan(),
    ensures
        at_least(q + c, p + c),
{
    reveal(Binary64::spec_add);
    if !q.is_nan() {
        law_add_monotone(q, p, c);
    }
}

/// The sum in the other order.
pub proof fn lemma_add_commutes(x: Binary64, y: Binary64)
    ensures
        x + y == y + x || (x + y).same(y + x) || ((x + y).is_nan() && (y + x).is_nan()),
{
    reveal(Binary64::spec_add);
}

/// The product of larger magnitudes has no smaller one.
pub proof fn lemma_mul_sizes(a: Binary64, b: Binary64, c: Binary64, d: Binary64)
    requires
        a.mag() <= c.mag(),
        b.mag() <= d.mag(),
    ensures
        (a * b).is_nan() || (c * d).is_nan() || (a * b).mag() <= (c * d).mag(),
{
    reveal(Binary64::spec_mul);
    if c.is_finite() && d.is_finite() {
        if a.mag() < c.mag() {
            lemma_magnitude_monotone(a.mag(), c.mag());
        }
        if b.mag() < d.mag() {
            lemma_magnitude_monotone(b.mag(), d.mag());
        }
        let (w, x, y, z) = (
            magnitude(a.mag()),
            magnitude(b.mag()),
            magnitude(c.mag()),
            magnitude(d.mag()),
        );
        assert(w * x <= y * z) by (nonlinear_arith)
            requires
                w <= y,
                x <= z,
        ;
        lemma_pow2_pos(1074);
        lemma_rounded_monotone(w * x, y * z, pow2(1074));
    }
}

/// Multiplying by one, or by its opposite, keeps the size.
pub proof fn lemma_mul_one(s: Binary64, x: Binary64)
    requires
        s.mag() == Binary64::one().mag(),
        !x.is_nan(),
    ensures
        (s * x).mag() == x.mag(),
        (x * s).mag() == x.mag(),
        (s * x).negative() == (s.negative() != x.negative()),
        (x * s).negative() == (s.negative() != x.negative()),
{
    reveal(Binary64::spec_mul);
    if x.is_finite() {
        let m = magnitude(x.mag());
        lemma_one();
        lemma_pow2_pos(1074);
        lemma_rounded_scaled(m, 1, pow2(1074));
        assert(1 * pow2(1074) == pow2(1074)) by (nonlinear_arith);
        assert(m * pow2(1074) == pow2(1074) * m) by (nonlinear_arith);
        lemma_rounded_magnitude(x.mag());
    }
}

/// One is `2^1074` units.
pub proof fn lemma_one()
    ensures
        magnitude(Binary64::one().mag()) == pow2(1074),
        Binary64::one().is_finite(),
{
    let m = Binary64::one().mag();
    lemma_pow2_53();
    assert(m == 1023 * HIDDEN);
    assert(significand(m) == HIDDEN);
    assert(scale(m) == 1022);
    vstd::arithmetic::power2::lemma_pow2_adds(52, 1022);
}

/// Adding keeps an order on the other side too.
pub proof fn lemma_add_keeps_left(c: Binary64, q: Binary64, p: Binary64)
    requires
        at_least(q, p),
        !p.is_nan(),
        !(c + p).is_nan(),
    ensures
        at_least(c + q, c + p),
{
    reveal(Binary64::spec_add);
    if !q.is_nan() {
        law_add_monotone(q, p, c);
        lemma_add_commutes(q, c);
        lemma_add_commutes(p, c);
    }
}

/// A square has no sign.
pub proof fn lemma_square_sign(x: Binary64)
    ensures
        !(x * x).negative(),
{
    reveal(Binary64::spec_mul);
}

/// The number nearest to a fraction has no sign.
pub proof fn lemma_ratio_sign(num: u64, den: u64)
    ensures
        !Binary64::ratio(num, den).negative(),
        !Binary64::ratio(num, den).is_nan(),
{
    reveal(Binary64::spec_ratio);
}

/// What is taken from something not smaller leaves nothing below zero.
pub proof fn lemma_sub_sign(x: Binary64, y: Binary64)
    requires
        y.le(x),
    ensures
        not_negative(x - y),
{
    reveal(Binary64::spec_sub);
    reveal(Binary64::spec_neg);
    reveal(Binary64::spec_add);
    if y.is_finite() {
        law_add_monotone(x, y, -y);
    }
}

/// The quotient of a larger magnitude has no smaller one.
pub proof fn lemma_div_sizes(a: Binary64, b: Binary64, c: Binary64)
    requires
        a.mag() <= b.mag(),
    ensures
        (a / c).is_nan() || (b / c).is_nan() || (a / c).mag() <= (b / c).mag(),
{
    reveal(Binary64::spec_euclidean_or_real_div);
    lemma_zero();
    if b.is_finite() && c.is_finite() && c.mag() > 0 {
        if a.mag() < b.mag() {
            lemma_magnitude_monotone(a.mag(), b.mag());
        }
        lemma_magnitude_monotone(0, c.mag());
        let (x, y) = (magnitude(a.mag()), magnitude(b.mag()));
        assert(x * pow2(1074) <= y * pow2(1074)) by (nonlinear_arith)
            requires
                x <= y,
        ;
        lemma_rounded_monotone(x * pow2(1074), y * pow2(1074), magnitude(c.mag()));
    }
}

/// What lies below the opposite of a number is larger in size.
pub proof fn lemma_below_opposite(x: Binary64, c: Binary64)
    requires
        !c.negative(),
        x.lt(-c),
    ensures
        x.abs().gt(c),
        x.lt(Binary64::zero()),
{
    reveal(Binary64::spec_neg);
    reveal(Binary64::spec_abs);
}

/// Products of larger magnitudes are not smaller.
pub proof fn lemma_mul_keeps(a: Binary64, b: Binary64, c: Binary64, d: Binary64)
    requires
        a.mag() <= c.mag(),
        b.mag() <= d.mag(),
        a.negative() == b.negative(),
        c.negative() == d.negative(),
        !(a * b).is_nan(),
    ensures
        at_least(c * d, a * b),
{
    lemma_mul_sizes(a, b, c, d);
    reveal(Binary64::spec_mul);
}

}
