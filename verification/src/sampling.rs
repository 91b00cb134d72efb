//! The measures at which a static plan is sampled.

use crate::binary64::{law_add_monotone, Binary64};
use crate::exact::{lemma_whole_add, lemma_whole_rounded, lemma_whole_unique};
use crate::numeric::js_round;
use crate::rounding::{
    lemma_fields, lemma_magnitude_monotone, lemma_pow2_53, lemma_rounded_magnitude,
    lemma_rounded_monotone, lemma_rounded_same, magnitude, rounded, scale, significand, HIDDEN,
};
use crate::signs::{
    lemma_add_keeps, lemma_add_keeps_left, lemma_add_raises, lemma_add_sign, lemma_div_sign,
    lemma_div_sizes, lemma_mul_sign, lemma_one, lemma_sub_sign, lemma_zero, not_negative,
};
use vstd::arithmetic::power2::{
    lemma_pow2_adds, lemma_pow2_pos, lemma_pow2_strictly_increases, lemma_pow2_unfold, pow2,
};
use vstd::prelude::*;

verus! {

/// The measure after `width`: the next whole number of steps from `min`.
#[verifier::allow_in_spec]
pub fn next_measure(min: Binary64, step: Binary64, width: Binary64) -> (r: Binary64)
    returns
        (min + js_round((width - min) / step + Binary64::one()) * step),
{
    min + js_round((width - min) / step + Binary64::one()) * step
}

/// The measure with index `k`.
pub open spec fn sample(min: Binary64, step: Binary64, k: nat) -> Binary64
    decreases k,
{
    if k == 0 {
        min
    } else {
        next_measure(min, step, sample(min, step, (k - 1) as nat))
    }
}

/// The largest measure that is sampled, with some room for rounding.
#[verifier::allow_in_spec]
pub fn sample_limit(max: Binary64) -> (r: Binary64)
    returns
        (max + Binary64::ratio(1, 100_000_000)),
{
    max + Binary64::ratio(1, 100_000_000)
}

/// The samples come to an end.
pub open spec fn ends(min: Binary64, max: Binary64, step: Binary64) -> bool {
    exists|k: nat| !(#[trigger] sample(min, step, k)).le(sample_limit(max))
}

/// The first `k` samples are within the limit.
pub open spec fn within(min: Binary64, max: Binary64, step: Binary64, k: nat) -> bool {
    forall|j: nat| j < k ==> (#[trigger] sample(min, step, j)).le(sample_limit(max))
}

/// Rounding down keeps order and sign.
proof fn lemma_floor(x: Binary64, y: Binary64)
    requires
        !x.is_nan(),
        not_negative(x),
        x.le(y),
    ensures
        x.floor().le(y.floor()),
        not_negative(x.floor()),
{
    reveal(Binary64::spec_floor);
    let unit = pow2(1074);
    lemma_pow2_pos(1074);
    lemma_zero();
    if x.mag() == 0 {
        vstd::arithmetic::div_mod::lemma_small_mod(0, unit);
        vstd::arithmetic::div_mod::lemma_basic_div(0, unit as int);
        assert(0 * unit == 0) by (nonlinear_arith);
    }
    if y.mag() == 0 {
        vstd::arithmetic::div_mod::lemma_small_mod(0, unit);
        vstd::arithmetic::div_mod::lemma_basic_div(0, unit as int);
        assert(0 * unit == 0) by (nonlinear_arith);
    }
    if x.is_finite() && y.is_finite() && x.mag() > 0 {
        if x.mag() < y.mag() {
            lemma_magnitude_monotone(x.mag(), y.mag());
        }
        let (a, b) = (magnitude(x.mag()) / unit, magnitude(y.mag()) / unit);
        vstd::arithmetic::div_mod::lemma_div_is_ordered(
            magnitude(x.mag()) as int,
            magnitude(y.mag()) as int,
            unit as int,
        );
        assert((a + 0) * unit <= (b + 0) * unit) by (nonlinear_arith)
            requires
                a <= b,
        ;
        lemma_rounded_monotone((a + 0) * unit, (b + 0) * unit, 1);
    }
}

/// Numbers from `2^52` on are integers.
proof fn lemma_large_floor(x: Binary64)
    requires
        x.is_finite(),
        !x.negative(),
        magnitude(x.mag()) / pow2(1074) >= HIDDEN,
    ensures
        x.floor() == x,
{
    reveal(Binary64::spec_floor);
    let unit = pow2(1074);
    let m = x.mag();
    lemma_pow2_pos(1074);
    lemma_pow2_53();
    lemma_fields(m);
    let k = scale(m);
    let f = significand(m);
    vstd::arithmetic::div_mod::lemma_fundamental_div_mod(magnitude(m) as int, unit as int);
    let whole = magnitude(m) / unit;
    assert(magnitude(m) >= HIDDEN * unit) by (nonlinear_arith)
        requires
            magnitude(m) == unit * whole + magnitude(m) % unit,
            whole >= HIDDEN,
            unit > 0,
            magnitude(m) % unit >= 0,
    ;
    if k < 1074 {
        if k < 1073 {
            lemma_pow2_strictly_increases(k, 1073);
        }
        lemma_pow2_unfold(1074);
        assert(f * pow2(k) < HIDDEN * unit) by (nonlinear_arith)
            requires
                f < 2 * HIDDEN,
                2 * pow2(k) <= unit,
                unit > 0,
        ;
    }
    let rest = pow2((k - 1074) as nat);
    lemma_pow2_adds(1074, (k - 1074) as nat);
    let n = f * rest;
    assert(magnitude(m) == n * unit) by (nonlinear_arith)
        requires
            magnitude(m) == f * pow2(k),
            pow2(k) == unit * rest,
            n == f * rest,
    ;
    vstd::arithmetic::div_mod::lemma_fundamental_div_mod_converse(
        magnitude(m) as int,
        unit as int,
        n as int,
        0,
    );
    lemma_rounded_magnitude(m);
}

/// A smaller integer part, plus one, is no larger than a larger one.
proof fn lemma_next_integer(x: Binary64, y: Binary64)
    requires
        x.is_finite(),
        y.is_finite(),
        !x.negative(),
        !y.negative(),
        magnitude(x.mag()) / pow2(1074) < magnitude(y.mag()) / pow2(1074),
        magnitude(x.mag()) / pow2(1074) < HIDDEN,
    ensures
        (x.floor() + Binary64::one()).le(y.floor()),
{
    let unit = pow2(1074);
    lemma_pow2_pos(1074);
    let (a, b) = (magnitude(x.mag()) / unit, magnitude(y.mag()) / unit);
    reveal(Binary64::spec_floor);
    lemma_whole_rounded(a);
    lemma_one();
    assert(1 * unit == unit) by (nonlinear_arith);
    lemma_whole_add(x.floor(), a as int, Binary64::one(), 1);
    lemma_whole_rounded(a + 1);
    let next = crate::binary64::signed(false, rounded((a + 1) * unit, 1));
    lemma_whole_unique(x.floor() + Binary64::one(), next, a + 1int);
    assert((a + 1) * unit <= b * unit) by (nonlinear_arith)
        requires
            a + 1 <= b,
    ;
    lemma_rounded_monotone((a + 1) * unit, b * unit, 1);
    assert((b + 0) * unit == b * unit);
}

/// Rounding keeps order and sign.
proof fn lemma_round(x: Binary64, y: Binary64)
    requires
        !x.is_nan(),
        not_negative(x),
        x.le(y),
    ensures
        js_round(x).le(js_round(y)),
        not_negative(js_round(x)),
        not_negative(js_round(y)),
{
    let one = Binary64::one();
    let (a, b) = (x.floor(), y.floor());
    lemma_one();
    lemma_floor(x, y);
    lemma_floor(y, y);
    lemma_add_raises(a, a, one);
    lemma_add_raises(b, b, one);
    lemma_add_sign(a, one);
    lemma_add_sign(b, one);
    assert(!(a + one).is_nan() && !(b + one).is_nan()) by {
        reveal(Binary64::spec_add);
    }
    if x.is_finite() && y.is_finite() && (x - a).ge(Binary64::ratio(1, 2)) {
        lemma_round_up(x, y);
    }
}

/// Where the smaller of two numbers is rounded up, the larger is not rounded to
/// less.
proof fn lemma_round_up(x: Binary64, y: Binary64)
    requires
        x.is_finite(),
        y.is_finite(),
        not_negative(x),
        x.le(y),
        (x - x.floor()).ge(Binary64::ratio(1, 2)),
    ensures
        (x.floor() + Binary64::one()).le(js_round(y)),
{
    let unit = pow2(1074);
    let half = Binary64::ratio(1, 2);
    lemma_pow2_pos(1074);
    lemma_half();
    lemma_zero();
    if x.negative() || magnitude(x.mag()) / unit >= HIDDEN {
        if !x.negative() {
            lemma_large_floor(x);
        } else {
            reveal(Binary64::spec_floor);
            vstd::arithmetic::div_mod::lemma_small_mod(0, unit);
            vstd::arithmetic::div_mod::lemma_basic_div(0, unit as int);
            assert(0 * unit == 0) by (nonlinear_arith);
        }
        reveal(Binary64::spec_sub);
        reveal(Binary64::spec_neg);
        reveal(Binary64::spec_add);
        assert(false);
    }
    let (a, b) = (magnitude(x.mag()) / unit, magnitude(y.mag()) / unit);
    if y.negative() {
        assert(x.mag() == 0 && y.mag() == 0);
        reveal(Binary64::spec_sub);
        reveal(Binary64::spec_neg);
        reveal(Binary64::spec_add);
        reveal(Binary64::spec_floor);
        vstd::arithmetic::div_mod::lemma_small_mod(0, unit);
        vstd::arithmetic::div_mod::lemma_basic_div(0, unit as int);
        assert(0 * unit == 0) by (nonlinear_arith);
        assert(false);
    }
    assert(a <= b) by {
        if x.mag() < y.mag() {
            lemma_magnitude_monotone(x.mag(), y.mag());
        }
        vstd::arithmetic::div_mod::lemma_div_is_ordered(
            magnitude(x.mag()) as int,
            magnitude(y.mag()) as int,
            unit as int,
        );
    }
    let one = Binary64::one();
    lemma_one();
    lemma_floor(y, y);
    lemma_add_raises(y.floor(), y.floor(), one);
    lemma_add_sign(y.floor(), one);
    assert(!(y.floor() + one).is_nan()) by {
        reveal(Binary64::spec_add);
    }
    if a == b {
        assert(x.floor() == y.floor()) by {
            reveal(Binary64::spec_floor);
        }
        let f = x.floor();
        assert((x - f).le(y - f)) by {
            reveal(Binary64::spec_sub);
            reveal(Binary64::spec_neg);
            law_add_monotone(y, x, -f);
            reveal(Binary64::spec_add);
        }
        assert((y - f).ge(half));
    } else {
        lemma_next_integer(x, y);
    }
}

/// One half is above zero.
proof fn lemma_half()
    ensures
        Binary64::ratio(1, 2).gt(Binary64::zero()),
{
    reveal(Binary64::spec_ratio);
    let unit = pow2(1074);
    lemma_pow2_unfold(1074);
    lemma_pow2_pos(1073);
    lemma_pow2_53();
    let a = pow2(1073);
    assert((1 * unit) * 1 == a * 2) by (nonlinear_arith)
        requires
            unit == 2 * a,
    ;
    lemma_rounded_same(1 * unit, 2, a, 1);
    assert(magnitude(1) == 1) by {
        assert(significand(1) == 1 && scale(1) == 0);
        assert(1 * pow2(0) == 1) by (nonlinear_arith)
            requires
                pow2(0) == 1,
        ;
    }
    lemma_rounded_magnitude(1);
    lemma_rounded_monotone(1, a, 1);
}

/// The measure after a larger one is not smaller, and none is below `min`.
proof fn lemma_next(min: Binary64, step: Binary64, a: Binary64, b: Binary64)
    requires
        min.is_finite(),
        step.is_finite(),
        step.gt(Binary64::zero()),
        min.le(a),
        a.le(b),
    ensures
        next_measure(min, step, a).le(next_measure(min, step, b)),
        min.le(next_measure(min, step, a)),
{
    let one = Binary64::one();
    lemma_one();
    let (x, y) = (a - min, b - min);
    lemma_sub_sign(a, min);
    lemma_sub_sign(b, min);
    assert(!x.is_nan() && !y.is_nan() && x.le(y)) by {
        reveal(Binary64::spec_sub);
        reveal(Binary64::spec_neg);
        reveal(Binary64::spec_add);
        law_add_monotone(b, a, -min);
    }
    let (u, v) = (x / step, y / step);
    lemma_div_sign(x, step);
    lemma_div_sign(y, step);
    lemma_div_sizes(x, y, step);
    assert(!u.is_nan() && !v.is_nan() && u.le(v)) by {
        reveal(Binary64::spec_euclidean_or_real_div);
    }
    lemma_add_sign(u, one);
    lemma_add_sign(v, one);
    assert(!(u + one).is_nan() && !(v + one).is_nan()) by {
        reveal(Binary64::spec_add);
    }
    lemma_add_keeps(v, u, one);
    let (i, j) = (js_round(u + one), js_round(v + one));
    lemma_round(u + one, v + one);
    lemma_round(v + one, v + one);
    lemma_mul_sign(i, step);
    lemma_mul_sign(j, step);
    assert(!(i * step).is_nan() && !(j * step).is_nan()) by {
        reveal(Binary64::spec_mul);
    }
    assert((i * step).le(j * step)) by {
        crate::signs::lemma_mul_sizes(i, step, j, step);
    }
    assert(!(min + i * step).is_nan() && !(min + j * step).is_nan()) by {
        reveal(Binary64::spec_add);
    }
    lemma_add_keeps_left(min, j * step, i * step);
    lemma_add_raises(min, min, i * step);
}

/// Samples never go back.
pub proof fn law_samples_ascend(min: Binary64, step: Binary64, k: nat)
    requires
        min.is_finite(),
        step.is_finite(),
        step.gt(Binary64::zero()),
    ensures
        sample(min, step, k).le(sample(min, step, k + 1)),
        min.le(sample(min, step, k)),
    decreases k,
{
    if k == 0 {
        lemma_next(min, step, min, min);
    } else {
        law_samples_ascend(min, step, (k - 1) as nat);
        lemma_next(min, step, sample(min, step, (k - 1) as nat), sample(min, step, k));
        lemma_next(
            min,
            step,
            sample(min, step, (k - 1) as nat),
            sample(min, step, (k - 1) as nat),
        );
    }
}

/// A sample that repeats does so for ever.
proof fn lemma_stuck(min: Binary64, step: Binary64, k: nat, j: nat)
    requires
        sample(min, step, k) == sample(min, step, k + 1),
        k <= j,
    ensures
        sample(min, step, j) == sample(min, step, k),
    decreases j - k,
{
    if j > k {
        lemma_stuck(min, step, k, (j - 1) as nat);
        assert(sample(min, step, j) == next_measure(min, step, sample(min, step, (j - 1) as nat)));
        assert(sample(min, step, k + 1) == next_measure(min, step, sample(min, step, k)));
    }
}

/// Whether the samples come to an end. They may stop short of it where a step
/// is lost in rounding.
pub fn sampling_ends(min: Binary64, max: Binary64, step: Binary64) -> (r: bool)
    requires
        min.is_finite(),
        min.gt(Binary64::zero()),
        step.is_finite(),
        step.gt(Binary64::zero()),
    ensures
        r == ends(min, max, step),
{
    let limit: Binary64 = sample_limit(max);
    let mut width: Binary64 = min;
    let ghost mut k: nat = 0;
    while width.le(limit)
        invariant
            min.is_finite(),
            min.gt(Binary64::zero()),
            step.is_finite(),
            step.gt(Binary64::zero()),
            limit == sample_limit(max),
            width == sample(min, step, k),
            within(min, max, step, k),
        decreases
                if width.le(limit) {
                    limit.rank() - width.rank() + 1
                } else {
                    0
                },
    {
        let next: Binary64 = next_measure(min, step, width);
        proof {
            law_samples_ascend(min, step, k);
        }
        if !next.gt(width) {
            proof {
                assert(sample(min, step, k + 1) == next);
                assert(next == width);
                assert forall|j: nat| (#[trigger] sample(min, step, j)).le(
                    sample_limit(max),
                ) by {
                    if j >= k {
                        lemma_stuck(min, step, k, j);
                    }
                }
            }
            return false;
        }
        width = next;
        proof {
            k = k + 1;
        }
    }
    assert(!sample(min, step, k).le(sample_limit(max)));
    true
}

}
