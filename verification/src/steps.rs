//! Samples lie whole steps apart.

use crate::binary64::Binary64;
use crate::errors::{
    amount, lemma_add_error, lemma_amount_one, lemma_amount_order, lemma_amount_zero, lemma_count,
    lemma_div_error, lemma_mul_error, lemma_ratio_error, lemma_sizes, lemma_sub_error, lemma_tiny,
    lemma_unit, near, unit,
};
use crate::exact::{lemma_whole_add, lemma_whole_count, lemma_whole_unique, whole_number};
use crate::model::{Error, Options, Paragraph};
use crate::numeric::js_round;
use crate::overflow::lemma_large;
use crate::rounding::{magnitude, rounded};
use crate::sampling::{sample, sample_limit};
use crate::signs::lemma_one;
use crate::solve::refusal;
use crate::statics::{bad_range, bands_of, bands_to, compiles, sampled, StaticBand};
use vstd::arithmetic::div_mod::lemma_fundamental_div_mod_converse;
use vstd::arithmetic::power2::{lemma_pow2_pos, pow2};
use vstd::prelude::*;

verus! {

/// The floor of a number that is not below zero.
proof fn lemma_floor_is(x: Binary64, n: usize)
    requires
        x.is_finite(),
        !x.negative(),
        n < 1_000_000_000_000,
        n as real <= amount(x) < n as real + 1real,
    ensures
        x.floor() == Binary64::from_count(n),
{
    reveal(Binary64::spec_floor);
    reveal(Binary64::spec_ratio);
    lemma_unit();
    lemma_pow2_pos(1074);
    let (m, u) = (magnitude(x.mag()), pow2(1074));
    let (a, b) = (m as real, u as real);
    assert(unit() == b && x.value() == m);
    let k = n as real;
    let (low, high) = (k * b, (k + 1real) * b);
    assert(low <= a < high) by (nonlinear_arith)
        requires
            k <= a / b < k + 1real,
            b > 1real,
            low == k * b,
            high == (k + 1real) * b,
    ;
    let (p, q) = (n as nat * u, (n as nat + 1) * u);
    assert(p as real == low && q as real == high) by (nonlinear_arith)
        requires
            p == n as nat * u,
            q == (n as nat + 1) * u,
            k == n as real,
            b == u as real,
            low == k * b,
            high == (k + 1real) * b,
    ;
    assert(p <= m < q);
    assert(q == p + u) by (nonlinear_arith)
        requires
            p == n as nat * u,
            q == (n as nat + 1) * u,
    ;
    lemma_fundamental_div_mod_converse(m as int, u as int, n as int, m - p);
}

/// What is near to a whole number is rounded to it.
proof fn lemma_rounds_to(x: Binary64, n: usize)
    requires
        x.is_finite(),
        0 < n < 1_000_000_000_000,
        near(amount(x), n as real, 1real / 4real),
    ensures
        js_round(x) == Binary64::from_count(n),
{
    lemma_unit();
    lemma_large();
    lemma_tiny(1real);
    lemma_amount_zero();
    lemma_amount_one();
    lemma_one();
    lemma_amount_order(x, Binary64::zero());
    assert(!x.negative());
    let half = Binary64::ratio(1, 2);
    lemma_ratio_error(1, 2);
    assert(1u64 as real == 1real && 2u64 as real == 2real);
    let k = n as real;
    let below: usize = if amount(x) >= k {
        n
    } else {
        (n - 1) as usize
    };
    lemma_floor_is(x, below);
    let floor = Binary64::from_count(below);
    lemma_count(below);
    let d = amount(x) - below as real;
    lemma_sizes(d, 0real);
    lemma_sub_error(x, floor);
    lemma_amount_order(half, x - floor);
    if below < n {
        lemma_whole_count(below);
        lemma_whole_count(n);
        lemma_whole_count(1);
        assert(whole_number(Binary64::one(), 1)) by {
            assert(1 * pow2(1074) == pow2(1074));
        }
        lemma_whole_add(floor, below as int, Binary64::one(), 1);
        lemma_whole_unique(floor + Binary64::one(), Binary64::from_count(n), n as int);
    }
}

/// Samples lie whole steps from the first: the one with index `k` is the first
/// and `k` steps.
pub proof fn law_samples_are_whole_steps(min: Binary64, step: Binary64, k: usize)
    requires
        min.is_finite(),
        step.is_finite(),
        0real <= amount(min) <= 1000000000real,
        1real / 1000real <= amount(step) <= 1000000000real,
        k < 1_000_000_000,
        (k as real + 1real) * amount(step) <= 1000000000real,
    ensures
        sample(min, step, 0) == min,
        k > 0 ==> sample(min, step, k as nat) == min + Binary64::from_count(k) * step,
        sample(min, step, k as nat).is_finite(),
        near(
            amount(sample(min, step, k as nat)),
            amount(min) + (k as real) * amount(step),
            1real / 1000000real,
        ),
    decreases k,
{
    lemma_unit();
    lemma_large();
    lemma_tiny(1real);
    lemma_amount_one();
    lemma_one();
    let (m, s) = (amount(min), amount(step));
    if k == 0 {
        assert((k as real) * s == 0real) by (nonlinear_arith)
            requires
                k as real == 0real,
        ;
    } else {
        let j = (k - 1) as usize;
        let (x, y) = (k as real, j as real);
        let (xs, ys) = (x * s, y * s);
        assert((y + 1real) * s <= 1000000000real && ys == xs - s && 0real <= ys && 0real <= xs
            <= 1000000000real) by (nonlinear_arith)
            requires
                xs == x * s,
                ys == y * s,
                x == y + 1real,
                0real <= y,
                (x + 1real) * s <= 1000000000real,
                1real / 1000real <= s,
        ;
        law_samples_are_whole_steps(min, step, j);
        let before = sample(min, step, j as nat);
        let b = amount(before);
        lemma_sizes(b - m, 0real);
        lemma_sub_error(before, min);
        let gone = before - min;
        let g = amount(gone);
        assert(near(g, ys, 2real / 1000000real));
        let q = g / s;
        assert(near(q, y, 2real / 1000real)) by (nonlinear_arith)
            requires
                q == g / s,
                near(g, ys, 2real / 1000000real),
                ys == y * s,
                s >= 1real / 1000real,
        ;
        lemma_sizes(q, 0real);
        lemma_div_error(gone, step);
        let steps = gone / step;
        lemma_sizes(amount(steps) + 1real, 0real);
        lemma_add_error(steps, Binary64::one());
        lemma_rounds_to(steps + Binary64::one(), k);
        let count = Binary64::from_count(k);
        lemma_count(k);
        lemma_sizes(xs, 0real);
        lemma_mul_error(count, step);
        let far = count * step;
        lemma_sizes(m + amount(far), 0real);
        lemma_add_error(min, far);
    }
}

/// Measures are sampled up to the last one and a hundred-millionth.
pub proof fn law_samples_reach_the_last(max: Binary64)
    requires
        max.is_finite(),
        0real <= amount(max) <= 1000000real,
    ensures
        sample_limit(max).is_finite(),
        near(
            amount(sample_limit(max)),
            amount(max) + 1real / 100000000real,
            1real / 1000000000real,
        ),
{
    lemma_unit();
    lemma_large();
    lemma_tiny(1real);
    lemma_ratio_error(1, 100_000_000);
    assert(1u64 as real == 1real && 100_000_000u64 as real == 100000000real);
    let little = Binary64::ratio(1, 100_000_000);
    lemma_sizes(amount(max) + amount(little), 0real);
    lemma_add_error(max, little);
}

/// A range of measures is refused exactly where it does not begin above zero,
/// ends before it begins, has no step above zero, has a bound or a step that is
/// not finite, or has a step too small to leave either end.
pub proof fn law_ranges_are_refused(min: Binary64, max: Binary64, step: Binary64)
    ensures
        !bad_range(min, max, step) <==> {
            &&& min.is_finite() && max.is_finite() && step.is_finite()
            &&& min.gt(Binary64::zero()) && max.ge(min) && step.gt(Binary64::zero())
            &&& !(min + step).same(min) && !(max + step).same(max)
        },
{
}

/// Compiled bands are those of all samples up to the last measure and a
/// hundred-millionth, and of no other; a sample whose policy is refused ends
/// the compiling with that refusal.
pub proof fn law_compiled_bands_cover_the_range<F: Fn(Binary64, usize) -> (Binary64, String)>(
    r: Result<Vec<StaticBand>, Error>,
    p: Paragraph,
    o: Options,
    print: &F,
    min: Binary64,
    max: Binary64,
    step: Binary64,
) -> (k: nat)
    requires
        compiles(r, p, o, print, min, max, step),
        !bad_range(min, max, step),
    ensures
        forall|j: nat|
            j < k ==> (#[trigger] sample(min, step, j)).le(max + Binary64::ratio(1, 100_000_000))
                && refusal(seq![sample(min, step, j)], o) is None,
        r is Ok <==> !sample(min, step, k).le(max + Binary64::ratio(1, 100_000_000)),
        r matches Ok(bands) ==> bands_of(bands@) == bands_to(p, o, print, min, step, k),
        r matches Err(e) ==> refusal(seq![sample(min, step, k)], o) == Some(e@),
{
    choose|k: nat| #[trigger]
        sampled(o, min, max, step, k) && {
            let width = sample(min, step, k);
            if width.le(sample_limit(max)) {
                r matches Err(e) && refusal(seq![width], o) == Some(e@)
            } else {
                r matches Ok(bands) && bands_of(bands@) == bands_to(p, o, print, min, step, k)
            }
        }
}

}
