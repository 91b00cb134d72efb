//! How far a fitted line may stray from its natural spacing.

use crate::binary64::{law_add_monotone, Binary64};
use crate::costs::{lemma_capacity_sign, lemma_chars_sign, measured};
use crate::errors::{
    lemma_amount_one, lemma_amount_order, lemma_ratio_error, lemma_tiny, lemma_unit,
};
use crate::fit::{
    capacity, credit_at, finished, fitness_class, fitted, fragment_extent, fragment_line, preferred,
    shortfall, space_budget, used, word_extent, word_line, Extent, FragmentMetrics,
};
use crate::model::{usable_width, Line, Mode, Options, Paragraph};
use crate::numeric::{js_sign, truthy};
use crate::rounding::lemma_rounded_magnitude;
use crate::signs::{
    lemma_abs_sign, lemma_add_sign, lemma_div_sign, lemma_div_sizes, lemma_mul_one, lemma_mul_sign,
    lemma_mul_sizes, lemma_one, lemma_ratio_sign, lemma_zero, not_negative,
};
use crate::solve::{policy_values, sound, unsigned};
use vstd::prelude::*;

verus! {

/// The signed part of the capacity that a line uses is at most all of it.
proof fn lemma_part(x: Extent, space: Binary64, width: Binary64, o: Options)
    requires
        space.gt(Binary64::zero()),
        not_negative(x.chars),
        sound(o),
    ensures
        ({
            let delta = shortfall(x, width);
            let part = js_sign(delta) * used(delta, capacity(x, space, delta, o));
            part.is_nan() || part.mag() <= Binary64::one().mag()
        }),
{
    let delta = shortfall(x, width);
    let ratio = used(delta, capacity(x, space, delta, o));
    lemma_capacity_sign(x, space, delta, o);
    let sign = js_sign(delta);
    let one = Binary64::one();
    reveal(Binary64::spec_neg);
    assert(ratio.is_nan() || ratio.mag() <= one.mag());
    assert(sign.is_nan() || sign.mag() <= one.mag());
    reveal(Binary64::spec_mul);
    if !ratio.is_nan() && !sign.is_nan() {
        lemma_mul_one(one, one);
        lemma_mul_sizes(sign, ratio, one, one);
    }
}

/// Tracking remains bounded: no line is tracked by more than the policy allows.
pub proof fn law_tracking_bounded(
    start: usize,
    end: usize,
    x: Extent,
    space: Binary64,
    width: Binary64,
    o: Options,
    emergency: bool,
)
    requires
        space.gt(Binary64::zero()),
        not_negative(x.chars),
        sound(o),
    ensures
        !fitted(start, end, x, space, width, o, emergency).tracking.abs().gt(o.tracking),
{
    let delta = shortfall(x, width);
    let part = js_sign(delta) * used(delta, capacity(x, space, delta, o));
    let one = Binary64::one();
    lemma_part(x, space, width, o);
    let v = policy_values(o);
    assert(unsigned(v[2]));
    lemma_mul_one(one, o.tracking);
    lemma_abs_sign(part * o.tracking);
    if part.is_nan() {
        reveal(Binary64::spec_mul);
    } else {
        lemma_mul_sizes(part, o.tracking, one, o.tracking);
    }
}

/// Spaces contract only within the shrink limit: where finishing a line sets
/// its spacing, the spacing is not below it.
pub proof fn law_shrink_bounded(line: Line, space: Binary64, o: Options)
    requires
        line.start < line.end,
        o.mode == Mode::Balanced,
        line.end - line.start > 1,
        !line.residual.same(Binary64::zero()),
    ensures
        !finished(line, space, o).word_spacing.lt(-space * o.shrink),
{
}

/// Single tokens retain their residual, and so does every strict line.
pub proof fn law_residual_retained(line: Line, space: Binary64, o: Options)
    requires
        line.start < line.end,
        line.end - line.start == 1 || o.mode == Mode::Strict,
    ensures
        finished(line, space, o) == line,
{
}

/// A line that finishing leaves alone keeps its spaces within their budget.
pub proof fn law_budget_bounded(
    start: usize,
    end: usize,
    x: Extent,
    space: Binary64,
    width: Binary64,
    o: Options,
)
    requires
        space.gt(Binary64::zero()),
        not_negative(x.chars),
        sound(o),
        x.gaps > 0,
    ensures
        !preferred(start, end, x, space, width, o).word_spacing.abs().gt(
            space_budget(x, space, shortfall(x, width), o) / Binary64::from_count(x.gaps),
        ),
{
    let delta = shortfall(x, width);
    let part = js_sign(delta) * used(delta, capacity(x, space, delta, o));
    let budget = space_budget(x, space, delta, o);
    let one = Binary64::one();
    lemma_part(x, space, width, o);
    lemma_capacity_sign(x, space, delta, o);
    let count = Binary64::from_count(x.gaps);
    lemma_ratio_sign(x.gaps as u64, 1);
    lemma_abs_sign(part * budget / count);
    lemma_div_sign(budget, count);
    if (part * budget).is_nan() {
        reveal(Binary64::spec_euclidean_or_real_div);
    } else {
        assert(!part.is_nan() && !budget.is_nan()) by {
            reveal(Binary64::spec_mul);
        }
        lemma_mul_one(one, budget);
        lemma_mul_sizes(part, budget, one, budget);
        lemma_div_sizes(part * budget, budget, count);
    }
}

/// The share of its capacity by which a line is off, without a bound.
spec fn share_of(delta: Binary64, all: Binary64) -> Binary64 {
    if truthy(all) {
        delta / all
    } else if delta.same(Binary64::zero()) {
        Binary64::zero()
    } else {
        js_sign(delta) * Binary64::infinity()
    }
}

/// The class of a share.
spec fn class_of_share(share: Binary64) -> i32 {
    let half = Binary64::ratio(1, 2);
    if share.lt(-half) {
        0
    } else if share.le(half) {
        1
    } else if share.le(Binary64::one()) {
        2
    } else {
        3
    }
}

/// Classes follow shares: what is no number is very loose.
proof fn lemma_class_of_share(a: Binary64, b: Binary64)
    ensures
        0 <= class_of_share(a) <= 3,
        a.le(b) || b.is_nan() ==> class_of_share(a) <= class_of_share(b),
        a.le(Binary64::zero()) ==> class_of_share(a) <= 1,
        not_negative(a) ==> class_of_share(a) >= 1,
{
    lemma_ratio_sign(1, 2);
    reveal(Binary64::spec_neg);
}

/// The target of a line grows with the measure.
proof fn lemma_target_monotone(x: Extent, narrow: Binary64, wide: Binary64)
    requires
        usable_width(narrow),
        usable_width(wide),
        narrow.le(wide),
    ensures
        ({
            let (s, t) = (narrow + x.hanging + x.opening, wide + x.hanging + x.opening);
            (s.is_nan() ==> t.is_nan()) && (t.is_nan() || s.le(t))
        }),
{
    let (a, b) = (narrow + x.hanging, wide + x.hanging);
    law_add_monotone(wide, narrow, x.hanging);
    reveal(Binary64::spec_add);
    if x.hanging.is_finite() {
        let z = Binary64::zero();
        law_add_monotone(narrow, z, x.hanging);
        lemma_rounded_magnitude(x.hanging.mag());
        lemma_zero();
        assert((z + x.hanging).is_finite());
        assert(!a.is_nan() && !b.is_nan());
        assert(!(a.spec_is_infinite() && a.negative()));
    }
    if !a.is_nan() && !b.is_nan() {
        law_add_monotone(b, a, x.opening);
    }
}

/// How far a line is off grows with the measure.
proof fn lemma_shortfall_monotone(x: Extent, narrow: Binary64, wide: Binary64)
    requires
        usable_width(narrow),
        usable_width(wide),
        narrow.le(wide),
    ensures
        shortfall(x, narrow).is_nan() ==> shortfall(x, wide).is_nan() || shortfall(x, wide).same(
            Binary64::infinity(),
        ),
        shortfall(x, narrow).is_nan() || shortfall(x, wide).is_nan() || shortfall(x, narrow).le(
            shortfall(x, wide),
        ),
{
    let (s, t) = (narrow + x.hanging + x.opening, wide + x.hanging + x.opening);
    let n = x.natural;
    lemma_target_monotone(x, narrow, wide);
    reveal(Binary64::spec_sub);
    reveal(Binary64::spec_neg);
    reveal(Binary64::spec_add);
    if !t.is_nan() && !n.is_nan() {
        law_add_monotone(t, s, -n);
        if s.lt(n) && n.is_finite() {
            law_add_monotone(n, s, -n);
        }
    }
}

/// Where nothing is infinite or below zero, a line is off below zero by a
/// finite amount.
proof fn lemma_shortfall_finite(x: Extent, width: Binary64)
    requires
        usable_width(width),
        x.natural.is_finite(),
        not_negative(x.hanging),
        not_negative(x.opening),
    ensures
        shortfall(x, width).lt(Binary64::zero()) ==> shortfall(x, width).is_finite(),
{
    let a = width + x.hanging;
    let s = a + x.opening;
    let n = x.natural;
    reveal(Binary64::spec_sub);
    reveal(Binary64::spec_neg);
    reveal(Binary64::spec_add);
    lemma_add_sign(width, x.hanging);
    lemma_add_sign(a, x.opening);
    if !s.is_nan() {
        let z = Binary64::zero();
        law_add_monotone(s, z, -n);
        lemma_rounded_magnitude(n.mag());
        lemma_zero();
        assert((z + -n).is_finite());
    }
}

/// The share of a line that is off below zero is not above zero, and a larger
/// one is not smaller.
proof fn lemma_negative_share(a: Binary64, b: Binary64, all: Binary64)
    requires
        a.lt(Binary64::zero()),
        a.is_finite() || !all.spec_is_infinite(),
        not_negative(all),
    ensures
        share_of(a, all).le(Binary64::zero()),
        b.lt(Binary64::zero()) && a.le(b) ==> share_of(a, all).le(
            share_of(b, all),
        ),
{
    reveal(Binary64::spec_neg);
    if truthy(all) {
        if b.lt(Binary64::zero()) && a.le(b) {
            lemma_div_sizes(b, a, all);
        }
        reveal(Binary64::spec_euclidean_or_real_div);
    } else {
        reveal(Binary64::spec_mul);
    }
}

/// The share of a line that is off above zero is not below zero, and a larger
/// one is not smaller.
proof fn lemma_positive_share(a: Binary64, b: Binary64, all: Binary64)
    requires
        not_negative(a),
        !a.is_nan(),
        not_negative(all),
    ensures
        not_negative(share_of(a, all)),
        a.le(b) ==> share_of(b, all).is_nan() || share_of(a, all).le(share_of(b, all)),
{
    lemma_zero();
    if truthy(all) {
        lemma_div_sign(a, all);
        if a.le(b) {
            lemma_div_sign(b, all);
            lemma_div_sizes(a, b, all);
            reveal(Binary64::spec_euclidean_or_real_div);
        }
    } else {
        reveal(Binary64::spec_mul);
    }
}

/// What is off by no number, or infinitely, is very loose.
proof fn lemma_loose_share(b: Binary64, all: Binary64)
    requires
        b.is_nan() || b.same(Binary64::infinity()),
        not_negative(all),
    ensures
        class_of_share(share_of(b, all)) == 3,
{
    reveal(Binary64::spec_euclidean_or_real_div);
    reveal(Binary64::spec_mul);
    lemma_ratio_sign(1, 2);
    reveal(Binary64::spec_neg);
    let share = share_of(b, all);
    lemma_one();
    assert(share.is_nan() || share.same(Binary64::infinity()));
    lemma_half_below_one();
}

/// A half is below one.
proof fn lemma_half_below_one()
    ensures
        Binary64::ratio(1, 2).lt(Binary64::one()),
{
    lemma_ratio_error(1, 2);
    lemma_unit();
    lemma_tiny(1real);
    lemma_amount_one();
    lemma_one();
    assert(1u64 as real == 1real && 2u64 as real == 2real);
    lemma_amount_order(Binary64::ratio(1, 2), Binary64::one());
}

/// A wider measure never yields a tighter class.
pub proof fn law_class_monotone(
    start: usize,
    end: usize,
    x: Extent,
    space: Binary64,
    narrow: Binary64,
    wide: Binary64,
    o: Options,
    emergency: bool,
)
    requires
        space.gt(Binary64::zero()),
        not_negative(x.chars),
        !capacity(x, space, -Binary64::one(), o).spec_is_infinite() || (x.natural.is_finite()
            && not_negative(x.hanging) && not_negative(x.opening)),
        sound(o),
        usable_width(narrow),
        usable_width(wide),
        narrow.le(wide),
    ensures
        ({
            let tighter = fitted(start, end, x, space, narrow, o, emergency).fitness;
            let looser = fitted(start, end, x, space, wide, o, emergency).fitness;
            tighter is Some && looser is Some && 0 <= tighter->0 <= looser->0 <= 3
        }),
{
    let (a, b) = (shortfall(x, narrow), shortfall(x, wide));
    let (k, l) = (capacity(x, space, a, o), capacity(x, space, b, o));
    lemma_shortfall_monotone(x, narrow, wide);
    lemma_capacity_sign(x, space, a, o);
    lemma_capacity_sign(x, space, b, o);
    assert(fitness_class(a, k) == class_of_share(share_of(a, k)));
    assert(fitness_class(b, l) == class_of_share(share_of(b, l)));
    lemma_class_of_share(share_of(a, k), share_of(b, l));
    lemma_class_of_share(share_of(b, l), share_of(a, k));
    let zero = Binary64::zero();
    reveal(Binary64::spec_neg);
    if x.natural.is_finite() && not_negative(x.hanging) && not_negative(x.opening) {
        lemma_shortfall_finite(x, narrow);
        lemma_shortfall_finite(x, wide);
    }
    if a.is_nan() || b.is_nan() {
        lemma_loose_share(b, l);
    } else if a.lt(zero) {
        lemma_negative_share(a, b, k);
        if b.lt(zero) {
            assert(k == l);
        } else {
            lemma_positive_share(b, b, l);
        }
    } else {
        assert(k == l);
        lemma_positive_share(a, b, k);
    }
}

/// Credits at the two ends of a line are not below zero.
pub open spec fn credits_in_order(p: Paragraph, start: int, end: int) -> bool {
    &&& not_negative(p.end_hangs[end - 1])
    &&& not_negative(p.start_hangs[start])
    &&& credit_at(p.end_protrusions, end - 1) matches Some(credit) ==> not_negative(credit)
    &&& credit_at(p.start_protrusions, start) matches Some(credit) ==> not_negative(credit)
}

/// The same words fitted to a wider measure never get a tighter class.
pub proof fn law_word_class_monotone(
    p: Paragraph,
    start: int,
    end: int,
    narrow: Binary64,
    wide: Binary64,
    o: Options,
    emergency: bool,
)
    requires
        p.valid(),
        measured(p),
        0 <= start < end <= p.words.len(),
        !capacity(
            word_extent(p, start, end, o),
            p.space,
            -Binary64::one(),
            o,
        ).spec_is_infinite() || (word_extent(p, start, end, o).natural.is_finite()
            && credits_in_order(p, start, end)),
        sound(o),
        usable_width(narrow),
        usable_width(wide),
        narrow.le(wide),
    ensures
        ({
            let tighter = word_line(p, start, end, narrow, o, emergency).fitness;
            let looser = word_line(p, start, end, wide, o, emergency).fitness;
            tighter is Some && looser is Some && 0 <= tighter->0 <= looser->0 <= 3
        }),
{
    let x = word_extent(p, start, end, o);
    let v = policy_values(o);
    assert(unsigned(v[5]) && unsigned(v[6]) && unsigned(v[7]));
    lemma_chars_sign(p, start, end, o);
    if credits_in_order(p, start, end) {
        lemma_mul_sign(p.end_hangs[end - 1], o.hanging);
        lemma_mul_sign(p.start_hangs[start], o.opening);
        lemma_mul_sign(Binary64::zero(), o.protrusion);
        if let Some(credit) = credit_at(p.end_protrusions, end - 1) {
            lemma_mul_sign(credit, o.protrusion);
        }
        if let Some(credit) = credit_at(p.start_protrusions, start) {
            lemma_mul_sign(credit, o.protrusion);
        }
    }
    law_class_monotone(
        start as usize,
        end as usize,
        x,
        p.space,
        narrow,
        wide,
        o,
        emergency,
    );
}

/// The same fragments fitted to a wider measure never get a tighter class.
pub proof fn law_fragment_class_monotone(
    p: Paragraph,
    start: int,
    end: int,
    narrow: Binary64,
    wide: Binary64,
    o: Options,
    emergency: bool,
    f: FragmentMetrics,
)
    requires
        p.space.gt(Binary64::zero()),
        0 <= start < end <= usize::MAX,
        not_negative(f.chars),
        !capacity(
            fragment_extent(f, (end - start - 1) as usize, o),
            p.space,
            -Binary64::one(),
            o,
        ).spec_is_infinite(),
        sound(o),
        usable_width(narrow),
        usable_width(wide),
        narrow.le(wide),
    ensures
        ({
            let tighter = fragment_line(p, start, end, narrow, o, emergency, f).fitness;
            let looser = fragment_line(p, start, end, wide, o, emergency, f).fitness;
            tighter is Some && looser is Some && 0 <= tighter->0 <= looser->0 <= 3
        }),
{
    law_class_monotone(
        start as usize,
        end as usize,
        fragment_extent(f, (end - start - 1) as usize, o),
        p.space,
        narrow,
        wide,
        o,
        emergency,
    );
}

}
