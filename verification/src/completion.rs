//! Lines that are opened end at their measure.

use crate::accounting::{
    accountable, accounted, aim, law_line_accounts, lemma_preferred_accounts, lemma_reach,
    lemma_shortfall_error, lemma_times, lemma_times_size, lemma_used, reach, speck, tolerance,
};
use crate::binary64::Binary64;
use crate::costs::lemma_capacity_sign;
use crate::errors::{
    amount, lemma_add_error, lemma_amount_order, lemma_amount_zero, lemma_count, lemma_div_error,
    lemma_mul_error, lemma_near, lemma_sizes, lemma_sub_error, lemma_tiny, lemma_unit, near, size,
    tiny, ulp,
};
use crate::fit::{
    capacity, finished, finished_spacing, fitted, preferred, shortfall, space_budget, used, Extent,
};
use crate::model::{Line, Mode, Options};
use crate::numeric::js_sign;
use crate::rounding::magnitude;
use crate::signs::{
    lemma_div_sign, lemma_mul_sign, lemma_one, lemma_ratio_sign, lemma_zero, not_negative,
};
use crate::solve::{policy_values, sound, unsigned};
use vstd::arithmetic::power2::lemma_pow2_pos;
use vstd::prelude::*;

verus! {

/// The steps of completing a line, off by one part in `2^53` each, leave next
/// to nothing.
proof fn lemma_steps_complete(
    m: real,
    before: real,
    left: real,
    each: real,
    full: real,
    after: real,
    change: real,
    moved: real,
    rest: real,
)
    requires
        0real <= before <= m,
        -(6real * (ulp() * m) + 4real * speck()) <= left <= m,
        near(each, left, ulp() * m + speck()),
        near(full, before + each, ulp() * (3real * m + speck())),
        after == full || full <= after <= 0real,
        near(change, after - before, ulp() * (5real * m + 2real * speck())),
        near(moved, change, ulp() * (6real * m + 3real * speck()) + speck()),
        near(rest, left - moved, ulp() * (8real * m + 5real * speck())),
    ensures
        near(rest, 0real, 40real * (ulp() * m) + 40real * speck()),
{
}

/// Completing a line that is opened leaves next to nothing over.
#[verifier::rlimit(50)]
pub proof fn lemma_completed(line: Line, space: Binary64, o: Options, m: real)
    requires
        line.start < line.end,
        o.mode != Mode::Strict,
        line.end - line.start - 1 > 0,
        line.word_spacing.is_finite(),
        line.residual.is_finite(),
        space.is_finite(),
        space.gt(Binary64::zero()),
        sound(o),
        0real <= amount(line.word_spacing),
        size(
            amount(Binary64::from_count((line.end - line.start - 1) as usize)) * amount(
                line.word_spacing,
            ),
        ) <= m,
        size(amount(line.residual)) <= m,
        -(6real * (ulp() * m) + 4real * speck()) <= amount(line.residual),
        m <= 100real * reach(),
    ensures
        finished(line, space, o).residual.is_finite(),
        near(
            amount(finished(line, space, o).residual),
            0real,
            40real * (ulp() * m) + 40real * speck(),
        ),
{
    let gaps = (line.end - line.start - 1) as usize;
    let count = Binary64::from_count(gaps);
    let done = finished(line, space, o);
    let (g, w, l) = (amount(count), amount(line.word_spacing), amount(line.residual));
    lemma_sizes(l, 0real);
    lemma_sizes(g * w, 0real);
    lemma_unit();
    lemma_reach();
    lemma_amount_zero();
    lemma_amount_order(line.residual, Binary64::zero());
    if !line.residual.same(Binary64::zero()) {
        lemma_count(gaps);
        lemma_tiny(g);
        let t = tiny();
        assert(g * w >= 0real) by (nonlinear_arith)
            requires
                g >= 1real / 2real,
                w >= 0real,
        ;
        assert(size(w) <= 2real * m) by {
            lemma_times_size(g, w);
            let y = size(w);
            lemma_sizes(w, 0real);
            assert(y <= 2real * (g * y)) by (nonlinear_arith)
                requires
                    y >= 0real,
                    g >= 1real / 2real,
            ;
        }
        let e = l / g;
        assert(g * e == l) by (nonlinear_arith)
            requires
                e == l / g,
                g >= 1real / 2real,
        ;
        lemma_times_size(g, e);
        lemma_sizes(e, 0real);
        let se = size(e);
        assert(se <= 2real * (g * se)) by (nonlinear_arith)
            requires
                se >= 0real,
                g >= 1real / 2real,
        ;
        lemma_div_error(line.residual, count);
        let each = line.residual / count;
        let q = amount(each);
        lemma_near(q, e, ulp() * se + t);
        lemma_times(g, q, e, ulp() * se + t);
        assert(g * (ulp() * se + t) == ulp() * (g * se) + t * g) by (nonlinear_arith);
        assert(near(g * q, l, ulp() * m + speck()));
        lemma_sizes(w, q);
        lemma_add_error(line.word_spacing, each);
        let full = line.word_spacing + each;
        let v = amount(full);
        lemma_near(v, w + q, ulp() * size(w + q));
        lemma_times(g, v, w + q, ulp() * size(w + q));
        lemma_times_size(g, w + q);
        assert(g * (w + q) == g * w + g * q) by (nonlinear_arith);
        assert(g * (ulp() * size(w + q)) == ulp() * (g * size(w + q))) by (nonlinear_arith);
        lemma_near(g * q, l, ulp() * m + speck());
        lemma_sizes(g * w, g * q);
        assert(near(g * v, g * w + g * q, ulp() * (3real * m + speck())));
        lemma_near(g * v, g * w + g * q, ulp() * (3real * m + speck()));
        let spacing = finished_spacing(line, space, o);
        lemma_above(space, o, full);
        let p = amount(spacing);
        assert(g * p == g * v || g * v <= g * p <= 0real) by {
            if p != v {
                assert(g * v <= g * p <= 0real) by (nonlinear_arith)
                    requires
                        v <= p <= 0real,
                        g >= 1real / 2real,
                ;
            }
        }
        lemma_sizes(g * v, 0real);
        lemma_sizes(v, 0real);
        lemma_sizes(p, w);
        assert(size(p) <= size(v)) by {
            reveal(size);
        }
        lemma_sub_error(spacing, line.word_spacing);
        let change = spacing - line.word_spacing;
        let c = amount(change);
        lemma_times(g, c, p - w, ulp() * size(p - w));
        lemma_times_size(g, p - w);
        assert(g * (p - w) == g * p - g * w) by (nonlinear_arith);
        assert(g * (ulp() * size(p - w)) == ulp() * (g * size(p - w))) by (nonlinear_arith);
        lemma_sizes(g * p, g * w);
        lemma_times_size(g, p);
        lemma_times_size(g, v);
        assert(g * size(p) <= g * size(v)) by (nonlinear_arith)
            requires
                size(p) <= size(v),
                g >= 0real,
        ;
        assert(near(g * c, g * p - g * w, ulp() * (5real * m + 2real * speck())));
        lemma_near(g * c, g * p - g * w, ulp() * (5real * m + 2real * speck()));
        assert(c * g == g * c) by (nonlinear_arith);
        lemma_mul_error(change, count);
        let moved = change * count;
        let k = amount(moved);
        assert(near(k, g * c, ulp() * (6real * m + 3real * speck()) + speck()));
        lemma_near(k, g * c, ulp() * (6real * m + 3real * speck()) + speck());
        lemma_sizes(l, k);
        lemma_sub_error(line.residual, moved);
        let rest = line.residual - moved;
        let r = amount(rest);
        assert(near(r, l - k, ulp() * (8real * m + 5real * speck())));
        lemma_steps_complete(m, g * w, l, g * q, g * v, g * p, g * c, k, r);
        assert(done.residual == rest || done.residual == Binary64::zero());
    }
}

/// A spacing below the shrink limit is raised to it, and that is not above
/// zero.
proof fn lemma_above(space: Binary64, o: Options, full: Binary64)
    requires
        full.is_finite(),
        space.is_finite(),
        space.gt(Binary64::zero()),
        sound(o),
    ensures
        ({
            let r = crate::numeric::js_max(-space * o.shrink, full);
            &&& r.is_finite()
            &&& amount(r) == amount(full) || amount(full) <= amount(r) <= 0real
        }),
{
    let floor = -space * o.shrink;
    let v = policy_values(o);
    assert(unsigned(v[1]));
    reveal(Binary64::spec_neg);
    reveal(Binary64::spec_mul);
    lemma_zero();
    lemma_pow2_pos(1074);
    assert(!floor.is_nan());
    assert(floor.negative() || floor.mag() == 0) by {
        if !floor.negative() {
            assert(o.shrink.mag() == 0);
            assert(magnitude((-space).mag()) * 0 == 0) by (nonlinear_arith);
        }
    }
    lemma_amount_zero();
    let r = crate::numeric::js_max(floor, full);
    if r != full {
        lemma_amount_order(full, floor);
        lemma_amount_order(floor, Binary64::zero());
    }
}

/// A line that is opened within the preferred limits leaves nothing below zero
/// over, but for rounding, and its spaces are not contracted.
pub proof fn lemma_opened(
    start: usize,
    end: usize,
    x: Extent,
    space: Binary64,
    width: Binary64,
    o: Options,
)
    requires
        accountable(x, space, width, o),
        x.gaps > 0,
        !shortfall(x, width).lt(Binary64::zero()),
    ensures
        ({
            let line = preferred(start, end, x, space, width, o);
            let most = size(amount(shortfall(x, width)));
            &&& line.word_spacing.is_finite()
            &&& line.residual.is_finite()
            &&& 0real <= amount(line.word_spacing)
            &&& -(6real * (ulp() * most) + 4real * speck()) <= amount(line.residual)
        }),
{
    let line = preferred(start, end, x, space, width, o);
    let delta = shortfall(x, width);
    let budget = space_budget(x, space, delta, o);
    let track = x.chars * o.tracking;
    let all = capacity(x, space, delta, o);
    let ratio = used(delta, all);
    let share = js_sign(delta) * ratio;
    let count = Binary64::from_count(x.gaps);
    let v = policy_values(o);
    assert(unsigned(v[2]));
    lemma_preferred_accounts(start, end, x, space, width, o);
    lemma_shortfall_error(x, width);
    lemma_reach();
    lemma_unit();
    lemma_tiny(1real);
    lemma_amount_zero();
    lemma_capacity_sign(x, space, delta, o);
    let (d, most) = (amount(delta), size(amount(delta)));
    lemma_sizes(d, 0real);
    lemma_amount_order(delta, Binary64::zero());
    assert(most == d) by {
        reveal(size);
    }
    // What the line can give is a number.
    lemma_amount_order(budget, Binary64::zero());
    lemma_amount_order(x.chars, Binary64::zero());
    lemma_amount_order(o.tracking, Binary64::zero());
    let (c, q) = (amount(x.chars), amount(o.tracking));
    let cq = c * q;
    assert(cq >= 0real) by (nonlinear_arith)
        requires
            cq == c * q,
            c >= 0real,
            q >= 0real,
    ;
    lemma_sizes(cq, 0real);
    lemma_mul_error(x.chars, o.tracking);
    lemma_near(amount(track), cq, ulp() * cq + tiny());
    lemma_mul_sign(x.chars, o.tracking);
    lemma_amount_order(track, Binary64::zero());
    lemma_sizes(amount(budget) + amount(track), 0real);
    lemma_sizes(amount(track), 0real);
    lemma_add_error(budget, track);
    lemma_near(amount(all), amount(budget) + amount(track), ulp() * (amount(budget) + amount(track)));
    lemma_sizes(amount(all), 0real);
    lemma_used(delta, all);
    // The share has no sign.
    lemma_one();
    lemma_ratio_sign(x.gaps as u64, 1);
    lemma_amount_order(ratio, Binary64::zero());
    lemma_mul_sign(js_sign(delta), ratio);
    lemma_share_size(delta, ratio);
    lemma_amount_order(share, Binary64::zero());
    let (s, a, r) = (amount(share), amount(all), amount(ratio));
    lemma_sizes(s, 0real);
    lemma_sizes(r, 0real);
    lemma_mul_sign(share, budget);
    lemma_div_sign(share * budget, count);
    lemma_amount_order(line.word_spacing, Binary64::zero());
    assert(line.word_spacing == share * budget / count);
    // What is left over.
    let sa = s * a;
    assert(0real <= sa <= r * a) by (nonlinear_arith)
        requires
            sa == s * a,
            0real <= s <= r,
            0real <= a,
    ;
    assert(most * (1real + ulp()) == most + ulp() * most) by (nonlinear_arith);
    lemma_sizes(sa, 0real);
    lemma_mul_error(share, all);
    let taken = amount(share * all);
    lemma_near(taken, sa, ulp() * sa + tiny());
    lemma_sizes(d, taken);
    lemma_sizes(d - taken, 0real);
    lemma_sub_error(delta, share * all);
    assert(size(d - taken) <= 3real * most + 3real * speck());
}

/// The sign keeps the size of a share.
proof fn lemma_share_size(delta: Binary64, ratio: Binary64)
    requires
        delta.is_finite(),
        ratio.is_finite(),
        not_negative(delta),
        not_negative(ratio),
    ensures
        (js_sign(delta) * ratio).is_finite(),
        not_negative(js_sign(delta) * ratio),
        size(amount(js_sign(delta) * ratio)) <= size(amount(ratio)),
{
    crate::accounting::lemma_share(delta, ratio);
    lemma_one();
    lemma_mul_sign(js_sign(delta), ratio);
}

/// A line with gaps that is opened, in a policy that is not strict, ends at its
/// measure: it leaves nothing over but for rounding, and its natural width,
/// spacing and tracking come to the measure with its credits. A last line that
/// fits comes to its natural width.
pub proof fn law_opened_line_ends_at_measure(
    start: usize,
    end: usize,
    x: Extent,
    space: Binary64,
    width: Binary64,
    o: Options,
    emergency: bool,
)
    requires
        start < end,
        x.gaps == end - start - 1,
        x.gaps > 0,
        accountable(x, space, width, o),
        o.mode != Mode::Strict,
        !shortfall(x, width).lt(Binary64::zero()),
    ensures
        ({
            let line = fitted(start, end, x, space, width, o, emergency);
            &&& near(amount(line.residual), 0real, tolerance(x, width))
            &&& near(
                accounted(line, x) - amount(line.residual),
                aim(x, width),
                2real * tolerance(x, width),
            )
        }),
{
    let line = preferred(start, end, x, space, width, o);
    let most = size(amount(shortfall(x, width)));
    lemma_reach();
    lemma_shortfall_error(x, width);
    lemma_preferred_accounts(start, end, x, space, width, o);
    lemma_opened(start, end, x, space, width, o);
    lemma_sizes(amount(shortfall(x, width)), 0real);
    lemma_sizes(amount(width), 0real);
    lemma_sizes(amount(x.hanging), 0real);
    lemma_sizes(amount(x.opening), 0real);
    lemma_sizes(amount(x.natural), 0real);
    let m = 3real * most + 4real * speck();
    lemma_completed(line, space, o, m);
    law_line_accounts(start, end, x, space, width, o, emergency);
}

}
