//! Where the width of a line goes.

use crate::binary64::Binary64;
use crate::costs::lemma_capacity_sign;
use crate::errors::{
    amount, huge, lemma_add_error, lemma_amount_abs, lemma_amount_one, lemma_amount_order,
    lemma_amount_zero, lemma_count, lemma_div_error, lemma_mul_error, lemma_near, lemma_ratio_error,
    lemma_sizes, lemma_sub_error, lemma_tiny, lemma_unit, near, size, tiny, ulp,
};
use crate::fit::{
    capacity, finished, finished_spacing, fitted, fragment_extent, fragment_line, preferred,
    shortfall, space_budget, used, word_extent, word_line, Extent, FragmentMetrics,
};
use crate::model::{Line, Mode, Options, Paragraph};
use crate::numeric::{js_max, js_sign, truthy};
use crate::rounding::{lemma_magnitude_monotone, lemma_rounded_scaled, magnitude};
use crate::signs::{
    lemma_div_sign, lemma_div_sizes, lemma_mul_one, lemma_mul_sign, lemma_one, lemma_zero,
    not_negative,
};
use crate::solve::{policy_values, sound, unsigned};
use vstd::arithmetic::power2::{lemma_pow2_adds, lemma_pow2_pos, pow2};
use vstd::prelude::*;

verus! {

/// The largest amount a line is measured in: `2^900`.
pub open spec fn reach() -> real {
    pow2(900) as real
}

/// The reach of lines is well below the largest numbers.
pub proof fn lemma_reach()
    ensures
        reach() > 36893488147419103232real,
        1000real * reach() < huge(),
{
    assert(pow2(70) == 1180591620717411303424) by {
        vstd::arithmetic::power2::lemma2_to64();
        lemma_pow2_adds(64, 6);
    }
    vstd::arithmetic::power2::lemma_pow2_strictly_increases(70, 900);
    lemma_pow2_pos(900);
    lemma_pow2_adds(900, 100);
    lemma_pow2_adds(90, 10);
    lemma_pow2_pos(90);
    vstd::arithmetic::power2::lemma2_to64();
    let (a, b) = (pow2(900), pow2(100));
    assert(b > 1000) by (nonlinear_arith)
        requires
            b == pow2(90) * pow2(10),
            pow2(90) > 0,
            pow2(10) == 1024,
    ;
    assert(a * b > 1000 * a) by (nonlinear_arith)
        requires
            b > 1000,
            a > 0,
    ;
}

/// Far below what is measured.
#[verifier::inline]
pub open spec fn speck() -> real {
    1real / 18446744073709551616real
}

/// A number over itself is one.
pub proof fn lemma_self_share(x: Binary64)
    requires
        x.is_finite(),
        x.mag() > 0,
    ensures
        (x / x).mag() == Binary64::one().mag(),
{
    reveal(Binary64::spec_euclidean_or_real_div);
    lemma_zero();
    lemma_one();
    lemma_magnitude_monotone(0, x.mag());
    let m = magnitude(x.mag());
    lemma_pow2_pos(1074);
    lemma_rounded_scaled(pow2(1074), 1, m);
    assert(1 * m == m && pow2(1074) * m == m * pow2(1074)) by (nonlinear_arith);
    crate::rounding::lemma_rounded_magnitude(Binary64::one().mag());
}

/// What of a capacity is used: never more than all of it, and of the capacity
/// no more than is asked for.
pub proof fn lemma_used(delta: Binary64, all: Binary64)
    requires
        delta.is_finite(),
        all.is_finite(),
        not_negative(all),
        amount(all) <= huge(),
        size(amount(delta)) <= huge(),
    ensures
        ({
            let r = used(delta, all);
            &&& r.is_finite()
            &&& 0real <= amount(r) <= 1real
            &&& amount(r) * amount(all) <= size(amount(delta)) * (1real + ulp())
                + 1real / 18446744073709551616real
        }),
{
    lemma_unit();
    lemma_amount_zero();
    lemma_amount_one();
    lemma_one();
    lemma_amount_abs(delta);
    lemma_amount_order(all, Binary64::zero());
    lemma_amount_order(all, delta.abs());
    let (a, d, u) = (amount(all), size(amount(delta)), ulp());
    let r = used(delta, all);
    lemma_sizes(amount(delta), 0real);
    assert(d * (1real + u) >= d) by (nonlinear_arith)
        requires
            d >= 0real,
            u > 0real,
    ;
    if !truthy(all) {
        assert(amount(r) * a == 0real) by (nonlinear_arith)
            requires
                amount(r) == 0real,
        ;
    } else {
        let q = delta.abs() / all;
        assert(a > 0real);
        lemma_zero();
        assert(all.mag() > 0);
        if a <= d {
            lemma_self_share(all);
            reveal(Binary64::spec_abs);
            reveal(Binary64::spec_euclidean_or_real_div);
            lemma_div_sizes(all, delta.abs(), all);
            assert(r == Binary64::one());
            assert(amount(r) * a == a) by (nonlinear_arith)
                requires
                    amount(r) == 1real,
            ;
        } else {
            let e = d / a;
            assert(0real <= e <= 1real && e * a == d) by (nonlinear_arith)
                requires
                    e == d / a,
                    0real <= d < a,
            ;
            lemma_sizes(e, 0real);
            lemma_div_error(delta.abs(), all);
            crate::signs::lemma_abs_sign(delta);
            lemma_div_sign(delta.abs(), all);
            lemma_amount_order(q, Binary64::zero());
            lemma_amount_order(q, Binary64::one());
            let f = amount(r);
            assert(r == q || r == Binary64::one());
            assert(0real <= f <= 1real);
            let t = tiny();
            assert(f <= e + u * e + t);
            lemma_tiny(a);
            assert(f * a <= d * (1real + u) + t * a) by (nonlinear_arith)
                requires
                    f <= e + u * e + t,
                    e * a == d,
                    a > 0real,
            ;
        }
    }
}

/// The sizes that a line is fitted from, together.
pub open spec fn measure_of(x: Extent, width: Binary64) -> real {
    size(amount(width)) + size(amount(x.hanging)) + size(amount(x.opening)) + size(
        amount(x.natural),
    )
}

/// A line whose measurements are numbers within reach, in a policy that is
/// not refused.
pub open spec fn accountable(x: Extent, space: Binary64, width: Binary64, o: Options) -> bool {
    let budget = space_budget(x, space, shortfall(x, width), o);
    &&& width.is_finite() && x.hanging.is_finite() && x.opening.is_finite()
    &&& x.natural.is_finite() && x.chars.is_finite() && space.is_finite()
    &&& space.gt(Binary64::zero()) && not_negative(x.chars) && sound(o)
    &&& measure_of(x, width) <= reach()
    &&& budget.is_finite() && amount(budget) <= reach()
    &&& amount(x.chars) <= reach() && amount(o.tracking) <= reach()
    &&& amount(x.chars) * amount(o.tracking) <= reach()
}

/// The width that a line is to fill: a last line that fits is left as it is.
pub open spec fn aim(x: Extent, width: Binary64) -> real {
    if x.last && x.natural.le(width + x.hanging + x.opening) {
        amount(x.natural)
    } else {
        amount(width) + amount(x.hanging) + amount(x.opening)
    }
}

/// Three steps, each off by one part in `2^53`.
proof fn lemma_three_steps(
    w: real,
    h: real,
    o: real,
    n: real,
    total: real,
    first: real,
    second: real,
    third: real,
)
    requires
        near(first, w + h, ulp() * total),
        near(second, first + o, 2real * (ulp() * total)),
        near(third, second - n, 2real * (ulp() * total)),
        0real <= total,
    ensures
        near(third, w + h + o - n, 5real * (ulp() * total)),
{
}

/// What a line is short of, against the exact amounts.
pub proof fn lemma_shortfall_error(x: Extent, width: Binary64)
    requires
        width.is_finite(),
        x.hanging.is_finite(),
        x.opening.is_finite(),
        x.natural.is_finite(),
        measure_of(x, width) <= reach(),
    ensures
        shortfall(x, width).is_finite(),
        near(
            amount(shortfall(x, width)),
            aim(x, width) - amount(x.natural),
            5real * (ulp() * measure_of(x, width)),
        ),
        size(amount(shortfall(x, width))) <= measure_of(x, width) + 5real * (ulp() * measure_of(
            x,
            width,
        )),
{
    lemma_reach();
    lemma_unit();
    lemma_amount_zero();
    let (w, h, o, n) = (
        amount(width),
        amount(x.hanging),
        amount(x.opening),
        amount(x.natural),
    );
    let total = measure_of(x, width);
    let first = width + x.hanging;
    let second = first + x.opening;
    lemma_sizes(w, h);
    lemma_sizes(h, o);
    lemma_sizes(o, n);
    lemma_sizes(n, w);
    lemma_add_error(width, x.hanging);
    let f = amount(first);
    lemma_near(f, w + h, ulp() * size(w + h));
    lemma_sizes(f, o);
    lemma_add_error(first, x.opening);
    let g = amount(second);
    lemma_near(g, f + o, ulp() * size(f + o));
    lemma_sizes(g, n);
    assert(size(g - n) <= 2real * total);
    lemma_sub_error(second, x.natural);
    let t = amount(second - x.natural);
    lemma_three_steps(w, h, o, n, total, f, g, t);
    lemma_sizes(w + h, o);
    lemma_sizes(w + h + o, n);
    lemma_near(t, w + h + o - n, 5real * (ulp() * total));
    lemma_sizes(0real, 0real);
}

/// The parts of a fitted line, off by one part in `2^53` each, add up.
proof fn lemma_sum_of_parts(
    d: real,
    most: real,
    sa: real,
    sb: real,
    st: real,
    sc: real,
    ga: real,
    gb: real,
    gc: real,
    given: real,
    spaces: real,
    letters: real,
    taken: real,
    left: real,
)
    requires
        -most <= d <= most,
        0real <= sa <= most + ulp() * most + speck(),
        0real <= sb,
        0real <= st,
        0real <= sc,
        near(sa, sb + st, ulp() * (sb + st)),
        near(st, sc, ulp() * sc + speck()),
        near(gb + gc, ga, ulp() * (sb + st) + ulp() * sc + speck()),
        -sb <= gb <= sb,
        -sc <= gc <= sc,
        -sa <= ga <= sa,
        near(given, gb, ulp() * sb + speck()),
        near(spaces, given, ulp() * (2real * sb + speck()) + speck()),
        near(letters, gc, ulp() * sc + speck()),
        near(taken, ga, ulp() * sa + speck()),
        near(left, d - taken, ulp() * (most + 2real * sa + speck())),
    ensures
        near(spaces + letters + left, d, 16real * (ulp() * most) + 16real * speck()),
        -(2real * most + 4real * speck()) <= spaces <= 2real * most + 4real * speck(),
        -(3real * most + 4real * speck()) <= left <= 3real * most + 4real * speck(),
{
}

/// The signed part of the capacity that a line uses.
pub proof fn lemma_share(delta: Binary64, ratio: Binary64)
    requires
        delta.is_finite(),
        ratio.is_finite(),
    ensures
        (js_sign(delta) * ratio).is_finite(),
        size(amount(js_sign(delta) * ratio)) <= size(amount(ratio)),
{
    let sign = js_sign(delta);
    reveal(Binary64::spec_neg);
    lemma_amount_zero();
    lemma_amount_order(delta, Binary64::zero());
    if delta.mag() == 0 {
        reveal(Binary64::spec_mul);
        lemma_zero();
        lemma_pow2_pos(1074);
        assert(0 * magnitude(ratio.mag()) == 0) by (nonlinear_arith);
        assert((sign * ratio).mag() == 0);
        lemma_amount_abs(sign * ratio);
        reveal(Binary64::spec_abs);
        lemma_sizes(amount(ratio), 0real);
    } else {
        lemma_mul_one(sign, ratio);
        lemma_amount_abs(sign * ratio);
        lemma_amount_abs(ratio);
        reveal(Binary64::spec_abs);
    }
}

/// Without gaps the spaces give nothing.
proof fn lemma_no_budget(x: Extent, space: Binary64, delta: Binary64, o: Options)
    requires
        x.gaps == 0,
        space.is_finite(),
        sound(o),
    ensures
        amount(space_budget(x, space, delta, o)) == 0real,
{
    reveal(Binary64::spec_mul);
    reveal(Binary64::spec_ratio);
    lemma_zero();
    lemma_pow2_pos(1074);
    let v = policy_values(o);
    assert(unsigned(v[0]) && unsigned(v[1]));
    let count = Binary64::from_count(0);
    assert(0 * pow2(1074) == 0) by (nonlinear_arith);
    assert(count.mag() == 0);
    assert(0 * magnitude(space.mag()) == 0) by (nonlinear_arith);
    assert((count * space).mag() == 0);
    assert(0 * magnitude(o.stretch.mag()) == 0 && 0 * magnitude(o.shrink.mag()) == 0)
        by (nonlinear_arith);
    assert(space_budget(x, space, delta, o).mag() == 0);
    lemma_amount_zero();
    let b = space_budget(x, space, delta, o);
    assert(b.value() == 0);
    assert(Binary64::zero().value() == 0);
}

/// Products of parts keep their relations.
proof fn lemma_scaled(share: real, all: real, budget: real, track: real, c: real)
    requires
        size(share) <= 1real,
        0real <= budget,
        0real <= track,
        0real <= c,
        near(all, budget + track, ulp() * (budget + track)),
        near(track, c, ulp() * c + speck()),
    ensures
        ({
            let s = size(share);
            &&& 0real <= s * all && 0real <= s * budget && 0real <= s * track && 0real <= s * c
            &&& near(s * all, s * budget + s * track, ulp() * (s * budget + s * track))
            &&& near(s * track, s * c, ulp() * (s * c) + speck())
            &&& near(
                share * budget + share * c,
                share * all,
                ulp() * (s * budget + s * track) + ulp() * (s * c) + speck(),
            )
            &&& size(share * all) == s * all
            &&& size(share * budget) == s * budget
            &&& size(share * c) == s * c
        }),
{
    let s = size(share);
    let (sa, sb, st, sc) = (s * all, s * budget, s * track, s * c);
    let e = ulp();
    let z = speck();
    reveal(size);
    assert(sb >= 0real && st >= 0real && sc >= 0real) by (nonlinear_arith)
        requires
            sb == s * budget,
            st == s * track,
            sc == s * c,
            s >= 0real,
            budget >= 0real,
            track >= 0real,
            c >= 0real,
    ;
    assert(sb + st - e * (sb + st) <= sa <= sb + st + e * (sb + st)) by (nonlinear_arith)
        requires
            sa == s * all,
            sb == s * budget,
            st == s * track,
            s >= 0real,
            budget + track - e * (budget + track) <= all <= budget + track + e * (budget + track),
    ;
    assert(sc - e * sc - z <= st <= sc + e * sc + z) by (nonlinear_arith)
        requires
            st == s * track,
            sc == s * c,
            0real <= s <= 1real,
            z >= 0real,
            c - e * c - z <= track <= c + e * c + z,
    ;
    assert(share == s || share == -s);
    assert((-s) * budget == -sb && (-s) * c == -sc && (-s) * all == -sa) by (nonlinear_arith)
        requires
            sb == s * budget,
            sc == s * c,
            sa == s * all,
    ;
}

/// The parts of a line fitted within the preferred limits add up to what the
/// line is short of.
#[verifier::rlimit(50)]
pub proof fn lemma_preferred_accounts(
    start: usize,
    end: usize,
    x: Extent,
    space: Binary64,
    width: Binary64,
    o: Options,
)
    requires
        accountable(x, space, width, o),
    ensures
        ({
            let line = preferred(start, end, x, space, width, o);
            let count = amount(Binary64::from_count(x.gaps));
            let d = amount(shortfall(x, width));
            let most = size(d);
            let spaces = count * amount(line.word_spacing);
            &&& line.word_spacing.is_finite() && line.tracking.is_finite()
            &&& line.residual.is_finite()
            &&& near(
                spaces + amount(x.chars) * amount(line.tracking) + amount(line.residual),
                d,
                16real * (ulp() * most) + 16real * speck(),
            )
            &&& size(spaces) <= 2real * most + 4real * speck()
            &&& size(amount(line.residual)) <= 3real * most + 4real * speck()
        }),
{
    let delta = shortfall(x, width);
    let budget = space_budget(x, space, delta, o);
    let track = x.chars * o.tracking;
    let all = capacity(x, space, delta, o);
    let ratio = used(delta, all);
    let sign = js_sign(delta);
    let share = sign * ratio;
    let line = preferred(start, end, x, space, width, o);
    let count = Binary64::from_count(x.gaps);
    let v = policy_values(o);
    assert(unsigned(v[2]));
    lemma_reach();
    lemma_unit();
    lemma_amount_zero();
    lemma_shortfall_error(x, width);
    lemma_capacity_sign(x, space, delta, o);
    lemma_count(x.gaps);
    let (d, most) = (amount(delta), size(amount(delta)));
    lemma_sizes(d, 0real);
    let (b, t, a, r, s) = (amount(budget), amount(track), amount(all), amount(ratio), amount(share));
    let (c, q, g) = (amount(x.chars), amount(o.tracking), amount(count));
    lemma_amount_order(budget, Binary64::zero());
    lemma_amount_order(o.tracking, Binary64::zero());
    lemma_amount_order(x.chars, Binary64::zero());
    let cq = c * q;
    assert(cq >= 0real) by (nonlinear_arith)
        requires
            cq == c * q,
            c >= 0real,
            q >= 0real,
    ;
    lemma_sizes(cq, 0real);
    lemma_mul_error(x.chars, o.tracking);
    lemma_tiny(1real);
    lemma_mul_sign(x.chars, o.tracking);
    lemma_amount_order(track, Binary64::zero());
    lemma_near(t, cq, ulp() * cq + tiny());
    lemma_sizes(t, 0real);
    lemma_sizes(b, t);
    lemma_sizes(b + t, t);
    lemma_add_error(budget, track);
    lemma_near(a, b + t, ulp() * (b + t));
    lemma_sizes(a, 0real);
    lemma_used(delta, all);
    lemma_share(delta, ratio);
    lemma_sizes(r, 0real);
    lemma_sizes(s, 0real);
    lemma_scaled(s, a, b, t, cq);
    let z = size(s);
    let (sa, sb, st, sc) = (z * a, z * b, z * t, z * cq);
    assert(sa <= r * a) by (nonlinear_arith)
        requires
            sa == z * a,
            z <= r,
            a >= 0real,
    ;
    assert(most * (1real + ulp()) == most + ulp() * most) by (nonlinear_arith);
    assert(sa <= most + ulp() * most + speck());
    lemma_sizes(s * a, 0real);
    lemma_sizes(s * b, 0real);
    lemma_sizes(s * cq, 0real);
    let whole = share * budget;
    lemma_mul_error(share, budget);
    let given = amount(whole);
    lemma_near(given, s * b, ulp() * sb + tiny());
    let spaces = g * amount(line.word_spacing);
    if x.gaps != 0 {
        let e = given / g;
        assert(e * g == given && size(e) * g == size(given) && size(e) <= 2real * size(given))
            by {
            lemma_sizes(e, 0real);
            lemma_sizes(given, 0real);
            assert(e * g == given && (-e) * g == -given) by (nonlinear_arith)
                requires
                    e == given / g,
                    g >= 1real / 2real,
            ;
            reveal(size);
            assert(e >= 0real <==> given >= 0real) by (nonlinear_arith)
                requires
                    e * g == given,
                    g >= 1real / 2real,
            ;
            let y = size(e);
            assert(y <= 2real * (y * g)) by (nonlinear_arith)
                requires
                    y >= 0real,
                    g >= 1real / 2real,
            ;
        }
        lemma_div_error(whole, count);
        let w = amount(line.word_spacing);
        lemma_tiny(g);
        let (y, ty) = (size(e), tiny());
        assert(near(spaces, given, ulp() * (y * g) + ty * g)) by (nonlinear_arith)
            requires
                near(w, e, ulp() * y + ty),
                spaces == g * w,
                e * g == given,
                g >= 1real / 2real,
        ;
        lemma_near(spaces, given, ulp() * size(given) + ty * g);
    } else {
        lemma_no_budget(x, space, delta, o);
        assert(spaces == 0real) by (nonlinear_arith)
            requires
                spaces == g * amount(line.word_spacing),
                g == 0real,
        ;
        assert(sb == 0real) by (nonlinear_arith)
            requires
                sb == z * b,
                b == 0real,
        ;
    }
    let letters = c * amount(line.tracking);
    let sq = s * q;
    assert(size(sq) <= q) by {
        lemma_sizes(sq, 0real);
        assert(-q <= sq <= q) by (nonlinear_arith)
            requires
                sq == s * q,
                -1real <= s <= 1real,
                q >= 0real,
        ;
    }
    lemma_mul_error(share, o.tracking);
    let w = amount(line.tracking);
    lemma_tiny(c);
    let (y, ty) = (size(sq), tiny());
    assert(y * c == sc) by {
        reveal(size);
        assert(y == z * q) by {
            assert(z * q >= 0real && (-z) * q == -(z * q)) by (nonlinear_arith)
                requires
                    z >= 0real,
                    q >= 0real,
            ;
        }
        assert((z * q) * c == z * cq) by (nonlinear_arith)
            requires
                cq == c * q,
        ;
    }
    assert(sq * c == s * cq) by (nonlinear_arith)
        requires
            sq == s * q,
            cq == c * q,
    ;
    assert(near(letters, sq * c, ulp() * (y * c) + ty * c)) by (nonlinear_arith)
        requires
            near(w, sq, ulp() * y + ty),
            letters == c * w,
            c >= 0real,
    ;
    lemma_mul_error(share, all);
    let used_up = share * all;
    let taken = amount(used_up);
    lemma_near(taken, s * a, ulp() * sa + tiny());
    lemma_sizes(d, taken);
    lemma_sub_error(delta, used_up);
    let left = amount(line.residual);
    assert(near(spaces, given, ulp() * (2real * sb + speck()) + speck()));
    lemma_sum_of_parts(
        d,
        most,
        sa,
        sb,
        st,
        sc,
        s * a,
        s * b,
        s * cq,
        given,
        spaces,
        letters,
        taken,
        left,
    );
    assert(size(spaces) <= 2real * most + 4real * speck()) by {
        lemma_sizes(spaces, 0real);
    }
    assert(size(left) <= 3real * most + 4real * speck()) by {
        lemma_sizes(left, 0real);
    }
}

/// What the spaces of a line take up, off by one part in `2^53` at each step,
/// is what the line no longer leaves over.
proof fn lemma_sum_of_steps(
    m: real,
    before: real,
    left: real,
    each: real,
    full: real,
    after: real,
    change: real,
    moved: real,
    rest: real,
    kept: real,
    bound: real,
)
    requires
        -m <= before <= m,
        -m <= left <= m,
        near(each, left, ulp() * m + speck()),
        near(full, before + each, ulp() * (3real * m + speck())),
        -bound <= after <= bound,
        0real <= bound <= 3real * m + 2real * speck(),
        near(change, after - before, ulp() * (5real * m + 2real * speck())),
        near(moved, change, ulp() * (6real * m + 3real * speck()) + speck()),
        near(rest, left - moved, ulp() * (8real * m + 5real * speck())),
        near(kept, rest, 3real / 2000000000real),
    ensures
        near(
            after + kept,
            before + left,
            20real * (ulp() * m) + 10real * speck() + 3real / 2000000000real,
        ),
{
}

/// A product with a count, off by what the other factor is off by.
pub proof fn lemma_times(g: real, x: real, y: real, e: real)
    requires
        near(x, y, e),
        0real <= g,
    ensures
        near(g * x, g * y, g * e),
{
    assert(near(g * x, g * y, g * e)) by (nonlinear_arith)
        requires
            y - e <= x <= y + e,
            0real <= g,
    ;
}

/// The size of a product with a count.
pub proof fn lemma_times_size(g: real, x: real)
    requires
        0real <= g,
    ensures
        size(g * x) == g * size(x),
{
    reveal(size);
    assert(x >= 0real ==> g * x >= 0real) by (nonlinear_arith)
        requires
            0real <= g,
    ;
    assert(x < 0real ==> g * x <= 0real) by (nonlinear_arith)
        requires
            0real <= g,
    ;
    assert(g * (-x) == -(g * x)) by (nonlinear_arith);
}

/// What completing a line adds to its spaces, it takes from what is left
/// over, but for what is too little to keep.
#[verifier::rlimit(50)]
proof fn lemma_finished_accounts(line: Line, space: Binary64, o: Options, m: real)
    requires
        line.start < line.end,
        line.word_spacing.is_finite(),
        line.residual.is_finite(),
        space.is_finite(),
        space.gt(Binary64::zero()),
        sound(o),
        size(
            amount(Binary64::from_count((line.end - line.start - 1) as usize)) * amount(
                line.word_spacing,
            ),
        ) <= m,
        size(amount(line.residual)) <= m,
        m <= 100real * reach(),
    ensures
        ({
            let done = finished(line, space, o);
            let count = amount(Binary64::from_count((line.end - line.start - 1) as usize));
            &&& done.word_spacing.is_finite() && done.residual.is_finite()
            &&& near(
                count * amount(done.word_spacing) + amount(done.residual),
                count * amount(line.word_spacing) + amount(line.residual),
                20real * (ulp() * m) + 10real * speck() + 3real / 2000000000real,
            )
        }),
{
    let gaps = (line.end - line.start - 1) as usize;
    let count = Binary64::from_count(gaps);
    let done = finished(line, space, o);
    let (g, w, l) = (amount(count), amount(line.word_spacing), amount(line.residual));
    lemma_sizes(l, 0real);
    lemma_sizes(g * w, 0real);
    lemma_unit();
    lemma_reach();
    if !(o.mode == Mode::Strict || gaps == 0 || line.residual.same(Binary64::zero())) {
        lemma_count(gaps);
        lemma_tiny(g);
        let t = tiny();
        assert(size(w) <= 2real * m) by {
            lemma_times_size(g, w);
            let y = size(w);
            lemma_sizes(w, 0real);
            assert(y <= 2real * (g * y)) by (nonlinear_arith)
                requires
                    y >= 0real,
                    g >= 1real / 2real,
            ;
        }
        let e = l / g;
        assert(g * e == l) by (nonlinear_arith)
            requires
                e == l / g,
                g >= 1real / 2real,
        ;
        lemma_times_size(g, e);
        lemma_sizes(e, 0real);
        let se = size(e);
        assert(se <= 2real * (g * se)) by (nonlinear_arith)
            requires
                se >= 0real,
                g >= 1real / 2real,
        ;
        lemma_div_error(line.residual, count);
        let each = line.residual / count;
        let q = amount(each);
        lemma_near(q, e, ulp() * se + t);
        lemma_times(g, q, e, ulp() * se + t);
        assert(g * (ulp() * se + t) == ulp() * (g * se) + t * g) by (nonlinear_arith);
        assert(near(g * q, l, ulp() * m + speck()));
        lemma_sizes(w, q);
        lemma_add_error(line.word_spacing, each);
        let full = line.word_spacing + each;
        let v = amount(full);
        lemma_near(v, w + q, ulp() * size(w + q));
        lemma_times(g, v, w + q, ulp() * size(w + q));
        lemma_times_size(g, w + q);
        assert(g * (w + q) == g * w + g * q) by (nonlinear_arith);
        assert(g * (ulp() * size(w + q)) == ulp() * (g * size(w + q))) by (nonlinear_arith);
        lemma_near(g * q, l, ulp() * m + speck());
        lemma_sizes(g * w, g * q);
        assert(near(g * v, g * w + g * q, ulp() * (3real * m + speck())));
        lemma_near(g * v, g * w + g * q, ulp() * (3real * m + speck()));
        let spacing = finished_spacing(line, space, o);
        lemma_floor_spacing(space, o, full);
        let p = amount(spacing);
        lemma_times_size(g, p);
        lemma_times_size(g, v);
        assert(g * size(p) <= g * size(v)) by (nonlinear_arith)
            requires
                size(p) <= size(v),
                g >= 0real,
        ;
        lemma_sizes(g * p, 0real);
        let bound = size(g * p);
        assert(bound <= 3real * m + 2real * speck());
        lemma_sizes(p, w);
        lemma_sub_error(spacing, line.word_spacing);
        let change = spacing - line.word_spacing;
        let c = amount(change);
        lemma_times(g, c, p - w, ulp() * size(p - w));
        lemma_times_size(g, p - w);
        assert(g * (p - w) == g * p - g * w) by (nonlinear_arith);
        assert(g * (ulp() * size(p - w)) == ulp() * (g * size(p - w))) by (nonlinear_arith);
        lemma_sizes(g * p, g * w);
        assert(near(g * c, g * p - g * w, ulp() * (5real * m + 2real * speck())));
        lemma_near(g * c, g * p - g * w, ulp() * (5real * m + 2real * speck()));
        assert(c * g == g * c) by (nonlinear_arith);
        lemma_mul_error(change, count);
        let moved = change * count;
        let k = amount(moved);
        assert(near(k, g * c, ulp() * (6real * m + 3real * speck()) + speck()));
        lemma_near(k, g * c, ulp() * (6real * m + 3real * speck()) + speck());
        lemma_sizes(l, k);
        lemma_sub_error(line.residual, moved);
        let rest = line.residual - moved;
        let r = amount(rest);
        assert(near(r, l - k, ulp() * (8real * m + 5real * speck())));
        let small = Binary64::ratio(1, 1_000_000_000);
        lemma_ratio_error(1, 1_000_000_000);
        lemma_tiny(1real);
        assert(amount(small) <= 3real / 2000000000real) by {
            assert(1u64 as real == 1real && 1_000_000_000u64 as real == 1000000000real);
        }
        lemma_amount_abs(rest);
        lemma_amount_order(rest.abs(), small);
        lemma_amount_zero();
        lemma_sizes(r, 0real);
        let kept = amount(done.residual);
        assert(near(kept, r, 3real / 2000000000real));
        lemma_sum_of_steps(m, g * w, l, g * q, g * v, g * p, g * c, k, r, kept, bound);
    }
}

/// Spaces are contracted no further than they would have to be.
proof fn lemma_floor_spacing(space: Binary64, o: Options, full: Binary64)
    requires
        full.is_finite(),
        space.is_finite(),
        space.gt(Binary64::zero()),
        sound(o),
    ensures
        js_max(-space * o.shrink, full).is_finite(),
        size(amount(js_max(-space * o.shrink, full))) <= size(amount(full)),
{
    let floor = -space * o.shrink;
    let v = policy_values(o);
    assert(unsigned(v[1]));
    reveal(Binary64::spec_neg);
    reveal(Binary64::spec_mul);
    lemma_zero();
    lemma_pow2_pos(1074);
    assert(!floor.is_nan());
    assert(floor.negative() || floor.mag() == 0) by {
        if !floor.negative() {
            assert(o.shrink.mag() == 0);
            assert(magnitude((-space).mag()) * 0 == 0) by (nonlinear_arith);
        }
    }
    lemma_amount_abs(floor);
    lemma_amount_abs(full);
    reveal(Binary64::spec_abs);
    let r = js_max(floor, full);
    if r != full {
        assert(floor.mag() <= full.mag());
        lemma_amount_order(floor.abs(), full.abs());
    }
}

/// The width that a line takes up, and what it leaves over: its natural
/// width, its extra spacing over all gaps, its tracking over all characters,
/// and its residual.
pub open spec fn accounted(line: Line, x: Extent) -> real {
    amount(line.natural) + amount(Binary64::from_count(x.gaps)) * amount(line.word_spacing)
        + amount(x.chars) * amount(line.tracking) + amount(line.residual)
}

/// How far an account may be off: one part in `2^46` of what is measured, and
/// two parts in a thousand million for a residual too small to keep.
pub open spec fn tolerance(x: Extent, width: Binary64) -> real {
    128real * (ulp() * measure_of(x, width)) + 2real / 1000000000real
}

/// Every line accounts for its width: natural width, spacing over the gaps,
/// tracking over the characters and the residual come to the measure with its
/// hanging and opening credits, but for rounding. A last line that fits comes
/// to its natural width.
pub proof fn law_line_accounts(
    start: usize,
    end: usize,
    x: Extent,
    space: Binary64,
    width: Binary64,
    o: Options,
    emergency: bool,
)
    requires
        start < end,
        x.gaps == end - start - 1,
        accountable(x, space, width, o),
    ensures
        ({
            let line = fitted(start, end, x, space, width, o, emergency);
            near(accounted(line, x), aim(x, width), tolerance(x, width))
        }),
{
    let line = preferred(start, end, x, space, width, o);
    let done = finished(line, space, o);
    let d = amount(shortfall(x, width));
    let most = size(d);
    let total = measure_of(x, width);
    lemma_reach();
    lemma_shortfall_error(x, width);
    lemma_preferred_accounts(start, end, x, space, width, o);
    lemma_sizes(d, 0real);
    lemma_sizes(amount(width), 0real);
    lemma_sizes(amount(x.hanging), 0real);
    lemma_sizes(amount(x.opening), 0real);
    lemma_sizes(amount(x.natural), 0real);
    let m = 3real * most + 4real * speck();
    lemma_finished_accounts(line, space, o, m);
    assert(done.tracking == line.tracking && done.natural == x.natural);
}

/// Every line of words accounts for its width.
pub proof fn law_word_line_accounts(
    p: Paragraph,
    start: int,
    end: int,
    width: Binary64,
    o: Options,
    emergency: bool,
)
    requires
        0 <= start < end <= p.words.len(),
        p.words.len() <= usize::MAX,
        accountable(word_extent(p, start, end, o), p.space, width, o),
    ensures
        ({
            let x = word_extent(p, start, end, o);
            let line = word_line(p, start, end, width, o, emergency);
            near(accounted(line, x), aim(x, width), tolerance(x, width))
        }),
{
    law_line_accounts(
        start as usize,
        end as usize,
        word_extent(p, start, end, o),
        p.space,
        width,
        o,
        emergency,
    );
}

/// Every line with given metrics accounts for its width.
pub proof fn law_fragment_line_accounts(
    p: Paragraph,
    start: int,
    end: int,
    width: Binary64,
    o: Options,
    emergency: bool,
    f: FragmentMetrics,
)
    requires
        0 <= start < end <= p.words.len(),
        p.words.len() <= usize::MAX,
        accountable(fragment_extent(f, (end - start - 1) as usize, o), p.space, width, o),
    ensures
        ({
            let x = fragment_extent(f, (end - start - 1) as usize, o);
            let line = fragment_line(p, start, end, width, o, emergency, f);
            near(accounted(line, x), aim(x, width), tolerance(x, width))
        }),
{
    law_line_accounts(
        start as usize,
        end as usize,
        fragment_extent(f, (end - start - 1) as usize, o),
        p.space,
        width,
        o,
        emergency,
    );
}

}
