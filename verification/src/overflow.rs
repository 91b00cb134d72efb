//! Lines from earlier starts overflow at least as much.

use crate::accounting::{lemma_self_share, lemma_times, lemma_times_size, speck};
use crate::binary64::Binary64;
use crate::costs::{lemma_capacity_sign, lemma_chars_sign, measured};
use crate::errors::{
    amount, huge, lemma_add_error, lemma_amount_abs, lemma_amount_neg, lemma_amount_one,
    lemma_amount_order, lemma_amount_zero, lemma_count, lemma_div_error, lemma_mul_error,
    lemma_near, lemma_ratio_error, lemma_sizes, lemma_sub_error, lemma_tiny, lemma_unit, near, size,
    tiny, ulp,
};
use crate::fit::{
    capacity, finished, finished_spacing, fitness_class, preferred, shortfall, space_budget, used,
    word_extent, word_line,
};
use crate::model::{usable_width, Line, Mode, Options, Paragraph};
use crate::numeric::{js_sign, truthy};
use crate::pruning::{
    largest_opening, moderate, monotone, opening_at, ordinary, overflow_bound, scale, slack, widest,
};
use crate::rounding::magnitude;
use crate::signs::{
    lemma_add_raises, lemma_div_sizes, lemma_mul_one, lemma_mul_sign, lemma_one, lemma_ratio_sign,
    lemma_zero, not_negative,
};
use crate::solve::{bounded, policy_values, sound, unsigned};
use vstd::arithmetic::power2::{
    lemma2_to64, lemma_pow2_adds, lemma_pow2_pos, lemma_pow2_strictly_increases, pow2,
};
use vstd::prelude::*;

verus! {

/// The width of the words before word `i`.
spec fn wide(p: Paragraph, i: int) -> real {
    amount(p.widths[i])
}

/// The characters of the words before word `i`.
spec fn long(p: Paragraph, i: int) -> real {
    amount(p.characters[i])
}

/// The largest amounts are larger than any product of moderate ones.
pub proof fn lemma_large()
    ensures
        huge() > 1569275433846670190958947355801916604025588861116008628224real,
{
    lemma2_to64();
    lemma_pow2_adds(64, 64);
    lemma_pow2_adds(128, 62);
    lemma_pow2_strictly_increases(190, 1000);
    assert(pow2(62) == 4611686018427387904) by {
        lemma_pow2_adds(62, 2);
    }
    assert(pow2(190) == 1569275433846670190958947355801916604025588861116008628224) by {
        assert(pow2(64) * pow2(64) == 340282366920938463463374607431768211456) by (nonlinear_arith)
            requires
                pow2(64) == 18446744073709551616,
        ;
        assert(pow2(128) * pow2(62) == 1569275433846670190958947355801916604025588861116008628224)
            by (nonlinear_arith)
            requires
                pow2(128) == 340282366920938463463374607431768211456,
                pow2(62) == 4611686018427387904,
        ;
    }
}

/// A moderate number is below `2^63`.
proof fn lemma_moderate(x: Binary64)
    requires
        moderate(x),
    ensures
        x.is_finite(),
        0real <= amount(x) <= 9223372036854775808real,
{
    lemma_ratio_error(4_611_686_018_427_387_904, 1);
    lemma_unit();
    lemma_tiny(1real);
    let top = Binary64::ratio(4_611_686_018_427_387_904, 1);
    assert(4_611_686_018_427_387_904u64 as real == 4611686018427387904real && 1u64 as real
        == 1real);
    assert(x.is_finite());
    lemma_amount_order(x, top);
    lemma_amount_order(Binary64::zero(), x);
    lemma_amount_zero();
}

/// Widths and characters grow along a paragraph.
proof fn lemma_growing(p: Paragraph, widths: Seq<Binary64>, o: Options, i: int, j: int)
    requires
        p.valid(),
        monotone(p, widths, o),
        0 <= i <= j <= p.words.len(),
    ensures
        p.widths[i].is_finite(),
        p.widths[j].is_finite(),
        p.characters[i].is_finite(),
        p.characters[j].is_finite(),
        0real <= wide(p, i) <= wide(p, j) <= wide(p, p.words.len() as int),
        0real <= long(p, i) <= long(p, j) <= long(p, p.words.len() as int),
        p.characters[i].le(p.characters[j]),
        p.widths[i].le(p.widths[j]),
        wide(p, p.words.len() as int) <= 9223372036854775808real,
        long(p, p.words.len() as int) <= 9223372036854775808real,
{
    let n = p.words.len() as int;
    lemma_moderate(p.widths[n]);
    lemma_moderate(p.characters[n]);
    lemma_amount_zero();
    lemma_chain(p, widths, o, 0, i);
    lemma_chain(p, widths, o, i, j);
    lemma_chain(p, widths, o, j, n);
    lemma_amount_order(Binary64::zero(), p.widths[i]);
    lemma_amount_order(p.widths[i], p.widths[j]);
    lemma_amount_order(p.widths[j], p.widths[n]);
    lemma_amount_order(Binary64::zero(), p.characters[i]);
    lemma_amount_order(p.characters[i], p.characters[j]);
    lemma_amount_order(p.characters[j], p.characters[n]);
}

/// The order of widths and of characters.
proof fn lemma_chain(p: Paragraph, widths: Seq<Binary64>, o: Options, i: int, j: int)
    requires
        p.valid(),
        monotone(p, widths, o),
        0 <= i <= j <= p.words.len(),
    ensures
        i < j ==> p.widths[i].le(p.widths[j]) && p.characters[i].le(p.characters[j]),
    decreases j - i,
{
    if i < j {
        assert(ordinary(p, o, widest(widths, widths.len()), j - 1));
        if i < j - 1 {
            lemma_chain(p, widths, o, i, j - 1);
        }
    }
}

/// A word is nearly as wide as the tracking that its characters may lose.
proof fn lemma_word(p: Paragraph, widths: Seq<Binary64>, o: Options, i: int)
    requires
        p.valid(),
        monotone(p, widths, o),
        0 <= i < p.words.len(),
    ensures
        ({
            let dw = wide(p, i + 1) - wide(p, i);
            (long(p, i + 1) - long(p, i)) * amount(o.tracking) <= dw + 4real * (ulp() * dw) + 2real
                * tiny()
        }),
{
    lemma_unit();
    lemma_large();
    lemma_growing(p, widths, o, i, i + 1);
    lemma_moderate(o.tracking);
    assert(ordinary(p, o, widest(widths, widths.len()), i));
    let (dw, dc, t) = (
        wide(p, i + 1) - wide(p, i),
        long(p, i + 1) - long(p, i),
        amount(o.tracking),
    );
    lemma_sizes(dw, 0real);
    lemma_sizes(dc, 0real);
    lemma_sub_error(p.widths[i + 1], p.widths[i]);
    lemma_sub_error(p.characters[i + 1], p.characters[i]);
    let a = p.widths[i + 1] - p.widths[i];
    let b = p.characters[i + 1] - p.characters[i];
    let (f, k) = (amount(a), amount(b));
    let (e, q) = (ulp(), dc * t);
    let kt = k * t;
    assert(0real <= kt <= 1569275433846670190958947355801916604025588861116008628224real
        && q - e * q <= kt) by (nonlinear_arith)
        requires
            kt == k * t,
            q == dc * t,
            0real <= t <= 9223372036854775808real,
            0real <= dc <= 9223372036854775808real,
            dc - e * dc <= k <= dc + e * dc,
            e == 1real / 9007199254740992real,
    ;
    lemma_sizes(kt, 0real);
    lemma_mul_error(b, o.tracking);
    lemma_amount_order(b * o.tracking, a);
    let g = amount(b * o.tracking);
    assert(kt - e * kt - tiny() <= g);
    assert(g <= f);
    assert(q >= 0real) by (nonlinear_arith)
        requires
            q == dc * t,
            0real <= t,
            0real <= dc,
    ;
}

/// Words are nearly as wide as the tracking that their characters may lose.
proof fn lemma_words(p: Paragraph, widths: Seq<Binary64>, o: Options, c: int, a: int)
    requires
        p.valid(),
        monotone(p, widths, o),
        0 <= c <= a <= p.words.len(),
    ensures
        ({
            let dw = wide(p, a) - wide(p, c);
            (long(p, a) - long(p, c)) * amount(o.tracking) <= dw + 4real * (ulp() * dw) + 2real * (
            tiny() * ((a - c) as real))
        }),
    decreases a - c,
{
    let t = amount(o.tracking);
    let y = tiny();
    if c < a {
        lemma_words(p, widths, o, c, a - 1);
        lemma_word(p, widths, o, a - 1);
        let (x, z) = (long(p, a - 1) - long(p, c), long(p, a) - long(p, a - 1));
        assert((x + z) * t == x * t + z * t) by (nonlinear_arith);
        let (k, m) = ((a - c) as real, (a - 1 - c) as real);
        assert(k == m + 1real);
        assert(y * k == y * m + y) by (nonlinear_arith)
            requires
                k == m + 1real,
        ;
    } else {
        let x = long(p, a) - long(p, c);
        assert(x * t == 0real) by (nonlinear_arith)
            requires
                x == 0real,
        ;
        let k = (a - c) as real;
        assert(y * k == 0real) by (nonlinear_arith)
            requires
                k == 0real,
        ;
    }
}

/// A compressed space is nearly as wide as the tracking of one character.
proof fn lemma_space(p: Paragraph, widths: Seq<Binary64>, o: Options)
    requires
        p.valid(),
        monotone(p, widths, o),
        sound(o),
        bounded(o),
    ensures
        ({
            let sp = amount(p.space);
            amount(o.tracking) <= sp - sp * amount(o.shrink) + 4real * (ulp() * sp) + 2real
                * tiny()
        }),
        0real <= amount(o.shrink) <= 1real,
        o.shrink.is_finite(),
{
    lemma_unit();
    lemma_large();
    lemma_moderate(p.space);
    lemma_moderate(o.tracking);
    lemma_amount_one();
    lemma_amount_zero();
    lemma_one();
    let v = policy_values(o);
    assert(unsigned(v[1]));
    let one = Binary64::one();
    lemma_amount_order(o.shrink, Binary64::zero());
    lemma_amount_order(one, o.shrink);
    let (sp, sh, t) = (amount(p.space), amount(o.shrink), amount(o.tracking));
    lemma_sizes(1real - sh, 0real);
    lemma_sub_error(one, o.shrink);
    let rest = one - o.shrink;
    let r = amount(rest);
    let e = ulp();
    let x = sp * r;
    assert(0real <= x <= 99999999999999999999real && x <= sp - sp * sh + e * sp) by (nonlinear_arith)
        requires
            x == sp * r,
            0real <= sp <= 9223372036854775808real,
            0real <= sh <= 1real,
            (1real - sh) - e * (1real - sh) <= r <= (1real - sh) + e * (1real - sh),
            e == 1real / 9007199254740992real,
    ;
    lemma_sizes(x, 0real);
    lemma_mul_error(p.space, rest);
    lemma_amount_order(o.tracking, p.space * rest);
    assert(sp * sh >= 0real) by (nonlinear_arith)
        requires
            0real <= sp,
            0real <= sh,
    ;
}

/// The gaps of a line.
spec fn gaps(x: int, b: int) -> real {
    (b - x - 1) as real
}

/// The exact natural width of a line.
spec fn full_width(p: Paragraph, x: int, b: int) -> real {
    wide(p, b) - wide(p, x) + gaps(x, b) * amount(p.space)
}

/// What the spaces of a line give exactly.
spec fn full_budget(p: Paragraph, o: Options, x: int, b: int) -> real {
    (gaps(x, b) * amount(p.space)) * amount(o.shrink)
}

/// What the letters of a line give exactly.
spec fn full_tracking(p: Paragraph, o: Options, x: int, b: int) -> real {
    (long(p, b) - long(p, x) + gaps(x, b)) * amount(o.tracking)
}

/// What the words and spaces of a paragraph measure.
spec fn total(p: Paragraph) -> real {
    wide(p, p.words.len() as int) + (p.words.len() as real) * amount(p.space)
}

/// What a line gives exactly is within what the paragraph measures.
proof fn lemma_full(p: Paragraph, widths: Seq<Binary64>, o: Options, x: int, b: int)
    requires
        p.valid(),
        monotone(p, widths, o),
        sound(o),
        bounded(o),
        0 <= x < b <= p.words.len(),
    ensures
        0real <= wide(p, b) - wide(p, x) <= total(p),
        0real <= gaps(x, b) <= 9007199254740992real,
        0real <= gaps(x, b) * amount(p.space) <= total(p),
        0real <= full_width(p, x, b) <= total(p),
        0real <= full_budget(p, o, x, b) <= total(p),
        0real <= full_tracking(p, o, x, b) <= 4real * total(p) + 4real * speck(),
        0real <= total(p) <= 99999999999999999999999999999999999real * 99999real,
{
    lemma_growing(p, widths, o, x, b);
    lemma_moderate(p.space);
    lemma_moderate(o.tracking);
    lemma_space(p, widths, o);
    lemma_words(p, widths, o, x, b);
    lemma_unit();
    lemma_large();
    let n = p.words.len();
    let (g, k, sp, sh, t) = (
        gaps(x, b),
        n as real,
        amount(p.space),
        amount(o.shrink),
        amount(o.tracking),
    );
    let (gs, ks) = (g * sp, k * sp);
    assert(0real <= g <= k <= 9007199254740992real);
    assert(0real <= gs <= ks <= 99999999999999999999999999999999999real * 9999real)
        by (nonlinear_arith)
        requires
            gs == g * sp,
            ks == k * sp,
            0real <= g <= k <= 9007199254740992real,
            0real <= sp <= 9223372036854775808real,
    ;
    assert(0real <= gs * sh <= gs) by (nonlinear_arith)
        requires
            0real <= gs,
            0real <= sh <= 1real,
    ;
    let (dw, dc) = (wide(p, b) - wide(p, x), long(p, b) - long(p, x));
    let (y, m, e) = (tiny(), (b - x) as real, ulp());
    lemma_tiny(m);
    lemma_tiny(g);
    assert(0real <= sp * sh) by (nonlinear_arith)
        requires
            0real <= sp,
            0real <= sh,
    ;
    assert(g * t <= gs + 4real * (e * gs) + 2real * (y * g)) by (nonlinear_arith)
        requires
            t <= sp - sp * sh + 4real * (e * sp) + 2real * y,
            gs == g * sp,
            0real <= sp * sh,
            0real <= g,
    ;
    assert((dc + g) * t == dc * t + g * t && dc * t >= 0real && g * t >= 0real)
        by (nonlinear_arith)
        requires
            dc >= 0real,
            g >= 0real,
            t >= 0real,
    ;
}

/// What is measured of a line is near to what it measures exactly.
proof fn lemma_measured_line(p: Paragraph, widths: Seq<Binary64>, o: Options, x: int, b: int)
    requires
        p.valid(),
        monotone(p, widths, o),
        sound(o),
        bounded(o),
        0 <= x < b <= p.words.len(),
    ensures
        ({
            let line = word_extent(p, x, b, o);
            let budget = Binary64::from_count(line.gaps) * p.space * o.shrink;
            let give = budget + line.chars * o.tracking;
            let m = total(p);
            &&& line.natural.is_finite()
            &&& near(
                amount(line.natural),
                full_width(p, x, b),
                4real * (ulp() * m) + 2real * speck(),
            )
            &&& budget.is_finite()
            &&& near(
                amount(budget),
                full_budget(p, o, x, b),
                4real * (ulp() * m) + 4real * speck(),
            )
            &&& give.is_finite()
            &&& near(
                amount(give),
                full_budget(p, o, x, b) + full_tracking(p, o, x, b),
                40real * (ulp() * m) + 20real * speck(),
            )
        }),
{
    let line = word_extent(p, x, b, o);
    let count = Binary64::from_count(line.gaps);
    lemma_full(p, widths, o, x, b);
    lemma_growing(p, widths, o, x, b);
    lemma_moderate(p.space);
    lemma_moderate(o.tracking);
    lemma_space(p, widths, o);
    lemma_unit();
    lemma_large();
    lemma_tiny(1real);
    lemma_count(line.gaps);
    let (g, sp, sh, t, e, m, y) = (
        gaps(x, b),
        amount(p.space),
        amount(o.shrink),
        amount(o.tracking),
        ulp(),
        total(p),
        tiny(),
    );
    assert(amount(count) == g);
    let dw = wide(p, b) - wide(p, x);
    let dc = long(p, b) - long(p, x);
    let gs = g * sp;
    // The natural width.
    lemma_sizes(dw, 0real);
    lemma_sizes(gs, 0real);
    lemma_sub_error(p.widths[b], p.widths[x]);
    let diff = p.widths[b] - p.widths[x];
    lemma_near(amount(diff), dw, e * dw);
    lemma_mul_error(count, p.space);
    let spaces = count * p.space;
    let s = amount(spaces);
    lemma_near(s, gs, e * gs + y);
    lemma_sizes(amount(diff), s);
    lemma_add_error(diff, spaces);
    assert(near(amount(line.natural), full_width(p, x, b), 4real * (e * m) + 2real * speck()));
    // What the spaces give.
    let ss = s * sh;
    let gss = gs * sh;
    assert(near(ss, gss, e * m + y) && size(ss) <= 2real * m + speck()) by {
        assert(near(ss, gss, e * gs + y)) by (nonlinear_arith)
            requires
                ss == s * sh,
                gss == gs * sh,
                gs - (e * gs + y) <= s <= gs + (e * gs + y),
                0real <= sh <= 1real,
                e * gs + y >= 0real,
        ;
        lemma_sizes(ss, 0real);
    }
    lemma_mul_error(spaces, o.shrink);
    let budget = spaces * o.shrink;
    let f = amount(budget);
    assert(near(f, ss, e * (2real * m + speck()) + y));
    assert(near(f, gss, 4real * (e * m) + 4real * speck()));
    // What the letters give.
    lemma_sizes(dc, 0real);
    lemma_sub_error(p.characters[b], p.characters[x]);
    let kept = p.characters[b] - p.characters[x];
    let k = amount(kept);
    lemma_near(k, dc, e * dc);
    lemma_sizes(k, g);
    lemma_sizes(g, 0real);
    lemma_add_error(kept, count);
    let c = amount(line.chars);
    let all = dc + g;
    lemma_near(c, k + g, e * size(k + g));
    assert(near(c, all, 3real * (e * all)));
    let (ct, at) = (c * t, all * t);
    assert(near(ct, at, 3real * (e * at))) by (nonlinear_arith)
        requires
            ct == c * t,
            at == all * t,
            all - 3real * (e * all) <= c <= all + 3real * (e * all),
            t >= 0real,
    ;
    lemma_near(ct, at, 3real * (e * at));
    lemma_sizes(at, 0real);
    lemma_mul_error(line.chars, o.tracking);
    let track = line.chars * o.tracking;
    let w = amount(track);
    assert(near(w, at, 5real * (e * at) + y));
    lemma_near(w, at, 5real * (e * at) + y);
    lemma_near(f, gss, 4real * (e * m) + 4real * speck());
    lemma_sizes(gss, 0real);
    lemma_sizes(f, w);
    lemma_add_error(budget, track);
}

/// A longer line does not become narrower when both are compressed.
proof fn lemma_longer(p: Paragraph, widths: Seq<Binary64>, o: Options, c: int, a: int, b: int)
    requires
        p.valid(),
        monotone(p, widths, o),
        sound(o),
        bounded(o),
        0 <= c <= a < b <= p.words.len(),
    ensures
        full_width(p, c, b) - full_budget(p, o, c, b) - full_tracking(p, o, c, b) >= full_width(
            p,
            a,
            b,
        ) - full_budget(p, o, a, b) - full_tracking(p, o, a, b) - 8real * (ulp() * total(p)) - 8real
            * speck(),
{
    lemma_growing(p, widths, o, c, a);
    lemma_moderate(p.space);
    lemma_space(p, widths, o);
    lemma_words(p, widths, o, c, a);
    lemma_unit();
    lemma_large();
    let n = p.words.len();
    let (sp, sh, t, e, y) = (
        amount(p.space),
        amount(o.shrink),
        amount(o.tracking),
        ulp(),
        tiny(),
    );
    let (d, ga, gc, k) = ((a - c) as real, gaps(a, b), gaps(c, b), n as real);
    assert(gc == ga + d);
    assert(0real <= d <= k <= 9007199254740992real);
    lemma_tiny(d);
    let (dc, la) = (long(p, a) - long(p, c), long(p, b) - long(p, a));
    let ds = d * sp;
    assert(gc * sp == ga * sp + ds && (gc * sp) * sh == (ga * sp) * sh + ds * sh) by (nonlinear_arith)
        requires
            gc == ga + d,
            ds == d * sp,
    ;
    assert((dc + la + gc) * t == (la + ga) * t + dc * t + d * t) by (nonlinear_arith)
        requires
            gc == ga + d,
    ;
    assert(d * t <= ds - ds * sh + 4real * (e * ds) + 2real * (y * d)) by (nonlinear_arith)
        requires
            t <= sp - sp * sh + 4real * (e * sp) + 2real * y,
            ds == d * sp,
            0real <= d,
    ;
    assert(0real <= ds <= k * sp) by (nonlinear_arith)
        requires
            ds == d * sp,
            0real <= d <= k,
            0real <= sp,
    ;
    lemma_growing(p, widths, o, a, n as int);
    assert(long(p, b) - long(p, c) + gc == dc + la + gc);
}

/// The target of the widest line.
spec fn goal(p: Paragraph, widths: Seq<Binary64>, o: Options, hanging: Binary64) -> Binary64 {
    widest(widths, widths.len()) + hanging + largest_opening(p, o, p.words.len())
}

/// What the measurements and the target of a paragraph amount to.
spec fn span_of(p: Paragraph, target: Binary64) -> real {
    1real + total(p) + amount(target)
}

/// The target of the widest line is near to what it adds up from.
proof fn lemma_goal(p: Paragraph, widths: Seq<Binary64>, o: Options, hanging: Binary64)
    requires
        monotone(p, widths, o),
        moderate(hanging),
    ensures
        ({
            let sum = amount(widest(widths, widths.len())) + amount(hanging) + amount(
                largest_opening(p, o, p.words.len()),
            );
            let target = goal(p, widths, o, hanging);
            &&& target.is_finite()
            &&& near(amount(target), sum, 3real * (ulp() * sum))
            &&& 0real <= sum <= 99999999999999999999real
        }),
{
    lemma_unit();
    lemma_large();
    let width = widest(widths, widths.len());
    let opening = largest_opening(p, o, p.words.len());
    lemma_moderate(width);
    lemma_moderate(opening);
    lemma_moderate(hanging);
    let (w, m, h) = (amount(width), amount(opening), amount(hanging));
    lemma_sizes(w + h, 0real);
    lemma_add_error(width, hanging);
    let f = amount(width + hanging);
    lemma_sizes(f + m, 0real);
    lemma_add_error(width + hanging, opening);
}

/// The scale of a paragraph is near to what it adds up from.
proof fn lemma_scale(p: Paragraph, widths: Seq<Binary64>, o: Options)
    requires
        p.valid(),
        monotone(p, widths, o),
        sound(o),
        bounded(o),
        p.words.len() > 0,
    ensures
        ({
            let sum = 1real + amount(widest(widths, widths.len())) + amount(
                largest_opening(p, o, p.words.len()),
            ) + total(p);
            let q = scale(p, widths, o);
            &&& q.is_finite()
            &&& 9real * sum <= 10real * amount(q) <= 11real * sum
            &&& 1real <= sum <= 99999999999999999999999999999999999real * 9999999real
        }),
{
    lemma_unit();
    lemma_large();
    lemma_tiny(1real);
    let n = p.words.len();
    let width = widest(widths, widths.len());
    let opening = largest_opening(p, o, n);
    lemma_moderate(width);
    lemma_moderate(opening);
    lemma_moderate(p.space);
    lemma_full(p, widths, o, 0, n as int);
    lemma_growing(p, widths, o, 0, n as int);
    let (w, m, v, k, sp) = (
        amount(width),
        amount(opening),
        wide(p, n as int),
        n as real,
        amount(p.space),
    );
    let one = Binary64::one();
    lemma_amount_one();
    lemma_one();
    let count = Binary64::from_count(n as usize);
    lemma_count(n as usize);
    let ks = k * sp;
    assert(ks >= 0real) by (nonlinear_arith)
        requires
            ks == k * sp,
            k >= 0real,
            sp >= 0real,
    ;
    lemma_sizes(ks, 0real);
    lemma_mul_error(count, p.space);
    let s = amount(count * p.space);
    lemma_sizes(1real + w, 0real);
    lemma_add_error(one, width);
    let first = amount(one + width);
    lemma_sizes(first + m, 0real);
    lemma_add_error(one + width, opening);
    let second = amount(one + width + opening);
    lemma_sizes(second + v, 0real);
    lemma_add_error(one + width + opening, p.widths[n as int]);
    let third = amount(one + width + opening + p.widths[n as int]);
    lemma_sizes(third + s, 0real);
    lemma_add_error(one + width + opening + p.widths[n as int], count * p.space);
}

/// A part of something.
proof fn lemma_part_of(whole: Binary64)
    requires
        whole.is_finite(),
        0real <= amount(whole) <= 1569275433846670190958947355801916604025588861116008628224real,
    ensures
        ({
            let part = whole * Binary64::ratio(1, 1_099_511_627_776);
            &&& part.is_finite()
            &&& amount(whole) <= 1120000000000real * amount(part) + 1real / 1000real
            &&& 1080000000000real * amount(part) <= amount(whole) + 1real / 1000real
        }),
{
    lemma_unit();
    lemma_large();
    lemma_tiny(1real);
    let part = Binary64::ratio(1, 1_099_511_627_776);
    lemma_ratio_error(1, 1_099_511_627_776);
    let (r, z) = (amount(whole), amount(part));
    assert(1u64 as real == 1real && 1_099_511_627_776u64 as real == 1099511627776real);
    assert(z * 1110000000000real >= 1real);
    assert(z * 1090000000000real <= 1real);
    let rz = r * z;
    assert(rz * 1110000000000real >= r && rz * 1090000000000real <= r && rz >= 0real)
        by (nonlinear_arith)
        requires
            rz == r * z,
            r >= 0real,
            z * 1110000000000real >= 1real,
            z * 1090000000000real <= 1real,
    ;
    lemma_sizes(rz, 0real);
    lemma_mul_error(whole, part);
}

/// The slack is larger than rounding.
proof fn lemma_slack(p: Paragraph, widths: Seq<Binary64>, o: Options, hanging: Binary64)
    requires
        p.valid(),
        monotone(p, widths, o),
        sound(o),
        bounded(o),
        p.words.len() > 0,
        moderate(hanging),
    ensures
        ({
            let target = goal(p, widths, o, hanging);
            let room = slack(scale(p, widths, o), hanging);
            let y = span_of(p, target);
            &&& target.is_finite()
            &&& room.is_finite()
            &&& 0real <= amount(target)
            &&& ({
                let sum = amount(widest(widths, widths.len())) + amount(hanging) + amount(
                    largest_opening(p, o, p.words.len()),
                );
                sum <= 2real * y && near(amount(target), sum, 6real * (ulp() * y))
            })
            &&& 1real <= y <= 99999999999999999999999999999999999real * 99999999real
            &&& 4000real * (ulp() * y) <= amount(room) <= y
        }),
{
    lemma_large();
    lemma_goal(p, widths, o, hanging);
    lemma_scale(p, widths, o);
    lemma_full(p, widths, o, 0, p.words.len() as int);
    lemma_moderate(hanging);
    lemma_moderate(widest(widths, widths.len()));
    lemma_moderate(largest_opening(p, o, p.words.len()));
    let whole = scale(p, widths, o);
    let (q, h) = (amount(whole), amount(hanging));
    lemma_sizes(q + h, 0real);
    lemma_add_error(whole, hanging);
    lemma_part_of(whole + hanging);
}

/// The bound on overflow is above what the compressed line leaves over.
proof fn lemma_bound(p: Paragraph, widths: Seq<Binary64>, o: Options, a: int, b: int)
    requires
        p.valid(),
        monotone(p, widths, o),
        sound(o),
        bounded(o),
        0 <= a < b <= p.words.len(),
        moderate(word_extent(p, a, b, o).hanging),
    ensures
        ({
            let target = goal(p, widths, o, word_extent(p, a, b, o).hanging);
            let y = span_of(p, target);
            let bound = overflow_bound(p, widths, o, a, b);
            &&& bound.is_finite()
            &&& amount(bound) >= amount(target) - full_width(p, a, b) + full_budget(p, o, a, b)
                + full_tracking(p, o, a, b) + 3800real * (ulp() * y)
        }),
{
    let x = word_extent(p, a, b, o);
    let target = goal(p, widths, o, x.hanging);
    let room = slack(scale(p, widths, o), x.hanging);
    let give = capacity(x, p.space, -Binary64::one(), o);
    assert(give == Binary64::from_count(x.gaps) * p.space * o.shrink + x.chars * o.tracking) by {
        reveal(Binary64::spec_neg);
    }
    lemma_slack(p, widths, o, x.hanging);
    lemma_measured_line(p, widths, o, a, b);
    lemma_full(p, widths, o, a, b);
    lemma_large();
    let (t, y, n, g, z, e) = (
        amount(target),
        span_of(p, target),
        amount(x.natural),
        amount(give),
        amount(room),
        ulp(),
    );
    assert(near(n, full_width(p, a, b), 6real * (e * y)));
    let exact = full_budget(p, o, a, b) + full_tracking(p, o, a, b);
    assert(near(g, exact, 60real * (e * y)));
    lemma_sizes(t - n, 0real);
    lemma_sub_error(target, x.natural);
    let first = amount(target - x.natural);
    assert(near(first, t - n, 3real * (e * y)));
    lemma_sizes(first + g, 0real);
    lemma_add_error(target - x.natural, give);
    let second = amount(target - x.natural + give);
    assert(near(second, first + g, 10real * (e * y)));
    lemma_sizes(second + z, 0real);
    lemma_add_error(target - x.natural + give, room);
}

/// No measure is wider than the widest.
proof fn lemma_widest(widths: Seq<Binary64>, count: nat, k: int)
    requires
        0 <= k < count <= widths.len(),
        !widest(widths, count).is_nan(),
    ensures
        widths[k].le(widest(widths, count)),
    decreases count,
{
    if k < count - 1 {
        lemma_widest(widths, (count - 1) as nat, k);
    }
}

/// No opening is larger than the largest.
proof fn lemma_largest_opening(p: Paragraph, o: Options, count: nat, i: int)
    requires
        0 <= i < count,
        !largest_opening(p, o, count).is_nan(),
    ensures
        opening_at(p, o, i).le(largest_opening(p, o, count)),
    decreases count,
{
    if i < count - 1 {
        lemma_largest_opening(p, o, (count - 1) as nat, i);
    }
}

/// What an earlier line is short of: more than it can give.
proof fn lemma_short(
    p: Paragraph,
    widths: Seq<Binary64>,
    o: Options,
    a: int,
    b: int,
    c: int,
    k: int,
)
    requires
        p.valid(),
        monotone(p, widths, o),
        sound(o),
        bounded(o),
        0 <= c < a < b <= p.words.len(),
        0 <= k < widths.len(),
        usable_width(widths[k]),
        moderate(word_extent(p, a, b, o).hanging),
        amount(overflow_bound(p, widths, o, a, b)) < -(1real / 200real),
    ensures
        ({
            let x = word_extent(p, c, b, o);
            let target = goal(p, widths, o, x.hanging);
            let y = span_of(p, target);
            let delta = shortfall(x, widths[k]);
            let all = capacity(x, p.space, delta, o);
            &&& delta.is_finite()
            &&& all.is_finite()
            &&& delta.lt(Binary64::zero())
            &&& 0real <= amount(all) <= 7real * y
            &&& -(7real * y) <= amount(delta)
            &&& amount(delta) + amount(all) <= amount(overflow_bound(p, widths, o, a, b))
                - 3500real * (ulp() * y)
        }),
{
    let x = word_extent(p, c, b, o);
    let h = x.hanging;
    assert(h == word_extent(p, a, b, o).hanging);
    let target = goal(p, widths, o, h);
    let width = widths[k];
    let n = p.words.len();
    lemma_slack(p, widths, o, h);
    lemma_bound(p, widths, o, a, b);
    lemma_longer(p, widths, o, c, a, b);
    lemma_measured_line(p, widths, o, c, b);
    lemma_full(p, widths, o, c, b);
    lemma_large();
    lemma_unit();
    let top = widest(widths, widths.len());
    let most = largest_opening(p, o, n);
    lemma_moderate(top);
    lemma_moderate(most);
    lemma_moderate(h);
    lemma_widest(widths, widths.len(), k);
    lemma_largest_opening(p, o, n, c);
    assert(ordinary(p, o, top, c));
    assert(x.opening == opening_at(p, o, c));
    reveal(Binary64::spec_neg);
    lemma_amount_neg(top);
    assert(x.opening.is_finite());
    lemma_amount_order(width, top);
    lemma_amount_order(Binary64::zero(), width);
    lemma_amount_zero();
    lemma_amount_order(x.opening, most);
    lemma_amount_order(-top, x.opening);
    let (y, e, t) = (span_of(p, target), ulp(), amount(target));
    let (w, g, v) = (amount(width), amount(h), amount(x.opening));
    lemma_sizes(w + g, 0real);
    lemma_add_error(width, h);
    let f = amount(width + h);
    assert(near(f, w + g, 3real * (e * y)));
    lemma_sizes(f + v, 0real);
    lemma_add_error(width + h, x.opening);
    let own = width + h + x.opening;
    let r = amount(own);
    assert(near(r, f + v, 6real * (e * y)));
    assert(r <= t + 20real * (e * y));
    assert(r >= -(3real * y));
    let m = amount(x.natural);
    assert(near(m, full_width(p, c, b), 6real * (e * y)));
    assert(m > r);
    lemma_amount_order(x.natural, own);
    let delta = shortfall(x, width);
    assert(delta == own - x.natural);
    lemma_sizes(r - m, 0real);
    lemma_sub_error(own, x.natural);
    let d = amount(delta);
    assert(near(d, r - m, 6real * (e * y)));
    lemma_amount_order(delta, Binary64::zero());
    let all = capacity(x, p.space, delta, o);
    assert(all == Binary64::from_count(x.gaps) * p.space * o.shrink + x.chars * o.tracking);
    let exact = full_budget(p, o, c, b) + full_tracking(p, o, c, b);
    assert(near(amount(all), exact, 60real * (e * y)));
    lemma_chars(p, widths, o, c, b);
    lemma_capacity_sign(x, p.space, delta, o);
    lemma_amount_order(all, Binary64::zero());
}

/// A line has no fewer characters than none.
pub proof fn lemma_chars(p: Paragraph, widths: Seq<Binary64>, o: Options, c: int, b: int)
    requires
        p.valid(),
        monotone(p, widths, o),
        0 <= c < b <= p.words.len(),
    ensures
        not_negative(word_extent(p, c, b, o).chars),
        measured(p),
{
    assert forall|i: int, j: int| 0 <= i <= j < p.characters.len() implies (
    #[trigger] p.characters[i]).le(#[trigger] p.characters[j]) by {
        lemma_growing(p, widths, o, i, j);
    }
    lemma_chars_sign(p, c, b, o);
}

/// The opposite of one keeps a size.
pub proof fn lemma_opposite(x: Binary64)
    requires
        x.is_finite(),
    ensures
        (-Binary64::one() * x).is_finite(),
        amount(-Binary64::one() * x) == -amount(x),
{
    reveal(Binary64::spec_neg);
    lemma_mul_one(-Binary64::one(), x);
    lemma_amount_neg(x);
    assert((-x).mag() == x.mag() && (-x).negative() == !x.negative());
    assert((-Binary64::one() * x).value() == (-x).value());
}

/// A zero keeps nothing.
pub proof fn lemma_nothing(z: Binary64, x: Binary64)
    requires
        z.mag() == 0,
        x.is_finite(),
    ensures
        (z * x).is_finite(),
        (z * x).mag() == 0,
        (x * z).mag() == 0,
        amount(z * x) == 0real,
        amount(z) == 0real,
{
    reveal(Binary64::spec_mul);
    lemma_zero();
    lemma_pow2_pos(1074);
    assert(0 * magnitude(x.mag()) == 0 && magnitude(x.mag()) * 0 == 0) by (nonlinear_arith);
    lemma_amount_zero();
    assert(amount(z) == 0real && amount(z * x) == 0real) by {
        assert(z.value() == 0 && (z * x).value() == 0 && Binary64::zero().value() == 0);
    }
}

/// A line that is short of more than it can give, gives all.
proof fn lemma_gives_all(delta: Binary64, all: Binary64, budget: Binary64)
    requires
        delta.is_finite(),
        delta.lt(Binary64::zero()),
        all.is_finite(),
        budget.is_finite(),
        0real <= amount(all) <= -amount(delta),
        amount(all) == 0real ==> amount(budget) == 0real,
    ensures
        ({
            let share = js_sign(delta) * used(delta, all);
            &&& share.is_finite()
            &&& (share * all).is_finite()
            &&& amount(share * all) == -amount(all)
            &&& (share * budget).is_finite()
            &&& amount(share * budget) == -amount(budget)
        }),
        fitness_class(delta, all) == 0,
{
    let one = Binary64::one();
    let share = js_sign(delta) * used(delta, all);
    lemma_one();
    lemma_zero();
    lemma_amount_zero();
    lemma_amount_order(all, Binary64::zero());
    lemma_amount_order(delta, Binary64::zero());
    reveal(Binary64::spec_neg);
    reveal(Binary64::spec_abs);
    assert(js_sign(delta) == -one);
    let half = Binary64::ratio(1, 2);
    assert(half.mag() < one.mag() && !half.negative()) by {
        lemma_ratio_sign(1, 2);
        lemma_ratio_error(1, 2);
        lemma_unit();
        lemma_tiny(1real);
        lemma_amount_one();
        assert(1u64 as real == 1real && 2u64 as real == 2real);
        lemma_amount_order(half, one);
    }
    if truthy(all) {
        lemma_amount_abs(delta);
        lemma_amount_abs(all);
        reveal(size);
        lemma_amount_order(all.abs(), delta.abs());
        assert(all.mag() <= delta.mag());
        assert(all.mag() > 0);
        lemma_self_share(all);
        lemma_div_sizes(all, delta.abs(), all);
        lemma_div_sizes(all, delta, all);
        reveal(Binary64::spec_euclidean_or_real_div);
        assert(used(delta, all) == one);
        lemma_mul_one(-one, one);
        assert(share == -one);
        lemma_opposite(all);
        lemma_opposite(budget);
        let q = delta / all;
        assert(!q.is_nan() && q.mag() >= one.mag());
        assert(q.negative());
        assert(q.lt(-half));
    } else {
        assert(all.mag() == 0);
        assert(used(delta, all).mag() == 0);
        lemma_opposite(used(delta, all));
        lemma_mul_one(-one, used(delta, all));
        assert(share.mag() == 0);
        lemma_nothing(share, all);
        lemma_nothing(share, budget);
        lemma_mul_one(-one, Binary64::infinity());
    }
}

/// A count of gaps times a spacing.
spec fn over(g: real, x: Binary64) -> real {
    g * amount(x)
}

/// Contracting the spaces of a line that has given all changes nothing but by
/// rounding.
proof fn lemma_settled(line: Line, space: Binary64, o: Options, y: real)
    requires
        line.start < line.end,
        o.mode != Mode::Strict,
        line.end - line.start - 1 > 0,
        line.word_spacing.is_finite(),
        line.residual.is_finite(),
        (-space * o.shrink).is_finite(),
        1real <= y <= 99999999999999999999999999999999999real * 99999999real,
        -(20real * y) <= amount(line.residual),
        amount(line.residual) + 200real * (ulp() * y) <= -(1real / 250real),
        ({
            let g = amount(Binary64::from_count((line.end - line.start - 1) as usize));
            &&& 1real <= g <= 9007199254740992real
            &&& -(2real * y) <= over(g, line.word_spacing) <= 2real * y
            &&& near(over(g, -space * o.shrink), over(g, line.word_spacing), 20real * (ulp() * y))
        }),
    ensures
        finished(line, space, o).residual.is_finite(),
        amount(finished(line, space, o).residual) <= amount(line.residual) + 200real * (ulp() * y),
{
    let n = (line.end - line.start - 1) as usize;
    let count = Binary64::from_count(n);
    lemma_count(n);
    lemma_unit();
    lemma_large();
    lemma_amount_zero();
    lemma_amount_order(line.residual, Binary64::zero());
    let floor = -space * o.shrink;
    let (g, w, l, f, e, t) = (
        amount(count),
        amount(line.word_spacing),
        amount(line.residual),
        amount(floor),
        ulp(),
        tiny(),
    );
    lemma_tiny(g);
    let (gw, gf) = (g * w, g * f);
    let q = l / g;
    assert(g * q == l) by (nonlinear_arith)
        requires
            q == l / g,
            g >= 1real,
    ;
    lemma_times_size(g, q);
    lemma_sizes(l, 0real);
    lemma_sizes(q, 0real);
    let sq = size(q);
    assert(sq <= g * sq) by (nonlinear_arith)
        requires
            sq >= 0real,
            g >= 1real,
    ;
    lemma_div_error(line.residual, count);
    let each = line.residual / count;
    let c = amount(each);
    lemma_near(c, q, e * sq + t);
    lemma_times(g, c, q, e * sq + t);
    assert(g * (e * sq + t) == e * (g * sq) + t * g) by (nonlinear_arith);
    let gc = g * c;
    assert(near(gc, l, 21real * (e * y)));
    lemma_times_size(g, w);
    lemma_sizes(w, c);
    lemma_sizes(gw, 0real);
    let sw = size(w);
    assert(sw <= g * sw) by (nonlinear_arith)
        requires
            sw >= 0real,
            g >= 1real,
    ;
    lemma_add_error(line.word_spacing, each);
    let full = line.word_spacing + each;
    let v = amount(full);
    lemma_times(g, v, w + c, e * size(w + c));
    lemma_times_size(g, w + c);
    assert(g * (w + c) == gw + gc) by (nonlinear_arith)
        requires
            gw == g * w,
            gc == g * c,
    ;
    assert(g * (e * size(w + c)) == e * (g * size(w + c))) by (nonlinear_arith);
    lemma_sizes(gw + gc, 0real);
    let gv = g * v;
    assert(near(gv, gw + gc, 25real * (e * y)));
    let spacing = finished_spacing(line, space, o);
    lemma_amount_order(floor, full);
    assert(spacing == floor || spacing == full);
    let p = amount(spacing);
    let gp = g * p;
    assert(p >= f && p >= v);
    assert(gp >= gf) by (nonlinear_arith)
        requires
            gp == g * p,
            gf == g * f,
            p >= f,
            g >= 1real,
    ;
    let gd = gp - gw;
    assert(-(50real * (e * y)) <= gd <= 50real * (e * y));
    let d = p - w;
    assert(g * d == gd) by (nonlinear_arith)
        requires
            d == p - w,
            gd == gp - gw,
            gp == g * p,
            gw == g * w,
    ;
    lemma_times_size(g, d);
    lemma_sizes(d, 0real);
    lemma_sizes(gd, 0real);
    let sd = size(d);
    assert(sd <= g * sd) by (nonlinear_arith)
        requires
            sd >= 0real,
            g >= 1real,
    ;
    lemma_sub_error(spacing, line.word_spacing);
    let change = spacing - line.word_spacing;
    let k = amount(change);
    lemma_times(g, k, d, e * sd);
    assert(g * (e * sd) == e * (g * sd)) by (nonlinear_arith);
    let gk = g * k;
    assert(-(60real * (e * y)) <= gk <= 60real * (e * y));
    assert(k * g == gk) by (nonlinear_arith)
        requires
            gk == g * k,
    ;
    lemma_sizes(gk, 0real);
    lemma_mul_error(change, count);
    let moved = change * count;
    let r = amount(moved);
    assert(-(70real * (e * y)) <= r <= 70real * (e * y));
    lemma_sizes(l - r, 0real);
    lemma_sub_error(line.residual, moved);
    let rest = line.residual - moved;
    let z = amount(rest);
    assert(z <= l + 150real * (e * y));
    let small = Binary64::ratio(1, 1_000_000_000);
    lemma_ratio_error(1, 1_000_000_000);
    lemma_tiny(1real);
    assert(amount(small) <= 3real / 2000000000real) by {
        assert(1u64 as real == 1real && 1_000_000_000u64 as real == 1000000000real);
    }
    lemma_amount_abs(rest);
    lemma_sizes(z, 0real);
    lemma_amount_order(rest.abs(), small);
}

/// A line that starts before another one overflows at least as much as that
/// one's bound says, and is tight.
pub proof fn lemma_earlier_overflows(
    p: Paragraph,
    widths: Seq<Binary64>,
    o: Options,
    e: bool,
    a: int,
    b: int,
    c: int,
    k: int,
)
    requires
        p.valid(),
        monotone(p, widths, o),
        sound(o),
        bounded(o),
        0 <= c < a < b <= p.words.len(),
        0 <= k < widths.len(),
        usable_width(widths[k]),
        moderate(word_extent(p, a, b, o).hanging),
        overflow_bound(p, widths, o, a, b).lt(-Binary64::ratio(1, 100)),
    ensures
        word_line(p, c, b, widths[k], o, e).residual.le(overflow_bound(p, widths, o, a, b)),
        word_line(p, c, b, widths[k], o, e).fitness == Some(0i32),
{
    let x = word_extent(p, c, b, o);
    let bound = overflow_bound(p, widths, o, a, b);
    lemma_unit();
    lemma_large();
    lemma_tiny(1real);
    lemma_bound(p, widths, o, a, b);
    assert(amount(bound) < -(1real / 200real)) by {
        lemma_ratio_error(1, 100);
        assert(1u64 as real == 1real && 100u64 as real == 100real);
        lemma_amount_neg(Binary64::ratio(1, 100));
        lemma_amount_order(bound, -Binary64::ratio(1, 100));
    }
    assert(x.hanging == word_extent(p, a, b, o).hanging);
    lemma_short(p, widths, o, a, b, c, k);
    lemma_slack(p, widths, o, x.hanging);
    lemma_measured_line(p, widths, o, c, b);
    lemma_full(p, widths, o, c, b);
    let target = goal(p, widths, o, x.hanging);
    let width = widths[k];
    let y = span_of(p, target);
    let u = ulp();
    let delta = shortfall(x, width);
    let budget = space_budget(x, p.space, delta, o);
    let all = capacity(x, p.space, delta, o);
    assert(budget == Binary64::from_count(x.gaps) * p.space * o.shrink);
    lemma_chars(p, widths, o, c, b);
    lemma_capacity_sign(x, p.space, delta, o);
    lemma_amount_zero();
    lemma_amount_order(budget, Binary64::zero());
    lemma_no_capacity(p, widths, o, c, b);
    lemma_gives_all(delta, all, budget);
    let line = preferred(c as usize, b as usize, x, p.space, width, o);
    let (d, g) = (amount(delta), amount(all));
    let share = js_sign(delta) * used(delta, all);
    lemma_sizes(d + g, 0real);
    assert(d - amount(share * all) == d + g);
    lemma_sub_error(delta, share * all);
    let l = amount(line.residual);
    assert(line.residual == delta - share * all);
    assert(near(l, d + g, 14real * (u * y)));
    let done = finished(line, p.space, o);
    if !(o.mode == Mode::Strict || x.gaps == 0 || line.residual.same(Binary64::zero())) {
        lemma_spacing(p, widths, o, c, b, share * budget);
        lemma_settled(line, p.space, o, y);
    }
    lemma_amount_order(done.residual, bound);
}

/// A line that can give nothing has no budget.
proof fn lemma_no_capacity(p: Paragraph, widths: Seq<Binary64>, o: Options, c: int, b: int)
    requires
        p.valid(),
        monotone(p, widths, o),
        sound(o),
        bounded(o),
        0 <= c < b <= p.words.len(),
    ensures
        ({
            let x = word_extent(p, c, b, o);
            let budget = Binary64::from_count(x.gaps) * p.space * o.shrink;
            let give = budget + x.chars * o.tracking;
            amount(give) == 0real ==> amount(budget) == 0real
        }),
{
    let x = word_extent(p, c, b, o);
    let count = Binary64::from_count(x.gaps);
    let budget = count * p.space * o.shrink;
    let track = x.chars * o.tracking;
    lemma_measured_line(p, widths, o, c, b);
    lemma_chars(p, widths, o, c, b);
    lemma_amount_zero();
    let v = policy_values(o);
    assert(unsigned(v[1]) && unsigned(v[2]));
    lemma_ratio_sign(x.gaps as u64, 1);
    lemma_mul_sign(count, p.space);
    lemma_mul_sign(count * p.space, o.shrink);
    lemma_mul_sign(x.chars, o.tracking);
    lemma_full(p, widths, o, c, b);
    lemma_large();
    reveal(Binary64::spec_add);
    lemma_amount_order(budget, Binary64::zero());
    assert(track.is_finite());
    lemma_amount_order(track, Binary64::zero());
    lemma_sum_sizes(budget, track);
}

/// A sum of nothing has no parts.
proof fn lemma_sum_sizes(x: Binary64, y: Binary64)
    requires
        x.is_finite(),
        y.is_finite(),
        0real <= amount(x),
        0real <= amount(y),
        (x + y).is_finite(),
    ensures
        amount(x + y) == 0real ==> amount(x) == 0real,
{
    lemma_amount_zero();
    lemma_amount_order(x, Binary64::zero());
    lemma_amount_order(y, Binary64::zero());
    lemma_amount_order(x + y, Binary64::zero());
    lemma_add_raises(x, x, y);
    lemma_amount_order(x, x + y);
}

/// Spaces that give all are contracted to the shrink limit, but for rounding.
proof fn lemma_spacing(
    p: Paragraph,
    widths: Seq<Binary64>,
    o: Options,
    c: int,
    b: int,
    whole: Binary64,
)
    requires
        p.valid(),
        monotone(p, widths, o),
        sound(o),
        bounded(o),
        0 <= c < b <= p.words.len(),
        b - c - 1 > 0,
        whole.is_finite(),
        amount(whole) == -amount(
            Binary64::from_count(word_extent(p, c, b, o).gaps) * p.space * o.shrink,
        ),
    ensures
        ({
            let count = Binary64::from_count(word_extent(p, c, b, o).gaps);
            let g = amount(count);
            let spacing = whole / count;
            let floor = -p.space * o.shrink;
            let y = 1real + total(p);
            &&& 1real <= g <= 9007199254740992real
            &&& spacing.is_finite()
            &&& floor.is_finite()
            &&& -(2real * y) <= over(g, spacing) <= 2real * y
            &&& near(over(g, floor), over(g, spacing), 20real * (ulp() * y))
        }),
{
    let x = word_extent(p, c, b, o);
    let count = Binary64::from_count(x.gaps);
    let floor = -p.space * o.shrink;
    let y = 1real + total(p);
    lemma_count(x.gaps);
    lemma_unit();
    lemma_large();
    lemma_measured_line(p, widths, o, c, b);
    lemma_full(p, widths, o, c, b);
    lemma_moderate(p.space);
    lemma_space(p, widths, o);
    lemma_amount_neg(p.space);
    let (g, sp, sh, w, e, t) = (
        amount(count),
        amount(p.space),
        amount(o.shrink),
        amount(whole),
        ulp(),
        tiny(),
    );
    assert(g == gaps(c, b) && g >= 1real);
    lemma_tiny(g);
    let exact = full_budget(p, o, c, b);
    // The spacing.
    let q = w / g;
    assert(g * q == w) by (nonlinear_arith)
        requires
            q == w / g,
            g >= 1real,
    ;
    lemma_times_size(g, q);
    lemma_sizes(w, 0real);
    lemma_sizes(q, 0real);
    let sq = size(q);
    assert(sq <= g * sq) by (nonlinear_arith)
        requires
            sq >= 0real,
            g >= 1real,
    ;
    lemma_div_error(whole, count);
    let spacing = whole / count;
    lemma_times(g, amount(spacing), q, e * sq + t);
    assert(g * (e * sq + t) == e * (g * sq) + t * g) by (nonlinear_arith);
    assert(near(over(g, spacing), -exact, 10real * (e * y)));
    // The shrink limit.
    let m = (-sp) * sh;
    assert(0real <= sp * sh <= sp && m == -(sp * sh)) by (nonlinear_arith)
        requires
            m == (-sp) * sh,
            0real <= sp,
            0real <= sh <= 1real,
    ;
    lemma_sizes(m, 0real);
    lemma_mul_error(-p.space, o.shrink);
    let sm = size(m);
    lemma_times(g, amount(floor), m, e * sm + t);
    assert(g * m == -exact && g * sm == exact) by (nonlinear_arith)
        requires
            m == -(sp * sh),
            sm == sp * sh,
            exact == (g * sp) * sh,
    ;
    assert(g * (e * sm + t) == e * (g * sm) + t * g) by (nonlinear_arith);
    assert(near(over(g, floor), -exact, 3real * (e * y)));
}

}
