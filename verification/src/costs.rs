//! What a line costs is not below zero.

use crate::binary64::Binary64;
use crate::hyphenated::{break_cost, candidate, last_word, metrics, span, Node};
use crate::fit::{
    capacity, ending_cost, failure_cost, finished, fitted, fragment_extent, overflow_cost,
    preferred, shortfall, space_budget, strain, used, word_extent, Extent,
};
use crate::model::{usable_width, Ending, Line, Mode, Options, Paragraph};
use crate::numeric::{cube, js_max, js_min, square};
use crate::signs::{
    lemma_abs_sign, lemma_add_raises, lemma_add_sign, lemma_div_sign, lemma_mul_sign, lemma_one,
    lemma_ratio_sign, lemma_square_sign, lemma_sub_sign, not_negative,
};
use crate::solve::{policy_values, sound, unsigned};
use vstd::prelude::*;

verus! {

/// What measuring a paragraph gives: spaces have a width, and words have a
/// number of characters.
pub open spec fn measured(p: Paragraph) -> bool {
    &&& p.space.gt(Binary64::zero())
    &&& forall|a: int, b: int|
        0 <= a <= b < p.characters.len() ==> (#[trigger] p.characters[a]).le(
            #[trigger] p.characters[b],
        )
}

/// Cubes keep the sign.
proof fn lemma_cube_sign(x: Binary64)
    requires
        not_negative(x),
    ensures
        not_negative(cube(x)),
{
    lemma_mul_sign(x, x);
    lemma_mul_sign(x * x, x);
}

/// What a line may give is not below zero.
pub proof fn lemma_capacity_sign(x: Extent, space: Binary64, delta: Binary64, o: Options)
    requires
        space.gt(Binary64::zero()),
        not_negative(x.chars),
        sound(o),
    ensures
        not_negative(space_budget(x, space, delta, o)),
        not_negative(capacity(x, space, delta, o)),
        not_negative(Binary64::from_count(x.gaps) * space),
        !(Binary64::from_count(x.gaps) * space).negative(),
        not_negative(used(delta, capacity(x, space, delta, o))),
{
    let v = policy_values(o);
    assert(unsigned(v[0]) && unsigned(v[1]) && unsigned(v[2]));
    let count = Binary64::from_count(x.gaps);
    lemma_ratio_sign(x.gaps as u64, 1);
    lemma_mul_sign(count, space);
    lemma_mul_sign(count * space, o.stretch);
    lemma_mul_sign(count * space, o.shrink);
    lemma_mul_sign(x.chars, o.tracking);
    lemma_add_sign(space_budget(x, space, delta, o), x.chars * o.tracking);
    lemma_abs_sign(delta);
    let all = capacity(x, space, delta, o);
    if crate::numeric::truthy(all) {
        lemma_div_sign(delta.abs(), all);
    }
}

/// Strain costs nothing below zero.
pub proof fn lemma_strain_sign(line: Line, x: Extent, space: Binary64, o: Options, e: bool)
    requires
        space.gt(Binary64::zero()),
        usable_width(line.width),
        not_negative(x.chars),
        sound(o),
        !o.emergency_stretch.negative(),
    ensures
        not_negative(strain(line, x, space, o, e)),
{
    let v = policy_values(o);
    assert(unsigned(v[4]));
    let hundred = Binary64::ratio(100, 1);
    lemma_ratio_sign(100, 1);
    let delta = shortfall(x, line.width);
    let all = capacity(x, space, delta, o);
    let ratio = used(delta, all);
    lemma_capacity_sign(x, space, delta, o);
    if e && delta.gt(Binary64::zero()) {
        let extra = line.width * o.emergency_stretch;
        lemma_mul_sign(line.width, o.emergency_stretch);
        lemma_add_sign(all, extra);
        lemma_div_sign(delta, all + extra);
        lemma_cube_sign(delta / (all + extra));
        lemma_mul_sign(hundred, cube(delta / (all + extra)));
    } else if o.mode == Mode::Balanced {
        let unit = js_max(all, js_max(Binary64::from_count(x.gaps) * space, space));
        lemma_abs_sign(line.residual);
        assert(!unit.negative());
        lemma_div_sign(line.residual.abs(), unit);
        let sum = ratio + line.residual.abs() / unit;
        lemma_add_sign(ratio, line.residual.abs() / unit);
        lemma_cube_sign(sum);
        lemma_mul_sign(hundred, cube(sum));
    } else {
        lemma_cube_sign(ratio);
        lemma_mul_sign(cube(ratio), hundred);
    }
}

/// A short ending costs nothing below zero.
pub proof fn lemma_ending_sign(x: Extent, space: Binary64, width: Binary64, o: Options)
    requires
        space.gt(Binary64::zero()),
        usable_width(width),
        not_negative(x.chars),
        sound(o),
    ensures
        not_negative(ending_cost(x, space, width, o)),
{
    let v = policy_values(o);
    assert(unsigned(v[0]) && unsigned(v[2]) && unsigned(v[10]));
    let missing = js_max(Binary64::zero(), o.last_line * width - x.natural);
    lemma_capacity_sign(x, space, Binary64::zero(), o);
    lemma_ratio_sign(300, 1);
    lemma_ratio_sign(100, 1);
    lemma_ratio_sign(10_000, 1);
    if x.last && x.continued {
        match o.ending {
            Ending::Fit => {
                let give = Binary64::from_count(x.gaps) * space * o.stretch + x.chars * o.tracking;
                let unit = js_max(space, give);
                assert(!unit.negative());
                lemma_div_sign(missing, unit);
                lemma_cube_sign(missing / unit);
                let price = Binary64::ratio(100, 1) * cube(missing / unit);
                lemma_mul_sign(Binary64::ratio(100, 1), cube(missing / unit));
                lemma_div_sign(o.widow_penalty, Binary64::ratio(300, 1));
                lemma_mul_sign(
                    o.widow_penalty / Binary64::ratio(300, 1),
                    js_min(Binary64::ratio(10_000, 1), price),
                );
            },
            Ending::Soft => {
                lemma_div_sign(missing, width);
                lemma_mul_sign(missing / width, missing / width);
                lemma_mul_sign(o.widow_penalty, square(missing / width));
            },
        }
    }
}

/// What is left over costs nothing below zero.
proof fn lemma_overflow_sign(residual: Binary64, mode: Mode)
    ensures
        not_negative(overflow_cost(residual, mode)),
{
    lemma_ratio_sign(1_000_000, 1);
    lemma_ratio_sign(10_000, 1);
    lemma_ratio_sign(100, 1);
    lemma_square_sign(residual);
    lemma_mul_sign(residual * residual, Binary64::ratio(10_000, 1));
    lemma_mul_sign(residual * residual, Binary64::ratio(100, 1));
    lemma_add_sign(
        Binary64::ratio(1_000_000, 1),
        residual * residual * Binary64::ratio(10_000, 1),
    );
    lemma_add_sign(Binary64::ratio(10_000, 1), residual * residual * Binary64::ratio(100, 1));
}

/// The characters of a line are not below zero.
pub proof fn lemma_chars_sign(p: Paragraph, start: int, end: int, o: Options)
    requires
        p.valid(),
        measured(p),
        0 <= start < end <= p.words.len(),
    ensures
        not_negative(word_extent(p, start, end, o).chars),
{
    let gaps = (end - start - 1) as usize;
    lemma_ratio_sign(gaps as u64, 1);
    assert(p.characters[start].le(p.characters[end]));
    lemma_sub_sign(p.characters[end], p.characters[start]);
    lemma_add_sign(p.characters[end] - p.characters[start], Binary64::from_count(gaps));
}

/// No line costs less than one: not a line of whole words, nor one of fragments.
pub proof fn law_line_costs_one(
    start: usize,
    end: usize,
    x: Extent,
    space: Binary64,
    width: Binary64,
    o: Options,
    e: bool,
)
    requires
        space.gt(Binary64::zero()),
        not_negative(x.chars),
        usable_width(width),
        sound(o),
        !o.emergency_stretch.negative(),
    ensures
        !fitted(start, end, x, space, width, o, e).cost.lt(Binary64::one()),
{
    let line = preferred(start, end, x, space, width, o);
    let remaining = finished(line, space, o).residual;
    let v = policy_values(o);
    assert(unsigned(v[3]));
    let price = strain(line, x, space, o, e);
    let factor = if shortfall(x, width).lt(Binary64::zero()) {
        o.compression_penalty
    } else {
        Binary64::one()
    };
    lemma_strain_sign(line, x, space, o, e);
    lemma_mul_sign(price, factor);
    let failure = failure_cost(remaining, o.mode);
    lemma_overflow_sign(remaining, o.mode);
    lemma_overflow_sign(remaining, Mode::Strict);
    let ending = ending_cost(x, space, width, o);
    lemma_ending_sign(x, space, width, o);
    let one = Binary64::one();
    lemma_one();
    lemma_add_raises(one, one, price * factor);
    lemma_add_raises(one + price * factor, one, failure);
    lemma_add_raises(one + price * factor + failure, one, ending);
}

/// No line from one break to another costs less than one, the price of the
/// break included.
pub proof fn law_candidate_costs_one(
    p: Paragraph,
    nodes: Seq<Node>,
    start: int,
    end: int,
    width: Binary64,
    o: Options,
    e: bool,
)
    requires
        p.space.gt(Binary64::zero()),
        not_negative(span(p, nodes[start], nodes[end]).1),
        usable_width(width),
        sound(o),
        !o.emergency_stretch.negative(),
    ensures
        !candidate(p, nodes, start, end, width, o, e).cost.lt(Binary64::one()),
{
    let (a, b) = (nodes[start], nodes[end]);
    let last = end == nodes.len() - 1;
    let f = metrics(p, a, b, start == 0, last);
    let gaps = (last_word(b) + 1 - a.word - 1) as usize;
    let x = fragment_extent(f, gaps, o);
    law_line_costs_one(a.word, (last_word(b) + 1) as usize, x, p.space, width, o, e);
    let v = policy_values(o);
    assert(unsigned(v[11]) && unsigned(v[12]) && unsigned(v[13]) && unsigned(v[14]));
    lemma_add_sign(o.hyphen_penalty, o.consecutive_hyphen_penalty);
    lemma_add_sign(o.hyphen_penalty, Binary64::zero());
    let line = fitted(a.word, (last_word(b) + 1) as usize, x, p.space, width, o, e);
    lemma_one();
    lemma_add_raises(line.cost, Binary64::one(), break_cost(a, b, last, o));
}

}
