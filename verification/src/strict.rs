//! A strict policy composes every paragraph in the first pass.

use crate::accounting::{
    accountable, lemma_preferred_accounts, lemma_reach, lemma_shortfall_error, lemma_used,
    measure_of,
};
use crate::binary64::Binary64;
use crate::costs::lemma_capacity_sign;
use crate::errors::{
    amount, lemma_add_error, lemma_amount_one, lemma_amount_order, lemma_amount_zero,
    lemma_mul_error, lemma_near, lemma_ratio_error, lemma_sizes, lemma_tiny, lemma_unit, size, tiny,
    ulp,
};
use crate::extra::{law_extra_breaks_cost_no_more, measured_whole};
use crate::fit::{
    capacity, ending_cost, failure_cost, finished, overflow_cost, preferred, shortfall,
    space_budget, strain, used, word_extent, word_line,
};
use crate::hyphenation::{all_divided, with_divisions, Division};
use crate::laws::{accepted, emergency, lemma_accepted};
use crate::model::{Mode, Options, Paragraph};
use crate::optimum::{composes, is_path, leg, lemma_deciding_pass, path_cost, payable, total};
use crate::overflow::lemma_large;
use crate::render::bytes;
use crate::search::Grid;
use crate::signs::{lemma_mul_sign, lemma_one};
use crate::solve::{best_layout, layout_lines, policy_values, unsigned};
use vstd::prelude::*;

verus! {

/// A product of moderate factors.
proof fn lemma_product(x: Binary64, y: Binary64, a: real, b: real)
    requires
        x.is_finite(),
        y.is_finite(),
        size(amount(x)) <= a,
        size(amount(y)) <= b,
        a * b <= 1569275433846670190958947355801916604025588861116008628224real,
        0real <= a,
        0real <= b,
    ensures
        (x * y).is_finite(),
        size(amount(x * y)) <= 2real * (a * b) + 1real,
{
    lemma_large();
    lemma_unit();
    lemma_tiny(1real);
    let (p, q) = (amount(x), amount(y));
    lemma_sizes(p, 0real);
    lemma_sizes(q, 0real);
    let z = p * q;
    lemma_sizes(z, 0real);
    assert(size(z) <= a * b) by {
        reveal(size);
        assert(-(a * b) <= z <= a * b) by (nonlinear_arith)
            requires
                z == p * q,
                -a <= p <= a,
                -b <= q <= b,
        ;
    }
    lemma_mul_error(x, y);
    lemma_near(amount(x * y), z, ulp() * size(z) + tiny());
}

/// A sum of moderate terms.
proof fn lemma_sum(x: Binary64, y: Binary64, a: real, b: real)
    requires
        x.is_finite(),
        y.is_finite(),
        size(amount(x)) <= a,
        size(amount(y)) <= b,
        a + b <= 1569275433846670190958947355801916604025588861116008628224real,
    ensures
        (x + y).is_finite(),
        size(amount(x + y)) <= 2real * (a + b),
{
    lemma_large();
    lemma_unit();
    let (p, q) = (amount(x), amount(y));
    lemma_sizes(p, q);
    lemma_sizes(p + q, 0real);
    lemma_sizes(q, 0real);
    lemma_add_error(x, y);
    lemma_near(amount(x + y), p + q, ulp() * size(p + q));
}

/// A whole number up to ten million.
proof fn lemma_constant(n: u64)
    requires
        n <= 10_000_000,
    ensures
        Binary64::ratio(n, 1).is_finite(),
        size(amount(Binary64::ratio(n, 1))) <= 20000001real,
{
    lemma_ratio_error(n, 1);
    lemma_unit();
    lemma_tiny(1real);
    assert(1u64 as real == 1real && (n as real) / 1real == n as real && n as real <= 10000000real);
    lemma_sizes(amount(Binary64::ratio(n, 1)), 0real);
}

/// The whole paragraph on one line, in a strict policy, has a price.
proof fn lemma_one_line(p: Paragraph, width: Binary64, o: Options)
    requires
        p.valid(),
        p.words.len() > 0,
        o.mode == Mode::Strict,
        accountable(word_extent(p, 0, p.words.len() as int, o), p.space, width, o),
        measure_of(word_extent(p, 0, p.words.len() as int, o), width)
            <= 1000000000000000000000real,
        amount(o.compression_penalty) <= 1000000000000000000000real,
    ensures
        word_line(p, 0, p.words.len() as int, width, o, false).cost.is_finite(),
        size(amount(word_line(p, 0, p.words.len() as int, width, o, false).cost))
            <= 10000000000000000000000000000000000000000000000000000000real,
{
    let n = p.words.len() as int;
    let x = word_extent(p, 0, n, o);
    let line = preferred(0, n as usize, x, p.space, width, o);
    let delta = shortfall(x, width);
    let all = capacity(x, p.space, delta, o);
    let r = used(delta, all);
    lemma_unit();
    lemma_tiny(1real);
    lemma_large();
    lemma_reach();
    lemma_one();
    lemma_amount_one();
    lemma_amount_zero();
    let v = policy_values(o);
    assert(unsigned(v[2]) && unsigned(v[3]));
    lemma_shortfall_error(x, width);
    lemma_preferred_accounts(0, n as usize, x, p.space, width, o);
    let d = amount(delta);
    lemma_sizes(d, 0real);
    // What a line may give is a number.
    let budget = space_budget(x, p.space, delta, o);
    lemma_capacity_sign(x, p.space, delta, o);
    lemma_amount_order(budget, Binary64::zero());
    lemma_amount_order(x.chars, Binary64::zero());
    lemma_amount_order(o.tracking, Binary64::zero());
    let (c, q) = (amount(x.chars), amount(o.tracking));
    let cq = c * q;
    assert(cq >= 0real) by (nonlinear_arith)
        requires
            cq == c * q,
            c >= 0real,
            q >= 0real,
    ;
    lemma_sizes(cq, 0real);
    lemma_mul_error(x.chars, o.tracking);
    let track = x.chars * o.tracking;
    lemma_near(amount(track), cq, ulp() * cq + tiny());
    lemma_mul_sign(x.chars, o.tracking);
    lemma_amount_order(track, Binary64::zero());
    lemma_sizes(amount(budget) + amount(track), 0real);
    lemma_sizes(amount(track), 0real);
    lemma_add_error(budget, track);
    lemma_used(delta, all);
    // The strain.
    let hundred = Binary64::ratio(100, 1);
    lemma_constant(100);
    lemma_sizes(amount(r), 0real);
    lemma_product(r, r, 1real, 1real);
    lemma_product(r * r, r, 3real, 1real);
    lemma_product(r * r * r, hundred, 7real, 20000001real);
    let price = strain(line, x, p.space, o, false);
    assert(price == r * r * r * hundred);
    let factor = if delta.lt(Binary64::zero()) {
        o.compression_penalty
    } else {
        Binary64::one()
    };
    lemma_amount_order(o.compression_penalty, Binary64::zero());
    lemma_sizes(amount(factor), 0real);
    lemma_product(price, factor, 300000000real, 1000000000000000000000real);
    let first = Binary64::one() + price * factor;
    lemma_sizes(1real, 0real);
    lemma_sum(
        Binary64::one(),
        price * factor,
        1real,
        600000000000000000000000000001real,
    );
    // What is left over.
    let rest = line.residual;
    let failure = failure_cost(rest, o.mode);
    lemma_constant(10_000);
    let l = 10000000000000000000000real;
    assert(size(amount(rest)) <= l);
    lemma_product(rest, rest, l, l);
    let ll = l * l;
    assert(ll == 100000000000000000000000000000000000000000000real) by (nonlinear_arith)
        requires
            l == 10000000000000000000000real,
            ll == l * l,
    ;
    lemma_product(rest * rest, hundred, 2real * ll + 1real, 20000001real);
    lemma_sum(
        Binary64::ratio(10_000, 1),
        rest * rest * hundred,
        20000001real,
        2real * ((2real * ll + 1real) * 20000001real) + 1real,
    );
    assert(failure == Binary64::zero() || failure == overflow_cost(rest, Mode::Strict));
    lemma_sizes(0real, 0real);
    let m = 20000000000000000000000000000000000000000000000000000real;
    assert(size(amount(failure)) <= m);
    lemma_sum(first, failure, 2000000000000000000000000000000real, m);
    lemma_sum(first + failure, Binary64::zero(), 3real * m, 0real);
    let done = finished(line, p.space, o);
    assert(done == line);
    assert(ending_cost(x, p.space, width, o) == Binary64::zero());
}

/// The measurements of a paragraph, taken as one line, and its policy are
/// moderate: numbers of at most 22 digits.
pub open spec fn moderate_whole(p: Paragraph, widths: Seq<Binary64>, o: Options) -> bool {
    let x = word_extent(p, 0, p.words.len() as int, o);
    p.words.len() > 0 ==> {
        &&& accountable(x, p.space, widths[0], o)
        &&& measure_of(x, widths[0]) <= 1000000000000000000000real
        &&& amount(o.compression_penalty) <= 1000000000000000000000real
    }
}

/// A strict policy needs no emergency: it gives no line up, so that whole words
/// can always be composed in the first pass.
pub proof fn law_strict_needs_no_emergency(p: Paragraph, widths: Seq<Binary64>, o: Options)
    requires
        accepted(p, widths, o),
        !p.breakable(),
        o.mode == Mode::Strict,
        moderate_whole(p, widths, o),
    ensures
        !emergency(p, widths, o),
{
    let g = Grid::of(widths, o);
    let n = p.words.len();
    let lines = layout_lines(p, widths, o);
    let penalty = o.adjacent_penalty;
    lemma_accepted(p, widths, o);
    lemma_deciding_pass(g, n, lines, penalty);
    lemma_amount_zero();
    if n == 0 {
        let breaks = seq![0int];
        assert(is_path(breaks, 0));
        assert(path_cost(g, lines(false), penalty, breaks) == Binary64::zero());
        assert(payable(path_cost(g, lines(false), penalty, breaks)));
    } else {
        let breaks = seq![0, n as int];
        let line = word_line(p, 0, n as int, widths[0], o, false);
        lemma_one_line(p, widths[0], o);
        let zero = Binary64::zero();
        lemma_sizes(0real, 0real);
        lemma_sum(zero, line.cost, 0real, 10000000000000000000000000000000000000000000000000000000real);
        lemma_sum(zero + line.cost, zero, 20000000000000000000000000000000000000000000000000000000real, 0real);
        assert(is_path(breaks, n as int));
        assert(leg(g, lines(false), breaks, 0) == line);
        assert(path_cost(g, lines(false), penalty, breaks) == zero + line.cost + zero) by {
            reveal_with_fuel(total, 2);
        }
        assert(payable(path_cost(g, lines(false), penalty, breaks)));
    }
    assert(composes(g, n, lines(false), penalty));
}

/// Offering extra breaks never makes the optimum of a strict policy worse,
/// where everything is measured in whole numbers.
pub proof fn law_strict_extra_breaks_cost_no_more<
    F: FnMut(&str, usize) -> Vec<String>,
    M: FnMut(&str, usize) -> Binary64,
>(
    hyphenate: F,
    measure: M,
    p: Paragraph,
    d: Seq<Division>,
    w: Seq<int>,
    c: Seq<int>,
    s: int,
    widths: Seq<Binary64>,
    o: Options,
)
    requires
        accepted(p, widths, o),
        accepted(with_divisions(p, d), widths, o),
        p.hyphenation is None,
        measured_whole(p, w, c, s),
        all_divided(hyphenate, measure, p, d),
        forall|i: int| 0 <= i < p.words.len() ==> bytes(#[trigger] p.words[i]) <= usize::MAX,
        o.mode == Mode::Strict,
        moderate_whole(p, widths, o),
    ensures
        !best_layout(p, widths, o).cost.lt(best_layout(with_divisions(p, d), widths, o).cost),
{
    law_strict_needs_no_emergency(p, widths, o);
    law_extra_breaks_cost_no_more(hyphenate, measure, p, d, w, c, s, widths, o);
}

}
