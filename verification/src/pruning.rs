//! When the search over whole words may stop looking at earlier starts.

use crate::binary64::Binary64;
use crate::costs::{
    law_line_costs_one, lemma_chars_sign, lemma_ending_sign, lemma_strain_sign, measured,
};
use crate::errors::{
    lemma_amount_order, lemma_amount_zero, lemma_ratio_error, lemma_tiny, lemma_unit,
};
use crate::fit::{
    capacity, credit_at, ending_cost, failure_cost, finished, given_up, measure_words,
    opening_at_word, opening_credit, overflow_cost, preferred, shortfall, strain, word_extent,
    word_line, Extent,
};
use crate::model::{usable_width, usable_widths, Mode, Options, Paragraph, Prepared};
use crate::numeric::js_max;
use crate::overflow::{lemma_chars, lemma_earlier_overflows};
use crate::search::{
    adjacency, lemma_slot, lemma_useless, offer, safe, scanned, shuts, unsigned_costs,
    unsigned_lines, useless, Grid, Search, Verdict,
};
use crate::signs::{
    at_least, lemma_add_commutes, lemma_add_keeps, lemma_add_keeps_left, lemma_add_raises,
    lemma_below_opposite, lemma_mul_keeps, lemma_mul_sign, lemma_one, lemma_ratio_sign,
    lemma_square_sign, not_negative,
};
use crate::solve::{bounded, policy_values, sound, unsigned, word_lines};
use vstd::prelude::*;

verus! {

/// The widest of the first `count` measures.
pub open spec fn widest(widths: Seq<Binary64>, count: nat) -> Binary64
    decreases count,
{
    if count == 0 {
        Binary64::zero()
    } else {
        js_max(widest(widths, (count - 1) as nat), widths[count - 1])
    }
}

/// The opening credit of a line that starts with word `i`.
pub open spec fn opening_at(p: Paragraph, o: Options, i: int) -> Binary64 {
    opening_credit(p.start_hangs[i], credit_at(p.start_protrusions, i), o)
}

/// The largest opening credit of the first `count` words; at least nothing.
pub open spec fn largest_opening(p: Paragraph, o: Options, count: nat) -> Binary64
    decreases count,
{
    if count == 0 {
        Binary64::zero()
    } else {
        js_max(largest_opening(p, o, (count - 1) as nat), opening_at(p, o, count - 1))
    }
}

/// A number from zero to `2^62`.
pub open spec fn moderate(x: Binary64) -> bool {
    x.ge(Binary64::zero()) && x.le(Binary64::ratio(4_611_686_018_427_387_904, 1))
}

/// Word `i` has a width and characters, is at least as wide as the tracking
/// that its characters may lose, and is opened by no less than the opposite of
/// `width`.
pub open spec fn ordinary(p: Paragraph, o: Options, width: Binary64, i: int) -> bool {
    &&& p.widths[i].le(p.widths[i + 1])
    &&& p.characters[i].le(p.characters[i + 1])
    &&& (p.widths[i + 1] - p.widths[i]).ge(
        (p.characters[i + 1] - p.characters[i]) * o.tracking,
    )
    &&& opening_at(p, o, i).ge(-width)
}

/// A longer line does not become narrower at maximum compression, and its
/// measurements are moderate. Exotic policies, such as tracking larger than
/// glyph advances, use full search.
pub open spec fn monotone(p: Paragraph, widths: Seq<Binary64>, o: Options) -> bool {
    let n = p.words.len();
    let width = widest(widths, widths.len());
    &&& n < 9_007_199_254_740_992
    &&& p.space.gt(Binary64::zero()) && moderate(p.space)
    &&& !o.emergency_stretch.negative()
    &&& moderate(o.tracking)
    &&& (p.space * (Binary64::one() - o.shrink)).ge(o.tracking)
    &&& moderate(width)
    &&& moderate(largest_opening(p, o, n))
    &&& p.widths[0].ge(Binary64::zero()) && moderate(p.widths[n as int])
    &&& p.characters[0].ge(Binary64::zero()) && moderate(p.characters[n as int])
    &&& forall|i: int| 0 <= i < n ==> #[trigger] ordinary(p, o, width, i)
}

/// What the measurements of a paragraph add up to.
pub open spec fn scale(p: Paragraph, widths: Seq<Binary64>, o: Options) -> Binary64 {
    let n = p.words.len();
    Binary64::one() + widest(widths, widths.len()) + largest_opening(p, o, n) + p.widths[n as int]
        + Binary64::from_count(n as usize) * p.space
}

/// More than rounding can amount to on the lines of a paragraph.
pub open spec fn slack(scale: Binary64, hanging: Binary64) -> Binary64 {
    (scale + hanging) * Binary64::ratio(1, 1_099_511_627_776)
}

/// What the line from `start` to `end` leaves over at most, whatever its
/// measure: fully compressed, in the widest measure and with the largest
/// opening credit. Below zero it bounds the lines from all earlier starts.
pub open spec fn overflow_bound(
    p: Paragraph,
    widths: Seq<Binary64>,
    o: Options,
    start: int,
    end: int,
) -> Binary64 {
    let x = word_extent(p, start, end, o);
    widest(widths, widths.len()) + x.hanging + largest_opening(p, o, p.words.len()) - x.natural
        + capacity(x, p.space, -Binary64::one(), o) + slack(scale(p, widths, o), x.hanging)
}

/// The lines from the starts before `start` are known to overflow.
pub open spec fn overflowing(
    p: Paragraph,
    widths: Seq<Binary64>,
    o: Options,
    start: int,
    end: int,
) -> bool {
    &&& monotone(p, widths, o)
    &&& moderate(word_extent(p, start, end, o).hanging)
    &&& overflow_bound(p, widths, o, start, end).lt(-Binary64::ratio(1, 100))
}

/// What is known of the starts before `start`: where all of them overflow, this
/// pass gives them up, or they cost no less than their overflow.
pub open spec fn word_verdict(
    p: Paragraph,
    widths: Seq<Binary64>,
    o: Options,
    emergency: bool,
    start: int,
    end: int,
) -> Verdict {
    if !overflowing(p, widths, o, start, end) {
        Verdict::Open
    } else if !emergency && o.mode == Mode::Balanced && o.emergency_stretch.gt(Binary64::zero()) {
        Verdict::Shut
    } else {
        Verdict::Priced(
            Binary64::one() + overflow_cost(overflow_bound(p, widths, o, start, end), o.mode),
        )
    }
}

/// What the search over whole words knows of earlier starts.
pub open spec fn word_verdicts(p: Paragraph, widths: Seq<Binary64>, o: Options) -> spec_fn(
    bool,
) -> spec_fn(int, int) -> Verdict {
    |emergency: bool|
        |start: int, end: int| word_verdict(p, widths, o, emergency, start, end)
}

/// Ordinary fitting gives a line up that overflows.
proof fn lemma_given_up(
    p: Paragraph,
    start: int,
    end: int,
    width: Binary64,
    o: Options,
)
    requires
        o.mode == Mode::Balanced,
        o.emergency_stretch.gt(Binary64::zero()),
        word_line(p, start, end, width, o, false).residual.lt(-Binary64::ratio(1, 100)),
    ensures
        word_line(p, start, end, width, o, false).cost == Binary64::infinity(),
{
    lemma_ratio_sign(1, 100);
    lemma_below_opposite(
        word_line(p, start, end, width, o, false).residual,
        Binary64::ratio(1, 100),
    );
}

/// A larger overflow costs at least as much.
proof fn lemma_overflow_cost(residual: Binary64, bound: Binary64, mode: Mode)
    requires
        residual.le(bound),
        bound.lt(Binary64::zero()),
        !overflow_cost(bound, mode).is_nan(),
    ensures
        at_least(overflow_cost(residual, mode), overflow_cost(bound, mode)),
{
    let (base, scale) = if mode == Mode::Balanced {
        (Binary64::ratio(1_000_000, 1), Binary64::ratio(10_000, 1))
    } else {
        (Binary64::ratio(10_000, 1), Binary64::ratio(100, 1))
    };
    lemma_ratio_sign(1_000_000, 1);
    lemma_ratio_sign(10_000, 1);
    lemma_ratio_sign(100, 1);
    let (r, b) = (residual * residual, bound * bound);
    lemma_square_sign(residual);
    lemma_square_sign(bound);
    lemma_no_number(base, b * scale);
    lemma_no_number(b, scale);
    lemma_mul_keeps(bound, bound, residual, residual);
    if r.is_nan() {
        lemma_no_number(r, scale);
        lemma_no_number(base, r * scale);
    } else {
        lemma_mul_keeps(b, scale, r, scale);
        lemma_add_keeps_left(base, r * scale, b * scale);
    }
}

/// What is computed from what is no number is none.
proof fn lemma_no_number(x: Binary64, y: Binary64)
    ensures
        x.is_nan() || y.is_nan() ==> (x + y).is_nan() && (x * y).is_nan(),
{
    reveal(Binary64::spec_add);
    reveal(Binary64::spec_mul);
}

/// A tight line that overflows costs at least as much as its overflow.
proof fn lemma_overfull_cost(
    p: Paragraph,
    start: int,
    end: int,
    width: Binary64,
    o: Options,
    e: bool,
    bound: Binary64,
)
    requires
        p.valid(),
        measured(p),
        0 <= start < end <= p.words.len(),
        usable_width(width),
        sound(o),
        !o.emergency_stretch.negative(),
        bound.lt(-Binary64::ratio(1, 100)),
        word_line(p, start, end, width, o, e).residual.le(bound),
        !(Binary64::one() + overflow_cost(bound, o.mode)).is_nan(),
    ensures
        at_least(
            word_line(p, start, end, width, o, e).cost,
            Binary64::one() + overflow_cost(bound, o.mode),
        ),
{
    let x = word_extent(p, start, end, o);
    lemma_chars_sign(p, start, end, o);
    let line = preferred(start as usize, end as usize, x, p.space, width, o);
    let remaining = finished(line, p.space, o).residual;
    let slight = Binary64::ratio(1, 100);
    lemma_ratio_sign(1, 100);
    assert(remaining.lt(-slight));
    lemma_below_opposite(remaining, slight);
    lemma_below_opposite(bound, slight);
    let v = policy_values(o);
    assert(unsigned(v[3]));
    let one = Binary64::one();
    let price = strain(line, x, p.space, o, e);
    let factor = if shortfall(x, width).lt(Binary64::zero()) {
        o.compression_penalty
    } else {
        one
    };
    let least = overflow_cost(bound, o.mode);
    lemma_no_number(one, least);
    if !given_up(remaining, x, p.space, width, o, e) {
        lemma_strain_sign(line, x, p.space, o, e);
        lemma_mul_sign(price, factor);
        let failure = overflow_cost(remaining, o.mode);
        assert(failure_cost(remaining, o.mode) == failure);
        lemma_overflow_cost(remaining, bound, o.mode);
        let ending = ending_cost(x, p.space, width, o);
        lemma_ending_sign(x, p.space, width, o);
        lemma_add_raises(one, one, price * factor);
        lemma_add_keeps_left(one, failure, least);
        let opened = one + price * factor;
        if (one + failure).is_nan() {
            lemma_not_infinite(one, failure);
            lemma_no_number(opened, failure);
        } else {
            lemma_add_keeps(opened, one, failure);
        }
        lemma_add_raises(opened + failure, one + least, ending);
    }
}

/// A finite number and another one have a sum.
proof fn lemma_not_infinite(x: Binary64, y: Binary64)
    requires
        x.is_finite(),
    ensures
        (x + y).is_nan() ==> y.is_nan(),
{
    reveal(Binary64::spec_add);
}

/// No line of a measured paragraph costs less than nothing.
proof fn lemma_unsigned_lines(p: Paragraph, widths: Seq<Binary64>, o: Options, e: bool)
    requires
        p.valid(),
        monotone(p, widths, o),
        sound(o),
        usable_widths(widths),
    ensures
        unsigned_lines(
            word_lines(p, widths, o)(e),
            Grid::of(widths, o),
            p.words.len(),
            o.adjacent_penalty,
        ),
{
    let v = policy_values(o);
    assert(unsigned(v[8]));
    let lines = word_lines(p, widths, o)(e);
    assert forall|a: int, b: int, l: int|
        0 <= a < b <= p.words.len() && 0 <= l < widths.len() implies not_negative(
        (#[trigger] lines(a, b, l)).cost,
    ) by {
        assert(usable_width(widths[l]));
        lemma_chars(p, widths, o, a, b);
        law_line_costs_one(
            a as usize,
            b as usize,
            word_extent(p, a, b, o),
            p.space,
            widths[l],
            o,
            e,
        );
    }
}

/// The price of an overflow is a number.
proof fn lemma_price(bound: Binary64, mode: Mode)
    requires
        bound.lt(-Binary64::ratio(1, 100)),
    ensures
        !(Binary64::one() + overflow_cost(bound, mode)).is_nan(),
{
    lemma_ratio_sign(1, 100);
    lemma_below_opposite(bound, Binary64::ratio(1, 100));
    lemma_constant(1_000_000);
    lemma_constant(10_000);
    lemma_constant(100);
    lemma_one();
    lemma_square_sign(bound);
    reveal(Binary64::spec_mul);
    reveal(Binary64::spec_add);
}

/// A whole number above zero is finite.
proof fn lemma_constant(n: u64)
    requires
        n > 0,
    ensures
        Binary64::ratio(n, 1).is_finite(),
        Binary64::ratio(n, 1).mag() > 0,
        !Binary64::ratio(n, 1).negative(),
{
    lemma_ratio_sign(n, 1);
    lemma_ratio_error(n, 1);
    lemma_unit();
    lemma_tiny(1real);
    lemma_amount_zero();
    assert(1u64 as real == 1real && (n as real) / 1real == n as real && n as real >= 1real);
    lemma_amount_order(Binary64::zero(), Binary64::ratio(n, 1));
}

/// The bound on overflow is admissible: for every measure, a line from any
/// earlier start overflows at least as much, is tight, and costs no less than
/// the bound says.
pub proof fn law_bound_is_admissible(
    p: Paragraph,
    widths: Seq<Binary64>,
    o: Options,
    e: bool,
    start: int,
    end: int,
    earlier: int,
    l: int,
)
    requires
        p.valid(),
        sound(o),
        bounded(o),
        usable_widths(widths),
        0 <= earlier < start < end <= p.words.len(),
        0 <= l < widths.len(),
        overflowing(p, widths, o, start, end),
    ensures
        ({
            let bound = overflow_bound(p, widths, o, start, end);
            let line = word_line(p, earlier, end, widths[l], o, e);
            &&& line.residual.le(bound)
            &&& line.fitness == Some(0i32)
            &&& at_least(line.cost, Binary64::one() + overflow_cost(bound, o.mode))
        }),
{
    let bound = overflow_bound(p, widths, o, start, end);
    assert(usable_width(widths[l]));
    lemma_earlier_overflows(p, widths, o, e, start, end, earlier, l);
    lemma_chars(p, widths, o, earlier, end);
    lemma_price(bound, o.mode);
    lemma_overfull_cost(p, earlier, end, widths[l], o, e, bound);
}

/// A line from an earlier start improves nothing.
proof fn lemma_earlier_useless(
    p: Paragraph,
    widths: Seq<Binary64>,
    o: Options,
    e: bool,
    costs: Seq<Binary64>,
    a: int,
    b: int,
    c: int,
    l: int,
    class: int,
)
    requires
        p.valid(),
        sound(o),
        bounded(o),
        usable_widths(widths),
        shuts(word_verdict(p, widths, o, e, a, b), costs, Grid::of(widths, o), b, l),
        0 <= c < a < b <= p.words.len(),
        0 <= l < widths.len(),
        0 <= class < Grid::of(widths, o).fitnesses,
        costs.len() == (p.words.len() + 1) * Grid::of(widths, o).states(),
        unsigned_costs(costs),
    ensures
        ({
            let g = Grid::of(widths, o);
            let line = word_line(p, c, b, widths[l], o, e);
            !offer(costs, g, c, l, class, line, o.adjacent_penalty).lt(
                costs[g.target(b, l, line)],
            )
        }),
{
    let g = Grid::of(widths, o);
    let line = word_line(p, c, b, widths[l], o, e);
    let bound = overflow_bound(p, widths, o, a, b);
    lemma_slot(g, c, l, class);
    let states = g.states() as int;
    assert(c * states + states <= (p.words.len() + 1) * states) by (nonlinear_arith)
        requires
            c <= p.words.len(),
            states >= 0,
    ;
    let source = costs[g.slot(c, l, class)];
    assert(not_negative(source));
    let v = policy_values(o);
    assert(unsigned(v[8]));
    let fine = adjacency(c, class, line, o.adjacent_penalty);
    law_bound_is_admissible(p, widths, o, e, a, b, c, l);
    if !e && o.mode == Mode::Balanced && o.emergency_stretch.gt(Binary64::zero()) {
        lemma_given_up(p, c, b, widths[l], o);
        lemma_add_raises(line.cost, line.cost, source);
        lemma_add_commutes(source, line.cost);
        lemma_add_raises(source + line.cost, line.cost, fine);
    } else {
        let least = Binary64::one() + overflow_cost(bound, o.mode);
        assert(costs[g.slot(b, g.next(l), 0)].le(least));
        lemma_add_raises(line.cost, least, source);
        lemma_add_commutes(source, line.cost);
        lemma_add_raises(source + line.cost, least, fine);
        assert(g.target(b, l, line) == g.slot(b, g.next(l), 0));
    }
}

/// The search over whole words leaves out only what would not have improved
/// the layout.
pub proof fn law_pruning_is_safe(p: Paragraph, widths: Seq<Binary64>, o: Options, e: bool)
    requires
        p.valid(),
        sound(o),
        bounded(o),
        usable_widths(widths),
    ensures
        safe(
            word_verdicts(p, widths, o)(e),
            word_lines(p, widths, o)(e),
            Grid::of(widths, o),
            p.words.len(),
            o.adjacent_penalty,
        ),
{
    let g = Grid::of(widths, o);
    let verdict = word_verdicts(p, widths, o)(e);
    let lines = word_lines(p, widths, o)(e);
    let penalty = o.adjacent_penalty;
    let n = p.words.len();
    assert forall|a: int, b: int| 0 <= a < b <= n && !(#[trigger] verdict(a, b) is Open) implies {
        &&& unsigned_lines(lines, g, n, penalty)
        &&& forall|costs: Seq<Binary64>, l: int|
            costs.len() == (n + 1) * g.states() && unsigned_costs(costs) && 0 <= l < g.lines()
                && #[trigger] shuts(verdict(a, b), costs, g, b, l) ==> useless(
                costs,
                g,
                a,
                b,
                l,
                lines,
                penalty,
            )
    } by {
        lemma_unsigned_lines(p, widths, o, e);
        assert forall|costs: Seq<Binary64>, l: int|
            costs.len() == (n + 1) * g.states() && unsigned_costs(costs) && 0 <= l < g.lines()
                && #[trigger] shuts(verdict(a, b), costs, g, b, l) implies useless(
            costs,
            g,
            a,
            b,
            l,
            lines,
            penalty,
        ) by {
            assert forall|c: int, class: int| 0 <= c < a && 0 <= class < g.fitnesses implies !(
            #[trigger] offer(costs, g, c, l, class, lines(c, b, l), penalty)).lt(
                costs[g.target(b, l, lines(c, b, l))],
            ) by {
                lemma_earlier_useless(p, widths, o, e, costs, a, b, c, l, class);
            }
        }
    }
}

/// A pruned scan is a full one: where the verdict on a start shuts every
/// measure, going on to the earlier ones would change no cost and no break.
pub proof fn law_pruned_scan_is_full(
    p: Paragraph,
    widths: Seq<Binary64>,
    o: Options,
    e: bool,
    s: Search,
    start: int,
    end: int,
)
    requires
        p.valid(),
        sound(o),
        bounded(o),
        usable_widths(widths),
        0 <= start < end <= p.words.len(),
        s.costs.len() == (p.words.len() + 1) * Grid::of(widths, o).states(),
        unsigned_costs(s.costs),
        forall|l: int|
            0 <= l < widths.len() ==> #[trigger] shuts(
                word_verdict(p, widths, o, e, start, end),
                s.costs,
                Grid::of(widths, o),
                end,
                l,
            ),
    ensures
        scanned(
            s,
            Grid::of(widths, o),
            start - 1,
            end,
            word_lines(p, widths, o)(e),
            o.adjacent_penalty,
        ) == s,
{
    let g = Grid::of(widths, o);
    let lines = word_lines(p, widths, o)(e);
    let verdict = word_verdicts(p, widths, o)(e);
    let penalty = o.adjacent_penalty;
    law_pruning_is_safe(p, widths, o, e);
    assert(shuts(verdict(start, end), s.costs, g, end, 0));
    assert forall|l: int| 0 <= l < g.lines() implies #[trigger] useless(
        s.costs,
        g,
        start,
        end,
        l,
        lines,
        penalty,
    ) by {
        assert(shuts(verdict(start, end), s.costs, g, end, l));
    }
    lemma_useless(s, g, start, start - 1, end, lines, penalty);
}

/// The widest measure.
fn widest_of(widths: &Vec<Binary64>) -> (r: Binary64)
    ensures
        r == widest(widths@, widths@.len()),
{
    let mut r: Binary64 = Binary64::zero();
    let n: usize = widths.len();
    let mut i: usize = 0;
    while i < n
        invariant
            n == widths@.len(),
            i <= n,
            r == widest(widths@, i as nat),
        decreases n - i,
    {
        r = js_max(r, widths[i]);
        i = i + 1;
    }
    r
}

/// The largest opening credit.
fn largest_opening_of(p: &Prepared, o: &Options) -> (r: Binary64)
    requires
        p@.valid(),
    ensures
        r == largest_opening(p@, *o, p@.words.len()),
{
    let mut r: Binary64 = Binary64::zero();
    let n: usize = p.words.len();
    let mut i: usize = 0;
    while i < n
        invariant
            p@.valid(),
            n == p@.words.len(),
            i <= n,
            r == largest_opening(p@, *o, i as nat),
        decreases n - i,
    {
        r = js_max(r, opening_at_word(p, i, o));
        i = i + 1;
    }
    r
}

/// Whether a number is from zero to `2^62`.
fn is_moderate(x: Binary64) -> (r: bool)
    ensures
        r == moderate(x),
{
    x.ge(Binary64::zero()) && x.le(Binary64::ratio(4_611_686_018_427_387_904, 1))
}

/// Whether word `i` is ordinary.
fn is_ordinary(p: &Prepared, o: &Options, width: Binary64, i: usize) -> (r: bool)
    requires
        p@.valid(),
        i < p@.words.len(),
    ensures
        r == ordinary(p@, *o, width, i as int),
{
    p.widths[i].le(p.widths[i + 1]) && p.characters[i].le(p.characters[i + 1]) && (p.widths[i + 1]
        - p.widths[i]).ge((p.characters[i + 1] - p.characters[i]) * o.tracking) && opening_at_word(
        p,
        i,
        o,
    ).ge(width.opposite())
}

/// Whether a longer line does not become narrower at maximum compression.
fn is_monotone(
    p: &Prepared,
    o: &Options,
    width: Binary64,
    opening: Binary64,
    widths: Ghost<Seq<Binary64>>,
) -> (r: bool)
    requires
        p@.valid(),
        width == widest(widths@, widths@.len()),
        opening == largest_opening(p@, *o, p@.words.len()),
    ensures
        r == monotone(p@, widths@, *o),
{
    let n: usize = p.words.len();
    let zero: Binary64 = Binary64::zero();
    if n as u64 >= 9_007_199_254_740_992 {
        return false;
    }
    if !(p.space.gt(zero) && is_moderate(p.space) && !o.emergency_stretch.is_signed()
        && is_moderate(o.tracking) && (p.space * (Binary64::one() - o.shrink)).ge(o.tracking)
        && is_moderate(width) && is_moderate(opening) && p.widths[0].ge(zero) && is_moderate(
        p.widths[n],
    ) && p.characters[0].ge(zero) && is_moderate(p.characters[n])) {
        return false;
    }
    let mut i: usize = 0;
    while i < n
        invariant
            p@.valid(),
            n == p@.words.len(),
            i <= n,
            width == widest(widths@, widths@.len()),
            forall|k: int| 0 <= k < i ==> #[trigger] ordinary(p@, *o, width, k),
        decreases n - i,
    {
        if !is_ordinary(p, o, width, i) {
            assert(!ordinary(p@, *o, width, i as int));
            return false;
        }
        i = i + 1;
    }
    true
}

/// What a search computes once to know where it may stop.
pub struct Pruner {
    /// A longer line does not become narrower.
    applies: bool,
    /// The widest measure.
    width: Binary64,
    /// The largest opening credit.
    opening: Binary64,
    /// What the measurements add up to.
    scale: Binary64,
}

impl Pruner {
    /// The terms belong to this paragraph.
    pub closed spec fn of(self, p: Paragraph, widths: Seq<Binary64>, o: Options) -> bool {
        &&& self.applies == monotone(p, widths, o)
        &&& self.width == widest(widths, widths.len())
        &&& self.opening == largest_opening(p, o, p.words.len())
        &&& self.scale == scale(p, widths, o)
    }

    /// The terms of a paragraph.
    pub(crate) fn new(p: &Prepared, widths: &Vec<Binary64>, o: &Options) -> (r: Pruner)
        requires
            p@.valid(),
        ensures
            r.of(p@, widths@, *o),
    {
        let n: usize = p.words.len();
        let width: Binary64 = widest_of(widths);
        let opening: Binary64 = largest_opening_of(p, o);
        let applies: bool = is_monotone(p, o, width, opening, Ghost(widths@));
        let scale: Binary64 = Binary64::one() + width + opening + p.widths[n]
            + Binary64::from_count(n) * p.space;
        Pruner { applies, width, opening, scale }
    }

    /// What is known of the starts before `start`.
    pub(crate) fn judge(
        &self,
        p: &Prepared,
        o: &Options,
        emergency: bool,
        start: usize,
        end: usize,
        widths: Ghost<Seq<Binary64>>,
    ) -> (v: Verdict)
        requires
            self.of(p@, widths@, *o),
            p@.valid(),
            start < end <= p@.words.len(),
        ensures
            v == word_verdict(p@, widths@, *o, emergency, start as int, end as int),
    {
        if !self.applies {
            return Verdict::Open;
        }
        let x: Extent = measure_words(p, start, end, o);
        if !is_moderate(x.hanging) {
            return Verdict::Open;
        }
        let give: Binary64 = Binary64::from_count(x.gaps) * p.space * o.shrink + x.chars
            * o.tracking;
        proof {
            reveal(Binary64::spec_neg);
            assert(give == capacity(x, p@.space, -Binary64::one(), *o));
        }
        let slack: Binary64 = (self.scale + x.hanging) * Binary64::ratio(1, 1_099_511_627_776);
        let bound: Binary64 = self.width + x.hanging + self.opening - x.natural + give + slack;
        if !bound.lt(Binary64::ratio(1, 100).opposite()) {
            Verdict::Open
        } else if !emergency && o.mode == Mode::Balanced && o.emergency_stretch.gt(
            Binary64::zero(),
        ) {
            Verdict::Shut
        } else {
            Verdict::Priced(Binary64::one() + overflow_cost(bound, o.mode))
        }
    }
}

}
