//! The search for the cheapest sequence of breaks, over any numbering of the
//! places where a line may break.
//!
//! A slot stands for a break, the measure that the next line takes, and the
//! fitness class of the line that ended there.

use crate::binary64::Binary64;
use crate::model::{Line, Options};
use crate::signs::{lemma_add_sign, not_negative};
use vstd::arithmetic::div_mod::{lemma_fundamental_div_mod, lemma_fundamental_div_mod_converse};
use vstd::prelude::*;

verus! {

/// How the slots of a break are numbered.
#[verifier::ext_equal]
pub struct Grid {
    /// 4 where fitness classes count, else 1.
    pub fitnesses: nat,
    /// The measures.
    pub widths: Seq<Binary64>,
}

impl Grid {
    /// The grid of a policy.
    pub open spec fn of(widths: Seq<Binary64>, o: Options) -> Grid {
        Grid {
            fitnesses: if !o.adjacent_penalty.same(Binary64::zero()) {
                4
            } else {
                1
            },
            widths,
        }
    }

    /// There is a measure, and a known number of fitness classes.
    pub open spec fn valid(self) -> bool {
        self.widths.len() > 0 && (self.fitnesses == 1 || self.fitnesses == 4)
    }

    /// The number of measures.
    pub open spec fn lines(self) -> nat {
        self.widths.len()
    }

    /// The slots of one break.
    pub open spec fn states(self) -> nat {
        self.fitnesses * self.lines()
    }

    /// The slot before the first line: as if a decent line had ended there.
    pub open spec fn origin(self) -> int {
        if self.fitnesses == 4 {
            1
        } else {
            0
        }
    }

    /// The measure after measure `l`; the last one repeats.
    pub open spec fn next(self, l: int) -> int {
        if l + 1 < self.lines() {
            l + 1
        } else {
            self.lines() - 1
        }
    }

    /// A slot by its three coordinates.
    pub open spec fn slot(self, node: int, l: int, fitness: int) -> int {
        node * self.states() + l * self.fitnesses + fitness
    }

    /// The break of a slot.
    pub open spec fn node_of(self, slot: int) -> int {
        slot / (self.states() as int)
    }

    /// The measure that the next line takes after a slot.
    pub open spec fn line_of(self, slot: int) -> int {
        (slot % (self.states() as int)) / (self.fitnesses as int)
    }

    /// The fitness class of a slot.
    pub open spec fn fitness_of(self, slot: int) -> int {
        slot % (self.fitnesses as int)
    }

    /// The slot that a line reaches that starts with measure `l`.
    pub open spec fn target(self, end: int, l: int, line: Line) -> int {
        self.slot(
            end,
            self.next(l),
            if self.fitnesses == 4 {
                line.fitness->0 as int
            } else {
                0
            },
        )
    }
}

/// The state of a search.
#[verifier::ext_equal]
pub struct Search {
    /// The least cost found for each slot.
    pub costs: Seq<Binary64>,
    /// The slot from which each slot was reached so cheaply.
    pub previous: Seq<usize>,
}

/// True when a line follows one whose class differs from its own by more than
/// one.
pub open spec fn clashes(start: int, fitness: int, line: Line) -> bool {
    start != 0 && (fitness - line.fitness->0 > 1 || line.fitness->0 - fitness > 1)
}

/// The cost of a clash of neighbouring lines.
pub open spec fn adjacency(start: int, fitness: int, line: Line, penalty: Binary64) -> Binary64 {
    if clashes(start, fitness, line) {
        penalty
    } else {
        Binary64::zero()
    }
}

/// The cost of reaching `line` from the slot of `start` with class `fitness`.
pub open spec fn offer(
    costs: Seq<Binary64>,
    g: Grid,
    start: int,
    l: int,
    fitness: int,
    line: Line,
    penalty: Binary64,
) -> Binary64 {
    costs[g.slot(start, l, fitness)] + line.cost + adjacency(start, fitness, line, penalty)
}

/// Offers `line` from the first `count` classes of `start`.
pub open spec fn relaxed(
    s: Search,
    g: Grid,
    start: int,
    end: int,
    l: int,
    line: Line,
    penalty: Binary64,
    count: nat,
) -> Search
    decreases count,
{
    if count == 0 {
        s
    } else {
        let t = relaxed(s, g, start, end, l, line, penalty, (count - 1) as nat);
        let target = g.target(end, l, line);
        let cost = offer(t.costs, g, start, l, count - 1, line, penalty);
        if cost.lt(t.costs[target]) {
            Search {
                costs: t.costs.update(target, cost),
                previous: t.previous.update(target, g.slot(start, l, count - 1) as usize),
            }
        } else {
            t
        }
    }
}

/// True when one of `count` slots has been reached.
pub open spec fn reached(costs: Seq<Binary64>, from: int, count: int) -> bool {
    exists|i: int| from <= i < from + count && !(#[trigger] costs[i]).same(Binary64::infinity())
}

/// Fits and offers the lines from `start` to `end`, for the first `count`
/// measures; `line` gives the line for each measure.
pub open spec fn tried(
    s: Search,
    g: Grid,
    start: int,
    end: int,
    line: spec_fn(int, int, int) -> Line,
    penalty: Binary64,
    count: nat,
) -> Search
    decreases count,
{
    if count == 0 {
        s
    } else {
        let l = count - 1;
        let t = tried(s, g, start, end, line, penalty, l as nat);
        if reached(t.costs, g.slot(start, l, 0), g.fitnesses as int) {
            relaxed(t, g, start, end, l, line(start, end, l), penalty, g.fitnesses)
        } else {
            t
        }
    }
}

/// Tries every start from `start` down to the first break.
pub open spec fn scanned(
    s: Search,
    g: Grid,
    start: int,
    end: int,
    line: spec_fn(int, int, int) -> Line,
    penalty: Binary64,
) -> Search
    decreases start + 1,
{
    if start < 0 {
        s
    } else {
        scanned(
            tried(s, g, start, end, line, penalty, g.lines()),
            g,
            start - 1,
            end,
            line,
            penalty,
        )
    }
}

/// Scans the ends from 1 to `count`.
pub open spec fn swept(
    s: Search,
    g: Grid,
    count: nat,
    line: spec_fn(int, int, int) -> Line,
    penalty: Binary64,
) -> Search
    decreases count,
{
    if count == 0 {
        s
    } else {
        scanned(
            swept(s, g, (count - 1) as nat, line, penalty),
            g,
            count - 1,
            count as int,
            line,
            penalty,
        )
    }
}

/// What is known of the starts before a start.
#[derive(Debug, Clone, Copy)]
pub enum Verdict {
    /// They may have something better.
    Open,
    /// They have nothing that this pass accepts.
    Shut,
    /// Their lines are tight, and none costs less.
    Priced(Binary64),
}

/// With a verdict on a start, the earlier ones have nothing better for measure
/// `l` of `end`: nothing at all, or nothing cheaper than the tight line that is
/// known.
pub open spec fn shuts(v: Verdict, costs: Seq<Binary64>, g: Grid, end: int, l: int) -> bool {
    match v {
        Verdict::Open => false,
        Verdict::Shut => true,
        Verdict::Priced(price) => costs[g.slot(end, g.next(l), 0)].le(price),
    }
}

/// Every measure is looked at.
pub open spec fn all_live(g: Grid) -> Seq<bool> {
    Seq::new(g.lines(), |l: int| true)
}

/// The measures that are still looked at after a verdict.
pub open spec fn still_live(
    live: Seq<bool>,
    v: Verdict,
    costs: Seq<Binary64>,
    g: Grid,
    end: int,
) -> Seq<bool> {
    Seq::new(live.len(), |l: int| live[l] && !shuts(v, costs, g, end, l))
}

/// The lines that are fitted from `start`: one for each of the first `count`
/// measures that is looked at and that it is reached with.
pub open spec fn fits(
    costs: Seq<Binary64>,
    g: Grid,
    start: int,
    live: Seq<bool>,
    count: nat,
) -> nat
    decreases count,
{
    if count == 0 {
        0
    } else {
        let before = fits(costs, g, start, live, (count - 1) as nat);
        if live[count - 1] && reached(costs, g.slot(start, count - 1, 0), g.fitnesses as int) {
            before + 1
        } else {
            before
        }
    }
}

/// The lines that are fitted to `end`, from `start` down. A measure is looked
/// at until the verdict on a start that is reached shuts it.
pub open spec fn tally(
    s: Search,
    g: Grid,
    start: int,
    end: int,
    live: Seq<bool>,
    line: spec_fn(int, int, int) -> Line,
    verdict: spec_fn(int, int) -> Verdict,
    penalty: Binary64,
) -> nat
    decreases start + 1,
{
    if start < 0 {
        0
    } else {
        let t = tried(s, g, start, end, line, penalty, g.lines());
        let rest = if reached(s.costs, g.slot(start, 0, 0), g.states() as int) {
            still_live(live, verdict(start, end), t.costs, g, end)
        } else {
            live
        };
        fits(s.costs, g, start, live, g.lines()) + tally(
            t,
            g,
            start - 1,
            end,
            rest,
            line,
            verdict,
            penalty,
        )
    }
}

/// The lines that are fitted to the ends from 1 to `count`.
pub open spec fn tallied(
    s: Search,
    g: Grid,
    count: nat,
    line: spec_fn(int, int, int) -> Line,
    verdict: spec_fn(int, int) -> Verdict,
    penalty: Binary64,
) -> nat
    decreases count,
{
    if count == 0 {
        0
    } else {
        let k = (count - 1) as nat;
        tallied(s, g, k, line, verdict, penalty) + tally(
            swept(s, g, k, line, penalty),
            g,
            count - 1,
            count as int,
            all_live(g),
            line,
            verdict,
            penalty,
        )
    }
}

/// No start before `start` improves what is known of `end` with measure `l`.
pub open spec fn useless(
    costs: Seq<Binary64>,
    g: Grid,
    start: int,
    end: int,
    l: int,
    line: spec_fn(int, int, int) -> Line,
    penalty: Binary64,
) -> bool {
    forall|c: int, class: int|
        0 <= c < start && 0 <= class < g.fitnesses ==> !(#[trigger] offer(
            costs,
            g,
            c,
            l,
            class,
            line(c, end, l),
            penalty,
        )).lt(costs[g.target(end, l, line(c, end, l))])
}

/// A measure that is not looked at has nothing better before `start`.
pub open spec fn dead_useless(
    costs: Seq<Binary64>,
    g: Grid,
    start: int,
    end: int,
    live: Seq<bool>,
    line: spec_fn(int, int, int) -> Line,
    penalty: Binary64,
) -> bool {
    forall|l: int|
        0 <= l < g.lines() && !live[l] ==> #[trigger] useless(costs, g, start, end, l, line, penalty)
}

/// No line and no clash costs less than nothing.
pub open spec fn unsigned_lines(
    line: spec_fn(int, int, int) -> Line,
    g: Grid,
    last: nat,
    penalty: Binary64,
) -> bool {
    &&& not_negative(penalty)
    &&& forall|a: int, b: int, l: int|
        0 <= a < b <= last && 0 <= l < g.lines() ==> not_negative((#[trigger] line(a, b, l)).cost)
}

/// No slot costs less than nothing.
pub open spec fn unsigned_costs(costs: Seq<Binary64>) -> bool {
    forall|i: int| 0 <= i < costs.len() ==> not_negative(#[trigger] costs[i])
}

/// A search that goes by these verdicts loses nothing.
pub open spec fn safe(
    verdict: spec_fn(int, int) -> Verdict,
    line: spec_fn(int, int, int) -> Line,
    g: Grid,
    last: nat,
    penalty: Binary64,
) -> bool {
    forall|a: int, b: int|
        0 <= a < b <= last && !(#[trigger] verdict(a, b) is Open) ==> {
            &&& unsigned_lines(line, g, last, penalty)
            &&& forall|costs: Seq<Binary64>, l: int|
                costs.len() == (last + 1) * g.states() && unsigned_costs(costs) && 0 <= l
                    < g.lines() && #[trigger] shuts(verdict(a, b), costs, g, b, l) ==> useless(
                    costs,
                    g,
                    a,
                    b,
                    l,
                    line,
                    penalty,
                )
        }
}

/// Nothing is known of any start.
pub open spec fn unknown() -> spec_fn(bool) -> spec_fn(int, int) -> Verdict {
    |emergency: bool| |start: int, end: int| Verdict::Open
}

/// A search at its beginning: only the origin is reached, for nothing.
pub open spec fn begun(s: Search, g: Grid) -> Search {
    Search {
        costs: Seq::new(
            s.costs.len(),
            |i: int|
                if i == g.origin() {
                    Binary64::zero()
                } else {
                    Binary64::infinity()
                },
        ),
        ..s
    }
}

/// A whole pass over the breaks up to `last`.
pub open spec fn passed(
    s: Search,
    g: Grid,
    last: nat,
    line: spec_fn(int, int, int) -> Line,
    penalty: Binary64,
) -> Search {
    swept(begun(s, g), g, last, line, penalty)
}

/// An empty search over the breaks up to `last`.
pub open spec fn blank(g: Grid, last: nat) -> Search {
    let total = (last + 1) * g.states();
    Search {
        costs: Seq::new(total, |i: int| Binary64::infinity()),
        previous: Seq::new(total, |i: int| 0),
    }
}

/// True when a pass has reached the last break.
pub open spec fn viable(s: Search, g: Grid, last: nat) -> bool {
    reached(s.costs, g.slot(last as int, 0, 0), g.states() as int)
}

/// The first of the cheapest slots from `from` to before `to`.
pub open spec fn cheapest_before(costs: Seq<Binary64>, from: int, to: int) -> int
    decreases to - from,
{
    if to <= from + 1 {
        from
    } else {
        let best = cheapest_before(costs, from, to - 1);
        if costs[to - 1].lt(costs[best]) {
            to - 1
        } else {
            best
        }
    }
}

/// The slot at which the cheapest sequence of breaks ends.
pub open spec fn terminal(s: Search, g: Grid, last: nat) -> int {
    cheapest_before(s.costs, g.slot(last as int, 0, 0), s.costs.len() as int)
}

/// The line that leads to a slot; the cost of a clash is its own.
pub open spec fn line_to(
    s: Search,
    g: Grid,
    slot: int,
    line: spec_fn(int, int, int) -> Line,
    penalty: Binary64,
) -> Line {
    let source = s.previous[slot] as int;
    let start = g.node_of(source);
    let fit = line(start, g.node_of(slot), g.line_of(source));
    Line {
        cost: if clashes(start, g.fitness_of(source), fit) {
            fit.cost + penalty
        } else {
            fit.cost
        },
        ..fit
    }
}

/// The lines that lead to a slot, from the first one on.
pub open spec fn lines_to(
    s: Search,
    g: Grid,
    slot: int,
    line: spec_fn(int, int, int) -> Line,
    penalty: Binary64,
) -> Seq<Line>
    decreases slot,
{
    if slot < g.states() || s.previous[slot] >= slot {
        seq![]
    } else {
        lines_to(s, g, s.previous[slot] as int, line, penalty).push(
            line_to(s, g, slot, line, penalty),
        )
    }
}

/// The coordinates of a slot.
pub proof fn lemma_slot(g: Grid, node: int, l: int, fitness: int)
    requires
        g.valid(),
        0 <= node,
        0 <= l < g.lines(),
        0 <= fitness < g.fitnesses,
    ensures
        node * g.states() <= g.slot(node, l, fitness) < node * g.states() + g.states(),
        0 <= g.slot(node, l, fitness),
        g.node_of(g.slot(node, l, fitness)) == node,
        g.line_of(g.slot(node, l, fitness)) == l,
        g.fitness_of(g.slot(node, l, fitness)) == fitness,
        g.states() >= 1,
{
    let f = g.fitnesses as int;
    let n = g.lines() as int;
    let states = g.states() as int;
    let r = l * f + fitness;
    assert(0 <= r < states) by (nonlinear_arith)
        requires
            r == l * f + fitness,
            0 <= l <= n - 1,
            0 <= fitness < f,
            states == f * n,
    ;
    assert(0 <= node * states) by (nonlinear_arith)
        requires
            0 <= node,
            0 <= states,
    ;
    let slot = g.slot(node, l, fitness);
    assert(slot == node * states + r);
    lemma_fundamental_div_mod_converse(slot, states, node, r);
    lemma_fundamental_div_mod_converse(r, f, l, fitness);
    let q = node * n + l;
    assert(slot == q * f + fitness) by (nonlinear_arith)
        requires
            slot == node * states + l * f + fitness,
            states == f * n,
            q == node * n + l,
    ;
    lemma_fundamental_div_mod_converse(slot, f, q, fitness);
}

/// A slot is the one of its coordinates.
pub proof fn lemma_slot_of(g: Grid, slot: int)
    requires
        g.valid(),
        0 <= slot,
    ensures
        g.slot(g.node_of(slot), g.line_of(slot), g.fitness_of(slot)) == slot,
        0 <= g.node_of(slot),
        0 <= g.line_of(slot) < g.lines(),
        0 <= g.fitness_of(slot) < g.fitnesses,
        g.node_of(slot) * g.states() <= slot < g.node_of(slot) * g.states() + g.states(),
{
    let f = g.fitnesses as int;
    let n = g.lines() as int;
    let states = g.states() as int;
    assert(states > 0) by (nonlinear_arith)
        requires
            states == f * n,
            f > 0,
            n > 0,
    ;
    let node = slot / states;
    let r = slot % states;
    lemma_fundamental_div_mod(slot, states);
    let l = r / f;
    let fit = r % f;
    lemma_fundamental_div_mod(r, f);
    assert(0 <= node) by (nonlinear_arith)
        requires
            slot == states * node + r,
            0 <= slot,
            r < states,
            states > 0,
    ;
    assert(0 <= l < n) by (nonlinear_arith)
        requires
            r == f * l + fit,
            0 <= r < f * n,
            0 <= fit < f,
    ;
    assert(node * states == states * node) by (nonlinear_arith);
    assert(l * f == f * l) by (nonlinear_arith);
    lemma_slot(g, node, l, fit);
}

/// The break of a slot orders slots.
pub proof fn lemma_node_order(g: Grid, a: int, b: int)
    requires
        g.valid(),
        0 <= a,
        0 <= b,
        g.node_of(a) < g.node_of(b),
    ensures
        a < b,
{
    lemma_slot_of(g, a);
    lemma_slot_of(g, b);
    let states = g.states() as int;
    let (x, y) = (g.node_of(a), g.node_of(b));
    assert(x * states + states <= y * states) by (nonlinear_arith)
        requires
            x + 1 <= y,
            states >= 0,
    ;
}

/// A line has one of the four fitness classes.
pub open spec fn classed(line: Line) -> bool {
    line.fitness matches Some(f) && 0 <= f <= 3
}

/// Every line up to the break `last` has a class.
pub open spec fn all_classed(line: spec_fn(int, int, int) -> Line, g: Grid, last: nat) -> bool {
    forall|a: int, b: int, l: int|
        0 <= a < b <= last && 0 <= l < g.lines() ==> classed(#[trigger] line(a, b, l))
}

/// The tables of a search over the breaks up to `last`: no cost is missing,
/// and every slot was reached from an earlier break.
pub open spec fn proper(s: Search, g: Grid, last: nat) -> bool {
    &&& g.valid()
    &&& s.costs.len() == (last + 1) * g.states()
    &&& s.previous.len() == s.costs.len()
    &&& s.costs.len() <= usize::MAX
    &&& forall|i: int| 0 <= i < s.costs.len() ==> !(#[trigger] s.costs[i]).is_nan()
    &&& forall|i: int|
        g.states() <= i < s.previous.len() ==> g.node_of(#[trigger] s.previous[i] as int)
            < g.node_of(i)
}

/// `t` comes from `s` by improving slots of the break `end`.
pub open spec fn improves(s: Search, t: Search, g: Grid, end: int) -> bool {
    &&& t.costs.len() == s.costs.len()
    &&& t.previous.len() == s.previous.len()
    &&& forall|i: int|
        0 <= i < s.costs.len() && g.node_of(i) != end ==> #[trigger] t.costs[i] == s.costs[i]
    &&& forall|i: int|
        0 <= i < s.costs.len() && g.node_of(i) != end ==> #[trigger] t.previous[i] == s.previous[i]
    &&& forall|i: int|
        0 <= i < s.costs.len() ==> t.costs[i] == s.costs[i] || (#[trigger] t.costs[i]).lt(
            s.costs[i],
        )
    &&& forall|i: int|
        0 <= i < s.costs.len() && t.costs[i] == s.costs[i] ==> #[trigger] t.previous[i]
            == s.previous[i]
}

/// The slots of a break lie in the tables.
pub proof fn lemma_in_tables(s: Search, g: Grid, last: nat, node: int, l: int, fitness: int)
    requires
        proper(s, g, last),
        0 <= node <= last,
        0 <= l < g.lines(),
        0 <= fitness < g.fitnesses,
    ensures
        0 <= g.slot(node, l, fitness) < s.costs.len(),
        node * g.states() + g.states() <= s.costs.len(),
{
    lemma_slot(g, node, l, fitness);
    let states = g.states() as int;
    assert(node * states + states <= (last + 1) * states) by (nonlinear_arith)
        requires
            node <= last,
            states >= 0,
    ;
}

/// One line offered keeps the tables proper.
pub proof fn lemma_relaxed(
    s: Search,
    g: Grid,
    last: nat,
    start: int,
    end: int,
    l: int,
    line: Line,
    penalty: Binary64,
    count: nat,
)
    requires
        proper(s, g, last),
        0 <= start < end <= last,
        0 <= l < g.lines(),
        count <= g.fitnesses,
        classed(line),
    ensures
        proper(relaxed(s, g, start, end, l, line, penalty, count), g, last),
        improves(s, relaxed(s, g, start, end, l, line, penalty, count), g, end),
        0 <= g.target(end, l, line) < s.costs.len(),
        g.node_of(g.target(end, l, line)) == end,
    decreases count,
{
    let target = g.target(end, l, line);
    let fit = if g.fitnesses == 4 {
        line.fitness->0 as int
    } else {
        0
    };
    lemma_in_tables(s, g, last, end, g.next(l), fit);
    lemma_slot(g, end, g.next(l), fit);
    if count > 0 {
        lemma_relaxed(s, g, last, start, end, l, line, penalty, (count - 1) as nat);
        let t = relaxed(s, g, start, end, l, line, penalty, (count - 1) as nat);
        let source = g.slot(start, l, count - 1);
        lemma_in_tables(s, g, last, start, l, count - 1);
        lemma_slot(g, start, l, count - 1);
        assert((source as usize) as int == source);
    }
}

/// Trying the lines from one start keeps the tables proper.
pub proof fn lemma_tried(
    s: Search,
    g: Grid,
    last: nat,
    start: int,
    end: int,
    line: spec_fn(int, int, int) -> Line,
    penalty: Binary64,
    count: nat,
)
    requires
        proper(s, g, last),
        0 <= start < end <= last,
        all_classed(line, g, last),
        count <= g.lines(),
    ensures
        proper(tried(s, g, start, end, line, penalty, count), g, last),
        improves(s, tried(s, g, start, end, line, penalty, count), g, end),
    decreases count,
{
    if count > 0 {
        let l = count - 1;
        lemma_tried(s, g, last, start, end, line, penalty, l as nat);
        let t = tried(s, g, start, end, line, penalty, l as nat);
        assert(classed(line(start, end, l)));
        lemma_relaxed(t, g, last, start, end, l, line(start, end, l), penalty, g.fitnesses);
    }
}

/// Scanning the starts of one end keeps the tables proper.
pub proof fn lemma_scanned(
    s: Search,
    g: Grid,
    last: nat,
    start: int,
    end: int,
    line: spec_fn(int, int, int) -> Line,
    penalty: Binary64,
)
    requires
        proper(s, g, last),
        -1 <= start < end <= last,
        all_classed(line, g, last),
    ensures
        proper(scanned(s, g, start, end, line, penalty), g, last),
        improves(s, scanned(s, g, start, end, line, penalty), g, end),
    decreases start + 1,
{
    if start >= 0 {
        lemma_tried(s, g, last, start, end, line, penalty, g.lines());
        let t = tried(s, g, start, end, line, penalty, g.lines());
        lemma_scanned(t, g, last, start - 1, end, line, penalty);
    }
}

/// A sweep keeps the tables proper.
pub proof fn lemma_swept(
    s: Search,
    g: Grid,
    last: nat,
    count: nat,
    line: spec_fn(int, int, int) -> Line,
    penalty: Binary64,
)
    requires
        proper(s, g, last),
        count <= last,
        all_classed(line, g, last),
    ensures
        proper(swept(s, g, count, line, penalty), g, last),
    decreases count,
{
    if count > 0 {
        let k = (count - 1) as nat;
        lemma_swept(s, g, last, k, line, penalty);
        let t = swept(s, g, k, line, penalty);
        lemma_scanned(t, g, last, count - 1, count as int, line, penalty);
    }
}

/// A search at its beginning is proper.
pub proof fn lemma_begun(s: Search, g: Grid, last: nat)
    requires
        g.valid(),
        s.costs.len() == (last + 1) * g.states(),
        s.previous.len() == s.costs.len(),
        s.costs.len() <= usize::MAX,
        forall|i: int|
            g.states() <= i < s.previous.len() ==> g.node_of(#[trigger] s.previous[i] as int)
                < g.node_of(i),
    ensures
        proper(begun(s, g), g, last),
{
}

/// A break that is not reached has nothing to offer.
pub proof fn lemma_unreached(
    s: Search,
    g: Grid,
    start: int,
    end: int,
    line: spec_fn(int, int, int) -> Line,
    penalty: Binary64,
    count: nat,
)
    requires
        g.valid(),
        0 <= start,
        count <= g.lines(),
        !reached(s.costs, g.slot(start, 0, 0), g.states() as int),
    ensures
        tried(s, g, start, end, line, penalty, count) == s,
    decreases count,
{
    if count > 0 {
        let l = count - 1;
        lemma_unreached(s, g, start, end, line, penalty, l as nat);
        lemma_slot(g, start, l, 0);
        lemma_slot(g, start, l, g.fitnesses - 1);
        lemma_slot(g, start, 0, 0);
        if reached(s.costs, g.slot(start, l, 0), g.fitnesses as int) {
            let i = choose|i: int|
                g.slot(start, l, 0) <= i < g.slot(start, l, 0) + g.fitnesses && !(
                #[trigger] s.costs[i]).same(Binary64::infinity());
            assert(!s.costs[i].same(Binary64::infinity()));
        }
    }
}

/// Starts that are not reached can be left out.
pub proof fn lemma_skip(
    s: Search,
    g: Grid,
    low: int,
    start: int,
    end: int,
    line: spec_fn(int, int, int) -> Line,
    penalty: Binary64,
)
    requires
        g.valid(),
        -1 <= low <= start,
        forall|k: int|
            low < k <= start ==> !#[trigger] reached(s.costs, g.slot(k, 0, 0), g.states() as int),
    ensures
        scanned(s, g, start, end, line, penalty) == scanned(
            s,
            g,
            low,
            end,
            line,
            penalty,
        ),
    decreases start - low,
{
    if low < start {
        assert(!reached(s.costs, g.slot(start, 0, 0), g.states() as int));
        lemma_unreached(s, g, start, end, line, penalty, g.lines());
        lemma_skip(s, g, low, start - 1, end, line, penalty);
    }
}

/// Whether a break is reached does not change while another one is scanned.
pub proof fn lemma_reached_kept(s: Search, t: Search, g: Grid, last: nat, node: int, end: int)
    requires
        proper(s, g, last),
        improves(s, t, g, end),
        0 <= node <= last,
        node != end,
    ensures
        reached(t.costs, g.slot(node, 0, 0), g.states() as int) == reached(
            s.costs,
            g.slot(node, 0, 0),
            g.states() as int,
        ),
{
    lemma_in_tables(s, g, last, node, 0, 0);
    lemma_slot(g, node, 0, 0);
    let from = g.slot(node, 0, 0);
    let states = g.states() as int;
    assert forall|i: int| from <= i < from + states implies #[trigger] t.costs[i] == s.costs[i] by {
        lemma_slot_of(g, i);
        let q = g.node_of(i);
        assert(q == node) by (nonlinear_arith)
            requires
                node * states <= i < node * states + states,
                q * states <= i < q * states + states,
        ;
    }
    if reached(s.costs, from, states) {
        let i = choose|i: int|
            from <= i < from + states && !(#[trigger] s.costs[i]).same(Binary64::infinity());
        assert(!t.costs[i].same(Binary64::infinity()));
    }
    if reached(t.costs, from, states) {
        let i = choose|i: int|
            from <= i < from + states && !(#[trigger] t.costs[i]).same(Binary64::infinity());
        assert(!s.costs[i].same(Binary64::infinity()));
    }
}

/// Whether a measure reaches a break does not change while a later one is
/// scanned.
pub proof fn lemma_reached_part(
    s: Search,
    t: Search,
    g: Grid,
    last: nat,
    node: int,
    l: int,
    end: int,
)
    requires
        proper(s, g, last),
        improves(s, t, g, end),
        0 <= node <= last,
        node != end,
        0 <= l < g.lines(),
    ensures
        reached(t.costs, g.slot(node, l, 0), g.fitnesses as int) == reached(
            s.costs,
            g.slot(node, l, 0),
            g.fitnesses as int,
        ),
{
    let from = g.slot(node, l, 0);
    let f = g.fitnesses as int;
    assert forall|i: int| from <= i < from + f implies #[trigger] t.costs[i] == s.costs[i] by {
        lemma_in_tables(s, g, last, node, l, i - from);
        lemma_slot(g, node, l, i - from);
    }
    if reached(s.costs, from, f) {
        let i = choose|i: int|
            from <= i < from + f && !(#[trigger] s.costs[i]).same(Binary64::infinity());
        assert(!t.costs[i].same(Binary64::infinity()));
    }
    if reached(t.costs, from, f) {
        let i = choose|i: int|
            from <= i < from + f && !(#[trigger] t.costs[i]).same(Binary64::infinity());
        assert(!s.costs[i].same(Binary64::infinity()));
    }
}

/// At most one line is fitted for each measure.
pub proof fn lemma_fits(
    costs: Seq<Binary64>,
    g: Grid,
    start: int,
    live: Seq<bool>,
    count: nat,
)
    ensures
        fits(costs, g, start, live, count) <= count,
    decreases count,
{
    if count > 0 {
        lemma_fits(costs, g, start, live, (count - 1) as nat);
    }
}

/// From a break that is not reached no line is fitted.
pub proof fn lemma_no_fits(
    costs: Seq<Binary64>,
    g: Grid,
    start: int,
    live: Seq<bool>,
    count: nat,
)
    requires
        g.valid(),
        0 <= start,
        count <= g.lines(),
        !reached(costs, g.slot(start, 0, 0), g.states() as int),
    ensures
        fits(costs, g, start, live, count) == 0,
    decreases count,
{
    if count > 0 {
        let l = count - 1;
        lemma_no_fits(costs, g, start, live, l as nat);
        lemma_slot(g, start, l, 0);
        lemma_slot(g, start, l, g.fitnesses - 1);
        lemma_slot(g, start, 0, 0);
        if reached(costs, g.slot(start, l, 0), g.fitnesses as int) {
            let i = choose|i: int|
                g.slot(start, l, 0) <= i < g.slot(start, l, 0) + g.fitnesses && !(
                #[trigger] costs[i]).same(Binary64::infinity());
            assert(!costs[i].same(Binary64::infinity()));
        }
    }
}

/// For measures that are not looked at no line is fitted.
proof fn lemma_dead_fits(
    costs: Seq<Binary64>,
    g: Grid,
    start: int,
    live: Seq<bool>,
    count: nat,
)
    requires
        count <= live.len(),
        forall|l: int| 0 <= l < live.len() ==> !#[trigger] live[l],
    ensures
        fits(costs, g, start, live, count) == 0,
    decreases count,
{
    if count > 0 {
        lemma_dead_fits(costs, g, start, live, (count - 1) as nat);
        assert(!live[count - 1]);
    }
}

/// Where no measure is looked at no line is fitted.
pub proof fn lemma_dead_tally(
    s: Search,
    g: Grid,
    start: int,
    end: int,
    live: Seq<bool>,
    line: spec_fn(int, int, int) -> Line,
    verdict: spec_fn(int, int) -> Verdict,
    penalty: Binary64,
)
    requires
        live.len() == g.lines(),
        forall|l: int| 0 <= l < live.len() ==> !#[trigger] live[l],
    ensures
        tally(s, g, start, end, live, line, verdict, penalty) == 0,
    decreases start + 1,
{
    if start >= 0 {
        let t = tried(s, g, start, end, line, penalty, g.lines());
        let rest = if reached(s.costs, g.slot(start, 0, 0), g.states() as int) {
            still_live(live, verdict(start, end), t.costs, g, end)
        } else {
            live
        };
        assert forall|l: int| 0 <= l < rest.len() implies !#[trigger] rest[l] by {
            assert(!live[l]);
        }
        lemma_dead_fits(s.costs, g, start, live, g.lines());
        lemma_dead_tally(t, g, start - 1, end, rest, line, verdict, penalty);
    }
}

/// Starts that are not reached add no lines.
pub proof fn lemma_skip_tally(
    s: Search,
    g: Grid,
    low: int,
    start: int,
    end: int,
    live: Seq<bool>,
    line: spec_fn(int, int, int) -> Line,
    verdict: spec_fn(int, int) -> Verdict,
    penalty: Binary64,
)
    requires
        g.valid(),
        -1 <= low <= start,
        forall|k: int|
            low < k <= start ==> !#[trigger] reached(s.costs, g.slot(k, 0, 0), g.states() as int),
    ensures
        tally(s, g, start, end, live, line, verdict, penalty) == tally(
            s,
            g,
            low,
            end,
            live,
            line,
            verdict,
            penalty,
        ),
    decreases start - low,
{
    if low < start {
        assert(!reached(s.costs, g.slot(start, 0, 0), g.states() as int));
        lemma_unreached(s, g, start, end, line, penalty, g.lines());
        lemma_no_fits(s.costs, g, start, live, g.lines());
        lemma_skip_tally(s, g, low, start - 1, end, live, line, verdict, penalty);
    }
}

/// At most one line is fitted for each start and measure.
pub proof fn lemma_tally(
    s: Search,
    g: Grid,
    start: int,
    end: int,
    live: Seq<bool>,
    line: spec_fn(int, int, int) -> Line,
    verdict: spec_fn(int, int) -> Verdict,
    penalty: Binary64,
)
    requires
        -1 <= start,
    ensures
        tally(s, g, start, end, live, line, verdict, penalty) <= (start + 1) * g.lines(),
    decreases start + 1,
{
    let n = g.lines() as int;
    assert((start + 1) * n == start * n + n) by (nonlinear_arith);
    assert(start >= 0 ==> 0 <= start * n) by (nonlinear_arith)
        requires
            0 <= n,
    ;
    if start >= 0 {
        let t = tried(s, g, start, end, line, penalty, g.lines());
        let rest = if reached(s.costs, g.slot(start, 0, 0), g.states() as int) {
            still_live(live, verdict(start, end), t.costs, g, end)
        } else {
            live
        };
        lemma_fits(s.costs, g, start, live, g.lines());
        lemma_tally(t, g, start - 1, end, rest, line, verdict, penalty);
    } else {
        assert((start + 1) * n == 0) by (nonlinear_arith)
            requires
                start == -1,
        ;
    }
}

/// At most one line is fitted for each end, start and measure.
pub proof fn lemma_tallied(
    s: Search,
    g: Grid,
    count: nat,
    line: spec_fn(int, int, int) -> Line,
    verdict: spec_fn(int, int) -> Verdict,
    penalty: Binary64,
)
    ensures
        2 * tallied(s, g, count, line, verdict, penalty) <= count * (count + 1) * g.lines(),
    decreases count,
{
    if count > 0 {
        let k = (count - 1) as nat;
        lemma_tallied(s, g, k, line, verdict, penalty);
        lemma_tally(
            swept(s, g, k, line, penalty),
            g,
            count - 1,
            count as int,
            all_live(g),
            line,
            verdict,
            penalty,
        );
        let n = g.lines() as int;
        assert(k * (k + 1) * n + 2 * (count * n) == count * (count + 1) * n) by (nonlinear_arith)
            requires
                count == k + 1,
        ;
    } else {
        assert(count * (count + 1) * g.lines() == 0) by (nonlinear_arith)
            requires
                count == 0,
        ;
    }
}

/// A line that is offered for nothing less keeps the tables.
pub proof fn lemma_useless_relaxed(
    s: Search,
    g: Grid,
    start: int,
    c: int,
    end: int,
    l: int,
    line: spec_fn(int, int, int) -> Line,
    penalty: Binary64,
    count: nat,
)
    requires
        useless(s.costs, g, start, end, l, line, penalty),
        0 <= c < start,
        count <= g.fitnesses,
    ensures
        relaxed(s, g, c, end, l, line(c, end, l), penalty, count) == s,
    decreases count,
{
    if count > 0 {
        lemma_useless_relaxed(s, g, start, c, end, l, line, penalty, (count - 1) as nat);
        let cost = offer(s.costs, g, c, l, count - 1, line(c, end, l), penalty);
        assert(!cost.lt(s.costs[g.target(end, l, line(c, end, l))]));
    }
}

/// A start that has nothing better keeps the tables.
proof fn lemma_useless_tried(
    s: Search,
    g: Grid,
    start: int,
    c: int,
    end: int,
    line: spec_fn(int, int, int) -> Line,
    penalty: Binary64,
    count: nat,
)
    requires
        forall|l: int|
            0 <= l < g.lines() ==> #[trigger] useless(s.costs, g, start, end, l, line, penalty),
        0 <= c < start,
        count <= g.lines(),
    ensures
        tried(s, g, c, end, line, penalty, count) == s,
    decreases count,
{
    if count > 0 {
        lemma_useless_tried(s, g, start, c, end, line, penalty, (count - 1) as nat);
        assert(useless(s.costs, g, start, end, count - 1, line, penalty));
        lemma_useless_relaxed(s, g, start, c, end, count - 1, line, penalty, g.fitnesses);
    }
}

/// Starts that have nothing better can be left out.
pub proof fn lemma_useless(
    s: Search,
    g: Grid,
    start: int,
    c: int,
    end: int,
    line: spec_fn(int, int, int) -> Line,
    penalty: Binary64,
)
    requires
        forall|l: int|
            0 <= l < g.lines() ==> #[trigger] useless(s.costs, g, start, end, l, line, penalty),
        -1 <= c < start,
    ensures
        scanned(s, g, c, end, line, penalty) == s,
    decreases c + 1,
{
    if c >= 0 {
        lemma_useless_tried(s, g, start, c, end, line, penalty, g.lines());
        lemma_useless(s, g, start, c - 1, end, line, penalty);
    }
}

/// What has nothing better has nothing better still once more is known.
pub proof fn lemma_useless_kept(
    s: Search,
    t: Search,
    g: Grid,
    last: nat,
    start: int,
    end: int,
    l: int,
    line: spec_fn(int, int, int) -> Line,
    penalty: Binary64,
)
    requires
        proper(s, g, last),
        improves(s, t, g, end),
        start <= end <= last,
        0 <= l < g.lines(),
        all_classed(line, g, last),
        useless(s.costs, g, start, end, l, line, penalty),
    ensures
        useless(t.costs, g, start, end, l, line, penalty),
{
    assert forall|c: int, class: int| 0 <= c < start && 0 <= class < g.fitnesses implies !(
    #[trigger] offer(t.costs, g, c, l, class, line(c, end, l), penalty)).lt(
        t.costs[g.target(end, l, line(c, end, l))],
    ) by {
        let fit = line(c, end, l);
        let target = g.target(end, l, fit);
        lemma_in_tables(s, g, last, c, l, class);
        lemma_slot(g, c, l, class);
        assert(classed(fit));
        lemma_relaxed(s, g, last, c, end, l, fit, penalty, 0);
        assert(!offer(s.costs, g, c, l, class, fit, penalty).lt(s.costs[target]));
        assert(t.costs[target] == s.costs[target] || t.costs[target].lt(s.costs[target]));
    }
}

/// Fewer starts have nothing better either.
pub proof fn lemma_useless_before(
    costs: Seq<Binary64>,
    g: Grid,
    start: int,
    earlier: int,
    end: int,
    l: int,
    line: spec_fn(int, int, int) -> Line,
    penalty: Binary64,
)
    requires
        useless(costs, g, start, end, l, line, penalty),
        earlier <= start,
    ensures
        useless(costs, g, earlier, end, l, line, penalty),
{
}

/// Offers for nothing less than nothing keep the costs so.
pub proof fn lemma_unsigned_relaxed(
    s: Search,
    g: Grid,
    last: nat,
    start: int,
    end: int,
    l: int,
    line: Line,
    penalty: Binary64,
    count: nat,
)
    requires
        proper(s, g, last),
        0 <= start < end <= last,
        0 <= l < g.lines(),
        count <= g.fitnesses,
        classed(line),
        unsigned_costs(s.costs),
        not_negative(line.cost),
        not_negative(penalty),
    ensures
        unsigned_costs(relaxed(s, g, start, end, l, line, penalty, count).costs),
    decreases count,
{
    if count > 0 {
        let k = (count - 1) as nat;
        lemma_unsigned_relaxed(s, g, last, start, end, l, line, penalty, k);
        lemma_relaxed(s, g, last, start, end, l, line, penalty, k);
        let t = relaxed(s, g, start, end, l, line, penalty, k);
        lemma_in_tables(t, g, last, start, l, count - 1);
        let source = t.costs[g.slot(start, l, count - 1)];
        let fine = adjacency(start, count - 1, line, penalty);
        lemma_add_sign(source, line.cost);
        lemma_add_sign(source + line.cost, fine);
    }
}

/// Trying lines for nothing less than nothing keeps the costs so.
pub proof fn lemma_unsigned_tried(
    s: Search,
    g: Grid,
    last: nat,
    start: int,
    end: int,
    line: spec_fn(int, int, int) -> Line,
    penalty: Binary64,
    count: nat,
)
    requires
        proper(s, g, last),
        0 <= start < end <= last,
        all_classed(line, g, last),
        count <= g.lines(),
        unsigned_costs(s.costs),
        unsigned_lines(line, g, last, penalty),
    ensures
        unsigned_costs(tried(s, g, start, end, line, penalty, count).costs),
    decreases count,
{
    if count > 0 {
        let l = count - 1;
        lemma_unsigned_tried(s, g, last, start, end, line, penalty, l as nat);
        lemma_tried(s, g, last, start, end, line, penalty, l as nat);
        let t = tried(s, g, start, end, line, penalty, l as nat);
        let fit = line(start, end, l);
        assert(classed(fit));
        lemma_unsigned_relaxed(t, g, last, start, end, l, fit, penalty, g.fitnesses);
    }
}

/// Scanning lines for nothing less than nothing keeps the costs so.
pub proof fn lemma_unsigned_scanned(
    s: Search,
    g: Grid,
    last: nat,
    start: int,
    end: int,
    line: spec_fn(int, int, int) -> Line,
    penalty: Binary64,
)
    requires
        proper(s, g, last),
        -1 <= start < end <= last,
        all_classed(line, g, last),
        unsigned_costs(s.costs),
        unsigned_lines(line, g, last, penalty),
    ensures
        unsigned_costs(scanned(s, g, start, end, line, penalty).costs),
    decreases start + 1,
{
    if start >= 0 {
        lemma_tried(s, g, last, start, end, line, penalty, g.lines());
        lemma_unsigned_tried(s, g, last, start, end, line, penalty, g.lines());
        let t = tried(s, g, start, end, line, penalty, g.lines());
        lemma_unsigned_scanned(t, g, last, start - 1, end, line, penalty);
    }
}

}
