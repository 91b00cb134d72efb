//! What a search finds: a sequence of breaks that accounts for its cost, and
//! none that costs less.

use crate::binary64::{law_add_monotone, Binary64};
use crate::model::Line;
use crate::search::{
    adjacency, all_classed, begun, blank, cheapest_before, clashes, improves, lemma_begun,
    lemma_in_tables, lemma_node_order, lemma_relaxed, lemma_scanned, lemma_slot, lemma_slot_of,
    lemma_swept, lemma_tried, line_to, lines_to, offer, passed, proper, reached, relaxed, scanned,
    swept, terminal, tried, viable, Grid, Search,
};
use crate::solver::{cheapest_lines, least_cost, lemma_blank, outcome};
use vstd::prelude::*;

verus! {

/// A sequence of breaks from the first to `last`.
pub open spec fn is_path(breaks: Seq<int>, last: int) -> bool {
    &&& breaks.len() >= 1
    &&& breaks[0] == 0
    &&& breaks.last() == last
    &&& forall|i: int, j: int|
        0 <= i < j < breaks.len() ==> (#[trigger] breaks[i]) < #[trigger] breaks[j]
}

/// The measure of line `i`: one after the other, the last one repeating.
pub open spec fn measure_at(g: Grid, i: int) -> int {
    if i < g.lines() {
        i
    } else {
        g.lines() - 1
    }
}

/// Line `i` of a sequence of breaks.
pub open spec fn leg(
    g: Grid,
    line: spec_fn(int, int, int) -> Line,
    breaks: Seq<int>,
    i: int,
) -> Line {
    line(breaks[i], breaks[i + 1], measure_at(g, i))
}

/// The fitness class that line `i` follows.
pub open spec fn class_at(
    g: Grid,
    line: spec_fn(int, int, int) -> Line,
    breaks: Seq<int>,
    i: int,
) -> int {
    if i == 0 {
        g.origin()
    } else if g.fitnesses == 4 {
        leg(g, line, breaks, i - 1).fitness->0 as int
    } else {
        0
    }
}

/// Line `i` of a sequence of breaks, charged with its clash with the one before.
pub open spec fn charged(
    g: Grid,
    line: spec_fn(int, int, int) -> Line,
    penalty: Binary64,
    breaks: Seq<int>,
    i: int,
) -> Line {
    let fit = leg(g, line, breaks, i);
    Line {
        cost: if clashes(breaks[i], class_at(g, line, breaks, i), fit) {
            fit.cost + penalty
        } else {
            fit.cost
        },
        ..fit
    }
}

/// The cost of the first `count` lines of a sequence of breaks.
pub open spec fn total(
    g: Grid,
    line: spec_fn(int, int, int) -> Line,
    penalty: Binary64,
    breaks: Seq<int>,
    count: nat,
) -> Binary64
    decreases count,
{
    if count == 0 {
        Binary64::zero()
    } else {
        let i = count - 1;
        let fit = leg(g, line, breaks, i);
        total(g, line, penalty, breaks, i as nat) + fit.cost + adjacency(
            breaks[i],
            class_at(g, line, breaks, i),
            fit,
            penalty,
        )
    }
}

/// The cost of a whole sequence of breaks.
pub open spec fn path_cost(
    g: Grid,
    line: spec_fn(int, int, int) -> Line,
    penalty: Binary64,
    breaks: Seq<int>,
) -> Binary64 {
    total(g, line, penalty, breaks, (breaks.len() - 1) as nat)
}

/// `q` is no better than `p`: not a number, infinite, or not below `p`.
pub open spec fn no_better(q: Binary64, p: Binary64) -> bool {
    q.is_nan() || q.same(Binary64::infinity()) || (!p.is_nan() && !q.lt(p))
}

/// Adding the same cost keeps the worse the worse.
proof fn lemma_no_better_add(q: Binary64, p: Binary64, c: Binary64)
    requires
        no_better(q, p),
    ensures
        no_better(q + c, p + c),
{
    reveal(Binary64::spec_add);
    if !p.is_nan() && !q.lt(p) {
        law_add_monotone(q, p, c);
    }
}

/// An infinite cost stays infinite, or ceases to be a number.
pub proof fn lemma_infinite_add(x: Binary64, c: Binary64)
    requires
        x.same(Binary64::infinity()) || x.is_nan(),
    ensures
        (x + c).same(Binary64::infinity()) || (x + c).is_nan(),
{
    reveal(Binary64::spec_add);
}

/// An unreached slot offers nothing.
proof fn lemma_no_offer(
    costs: Seq<Binary64>,
    g: Grid,
    start: int,
    l: int,
    fitness: int,
    line: Line,
    penalty: Binary64,
)
    requires
        costs[g.slot(start, l, fitness)].same(Binary64::infinity()),
    ensures
        forall|x: Binary64|
            !(#[trigger] offer(costs, g, start, l, fitness, line, penalty).lt(x)),
{
    let x = costs[g.slot(start, l, fitness)];
    lemma_infinite_add(x, line.cost);
    lemma_infinite_add(x + line.cost, adjacency(start, fitness, line, penalty));
}

/// A line from one class of `start` to `end` cannot improve the table.
pub open spec fn settled(
    costs: Seq<Binary64>,
    g: Grid,
    line: spec_fn(int, int, int) -> Line,
    penalty: Binary64,
    start: int,
    end: int,
    l: int,
    fitness: int,
) -> bool {
    !offer(costs, g, start, l, fitness, line(start, end, l), penalty).lt(
        costs[g.target(end, l, line(start, end, l))],
    )
}

/// The lines from `start` to `end` cannot improve the table.
pub open spec fn exhausted(
    costs: Seq<Binary64>,
    g: Grid,
    line: spec_fn(int, int, int) -> Line,
    penalty: Binary64,
    start: int,
    end: int,
) -> bool {
    forall|l: int, fitness: int|
        0 <= l < g.lines() && 0 <= fitness < g.fitnesses ==> #[trigger] settled(
            costs,
            g,
            line,
            penalty,
            start,
            end,
            l,
            fitness,
        )
}

/// What is settled stays settled when `end` or a later break improves.
pub proof fn lemma_settled_kept(
    s: Search,
    t: Search,
    g: Grid,
    last: nat,
    line: spec_fn(int, int, int) -> Line,
    penalty: Binary64,
    start: int,
    end: int,
    l: int,
    fitness: int,
    at: int,
)
    requires
        proper(s, g, last),
        proper(t, g, last),
        improves(s, t, g, at),
        0 <= start < end <= at,
        end <= last,
        0 <= l < g.lines(),
        0 <= fitness < g.fitnesses,
        all_classed(line, g, last),
        settled(s.costs, g, line, penalty, start, end, l, fitness),
    ensures
        settled(t.costs, g, line, penalty, start, end, l, fitness),
{
    lemma_slot(g, start, l, fitness);
    lemma_in_tables(s, g, last, start, l, fitness);
    lemma_relaxed(s, g, last, start, end, l, line(start, end, l), penalty, 0);
    let target = g.target(end, l, line(start, end, l));
    assert(t.costs[g.slot(start, l, fitness)] == s.costs[g.slot(start, l, fitness)]);
    assert(t.costs[target] == s.costs[target] || t.costs[target].lt(s.costs[target]));
}

/// Offering a line settles it.
proof fn lemma_relaxed_settles(
    s: Search,
    g: Grid,
    last: nat,
    start: int,
    end: int,
    l: int,
    line: spec_fn(int, int, int) -> Line,
    penalty: Binary64,
    count: nat,
)
    requires
        proper(s, g, last),
        0 <= start < end <= last,
        0 <= l < g.lines(),
        count <= g.fitnesses,
        all_classed(line, g, last),
    ensures
        forall|fitness: int|
            0 <= fitness < count ==> #[trigger] settled(
                relaxed(s, g, start, end, l, line(start, end, l), penalty, count).costs,
                g,
                line,
                penalty,
                start,
                end,
                l,
                fitness,
            ),
    decreases count,
{
    if count > 0 {
        let fit = line(start, end, l);
        let k = (count - 1) as nat;
        lemma_relaxed_settles(s, g, last, start, end, l, line, penalty, k);
        let t = relaxed(s, g, start, end, l, fit, penalty, k);
        let u = relaxed(s, g, start, end, l, fit, penalty, count);
        lemma_relaxed(s, g, last, start, end, l, fit, penalty, k);
        lemma_relaxed(s, g, last, start, end, l, fit, penalty, count);
        let target = g.target(end, l, fit);
        assert(improves(t, u, g, end));
        assert forall|fitness: int| 0 <= fitness < count implies #[trigger] settled(
            u.costs,
            g,
            line,
            penalty,
            start,
            end,
            l,
            fitness,
        ) by {
            if fitness < k {
                lemma_settled_kept(t, u, g, last, line, penalty, start, end, l, fitness, end);
            } else {
                lemma_slot(g, start, l, fitness);
                lemma_in_tables(t, g, last, start, l, fitness);
            }
        }
    }
}

/// Trying the lines from one start settles them.
pub proof fn lemma_tried_settles(
    s: Search,
    g: Grid,
    last: nat,
    start: int,
    end: int,
    line: spec_fn(int, int, int) -> Line,
    penalty: Binary64,
    count: nat,
)
    requires
        proper(s, g, last),
        0 <= start < end <= last,
        all_classed(line, g, last),
        count <= g.lines(),
    ensures
        forall|l: int, fitness: int|
            0 <= l < count && 0 <= fitness < g.fitnesses ==> #[trigger] settled(
                tried(s, g, start, end, line, penalty, count).costs,
                g,
                line,
                penalty,
                start,
                end,
                l,
                fitness,
            ),
    decreases count,
{
    if count > 0 {
        let k = count - 1;
        lemma_tried_settles(s, g, last, start, end, line, penalty, k as nat);
        lemma_tried(s, g, last, start, end, line, penalty, k as nat);
        lemma_tried(s, g, last, start, end, line, penalty, count);
        let t = tried(s, g, start, end, line, penalty, k as nat);
        let u = tried(s, g, start, end, line, penalty, count);
        let fit = line(start, end, k);
        let from = g.slot(start, k, 0);
        if reached(t.costs, from, g.fitnesses as int) {
            let r = relaxed(t, g, start, end, k, fit, penalty, g.fitnesses);
            lemma_relaxed(t, g, last, start, end, k, fit, penalty, g.fitnesses);
            lemma_relaxed_settles(t, g, last, start, end, k, line, penalty, g.fitnesses);
            assert(u.costs == r.costs);
            assert forall|l: int, fitness: int|
                0 <= l < count && 0 <= fitness < g.fitnesses implies #[trigger] settled(
                u.costs,
                g,
                line,
                penalty,
                start,
                end,
                l,
                fitness,
            ) by {
                if l < k {
                    lemma_settled_kept(t, r, g, last, line, penalty, start, end, l, fitness, end);
                } else {
                    assert(settled(r.costs, g, line, penalty, start, end, l, fitness));
                }
            }
        } else {
            assert forall|fitness: int| 0 <= fitness < g.fitnesses implies #[trigger] settled(
                t.costs,
                g,
                line,
                penalty,
                start,
                end,
                k,
                fitness,
            ) by {
                assert(g.slot(start, k, fitness) == from + fitness);
                assert(t.costs[from + fitness].same(Binary64::infinity()));
                lemma_no_offer(t.costs, g, start, k, fitness, fit, penalty);
            }
        }
    }
}

/// A scan settles the lines that it tries.
proof fn lemma_scanned_settles(
    s: Search,
    g: Grid,
    last: nat,
    start: int,
    end: int,
    line: spec_fn(int, int, int) -> Line,
    penalty: Binary64,
)
    requires
        proper(s, g, last),
        -1 <= start < end <= last,
        all_classed(line, g, last),
    ensures
        forall|a: int|
            0 <= a <= start ==> #[trigger] exhausted(
                scanned(s, g, start, end, line, penalty).costs,
                g,
                line,
                penalty,
                a,
                end,
            ),
    decreases start + 1,
{
    if start >= 0 {
        let t = tried(s, g, start, end, line, penalty, g.lines());
        lemma_tried(s, g, last, start, end, line, penalty, g.lines());
        lemma_tried_settles(s, g, last, start, end, line, penalty, g.lines());
        assert(exhausted(t.costs, g, line, penalty, start, end));
        lemma_scanned_settles(t, g, last, start - 1, end, line, penalty);
        lemma_scanned(t, g, last, start - 1, end, line, penalty);
        let u = scanned(t, g, start - 1, end, line, penalty);
        assert forall|l: int, fitness: int|
            0 <= l < g.lines() && 0 <= fitness < g.fitnesses implies #[trigger] settled(
            u.costs,
            g,
            line,
            penalty,
            start,
            end,
            l,
            fitness,
        ) by {
            assert(settled(t.costs, g, line, penalty, start, end, l, fitness));
            lemma_settled_kept(t, u, g, last, line, penalty, start, end, l, fitness, end);
        }
    }
}

/// A sweep settles the lines that it tries.
proof fn lemma_swept_settles(
    s: Search,
    g: Grid,
    last: nat,
    count: nat,
    line: spec_fn(int, int, int) -> Line,
    penalty: Binary64,
)
    requires
        proper(s, g, last),
        count <= last,
        all_classed(line, g, last),
    ensures
        forall|a: int, b: int|
            0 <= a < b <= count ==> #[trigger] exhausted(
                swept(s, g, count, line, penalty).costs,
                g,
                line,
                penalty,
                a,
                b,
            ),
    decreases count,
{
    if count > 0 {
        let k = (count - 1) as nat;
        let t = swept(s, g, k, line, penalty);
        let u = swept(s, g, count, line, penalty);
        lemma_swept_settles(s, g, last, k, line, penalty);
        lemma_swept(s, g, last, k, line, penalty);
        lemma_scanned(t, g, last, count - 1, count as int, line, penalty);
        lemma_scanned_settles(t, g, last, count - 1, count as int, line, penalty);
        assert forall|a: int, b: int|
            0 <= a < b <= count implies #[trigger] exhausted(
            u.costs,
            g,
            line,
            penalty,
            a,
            b,
        ) by {
            if b < count {
                assert(exhausted(t.costs, g, line, penalty, a, b));
                assert forall|l: int, fitness: int|
                    0 <= l < g.lines() && 0 <= fitness < g.fitnesses implies #[trigger] settled(
                    u.costs,
                    g,
                    line,
                    penalty,
                    a,
                    b,
                    l,
                    fitness,
                ) by {
                    assert(settled(t.costs, g, line, penalty, a, b, l, fitness));
                    lemma_settled_kept(
                        t,
                        u,
                        g,
                        last,
                        line,
                        penalty,
                        a,
                        b,
                        l,
                        fitness,
                        count as int,
                    );
                }
            }
        }
    }
}

/// No sequence of breaks is better than what a table has where every line is
/// settled.
proof fn lemma_dominates(
    s: Search,
    g: Grid,
    last: nat,
    line: spec_fn(int, int, int) -> Line,
    penalty: Binary64,
    breaks: Seq<int>,
    end: int,
    count: nat,
)
    requires
        proper(s, g, last),
        s.costs[g.origin()] == Binary64::zero(),
        all_classed(line, g, last),
        forall|a: int, b: int|
            0 <= a < b <= last ==> #[trigger] exhausted(s.costs, g, line, penalty, a, b),
        is_path(breaks, end),
        end <= last,
        count < breaks.len(),
    ensures
        no_better(
            total(g, line, penalty, breaks, count),
            s.costs[g.slot(
                breaks[count as int],
                measure_at(g, count as int),
                class_at(g, line, breaks, count as int),
            )],
        ),
        0 <= breaks[count as int] <= last,
        0 <= class_at(g, line, breaks, count as int) < g.fitnesses,
    decreases count,
{
    assert(breaks[0] <= breaks[count as int] <= breaks.last());
    if count == 0 {
        assert(g.slot(0, 0, g.origin()) == g.origin()) by {
            lemma_slot(g, 0, 0, g.origin());
        }
    } else {
        let k = count - 1;
        lemma_dominates(s, g, last, line, penalty, breaks, end, k as nat);
        let (a, b, l, c) = (
            breaks[k],
            breaks[k + 1],
            measure_at(g, k),
            class_at(g, line, breaks, k),
        );
        assert(exhausted(s.costs, g, line, penalty, a, b));
        assert(settled(s.costs, g, line, penalty, a, b, l, c));
        let fit = leg(g, line, breaks, k);
        let target = g.target(b, l, fit);
        assert(target == g.slot(b, measure_at(g, k + 1), class_at(g, line, breaks, k + 1)));
        let source = s.costs[g.slot(a, l, c)];
        let before = total(g, line, penalty, breaks, k as nat);
        let fine = adjacency(a, c, fit, penalty);
        lemma_no_better_add(before, source, fit.cost);
        lemma_no_better_add(before + fit.cost, source + fit.cost, fine);
        lemma_relaxed(s, g, last, a, b, l, fit, penalty, 0);
        assert(!s.costs[target].is_nan());
    }
}

/// The cost of a slot is accounted for: by the origin, or by a line from a
/// slot that is itself reached.
pub open spec fn backed(
    s: Search,
    g: Grid,
    line: spec_fn(int, int, int) -> Line,
    penalty: Binary64,
    slot: int,
) -> bool {
    if s.costs[slot].same(Binary64::infinity()) {
        true
    } else if slot < g.states() {
        slot == g.origin() && s.costs[slot] == Binary64::zero()
    } else {
        let source = s.previous[slot] as int;
        let (a, b, l, c) = (
            g.node_of(source),
            g.node_of(slot),
            g.line_of(source),
            g.fitness_of(source),
        );
        &&& a < b
        &&& !s.costs[source].same(Binary64::infinity())
        &&& slot == g.target(b, l, line(a, b, l))
        &&& s.costs[slot] == offer(s.costs, g, a, l, c, line(a, b, l), penalty)
    }
}

/// The slots up to the break `end` are accounted for, and none beyond it is
/// reached.
pub open spec fn backed_to(
    s: Search,
    g: Grid,
    line: spec_fn(int, int, int) -> Line,
    penalty: Binary64,
    end: int,
) -> bool {
    &&& forall|slot: int|
        0 <= slot < s.costs.len() && g.node_of(slot) <= end ==> #[trigger] backed(
            s,
            g,
            line,
            penalty,
            slot,
        )
    &&& forall|slot: int|
        0 <= slot < s.costs.len() && g.node_of(slot) > end ==> (
        #[trigger] s.costs[slot]) == Binary64::infinity()
    &&& s.costs[g.origin()] == Binary64::zero()
}

/// Offering a line keeps every cost accounted for.
proof fn lemma_relaxed_backed(
    s: Search,
    g: Grid,
    last: nat,
    start: int,
    end: int,
    l: int,
    line: spec_fn(int, int, int) -> Line,
    penalty: Binary64,
    count: nat,
)
    requires
        proper(s, g, last),
        0 <= start < end <= last,
        0 <= l < g.lines(),
        count <= g.fitnesses,
        all_classed(line, g, last),
        backed_to(s, g, line, penalty, end),
    ensures
        backed_to(
            relaxed(s, g, start, end, l, line(start, end, l), penalty, count),
            g,
            line,
            penalty,
            end,
        ),
    decreases count,
{
    if count > 0 {
        let fit = line(start, end, l);
        let k = (count - 1) as nat;
        lemma_relaxed_backed(s, g, last, start, end, l, line, penalty, k);
        let t = relaxed(s, g, start, end, l, fit, penalty, k);
        let u = relaxed(s, g, start, end, l, fit, penalty, count);
        lemma_relaxed(s, g, last, start, end, l, fit, penalty, k);
        lemma_relaxed(s, g, last, start, end, l, fit, penalty, count);
        let target = g.target(end, l, fit);
        let source = g.slot(start, l, k as int);
        lemma_slot(g, start, l, k as int);
        lemma_in_tables(t, g, last, start, l, k as int);
        lemma_origin(g, last, t);
        let cost = offer(t.costs, g, start, l, k as int, fit, penalty);
        if cost.lt(t.costs[target]) {
            if t.costs[source].same(Binary64::infinity()) {
                lemma_no_offer(t.costs, g, start, l, k as int, fit, penalty);
            }
            assert forall|slot: int|
                0 <= slot < u.costs.len() && g.node_of(slot) <= end implies #[trigger] backed(
                u,
                g,
                line,
                penalty,
                slot,
            ) by {
                assert(backed(t, g, line, penalty, slot));
                lemma_slot_of(g, slot);
                if slot == target {
                    assert(slot >= g.states()) by (nonlinear_arith)
                        requires
                            end * g.states() <= slot,
                            end >= 1,
                            g.states() >= 0,
                    ;
                } else if slot >= g.states() {
                    let from = t.previous[slot] as int;
                    assert(g.node_of(from) < g.node_of(slot));
                    lemma_slot_of(g, from);
                    lemma_node_order(g, from, slot);
                }
            }
        }
    }
}

/// The origin is a slot of the first break.
proof fn lemma_origin(g: Grid, last: nat, s: Search)
    requires
        proper(s, g, last),
    ensures
        g.node_of(g.origin()) == 0,
        0 <= g.origin() < s.costs.len(),
        g.origin() < g.states(),
        g.slot(0, 0, g.origin()) == g.origin(),
        g.line_of(g.origin()) == 0,
        g.fitness_of(g.origin()) == g.origin(),
{
    lemma_slot(g, 0, 0, g.origin());
    lemma_in_tables(s, g, last, 0, 0, g.origin());
}

/// Trying the lines from one start keeps every cost accounted for.
proof fn lemma_tried_backed(
    s: Search,
    g: Grid,
    last: nat,
    start: int,
    end: int,
    line: spec_fn(int, int, int) -> Line,
    penalty: Binary64,
    count: nat,
)
    requires
        proper(s, g, last),
        0 <= start < end <= last,
        all_classed(line, g, last),
        count <= g.lines(),
        backed_to(s, g, line, penalty, end),
    ensures
        backed_to(tried(s, g, start, end, line, penalty, count), g, line, penalty, end),
    decreases count,
{
    if count > 0 {
        let k = count - 1;
        lemma_tried_backed(s, g, last, start, end, line, penalty, k as nat);
        lemma_tried(s, g, last, start, end, line, penalty, k as nat);
        let t = tried(s, g, start, end, line, penalty, k as nat);
        let fit = line(start, end, k);
        if reached(t.costs, g.slot(start, k, 0), g.fitnesses as int) {
            lemma_relaxed_backed(t, g, last, start, end, k, line, penalty, g.fitnesses);
            let r = relaxed(t, g, start, end, k, fit, penalty, g.fitnesses);
            let u = tried(s, g, start, end, line, penalty, count);
            assert forall|slot: int|
                0 <= slot < u.costs.len() && g.node_of(slot) <= end implies #[trigger] backed(
                u,
                g,
                line,
                penalty,
                slot,
            ) by {
                assert(backed(r, g, line, penalty, slot));
            }
        }
    }
}

/// A scan keeps every cost accounted for.
proof fn lemma_scanned_backed(
    s: Search,
    g: Grid,
    last: nat,
    start: int,
    end: int,
    line: spec_fn(int, int, int) -> Line,
    penalty: Binary64,
)
    requires
        proper(s, g, last),
        -1 <= start < end <= last,
        all_classed(line, g, last),
        backed_to(s, g, line, penalty, end),
    ensures
        backed_to(scanned(s, g, start, end, line, penalty), g, line, penalty, end),
    decreases start + 1,
{
    if start >= 0 {
        lemma_tried_backed(s, g, last, start, end, line, penalty, g.lines());
        lemma_tried(s, g, last, start, end, line, penalty, g.lines());
        let t = tried(s, g, start, end, line, penalty, g.lines());
        lemma_scanned_backed(t, g, last, start - 1, end, line, penalty);
    }
}

/// A sweep keeps every cost accounted for.
proof fn lemma_swept_backed(
    s: Search,
    g: Grid,
    last: nat,
    count: nat,
    line: spec_fn(int, int, int) -> Line,
    penalty: Binary64,
)
    requires
        proper(s, g, last),
        count <= last,
        all_classed(line, g, last),
        backed_to(s, g, line, penalty, 0),
    ensures
        backed_to(swept(s, g, count, line, penalty), g, line, penalty, count as int),
    decreases count,
{
    if count > 0 {
        let k = (count - 1) as nat;
        lemma_swept_backed(s, g, last, k, line, penalty);
        lemma_swept(s, g, last, k, line, penalty);
        let t = swept(s, g, k, line, penalty);
        assert forall|slot: int|
            0 <= slot < t.costs.len() && g.node_of(slot) <= count implies #[trigger] backed(
            t,
            g,
            line,
            penalty,
            slot,
        ) by {
            if g.node_of(slot) > k {
                assert(t.costs[slot] == Binary64::infinity());
            }
        }
        lemma_scanned_backed(t, g, last, count - 1, count as int, line, penalty);
    }
}

/// A search at its beginning is accounted for.
proof fn lemma_begun_backed(
    s: Search,
    g: Grid,
    last: nat,
    line: spec_fn(int, int, int) -> Line,
    penalty: Binary64,
)
    requires
        proper(s, g, last),
    ensures
        backed_to(begun(s, g), g, line, penalty, 0),
        proper(begun(s, g), g, last),
{
    lemma_begun(s, g, last);
    lemma_origin(g, last, s);
    let t = begun(s, g);
    assert forall|slot: int|
        0 <= slot < t.costs.len() && g.node_of(slot) <= 0 implies #[trigger] backed(
        t,
        g,
        line,
        penalty,
        slot,
    ) by {
        lemma_slot_of(g, slot);
    }
}

/// The breaks that lead to a slot.
pub open spec fn breaks_to(s: Search, g: Grid, slot: int) -> Seq<int>
    decreases slot,
{
    if slot < g.states() || s.previous[slot] >= slot {
        seq![0]
    } else {
        breaks_to(s, g, s.previous[slot] as int).push(g.node_of(slot))
    }
}

/// Further breaks do not change what the first lines cost.
proof fn lemma_total_prefix(
    g: Grid,
    line: spec_fn(int, int, int) -> Line,
    penalty: Binary64,
    breaks: Seq<int>,
    more: int,
    count: nat,
)
    requires
        count < breaks.len(),
    ensures
        total(g, line, penalty, breaks.push(more), count) == total(
            g,
            line,
            penalty,
            breaks,
            count,
        ),
        class_at(g, line, breaks.push(more), count as int) == class_at(
            g,
            line,
            breaks,
            count as int,
        ),
    decreases count,
{
    if count > 0 {
        lemma_total_prefix(g, line, penalty, breaks, more, (count - 1) as nat);
    }
}

/// The lines of a sequence of breaks, each charged with its clash.
pub open spec fn charged_lines(
    g: Grid,
    line: spec_fn(int, int, int) -> Line,
    penalty: Binary64,
    breaks: Seq<int>,
) -> Seq<Line> {
    Seq::new((breaks.len() - 1) as nat, |i: int| charged(g, line, penalty, breaks, i))
}

/// The breaks that lead to a reached slot account for its lines, its measure,
/// its class and its cost.
proof fn lemma_breaks_to(
    s: Search,
    g: Grid,
    last: nat,
    line: spec_fn(int, int, int) -> Line,
    penalty: Binary64,
    slot: int,
)
    requires
        proper(s, g, last),
        backed_to(s, g, line, penalty, last as int),
        all_classed(line, g, last),
        0 <= slot < s.costs.len(),
        !s.costs[slot].same(Binary64::infinity()),
    ensures
        is_path(breaks_to(s, g, slot), g.node_of(slot)),
        lines_to(s, g, slot, line, penalty) == charged_lines(
            g,
            line,
            penalty,
            breaks_to(s, g, slot),
        ),
        path_cost(g, line, penalty, breaks_to(s, g, slot)) == s.costs[slot],
        g.line_of(slot) == measure_at(g, breaks_to(s, g, slot).len() - 1),
        g.fitness_of(slot) == class_at(
            g,
            line,
            breaks_to(s, g, slot),
            breaks_to(s, g, slot).len() - 1,
        ),
    decreases slot,
{
    lemma_origin(g, last, s);
    lemma_slot_of(g, slot);
    assert(g.node_of(slot) <= last) by (nonlinear_arith)
        requires
            g.node_of(slot) * g.states() <= slot,
            slot < (last + 1) * g.states(),
    ;
    assert(backed(s, g, line, penalty, slot));
    let breaks = breaks_to(s, g, slot);
    if slot < g.states() {
        assert(breaks =~= seq![0]);
        assert(lines_to(s, g, slot, line, penalty) =~= charged_lines(g, line, penalty, breaks));
    } else {
        let source = s.previous[slot] as int;
        assert(g.node_of(source) < g.node_of(slot));
        lemma_node_order(g, source, slot);
        lemma_slot_of(g, source);
        lemma_breaks_to(s, g, last, line, penalty, source);
        let before = breaks_to(s, g, source);
        let node = g.node_of(slot);
        assert(breaks == before.push(node));
        let k = before.len() - 1;
        lemma_total_prefix(g, line, penalty, before, node, k as nat);
        let (a, l, c) = (g.node_of(source), g.line_of(source), g.fitness_of(source));
        let fit = line(a, node, l);
        assert(leg(g, line, breaks, k) == fit);
        assert(g.next(l) == measure_at(g, k + 1));
        let f = if g.fitnesses == 4 {
            fit.fitness->0 as int
        } else {
            0
        };
        assert(slot == g.slot(node, g.next(l), f));
        assert(class_at(g, line, breaks, k + 1) == f);
        lemma_slot(g, node, g.next(l), f);
        assert forall|i: int, j: int| 0 <= i < j < breaks.len() implies (#[trigger] breaks[i])
            < #[trigger] breaks[j] by {
            if j == k + 1 && i < k {
                assert(before[i] < before[k]);
            }
        }
        let lines = lines_to(s, g, slot, line, penalty);
        let expected = charged_lines(g, line, penalty, breaks);
        assert(lines == lines_to(s, g, source, line, penalty).push(
            line_to(s, g, slot, line, penalty),
        ));
        assert forall|i: int| 0 <= i <= k implies lines[i] == expected[i] by {
            if i < k {
                lemma_total_prefix(g, line, penalty, before, node, i as nat);
                assert(charged_lines(g, line, penalty, before)[i] == charged(
                    g,
                    line,
                    penalty,
                    before,
                    i,
                ));
            }
        }
        assert(lines =~= expected);
    }
}

/// `t` comes from `s` by improving slots.
pub open spec fn keeps(s: Search, t: Search) -> bool {
    &&& t.costs.len() == s.costs.len()
    &&& forall|i: int|
        0 <= i < s.costs.len() ==> t.costs[i] == s.costs[i] || (#[trigger] t.costs[i]).lt(
            s.costs[i],
        )
    &&& forall|i: int|
        0 <= i < s.costs.len() && t.costs[i] == s.costs[i] ==> #[trigger] t.previous[i]
            == s.previous[i]
}

/// A sweep only improves slots.
proof fn lemma_swept_keeps(
    s: Search,
    g: Grid,
    last: nat,
    count: nat,
    line: spec_fn(int, int, int) -> Line,
    penalty: Binary64,
)
    requires
        proper(s, g, last),
        count <= last,
        all_classed(line, g, last),
    ensures
        keeps(s, swept(s, g, count, line, penalty)),
    decreases count,
{
    if count > 0 {
        let k = (count - 1) as nat;
        lemma_swept_keeps(s, g, last, k, line, penalty);
        lemma_swept(s, g, last, k, line, penalty);
        let t = swept(s, g, k, line, penalty);
        lemma_scanned(t, g, last, count - 1, count as int, line, penalty);
        let u = swept(s, g, count, line, penalty);
        assert(improves(t, u, g, count as int));
        assert forall|i: int| 0 <= i < s.costs.len() implies u.costs[i] == s.costs[i] || (
        #[trigger] u.costs[i]).lt(s.costs[i]) by {
            assert(u.costs[i] == t.costs[i] || u.costs[i].lt(t.costs[i]));
            assert(t.costs[i] == s.costs[i] || t.costs[i].lt(s.costs[i]));
        }
        assert forall|i: int| 0 <= i < s.costs.len() && u.costs[i] == s.costs[i] implies (
        #[trigger] u.previous[i]) == s.previous[i] by {
            assert(u.costs[i] == t.costs[i] || u.costs[i].lt(t.costs[i]));
            assert(t.costs[i] == s.costs[i] || t.costs[i].lt(s.costs[i]));
            assert(t.costs[i] == u.costs[i]);
        }
    }
}

/// The cheapest slot is among those compared, and none of them is below it.
pub proof fn lemma_cheapest(costs: Seq<Binary64>, from: int, to: int)
    requires
        0 <= from < to <= costs.len(),
        forall|i: int| from <= i < to ==> !(#[trigger] costs[i]).is_nan(),
    ensures
        from <= cheapest_before(costs, from, to) < to,
        forall|i: int|
            from <= i < to ==> !(#[trigger] costs[i]).lt(costs[cheapest_before(costs, from, to)]),
    decreases to - from,
{
    if to > from + 1 {
        lemma_cheapest(costs, from, to - 1);
    }
}

/// The terminal slot belongs to the last break, and is its cheapest.
proof fn lemma_terminal(s: Search, g: Grid, last: nat)
    requires
        proper(s, g, last),
    ensures
        0 <= terminal(s, g, last) < s.costs.len(),
        g.node_of(terminal(s, g, last)) == last,
        forall|l: int, c: int|
            0 <= l < g.lines() && 0 <= c < g.fitnesses ==> !(#[trigger] s.costs[g.slot(
                last as int,
                l,
                c,
            )]).lt(s.costs[terminal(s, g, last)]),
        !viable(s, g, last) <==> s.costs[terminal(s, g, last)].same(Binary64::infinity()),
        !viable(s, g, last) ==> last > 0 || !s.costs[g.origin()].same(Binary64::zero()),
{
    let from = g.slot(last as int, 0, 0);
    let states = g.states() as int;
    lemma_slot(g, last as int, 0, 0);
    lemma_in_tables(s, g, last, last as int, 0, 0);
    assert((last + 1) * states == last * states + states) by (nonlinear_arith);
    assert(from == last * states);
    assert(s.costs.len() == from + states);
    lemma_cheapest(s.costs, from, s.costs.len() as int);
    let end = terminal(s, g, last);
    lemma_slot_of(g, end);
    let q = g.node_of(end);
    assert(q == last) by (nonlinear_arith)
        requires
            last * states <= end < last * states + states,
            q * states <= end < q * states + states,
    ;
    assert forall|l: int, c: int| 0 <= l < g.lines() && 0 <= c < g.fitnesses implies !(
    #[trigger] s.costs[g.slot(last as int, l, c)]).lt(s.costs[end]) by {
        lemma_slot(g, last as int, l, c);
    }
    if viable(s, g, last) {
        let i = choose|i: int|
            from <= i < from + states && !(#[trigger] s.costs[i]).same(Binary64::infinity());
        assert(!s.costs[i].lt(s.costs[end]));
    } else {
        assert(s.costs[end].same(Binary64::infinity()));
        lemma_origin(g, last, s);
        if last == 0 {
            assert(s.costs[g.origin()].same(Binary64::infinity()));
        }
    }
}

/// The tables that the deciding pass starts with.
pub open spec fn start_of(
    g: Grid,
    last: nat,
    line: spec_fn(bool) -> spec_fn(int, int, int) -> Line,
    penalty: Binary64,
) -> Search {
    let first = passed(blank(g, last), g, last, line(false), penalty);
    if viable(first, g, last) {
        begun(blank(g, last), g)
    } else {
        begun(first, g)
    }
}

/// What every outcome of a search has.
pub proof fn lemma_outcome(
    g: Grid,
    last: nat,
    line: spec_fn(bool) -> spec_fn(int, int, int) -> Line,
    penalty: Binary64,
)
    requires
        g.valid(),
        (last + 1) * g.states() <= usize::MAX,
        forall|e: bool| all_classed(#[trigger] line(e), g, last),
    ensures
        ({
            let (s, e) = outcome(g, last, line, penalty);
            let start = start_of(g, last, line, penalty);
            &&& proper(start, g, last)
            &&& proper(s, g, last)
            &&& s == swept(start, g, last, line(e), penalty)
            &&& backed_to(s, g, line(e), penalty, last as int)
            &&& !viable(s, g, last) ==> s.previous[terminal(s, g, last)] == 0
        }),
{
    lemma_blank(g, last);
    let s0 = begun(blank(g, last), g);
    lemma_begun_backed(blank(g, last), g, last, line(false), penalty);
    let s1 = swept(s0, g, last, line(false), penalty);
    lemma_swept(s0, g, last, last, line(false), penalty);
    lemma_swept_backed(s0, g, last, last, line(false), penalty);
    if !viable(s1, g, last) {
        let s2 = begun(s1, g);
        lemma_begun_backed(s1, g, last, line(true), penalty);
        let s3 = swept(s2, g, last, line(true), penalty);
        lemma_swept(s2, g, last, last, line(true), penalty);
        lemma_swept_backed(s2, g, last, last, line(true), penalty);
        if !viable(s3, g, last) {
            lemma_swept_keeps(s0, g, last, last, line(false), penalty);
            lemma_swept_keeps(s2, g, last, last, line(true), penalty);
            lemma_terminal(s3, g, last);
            lemma_terminal(s1, g, last);
            let end = terminal(s3, g, last);
            lemma_origin(g, last, s3);
            lemma_slot(g, last as int, 0, 0);
            lemma_in_tables(s1, g, last, last as int, 0, 0);
            lemma_slot_of(g, end);
            assert(s1.costs[end].same(Binary64::infinity()));
            assert(s0.costs[end] == s1.costs[end]);
            assert(s2.costs[end] == s3.costs[end]);
            assert(s1.previous[end] == s0.previous[end]);
            assert(s3.previous[end] == s2.previous[end]);
        }
    }
}

/// The lines of a layout are those of a sequence of breaks, and its cost is
/// theirs; where nothing can be composed, it is one line.
pub proof fn lemma_solution_path(
    g: Grid,
    last: nat,
    line: spec_fn(bool) -> spec_fn(int, int, int) -> Line,
    penalty: Binary64,
) -> (breaks: Seq<int>)
    requires
        g.valid(),
        (last + 1) * g.states() <= usize::MAX,
        forall|e: bool| all_classed(#[trigger] line(e), g, last),
    ensures
        is_path(breaks, last as int),
        ({
            let e = outcome(g, last, line, penalty).1;
            let cost = least_cost(g, last, line, penalty);
            &&& cheapest_lines(g, last, line, penalty) == charged_lines(
                g,
                line(e),
                penalty,
                breaks,
            )
            &&& !cost.same(Binary64::infinity()) ==> cost == path_cost(
                g,
                line(e),
                penalty,
                breaks,
            )
            &&& cost.same(Binary64::infinity()) ==> breaks == seq![0, last as int]
        }),
{
    let (s, e) = outcome(g, last, line, penalty);
    let end = terminal(s, g, last);
    lemma_outcome(g, last, line, penalty);
    lemma_terminal(s, g, last);
    lemma_origin(g, last, s);
    if viable(s, g, last) {
        lemma_breaks_to(s, g, last, line(e), penalty, end);
        breaks_to(s, g, end)
    } else {
        let breaks = seq![0, last as int];
        let lines = lines_to(s, g, end, line(e), penalty);
        lemma_slot_of(g, end);
        lemma_slot(g, 0, 0, 0);
        assert(end >= g.states()) by (nonlinear_arith)
            requires
                last * g.states() <= end,
                last >= 1,
                g.states() >= 0,
        ;
        assert(lines_to(s, g, 0, line(e), penalty) =~= seq![]);
        assert(g.slot(0, 0, 0) == 0);
        assert(lines =~= charged_lines(g, line(e), penalty, breaks));
        breaks
    }
}

/// No sequence of breaks costs less than the layout.
pub proof fn lemma_solution_optimal(
    g: Grid,
    last: nat,
    line: spec_fn(bool) -> spec_fn(int, int, int) -> Line,
    penalty: Binary64,
    breaks: Seq<int>,
)
    requires
        g.valid(),
        (last + 1) * g.states() <= usize::MAX,
        forall|e: bool| all_classed(#[trigger] line(e), g, last),
        is_path(breaks, last as int),
    ensures
        !path_cost(g, line(outcome(g, last, line, penalty).1), penalty, breaks).lt(
            least_cost(g, last, line, penalty),
        ),
{
    let (s, e) = outcome(g, last, line, penalty);
    let start = start_of(g, last, line, penalty);
    lemma_outcome(g, last, line, penalty);
    lemma_terminal(s, g, last);
    lemma_swept_settles(start, g, last, last, line(e), penalty);
    assert forall|a: int, b: int| 0 <= a < b <= last implies #[trigger] exhausted(
        s.costs,
        g,
        line(e),
        penalty,
        a,
        b,
    ) by {}
    let k = breaks.len() - 1;
    lemma_dominates(s, g, last, line(e), penalty, breaks, last as int, k as nat);
    let (l, c) = (measure_at(g, k), class_at(g, line(e), breaks, k));
    assert(!s.costs[g.slot(last as int, l, c)].lt(s.costs[terminal(s, g, last)]));
}

/// Some sequence of breaks can be composed: its cost is a number, and not
/// infinite.
pub open spec fn composes(
    g: Grid,
    last: nat,
    line: spec_fn(int, int, int) -> Line,
    penalty: Binary64,
) -> bool {
    exists|breaks: Seq<int>|
        is_path(breaks, last as int) && payable(#[trigger] path_cost(g, line, penalty, breaks))
}

/// A number that is not infinite upwards.
pub open spec fn payable(x: Binary64) -> bool {
    !x.is_nan() && !x.same(Binary64::infinity())
}

/// A pass is viable exactly where something can be composed.
proof fn lemma_viable(
    x: Search,
    g: Grid,
    last: nat,
    line: spec_fn(int, int, int) -> Line,
    penalty: Binary64,
)
    requires
        proper(x, g, last),
        all_classed(line, g, last),
    ensures
        viable(passed(x, g, last, line, penalty), g, last) <==> composes(g, last, line, penalty),
{
    let start = begun(x, g);
    let s = swept(start, g, last, line, penalty);
    lemma_begun_backed(x, g, last, line, penalty);
    lemma_swept(start, g, last, last, line, penalty);
    lemma_swept_backed(start, g, last, last, line, penalty);
    lemma_swept_settles(start, g, last, last, line, penalty);
    lemma_terminal(s, g, last);
    let end = terminal(s, g, last);
    if viable(s, g, last) {
        lemma_breaks_to(s, g, last, line, penalty, end);
        assert(payable(path_cost(g, line, penalty, breaks_to(s, g, end))));
    }
    if composes(g, last, line, penalty) {
        let breaks = choose|breaks: Seq<int>|
            is_path(breaks, last as int) && payable(#[trigger] path_cost(g, line, penalty, breaks));
        let k = breaks.len() - 1;
        lemma_dominates(s, g, last, line, penalty, breaks, last as int, k as nat);
        let (l, c) = (measure_at(g, k), class_at(g, line, breaks, k));
        assert(!s.costs[g.slot(last as int, l, c)].lt(s.costs[end]));
    }
}

/// The second pass decides exactly where ordinary fitting can compose nothing,
/// and the cost is infinite exactly where the deciding pass can compose nothing.
pub proof fn lemma_deciding_pass(
    g: Grid,
    last: nat,
    line: spec_fn(bool) -> spec_fn(int, int, int) -> Line,
    penalty: Binary64,
)
    requires
        g.valid(),
        (last + 1) * g.states() <= usize::MAX,
        forall|e: bool| all_classed(#[trigger] line(e), g, last),
    ensures
        outcome(g, last, line, penalty).1 <==> !composes(g, last, line(false), penalty),
        least_cost(g, last, line, penalty).same(Binary64::infinity()) <==> !composes(
            g,
            last,
            line(outcome(g, last, line, penalty).1),
            penalty,
        ),
        !least_cost(g, last, line, penalty).is_nan(),
{
    lemma_outcome(g, last, line, penalty);
    lemma_blank(g, last);
    lemma_viable(blank(g, last), g, last, line(false), penalty);
    let first = passed(blank(g, last), g, last, line(false), penalty);
    if !viable(first, g, last) {
        lemma_begun_backed(blank(g, last), g, last, line(false), penalty);
        lemma_swept(begun(blank(g, last), g), g, last, last, line(false), penalty);
        lemma_viable(first, g, last, line(true), penalty);
    }
    lemma_terminal(outcome(g, last, line, penalty).0, g, last);
}

/// Two searches in which every sequence of breaks costs the same end with the
/// same cost, in the same pass.
pub proof fn lemma_same_costs(
    g: Grid,
    line: spec_fn(bool) -> spec_fn(int, int, int) -> Line,
    h: Grid,
    other: spec_fn(bool) -> spec_fn(int, int, int) -> Line,
    last: nat,
    penalty: Binary64,
)
    requires
        g.valid(),
        h.valid(),
        (last + 1) * g.states() <= usize::MAX,
        (last + 1) * h.states() <= usize::MAX,
        forall|e: bool| all_classed(#[trigger] line(e), g, last),
        forall|e: bool| all_classed(#[trigger] other(e), h, last),
        forall|e: bool, breaks: Seq<int>|
            is_path(breaks, last as int) ==> #[trigger] path_cost(g, line(e), penalty, breaks)
                == path_cost(h, other(e), penalty, breaks),
        forall|e: bool, breaks: Seq<int>|
            is_path(breaks, last as int) ==> #[trigger] path_cost(h, other(e), penalty, breaks)
                == path_cost(g, line(e), penalty, breaks),
    ensures
        outcome(g, last, line, penalty).1 == outcome(h, last, other, penalty).1,
        least_cost(g, last, line, penalty).same(least_cost(h, last, other, penalty)),
{
    lemma_deciding_pass(g, last, line, penalty);
    lemma_deciding_pass(h, last, other, penalty);
    assert forall|e: bool| #[trigger] composes(g, last, line(e), penalty) <==> composes(
        h,
        last,
        other(e),
        penalty,
    ) by {
        if composes(g, last, line(e), penalty) {
            let b = choose|b: Seq<int>|
                is_path(b, last as int) && payable(#[trigger] path_cost(g, line(e), penalty, b));
            assert(payable(path_cost(h, other(e), penalty, b)));
        }
        if composes(h, last, other(e), penalty) {
            let b = choose|b: Seq<int>|
                is_path(b, last as int) && payable(#[trigger] path_cost(h, other(e), penalty, b));
            assert(payable(path_cost(g, line(e), penalty, b)));
        }
    }
    assert(composes(g, last, line(false), penalty) <==> composes(h, last, other(false), penalty));
    let e = outcome(g, last, line, penalty).1;
    assert(composes(g, last, line(e), penalty) <==> composes(h, last, other(e), penalty));
    if composes(g, last, line(e), penalty) {
        let a = lemma_solution_path(g, last, line, penalty);
        let b = lemma_solution_path(h, last, other, penalty);
        lemma_solution_optimal(g, last, line, penalty, b);
        lemma_solution_optimal(h, last, other, penalty, a);
    }
}

}
