//! Which of several equally cheap breaks is taken, and which measure and pass.

use crate::binary64::Binary64;
use crate::laws::{accepted, emergency, law_lines_tile, lemma_accepted};
use crate::model::{Line, Options, Paragraph};
use crate::optimum::{
    exhausted, is_path, lemma_cheapest, lemma_deciding_pass, lemma_outcome, lemma_settled_kept,
    lemma_tried_settles, measure_at, path_cost, payable, settled, start_of,
};
use crate::search::{
    all_classed, cheapest_before, classed, improves, lemma_in_tables, lemma_relaxed, lemma_scanned,
    lemma_slot, lemma_swept, lemma_tried, offer, proper, reached, relaxed, scanned, swept, tried,
    Grid, Search,
};
use crate::solve::{best_layout, last_break, layout_lines};
use crate::solver::outcome;
use vstd::prelude::*;

verus! {

/// What has changed was reached from `start`.
spec fn reached_from(s: Search, t: Search, g: Grid, start: int) -> bool {
    forall|i: int|
        0 <= i < s.costs.len() ==> (#[trigger] t.costs[i] == s.costs[i] && t.previous[i]
            == s.previous[i]) || g.node_of(t.previous[i] as int) == start
}

proof fn lemma_relaxed_from(
    s: Search,
    g: Grid,
    last: nat,
    start: int,
    end: int,
    l: int,
    line: Line,
    penalty: Binary64,
    count: nat,
)
    requires
        proper(s, g, last),
        0 <= start < end <= last,
        0 <= l < g.lines(),
        count <= g.fitnesses,
        classed(line),
    ensures
        reached_from(s, relaxed(s, g, start, end, l, line, penalty, count), g, start),
    decreases count,
{
    if count > 0 {
        let k = (count - 1) as nat;
        lemma_relaxed_from(s, g, last, start, end, l, line, penalty, k);
        lemma_relaxed(s, g, last, start, end, l, line, penalty, k);
        lemma_in_tables(s, g, last, start, l, count - 1);
        lemma_slot(g, start, l, count - 1);
        assert((g.slot(start, l, count - 1) as usize) as int == g.slot(start, l, count - 1));
    }
}

proof fn lemma_tried_from(
    s: Search,
    g: Grid,
    last: nat,
    start: int,
    end: int,
    line: spec_fn(int, int, int) -> Line,
    penalty: Binary64,
    count: nat,
)
    requires
        proper(s, g, last),
        0 <= start < end <= last,
        all_classed(line, g, last),
        count <= g.lines(),
    ensures
        reached_from(s, tried(s, g, start, end, line, penalty, count), g, start),
    decreases count,
{
    if count > 0 {
        let l = count - 1;
        lemma_tried_from(s, g, last, start, end, line, penalty, l as nat);
        lemma_tried(s, g, last, start, end, line, penalty, l as nat);
        let t = tried(s, g, start, end, line, penalty, l as nat);
        assert(classed(line(start, end, l)));
        lemma_relaxed_from(t, g, last, start, end, l, line(start, end, l), penalty, g.fitnesses);
        lemma_relaxed(t, g, last, start, end, l, line(start, end, l), penalty, g.fitnesses);
        let u = tried(s, g, start, end, line, penalty, count);
        assert forall|i: int| 0 <= i < s.costs.len() implies (#[trigger] u.costs[i] == s.costs[i]
            && u.previous[i] == s.previous[i]) || g.node_of(u.previous[i] as int) == start by {
            assert(t.costs[i] == s.costs[i] && t.previous[i] == s.previous[i] || g.node_of(
                t.previous[i] as int,
            ) == start);
        }
    }
}

/// The break that a slot was reached from is the latest one for its cost: from
/// any later one the slot would have cost more.
pub open spec fn latest_for(
    s: Search,
    g: Grid,
    line: spec_fn(int, int, int) -> Line,
    penalty: Binary64,
    c: int,
    end: int,
    l: int,
    class: int,
) -> bool {
    let slot = g.target(end, l, line(c, end, l));
    !s.costs[slot].same(Binary64::infinity()) && g.node_of(s.previous[slot] as int) < c ==> !offer(
        s.costs,
        g,
        c,
        l,
        class,
        line(c, end, l),
        penalty,
    ).le(s.costs[slot])
}

/// All starts of an end down to `low` are settled, and reached slots come from
/// the latest of them.
spec fn latest_to(
    s: Search,
    g: Grid,
    line: spec_fn(int, int, int) -> Line,
    penalty: Binary64,
    low: int,
    end: int,
) -> bool {
    &&& forall|c: int, l: int, class: int|
        low <= c < end && 0 <= c && 0 <= l < g.lines() && 0 <= class < g.fitnesses
            ==> #[trigger] latest_for(s, g, line, penalty, c, end, l, class)
    &&& forall|c: int|
        low <= c < end && 0 <= c ==> #[trigger] exhausted(s.costs, g, line, penalty, c, end)
    &&& forall|i: int|
        0 <= i < s.costs.len() && g.node_of(i) == end && !(#[trigger] s.costs[i]).same(
            Binary64::infinity(),
        ) ==> g.node_of(s.previous[i] as int) >= low
}

proof fn lemma_scanned_latest(
    s: Search,
    g: Grid,
    last: nat,
    start: int,
    end: int,
    line: spec_fn(int, int, int) -> Line,
    penalty: Binary64,
)
    requires
        proper(s, g, last),
        -1 <= start < end <= last,
        all_classed(line, g, last),
        latest_to(s, g, line, penalty, start + 1, end),
    ensures
        latest_to(scanned(s, g, start, end, line, penalty), g, line, penalty, 0, end),
    decreases start + 1,
{
    if start >= 0 {
        let t = tried(s, g, start, end, line, penalty, g.lines());
        lemma_tried(s, g, last, start, end, line, penalty, g.lines());
        lemma_tried_from(s, g, last, start, end, line, penalty, g.lines());
        lemma_tried_settles(s, g, last, start, end, line, penalty, g.lines());
        assert forall|i: int|
            0 <= i < t.costs.len() && g.node_of(i) == end && !(#[trigger] t.costs[i]).same(
                Binary64::infinity(),
            ) implies g.node_of(t.previous[i] as int) >= start by {
            assert(t.costs[i] == s.costs[i] && t.previous[i] == s.previous[i] || g.node_of(
                t.previous[i] as int,
            ) == start);
        }
        assert forall|c: int| start <= c < end && 0 <= c implies #[trigger] exhausted(
            t.costs,
            g,
            line,
            penalty,
            c,
            end,
        ) by {
            if c > start {
                assert(exhausted(s.costs, g, line, penalty, c, end));
                assert forall|l: int, class: int|
                    0 <= l < g.lines() && 0 <= class < g.fitnesses implies #[trigger] settled(
                    t.costs,
                    g,
                    line,
                    penalty,
                    c,
                    end,
                    l,
                    class,
                ) by {
                    assert(settled(s.costs, g, line, penalty, c, end, l, class));
                    lemma_settled_kept(s, t, g, last, line, penalty, c, end, l, class, end);
                }
            } else {
                assert forall|l: int, class: int|
                    0 <= l < g.lines() && 0 <= class < g.fitnesses implies #[trigger] settled(
                    t.costs,
                    g,
                    line,
                    penalty,
                    c,
                    end,
                    l,
                    class,
                ) by {}
            }
        }
        assert forall|c: int, l: int, class: int|
            start <= c < end && 0 <= c && 0 <= l < g.lines() && 0 <= class
                < g.fitnesses implies #[trigger] latest_for(
            t,
            g,
            line,
            penalty,
            c,
            end,
            l,
            class,
        ) by {
            let fit = line(c, end, l);
            let slot = g.target(end, l, fit);
            assert(classed(fit));
            lemma_relaxed(s, g, last, c, end, l, fit, penalty, 0);
            lemma_in_tables(s, g, last, c, l, class);
            lemma_slot(g, c, l, class);
            assert(t.costs[slot] == s.costs[slot] && t.previous[slot] == s.previous[slot]
                || g.node_of(t.previous[slot] as int) == start);
            if c > start {
                assert(latest_for(s, g, line, penalty, c, end, l, class));
                assert(exhausted(s.costs, g, line, penalty, c, end));
                assert(settled(s.costs, g, line, penalty, c, end, l, class));
                assert(t.costs[slot] == s.costs[slot] || t.costs[slot].lt(s.costs[slot]));
                if t.costs[slot] == s.costs[slot] {
                    assert(t.previous[slot] == s.previous[slot]);
                }
            } else {
                assert(!t.costs[slot].same(Binary64::infinity()) ==> g.node_of(
                    t.previous[slot] as int,
                ) >= start);
            }
        }
        lemma_scanned_latest(t, g, last, start - 1, end, line, penalty);
    }
}

/// The slots of the breaks from `end` on are not reached.
spec fn untouched(s: Search, g: Grid, end: int) -> bool {
    forall|i: int|
        0 <= i < s.costs.len() && g.node_of(i) >= end ==> (#[trigger] s.costs[i]).same(
            Binary64::infinity(),
        )
}

proof fn lemma_swept_latest(
    s: Search,
    g: Grid,
    last: nat,
    count: nat,
    line: spec_fn(int, int, int) -> Line,
    penalty: Binary64,
)
    requires
        proper(s, g, last),
        count <= last,
        all_classed(line, g, last),
        untouched(s, g, 1),
    ensures
        untouched(swept(s, g, count, line, penalty), g, count + 1int),
        forall|end: int|
            1 <= end <= count ==> #[trigger] latest_to(
                swept(s, g, count, line, penalty),
                g,
                line,
                penalty,
                0,
                end,
            ),
    decreases count,
{
    if count > 0 {
        let k = (count - 1) as nat;
        let here = count as int;
        lemma_swept_latest(s, g, last, k, line, penalty);
        lemma_swept(s, g, last, k, line, penalty);
        let before = swept(s, g, k, line, penalty);
        assert(latest_to(before, g, line, penalty, here, here));
        lemma_scanned_latest(before, g, last, here - 1, here, line, penalty);
        lemma_scanned(before, g, last, here - 1, here, line, penalty);
        let after = scanned(before, g, here - 1, here, line, penalty);
        assert forall|end: int| 1 <= end <= count implies #[trigger] latest_to(
            after,
            g,
            line,
            penalty,
            0,
            end,
        ) by {
            if end < here {
                assert(latest_to(before, g, line, penalty, 0, end));
                lemma_latest_kept(before, after, g, last, line, penalty, end, here);
            }
        }
    }
}

proof fn lemma_latest_kept(
    s: Search,
    t: Search,
    g: Grid,
    last: nat,
    line: spec_fn(int, int, int) -> Line,
    penalty: Binary64,
    end: int,
    here: int,
)
    requires
        proper(s, g, last),
        improves(s, t, g, here),
        1 <= end < here <= last,
        all_classed(line, g, last),
        latest_to(s, g, line, penalty, 0, end),
    ensures
        latest_to(t, g, line, penalty, 0, end),
{
    assert forall|c: int, l: int, class: int|
        0 <= c < end && 0 <= l < g.lines() && 0 <= class < g.fitnesses implies #[trigger] latest_for(
        t,
        g,
        line,
        penalty,
        c,
        end,
        l,
        class,
    ) && settled(t.costs, g, line, penalty, c, end, l, class) by {
        let fit = line(c, end, l);
        assert(classed(fit));
        lemma_relaxed(s, g, last, c, end, l, fit, penalty, 0);
        lemma_in_tables(s, g, last, c, l, class);
        lemma_slot(g, c, l, class);
        assert(latest_for(s, g, line, penalty, c, end, l, class));
        assert(exhausted(s.costs, g, line, penalty, c, end));
        assert(settled(s.costs, g, line, penalty, c, end, l, class));
        let slot = g.target(end, l, fit);
        assert(t.costs[slot] == s.costs[slot] && t.previous[slot] == s.previous[slot]);
    }
    assert forall|c: int| 0 <= c < end implies #[trigger] exhausted(
        t.costs,
        g,
        line,
        penalty,
        c,
        end,
    ) by {
        assert forall|l: int, class: int|
            0 <= l < g.lines() && 0 <= class < g.fitnesses implies #[trigger] settled(
            t.costs,
            g,
            line,
            penalty,
            c,
            end,
            l,
            class,
        ) by {
            assert(latest_for(t, g, line, penalty, c, end, l, class));
        }
    }
}

/// Of equally cheap ways to a break the one with the latest break before it is
/// taken: from any later one, a reached slot would have cost more.
pub proof fn law_ties_go_to_the_latest_break(
    g: Grid,
    last: nat,
    line: spec_fn(bool) -> spec_fn(int, int, int) -> Line,
    penalty: Binary64,
    c: int,
    end: int,
    l: int,
    class: int,
)
    requires
        g.valid(),
        (last + 1) * g.states() <= usize::MAX,
        forall|e: bool| all_classed(#[trigger] line(e), g, last),
        0 <= c < end <= last,
        0 <= l < g.lines(),
        0 <= class < g.fitnesses,
    ensures
        ({
            let (s, e) = outcome(g, last, line, penalty);
            latest_for(s, g, line(e), penalty, c, end, l, class)
        }),
{
    let (s, e) = outcome(g, last, line, penalty);
    lemma_outcome(g, last, line, penalty);
    let start = start_of(g, last, line, penalty);
    assert(untouched(start, g, 1)) by {
        assert forall|i: int| 0 <= i < start.costs.len() && g.node_of(i) >= 1 implies (
        #[trigger] start.costs[i]).same(Binary64::infinity()) by {
            lemma_slot(g, 0, 0, g.origin());
            assert(g.slot(0, 0, g.origin()) == g.origin());
        }
    }
    lemma_swept_latest(start, g, last, last, line(e), penalty);
    assert(latest_to(s, g, line(e), penalty, 0, end));
}

/// Lines take the measures in order, one each, and the last measure is that of
/// all lines beyond.
pub proof fn law_measures_are_taken_in_order(
    p: Paragraph,
    widths: Seq<Binary64>,
    o: Options,
    i: int,
)
    requires
        accepted(p, widths, o),
        0 <= i < best_layout(p, widths, o).lines.len(),
    ensures
        i < widths.len() ==> best_layout(p, widths, o).lines[i].width == widths[i],
        i >= widths.len() ==> best_layout(p, widths, o).lines[i].width == widths.last(),
{
    law_lines_tile(p, widths, o);
    assert(best_layout(p, widths, o).lines[i].width == widths[measure_at(
        Grid::of(widths, o),
        i,
    )]);
}

/// An emergency is declared only where no sequence of breaks can be composed by
/// ordinary fitting.
pub proof fn law_emergency_is_the_last_resort(
    p: Paragraph,
    widths: Seq<Binary64>,
    o: Options,
    breaks: Seq<int>,
)
    requires
        accepted(p, widths, o),
        emergency(p, widths, o),
        is_path(breaks, last_break(p) as int),
    ensures
        ({
            let cost = path_cost(
                Grid::of(widths, o),
                layout_lines(p, widths, o)(false),
                o.adjacent_penalty,
                breaks,
            );
            cost.is_nan() || cost.same(Binary64::infinity())
        }),
{
    let g = Grid::of(widths, o);
    let lines = layout_lines(p, widths, o);
    lemma_accepted(p, widths, o);
    lemma_deciding_pass(g, last_break(p), lines, o.adjacent_penalty);
    let cost = path_cost(g, lines(false), o.adjacent_penalty, breaks);
    if payable(cost) {
        assert(payable(path_cost(g, lines(false), o.adjacent_penalty, breaks)));
    }
}

/// Of equally cheap endings the first is taken: all before it cost more.
pub proof fn law_ties_go_to_the_first_ending(costs: Seq<Binary64>, from: int, to: int, i: int)
    requires
        0 <= from <= i < cheapest_before(costs, from, to),
        from < to <= costs.len(),
        forall|k: int| from <= k < to ==> !(#[trigger] costs[k]).is_nan(),
    ensures
        costs[cheapest_before(costs, from, to)].lt(costs[i]),
    decreases to - from,
{
    if to > from + 1 {
        lemma_cheapest(costs, from, to - 1);
        let best = cheapest_before(costs, from, to - 1);
        if costs[to - 1].lt(costs[best]) {
            assert(!costs[i].lt(costs[best]));
        } else {
            law_ties_go_to_the_first_ending(costs, from, to - 1, i);
        }
    }
}

}
