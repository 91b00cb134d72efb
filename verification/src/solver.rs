//! The tables of the search for the cheapest breaks, and its passes.

use crate::binary64::Binary64;
use crate::model::{Layout, Line, Options, Solution};
use crate::search::{
    all_classed, all_live, begun, blank, cheapest_before, clashes, classed, dead_useless, fits,
    improves, lemma_begun, lemma_dead_tally, lemma_fits, lemma_in_tables, lemma_node_order,
    lemma_reached_kept, lemma_reached_part, lemma_relaxed, lemma_scanned, lemma_skip,
    lemma_skip_tally, lemma_slot, lemma_slot_of, lemma_swept, lemma_tallied, lemma_tried,
    lemma_unsigned_scanned, lemma_unsigned_tried, lemma_useless, lemma_useless_before,
    lemma_useless_kept, lemma_useless_relaxed, line_to, lines_to, offer, passed, proper, reached,
    relaxed, safe, scanned, shuts, still_live, swept, tallied, tally, terminal, tried,
    unsigned_costs, unsigned_lines, useless, viable, Grid, Search, Verdict,
};
use vstd::prelude::*;

verus! {

/// Dynamic-programming state per break: which measure the next line takes
/// (line index, clamped once widths repeat) x the finished line's fitness class.
pub struct Shape {
    pub fitnesses: usize,
    pub lines: usize,
    pub states: usize,
    pub origin: usize,
    pub widths: Vec<Binary64>,
}

impl View for Shape {
    type V = Grid;

    open spec fn view(&self) -> Grid {
        Grid { fitnesses: self.fitnesses as nat, widths: self.widths@ }
    }
}

impl Shape {
    /// The fields agree with the grid.
    pub open spec fn valid(self) -> bool {
        &&& self@.valid()
        &&& self.lines == self@.lines()
        &&& self.states == self@.states()
        &&& self.origin == self@.origin()
    }

    /// The shape of a search with these widths.
    pub fn new(widths: Vec<Binary64>, o: &Options) -> (s: Shape)
        requires
            widths@.len() > 0,
            Grid::of(widths@, *o).states() <= usize::MAX,
        ensures
            s.valid(),
            s@ == Grid::of(widths@, *o),
    {
        let fitnesses: usize = if !o.adjacent_penalty.same(Binary64::zero()) {
            4
        } else {
            1
        };
        let lines: usize = widths.len();
        let states: usize = fitnesses * lines;
        let origin: usize = if fitnesses == 4 {
            1
        } else {
            0
        };
        Shape { fitnesses, lines, states, origin, widths }
    }

    /// The width of a measure.
    pub fn width(&self, l: usize) -> (w: Binary64)
        requires
            l < self.widths@.len(),
        ensures
            w == self.widths@[l as int],
    {
        self.widths[l]
    }

    /// The measure after measure `l`.
    pub fn next(&self, l: usize) -> (r: usize)
        requires
            self.valid(),
            l < self.lines,
        ensures
            r == self@.next(l as int),
    {
        if l + 1 < self.lines {
            l + 1
        } else {
            self.lines - 1
        }
    }

    /// A slot by its coordinates.
    pub fn slot(&self, node: usize, l: usize, fitness: usize, last: Ghost<nat>) -> (r: usize)
        requires
            self.valid(),
            (last@ + 1) * self@.states() <= usize::MAX,
            node <= last@,
            l < self.lines,
            fitness < self.fitnesses,
        ensures
            r == self@.slot(node as int, l as int, fitness as int),
    {
        proof {
            lemma_slot(self@, node as int, l as int, fitness as int);
            let states = self.states as int;
            assert(node * states + states <= (last@ + 1) * states) by (nonlinear_arith)
                requires
                    node <= last@,
                    states >= 0,
            ;
            assert(0 <= node * states) by (nonlinear_arith)
                requires
                    node >= 0,
                    states >= 0,
            ;
            assert(0 <= l * self.fitnesses) by (nonlinear_arith)
                requires
                    l >= 0,
                    self.fitnesses >= 0,
            ;
        }
        node * self.states + l * self.fitnesses + fitness
    }
}

/// True when one of `count` slots has been reached.
pub fn any_finite(costs: &Vec<Binary64>, from: usize, count: usize) -> (r: bool)
    requires
        from + count <= costs@.len(),
    ensures
        r == reached(costs@, from as int, count as int),
{
    let total: usize = costs.len();
    let mut i: usize = from;
    while i < from + count
        invariant
            from <= i <= from + count <= total == costs@.len(),
            forall|k: int|
                from <= k < i ==> (#[trigger] costs@[k]).same(Binary64::infinity()),
        decreases from + count - i,
    {
        if !costs[i].same(Binary64::infinity()) {
            assert(!costs@[i as int].same(Binary64::infinity()));
            return true;
        }
        i = i + 1;
    }
    false
}

/// The first of the cheapest slots from `from` on.
pub fn cheapest(costs: &Vec<Binary64>, from: usize) -> (best: usize)
    requires
        from < costs@.len(),
    ensures
        best == cheapest_before(costs@, from as int, costs@.len() as int),
        from <= best < costs@.len(),
{
    let total: usize = costs.len();
    let mut best: usize = from;
    let mut i: usize = from + 1;
    while i < total
        invariant
            from < i <= total == costs@.len(),
            from <= best < costs@.len(),
            best == cheapest_before(costs@, from as int, i as int),
        decreases total - i,
    {
        if costs[i].lt(costs[best]) {
            best = i;
        }
        i = i + 1;
    }
    best
}

/// The tables of a search.
pub struct Table {
    pub costs: Vec<Binary64>,
    pub previous: Vec<usize>,
    pub candidates: usize,
}

impl View for Table {
    type V = Search;

    open spec fn view(&self) -> Search {
        Search { costs: self.costs@, previous: self.previous@ }
    }
}

/// Whether a line clashes with the one before it.
fn clash(start: usize, fitness: usize, line: &Line) -> (r: bool)
    requires
        classed(*line),
        fitness < 4,
    ensures
        r == clashes(start as int, fitness as int, *line),
{
    match line.fitness {
        Some(class) => start != 0 && (fitness as i32 - class > 1 || class - fitness as i32 > 1),
        None => false,
    }
}

/// The number of fitness class `line`.
fn class_of(line: &Line) -> (r: usize)
    requires
        classed(*line),
    ensures
        r == line.fitness->0,
        r <= 3,
{
    match line.fitness {
        Some(class) => class as usize,
        None => 0,
    }
}

impl Table {
    /// Empty tables for the breaks up to `last`.
    pub fn new(s: &Shape, last: usize) -> (t: Table)
        requires
            s.valid(),
            last < usize::MAX,
            (last + 1) * s@.states() <= usize::MAX,
        ensures
            t@ == blank(s@, last as nat),
            t.candidates == 0,
    {
        let total: usize = (last + 1) * s.states;
        let costs: Vec<Binary64> = vec![Binary64::infinity(); total];
        let previous: Vec<usize> = vec![0usize; total];
        let t: Table = Table { costs, previous, candidates: 0 };
        assert(t@ =~= blank(s@, last as nat));
        t
    }

    /// Forgets all costs but that of the origin.
    fn begin(&mut self, s: &Shape)
        requires
            s.valid(),
            s.states <= old(self).costs@.len(),
        ensures
            final(self)@ == begun(old(self)@, s@),
            final(self).candidates == old(self).candidates,
    {
        proof {
            lemma_slot(s@, 0, 0, 0);
        }
        let ghost n = self.costs@.len();
        let mut i: usize = 0;
        while i < self.costs.len()
            invariant
                i <= self.costs@.len() == n,
                self.previous@ == old(self).previous@,
                self.candidates == old(self).candidates,
                forall|k: int| 0 <= k < i ==> #[trigger] self.costs@[k] == Binary64::infinity(),
            decreases self.costs@.len() - i,
        {
            self.costs.set(i, Binary64::infinity());
            i = i + 1;
        }
        proof {
            lemma_slot(s@, 0, 0, s@.origin());
        }
        self.costs.set(s.origin, Binary64::zero());
        assert(self@ =~= begun(old(self)@, s@));
    }

    /// Offers a line from every class of its start.
    fn relax(
        &mut self,
        s: &Shape,
        start: usize,
        end: usize,
        l: usize,
        line: &Line,
        penalty: Binary64,
        last: Ghost<nat>,
    )
        requires
            s.valid(),
            proper(old(self)@, s@, last@),
            start < end <= last@,
            l < s.lines,
            classed(*line),
        ensures
            final(self)@ == relaxed(
                old(self)@,
                s@,
                start as int,
                end as int,
                l as int,
                *line,
                penalty,
                s@.fitnesses,
            ),
            final(self).candidates == old(self).candidates,
    {
        let ghost g = s@;
        let class: usize = if s.fitnesses == 4 {
            class_of(line)
        } else {
            0
        };
        let next: usize = s.next(l);
        let target: usize = s.slot(end, next, class, last);
        let base: usize = s.slot(start, l, 0, last);
        let mut fitness: usize = 0;
        while fitness < s.fitnesses
            invariant
                s.valid(),
                g == s@,
                proper(old(self)@, g, last@),
                start < end <= last@,
                l < s.lines,
                classed(*line),
                target == g.target(end as int, l as int, *line),
                base == g.slot(start as int, l as int, 0),
                fitness <= s.fitnesses,
                self.candidates == old(self).candidates,
                self@ == relaxed(
                    old(self)@,
                    g,
                    start as int,
                    end as int,
                    l as int,
                    *line,
                    penalty,
                    fitness as nat,
                ),
            decreases s.fitnesses - fitness,
        {
            proof {
                lemma_relaxed(
                    old(self)@,
                    g,
                    last@,
                    start as int,
                    end as int,
                    l as int,
                    *line,
                    penalty,
                    fitness as nat,
                );
                lemma_in_tables(
                    old(self)@,
                    g,
                    last@,
                    start as int,
                    l as int,
                    fitness as int,
                );
            }
            let source: usize = base + fitness;
            let adjacent: Binary64 = if clash(start, fitness, line) {
                penalty
            } else {
                Binary64::zero()
            };
            let cost: Binary64 = self.costs[source] + line.cost + adjacent;
            let ghost before = self@;
            assert(cost == offer(
                before.costs,
                g,
                start as int,
                l as int,
                fitness as int,
                *line,
                penalty,
            ));
            if cost.lt(self.costs[target]) {
                self.costs.set(target, cost);
                self.previous.set(target, source);
            }
            fitness = fitness + 1;
        }
    }

    /// Fits and offers the lines from one start, for every measure that is
    /// looked at.
    fn attempt<F: Fn(bool, usize, usize, usize) -> Line>(
        &mut self,
        s: &Shape,
        start: usize,
        end: usize,
        live: &Vec<bool>,
        fit: &F,
        emergency: bool,
        penalty: Binary64,
        last: Ghost<nat>,
        line: Ghost<spec_fn(int, int, int) -> Line>,
    )
        requires
            s.valid(),
            proper(old(self)@, s@, last@),
            start < end <= last@,
            all_classed(line@, s@, last@),
            gives(fit, emergency, line@, s@, last@),
            live@.len() == s@.lines(),
            dead_useless(
                old(self).costs@,
                s@,
                start + 1,
                end as int,
                live@,
                line@,
                penalty,
            ),
            old(self).candidates + s.lines <= usize::MAX,
        ensures
            final(self)@ == tried(
                old(self)@,
                s@,
                start as int,
                end as int,
                line@,
                penalty,
                s@.lines(),
            ),
            final(self).candidates == old(self).candidates + fits(
                old(self).costs@,
                s@,
                start as int,
                live@,
                s@.lines(),
            ),
    {
        let ghost g = s@;
        let mut l: usize = 0;
        while l < s.lines
            invariant
                s.valid(),
                g == s@,
                proper(old(self)@, g, last@),
                start < end <= last@,
                all_classed(line@, g, last@),
                gives(fit, emergency, line@, g, last@),
                live@.len() == g.lines(),
                dead_useless(
                    old(self).costs@,
                    g,
                    start + 1,
                    end as int,
                    live@,
                    line@,
                    penalty,
                ),
                old(self).candidates + s.lines <= usize::MAX,
                l <= s.lines,
                self.candidates == old(self).candidates + fits(
                    old(self).costs@,
                    g,
                    start as int,
                    live@,
                    l as nat,
                ),
                self@ == tried(
                    old(self)@,
                    g,
                    start as int,
                    end as int,
                    line@,
                    penalty,
                    l as nat,
                ),
            decreases s.lines - l,
        {
            proof {
                lemma_tried(
                    old(self)@,
                    g,
                    last@,
                    start as int,
                    end as int,
                    line@,
                    penalty,
                    l as nat,
                );
                lemma_in_tables(self@, g, last@, start as int, l as int, 0);
                lemma_in_tables(self@, g, last@, start as int, l as int, g.fitnesses - 1);
                lemma_reached_part(
                    old(self)@,
                    self@,
                    g,
                    last@,
                    start as int,
                    l as int,
                    end as int,
                );
                lemma_fits(old(self).costs@, g, start as int, live@, l as nat);
                if !live@[l as int] {
                    assert(useless(
                        old(self).costs@,
                        g,
                        start + 1,
                        end as int,
                        l as int,
                        line@,
                        penalty,
                    ));
                    lemma_useless_kept(
                        old(self)@,
                        self@,
                        g,
                        last@,
                        start + 1,
                        end as int,
                        l as int,
                        line@,
                        penalty,
                    );
                    lemma_useless_relaxed(
                        self@,
                        g,
                        start + 1,
                        start as int,
                        end as int,
                        l as int,
                        line@,
                        penalty,
                        g.fitnesses,
                    );
                }
            }
            let base: usize = s.slot(start, l, 0, last);
            if live[l] && any_finite(&self.costs, base, s.fitnesses) {
                let one: Line = fit(emergency, start, end, l);
                assert(one == (line@)(start as int, end as int, l as int));
                proof {
                    lemma_relaxed(
                        self@,
                        g,
                        last@,
                        start as int,
                        end as int,
                        l as int,
                        one,
                        penalty,
                        g.fitnesses,
                    );
                }
                self.relax(s, start, end, l, &one, penalty, last);
                self.candidates = self.candidates + 1;
            }
            l = l + 1;
        }
    }

    /// Leaves out the measures that a verdict shuts; false when none is left.
    fn narrow(
        &self,
        s: &Shape,
        end: usize,
        v: Verdict,
        live: &mut Vec<bool>,
        last: Ghost<nat>,
    ) -> (open: bool)
        requires
            s.valid(),
            proper(self@, s@, last@),
            end <= last@,
            old(live)@.len() == s@.lines(),
        ensures
            final(live)@ == still_live(old(live)@, v, self.costs@, s@, end as int),
            open == exists|l: int| 0 <= l < s@.lines() && #[trigger] final(live)@[l],
    {
        let ghost g = s@;
        let ghost given = live@;
        let goal: Ghost<Seq<bool>> = Ghost(still_live(given, v, self.costs@, g, end as int));
        let mut open: bool = false;
        let mut l: usize = 0;
        while l < s.lines
            invariant
                s.valid(),
                g == s@,
                proper(self@, g, last@),
                end <= last@,
                given.len() == g.lines(),
                live@.len() == g.lines(),
                goal@ == still_live(given, v, self.costs@, g, end as int),
                l <= s.lines,
                forall|k: int| 0 <= k < l ==> #[trigger] live@[k] == goal@[k],
                forall|k: int| l <= k < g.lines() ==> #[trigger] live@[k] == given[k],
                open == exists|k: int| 0 <= k < l && #[trigger] live@[k],
            decreases s.lines - l,
        {
            let ghost before = live@;
            let shut: bool = match v {
                Verdict::Open => false,
                Verdict::Shut => true,
                Verdict::Priced(price) => {
                    let next: usize = s.next(l);
                    proof {
                        lemma_in_tables(self@, g, last@, end as int, next as int, 0);
                    }
                    let at: usize = s.slot(end, next, 0, last);
                    self.costs[at].le(price)
                },
            };
            let kept: bool = live[l] && !shut;
            live.set(l, kept);
            proof {
                assert(live@ == before.update(l as int, kept));
                if open {
                    let k = choose|k: int| 0 <= k < l && #[trigger] before[k];
                    assert(live@[k]);
                }
                if kept {
                    assert(live@[l as int]);
                }
                if exists|k: int| 0 <= k < l + 1 && #[trigger] live@[k] {
                    let k = choose|k: int| 0 <= k < l + 1 && #[trigger] live@[k];
                    assert(k == l || before[k]);
                }
            }
            if kept {
                open = true;
            }
            l = l + 1;
        }
        assert(live@ =~= goal@);
        open
    }

    /// Scans the starts of one end, from the latest reached one back, until
    /// there is nothing to gain from the earlier ones.
    fn scan<
        F: Fn(bool, usize, usize, usize) -> Line,
        S: Fn(bool, usize, usize) -> Verdict,
    >(
        &mut self,
        s: &Shape,
        end: usize,
        reachable: &Vec<usize>,
        fit: &F,
        judge: &S,
        emergency: bool,
        penalty: Binary64,
        last: Ghost<nat>,
        line: Ghost<spec_fn(int, int, int) -> Line>,
        verdict: Ghost<spec_fn(int, int) -> Verdict>,
    )
        requires
            s.valid(),
            proper(old(self)@, s@, last@),
            0 < end <= last@,
            all_classed(line@, s@, last@),
            gives(fit, emergency, line@, s@, last@),
            judges(judge, emergency, verdict@, last@),
            safe(verdict@, line@, s@, last@, penalty),
            unsigned_lines(line@, s@, last@, penalty) ==> unsigned_costs(old(self).costs@),
            lists(reachable@, old(self)@, s@, end as int),
            old(self).candidates + end * s.lines <= usize::MAX,
        ensures
            final(self)@ == scanned(
                old(self)@,
                s@,
                end - 1,
                end as int,
                line@,
                penalty,
            ),
            final(self).candidates == old(self).candidates + tally(
                old(self)@,
                s@,
                end - 1,
                end as int,
                all_live(s@),
                line@,
                verdict@,
                penalty,
            ),
    {
        let ghost g = s@;
        let ghost first = self@;
        let ghost goal = scanned(first, g, end - 1, end as int, line@, penalty);
        let ghost effort = tally(
            first,
            g,
            end - 1,
            end as int,
            all_live(g),
            line@,
            verdict@,
            penalty,
        );
        let mut live: Vec<bool> = vec![true; s.lines];
        assert(live@ =~= all_live(g));
        let mut index: usize = reachable.len();
        proof {
            let top = top_of(reachable@, index as int);
            assert(lists(reachable@, first, g, end as int));
            lemma_gap(reachable@, first, g, end as int, index as int, end - 1);
            lemma_skip(first, g, top, end - 1, end as int, line@, penalty);
            lemma_skip_tally(
                first,
                g,
                top,
                end - 1,
                end as int,
                live@,
                line@,
                verdict@,
                penalty,
            );
            assert((top + 1) * s.lines <= end * s.lines) by (nonlinear_arith)
                requires
                    top + 1 <= end,
                    s.lines >= 0,
            ;
        }
        while index > 0
            invariant
                s.valid(),
                g == s@,
                first == old(self)@,
                proper(first, g, last@),
                proper(self@, g, last@),
                improves(first, self@, g, end as int),
                0 < end <= last@,
                all_classed(line@, g, last@),
                gives(fit, emergency, line@, g, last@),
                judges(judge, emergency, verdict@, last@),
                safe(verdict@, line@, g, last@, penalty),
                unsigned_lines(line@, g, last@, penalty) ==> unsigned_costs(self.costs@),
                lists(reachable@, first, g, end as int),
                index <= reachable@.len(),
                goal == scanned(first, g, end - 1, end as int, line@, penalty),
                goal == scanned(
                    self@,
                    g,
                    top_of(reachable@, index as int),
                    end as int,
                    line@,
                    penalty,
                ),
                effort == tally(
                    first,
                    g,
                    end - 1,
                    end as int,
                    all_live(g),
                    line@,
                    verdict@,
                    penalty,
                ),
                live@.len() == g.lines(),
                dead_useless(
                    self.costs@,
                    g,
                    top_of(reachable@, index as int) + 1,
                    end as int,
                    live@,
                    line@,
                    penalty,
                ),
                old(self).candidates + effort == self.candidates + tally(
                    self@,
                    g,
                    top_of(reachable@, index as int),
                    end as int,
                    live@,
                    line@,
                    verdict@,
                    penalty,
                ),
                self.candidates + (top_of(reachable@, index as int) + 1) * s.lines <= old(
                    self,
                ).candidates + end * s.lines,
                old(self).candidates + end * s.lines <= usize::MAX,
            decreases index,
        {
            let start: usize = reachable[index - 1];
            let ghost before = self@;
            proof {
                assert(top_of(reachable@, index as int) == start);
                assert((start + 1) * s.lines == start * s.lines + s.lines) by (nonlinear_arith);
                assert(0 <= start * s.lines) by (nonlinear_arith)
                    requires
                        start >= 0,
                        s.lines >= 0,
                ;
                lemma_tried(
                    before,
                    g,
                    last@,
                    start as int,
                    end as int,
                    line@,
                    penalty,
                    g.lines(),
                );
                lemma_fits(before.costs, g, start as int, live@, g.lines());
                lemma_reached_kept(first, before, g, last@, start as int, end as int);
                if unsigned_lines(line@, g, last@, penalty) {
                    lemma_unsigned_tried(
                        before,
                        g,
                        last@,
                        start as int,
                        end as int,
                        line@,
                        penalty,
                        g.lines(),
                    );
                }
            }
            self.attempt(
                s,
                start,
                end,
                &live,
                fit,
                emergency,
                penalty,
                last,
                line,
            );
            let ghost tried_live = live@;
            let ghost now = self@;
            proof {
                assert forall|l: int| 0 <= l < g.lines() && !live@[l] implies #[trigger] useless(
                    now.costs,
                    g,
                    start as int,
                    end as int,
                    l,
                    line@,
                    penalty,
                ) by {
                    assert(useless(before.costs, g, start + 1, end as int, l, line@, penalty));
                    lemma_useless_kept(
                        before,
                        now,
                        g,
                        last@,
                        start + 1,
                        end as int,
                        l,
                        line@,
                        penalty,
                    );
                    lemma_useless_before(
                        now.costs,
                        g,
                        start + 1,
                        start as int,
                        end as int,
                        l,
                        line@,
                        penalty,
                    );
                }
            }
            let v: Verdict = judge(emergency, start, end);
            assert(v == (verdict@)(start as int, end as int));
            let open: bool = self.narrow(s, end, v, &mut live, last);
            proof {
                assert(live@ == still_live(tried_live, v, now.costs, g, end as int));
                assert forall|l: int| 0 <= l < g.lines() && !live@[l] implies #[trigger] useless(
                    now.costs,
                    g,
                    start as int,
                    end as int,
                    l,
                    line@,
                    penalty,
                ) by {
                    if tried_live[l] {
                        assert(shuts(v, now.costs, g, end as int, l));
                        assert(!((verdict@)(start as int, end as int) is Open));
                    }
                }
            }
            if !open {
                proof {
                    lemma_useless(now, g, start as int, start - 1, end as int, line@, penalty);
                    lemma_dead_tally(
                        now,
                        g,
                        start - 1,
                        end as int,
                        live@,
                        line@,
                        verdict@,
                        penalty,
                    );
                }
                return;
            }
            index = index - 1;
            proof {
                let top = top_of(reachable@, index as int);
                lemma_gap(reachable@, first, g, end as int, index as int, start - 1);
                assert forall|k: int| top < k <= start - 1 implies !#[trigger] reached(
                    self.costs@,
                    g.slot(k, 0, 0),
                    g.states() as int,
                ) by {
                    assert(!reached(first.costs, g.slot(k, 0, 0), g.states() as int));
                    lemma_reached_kept(first, self@, g, last@, k, end as int);
                }
                lemma_skip(
                    self@,
                    g,
                    top,
                    start - 1,
                    end as int,
                    line@,
                    penalty,
                );
                lemma_skip_tally(
                    self@,
                    g,
                    top,
                    start - 1,
                    end as int,
                    live@,
                    line@,
                    verdict@,
                    penalty,
                );
                assert forall|l: int| 0 <= l < g.lines() && !live@[l] implies #[trigger] useless(
                    self.costs@,
                    g,
                    top + 1,
                    end as int,
                    l,
                    line@,
                    penalty,
                ) by {
                    lemma_useless_before(
                        self.costs@,
                        g,
                        start as int,
                        top + 1,
                        end as int,
                        l,
                        line@,
                        penalty,
                    );
                }
                assert((top + 1) * s.lines <= start * s.lines) by (nonlinear_arith)
                    requires
                        top + 1 <= start,
                        s.lines >= 0,
                ;
            }
        }
    }

    /// A whole pass over the breaks up to `last`. Reachable breaks are kept in
    /// order; scanning back over them preserves tie-breaking while skipping
    /// those that this pass cannot compose.
    pub fn pass<
        F: Fn(bool, usize, usize, usize) -> Line,
        S: Fn(bool, usize, usize) -> Verdict,
    >(
        &mut self,
        s: &Shape,
        last: usize,
        fit: &F,
        judge: &S,
        emergency: bool,
        penalty: Binary64,
        line: Ghost<spec_fn(int, int, int) -> Line>,
        verdict: Ghost<spec_fn(int, int) -> Verdict>,
    )
        requires
            s.valid(),
            proper(old(self)@, s@, last as nat),
            all_classed(line@, s@, last as nat),
            gives(fit, emergency, line@, s@, last as nat),
            judges(judge, emergency, verdict@, last as nat),
            safe(verdict@, line@, s@, last as nat, penalty),
            2 * old(self).candidates + last * (last + 1) * s.lines <= 2 * usize::MAX,
        ensures
            final(self)@ == passed(old(self)@, s@, last as nat, line@, penalty),
            proper(final(self)@, s@, last as nat),
            final(self).candidates == old(self).candidates + tallied(
                begun(old(self)@, s@),
                s@,
                last as nat,
                line@,
                verdict@,
                penalty,
            ),
            2 * final(self).candidates <= 2 * old(self).candidates + last * (last + 1) * s.lines,
    {
        let ghost g = s@;
        let ghost n = last as nat;
        proof {
            lemma_in_tables(self@, g, n, 0, 0, 0);
            lemma_begun(self@, g, n);
            lemma_slot(g, 0, 0, 0);
            assert(last + 1 <= (last + 1) * g.states()) by (nonlinear_arith)
                requires
                    g.states() >= 1,
                    last >= 0,
            ;
        }
        self.begin(s);
        let ghost first = self@;
        let mut reachable: Vec<usize> = Vec::new();
        reachable.push(0);
        proof {
            lemma_slot(g, 0, 0, 0);
            lemma_slot(g, 0, 0, g.origin());
            assert(first.costs[g.origin()] == Binary64::zero());
            assert(!first.costs[g.origin()].same(Binary64::infinity()));
            assert(reached(first.costs, g.slot(0, 0, 0), g.states() as int));
            assert(lists(reachable@, first, g, 1)) by {
                assert(reachable@[0] == 0);
            }
        }
        let mut end: usize = 1;
        while end <= last
            invariant
                s.valid(),
                g == s@,
                n == last,
                last < usize::MAX,
                1 <= end <= last + 1,
                first == begun(old(self)@, g),
                proper(first, g, n),
                proper(self@, g, n),
                self.candidates == old(self).candidates + tallied(
                    first,
                    g,
                    (end - 1) as nat,
                    line@,
                    verdict@,
                    penalty,
                ),
                unsigned_lines(line@, g, n, penalty) ==> unsigned_costs(self.costs@),
                all_classed(line@, g, n),
                gives(fit, emergency, line@, g, n),
                judges(judge, emergency, verdict@, n),
                safe(verdict@, line@, g, n, penalty),
                2 * old(self).candidates + last * (last + 1) * s.lines <= 2 * usize::MAX,
                self@ == swept(first, g, (end - 1) as nat, line@, penalty),
                lists(reachable@, self@, g, end as int),
            decreases last + 1 - end,
        {
            let ghost before = self@;
            proof {
                let k = (end - 1) as nat;
                lemma_swept(first, g, n, k, line@, penalty);
                lemma_tallied(first, g, k, line@, verdict@, penalty);
                if unsigned_lines(line@, g, n, penalty) {
                    lemma_unsigned_scanned(before, g, n, end - 1, end as int, line@, penalty);
                }
                assert(k * (k + 1) * s.lines + 2 * (end * s.lines) <= last * (last + 1) * s.lines)
                    by (nonlinear_arith)
                    requires
                        end == k + 1,
                        end <= last,
                        s.lines >= 0,
                ;
                lemma_scanned(before, g, n, end - 1, end as int, line@, penalty);
            }
            self.scan(
                s,
                end,
                &reachable,
                fit,
                judge,
                emergency,
                penalty,
                Ghost(n),
                line,
                verdict,
            );
            proof {
                lemma_in_tables(self@, g, n, end as int, 0, 0);
                lemma_slot(g, end as int, 0, 0);
                assert forall|k: int| 0 <= k < end implies #[trigger] reached(
                    self.costs@,
                    g.slot(k, 0, 0),
                    g.states() as int,
                ) == reached(before.costs, g.slot(k, 0, 0), g.states() as int) by {
                    lemma_reached_kept(before, self@, g, n, k, end as int);
                }
            }
            let base: usize = s.slot(end, 0, 0, Ghost(n));
            let ghost kept = reachable@;
            if any_finite(&self.costs, base, s.states) {
                reachable.push(end);
                proof {
                    lemma_lists_push(kept, before, self@, g, end as int);
                }
            } else {
                proof {
                    lemma_lists_skip(kept, before, self@, g, end as int);
                }
            }
            end = end + 1;
        }
        proof {
            lemma_swept(first, g, n, n, line@, penalty);
            lemma_tallied(first, g, n, line@, verdict@, penalty);
        }
    }
}

/// The executable `judge` decides as `verdict` does.
pub open spec fn judges<S: Fn(bool, usize, usize) -> Verdict>(
    judge: &S,
    emergency: bool,
    verdict: spec_fn(int, int) -> Verdict,
    last: nat,
) -> bool {
    &&& forall|start: usize, end: usize|
        start < end <= last ==> #[trigger] judge.requires((emergency, start, end))
    &&& forall|start: usize, end: usize, v: Verdict|
        start < end <= last && #[trigger] judge.ensures((emergency, start, end), v) ==> v
            == verdict(start as int, end as int)
}

/// `reachable` lists the breaks before `end` that are reached, in order.
pub open spec fn lists(reachable: Seq<usize>, s: Search, g: Grid, end: int) -> bool {
    &&& forall|i: int, j: int|
        0 <= i < j < reachable.len() ==> (#[trigger] reachable[i]) < #[trigger] reachable[j]
    &&& forall|i: int| 0 <= i < reachable.len() ==> 0 <= #[trigger] reachable[i] < end
    &&& forall|i: int|
        0 <= i < reachable.len() ==> reached(
            s.costs,
            g.slot(#[trigger] reachable[i] as int, 0, 0),
            g.states() as int,
        )
    &&& forall|k: int|
        0 <= k < end && #[trigger] reached(s.costs, g.slot(k, 0, 0), g.states() as int)
            ==> exists|i: int| 0 <= i < reachable.len() && #[trigger] reachable[i] == k
}

/// The last of the first `index` listed breaks.
pub open spec fn top_of(reachable: Seq<usize>, index: int) -> int {
    if index <= 0 {
        -1
    } else {
        reachable[index - 1] as int
    }
}

/// Between two listed breaks none is reached.
proof fn lemma_gap(reachable: Seq<usize>, s: Search, g: Grid, end: int, index: int, high: int)
    requires
        lists(reachable, s, g, end),
        0 <= index <= reachable.len(),
        0 <= end,
        high < end,
        index < reachable.len() ==> high < reachable[index],
    ensures
        -1 <= top_of(reachable, index) < end,
        forall|k: int|
            top_of(reachable, index) < k <= high ==> !#[trigger] reached(
                s.costs,
                g.slot(k, 0, 0),
                g.states() as int,
            ),
{
    let top = top_of(reachable, index);
    assert forall|k: int| top < k <= high implies !#[trigger] reached(
        s.costs,
        g.slot(k, 0, 0),
        g.states() as int,
    ) by {
        if reached(s.costs, g.slot(k, 0, 0), g.states() as int) {
            let i = choose|i: int| 0 <= i < reachable.len() && #[trigger] reachable[i] == k;
            if i < index - 1 {
                assert(reachable[i] < reachable[index - 1]);
            } else if i > index {
                assert(reachable[index] < reachable[i]);
            }
        }
    }
}

/// Listing a break that was just reached.
proof fn lemma_lists_push(reachable: Seq<usize>, s: Search, t: Search, g: Grid, end: int)
    requires
        lists(reachable, s, g, end),
        0 <= end <= usize::MAX,
        reached(t.costs, g.slot(end, 0, 0), g.states() as int),
        forall|k: int|
            0 <= k < end ==> #[trigger] reached(t.costs, g.slot(k, 0, 0), g.states() as int)
                == reached(s.costs, g.slot(k, 0, 0), g.states() as int),
    ensures
        lists(reachable.push(end as usize), t, g, end + 1),
{
    let more = reachable.push(end as usize);
    assert forall|k: int|
        0 <= k < end + 1 && #[trigger] reached(
            t.costs,
            g.slot(k, 0, 0),
            g.states() as int,
        ) implies exists|i: int| 0 <= i < more.len() && #[trigger] more[i] == k by {
        if k == end {
            assert(more[reachable.len() as int] == k);
        } else {
            let i = choose|i: int| 0 <= i < reachable.len() && #[trigger] reachable[i] == k;
            assert(more[i] == k);
        }
    }
}

/// Passing by a break that is not reached.
proof fn lemma_lists_skip(reachable: Seq<usize>, s: Search, t: Search, g: Grid, end: int)
    requires
        lists(reachable, s, g, end),
        !reached(t.costs, g.slot(end, 0, 0), g.states() as int),
        forall|k: int|
            0 <= k < end ==> #[trigger] reached(t.costs, g.slot(k, 0, 0), g.states() as int)
                == reached(s.costs, g.slot(k, 0, 0), g.states() as int),
    ensures
        lists(reachable, t, g, end + 1),
{
}

/// The executable `fit` computes the lines of `line`.
pub open spec fn gives<F: Fn(bool, usize, usize, usize) -> Line>(
    fit: &F,
    emergency: bool,
    line: spec_fn(int, int, int) -> Line,
    g: Grid,
    last: nat,
) -> bool {
    &&& forall|a: usize, b: usize, l: usize|
        a < b <= last && l < g.lines() ==> #[trigger] fit.requires((emergency, a, b, l))
    &&& forall|a: usize, b: usize, l: usize, r: Line|
        a < b <= last && l < g.lines() && #[trigger] fit.ensures(
            (emergency, a, b, l),
            r,
        ) ==> r == line(
            a as int,
            b as int,
            l as int,
        )
}

/// What a search in at most two passes has found, and whether it took the
/// second one: ordinary fitting, then relaxed stretch scoring if necessary.
pub open spec fn outcome(
    g: Grid,
    last: nat,
    line: spec_fn(bool) -> spec_fn(int, int, int) -> Line,
    penalty: Binary64,
) -> (Search, bool) {
    let first = passed(blank(g, last), g, last, line(false), penalty);
    if viable(first, g, last) {
        (first, false)
    } else {
        (passed(first, g, last, line(true), penalty), true)
    }
}

/// The lines that a search in at most two passes fits.
pub open spec fn effort(
    g: Grid,
    last: nat,
    line: spec_fn(bool) -> spec_fn(int, int, int) -> Line,
    verdict: spec_fn(bool) -> spec_fn(int, int) -> Verdict,
    penalty: Binary64,
) -> nat {
    let empty = blank(g, last);
    let first = passed(empty, g, last, line(false), penalty);
    let once = tallied(begun(empty, g), g, last, line(false), verdict(false), penalty);
    if viable(first, g, last) {
        once
    } else {
        once + tallied(begun(first, g), g, last, line(true), verdict(true), penalty)
    }
}

/// The cheapest of all sequences of lines.
pub open spec fn cheapest_lines(
    g: Grid,
    last: nat,
    line: spec_fn(bool) -> spec_fn(int, int, int) -> Line,
    penalty: Binary64,
) -> Seq<Line> {
    let (s, emergency) = outcome(g, last, line, penalty);
    lines_to(s, g, terminal(s, g, last), line(emergency), penalty)
}

/// The cost of the cheapest of all sequences of lines.
pub open spec fn least_cost(
    g: Grid,
    last: nat,
    line: spec_fn(bool) -> spec_fn(int, int, int) -> Line,
    penalty: Binary64,
) -> Binary64 {
    let s = outcome(g, last, line, penalty).0;
    s.costs[terminal(s, g, last)]
}

/// The layout that a search leads to: the cheapest of all sequences of lines,
/// and the number of lines that are fitted to find it.
pub open spec fn solution(
    g: Grid,
    last: nat,
    line: spec_fn(bool) -> spec_fn(int, int, int) -> Line,
    verdict: spec_fn(bool) -> spec_fn(int, int) -> Verdict,
    penalty: Binary64,
) -> Solution {
    Solution {
        lines: cheapest_lines(g, last, line, penalty),
        cost: least_cost(g, last, line, penalty),
        candidates: effort(g, last, line, verdict, penalty),
    }
}

/// The machine can number the slots of a search and count its candidates.
pub open spec fn countable(g: Grid, last: nat) -> bool {
    &&& (last + 1) * g.states() <= usize::MAX
    &&& last * (last + 1) * g.lines() <= usize::MAX
}

impl Table {
    /// The lines that lead to a slot.
    fn lines<F: Fn(bool, usize, usize, usize) -> Line>(
        &self,
        s: &Shape,
        slot: usize,
        fit: &F,
        emergency: bool,
        penalty: Binary64,
        last: Ghost<nat>,
        line: Ghost<spec_fn(int, int, int) -> Line>,
    ) -> (r: Vec<Line>)
        requires
            s.valid(),
            proper(self@, s@, last@),
            slot < self.costs@.len(),
            all_classed(line@, s@, last@),
            gives(fit, emergency, line@, s@, last@),
        ensures
            r@ == lines_to(self@, s@, slot as int, line@, penalty),
    {
        let ghost g = s@;
        let mut back: Vec<Line> = Vec::new();
        let mut at: usize = slot;
        assert(lines_to(self@, g, at as int, line@, penalty) + back@.reverse() =~= lines_to(
            self@,
            g,
            slot as int,
            line@,
            penalty,
        ));
        while at >= s.states
            invariant
                s.valid(),
                g == s@,
                proper(self@, g, last@),
                at < self.costs@.len(),
                all_classed(line@, g, last@),
                gives(fit, emergency, line@, g, last@),
                lines_to(self@, g, at as int, line@, penalty) + back@.reverse() == lines_to(
                    self@,
                    g,
                    slot as int,
                    line@,
                    penalty,
                ),
            decreases at,
        {
            let source: usize = self.previous[at];
            proof {
                lemma_node_order(g, source as int, at as int);
                lemma_slot_of(g, source as int);
                lemma_slot_of(g, at as int);
                let q = g.node_of(at as int);
                assert(q <= last@) by (nonlinear_arith)
                    requires
                        q * g.states() <= at,
                        at < (last@ + 1) * g.states(),
                ;
            }
            let start: usize = source / s.states;
            let end: usize = at / s.states;
            let l: usize = (source % s.states) / s.fitnesses;
            let fitness: usize = source % s.fitnesses;
            let mut one: Line = fit(emergency, start, end, l);
            assert(one == (line@)(start as int, end as int, l as int));
            if clash(start, fitness, &one) {
                one.cost = one.cost + penalty;
            }
            assert(one == line_to(self@, g, at as int, line@, penalty));
            let ghost before = back@;
            back.push(one);
            proof {
                let head = lines_to(self@, g, source as int, line@, penalty);
                assert(lines_to(self@, g, at as int, line@, penalty) == head.push(one));
                assert(head + before.push(one).reverse() =~= head.push(one) + before.reverse());
            }
            at = source;
        }
        let mut r: Vec<Line> = Vec::new();
        let n: usize = back.len();
        let mut i: usize = 0;
        while i < n
            invariant
                n == back@.len(),
                i <= n,
                r@ == back@.reverse().take(i as int),
            decreases n - i,
        {
            r.push(back[n - 1 - i]);
            i = i + 1;
            assert(r@ =~= back@.reverse().take(i as int));
        }
        assert(lines_to(self@, g, at as int, line@, penalty) =~= seq![]);
        assert(r@ =~= lines_to(self@, g, slot as int, line@, penalty));
        r
    }
}

/// Searches for the cheapest breaks up to `last`, in at most two passes.
pub fn search<
    F: Fn(bool, usize, usize, usize) -> Line,
    S: Fn(bool, usize, usize) -> Verdict,
>(
    s: &Shape,
    last: usize,
    fit: &F,
    judge: &S,
    penalty: Binary64,
    line: Ghost<spec_fn(bool) -> spec_fn(int, int, int) -> Line>,
    verdict: Ghost<spec_fn(bool) -> spec_fn(int, int) -> Verdict>,
) -> (layout: Layout)
    requires
        s.valid(),
        countable(s@, last as nat),
        forall|e: bool| all_classed(#[trigger] (line@)(e), s@, last as nat),
        forall|e: bool| gives(fit, e, #[trigger] (line@)(e), s@, last as nat),
        forall|e: bool| judges(judge, e, #[trigger] (verdict@)(e), last as nat),
        forall|e: bool| safe(#[trigger] (verdict@)(e), (line@)(e), s@, last as nat, penalty),
    ensures
        layout@ == solution(s@, last as nat, line@, verdict@, penalty),
{
    let ghost g = s@;
    let ghost n = last as nat;
    proof {
        lemma_slot(g, 0, 0, 0);
        assert(last + 1 <= (last + 1) * g.states()) by (nonlinear_arith)
            requires
                g.states() >= 1,
                last >= 0,
        ;
    }
    let mut t: Table = Table::new(s, last);
    proof {
        lemma_blank(g, n);
    }
    t.pass(s, last, fit, judge, false, penalty, Ghost((line@)(false)), Ghost((verdict@)(false)));
    proof {
        lemma_in_tables(t@, g, n, last as int, 0, 0);
        lemma_slot(g, last as int, 0, 0);
    }
    let end: usize = s.slot(last, 0, 0, Ghost(n));
    let mut emergency: bool = false;
    if !any_finite(&t.costs, end, s.states) {
        emergency = true;
        t.pass(s, last, fit, judge, true, penalty, Ghost((line@)(true)), Ghost((verdict@)(true)));
    }
    let slot: usize = cheapest(&t.costs, end);
    let lines: Vec<Line> = t.lines(
        s,
        slot,
        fit,
        emergency,
        penalty,
        Ghost(n),
        Ghost((line@)(emergency)),
    );
    Layout { lines, cost: t.costs[slot], candidates: t.candidates }
}

/// Empty tables are proper.
pub proof fn lemma_blank(g: Grid, last: nat)
    requires
        g.valid(),
        (last + 1) * g.states() <= usize::MAX,
    ensures
        proper(blank(g, last), g, last),
{
    let s = blank(g, last);
    lemma_slot(g, 0, 0, 0);
    lemma_slot(g, 1, 0, 0);
    assert forall|i: int| g.states() <= i < s.previous.len() implies g.node_of(
        #[trigger] s.previous[i] as int,
    ) < g.node_of(i) by {
        lemma_slot_of(g, i);
        lemma_slot_of(g, 0);
        let q = g.node_of(i);
        assert(q > 0) by (nonlinear_arith)
            requires
                i < q * g.states() + g.states(),
                i >= g.states(),
                q >= 0,
        ;
        let z = g.node_of(0);
        assert(z == 0) by (nonlinear_arith)
            requires
                z * g.states() <= 0,
                z >= 0,
                g.states() >= 1,
        ;
    }
}

}
