//! What holds of every layout.

use crate::binary64::Binary64;
use crate::fragments::{boundary, lemma_boundary_index, ordered};
use crate::gauge::{index_at, lemma_index_at, slice};
use crate::hyphenated::{
    describes, inside, last_word, lemma_described, lemma_nodes, nodes_of, precedes, whole, Node,
};
use crate::hyphenation::sliced;
use crate::model::{Line, Options, Paragraph};
use crate::optimum::{
    charged, charged_lines, class_at, is_path, leg, lemma_same_costs, lemma_solution_optimal,
    lemma_solution_path, measure_at, path_cost, total,
};
use crate::render::{bytes, cut, renderable, rest, shown, spaced};
use crate::search::{all_classed, lemma_slot, Grid};
use crate::solve::{best_layout, last_break, layout_lines, refusal, solvable};
use crate::solver::outcome;
use crate::text::{lemma_offset_monotone, lemma_offset_within, offset};
use vstd::prelude::*;

verus! {

/// A request that can be answered: the paragraph is well formed, the widths
/// and the policy are accepted, and the search stays within machine numbers.
pub open spec fn accepted(p: Paragraph, widths: Seq<Binary64>, o: Options) -> bool {
    &&& p.valid()
    &&& refusal(widths, o) is None
    &&& solvable(p, widths, o)
}

/// True when ordinary fitting has failed and the layout is that of the second
/// pass.
pub open spec fn emergency(p: Paragraph, widths: Seq<Binary64>, o: Options) -> bool {
    outcome(
        Grid::of(widths, o),
        last_break(p),
        layout_lines(p, widths, o),
        o.adjacent_penalty,
    ).1
}

/// The lines among which the layout of a paragraph chooses.
pub open spec fn choices(p: Paragraph, widths: Seq<Binary64>, o: Options) -> spec_fn(
    int,
    int,
    int,
) -> Line {
    layout_lines(p, widths, o)(emergency(p, widths, o))
}

/// What breaking a paragraph at `breaks` costs.
pub open spec fn cost_of(
    p: Paragraph,
    widths: Seq<Binary64>,
    o: Options,
    breaks: Seq<int>,
) -> Binary64 {
    path_cost(Grid::of(widths, o), choices(p, widths, o), o.adjacent_penalty, breaks)
}

/// The lines of breaking a paragraph at `breaks`.
pub open spec fn lines_of(
    p: Paragraph,
    widths: Seq<Binary64>,
    o: Options,
    breaks: Seq<int>,
) -> Seq<Line> {
    charged_lines(Grid::of(widths, o), choices(p, widths, o), o.adjacent_penalty, breaks)
}

/// The grid of an accepted request, and its lines.
pub proof fn lemma_accepted(p: Paragraph, widths: Seq<Binary64>, o: Options)
    requires
        accepted(p, widths, o),
    ensures
        Grid::of(widths, o).valid(),
        (last_break(p) + 1) * Grid::of(widths, o).states() <= usize::MAX,
        last_break(p) < usize::MAX,
        forall|e: bool|
            all_classed(
                #[trigger] layout_lines(p, widths, o)(e),
                Grid::of(widths, o),
                last_break(p),
            ),
{
    let g = Grid::of(widths, o);
    let n = last_break(p);
    lemma_slot(g, 0, 0, 0);
    assert(n + 1 <= (n + 1) * g.states()) by (nonlinear_arith)
        requires
            g.states() >= 1,
            n >= 0,
    ;
    assert forall|e: bool| all_classed(#[trigger] layout_lines(p, widths, o)(e), g, n) by {}
}

/// A layout is made of the lines of a sequence of breaks from the start of the
/// paragraph to its end, and its cost is their sum with the cost of clashes;
/// where nothing can be composed, the cost is infinite and the layout is one
/// line.
pub proof fn law_layout_breaks(p: Paragraph, widths: Seq<Binary64>, o: Options) -> (breaks: Seq<
    int,
>)
    requires
        accepted(p, widths, o),
    ensures
        is_path(breaks, last_break(p) as int),
        best_layout(p, widths, o).lines == lines_of(p, widths, o, breaks),
        best_layout(p, widths, o).cost == cost_of(p, widths, o, breaks) || (best_layout(
            p,
            widths,
            o,
        ).cost.same(Binary64::infinity()) && breaks == seq![0, last_break(p) as int]),
{
    lemma_accepted(p, widths, o);
    lemma_solution_path(
        Grid::of(widths, o),
        last_break(p),
        layout_lines(p, widths, o),
        o.adjacent_penalty,
    )
}

/// A layout is optimal: no sequence of breaks costs less within the pass that
/// decides.
pub proof fn law_layout_optimal(
    p: Paragraph,
    widths: Seq<Binary64>,
    o: Options,
    breaks: Seq<int>,
)
    requires
        accepted(p, widths, o),
        is_path(breaks, last_break(p) as int),
    ensures
        !cost_of(p, widths, o, breaks).lt(best_layout(p, widths, o).cost),
{
    lemma_accepted(p, widths, o);
    lemma_solution_optimal(
        Grid::of(widths, o),
        last_break(p),
        layout_lines(p, widths, o),
        o.adjacent_penalty,
        breaks,
    );
}

/// The break with number `i`.
pub open spec fn node_at(p: Paragraph, i: int) -> Node {
    if p.breakable() {
        nodes_of(p)[i]
    } else {
        whole(i)
    }
}

/// A line runs from one break to another.
pub open spec fn runs(p: Paragraph, line: Line, a: Node, b: Node) -> bool {
    &&& line.start == a.word
    &&& line.start_offset == inside(a.offset)
    &&& line.end == last_word(b) + 1
    &&& line.end_offset == inside(b.offset)
    &&& line.start < line.end <= p.words.len()
}

/// Where a line runs, and what it is fitted to.
proof fn lemma_choice(
    p: Paragraph,
    widths: Seq<Binary64>,
    o: Options,
    e: bool,
    a: int,
    b: int,
    l: int,
)
    requires
        p.valid(),
        0 <= a < b <= last_break(p) < usize::MAX,
    ensures
        runs(p, layout_lines(p, widths, o)(e)(a, b, l), node_at(p, a), node_at(p, b)),
        layout_lines(p, widths, o)(e)(a, b, l).width == widths[l],
        layout_lines(p, widths, o)(e)(a, b, l).last == (b == last_break(p)),
{
    if p.breakable() {
        let nodes = nodes_of(p);
        lemma_nodes(p, p.words.len());
        assert(precedes(nodes[a], nodes[b]));
        assert(describes(p, nodes[a]));
        assert(describes(p, nodes[b]));
        lemma_described(p, nodes[a]);
        lemma_described(p, nodes[b]);
    }
}

/// The first and the last break of a paragraph, and those between.
proof fn lemma_ends(p: Paragraph)
    requires
        p.valid(),
    ensures
        node_at(p, 0) == whole(0),
        node_at(p, last_break(p) as int) == whole(p.words.len() as int),
        last_break(p) == 0 <==> p.words.len() == 0,
        forall|i: int|
            0 <= i <= last_break(p) < usize::MAX ==> describes(p, #[trigger] node_at(p, i)),
{
    lemma_nodes(p, p.words.len());
}

/// Where line `i` of a sequence of breaks runs, and what it is fitted to.
proof fn lemma_line(p: Paragraph, widths: Seq<Binary64>, o: Options, breaks: Seq<int>, i: int)
    requires
        accepted(p, widths, o),
        is_path(breaks, last_break(p) as int),
        0 <= i < breaks.len() - 1,
    ensures
        ({
            let line = lines_of(p, widths, o, breaks)[i];
            let (a, b) = (node_at(p, breaks[i]), node_at(p, breaks[i + 1]));
            &&& runs(p, line, a, b)
            &&& line.width == widths[measure_at(Grid::of(widths, o), i)]
            &&& line.last == (i == breaks.len() - 2)
            &&& describes(p, a)
            &&& describes(p, b)
            &&& precedes(a, b)
            &&& i > 0 ==> a.word > 0 || a.offset > 0
        }),
{
    lemma_accepted(p, widths, o);
    lemma_ends(p);
    let g = Grid::of(widths, o);
    let n = breaks.len() - 1;
    let line = lines_of(p, widths, o, breaks)[i];
    assert(line == charged(g, choices(p, widths, o), o.adjacent_penalty, breaks, i));
    assert(breaks[0] <= breaks[i] < breaks[i + 1] <= breaks[n]);
    lemma_choice(
        p,
        widths,
        o,
        emergency(p, widths, o),
        breaks[i],
        breaks[i + 1],
        measure_at(g, i),
    );
    let (a, b) = (node_at(p, breaks[i]), node_at(p, breaks[i + 1]));
    assert(describes(p, a) && describes(p, b));
    lemma_described(p, a);
    if p.breakable() {
        lemma_nodes(p, p.words.len());
        assert(precedes(nodes_of(p)[breaks[i]], nodes_of(p)[breaks[i + 1]]));
        if i > 0 {
            assert(precedes(nodes_of(p)[0], nodes_of(p)[breaks[i]]));
        }
    }
    if i + 1 < n {
        assert(breaks[i + 1] < breaks[n]);
    }
    if i > 0 {
        assert(breaks[0] < breaks[i]);
    }
}

/// Line `b` goes on where line `a` ends: at the next word, or inside the same
/// word.
pub open spec fn continues(a: Line, b: Line) -> bool {
    &&& a.end_offset == b.start_offset
    &&& b.start == if a.end_offset is Some {
        a.end - 1
    } else {
        a.end as int
    }
}

/// The lines of a layout cover the words from the first to the last, without
/// gaps or overlaps. Line after line takes the next measure, and the last one
/// repeats. Only the last line is marked so.
pub proof fn law_lines_tile(p: Paragraph, widths: Seq<Binary64>, o: Options)
    requires
        accepted(p, widths, o),
    ensures
        ({
            let lines = best_layout(p, widths, o).lines;
            let n = lines.len() as int;
            &&& n == 0 <==> p.words.len() == 0
            &&& n > 0 ==> lines[0].start == 0 && lines[0].start_offset is None
            &&& n > 0 ==> lines[n - 1].end == p.words.len() && lines[n - 1].end_offset is None
            &&& forall|i: int|
                0 <= i < n ==> #[trigger] lines[i].width == widths[measure_at(
                    Grid::of(widths, o),
                    i,
                )]
            &&& forall|i: int| 0 <= i < n ==> #[trigger] lines[i].last == (i == n - 1)
            &&& forall|i: int|
                0 <= i < n ==> (#[trigger] lines[i]).start < lines[i].end <= p.words.len()
            &&& forall|i: int| 0 <= i < n - 1 ==> #[trigger] continues(lines[i], lines[i + 1])
        }),
{
    lemma_accepted(p, widths, o);
    lemma_ends(p);
    let breaks = law_layout_breaks(p, widths, o);
    let lines = best_layout(p, widths, o).lines;
    let n = lines.len() as int;
    assert(breaks.len() == n + 1);
    assert forall|i: int| 0 <= i < n implies runs(
        p,
        #[trigger] lines[i],
        node_at(p, breaks[i]),
        node_at(p, breaks[i + 1]),
    ) && lines[i].width == widths[measure_at(Grid::of(widths, o), i)] && lines[i].last == (i == n
        - 1) by {
        lemma_line(p, widths, o, breaks, i);
    }
    assert forall|i: int| 0 <= i < n - 1 implies #[trigger] continues(lines[i], lines[i + 1]) by {
        let b = node_at(p, breaks[i + 1]);
        lemma_line(p, widths, o, breaks, i);
        lemma_described(p, b);
        assert(runs(p, lines[i + 1], b, node_at(p, breaks[i + 2])));
    }
    if n == 0 {
        assert(breaks[0] == breaks[n]);
    } else {
        assert(breaks[0] < breaks[n]);
        assert(runs(p, lines[0], node_at(p, breaks[0]), node_at(p, breaks[1])));
        assert(runs(p, lines[n - 1], node_at(p, breaks[n - 1]), node_at(p, breaks[n])));
    }
}

/// Every line of a layout can be rendered: its offsets lie between characters.
pub proof fn law_lines_renderable(p: Paragraph, widths: Seq<Binary64>, o: Options)
    requires
        accepted(p, widths, o),
        sliced(p),
    ensures
        forall|i: int|
            0 <= i < best_layout(p, widths, o).lines.len() ==> renderable(
                p,
                #[trigger] best_layout(p, widths, o).lines[i],
            ),
{
    let breaks = law_layout_breaks(p, widths, o);
    let lines = best_layout(p, widths, o).lines;
    assert(breaks.len() == lines.len() + 1);
    assert forall|i: int| 0 <= i < lines.len() implies renderable(p, #[trigger] lines[i]) by {
        lemma_line(p, widths, o, breaks, i);
        lemma_runs_renderable(
            p,
            lines[i],
            node_at(p, breaks[i]),
            node_at(p, breaks[i + 1]),
        );
    }
}

/// A line between two breaks can be rendered.
proof fn lemma_runs_renderable(p: Paragraph, line: Line, a: Node, b: Node)
    requires
        p.valid(),
        sliced(p),
        describes(p, a),
        describes(p, b),
        precedes(a, b),
        runs(p, line, a, b),
    ensures
        renderable(p, line),
{
    lemma_described(p, a);
    lemma_described(p, b);
    let last = p.words[line.end - 1];
    if b.offset > 0 {
        let f = p.fragments_of(b.word as int)->0;
        assert(ordered(last, f.offsets));
        assert(boundary(last, f.offsets[b.part as int] as int));
    }
    if a.offset > 0 {
        let f = p.fragments_of(a.word as int)->0;
        let word = p.words[a.word as int];
        assert(ordered(word, f.offsets));
        assert(boundary(word, f.offsets[a.part as int] as int));
        if line.start == line.end - 1 && b.offset > 0 {
            assert(f.offsets[a.part as int] < f.offsets[b.part as int]);
            lemma_prefix_boundary(word, a.offset as int, b.offset as int);
        }
    }
}

/// A boundary before a cut stays one.
proof fn lemma_prefix_boundary(word: Seq<char>, at: int, end: int)
    requires
        boundary(word, at),
        boundary(word, end),
        at < end,
    ensures
        boundary(slice(word, 0, end), at),
{
    let (i, j) = (index_at(word, at), index_at(word, end));
    lemma_boundary_index(word, at);
    lemma_boundary_index(word, end);
    lemma_index_at(word, 0);
    assert(offset(word, 0) == 0);
    if j < i {
        lemma_offset_monotone(word, j, i);
    }
    lemma_offset_within(word, 0, j, i);
    assert(offset(slice(word, 0, end), i) == at);
}

/// The first `k` words, joined by single spaces.
pub open spec fn sentence(p: Paragraph, k: nat) -> Seq<char>
    decreases k,
{
    if k == 0 {
        seq![]
    } else if k == 1 {
        p.words[0]
    } else {
        sentence(p, (k - 1) as nat) + seq![' '] + p.words[k - 1]
    }
}

/// What the first `k` lines show of the source, without generated hyphens; a
/// line that begins with a whole word is preceded by a space.
pub open spec fn source_of(p: Paragraph, lines: Seq<Line>, k: nat) -> Seq<char>
    decreases k,
{
    if k == 0 {
        seq![]
    } else {
        let line = lines[k - 1];
        let text = spaced(p, line, line.end as int);
        if k == 1 || line.start_offset is Some {
            source_of(p, lines, (k - 1) as nat) + text
        } else {
            source_of(p, lines, (k - 1) as nat) + seq![' '] + text
        }
    }
}

/// The words before a word, and the space behind them.
spec fn lead(p: Paragraph, word: nat) -> Seq<char> {
    if word == 0 {
        seq![]
    } else {
        sentence(p, word) + seq![' ']
    }
}

/// The source up to a break.
spec fn source_to(p: Paragraph, b: Node) -> Seq<char> {
    if b.offset == 0 {
        sentence(p, b.word as nat)
    } else {
        lead(p, b.word as nat) + slice(p.words[b.word as int], 0, b.offset as int)
    }
}

/// What stands before a line: the source up to it, and a space before a word.
spec fn before_line(p: Paragraph, a: Node) -> Seq<char> {
    if a.offset == 0 {
        lead(p, a.word as nat)
    } else {
        source_to(p, a)
    }
}

/// The two sides of a boundary make up the word.
proof fn lemma_halves(word: Seq<char>, at: int)
    requires
        boundary(word, at),
    ensures
        slice(word, 0, at) + slice(word, at, bytes(word) as int) == word,
{
    lemma_boundary_index(word, at);
    lemma_index_at(word, 0);
    lemma_index_at(word, word.len() as int);
    assert(offset(word, 0) == 0);
    assert(slice(word, 0, at) + slice(word, at, bytes(word) as int) =~= word);
}

/// A cut word up to one boundary and on to another.
proof fn lemma_middle(word: Seq<char>, at: int, end: int)
    requires
        boundary(word, at),
        boundary(word, end),
        at < end,
    ensures
        slice(word, 0, at) + slice(
            slice(word, 0, end),
            at,
            bytes(slice(word, 0, end)) as int,
        ) == slice(word, 0, end),
{
    let (i, j) = (index_at(word, at), index_at(word, end));
    lemma_boundary_index(word, at);
    lemma_boundary_index(word, end);
    lemma_index_at(word, 0);
    assert(offset(word, 0) == 0);
    if j < i {
        lemma_offset_monotone(word, j, i);
    }
    let head = slice(word, 0, end);
    assert(head =~= word.take(j));
    lemma_offset_within(word, 0, j, i);
    assert(word.subrange(0, j) =~= head);
    assert(offset(head, i) == at);
    lemma_index_at(head, i);
    lemma_index_at(head, j);
    assert(slice(word, 0, at) + slice(head, at, bytes(head) as int) =~= head);
}

/// A line shows the words up to one that it does not cut.
proof fn lemma_line_words(p: Paragraph, line: Line, a: Node, b: Node, end: int)
    requires
        p.valid(),
        sliced(p),
        describes(p, a),
        describes(p, b),
        precedes(a, b),
        runs(p, line, a, b),
        line.start < end < line.end || (end == line.end && b.offset == 0),
    ensures
        before_line(p, a) + spaced(p, line, end) == sentence(p, end as nat),
    decreases end,
{
    lemma_described(p, a);
    lemma_described(p, b);
    let word = p.words[line.start as int];
    if end == line.start + 1 {
        assert(shown(p, line, line.start as int) == rest(word, line.start_offset));
        if a.offset > 0 {
            let f = p.fragments_of(a.word as int)->0;
            assert(ordered(word, f.offsets));
            assert(boundary(word, f.offsets[a.part as int] as int));
            lemma_halves(word, a.offset as int);
            let x = slice(word, 0, a.offset as int);
            let y = slice(word, a.offset as int, bytes(word) as int);
            assert(lead(p, a.word as nat) + x + y =~= lead(p, a.word as nat) + (x + y));
        }
        assert(before_line(p, a) + spaced(p, line, end) =~= lead(p, a.word as nat) + word);
        assert(lead(p, a.word as nat) + word =~= sentence(p, end as nat));
    } else {
        lemma_line_words(p, line, a, b, end - 1);
        let so_far = spaced(p, line, end - 1);
        assert(shown(p, line, end - 1) == p.words[end - 1]);
        assert(before_line(p, a) + (so_far + seq![' '] + p.words[end - 1]) =~= (before_line(p, a)
            + so_far) + seq![' '] + p.words[end - 1]);
    }
}

/// A line continues the source.
proof fn lemma_line_source(p: Paragraph, line: Line, a: Node, b: Node)
    requires
        p.valid(),
        sliced(p),
        describes(p, a),
        describes(p, b),
        precedes(a, b),
        runs(p, line, a, b),
    ensures
        before_line(p, a) + spaced(p, line, line.end as int) == source_to(p, b),
{
    lemma_described(p, a);
    lemma_described(p, b);
    let end = line.end as int;
    if b.offset == 0 {
        lemma_line_words(p, line, a, b, end);
    } else {
        let word = p.words[end - 1];
        let f = p.fragments_of(b.word as int)->0;
        assert(ordered(word, f.offsets));
        assert(boundary(word, f.offsets[b.part as int] as int));
        let head = slice(word, 0, b.offset as int);
        lemma_cut(word, b.offset);
        if end == line.start + 1 {
            if a.offset > 0 {
                assert(boundary(word, f.offsets[a.part as int] as int));
                assert(f.offsets[a.part as int] < f.offsets[b.part as int]);
                lemma_middle(word, a.offset as int, b.offset as int);
                let x = slice(word, 0, a.offset as int);
                let y = slice(head, a.offset as int, bytes(head) as int);
                assert(lead(p, a.word as nat) + x + y =~= lead(p, a.word as nat) + (x + y));
            }
        } else {
            lemma_line_words(p, line, a, b, end - 1);
            let so_far = spaced(p, line, end - 1);
            assert(shown(p, line, end - 1) == head);
            assert(before_line(p, a) + (so_far + seq![' '] + head) =~= (before_line(p, a) + so_far)
                + seq![' '] + head);
        }
    }
}

/// A boundary cuts a word there, or not at all at its end.
proof fn lemma_cut(word: Seq<char>, at: usize)
    requires
        boundary(word, at as int),
    ensures
        cut(word, Some(at)) == slice(word, 0, at as int),
{
    lemma_boundary_index(word, at as int);
    let i = index_at(word, at as int);
    lemma_offset_monotone(word, i, word.len() as int);
    if at >= bytes(word) {
        lemma_index_at(word, word.len() as int);
        lemma_index_at(word, 0);
        assert(offset(word, 0) == 0);
        assert(slice(word, 0, at as int) =~= word);
    }
}

/// A layout changes nothing in the source: put together, its lines show the
/// words of the paragraph, joined by single spaces.
pub proof fn law_source_unchanged(p: Paragraph, widths: Seq<Binary64>, o: Options)
    requires
        accepted(p, widths, o),
        sliced(p),
    ensures
        source_of(
            p,
            best_layout(p, widths, o).lines,
            best_layout(p, widths, o).lines.len(),
        ) == sentence(p, p.words.len()),
{
    lemma_accepted(p, widths, o);
    lemma_ends(p);
    let breaks = law_layout_breaks(p, widths, o);
    let lines = best_layout(p, widths, o).lines;
    lemma_source_to(p, widths, o, breaks, lines.len());
    assert(breaks[lines.len() as int] == last_break(p));
}

/// The first lines show the source up to their last break.
proof fn lemma_source_to(
    p: Paragraph,
    widths: Seq<Binary64>,
    o: Options,
    breaks: Seq<int>,
    k: nat,
)
    requires
        accepted(p, widths, o),
        sliced(p),
        is_path(breaks, last_break(p) as int),
        best_layout(p, widths, o).lines == lines_of(p, widths, o, breaks),
        k < breaks.len(),
    ensures
        source_of(p, best_layout(p, widths, o).lines, k) == source_to(
            p,
            node_at(p, breaks[k as int]),
        ),
    decreases k,
{
    lemma_ends(p);
    let lines = best_layout(p, widths, o).lines;
    if k > 0 {
        let i = k - 1;
        lemma_source_to(p, widths, o, breaks, i as nat);
        lemma_line(p, widths, o, breaks, i);
        let (a, b) = (node_at(p, breaks[i]), node_at(p, breaks[i + 1]));
        lemma_described(p, a);
        lemma_line_source(p, lines[i], a, b);
        let text = spaced(p, lines[i], lines[i].end as int);
        assert(source_of(p, lines, k) =~= before_line(p, a) + text);
    }
}

/// A line breaks inside a word only at a boundary of its fragments: a word
/// without fragments is indivisible.
pub proof fn law_breaks_at_boundaries(p: Paragraph, widths: Seq<Binary64>, o: Options)
    requires
        accepted(p, widths, o),
    ensures
        forall|i: int|
            0 <= i < best_layout(p, widths, o).lines.len() ==> at_boundary(
                p,
                (#[trigger] best_layout(p, widths, o).lines[i]).start as int,
                best_layout(p, widths, o).lines[i].start_offset,
            ) && at_boundary(
                p,
                best_layout(p, widths, o).lines[i].end - 1,
                best_layout(p, widths, o).lines[i].end_offset,
            ),
{
    let breaks = law_layout_breaks(p, widths, o);
    let lines = best_layout(p, widths, o).lines;
    assert(breaks.len() == lines.len() + 1);
    assert forall|i: int| 0 <= i < lines.len() implies at_boundary(
        p,
        (#[trigger] lines[i]).start as int,
        lines[i].start_offset,
    ) && at_boundary(p, lines[i].end - 1, lines[i].end_offset) by {
        lemma_line(p, widths, o, breaks, i);
        lemma_at_boundary(p, node_at(p, breaks[i]));
        lemma_at_boundary(p, node_at(p, breaks[i + 1]));
    }
}

/// A break inside a word is at a boundary of its fragments.
proof fn lemma_at_boundary(p: Paragraph, node: Node)
    requires
        p.valid(),
        describes(p, node),
    ensures
        at_boundary(p, node.word as int, inside(node.offset)),
{
    lemma_described(p, node);
    if node.offset > 0 {
        let f = p.fragments_of(node.word as int)->0;
        assert(f.offsets[node.part as int] == node.offset);
        assert(f.offsets.contains(node.offset));
    }
}

/// An offset is absent, or a boundary of the fragments of the word.
pub open spec fn at_boundary(p: Paragraph, word: int, at: Option<usize>) -> bool {
    at matches Some(at) ==> p.fragments_of(word) matches Some(f) && f.offsets.contains(at)
}

/// Widths with the last one spelled out so many times more.
pub open spec fn spelled_out(widths: Seq<Binary64>, more: nat) -> Seq<Binary64> {
    widths + Seq::new(more, |i: int| widths.last())
}

/// The final width repeats: spelling it out changes nothing about the optimum.
pub proof fn law_final_width_repeats(
    p: Paragraph,
    widths: Seq<Binary64>,
    o: Options,
    more: nat,
)
    requires
        accepted(p, widths, o),
        accepted(p, spelled_out(widths, more), o),
    ensures
        best_layout(p, spelled_out(widths, more), o).cost.same(best_layout(p, widths, o).cost),
        emergency(p, spelled_out(widths, more), o) == emergency(p, widths, o),
{
    let longer = spelled_out(widths, more);
    let (g, h) = (Grid::of(widths, o), Grid::of(longer, o));
    let (line, other) = (layout_lines(p, widths, o), layout_lines(p, longer, o));
    lemma_accepted(p, widths, o);
    lemma_accepted(p, longer, o);
    assert forall|e: bool, breaks: Seq<int>| is_path(breaks, last_break(p) as int) implies (
    #[trigger] path_cost(g, line(e), o.adjacent_penalty, breaks)) == path_cost(
        h,
        other(e),
        o.adjacent_penalty,
        breaks,
    ) by {
        lemma_longer(p, widths, o, more, e, breaks, (breaks.len() - 1) as nat);
    }
    assert forall|e: bool, breaks: Seq<int>| is_path(breaks, last_break(p) as int) implies (
    #[trigger] path_cost(h, other(e), o.adjacent_penalty, breaks)) == path_cost(
        g,
        line(e),
        o.adjacent_penalty,
        breaks,
    ) by {
        lemma_longer(p, widths, o, more, e, breaks, (breaks.len() - 1) as nat);
    }
    lemma_same_costs(g, line, h, other, last_break(p), o.adjacent_penalty);
}

/// The lines of breaks cost the same with the final width spelled out.
proof fn lemma_longer(
    p: Paragraph,
    widths: Seq<Binary64>,
    o: Options,
    more: nat,
    e: bool,
    breaks: Seq<int>,
    count: nat,
)
    requires
        widths.len() > 0,
        count < breaks.len(),
    ensures
        ({
            let longer = spelled_out(widths, more);
            let (g, h) = (Grid::of(widths, o), Grid::of(longer, o));
            let (line, other) = (layout_lines(p, widths, o)(e), layout_lines(p, longer, o)(e));
            &&& total(g, line, o.adjacent_penalty, breaks, count) == total(
                h,
                other,
                o.adjacent_penalty,
                breaks,
                count,
            )
            &&& class_at(g, line, breaks, count as int) == class_at(h, other, breaks, count as int)
        }),
    decreases count,
{
    if count > 0 {
        let longer = spelled_out(widths, more);
        let (g, h) = (Grid::of(widths, o), Grid::of(longer, o));
        lemma_longer(p, widths, o, more, e, breaks, (count - 1) as nat);
        assert(longer[measure_at(h, count - 1)] == widths[measure_at(g, count - 1)]);
        assert(leg(g, layout_lines(p, widths, o)(e), breaks, count - 1) == leg(
            h,
            layout_lines(p, longer, o)(e),
            breaks,
            count - 1,
        ));
    }
}

}
