//! What extra breaks do to the cost of a layout.

use crate::binary64::Binary64;
use crate::exact::{
    lemma_add_nothing, lemma_sum_not_minus_zero, lemma_whole_add, lemma_whole_count,
    lemma_whole_mul, lemma_whole_sub, lemma_whole_unique, whole_number, EXACT,
};
use crate::fit::{
    ending_cost, failure_cost, finished, fragment_extent, given_up, line_cost, preferred, shortfall,
    strain, word_extent, word_line, Extent,
};
use crate::fragments::lemma_cell;
use crate::gauge::{lemma_index_at, slice};
use crate::hyphenated::{
    break_cost, candidate, fragment_lines, inner_nodes, lemma_nodes, metrics, nodes_of, nodes_to,
    piece, span, whole,
};
use crate::hyphenation::{
    all_divided, divided, entry_of, law_breaks_retained, with_divisions, Division,
};
use crate::laws::{accepted, emergency, law_layout_optimal, lemma_accepted};
use crate::model::{Line, Options, Paragraph};
use crate::optimum::{
    class_at, composes, is_path, leg, lemma_deciding_pass, lemma_solution_path, measure_at,
    path_cost, payable, total,
};
use crate::render::bytes;
use crate::search::Grid;
use crate::solve::{best_layout, last_break, layout_lines, word_lines};
use crate::text::{grapheme_total, offset};
use vstd::prelude::*;

verus! {

/// A paragraph measured in whole numbers: `w` and `c` are the sums of widths
/// and characters, `s` is the space. None is so large that sums would round.
pub open spec fn measured_whole(p: Paragraph, w: Seq<int>, c: Seq<int>, s: int) -> bool {
    let n = p.words.len() as int;
    &&& w.len() == n + 1
    &&& c.len() == n + 1
    &&& whole_number(p.space, s)
    &&& forall|i: int| 0 <= i <= n ==> whole_number(#[trigger] p.widths[i], w[i])
    &&& forall|i: int| 0 <= i <= n ==> whole_number(#[trigger] p.characters[i], c[i])
    &&& forall|i: int, j: int| 0 <= i <= j <= n ==> #[trigger] w[i] <= #[trigger] w[j]
    &&& forall|i: int, j: int| 0 <= i <= j <= n ==> #[trigger] c[i] <= #[trigger] c[j]
    &&& forall|i: int|
        0 <= i < n ==> c[i + 1] - c[i] == grapheme_total(#[trigger] p.words[i]) as usize
    &&& 2 * w[n] + n * s < EXACT
    &&& 2 * c[n] + n < EXACT
}

/// A divided word as a whole: its fragments hold its width and characters.
proof fn lemma_whole_piece<
    F: FnMut(&str, usize) -> Vec<String>,
    M: FnMut(&str, usize) -> Binary64,
>(
    hyphenate: F,
    measure: M,
    p: Paragraph,
    d: Seq<Division>,
    w: Seq<int>,
    c: Seq<int>,
    s: int,
    i: int,
)
    requires
        p.valid(),
        p.hyphenation is None,
        measured_whole(p, w, c, s),
        all_divided(hyphenate, measure, p, d),
        0 <= i < p.words.len(),
        bytes(p.words[i]) <= usize::MAX,
    ensures
        whole_number(piece(with_divisions(p, d), i, 0, None, false).0, w[i + 1] - w[i]),
        whole_number(piece(with_divisions(p, d), i, 0, None, false).1, c[i + 1] - c[i]),
{
    let q = with_divisions(p, d);
    let word = p.words[i];
    let n = p.words.len() as int;
    assert(whole_number(p.widths[i], w[i]) && whole_number(p.widths[i + 1], w[i + 1]));
    assert(whole_number(p.characters[i], c[i]) && whole_number(p.characters[i + 1], c[i + 1]));
    assert(w[i] <= w[i + 1] <= w[n] && c[i] <= c[i + 1] <= c[n]);
    assert(0 <= n * s) by (nonlinear_arith)
        requires
            0 <= n,
            0 <= s,
    ;
    lemma_whole_sub(p.widths[i + 1], w[i + 1], p.widths[i], w[i]);
    lemma_whole_sub(p.characters[i + 1], c[i + 1], p.characters[i], c[i]);
    assert(q.fragments_of(i) == entry_of(p, i, d[i]));
    assert(p.fragments_of(i) is None);
    assert(divided(hyphenate, measure, p, i, d[i]));
    if q.fragments_of(i) is Some {
        let one = d[i];
        let f = q.fragments_of(i)->0;
        let size = f.offsets.len();
        law_breaks_retained(word, one.parts, None, one.merged);
        assert(f.offsets == one.merged);
        lemma_cell(size, 0, size - 1);
        assert(0 * size == 0) by (nonlinear_arith);
        let cell = 0 * size + (size - 1);
        assert(f.widths[cell] == p.widths[i + 1] - p.widths[i]);
        let count = grapheme_total(word) as usize;
        assert(f.characters[cell] == Binary64::from_count(count)) by {
            lemma_index_at(word, 0);
            lemma_index_at(word, word.len() as int);
            assert(offset(word, 0) == 0);
            assert(slice(word, 0, bytes(word) as int) =~= word);
        }
        lemma_whole_count(count);
        lemma_whole_count(0);
        lemma_whole_add(
            Binary64::from_count(count),
            count as int,
            Binary64::from_count(0),
            0,
        );
    }
}

/// A line of whole words has the same extent with the extra breaks.
proof fn lemma_same_extent<
    F: FnMut(&str, usize) -> Vec<String>,
    M: FnMut(&str, usize) -> Binary64,
>(
    hyphenate: F,
    measure: M,
    p: Paragraph,
    d: Seq<Division>,
    w: Seq<int>,
    c: Seq<int>,
    s: int,
    a: int,
    b: int,
    o: Options,
)
    requires
        p.valid(),
        p.hyphenation is None,
        measured_whole(p, w, c, s),
        all_divided(hyphenate, measure, p, d),
        forall|i: int| 0 <= i < p.words.len() ==> bytes(#[trigger] p.words[i]) <= usize::MAX,
        0 <= a < b <= p.words.len(),
    ensures
        fragment_extent(
            metrics(with_divisions(p, d), whole(a), whole(b), a == 0, b == p.words.len()),
            (b - a - 1) as usize,
            o,
        ) == word_extent(p, a, b, o),
{
    let q = with_divisions(p, d);
    let n = p.words.len() as int;
    let end = b - 1;
    let gaps = (b - a - 1) as usize;
    let count = Binary64::from_count(gaps);
    let first = piece(q, a, 0, None, false);
    let last = piece(q, end, 0, None, false);
    lemma_whole_piece(hyphenate, measure, p, d, w, c, s, a);
    lemma_whole_piece(hyphenate, measure, p, d, w, c, s, end);
    lemma_whole_count(gaps);
    assert(gaps * s <= n * s) by (nonlinear_arith)
        requires
            gaps <= n,
            s >= 0,
    ;
    assert(0 <= gaps * s) by (nonlinear_arith)
        requires
            gaps >= 0,
            s >= 0,
    ;
    lemma_whole_mul(count, gaps as int, p.space, s);
    let stretch = count * p.space;
    assert(whole_number(p.widths[a], w[a]) && whole_number(p.widths[b], w[b]));
    assert(whole_number(p.widths[a + 1], w[a + 1]) && whole_number(p.widths[end], w[end]));
    assert(whole_number(p.characters[a], c[a]) && whole_number(p.characters[b], c[b]));
    assert(whole_number(p.characters[a + 1], c[a + 1]) && whole_number(p.characters[end], c[end]));
    assert(w[a] <= w[b] <= w[n] && w[a] <= w[a + 1] <= w[n] && w[end] <= w[b]);
    assert(c[a] <= c[b] <= c[n] && c[a] <= c[a + 1] <= c[n] && c[end] <= c[b]);
    // What the words alone give.
    lemma_whole_sub(p.widths[b], w[b], p.widths[a], w[a]);
    lemma_whole_add(p.widths[b] - p.widths[a], w[b] - w[a], stretch, gaps * s);
    lemma_whole_sub(p.characters[b], c[b], p.characters[a], c[a]);
    lemma_whole_add(p.characters[b] - p.characters[a], c[b] - c[a], count, gaps as int);
    let natural = p.widths[b] - p.widths[a] + stretch;
    let chars = p.characters[b] - p.characters[a] + count;
    let both = span(q, whole(a), whole(b));
    if a == end {
        assert(both == first);
        assert(gaps == 0);
        assert(0 * s == 0) by (nonlinear_arith);
        lemma_whole_unique(natural, both.0, w[b] - w[a]);
        lemma_whole_unique(chars, both.1, c[b] - c[a]);
    } else {
        assert(w[a + 1] <= w[end] && c[a + 1] <= c[end]);
        let x = first.0 + q.widths[end];
        lemma_whole_add(first.0, w[a + 1] - w[a], p.widths[end], w[end]);
        lemma_whole_sub(x, w[a + 1] - w[a] + w[end], p.widths[a + 1], w[a + 1]);
        let y = x - q.widths[a + 1];
        lemma_whole_add(y, w[end] - w[a], last.0, w[b] - w[end]);
        lemma_whole_add(y + last.0, w[b] - w[a], stretch, gaps * s);
        let u = first.1 + q.characters[end];
        lemma_whole_add(first.1, c[a + 1] - c[a], p.characters[end], c[end]);
        lemma_whole_sub(u, c[a + 1] - c[a] + c[end], p.characters[a + 1], c[a + 1]);
        let v = u - q.characters[a + 1];
        lemma_whole_add(v, c[end] - c[a], last.1, c[b] - c[end]);
        lemma_whole_add(v + last.1, c[b] - c[a], count, gaps as int);
        assert((end - a) as usize == gaps);
        assert(both.0 == y + last.0 + stretch);
        assert(both.1 == v + last.1 + count);
        lemma_whole_unique(natural, both.0, w[b] - w[a] + gaps * s);
        lemma_whole_unique(chars, both.1, c[b] - c[a] + gaps);
    }
}

/// The cost of a line is not the negative zero.
proof fn lemma_cost_plain(
    line: Line,
    remaining: Binary64,
    x: Extent,
    space: Binary64,
    o: Options,
    e: bool,
)
    ensures
        line_cost(line, remaining, x, space, o, e) + Binary64::zero() == line_cost(
            line,
            remaining,
            x,
            space,
            o,
            e,
        ),
{
    let cost = line_cost(line, remaining, x, space, o, e);
    if !given_up(remaining, x, space, line.width, o, e) {
        let one = Binary64::one();
        let price = strain(line, x, space, o, e) * (if shortfall(x, line.width).lt(
            Binary64::zero(),
        ) {
            o.compression_penalty
        } else {
            one
        });
        lemma_sum_not_minus_zero(one, price);
        lemma_sum_not_minus_zero(one + price, failure_cost(remaining, o.mode));
        lemma_sum_not_minus_zero(
            one + price + failure_cost(remaining, o.mode),
            ending_cost(x, space, line.width, o),
        );
    }
    lemma_add_nothing(cost);
}

/// Where the break before a word stands among all breaks.
spec fn number_of(q: Paragraph, word: int) -> int {
    nodes_to(q, word as nat).len() - 1
}

/// The breaks up to a word come first.
proof fn lemma_number_of(q: Paragraph, word: nat, last: nat)
    requires
        q.valid(),
        word <= last <= q.words.len(),
    ensures
        nodes_to(q, word).len() <= nodes_to(q, last).len(),
        word < last ==> nodes_to(q, word).len() < nodes_to(q, last).len(),
        nodes_to(q, last)[number_of(q, word as int)] == whole(word as int),
        0 <= number_of(q, word as int),
        word == 0 ==> number_of(q, word as int) == 0,
        word > 0 ==> number_of(q, word as int) > 0,
    decreases last,
{
    lemma_nodes(q, word);
    if word < last {
        lemma_number_of(q, word, (last - 1) as nat);
        let before = nodes_to(q, (last - 1) as nat);
        assert(nodes_to(q, last) == (before + inner_nodes(q, last - 1)).push(whole(last as int)));
    }
}

/// A line of whole words costs the same, and has the same class, with the extra
/// breaks.
proof fn lemma_same_line<
    F: FnMut(&str, usize) -> Vec<String>,
    M: FnMut(&str, usize) -> Binary64,
>(
    hyphenate: F,
    measure: M,
    p: Paragraph,
    d: Seq<Division>,
    w: Seq<int>,
    c: Seq<int>,
    s: int,
    a: int,
    b: int,
    width: Binary64,
    o: Options,
    e: bool,
)
    requires
        p.valid(),
        with_divisions(p, d).valid(),
        p.hyphenation is None,
        measured_whole(p, w, c, s),
        all_divided(hyphenate, measure, p, d),
        forall|i: int| 0 <= i < p.words.len() ==> bytes(#[trigger] p.words[i]) <= usize::MAX,
        0 <= a < b <= p.words.len(),
    ensures
        ({
            let q = with_divisions(p, d);
            let line = candidate(
                q,
                nodes_of(q),
                number_of(q, a),
                number_of(q, b),
                width,
                o,
                e,
            );
            let plain = word_line(p, a, b, width, o, e);
            line.cost == plain.cost && line.fitness == plain.fitness
        }),
{
    let q = with_divisions(p, d);
    let nodes = nodes_of(q);
    let n = p.words.len();
    lemma_nodes(q, n);
    lemma_number_of(q, a as nat, n);
    lemma_number_of(q, b as nat, n);
    lemma_number_of(q, a as nat, b as nat);
    if b < n {
        lemma_number_of(q, b as nat, n);
    }
    assert(nodes[number_of(q, a)] == whole(a));
    assert(nodes[number_of(q, b)] == whole(b));
    assert((number_of(q, b) == nodes.len() - 1) == (b == n));
    assert((number_of(q, a) == 0) == (a == 0));
    lemma_same_extent(hyphenate, measure, p, d, w, c, s, a, b, o);
    let x = word_extent(p, a, b, o);
    let line = preferred(a as usize, b as usize, x, p.space, width, o);
    let remaining = finished(line, p.space, o).residual;
    lemma_cost_plain(line, remaining, x, p.space, o, e);
    assert(break_cost(whole(a), whole(b), b == n, o) == Binary64::zero());
}

/// The breaks before words, among all breaks.
spec fn among_all(q: Paragraph, breaks: Seq<int>) -> Seq<int> {
    breaks.map_values(|word: int| number_of(q, word))
}

/// Breaking between words costs the same with the extra breaks.
proof fn lemma_same_total<
    F: FnMut(&str, usize) -> Vec<String>,
    M: FnMut(&str, usize) -> Binary64,
>(
    hyphenate: F,
    measure: M,
    p: Paragraph,
    d: Seq<Division>,
    w: Seq<int>,
    c: Seq<int>,
    s: int,
    widths: Seq<Binary64>,
    o: Options,
    e: bool,
    breaks: Seq<int>,
    count: nat,
)
    requires
        p.valid(),
        with_divisions(p, d).valid(),
        p.hyphenation is None,
        measured_whole(p, w, c, s),
        all_divided(hyphenate, measure, p, d),
        forall|i: int| 0 <= i < p.words.len() ==> bytes(#[trigger] p.words[i]) <= usize::MAX,
        is_path(breaks, p.words.len() as int),
        count < breaks.len(),
    ensures
        ({
            let q = with_divisions(p, d);
            let g = Grid::of(widths, o);
            let (plain, extra) = (word_lines(p, widths, o)(e), fragment_lines(q, widths, o)(e));
            let all = among_all(q, breaks);
            &&& total(g, extra, o.adjacent_penalty, all, count) == total(
                g,
                plain,
                o.adjacent_penalty,
                breaks,
                count,
            )
            &&& class_at(g, extra, all, count as int) == class_at(g, plain, breaks, count as int)
        }),
    decreases count,
{
    if count > 0 {
        let q = with_divisions(p, d);
        let g = Grid::of(widths, o);
        let k = count - 1;
        let n = breaks.len() - 1;
        lemma_same_total(
            hyphenate,
            measure,
            p,
            d,
            w,
            c,
            s,
            widths,
            o,
            e,
            breaks,
            k as nat,
        );
        let (a, b) = (breaks[k], breaks[k + 1]);
        assert(breaks[0] <= a < b <= breaks[n]);
        let width = widths[measure_at(g, k)];
        lemma_same_line(hyphenate, measure, p, d, w, c, s, a, b, width, o, e);
        let (plain, extra) = (word_lines(p, widths, o)(e), fragment_lines(q, widths, o)(e));
        let all = among_all(q, breaks);
        assert(all[k] == number_of(q, a) && all[k + 1] == number_of(q, b));
        assert(leg(g, extra, all, k).cost == leg(g, plain, breaks, k).cost);
        assert(leg(g, extra, all, k).fitness == leg(g, plain, breaks, k).fitness);
        lemma_number_of(q, a as nat, p.words.len());
    }
}

/// Breaks between words are a sequence of breaks among all.
proof fn lemma_among_all(q: Paragraph, breaks: Seq<int>)
    requires
        q.valid(),
        is_path(breaks, q.words.len() as int),
    ensures
        is_path(among_all(q, breaks), nodes_of(q).len() - 1),
{
    let all = among_all(q, breaks);
    let n = breaks.len() - 1;
    lemma_number_of(q, 0, q.words.len());
    assert(all[0] == number_of(q, breaks[0]));
    assert(all[n] == number_of(q, breaks[n]));
    assert forall|i: int, j: int| 0 <= i < j < all.len() implies (#[trigger] all[i])
        < #[trigger] all[j] by {
        assert(breaks[0] <= breaks[i] < breaks[j] <= breaks[n]);
        lemma_number_of(q, breaks[i] as nat, breaks[j] as nat);
    }
}

/// Breaks between words are breaks of the divided paragraph too, for the same
/// cost.
proof fn lemma_image<
    F: FnMut(&str, usize) -> Vec<String>,
    M: FnMut(&str, usize) -> Binary64,
>(
    hyphenate: F,
    measure: M,
    p: Paragraph,
    d: Seq<Division>,
    w: Seq<int>,
    c: Seq<int>,
    s: int,
    widths: Seq<Binary64>,
    o: Options,
    e: bool,
    breaks: Seq<int>,
) -> (image: Seq<int>)
    requires
        p.valid(),
        with_divisions(p, d).valid(),
        p.hyphenation is None,
        measured_whole(p, w, c, s),
        all_divided(hyphenate, measure, p, d),
        forall|i: int| 0 <= i < p.words.len() ==> bytes(#[trigger] p.words[i]) <= usize::MAX,
        is_path(breaks, p.words.len() as int),
    ensures
        is_path(image, last_break(with_divisions(p, d)) as int),
        path_cost(
            Grid::of(widths, o),
            layout_lines(with_divisions(p, d), widths, o)(e),
            o.adjacent_penalty,
            image,
        ) == path_cost(
            Grid::of(widths, o),
            layout_lines(p, widths, o)(e),
            o.adjacent_penalty,
            breaks,
        ),
{
    let q = with_divisions(p, d);
    let k = (breaks.len() - 1) as nat;
    if q.breakable() {
        lemma_same_total(hyphenate, measure, p, d, w, c, s, widths, o, e, breaks, k);
        lemma_among_all(q, breaks);
        among_all(q, breaks)
    } else {
        lemma_plain_total(p, d, widths, o, e, breaks, k);
        breaks
    }
}

/// Where no word has fragments, breaking costs what it did.
proof fn lemma_plain_total(
    p: Paragraph,
    d: Seq<Division>,
    widths: Seq<Binary64>,
    o: Options,
    e: bool,
    breaks: Seq<int>,
    count: nat,
)
    requires
        count < breaks.len(),
    ensures
        ({
            let q = with_divisions(p, d);
            let g = Grid::of(widths, o);
            let (plain, other) = (word_lines(p, widths, o)(e), word_lines(q, widths, o)(e));
            &&& total(g, other, o.adjacent_penalty, breaks, count) == total(
                g,
                plain,
                o.adjacent_penalty,
                breaks,
                count,
            )
            &&& class_at(g, other, breaks, count as int) == class_at(
                g,
                plain,
                breaks,
                count as int,
            )
        }),
    decreases count,
{
    if count > 0 {
        lemma_plain_total(p, d, widths, o, e, breaks, (count - 1) as nat);
    }
}

/// Offering extra breaks never makes the optimum worse, where everything is
/// measured in whole numbers: a layout of the divided paragraph costs no more,
/// unless only the division lets ordinary fitting succeed, whose costs are not
/// those of an emergency.
pub proof fn law_extra_breaks_cost_no_more<
    F: FnMut(&str, usize) -> Vec<String>,
    M: FnMut(&str, usize) -> Binary64,
>(
    hyphenate: F,
    measure: M,
    p: Paragraph,
    d: Seq<Division>,
    w: Seq<int>,
    c: Seq<int>,
    s: int,
    widths: Seq<Binary64>,
    o: Options,
)
    requires
        accepted(p, widths, o),
        accepted(with_divisions(p, d), widths, o),
        p.hyphenation is None,
        measured_whole(p, w, c, s),
        all_divided(hyphenate, measure, p, d),
        forall|i: int| 0 <= i < p.words.len() ==> bytes(#[trigger] p.words[i]) <= usize::MAX,
        emergency(p, widths, o) ==> emergency(with_divisions(p, d), widths, o),
    ensures
        !best_layout(p, widths, o).cost.lt(best_layout(with_divisions(p, d), widths, o).cost),
        emergency(p, widths, o) == emergency(with_divisions(p, d), widths, o),
{
    let q = with_divisions(p, d);
    let g = Grid::of(widths, o);
    let n = p.words.len();
    let (plain, extra) = (layout_lines(p, widths, o), layout_lines(q, widths, o));
    let penalty = o.adjacent_penalty;
    lemma_accepted(p, widths, o);
    lemma_accepted(q, widths, o);
    assert(!p.breakable());
    lemma_deciding_pass(g, n, plain, penalty);
    lemma_deciding_pass(g, last_break(q), extra, penalty);
    if !emergency(p, widths, o) {
        let b = choose|b: Seq<int>|
            is_path(b, n as int) && payable(#[trigger] path_cost(g, plain(false), penalty, b));
        let image = lemma_image(hyphenate, measure, p, d, w, c, s, widths, o, false, b);
        assert(payable(path_cost(g, extra(false), penalty, image)));
        assert(composes(g, last_break(q), extra(false), penalty));
    }
    let e = emergency(p, widths, o);
    let breaks = lemma_solution_path(g, n, plain, penalty);
    let image = lemma_image(hyphenate, measure, p, d, w, c, s, widths, o, e, breaks);
    law_layout_optimal(q, widths, o, image);
}

}
