//! What is measured stands where it is looked up.

use crate::binary64::Binary64;
use crate::fragments::{any_flag, fragments_by};
use crate::gauge::{drawn, slice};
use crate::hyphenated::{candidate, metrics, Node};
use crate::hyphenation::{joined, marked, part_offset, partitions, with_divisions, Division};
use crate::margins::{with_edges, Edges};
use crate::model::{Line, Options, Paragraph};
use crate::numerals::decimal_text;
use crate::prepare::{own_fragments, paragraph_of, space_refusal, word_at, Answers};
use crate::render::rendered;
use crate::text::{explicit_offsets, grapheme_total, offset, word_spans};
use vstd::arithmetic::div_mod::lemma_fundamental_div_mod_converse;
use vstd::prelude::*;

verus! {

/// The cells of a square table.
proof fn lemma_cells(n: int, from: int, to: int)
    requires
        0 <= from < n,
        0 <= to < n,
    ensures
        0 <= from * n + to < n * n,
        (from * n + to) / n == from,
        (from * n + to) % n == to,
{
    let cell = from * n + to;
    assert(0 <= cell < n * n) by (nonlinear_arith)
        requires
            cell == from * n + to,
            0 <= from <= n - 1,
            0 <= to < n,
    ;
    lemma_fundamental_div_mod_converse(cell, n, from, to);
}

/// The fragments of a word are looked up by their two boundaries: each has its
/// measured width, the whole word its own; before the end of the word each has a
/// width with a hyphen, which is its own where the source has the hyphen and
/// else was measured with one drawn; and each has the characters between its
/// boundaries.
pub proof fn law_fragments_are_looked_up(
    word: Seq<char>,
    whole: Binary64,
    offsets: Seq<usize>,
    flags: Seq<bool>,
    pieces: spec_fn(int, int, bool) -> Binary64,
    from: int,
    to: int,
)
    requires
        flags.len() == offsets.len(),
        0 <= from < to < offsets.len(),
    ensures
        ({
            let n = offsets.len() as int;
            let f = fragments_by(word, whole, offsets, flags, pieces);
            let cell = from * n + to;
            &&& f.offsets == offsets
            &&& from == 0 && to == n - 1 ==> f.widths[cell] == whole
            &&& from > 0 || to < n - 1 ==> f.widths[cell] == pieces(from, to, false)
            &&& to < n - 1 && flags[to] ==> f.hyphen_widths[cell] == f.widths[cell]
            &&& to < n - 1 && !flags[to] ==> f.hyphen_widths[cell] == pieces(from, to, true)
            &&& f.characters[cell] == Binary64::from_count(
                grapheme_total(slice(word, offsets[from] as int, offsets[to] as int)) as usize,
            )
            &&& f.explicit_at(to) == flags[to]
            &&& f.start_protrusions is None && f.hyphen_protrusion is None
        }),
{
    lemma_cells(offsets.len() as int, from, to);
    if flags[to] {
        assert(any_flag(flags));
    }
}

/// A word is divided by its own hyphens: where it has any, its fragments begin
/// at its start, after each hyphen, and at its end, and each of its inner
/// boundaries is one of the source.
pub proof fn law_own_fragments(word: Seq<char>, a: Answers, k: int)
    requires
        explicit_offsets(word).len() > 0,
        offset(word, word.len() as int) <= usize::MAX,
        forall|i: int|
            0 <= i < explicit_offsets(word).len() ==> #[trigger] explicit_offsets(word)[i]
                <= usize::MAX,
        0 <= k < explicit_offsets(word).len(),
    ensures
        own_fragments(word, a) is Some,
        ({
            let f = own_fragments(word, a)->0;
            let n = explicit_offsets(word).len() as int;
            &&& f.offsets.len() == n + 2
            &&& f.offsets[0] == 0
            &&& f.offsets[k + 1] == explicit_offsets(word)[k]
            &&& f.offsets[n + 1] == offset(word, word.len() as int)
            &&& f.explicit_at(k + 1)
        }),
{
    let all = crate::prepare::boundaries(word);
    let hyphens = crate::prepare::hyphens_in(word);
    let flags = crate::fragments::flags_of(all, hyphens);
    assert(all[k + 1] == hyphens[k]);
    assert(hyphens.contains(hyphens[k]));
    assert(flags[k + 1]);
    assert(any_flag(flags));
}

/// The sums of a paragraph: before each word stand the widths and the
/// characters of the words before it, and nothing before the first.
pub proof fn law_prepared_sums(
    text: Seq<char>,
    space: Binary64,
    answers: Seq<Answers>,
    k: int,
)
    requires
        0 <= k < word_spans(text).len(),
    ensures
        ({
            let p = paragraph_of(text, space, answers);
            &&& p.space == space
            &&& p.words.len() == word_spans(text).len()
            &&& p.words[k] == text.subrange(word_spans(text)[k].0, word_spans(text)[k].1)
            &&& p.widths[0] == Binary64::zero() && p.characters[0] == Binary64::zero()
            &&& p.widths[k + 1] == p.widths[k] + answers[k].whole
            &&& p.characters[k + 1] == p.characters[k] + Binary64::from_count(
                grapheme_total(p.words[k]) as usize,
            )
            &&& p.start_protrusions is None && p.end_protrusions is None
            &&& p.fragments_of(k) == if explicit_offsets(p.words[k]).len() > 0 {
                own_fragments(p.words[k], answers[k])
            } else {
                None
            }
        }),
{
    let p = paragraph_of(text, space, answers);
    if explicit_offsets(p.words[k]).len() > 0 {
        assert(explicit_offsets(word_at(text, k)).len() > 0);
    }
}

/// A dictionary divides a word where it has more than one part and the word no
/// no-break space: its boundaries are then those of the parts and those that the
/// source has itself, which stay marked. The whole keeps its width.
pub proof fn law_divisions_add_boundaries(p: Paragraph, d: Seq<Division>, i: int, at: int)
    requires
        0 <= i < p.words.len(),
        d.len() == p.words.len(),
        !p.words[i].contains('\u{a0}'),
        d[i].parts.len() > 1,
        0 <= at < d[i].merged.len(),
        d[i].merged.len() >= 2,
    ensures
        ({
            let f = with_divisions(p, d).fragments_of(i);
            &&& f is Some
            &&& f->0.offsets == d[i].merged
            &&& f->0.explicit_at(at) == marked(p.fragments_of(i), d[i].merged[at])
            &&& f->0.widths[d[i].merged.len() - 1] == p.widths[i + 1] - p.widths[i]
        }),
{
    let merged = d[i].merged;
    let flags = crate::hyphenation::marks(merged, p.fragments_of(i));
    let n = merged.len() as int;
    assert(0 * n + (n - 1) == n - 1) by (nonlinear_arith);
    lemma_cells(n, 0, n - 1);
    law_fragments_are_looked_up(
        p.words[i],
        p.widths[i + 1] - p.widths[i],
        merged,
        flags,
        d[i].pieces,
        0,
        n - 1,
    );
    assert(flags[at] == marked(p.fragments_of(i), merged[at]));
    if flags[at] {
        assert(any_flag(flags));
    }
}

/// Optical margins go where they were measured: a word's own to its two ends,
/// those of what follows a boundary to that boundary, none to the end of the
/// word, and that of a drawn hyphen's right side to the hyphen.
pub proof fn law_edges_go_where_measured(p: Paragraph, e: Seq<Edges>, i: int)
    requires
        0 <= i < p.words.len(),
        e.len() == p.words.len(),
    ensures
        ({
            let q = with_edges(p, e);
            &&& q.start_protrusions matches Some(credits) && credits[i] == e[i].whole.start
            &&& q.end_protrusions matches Some(credits) && credits[i] == e[i].whole.end
            &&& q.words == p.words && q.widths == p.widths && q.characters == p.characters
            &&& q.space == p.space && q.end_hangs == p.end_hangs && q.start_hangs == p.start_hangs
            &&& q.fragments_of(i) is Some == p.fragments_of(i) is Some
            &&& p.fragments_of(i) is Some ==> {
                let (f, g) = (p.fragments_of(i)->0, q.fragments_of(i)->0);
                &&& g.hyphen_protrusion == Some(e[i].hyphen.end)
                &&& g.offsets == f.offsets && g.widths == f.widths && g.hyphen_widths
                    == f.hyphen_widths && g.characters == f.characters && g.explicit == f.explicit
                &&& g.start_protrusions is Some
                &&& forall|k: int|
                    0 <= k < f.offsets.len() ==> #[trigger] g.start_protrusions->0[k] == if f.offsets[k]
                        == offset(p.words[i], p.words[i].len() as int) {
                        Binary64::zero()
                    } else {
                        e[i].suffixes[k].start
                    }
            }
        }),
{
}

/// What is measured with a hyphen is drawn as the same text with a hyphen after
/// it.
pub proof fn law_hyphen_is_drawn_after(text: Seq<char>, from: int, to: int)
    ensures
        drawn(text, from, to, true) == drawn(text, from, to, false) + "-"@,
        drawn(text, from, to, false) == slice(text, from, to),
{
    reveal_strlit("-");
    assert("-"@ =~= seq!['-']);
    assert(drawn(text, from, to, true) =~= drawn(text, from, to, false) + "-"@);
}

/// A hyphen is shown at the end of a line exactly where the line is marked as
/// hyphenated; the rest of the text does not depend on that.
pub proof fn law_hyphen_is_shown_where_marked(p: Paragraph, line: Line)
    requires
        line.start < line.end,
    ensures
        ({
            let bare = rendered(p, Line { hyphenated: None, ..line });
            &&& line.hyphenated == Some(true) ==> rendered(p, line) == bare + "-"@
            &&& line.hyphenated != Some(true) ==> rendered(p, line) == bare
        }),
{
    reveal_strlit("-");
    assert("-"@ =~= seq!['-']);
    let plain = Line { hyphenated: None, ..line };
    lemma_spaced(p, line, plain, line.end as int);
    if line.hyphenated == Some(true) {
        assert(rendered(p, line) =~= rendered(p, plain) + "-"@);
    }
}

proof fn lemma_spaced(p: Paragraph, a: Line, b: Line, end: int)
    requires
        a.start == b.start,
        a.end == b.end,
        a.start_offset == b.start_offset,
        a.end_offset == b.end_offset,
    ensures
        crate::render::spaced(p, a, end) == crate::render::spaced(p, b, end),
    decreases end,
{
    if end > a.start + 1 {
        lemma_spaced(p, a, b, end - 1);
    }
}

/// The number that digits stand for.
pub open spec fn read_decimal(s: Seq<char>) -> int
    decreases s.len(),
{
    if s.len() == 0 {
        0
    } else {
        10 * read_decimal(s.drop_last()) + (s.last() as u32 - '0' as u32)
    }
}

/// Numbers are written in decimal: read back, the digits give the number, and
/// only zero begins with a zero.
pub proof fn law_decimals_read_back(n: nat)
    ensures
        read_decimal(decimal_text(n)) == n,
        decimal_text(n).len() > 0,
        decimal_text(n)[0] == '0' ==> n == 0,
    decreases n,
{
    reveal_with_fuel(read_decimal, 2);
    if n < 10 {
        assert(decimal_text(n).drop_last() =~= seq![]);
    } else {
        law_decimals_read_back(n / 10);
        assert(decimal_text(n).drop_last() =~= decimal_text(n / 10));
    }
}

/// A line of fragments inside one word is as wide as that fragment, with its
/// hyphen where it ends inside the word.
pub proof fn law_inner_fragment_is_as_measured(
    p: Paragraph,
    nodes: Seq<Node>,
    start: int,
    end: int,
    width: Binary64,
    o: Options,
    e: bool,
)
    requires
        0 <= start < end < nodes.len(),
        nodes[start].word as int == if nodes[end].offset > 0 {
            nodes[end].word as int
        } else {
            nodes[end].word - 1
        },
        nodes[start].word < usize::MAX,
        p.fragments_of(nodes[start].word as int) is Some,
    ensures
        ({
            let (a, b) = (nodes[start], nodes[end]);
            let f = p.fragments_of(a.word as int)->0;
            let n = f.offsets.len() as int;
            let line = candidate(p, nodes, start, end, width, o, e);
            &&& b.offset > 0 ==> line.natural == f.hyphen_widths[a.part * n + b.part]
            &&& b.offset == 0 ==> line.natural == f.widths[a.part * n + (n - 1)]
            &&& line.start == a.word && line.end == a.word + 1
        }),
{
}

/// A line of fragments over several words is as wide as the part of its first
/// word, the words between, the part of its last word and the spaces.
pub proof fn law_outer_fragments_add_up(
    p: Paragraph,
    nodes: Seq<Node>,
    start: int,
    end: int,
    width: Binary64,
    o: Options,
    e: bool,
)
    requires
        0 <= start < end < nodes.len(),
        nodes[end].offset > 0 || nodes[end].word > 0,
        (nodes[start].word as int) < if nodes[end].offset > 0 {
            nodes[end].word as int
        } else {
            nodes[end].word - 1
        },
    ensures
        ({
            let (a, b) = (nodes[start], nodes[end]);
            let last: int = if b.offset > 0 {
                b.word as int
            } else {
                b.word - 1
            };
            let (f, g) = (p.fragments_of(a.word as int), p.fragments_of(last));
            let head = match f {
                Some(f) => f.widths[a.part * f.offsets.len() + (f.offsets.len() - 1)],
                None => p.widths[a.word + 1] - p.widths[a.word as int],
            };
            let tail = match g {
                Some(g) => if b.offset > 0 {
                    g.hyphen_widths[0 * g.offsets.len() + b.part]
                } else {
                    g.widths[0 * g.offsets.len() + (g.offsets.len() - 1)]
                },
                None => p.widths[last + 1] - p.widths[last],
            };
            let line = candidate(p, nodes, start, end, width, o, e);
            line.natural == head + p.widths[last] - p.widths[a.word + 1] + tail
                + Binary64::from_count((last - a.word) as usize) * p.space
        }),
{
}

/// A space is refused exactly where it is not finite, below zero, or zero.
pub proof fn law_spaces_are_refused(space: Binary64)
    ensures
        space_refusal(space) is None <==> space.is_finite() && space.gt(Binary64::zero()),
        !space.is_finite() || space.lt(Binary64::zero()) ==> space_refusal(space) == Some(
            "Invalid measured word width"@,
        ),
        space.same(Binary64::zero()) ==> space_refusal(space) == Some(
            "Space width must be positive"@,
        ),
{
}

/// What a dictionary proposes must make up the word: parts that leave something
/// out, add something, or are empty are refused, and so are parts that begin
/// inside a grapheme.
pub proof fn law_parts_make_up_the_word(word: Seq<char>, a: Seq<char>, b: Seq<char>)
    ensures
        partitions(seq![a, b], word) <==> a.len() > 0 && b.len() > 0 && a + b == word,
        partitions(seq![a], word) <==> a.len() > 0 && a == word,
        !partitions(seq![], word),
        a + b == word ==> part_offset(word, seq![a, b], 1) == offset(word, a.len() as int) as usize,
{
    reveal_with_fuel(joined, 3);
    let (one, two) = (seq![a], seq![a, b]);
    assert(one[0] == a && two[0] == a && two[1] == b);
    assert(joined(one, 1) =~= a);
    assert(joined(two, 1) =~= a);
    assert(joined(two, 2) =~= a + b);
    if partitions(two, word) {
        assert(two[0].len() > 0 && two[1].len() > 0);
    }
    if partitions(one, word) {
        assert(one[0].len() > 0);
    }
}

/// A line of fragments over several words has the characters of the part of its
/// first word, of the words between, of the part of its last word, and one for
/// each space; and one more for a drawn hyphen.
pub proof fn law_outer_characters_add_up(
    p: Paragraph,
    a: Node,
    b: Node,
    first: bool,
    last: bool,
)
    requires
        b.offset > 0 || b.word > 0,
        (a.word as int) < if b.offset > 0 {
            b.word as int
        } else {
            b.word - 1
        },
    ensures
        ({
            let end: int = if b.offset > 0 {
                b.word as int
            } else {
                b.word - 1
            };
            let none = Binary64::from_count(0);
            let (f, g) = (p.fragments_of(a.word as int), p.fragments_of(end));
            let head = match f {
                Some(f) => f.characters[a.part * f.offsets.len() + (f.offsets.len() - 1)] + none,
                None => p.characters[a.word + 1] - p.characters[a.word as int],
            };
            let tail = match g {
                Some(g) => if b.offset > 0 && !g.explicit_at(b.part as int) {
                    g.characters[0 * g.offsets.len() + b.part] + Binary64::from_count(1)
                } else if b.offset > 0 {
                    g.characters[0 * g.offsets.len() + b.part] + none
                } else {
                    g.characters[0 * g.offsets.len() + (g.offsets.len() - 1)] + none
                },
                None => p.characters[end + 1] - p.characters[end],
            };
            metrics(p, a, b, first, last).chars == head + p.characters[end] - p.characters[a.word
                + 1] + tail + Binary64::from_count((end - a.word) as usize)
        }),
{
}

}
