//! What the callbacks are asked.

use crate::binary64::Binary64;
use crate::gauge::{
    answers_fragment, answers_text, lemma_index_at, FragmentGauge, Gauge, RangeGauge, TextGauge,
};
use crate::margins::{answers_edge, edged, Edges};
use crate::model::{Margins, Paragraph};
use crate::text::{lemma_offset_monotone, offset};
use vstd::prelude::*;

verus! {

/// A width that is known by what a range says was given by the callback to just
/// that text, with a hyphen after it where one was asked for, and is finite and
/// not below zero.
pub proof fn law_texts_are_measured_as_they_read<F: FnMut(&str) -> Binary64>(
    g: TextGauge<F>,
    i: int,
    j: int,
    hyphen: bool,
    width: Binary64,
)
    requires
        g.valid(),
        0 <= i <= j <= g.text@.len(),
        g.knows(offset(g.text@, i) as int, offset(g.text@, j) as int, hyphen, width),
    ensures
        width.is_finite() && !width.lt(Binary64::zero()),
        answers_text(
            g.measure,
            if hyphen {
                g.text@.subrange(i, j).push('-')
            } else {
                g.text@.subrange(i, j)
            },
            width,
        ),
{
    lemma_index_at(g.text@, i);
    lemma_index_at(g.text@, j);
}

/// A width that is known by where a range stands was given by the callback to
/// that range, and is finite and not below zero.
pub proof fn law_ranges_are_measured_where_they_stand<
    F: FnMut(usize, usize, bool) -> Binary64,
>(g: RangeGauge<F>, from: usize, to: usize, hyphen: bool, width: Binary64)
    requires
        g.knows(from as int, to as int, hyphen, width),
    ensures
        width.is_finite() && !width.lt(Binary64::zero()),
        g.measure.ensures((from, to, hyphen), width),
{
}

/// A width of a part of a word was given by the callback to the text of that
/// part, with a hyphen after it where one was asked for, and to the index of the
/// word, and is finite and not below zero.
pub proof fn law_fragments_are_measured_as_they_read<M: FnMut(&str, usize) -> Binary64>(
    g: FragmentGauge<M>,
    i: int,
    j: int,
    hyphen: bool,
    width: Binary64,
)
    requires
        g.valid(),
        0 <= i <= j <= g.word@.len(),
        g.knows(offset(g.word@, i) as int, offset(g.word@, j) as int, hyphen, width),
    ensures
        width.is_finite() && !width.lt(Binary64::zero()),
        answers_fragment(
            g.measure,
            if hyphen {
                g.word@.subrange(i, j).push('-')
            } else {
                g.word@.subrange(i, j)
            },
            g.index,
            width,
        ),
{
    lemma_index_at(g.word@, i);
    lemma_index_at(g.word@, j);
}

/// The margins of a word were given to the word and its index, those at a
/// boundary to what follows it, and those of a hyphen to a hyphen; all are finite
/// and not below zero.
pub proof fn law_edges_are_measured_as_they_read<F: FnMut(&str, usize) -> Margins>(
    measure: F,
    p: Paragraph,
    w: int,
    e: Edges,
    k: int,
    j: int,
)
    requires
        0 <= w < p.words.len() <= usize::MAX,
        edged(measure, p, w, e),
        p.fragments_of(w) is Some,
        0 <= k < p.fragments_of(w)->0.offsets.len(),
        0 <= j < p.words[w].len(),
        p.fragments_of(w)->0.offsets[k] == offset(p.words[w], j),
    ensures
        answers_edge(measure, p.words[w], w as usize, e.whole),
        answers_edge(
            measure,
            p.words[w].subrange(j, p.words[w].len() as int),
            w as usize,
            e.suffixes[k],
        ),
        answers_edge(measure, "-"@, w as usize, e.hyphen),
        ({
            let zero = Binary64::zero();
            let m = e.suffixes[k];
            &&& e.whole.start.is_finite() && e.whole.start.ge(zero)
            &&& e.whole.end.is_finite() && e.whole.end.ge(zero)
            &&& m.start.is_finite() && m.start.ge(zero) && m.end.is_finite() && m.end.ge(zero)
            &&& e.hyphen.start.is_finite() && e.hyphen.start.ge(zero)
            &&& e.hyphen.end.is_finite() && e.hyphen.end.ge(zero)
        }),
{
    let word = p.words[w];
    let n = word.len() as int;
    lemma_index_at(word, j);
    lemma_index_at(word, n);
    lemma_offset_monotone(word, j, n);
    let f = p.fragments_of(w)->0;
    assert(crate::margins::goes_on(word, f.offsets[k]));
    assert(crate::margins::given(
        measure,
        crate::margins::suffix(word, f.offsets[k]),
        w,
        e.suffixes[k],
    ));
}

}
