//! Font-aware edge measurements.

use crate::binary64::Binary64;
use crate::fragments::{boundary, lemma_boundary_index, ordered};
use crate::gauge::{index_at, lemma_index_at, slice};
use crate::hyphenated::fragments_at;
use crate::hyphenation::sliced;
use crate::model::{
    entry_models, fragments_model, valid_entry, Error, Fragments, Margins, Paragraph, Prepared,
    WordFragments,
};
use crate::text::{byte_length, offset, part};
use vstd::prelude::*;

verus! {

/// Margins that can be used.
#[verifier::allow_in_spec]
pub fn usable_margins(m: Margins) -> (r: bool)
    returns
        (m.start.is_finite() && m.start.ge(Binary64::zero()) && m.end.is_finite() && m.end.ge(
            Binary64::zero(),
        )),
{
    m.start.is_finite() && m.start.ge(Binary64::zero()) && m.end.is_finite() && m.end.ge(
        Binary64::zero(),
    )
}

/// The callback may give these margins to a text of the word with this index.
pub open spec fn answers_edge<F: FnMut(&str, usize) -> Margins>(
    measure: F,
    key: Seq<char>,
    index: usize,
    m: Margins,
) -> bool {
    exists|s: &str| s@ == key && #[trigger] measure.ensures((s, index), m)
}

/// What measuring the edges of a word has given.
pub struct Edges {
    /// The margins of the whole word.
    pub whole: Margins,
    /// The margins of what follows each boundary of its fragments.
    pub suffixes: Seq<Margins>,
    /// The margins of the generated hyphen.
    pub hyphen: Margins,
}

/// What follows a byte of a word.
pub open spec fn suffix(word: Seq<char>, at: usize) -> Seq<char> {
    slice(word, at as int, offset(word, word.len() as int) as int)
}

/// Something follows this byte of a word.
pub open spec fn goes_on(word: Seq<char>, at: usize) -> bool {
    at != offset(word, word.len() as int)
}

/// The callback gave these usable margins.
pub open spec fn given<F: FnMut(&str, usize) -> Margins>(
    measure: F,
    key: Seq<char>,
    index: int,
    m: Margins,
) -> bool {
    usable_margins(m) && answers_edge(measure, key, index as usize, m)
}

/// The edges of the word with index `i` were measured like this.
pub open spec fn edged<F: FnMut(&str, usize) -> Margins>(
    measure: F,
    p: Paragraph,
    i: int,
    e: Edges,
) -> bool {
    let word = p.words[i];
    &&& given(measure, word, i, e.whole)
    &&& p.fragments_of(i) matches Some(f) ==> {
        &&& e.suffixes.len() == f.offsets.len()
        &&& forall|k: int|
            0 <= k < f.offsets.len() && goes_on(word, f.offsets[k]) ==> given(
                measure,
                suffix(word, f.offsets[k]),
                i,
                #[trigger] e.suffixes[k],
            )
        &&& given(measure, "-"@, i, e.hyphen)
    }
}

/// The edges of every word were measured like this.
pub open spec fn all_edged<F: FnMut(&str, usize) -> Margins>(
    measure: F,
    p: Paragraph,
    e: Seq<Edges>,
) -> bool {
    &&& e.len() == p.words.len()
    &&& forall|i: int| 0 <= i < e.len() ==> edged(measure, p, i, #[trigger] e[i])
}

/// The leading credit at each boundary; the end of the word has none.
pub open spec fn leading_credits(word: Seq<char>, offsets: Seq<usize>, suffixes: Seq<Margins>) -> Seq<
    Binary64,
> {
    Seq::new(
        offsets.len(),
        |k: int|
            if goes_on(word, offsets[k]) {
                suffixes[k].start
            } else {
                Binary64::zero()
            },
    )
}

/// The fragments of a word with these edges.
pub open spec fn edged_entry(p: Paragraph, i: int, e: Edges) -> Option<Fragments> {
    match p.fragments_of(i) {
        Some(f) => Some(
            Fragments {
                start_protrusions: Some(leading_credits(p.words[i], f.offsets, e.suffixes)),
                hyphen_protrusion: Some(e.hyphen.end),
                ..f
            },
        ),
        None => None,
    }
}

/// A paragraph whose words have these edges.
pub open spec fn with_edges(p: Paragraph, e: Seq<Edges>) -> Paragraph {
    let n = p.words.len();
    Paragraph {
        start_protrusions: Some(Seq::new(n, |i: int| e[i].whole.start)),
        end_protrusions: Some(Seq::new(n, |i: int| e[i].whole.end)),
        hyphenation: Some(Seq::new(n, |i: int| edged_entry(p, i, e[i]))),
        ..p
    }
}

/// A text whose edges are asked for with the word with index `i`.
pub open spec fn asks(p: Paragraph, i: int, key: Seq<char>) -> bool {
    let word = p.words[i];
    ||| key == word
    ||| p.fragments_of(i) matches Some(f) && {
        ||| key == "-"@
        ||| exists|k: int|
            0 <= k < f.offsets.len() && goes_on(word, f.offsets[k]) && key == suffix(
                word,
                #[trigger] f.offsets[k],
            )
    }
}

/// The callback may give unusable margins to a text that is asked for.
pub open spec fn edges_fail<F: FnMut(&str, usize) -> Margins>(measure: F, p: Paragraph) -> bool {
    exists|i: int, key: Seq<char>, m: Margins|
        0 <= i < p.words.len() && asks(p, i, key) && !usable_margins(m) && #[trigger] answers_edge(
            measure,
            key,
            i as usize,
            m,
        )
}

/// Measure the edges of one word.
fn measure_edges<F: FnMut(&str, usize) -> Margins>(p: &Prepared, index: usize, measure: F) -> (r: (
    Result<(Margins, Option<WordFragments>, Ghost<Edges>), Error>,
    F,
))
    requires
        p@.valid(),
        sliced(p@),
        index < p@.words.len(),
        forall|s: &str|
            asks(p@, index as int, s@) ==> #[trigger] measure.requires((s, index)),
    ensures
        r.1 == measure,
        r.0 matches Ok((m, f, e)) ==> {
            &&& edged(measure, p@, index as int, e@)
            &&& m == e@.whole
            &&& fragments_model(f) == edged_entry(p@, index as int, e@)
        },
        r.0 matches Err(e) ==> e@ == "Optical margins must be finite and nonnegative"@
            && edges_fail(measure, p@),
{
    let mut ruler: F = measure;
    let ghost i = index as int;
    let word: &String = &p.words[index];
    assert(word@ == p@.words[i]);
    let total: usize = byte_length(word.as_str());
    let whole: Margins = ruler(word.as_str(), index);
    assert(answers_edge(measure, word@, i as usize, whole));
    if !usable_margins(whole) {
        assert(asks(p@, i, word@));
        return (Err(Error::range("Optical margins must be finite and nonnegative")), ruler);
    }
    let source: &WordFragments = match fragments_at(p, index) {
        Some(f) => f,
        None => {
            let ghost e = Edges { whole, suffixes: seq![], hyphen: whole };
            return (Ok((whole, None, Ghost(e))), ruler);
        },
    };
    let mut fragments: WordFragments = source.clone();
    let ghost f = source@;
    let n: usize = source.offsets.len();
    let mut start: Vec<Binary64> = Vec::new();
    let ghost mut suffixes: Seq<Margins> = seq![];
    let mut k: usize = 0;
    while k < n
        invariant
            p@.valid(),
            index < p@.words.len(),
            i == index,
            word@ == p@.words[i],
            p@.fragments_of(i) == Some(f),
            f == source@,
            n == f.offsets.len(),
            ordered(word@, f.offsets),
            total == offset(word@, word@.len() as int),
            forall|s: &str| asks(p@, i, s@) ==> #[trigger] ruler.requires((s, index)),
            ruler == measure,
            k <= n,
            suffixes.len() == k,
            start@.len() == k,
            forall|j: int|
                0 <= j < k && goes_on(word@, f.offsets[j]) ==> given(
                    measure,
                    suffix(word@, f.offsets[j]),
                    i,
                    #[trigger] suffixes[j],
                ),
            forall|j: int|
                0 <= j < k ==> #[trigger] start@[j] == if goes_on(word@, f.offsets[j]) {
                    suffixes[j].start
                } else {
                    Binary64::zero()
                },
        decreases n - k,
    {
        let at: usize = source.offsets[k];
        if at == total {
            start.push(Binary64::zero());
            proof {
                suffixes = suffixes.push(whole);
            }
        } else {
            proof {
                assert(boundary(word@, f.offsets[k as int] as int));
                lemma_boundary_index(word@, at as int);
                lemma_index_at(word@, word@.len() as int);
            }
            let rest: &str = part(
                word.as_str(),
                at,
                total,
                Ghost(index_at(word@, at as int)),
                Ghost(word@.len() as int),
            );
            assert(rest@ == suffix(word@, f.offsets[k as int]));
            assert(asks(p@, i, rest@));
            let m: Margins = ruler(rest, index);
            assert(answers_edge(measure, suffix(word@, f.offsets[k as int]), i as usize, m));
            if !usable_margins(m) {
                assert(asks(p@, i, suffix(word@, f.offsets[k as int])));
                return (Err(Error::range("Optical margins must be finite and nonnegative")), ruler);
            }
            start.push(m.start);
            proof {
                suffixes = suffixes.push(m);
            }
        }
        k = k + 1;
    }
    let hyphen: Margins = ruler("-", index);
    assert(answers_edge(measure, "-"@, i as usize, hyphen));
    if !usable_margins(hyphen) {
        assert(asks(p@, i, "-"@));
        return (Err(Error::range("Optical margins must be finite and nonnegative")), ruler);
    }
    fragments.start_protrusions = Some(start);
    fragments.hyphen_protrusion = Some(hyphen.end);
    let ghost e = Edges { whole, suffixes, hyphen };
    assert(start@ =~= leading_credits(word@, f.offsets, suffixes));
    (Ok((whole, Some(fragments), Ghost(e))), ruler)
}

/// Attach font-aware edge measurements after preparing optional hyphenation.
/// The callback receives full words, continuation suffixes, and the generated '-'.
/// The numerical core never measures or rasterizes a font itself.
pub fn with_optical_margins<F: FnMut(&str, usize) -> Margins>(p: &Prepared, measure: F) -> (r:
    Result<Prepared, Error>)
    requires
        p@.valid(),
        sliced(p@),
        forall|s: &str, i: usize|
            i < p@.words.len() && asks(p@, i as int, s@) ==> #[trigger] measure.requires((s, i)),
    ensures
        r matches Ok(q) ==> exists|e: Seq<Edges>| #[trigger]
            all_edged(measure, p@, e) && q@ == with_edges(p@, e),
        r matches Ok(q) ==> q@.valid() && sliced(q@),
        r matches Err(e) ==> e@ == "Optical margins must be finite and nonnegative"@
            && edges_fail(measure, p@),
{
    let mut ruler: F = measure;
    let n: usize = p.words.len();
    let mut start_protrusions: Vec<Binary64> = Vec::new();
    let mut end_protrusions: Vec<Binary64> = Vec::new();
    let mut hyphenation: Vec<Option<WordFragments>> = Vec::new();
    let ghost mut edges: Seq<Edges> = seq![];
    let mut index: usize = 0;
    while index < n
        invariant
            p@.valid(),
            sliced(p@),
            forall|s: &str, i: usize|
                i < p@.words.len() && asks(p@, i as int, s@) ==> #[trigger] ruler.requires((s, i)),
            ruler == measure,
            n == p@.words.len(),
            index <= n,
            edges.len() == index,
            start_protrusions@.len() == index,
            end_protrusions@.len() == index,
            hyphenation@.len() == index,
            forall|i: int| 0 <= i < index ==> edged(measure, p@, i, #[trigger] edges[i]),
            forall|i: int|
                0 <= i < index ==> #[trigger] start_protrusions@[i] == edges[i].whole.start,
            forall|i: int| 0 <= i < index ==> #[trigger] end_protrusions@[i] == edges[i].whole.end,
            forall|i: int|
                0 <= i < index ==> fragments_model(#[trigger] hyphenation@[i]) == edged_entry(
                    p@,
                    i,
                    edges[i],
                ),
        decreases n - index,
    {
        let (r, back): (
            Result<(Margins, Option<WordFragments>, Ghost<Edges>), Error>,
            F,
        ) = measure_edges(p, index, ruler);
        ruler = back;
        match r {
            Ok((m, f, e)) => {
                start_protrusions.push(m.start);
                end_protrusions.push(m.end);
                hyphenation.push(f);
                proof {
                    edges = edges.push(e@);
                }
            },
            Err(e) => {
                return Err(e);
            },
        }
        index = index + 1;
    }
    let mut q: Prepared = p.clone();
    q.start_protrusions = Some(start_protrusions);
    q.end_protrusions = Some(end_protrusions);
    q.hyphenation = Some(hyphenation);
    proof {
        let expected = with_edges(p@, edges);
        let entries = entry_models(hyphenation@);
        assert forall|i: int| 0 <= i < n implies #[trigger] entries[i]
            == expected.hyphenation->0[i] by {
            assert(entries[i] == fragments_model(hyphenation@[i]));
        }
        assert(entries =~= expected.hyphenation->0);
        assert(start_protrusions@ =~= expected.start_protrusions->0);
        assert(end_protrusions@ =~= expected.end_protrusions->0);
        assert(q@ == expected);
        assert(all_edged(measure, p@, edges));
        law_edges_keep_validity(p@, edges);
    }
    Ok(q)
}

/// Edges change nothing but the credits: the paragraph stays well formed, with
/// the same words, widths and breaks.
pub proof fn law_edges_keep_validity(p: Paragraph, e: Seq<Edges>)
    requires
        p.valid(),
        sliced(p),
    ensures
        with_edges(p, e).valid(),
        sliced(with_edges(p, e)),
        with_edges(p, e).words == p.words,
        with_edges(p, e).widths == p.widths,
        forall|i: int|
            0 <= i < p.words.len() ==> (#[trigger] with_edges(p, e).fragments_of(i) matches Some(f)
                ==> p.fragments_of(i) matches Some(g) && f.offsets == g.offsets && f.explicit
                == g.explicit),
{
    let q = with_edges(p, e);
    let entries = q.hyphenation->0;
    assert forall|i: int| 0 <= i < entries.len() implies valid_entry(#[trigger] entries[i]) by {
        if p.fragments_of(i) is Some {
            assert(valid_entry(p.hyphenation->0[i]));
        }
    }
    assert forall|i: int|
        0 <= i < p.words.len() && (#[trigger] q.fragments_of(i)) is Some implies ordered(
        q.words[i],
        q.fragments_of(i)->0.offsets,
    ) by {
        assert(p.fragments_of(i) is Some);
    }
}

}
