//! Measuring a paragraph once, for use across widths and policies.

use crate::binary64::Binary64;
use crate::costs::measured;
use crate::fragments::{
    boundary, flags_of, fragments, fragments_by, lemma_same_pieces, needed, ordered, pieces_fail,
    pieces_in, pieces_known, pieces_taken,
};
use crate::gauge::{answers_text, lemma_index_at, slice, Gauge, RangeGauge, TextGauge};
use crate::hyphenation::sliced;
use crate::model::{
    entry_models, fragments_model, valid_entry, Error, Fragments, Paragraph, Prepared,
    WordFragments,
};
use crate::numeric::js_min;
use crate::signs::{lemma_add_raises, lemma_add_sign, lemma_ratio_sign, not_negative};
use crate::solve::unsigned;
use crate::text::{
    are_runs, byte_length, explicit_hyphens, explicit_offsets, grapheme_count, grapheme_total,
    hyphen_offsets, joins, law_trailing_run, law_words_are_runs, leading_quote,
    lemma_offset_monotone, lemma_offset_within, lemma_trimmed, offset, part, punctuation_start,
    spans_bytes, split_ranges, start_quote, trailing_punctuation, trailing_run, width, word_spans,
};
use std::sync::Arc;
use vstd::hash_map::StringHashMap;
use vstd::prelude::*;

verus! {

/// What measuring a word has given.
pub struct Answers {
    /// The width of the whole word.
    pub whole: Binary64,
    /// The width of its trailing punctuation.
    pub ending: Binary64,
    /// The width of its leading quotation mark.
    pub opening: Binary64,
    /// The widths of its fragments.
    pub pieces: spec_fn(int, int, bool) -> Binary64,
}

/// The word with index `k`.
pub open spec fn word_at(text: Seq<char>, k: int) -> Seq<char> {
    text.subrange(word_spans(text)[k].0, word_spans(text)[k].1)
}

/// The byte at which the word with index `k` begins.
pub open spec fn word_start(text: Seq<char>, k: int) -> nat {
    offset(text, word_spans(text)[k].0)
}

/// The byte at which the word with index `k` ends.
pub open spec fn word_end(text: Seq<char>, k: int) -> nat {
    offset(text, word_spans(text)[k].1)
}

/// The offsets after the hyphens of a word.
pub open spec fn hyphens_in(word: Seq<char>) -> Seq<usize> {
    explicit_offsets(word).map_values(|at: nat| at as usize)
}

/// The boundaries of the fragments that a word has by itself: its ends and its
/// hyphens.
pub open spec fn boundaries(word: Seq<char>) -> Seq<usize> {
    seq![0usize] + hyphens_in(word) + seq![offset(word, word.len() as int) as usize]
}

/// The byte within a word at which its trailing punctuation begins.
pub open spec fn ending_at(word: Seq<char>) -> nat {
    offset(word, punctuation_start(word, word.len() as int))
}

/// True of a word that begins with a quotation mark.
pub open spec fn quoted(word: Seq<char>) -> bool {
    word.len() > 0 && start_quote(word[0])
}

/// The advance of the trailing punctuation, at most that of the word.
pub open spec fn end_hang(word: Seq<char>, a: Answers) -> Binary64 {
    if trailing_run(word).len() > 0 {
        js_min(a.whole, a.ending)
    } else {
        Binary64::zero()
    }
}

/// The advance of the leading quotation mark, at most that of the word.
pub open spec fn start_hang(word: Seq<char>, a: Answers) -> Binary64 {
    if quoted(word) {
        js_min(a.whole, a.opening)
    } else {
        Binary64::zero()
    }
}

/// The fragments that a word has by its own hyphens.
pub open spec fn own_fragments(word: Seq<char>, a: Answers) -> Option<Fragments> {
    if explicit_offsets(word).len() > 0 {
        Some(
            fragments_by(
                word,
                a.whole,
                boundaries(word),
                flags_of(boundaries(word), hyphens_in(word)),
                a.pieces,
            ),
        )
    } else {
        None
    }
}

/// The sum of the widths of the first `k` words.
pub open spec fn width_to(answers: Seq<Answers>, k: nat) -> Binary64
    decreases k,
{
    if k == 0 {
        Binary64::zero()
    } else {
        width_to(answers, (k - 1) as nat) + answers[k - 1].whole
    }
}

/// The number of characters of the first `k` words.
pub open spec fn characters_to(text: Seq<char>, k: nat) -> Binary64
    decreases k,
{
    if k == 0 {
        Binary64::zero()
    } else {
        characters_to(text, (k - 1) as nat) + Binary64::from_count(
            grapheme_total(word_at(text, k - 1)) as usize,
        )
    }
}

/// Some word has fragments by its own hyphens.
pub open spec fn any_hyphen(text: Seq<char>) -> bool {
    exists|k: int|
        0 <= k < word_spans(text).len() && explicit_offsets(#[trigger] word_at(text, k)).len() > 0
}

/// The paragraph of a text whose words have measured like this.
pub open spec fn paragraph_of(text: Seq<char>, space: Binary64, answers: Seq<Answers>) -> Paragraph {
    let n = word_spans(text).len();
    Paragraph {
        words: Seq::new(n, |k: int| word_at(text, k)),
        widths: Seq::new(n + 1, |k: int| width_to(answers, k as nat)),
        characters: Seq::new(n + 1, |k: int| characters_to(text, k as nat)),
        end_hangs: Seq::new(n, |k: int| end_hang(word_at(text, k), answers[k])),
        start_hangs: Seq::new(n, |k: int| start_hang(word_at(text, k), answers[k])),
        start_protrusions: None,
        end_protrusions: None,
        space,
        hyphenation: if any_hyphen(text) {
            Some(Seq::new(n, |k: int| own_fragments(word_at(text, k), answers[k])))
        } else {
            None
        },
    }
}

/// A word that begins at the byte `base` was measured like this.
pub open spec fn answered<G: Gauge>(g: G, base: int, word: Seq<char>, a: Answers) -> bool {
    let end = base + offset(word, word.len() as int);
    &&& g.knows(base, end, false, a.whole)
    &&& trailing_run(word).len() > 0 ==> g.knows(base + ending_at(word), end, false, a.ending)
    &&& quoted(word) ==> g.knows(base, base + width(word[0]), false, a.opening)
    &&& explicit_offsets(word).len() > 0 ==> pieces_known(
        g,
        base,
        boundaries(word),
        flags_of(boundaries(word), hyphens_in(word)),
        a.pieces,
    )
}

/// Measuring a word that begins at the byte `base` may fail.
pub open spec fn unanswered<G: Gauge>(g: G, base: int, word: Seq<char>) -> bool {
    let end = base + offset(word, word.len() as int);
    ||| g.fails(base, end, false)
    ||| trailing_run(word).len() > 0 && g.fails(base + ending_at(word), end, false)
    ||| quoted(word) && g.fails(base, base + width(word[0]), false)
    ||| explicit_offsets(word).len() > 0 && pieces_fail(
        g,
        base,
        boundaries(word),
        flags_of(boundaries(word), hyphens_in(word)),
    )
}

/// The callback takes every request that measuring a word makes.
pub open spec fn askable<G: Gauge>(g: G, base: int, word: Seq<char>) -> bool {
    let end = base + offset(word, word.len() as int);
    &&& g.takes(base, end, false)
    &&& trailing_run(word).len() > 0 ==> g.takes(base + ending_at(word), end, false)
    &&& quoted(word) ==> g.takes(base, base + width(word[0]), false)
    &&& explicit_offsets(word).len() > 0 ==> pieces_taken(
        g,
        base,
        boundaries(word),
        flags_of(boundaries(word), hyphens_in(word)),
    )
}

/// A range of bytes inside one word of a text, between characters.
pub open spec fn inside_word(text: Seq<char>, from: int, to: int) -> bool {
    &&& boundary(text, from)
    &&& boundary(text, to)
    &&& exists|k: int|
        0 <= k < word_spans(text).len() && #[trigger] word_start(text, k) <= from < to <= word_end(
            text,
            k,
        )
}

/// The text of a range inside one word.
pub open spec fn part_of_word(text: Seq<char>, key: Seq<char>) -> bool {
    exists|from: int, to: int| #[trigger]
        inside_word(text, from, to) && key == slice(text, from, to)
}

/// Measuring a word asks only for ranges inside it, and never for a hyphen:
/// every inner break is after a hyphen of the source.
pub proof fn law_requests_inside_words(text: Seq<char>, k: int)
    requires
        0 <= k < word_spans(text).len(),
        offset(text, text.len() as int) <= usize::MAX,
    ensures
        ({
            let word = word_at(text, k);
            let base = word_start(text, k) as int;
            let end = base + offset(word, word.len() as int);
            let all = boundaries(word);
            let flags = flags_of(all, hyphens_in(word));
            &&& inside_word(text, base, end)
            &&& trailing_run(word).len() > 0 ==> inside_word(text, base + ending_at(word), end)
            &&& quoted(word) ==> inside_word(text, base, base + width(word[0]))
            &&& forall|from: int, to: int, hyphen: bool| #[trigger]
                needed(all.len(), flags, from, to, hyphen) ==> !hyphen && inside_word(
                    text,
                    base + all[from],
                    base + all[to],
                )
        }),
{
    let (i, j) = word_spans(text)[k];
    let word = word_at(text, k);
    let n = word.len() as int;
    let base = word_start(text, k) as int;
    law_words_are_runs(text);
    lemma_trimmed(text);
    assert(i < j);
    lemma_offset_within(text, i, j, n);
    lemma_offset_monotone(text, j, text.len() as int);
    lemma_boundaries(word);
    law_trailing_run(word);
    assert(base + offset(word, n) == word_end(text, k));
    assert forall|x: int, y: int|
        #[trigger] boundary(word, x) && #[trigger] boundary(word, y) && x < y implies inside_word(
        text,
        base + x,
        base + y,
    ) by {
        let a = choose|a: int| 0 <= a <= n && #[trigger] offset(word, a) == x;
        let b = choose|b: int| 0 <= b <= n && #[trigger] offset(word, b) == y;
        lemma_offset_within(text, i, j, a);
        lemma_offset_within(text, i, j, b);
        lemma_offset_monotone(word, 0, a);
        lemma_offset_monotone(word, b, n);
        assert(offset(text, i + a) == base + x);
        assert(offset(text, i + b) == base + y);
        assert(word_start(text, k) <= base + x);
    }
    assert(offset(word, 0) == 0);
    assert(boundary(word, 0));
    assert(boundary(word, offset(word, n) as int));
    lemma_offset_monotone(word, 0, n);
    assert(inside_word(text, base + 0, base + offset(word, n)));
    if trailing_run(word).len() > 0 {
        let m = punctuation_start(word, n);
        assert(boundary(word, offset(word, m) as int));
        lemma_offset_monotone(word, m, n);
        assert(inside_word(text, base + offset(word, m), base + offset(word, n)));
    }
    if quoted(word) {
        reveal_with_fuel(offset, 2);
        assert(offset(word, 1) == width(word[0]));
        assert(boundary(word, offset(word, 1) as int));
        lemma_offset_monotone(word, 0, 1);
        assert(inside_word(text, base + 0, base + offset(word, 1)));
    }
    let all = boundaries(word);
    let flags = flags_of(all, hyphens_in(word));
    assert forall|from: int, to: int, hyphen: bool| #[trigger]
        needed(all.len(), flags, from, to, hyphen) implies !hyphen && inside_word(
        text,
        base + all[from],
        base + all[to],
    ) by {
        if to < all.len() - 1 {
            assert(all[to] == hyphens_in(word)[to - 1]);
            assert(hyphens_in(word).contains(all[to]));
            assert(flags[to]);
        }
        assert(boundary(word, all[from] as int) && boundary(word, all[to] as int));
    }
}

/// A callback that takes every range inside a word takes what measuring asks.
proof fn lemma_askable<G: Gauge>(g: G, text: Seq<char>, k: int)
    requires
        0 <= k < word_spans(text).len(),
        offset(text, text.len() as int) <= usize::MAX,
        forall|from: int, to: int| #[trigger]
            inside_word(text, from, to) ==> g.takes(from, to, false),
    ensures
        askable(g, word_start(text, k) as int, word_at(text, k)),
{
    law_requests_inside_words(text, k);
}

/// Why a space width is refused, if it is.
pub open spec fn space_refusal(space: Binary64) -> Option<Seq<char>> {
    if !unsigned(space) {
        Some("Invalid measured word width"@)
    } else if space.le(Binary64::zero()) {
        Some("Space width must be positive"@)
    } else {
        None
    }
}

/// The machine can hold the fragment tables of the words of a text.
pub open spec fn tabulable(text: Seq<char>) -> bool {
    forall|k: int|
        0 <= k < word_spans(text).len() ==> boundaries(#[trigger] word_at(text, k)).len()
            * boundaries(word_at(text, k)).len() <= usize::MAX
}

/// The hyphens of a word lie inside it, in order.
proof fn lemma_hyphen_offsets(s: Seq<char>, n: int)
    requires
        0 <= n <= s.len(),
    ensures
        forall|k: int|
            0 <= k < hyphen_offsets(s, n).len() ==> boundary(
                s,
                (#[trigger] hyphen_offsets(s, n)[k]) as int,
            ) && 0 < hyphen_offsets(s, n)[k] <= offset(s, n) && hyphen_offsets(s, n)[k] < offset(
                s,
                s.len() as int,
            ),
        forall|j: int, k: int|
            0 <= j < k < hyphen_offsets(s, n).len() ==> (#[trigger] hyphen_offsets(s, n)[j])
                < #[trigger] hyphen_offsets(s, n)[k],
    decreases n,
{
    if n > 0 {
        lemma_hyphen_offsets(s, n - 1);
        lemma_offset_monotone(s, n - 1, n);
        let (before, all) = (hyphen_offsets(s, n - 1), hyphen_offsets(s, n));
        if joins(s, n - 1) {
            lemma_offset_monotone(s, n, s.len() as int);
            assert(boundary(s, offset(s, n) as int));
            assert(all == before.push(offset(s, n)));
        }
        assert forall|k: int| 0 <= k < all.len() implies boundary(s, (#[trigger] all[k]) as int)
            && 0 < all[k] <= offset(s, n) && all[k] < offset(s, s.len() as int) by {
            if k < before.len() {
                assert(all[k] == before[k]);
            }
        }
        assert forall|j: int, k: int| 0 <= j < k < all.len() implies (#[trigger] all[j])
            < #[trigger] all[k] by {
            assert(all[j] == before[j]);
            if k < before.len() {
                assert(all[k] == before[k]);
            }
        }
    }
}

/// The boundaries of a word are in order, and those inside lie past its start.
proof fn lemma_boundaries(word: Seq<char>)
    requires
        word.len() > 0,
        offset(word, word.len() as int) <= usize::MAX,
    ensures
        ordered(word, boundaries(word)),
        boundaries(word).len() == explicit_offsets(word).len() + 2,
        forall|k: int| 0 < k < boundaries(word).len() ==> 0 < #[trigger] boundaries(word)[k],
        boundaries(word)[0] == 0,
        boundaries(word).last() == offset(word, word.len() as int),
        !word.contains('\u{a0}') ==> hyphens_in(word).map_values(|x: usize| x as nat)
            == hyphen_offsets(word, word.len() as int),
{
    let n = word.len() as int;
    lemma_hyphen_offsets(word, n);
    lemma_offset_monotone(word, 0, n);
    assert(offset(word, 0) == 0);
    assert(boundary(word, 0));
    assert(boundary(word, offset(word, n) as int));
    let inner = explicit_offsets(word);
    assert forall|k: int| 0 <= k < inner.len() implies hyphens_in(word)[k]
        == #[trigger] inner[k] by {}
    let all = boundaries(word);
    assert forall|k: int| 0 <= k < all.len() implies boundary(word, #[trigger] all[k] as int) by {
        if 0 < k < all.len() - 1 {
            assert(all[k] == inner[k - 1]);
        }
    }
    assert forall|j: int, k: int| 0 <= j < k < all.len() implies (#[trigger] all[j])
        < #[trigger] all[k] by {
        if 0 < j {
            assert(all[j] == inner[j - 1]);
        }
        if k < all.len() - 1 {
            assert(all[k] == inner[k - 1]);
        }
    }
    assert(hyphens_in(word).map_values(|x: usize| x as nat) =~= inner);
}

/// What is measured of one word.
struct Measured {
    whole: Binary64,
    characters: Binary64,
    end_hang: Binary64,
    start_hang: Binary64,
    fragments: Option<WordFragments>,
}

/// Measure one word, which stands at the character `at` of the text.
fn measure_word<G: Gauge>(word: &str, start: usize, end: usize, gauge: G, at: Ghost<int>) -> (r: (
    Result<(Measured, Ghost<Answers>), Error>,
    G,
))
    requires
        gauge.valid(),
        word@.len() > 0,
        0 <= at@ <= at@ + word@.len() <= gauge.source().len(),
        word@ == gauge.source().subrange(at@, at@ + word@.len()),
        start == offset(gauge.source(), at@),
        end == offset(gauge.source(), at@ + word@.len()),
        offset(gauge.source(), gauge.source().len() as int) <= usize::MAX,
        boundaries(word@).len() * boundaries(word@).len() <= usize::MAX,
        askable(gauge, start as int, word@),
    ensures
        r.1.valid(),
        r.1.ruler() == gauge.ruler(),
        r.1.source() == gauge.source(),
        r.1.complaint() == gauge.complaint(),
        forall|a: int, b: int, h: bool, w: Binary64|
            gauge.knows(a, b, h, w) ==> #[trigger] r.1.knows(a, b, h, w),
        forall|a: int, b: int, h: bool| #[trigger] r.1.fails(a, b, h) == gauge.fails(a, b, h),
        forall|a: int, b: int, h: bool| #[trigger] r.1.takes(a, b, h) == gauge.takes(a, b, h),
        match r.0 {
            Ok((m, a)) => {
                &&& answered(r.1, start as int, word@, a@)
                &&& m.whole == a@.whole
                &&& m.characters == Binary64::from_count(grapheme_total(word@) as usize)
                &&& m.end_hang == end_hang(word@, a@)
                &&& m.start_hang == start_hang(word@, a@)
                &&& fragments_model(m.fragments) == own_fragments(word@, a@)
            },
            Err(e) => e@ == gauge.complaint() && unanswered(gauge, start as int, word@),
        },
{
    let ghost text = gauge.source();
    let ghost s = word@;
    let ghost n = s.len() as int;
    let ghost i = at@;
    let total: usize = byte_length(word);
    proof {
        lemma_offset_within(text, i, i + n, n);
        lemma_boundaries(s);
        law_trailing_run(s);
        lemma_offset_monotone(text, i + n, text.len() as int);
    }
    let (r, g): (Result<Binary64, Error>, G) = gauge.width(
        start,
        end,
        false,
        Ghost(i),
        Ghost(i + n),
    );
    let whole: Binary64 = match r {
        Ok(w) => w,
        Err(e) => {
            return (Err(e), g);
        },
    };
    let mut g: G = g;
    let mut ending: Binary64 = Binary64::zero();
    let mut end_hang: Binary64 = Binary64::zero();
    if let Some(punctuation) = trailing_punctuation(word) {
        let length: usize = byte_length(punctuation);
        let ghost k = punctuation_start(s, n);
        proof {
            lemma_offset_within(s, k, n, n - k);
            lemma_offset_within(text, i, i + n, k);
            lemma_offset_monotone(s, 0, k);
        }
        let (r, next): (Result<Binary64, Error>, G) = g.width(
            start + (total - length),
            end,
            false,
            Ghost(i + k),
            Ghost(i + n),
        );
        g = next;
        ending = match r {
            Ok(w) => w,
            Err(e) => {
                return (Err(e), g);
            },
        };
        end_hang = js_min(whole, ending);
    }
    let mut opening: Binary64 = Binary64::zero();
    let mut start_hang: Binary64 = Binary64::zero();
    if let Some(quote) = leading_quote(word) {
        let length: usize = byte_length(quote);
        proof {
            lemma_offset_within(text, i, i + n, 1);
            lemma_offset_monotone(text, i + 1, i + n);
            reveal_with_fuel(offset, 2);
            assert(offset(s, 1) == width(s[0]));
            assert(offset(s.subrange(0, 1), 1) == width(s[0]));
        }
        let (r, next): (Result<Binary64, Error>, G) = g.width(
            start,
            start + length,
            false,
            Ghost(i),
            Ghost(i + 1),
        );
        g = next;
        opening = match r {
            Ok(w) => w,
            Err(e) => {
                return (Err(e), g);
            },
        };
        start_hang = js_min(whole, opening);
    }
    let explicit: Vec<usize> = explicit_hyphens(word);
    let characters: Binary64 = Binary64::from_count(grapheme_count(word));
    assert(explicit@ =~= hyphens_in(s)) by {
        assert(explicit@.map_values(|x: usize| x as nat).len() == explicit@.len());
        assert forall|k: int| 0 <= k < explicit@.len() implies explicit@[k]
            == #[trigger] hyphens_in(s)[k] by {
            assert(explicit@.map_values(|x: usize| x as nat)[k] == explicit@[k] as nat);
        }
    }
    let ghost none = |a: int, b: int, h: bool| Binary64::zero();
    if explicit.len() == 0 {
        let ghost a = Answers { whole, ending, opening, pieces: none };
        return (Ok((Measured { whole, characters, end_hang, start_hang, fragments: None }, Ghost(a))), g);
    }
    let mut offsets: Vec<usize> = Vec::new();
    offsets.push(0);
    let mut k: usize = 0;
    while k < explicit.len()
        invariant
            k <= explicit@.len(),
            offsets@ == seq![0usize] + explicit@.take(k as int),
        decreases explicit@.len() - k,
    {
        offsets.push(explicit[k]);
        k = k + 1;
        assert(offsets@ =~= seq![0usize] + explicit@.take(k as int));
    }
    offsets.push(total);
    assert(offsets@ =~= boundaries(s));
    let (r, g): (Result<WordFragments, Error>, G) = fragments(
        word,
        whole,
        offsets,
        &explicit,
        g,
        start,
        at,
    );
    match r {
        Ok(f) => {
            let ghost a = Answers { whole, ending, opening, pieces: pieces_in(f@) };
            (
                Ok(
                    (
                        Measured { whole, characters, end_hang, start_hang, fragments: Some(f) },
                        Ghost(a),
                    ),
                ),
                g,
            )
        },
        Err(e) => (Err(e), g),
    }
}

/// Every word of a text was measured like this.
pub open spec fn all_answered<G: Gauge>(g: G, text: Seq<char>, answers: Seq<Answers>) -> bool {
    &&& answers.len() == word_spans(text).len()
    &&& forall|k: int|
        0 <= k < answers.len() ==> answered(
            g,
            word_start(text, k) as int,
            word_at(text, k),
            #[trigger] answers[k],
        )
}

/// Measuring some word of a text may fail.
pub open spec fn some_unanswered<G: Gauge>(g: G, text: Seq<char>) -> bool {
    exists|k: int|
        0 <= k < word_spans(text).len() && unanswered(
            g,
            word_start(text, k) as int,
            #[trigger] word_at(text, k),
        )
}

/// What a gauge knows of a word, a later one knows too.
proof fn lemma_answered_kept<G: Gauge>(g: G, later: G, base: int, word: Seq<char>, a: Answers)
    requires
        answered(g, base, word, a),
        forall|x: int, y: int, h: bool, w: Binary64|
            g.knows(x, y, h, w) ==> #[trigger] later.knows(x, y, h, w),
    ensures
        answered(later, base, word, a),
{
}

/// Further words do not change the width of the first ones.
proof fn lemma_width_to(answers: Seq<Answers>, a: Answers, k: nat)
    requires
        k <= answers.len(),
    ensures
        width_to(answers.push(a), k) == width_to(answers, k),
    decreases k,
{
    if k > 0 {
        lemma_width_to(answers, a, (k - 1) as nat);
    }
}

/// A paragraph as it is measured, word by word.
struct Draft {
    words: Vec<String>,
    widths: Vec<Binary64>,
    characters: Vec<Binary64>,
    end_hangs: Vec<Binary64>,
    start_hangs: Vec<Binary64>,
    hyphenation: Vec<Option<WordFragments>>,
    any_fragments: bool,
}

impl Draft {
    /// The first `k` words of a text are drafted.
    spec fn holds(self, text: Seq<char>, answers: Seq<Answers>, k: int) -> bool {
        &&& answers.len() == k
        &&& self.words@.len() == k
        &&& self.widths@.len() == k + 1
        &&& self.characters@.len() == k + 1
        &&& self.end_hangs@.len() == k
        &&& self.start_hangs@.len() == k
        &&& self.hyphenation@.len() == k
        &&& forall|j: int| 0 <= j < k ==> (#[trigger] self.words@[j])@ == word_at(text, j)
        &&& forall|j: int|
            0 <= j <= k ==> #[trigger] self.widths@[j] == width_to(answers, j as nat)
        &&& forall|j: int|
            0 <= j <= k ==> #[trigger] self.characters@[j] == characters_to(text, j as nat)
        &&& forall|j: int|
            0 <= j < k ==> #[trigger] self.end_hangs@[j] == end_hang(word_at(text, j), answers[j])
        &&& forall|j: int|
            0 <= j < k ==> #[trigger] self.start_hangs@[j] == start_hang(
                word_at(text, j),
                answers[j],
            )
        &&& forall|j: int|
            0 <= j < k ==> fragments_model(#[trigger] self.hyphenation@[j]) == own_fragments(
                word_at(text, j),
                answers[j],
            )
        &&& self.any_fragments <==> exists|j: int|
            0 <= j < k && explicit_offsets(#[trigger] word_at(text, j)).len() > 0
    }

    /// A draft of no words.
    fn new() -> (d: Draft)
        ensures
            forall|text: Seq<char>| #[trigger] d.holds(text, seq![], 0),
    {
        let mut widths: Vec<Binary64> = Vec::new();
        widths.push(Binary64::zero());
        let mut characters: Vec<Binary64> = Vec::new();
        characters.push(Binary64::zero());
        Draft {
            words: Vec::new(),
            widths,
            characters,
            end_hangs: Vec::new(),
            start_hangs: Vec::new(),
            hyphenation: Vec::new(),
            any_fragments: false,
        }
    }

    /// Adds the next word.
    fn add_word(
        &mut self,
        word: String,
        m: Measured,
        text: Ghost<Seq<char>>,
        answers: Ghost<Seq<Answers>>,
        a: Ghost<Answers>,
    )
        requires
            old(self).holds(text@, answers@, answers@.len() as int),
            word@ == word_at(text@, answers@.len() as int),
            m.whole == a@.whole,
            m.characters == Binary64::from_count(grapheme_total(word@) as usize),
            m.end_hang == end_hang(word@, a@),
            m.start_hang == start_hang(word@, a@),
            fragments_model(m.fragments) == own_fragments(word@, a@),
        ensures
            final(self).holds(text@, answers@.push(a@), answers@.len() + 1int),
    {
        let ghost k = answers@.len() as int;
        let i: usize = self.words.len();
        self.widths.push(self.widths[i] + m.whole);
        self.characters.push(self.characters[i] + m.characters);
        self.end_hangs.push(m.end_hang);
        self.start_hangs.push(m.start_hang);
        self.any_fragments = self.any_fragments || m.fragments.is_some();
        self.hyphenation.push(m.fragments);
        self.words.push(word);
        proof {
            assert forall|j: int| 0 <= j <= k + 1 implies #[trigger] self.widths@[j] == width_to(
                answers@.push(a@),
                j as nat,
            ) by {
                if j <= k {
                    lemma_width_to(answers@, a@, j as nat);
                } else {
                    lemma_width_to(answers@, a@, k as nat);
                }
            }
            assert(self.any_fragments <==> exists|j: int|
                0 <= j < k + 1 && explicit_offsets(#[trigger] word_at(text@, j)).len() > 0) by {
                if m.fragments is Some {
                    assert(explicit_offsets(word_at(text@, k)).len() > 0);
                }
            }
        }
    }

    /// The finished paragraph.
    fn finish(self, space: Binary64, text: Ghost<Seq<char>>, answers: Ghost<Seq<Answers>>) -> (p:
        Prepared)
        requires
            self.holds(text@, answers@, word_spans(text@).len() as int),
        ensures
            p@ == paragraph_of(text@, space, answers@),
    {
        let n: usize = self.words.len();
        let hyphenation: Option<Vec<Option<WordFragments>>> = if self.any_fragments {
            Some(self.hyphenation)
        } else {
            None
        };
        let p: Prepared = Prepared {
            words: self.words,
            widths: Arc::new(self.widths),
            characters: self.characters,
            end_hangs: self.end_hangs,
            start_hangs: self.start_hangs,
            start_protrusions: None,
            end_protrusions: None,
            space,
            hyphenation,
        };
        proof {
            let expected = paragraph_of(text@, space, answers@);
            assert(p@.words =~= expected.words);
            assert(p@.widths =~= expected.widths);
            assert(p@.characters =~= expected.characters);
            assert(p@.end_hangs =~= expected.end_hangs);
            assert(p@.start_hangs =~= expected.start_hangs);
            if any_hyphen(text@) {
                let entries = entry_models(self.hyphenation@);
                assert forall|j: int| 0 <= j < n implies #[trigger] entries[j]
                    == expected.hyphenation->0[j] by {
                    assert(entries[j] == fragments_model(self.hyphenation@[j]));
                }
                assert(entries =~= expected.hyphenation->0);
            }
        }
        p
    }
}

/// Measure every word of a text.
fn prepare_impl<G: Gauge>(text: &str, space: Binary64, gauge: G) -> (r: (
    Result<(Prepared, Ghost<Seq<Answers>>), Error>,
    G,
))
    requires
        gauge.valid(),
        gauge.source() == text@,
        tabulable(text@),
        forall|k: int|
            0 <= k < word_spans(text@).len() ==> askable(
                gauge,
                word_start(text@, k) as int,
                #[trigger] word_at(text@, k),
            ),
    ensures
        r.1.valid(),
        r.1.ruler() == gauge.ruler(),
        r.1.source() == gauge.source(),
        match space_refusal(space) {
            Some(message) => r.0 matches Err(e) && e@ == message,
            None => match r.0 {
                Ok((p, answers)) => {
                    &&& all_answered(r.1, text@, answers@)
                    &&& p@ == paragraph_of(text@, space, answers@)
                },
                Err(e) => e@ == gauge.complaint() && some_unanswered(gauge, text@),
            },
        },
{
    let ghost s = text@;
    let ghost spans = word_spans(s);
    let ranges: Vec<(usize, usize)> = split_ranges(text);
    if !unsigned(space) {
        return (Err(Error::range("Invalid measured word width")), gauge);
    }
    if space.le(Binary64::zero()) {
        return (Err(Error::range("Space width must be positive")), gauge);
    }
    let total: usize = byte_length(text);
    let mut draft: Draft = Draft::new();
    let mut g: G = gauge;
    let ghost mut answers: Seq<Answers> = seq![];
    proof {
        law_words_are_runs(s);
        lemma_trimmed(s);
        assert(draft.holds(s, answers, 0));
    }
    let mut k: usize = 0;
    while k < ranges.len()
        invariant
            g.valid(),
            g.ruler() == gauge.ruler(),
            g.source() == s,
            gauge.source() == s,
            g.complaint() == gauge.complaint(),
            forall|a: int, b: int, h: bool| #[trigger] g.fails(a, b, h) == gauge.fails(a, b, h),
            forall|a: int, b: int, h: bool| #[trigger] g.takes(a, b, h) == gauge.takes(a, b, h),
            forall|k: int|
                0 <= k < spans.len() ==> askable(
                    gauge,
                    word_start(s, k) as int,
                    #[trigger] word_at(s, k),
                ),
            s == text@,
            spans == word_spans(s),
            total == offset(s, s.len() as int),
            spans_bytes(s, spans, ranges@),
            are_runs(s, spans, crate::text::trimmed_from(s), crate::text::trimmed_to(s)),
            0 <= crate::text::trimmed_from(s),
            crate::text::trimmed_to(s) <= s.len(),
            tabulable(s),
            space_refusal(space) is None,
            k <= ranges@.len(),
            draft.holds(s, answers, k as int),
            forall|j: int|
                0 <= j < k ==> answered(
                    g,
                    word_start(s, j) as int,
                    word_at(s, j),
                    #[trigger] answers[j],
                ),
        decreases ranges@.len() - k,
    {
        let (start, end): (usize, usize) = ranges[k];
        let ghost (i, j) = spans[k as int];
        let word: &str = part(text, start, end, Ghost(i), Ghost(j));
        assert(word@ == word_at(s, k as int));
        assert(askable(gauge, start as int, word@));
        assert(askable(g, start as int, word@));
        let (r, next): (Result<(Measured, Ghost<Answers>), Error>, G) = measure_word(
            word,
            start,
            end,
            g,
            Ghost(i),
        );
        let ghost before = g;
        match r {
            Ok((m, a)) => {
                proof {
                    assert forall|x: int| 0 <= x < k implies answered(
                        next,
                        word_start(s, x) as int,
                        word_at(s, x),
                        #[trigger] answers[x],
                    ) by {
                        lemma_answered_kept(
                            before,
                            next,
                            word_start(s, x) as int,
                            word_at(s, x),
                            answers[x],
                        );
                    }
                }
                g = next;
                draft.add_word(word.to_owned(), m, Ghost(s), Ghost(answers), a);
                proof {
                    answers = answers.push(a@);
                }
            },
            Err(e) => {
                proof {
                    assert(unanswered(before, word_start(s, k as int) as int, word@));
                    assert(unanswered(
                        gauge,
                        word_start(s, k as int) as int,
                        word_at(s, k as int),
                    ));
                }
                return (Err(e), next);
            },
        }
        k = k + 1;
    }
    let p: Prepared = draft.finish(space, Ghost(s), Ghost(answers));
    (Ok((p, Ghost(answers))), g)
}

/// `r` is what preparing a text with this gauge gives: an error that says what
/// is wrong, or the paragraph of what was measured.
pub open spec fn prepared_with<G: Gauge>(
    gauge: G,
    text: Seq<char>,
    space: Binary64,
    r: Result<Prepared, Error>,
) -> bool {
    match space_refusal(space) {
        Some(message) => r matches Err(e) && e@ == message,
        None => match r {
            Ok(p) => p@.valid() && sliced(p@) && exists|g: G, answers: Seq<Answers>|
                g.valid() && g.ruler() == gauge.ruler() && g.source() == text
                    && #[trigger] all_answered(g, text, answers) && p@ == paragraph_of(
                    text,
                    space,
                    answers,
                ),
            Err(e) => e@ == gauge.complaint() && some_unanswered(gauge, text),
        },
    }
}

/// A measured paragraph is well formed, and its fragments lie between
/// characters.
pub proof fn law_prepared_valid(text: Seq<char>, space: Binary64, answers: Seq<Answers>)
    requires
        offset(text, text.len() as int) <= usize::MAX,
        answers.len() == word_spans(text).len(),
    ensures
        paragraph_of(text, space, answers).valid(),
        sliced(paragraph_of(text, space, answers)),
{
    let p = paragraph_of(text, space, answers);
    let spans = word_spans(text);
    law_words_are_runs(text);
    lemma_trimmed(text);
    lemma_spans(text);
    lemma_offset_monotone(text, 0, text.len() as int);
    if any_hyphen(text) {
        let entries = p.hyphenation->0;
        assert forall|k: int| 0 <= k < entries.len() implies valid_entry(#[trigger] entries[k]) by {
            let word = word_at(text, k);
            let (i, j) = spans[k];
            lemma_offset_within(text, i, j, j - i);
            lemma_offset_monotone(text, j, text.len() as int);
            lemma_boundaries(word);
            if explicit_offsets(word).len() > 0 {
                lemma_hyphen_count(word, word.len() as int);
                lemma_offset_monotone(word, 0, word.len() as int);
            }
        }
        assert forall|k: int|
            0 <= k < p.words.len() && (#[trigger] p.fragments_of(k)) is Some implies ordered(
            p.words[k],
            p.fragments_of(k)->0.offsets,
        ) by {
            let word = word_at(text, k);
            let (i, j) = spans[k];
            lemma_offset_within(text, i, j, j - i);
            lemma_offset_monotone(text, j, text.len() as int);
            lemma_boundaries(word);
        }
    }
}

/// The words of a measured paragraph have characters, and its spaces a width.
pub proof fn law_prepared_measured(text: Seq<char>, space: Binary64, answers: Seq<Answers>)
    requires
        space_refusal(space) is None,
    ensures
        measured(paragraph_of(text, space, answers)),
{
    let p = paragraph_of(text, space, answers);
    assert forall|a: int, b: int| 0 <= a <= b < p.characters.len() implies (
    #[trigger] p.characters[a]).le(#[trigger] p.characters[b]) by {
        lemma_characters_to(text, a as nat, b as nat);
    }
}

/// More words have no fewer characters.
proof fn lemma_characters_to(text: Seq<char>, a: nat, b: nat)
    requires
        a <= b,
    ensures
        characters_to(text, a).le(characters_to(text, b)),
        not_negative(characters_to(text, b)),
        !characters_to(text, b).is_nan(),
    decreases b,
{
    if b > 0 {
        let before = characters_to(text, (b - 1) as nat);
        let count = grapheme_total(word_at(text, b - 1)) as usize;
        lemma_characters_to(
            text,
            if a < b {
                a
            } else {
                (b - 1) as nat
            },
            (b - 1) as nat,
        );
        lemma_ratio_sign(count as u64, 1);
        lemma_add_sign(before, Binary64::from_count(count));
        lemma_add_raises(before, before, Binary64::from_count(count));
        assert(!characters_to(text, b).is_nan()) by {
            reveal(Binary64::spec_add);
        }
    }
}

/// The words of a paragraph are what the split ranges hold.
pub proof fn law_words_are_ranges(
    text: Seq<char>,
    ranges: Seq<(usize, usize)>,
    space: Binary64,
    answers: Seq<Answers>,
    k: int,
)
    requires
        spans_bytes(text, word_spans(text), ranges),
        0 <= k < ranges.len(),
    ensures
        paragraph_of(text, space, answers).words[k] == slice(
            text,
            ranges[k].0 as int,
            ranges[k].1 as int,
        ),
{
    law_words_are_runs(text);
    lemma_trimmed(text);
    let (i, j) = word_spans(text)[k];
    lemma_index_at(text, i);
    lemma_index_at(text, j);
}

/// A word with a no-break space is indivisible.
pub proof fn law_no_break_space(word: Seq<char>, a: Answers)
    requires
        word.contains('\u{a0}'),
    ensures
        own_fragments(word, a) is None,
{
}

/// What hangs of a word is at most the word.
pub proof fn law_hangs_bounded(word: Seq<char>, a: Answers)
    requires
        unsigned(a.whole),
    ensures
        !end_hang(word, a).gt(a.whole),
        !start_hang(word, a).gt(a.whole),
{
}

/// A boundary is within the bytes of its text.
proof fn lemma_within(text: Seq<char>, at: int)
    requires
        boundary(text, at),
    ensures
        0 <= at <= offset(text, text.len() as int),
{
    let i = choose|i: int| 0 <= i <= text.len() && #[trigger] offset(text, i) == at;
    lemma_offset_monotone(text, i, text.len() as int);
}

/// There are no more words than characters.
proof fn lemma_spans(text: Seq<char>)
    ensures
        word_spans(text).len() <= text.len(),
{
    law_words_are_runs(text);
    lemma_trimmed(text);
    let spans = word_spans(text);
    if spans.len() > 0 {
        lemma_span_place(text, spans.len() - 1);
    }
}

/// Before a word stand at least as many characters as words.
proof fn lemma_span_place(text: Seq<char>, k: int)
    requires
        0 <= k < word_spans(text).len(),
    ensures
        word_spans(text)[k].0 >= k,
        word_spans(text)[k].1 <= text.len(),
        word_spans(text)[k].0 < word_spans(text)[k].1,
    decreases k,
{
    law_words_are_runs(text);
    lemma_trimmed(text);
    let spans = word_spans(text);
    assert(spans[k].0 < spans[k].1);
    if k > 0 {
        lemma_span_place(text, k - 1);
        assert(spans[k - 1].1 < spans[k].0);
    }
}

/// A word has fewer hyphens than characters.
proof fn lemma_hyphen_count(s: Seq<char>, n: int)
    requires
        0 <= n <= s.len(),
    ensures
        hyphen_offsets(s, n).len() <= n,
        n < s.len() ==> hyphen_offsets(s, n + 1).len() <= n + 1,
        n == s.len() && n >= 2 ==> hyphen_offsets(s, n).len() <= n - 2,
    decreases n,
{
    if n > 0 {
        lemma_hyphen_count(s, n - 1);
    }
    if n == s.len() && n >= 2 {
        lemma_hyphen_count(s, n - 1);
        lemma_inner_hyphens(s, n - 1);
    }
}

/// The first character is no joining hyphen.
proof fn lemma_inner_hyphens(s: Seq<char>, n: int)
    requires
        1 <= n <= s.len(),
    ensures
        hyphen_offsets(s, n).len() <= n - 1,
    decreases n,
{
    reveal_with_fuel(hyphen_offsets, 2);
    if n > 1 {
        lemma_inner_hyphens(s, n - 1);
    }
}

/// Measure once; reuse the prepared paragraph across widths and policy changes.
/// ASCII whitespace collapses; NBSP remains inside an indivisible word.
/// Pass each hard-break-delimited segment separately.
pub fn prepare<F: FnMut(&str) -> Binary64>(text: &str, measure: F) -> (r: Result<Prepared, Error>)
    requires
        forall|s: &str|
            s@ == " "@ || part_of_word(text@, s@) ==> #[trigger] measure.requires((s,)),
        tabulable(text@),
    ensures
        exists|space: Binary64, gauge: TextGauge<F>|
            {
                &&& #[trigger] answers_text(measure, " "@, space)
                &&& gauge.valid()
                &&& gauge.measure == measure
                &&& gauge.text@ == text@
                &&& #[trigger] prepared_with(gauge, text@, space, r)
            },
{
    let mut measure: F = measure;
    let space: Binary64 = measure(" ");
    assert(answers_text(measure, " "@, space));
    let gauge: TextGauge<F> = TextGauge { text, measure, cache: StringHashMap::new() };
    let ghost first = gauge;
    let _bytes: usize = byte_length(text);
    proof {
        assert forall|from: int, to: int| #[trigger]
            inside_word(text@, from, to) implies first.takes(from, to, false) by {
            assert(part_of_word(text@, slice(text@, from, to)));
        }
        assert forall|k: int| 0 <= k < word_spans(text@).len() implies askable(
            first,
            word_start(text@, k) as int,
            #[trigger] word_at(text@, k),
        ) by {
            lemma_askable(first, text@, k);
        }
    }
    let (r, last): (Result<(Prepared, Ghost<Seq<Answers>>), Error>, TextGauge<F>) = prepare_impl(
        text,
        space,
        gauge,
    );
    let r: Result<Prepared, Error> = match r {
        Ok((p, answers)) => {
            proof {
                law_prepared_valid(text@, space, answers@);
                assert(all_answered(last, text@, answers@));
            }
            Ok(p)
        },
        Err(e) => Err(e),
    };
    assert(prepared_with(first, text@, space, r));
    r
}

/// [`prepare`] for adapters whose width depends on *where* the text sits rather
/// than what it says: a cumulative advance table, a bold span mid-sentence, or
/// kerning across a node boundary all give one string two widths, so the
/// callback takes byte ranges into `text` instead of the substring itself.
/// The `hyphen` flag asks for that range with a `-` drawn after it, which is
/// not part of the source. `space` is the width of one inter-word space, since
/// a paragraph need not contain one to be laid out.
///
/// [`prepare`]: prepare
pub fn prepare_ranged<F: FnMut(usize, usize, bool) -> Binary64>(
    text: &str,
    space: Binary64,
    measure: F,
) -> (r: Result<Prepared, Error>)
    requires
        forall|from: usize, to: usize|
            inside_word(text@, from as int, to as int) ==> #[trigger] measure.requires(
                (from, to, false),
            ),
        tabulable(text@),
    ensures
        prepared_with(RangeGauge { text, measure }, text@, space, r),
{
    let gauge: RangeGauge<F> = RangeGauge { text, measure };
    let ghost first = gauge;
    let _bytes: usize = byte_length(text);
    proof {
        assert forall|from: int, to: int| #[trigger]
            inside_word(text@, from, to) implies first.takes(from, to, false) by {
            lemma_within(text@, from);
            lemma_within(text@, to);
            assert(inside_word(text@, (from as usize) as int, (to as usize) as int));
        }
        assert forall|k: int| 0 <= k < word_spans(text@).len() implies askable(
            first,
            word_start(text@, k) as int,
            #[trigger] word_at(text@, k),
        ) by {
            lemma_askable(first, text@, k);
        }
    }
    let (r, last): (Result<(Prepared, Ghost<Seq<Answers>>), Error>, RangeGauge<F>) = prepare_impl(
        text,
        space,
        gauge,
    );
    let r: Result<Prepared, Error> = match r {
        Ok((p, answers)) => {
            proof {
                law_prepared_valid(text@, space, answers@);
                assert(all_answered(last, text@, answers@));
            }
            Ok(p)
        },
        Err(e) => Err(e),
    };
    assert(prepared_with(first, text@, space, r));
    r
}

/// A callback that answers equal texts alike.
pub open spec fn pure_text<F: FnMut(&str) -> Binary64>(measure: F) -> bool {
    forall|key: Seq<char>, v: Binary64, w: Binary64| #[trigger]
        answers_text(measure, key, v) && #[trigger] answers_text(measure, key, w) ==> v == w
}

/// A callback that answers a range inside a word as another one answers its
/// text.
pub open spec fn by_text<
    R: FnMut(usize, usize, bool) -> Binary64,
    F: FnMut(&str) -> Binary64,
>(ranged: R, measure: F, text: Seq<char>) -> bool {
    forall|from: usize, to: usize, w: Binary64|
        inside_word(text, from as int, to as int) && #[trigger] ranged.ensures((from, to, false), w)
            ==> answers_text(measure, slice(text, from as int, to as int), w)
}

/// What a range gauge knows of a range inside a word, the text has.
proof fn lemma_ranged_answer<
    R: FnMut(usize, usize, bool) -> Binary64,
    F: FnMut(&str) -> Binary64,
>(g: RangeGauge<R>, measure: F, text: Seq<char>, from: int, to: int)
    requires
        by_text(g.measure, measure, text),
        inside_word(text, from, to),
        offset(text, text.len() as int) <= usize::MAX,
    ensures
        forall|w: Binary64| #[trigger]
            g.knows(from, to, false, w) ==> answers_text(measure, slice(text, from, to), w)
                && unsigned(w),
        g.fails(from, to, false) ==> exists|w: Binary64|
            !unsigned(w) && #[trigger] answers_text(measure, slice(text, from, to), w),
{
    lemma_within(text, from);
    lemma_within(text, to);
    let (a, b) = (from as usize, to as usize);
    assert(inside_word(text, a as int, b as int));
    if g.fails(from, to, false) {
        let w = choose|w: Binary64|
            !unsigned(w) && #[trigger] g.measure.ensures((from as usize, to as usize, false), w);
        assert(answers_text(measure, slice(text, from, to), w));
    }
}

/// Words measured by range and by text come out the same.
proof fn lemma_same_answers<
    R: FnMut(usize, usize, bool) -> Binary64,
    F: FnMut(&str) -> Binary64,
>(t: TextGauge<F>, g: RangeGauge<R>, text: Seq<char>, k: int, a: Answers, b: Answers)
    requires
        t.valid(),
        t.text@ == text,
        pure_text(t.measure),
        by_text(g.measure, t.measure, text),
        0 <= k < word_spans(text).len(),
        offset(text, text.len() as int) <= usize::MAX,
        answered(t, word_start(text, k) as int, word_at(text, k), a),
        answered(g, word_start(text, k) as int, word_at(text, k), b),
    ensures
        a.whole == b.whole,
        end_hang(word_at(text, k), a) == end_hang(word_at(text, k), b),
        start_hang(word_at(text, k), a) == start_hang(word_at(text, k), b),
        own_fragments(word_at(text, k), a) == own_fragments(word_at(text, k), b),
{
    let word = word_at(text, k);
    let base = word_start(text, k) as int;
    let end = base + offset(word, word.len() as int);
    law_requests_inside_words(text, k);
    lemma_ranged_answer(g, t.measure, text, base, end);
    if trailing_run(word).len() > 0 {
        lemma_ranged_answer(g, t.measure, text, base + ending_at(word), end);
    }
    if quoted(word) {
        lemma_ranged_answer(g, t.measure, text, base, base + width(word[0]));
    }
    if explicit_offsets(word).len() > 0 {
        let all = boundaries(word);
        let flags = flags_of(all, hyphens_in(word));
        assert forall|from: int, to: int, hyphen: bool| #[trigger]
            needed(all.len(), flags, from, to, hyphen) implies (a.pieces)(from, to, hyphen) == (
        b.pieces)(from, to, hyphen) by {
            let (x, y) = (base + all[from], base + all[to]);
            lemma_ranged_answer(g, t.measure, text, x, y);
            assert(t.knows(x, y, false, (a.pieces)(from, to, false)));
            assert(g.knows(x, y, false, (b.pieces)(from, to, false)));
        }
        lemma_same_pieces(word, a.whole, all, flags, a.pieces, b.pieces);
    }
}

/// The widths of words that came out the same add up to the same.
proof fn lemma_same_widths(a: Seq<Answers>, b: Seq<Answers>, k: nat)
    requires
        k <= a.len() == b.len(),
        forall|i: int| 0 <= i < k ==> (#[trigger] a[i]).whole == b[i].whole,
    ensures
        width_to(a, k) == width_to(b, k),
    decreases k,
{
    if k > 0 {
        lemma_same_widths(a, b, (k - 1) as nat);
        assert(a[k - 1].whole == b[k - 1].whole);
    }
}

/// A word that one of two gauges of the same font has measured does not fail
/// with the other.
proof fn lemma_no_failure<
    R: FnMut(usize, usize, bool) -> Binary64,
    F: FnMut(&str) -> Binary64,
>(t: TextGauge<F>, g: RangeGauge<R>, text: Seq<char>, k: int, a: Answers)
    requires
        t.valid(),
        t.text@ == text,
        pure_text(t.measure),
        by_text(g.measure, t.measure, text),
        0 <= k < word_spans(text).len(),
        offset(text, text.len() as int) <= usize::MAX,
    ensures
        answered(t, word_start(text, k) as int, word_at(text, k), a) ==> !unanswered(
            g,
            word_start(text, k) as int,
            word_at(text, k),
        ),
        answered(g, word_start(text, k) as int, word_at(text, k), a) ==> !unanswered(
            t,
            word_start(text, k) as int,
            word_at(text, k),
        ),
{
    let word = word_at(text, k);
    let base = word_start(text, k) as int;
    let end = base + offset(word, word.len() as int);
    law_requests_inside_words(text, k);
    lemma_ranged_answer(g, t.measure, text, base, end);
    if trailing_run(word).len() > 0 {
        lemma_ranged_answer(g, t.measure, text, base + ending_at(word), end);
    }
    if quoted(word) {
        lemma_ranged_answer(g, t.measure, text, base, base + width(word[0]));
    }
    if explicit_offsets(word).len() > 0 {
        let all = boundaries(word);
        let flags = flags_of(all, hyphens_in(word));
        assert forall|from: int, to: int, hyphen: bool| #[trigger]
            needed(all.len(), flags, from, to, hyphen) implies {
            let (x, y) = (base + all[from], base + all[to]);
            &&& t.knows(x, y, hyphen, (a.pieces)(from, to, hyphen)) ==> !g.fails(x, y, hyphen)
            &&& g.knows(x, y, hyphen, (a.pieces)(from, to, hyphen)) ==> !t.fails(x, y, hyphen)
        } by {
            let (x, y) = (base + all[from], base + all[to]);
            lemma_ranged_answer(g, t.measure, text, x, y);
            assert(g.knows(x, y, false, (a.pieces)(from, to, false)) ==> answers_text(
                t.measure,
                slice(text, x, y),
                (a.pieces)(from, to, false),
            ));
        }
    }
}

/// Measuring by ranges gives what measuring the same texts gives: equal
/// paragraphs, or the same error.
pub proof fn law_ranges_measure_as_texts<
    R: FnMut(usize, usize, bool) -> Binary64,
    F: FnMut(&str) -> Binary64,
>(
    t: TextGauge<F>,
    g: RangeGauge<R>,
    text: Seq<char>,
    space: Binary64,
    by_texts: Result<Prepared, Error>,
    by_ranges: Result<Prepared, Error>,
)
    requires
        t.valid(),
        t.text@ == text,
        pure_text(t.measure),
        by_text(g.measure, t.measure, text),
        offset(text, text.len() as int) <= usize::MAX,
        prepared_with(t, text, space, by_texts),
        prepared_with(g, text, space, by_ranges),
    ensures
        match (by_texts, by_ranges) {
            (Ok(p), Ok(q)) => p@ == q@,
            (Err(e), Err(f)) => e@ == f@,
            _ => false,
        },
{
    if space_refusal(space) is None {
        match (by_texts, by_ranges) {
            (Ok(p), Ok(q)) => {
                let (u, a) = choose|u: TextGauge<F>, a: Seq<Answers>|
                    u.valid() && u.ruler() == t.ruler() && u.source() == text
                        && #[trigger] all_answered(u, text, a) && p@ == paragraph_of(
                        text,
                        space,
                        a,
                    );
                let (v, b) = choose|v: RangeGauge<R>, b: Seq<Answers>|
                    v.valid() && v.ruler() == g.ruler() && v.source() == text
                        && #[trigger] all_answered(v, text, b) && q@ == paragraph_of(
                        text,
                        space,
                        b,
                    );
                assert forall|k: int| 0 <= k < a.len() implies (#[trigger] a[k]).whole == b[k].whole
                    && end_hang(word_at(text, k), a[k]) == end_hang(word_at(text, k), b[k])
                    && start_hang(word_at(text, k), a[k]) == start_hang(word_at(text, k), b[k])
                    && own_fragments(word_at(text, k), a[k]) == own_fragments(
                    word_at(text, k),
                    b[k],
                ) by {
                    assert(answered(v, word_start(text, k) as int, word_at(text, k), b[k]));
                    lemma_same_answers(u, v, text, k, a[k], b[k]);
                }
                lemma_same_paragraph(text, space, a, b);
            },
            (Ok(p), Err(e)) => {
                let (u, a) = choose|u: TextGauge<F>, a: Seq<Answers>|
                    u.valid() && u.ruler() == t.ruler() && u.source() == text
                        && #[trigger] all_answered(u, text, a) && p@ == paragraph_of(
                        text,
                        space,
                        a,
                    );
                let k = choose|k: int|
                    0 <= k < word_spans(text).len() && unanswered(
                        g,
                        word_start(text, k) as int,
                        #[trigger] word_at(text, k),
                    );
                assert(answered(u, word_start(text, k) as int, word_at(text, k), a[k]));
                lemma_no_failure(u, g, text, k, a[k]);
            },
            (Err(e), Ok(q)) => {
                let (v, b) = choose|v: RangeGauge<R>, b: Seq<Answers>|
                    v.valid() && v.ruler() == g.ruler() && v.source() == text
                        && #[trigger] all_answered(v, text, b) && q@ == paragraph_of(
                        text,
                        space,
                        b,
                    );
                let k = choose|k: int|
                    0 <= k < word_spans(text).len() && unanswered(
                        t,
                        word_start(text, k) as int,
                        #[trigger] word_at(text, k),
                    );
                assert(answered(v, word_start(text, k) as int, word_at(text, k), b[k]));
                lemma_no_failure(t, v, text, k, b[k]);
            },
            (Err(e), Err(f)) => {},
        }
    }
}

/// Words that came out the same make up the same paragraph.
proof fn lemma_same_paragraph(
    text: Seq<char>,
    space: Binary64,
    a: Seq<Answers>,
    b: Seq<Answers>,
)
    requires
        a.len() == word_spans(text).len(),
        b.len() == a.len(),
        forall|k: int|
            0 <= k < a.len() ==> (#[trigger] a[k]).whole == b[k].whole && end_hang(
                word_at(text, k),
                a[k],
            ) == end_hang(word_at(text, k), b[k]) && start_hang(word_at(text, k), a[k])
                == start_hang(word_at(text, k), b[k]) && own_fragments(word_at(text, k), a[k])
                == own_fragments(word_at(text, k), b[k]),
    ensures
        paragraph_of(text, space, a) == paragraph_of(text, space, b),
{
    let (p, q) = (paragraph_of(text, space, a), paragraph_of(text, space, b));
    assert forall|k: int| 0 <= k < p.widths.len() implies #[trigger] p.widths[k]
        == q.widths[k] by {
        lemma_same_widths(a, b, k as nat);
    }
    assert(p.widths =~= q.widths);
    assert forall|k: int| 0 <= k < a.len() implies #[trigger] p.end_hangs[k] == q.end_hangs[k] by {
        assert(a[k].whole == b[k].whole);
    }
    assert(p.end_hangs =~= q.end_hangs);
    assert forall|k: int| 0 <= k < a.len() implies #[trigger] p.start_hangs[k]
        == q.start_hangs[k] by {
        assert(a[k].whole == b[k].whole);
    }
    assert(p.start_hangs =~= q.start_hangs);
    if any_hyphen(text) {
        let (x, y) = (p.hyphenation->0, q.hyphenation->0);
        assert forall|k: int| 0 <= k < a.len() implies #[trigger] x[k] == y[k] by {
            assert(a[k].whole == b[k].whole);
        }
        assert(x =~= y);
    }
}

}
