//! Text scanning: words, punctuation, quotes and hyphens, by byte offsets.

use unicode_segmentation::UnicodeSegmentation;
use vstd::prelude::*;
use vstd::utf8::{
    decode_utf8, encode_scalar, encode_utf8, encode_utf8_decode_utf8, encode_utf8_first_scalar,
    encode_utf8_valid_utf8, pop_first_scalar, valid_utf8,
};

verus! {

/// Whether a character beyond ASCII has Unicode's `Alphabetic` property.
pub uninterp spec fn unicode_alphabetic(c: char) -> bool;

/// Whether a character beyond ASCII is of one of Unicode's number categories.
pub uninterp spec fn unicode_numeric(c: char) -> bool;

/// How many extended grapheme clusters a text has.
pub uninterp spec fn grapheme_total(text: Seq<char>) -> nat;

/// The byte offsets at which the extended grapheme clusters of a text begin.
pub uninterp spec fn grapheme_starts(text: Seq<char>) -> Seq<usize>;

/// Whether a character has Unicode's `White_Space` property.
pub open spec fn white_space(c: char) -> bool {
    ('\t' <= c && c <= '\r') || c == ' ' || c == '\u{85}' || c == '\u{a0}' || c == '\u{1680}' || (
    '\u{2000}' <= c && c <= '\u{200a}') || c == '\u{2028}' || c == '\u{2029}' || c == '\u{202f}'
        || c == '\u{205f}' || c == '\u{3000}'
}

/// Whether a character is a letter.
pub open spec fn alphabetic(c: char) -> bool {
    if (c as u32) < 0x80 {
        ('a' <= c && c <= 'z') || ('A' <= c && c <= 'Z')
    } else {
        unicode_alphabetic(c)
    }
}

/// Whether a character is a digit or another number.
pub open spec fn numeric(c: char) -> bool {
    if (c as u32) < 0x80 {
        '0' <= c && c <= '9'
    } else {
        unicode_numeric(c)
    }
}

/// Whether a character is white space.
fn is_white_space(c: char) -> (r: bool)
    ensures
        r == white_space(c),
{
    ('\t' <= c && c <= '\r') || c == ' ' || c == '\u{85}' || c == '\u{a0}' || c == '\u{1680}' || (
    '\u{2000}' <= c && c <= '\u{200a}') || c == '\u{2028}' || c == '\u{2029}' || c == '\u{202f}'
        || c == '\u{205f}' || c == '\u{3000}'
}

/// `char::is_alphabetic`: the `Alphabetic` property, which in ASCII the letters
/// have.
#[verifier::external_body]
fn is_alphabetic(c: char) -> (r: bool)
    ensures
        (c as u32) < 0x80 ==> r == (('a' <= c && c <= 'z') || ('A' <= c && c <= 'Z')),
        (c as u32) >= 0x80 ==> r == unicode_alphabetic(c),
{
    c.is_alphabetic()
}

/// `char::is_numeric`: the number categories, which in ASCII hold the digits.
#[verifier::external_body]
fn is_numeric(c: char) -> (r: bool)
    ensures
        (c as u32) < 0x80 ==> r == ('0' <= c && c <= '9'),
        (c as u32) >= 0x80 ==> r == unicode_numeric(c),
{
    c.is_numeric()
}

/// The number of extended grapheme clusters, counted by
/// `UnicodeSegmentation::graphemes`. The count depends on the text alone.
#[verifier::external_body]
pub(crate) fn grapheme_count(text: &str) -> (r: usize)
    ensures
        r == grapheme_total(text@),
{
    text.graphemes(true).count()
}

/// Where the extended grapheme clusters begin, found by
/// `UnicodeSegmentation::grapheme_indices`. They depend on the text alone.
#[verifier::external_body]
pub(crate) fn grapheme_boundaries(text: &str) -> (r: Vec<usize>)
    ensures
        r@ == grapheme_starts(text@),
{
    text.grapheme_indices(true).map(|(index, _)| index).collect()
}

/// `std::str::from_utf8`: the text that the bytes encode, if they are valid
/// UTF-8.
#[verifier::external_body]
pub(crate) fn decoded(bytes: &[u8]) -> (r: Option<&str>)
    ensures
        r is Some <==> valid_utf8(bytes@),
        r matches Some(s) ==> s@ == decode_utf8(bytes@),
{
    std::str::from_utf8(bytes).ok()
}

/// The byte width of a character.
pub open spec fn width(c: char) -> nat {
    encode_scalar(c as u32).len()
}

/// The byte offset of the character with index `i`.
pub open spec fn offset(s: Seq<char>, i: int) -> nat
    decreases i,
{
    if i <= 0 {
        0
    } else {
        offset(s, i - 1) + width(s[i - 1])
    }
}

/// The bytes of two texts follow one another.
proof fn lemma_encode_concat(a: Seq<char>, b: Seq<char>)
    ensures
        encode_utf8(a + b) == encode_utf8(a) + encode_utf8(b),
    decreases a.len(),
{
    if a.len() == 0 {
        assert(a + b =~= b);
        assert(encode_utf8(a) + encode_utf8(b) =~= encode_utf8(b));
    } else {
        assert((a + b).drop_first() =~= a.drop_first() + b);
        lemma_encode_concat(a.drop_first(), b);
        assert(encode_utf8(a + b) =~= encode_utf8(a) + encode_utf8(b));
    }
}

/// An offset is the number of bytes before it.
pub proof fn lemma_offset_is_length(s: Seq<char>, i: int)
    requires
        0 <= i <= s.len(),
    ensures
        encode_utf8(s.take(i)).len() == offset(s, i),
    decreases i,
{
    if i > 0 {
        lemma_offset_is_length(s, i - 1);
        let last = seq![s[i - 1]];
        assert(s.take(i) =~= s.take(i - 1) + last);
        lemma_encode_concat(s.take(i - 1), last);
        assert(last.drop_first() =~= Seq::<char>::empty());
        assert(encode_utf8(last) =~= encode_scalar(s[i - 1] as u32)) by {
            reveal_with_fuel(encode_utf8, 2);
        }
    } else {
        assert(s.take(0) =~= Seq::<char>::empty());
    }
}

/// Offsets increase with the index.
pub proof fn lemma_offset_monotone(s: Seq<char>, i: int, j: int)
    requires
        0 <= i <= j <= s.len(),
    ensures
        offset(s, i) + (j - i) <= offset(s, j),
        offset(s, j) <= offset(s, i) + 4 * (j - i),
    decreases j - i,
{
    if i < j {
        lemma_offset_monotone(s, i, j - 1);
    }
}

/// The offset at the end is the length in bytes.
pub proof fn lemma_offset_end(s: Seq<char>)
    ensures
        encode_utf8(s).len() == offset(s, s.len() as int),
{
    lemma_offset_is_length(s, s.len() as int);
    assert(s.take(s.len() as int) =~= s);
}

/// Offsets within a part count from where the part begins.
pub proof fn lemma_offset_within(s: Seq<char>, i: int, j: int, k: int)
    requires
        0 <= i <= j <= s.len(),
        0 <= k <= j - i,
    ensures
        offset(s, i) + offset(s.subrange(i, j), k) == offset(s, i + k),
    decreases k,
{
    if k > 0 {
        lemma_offset_within(s, i, j, k - 1);
    }
}

/// The length of a text in bytes.
pub(crate) fn byte_length(text: &str) -> (n: usize)
    ensures
        n == offset(text@, text@.len() as int),
{
    proof {
        lemma_offset_end(text@);
    }
    text.as_bytes().len()
}

/// The byte width of a character.
fn byte_width(c: char) -> (n: usize)
    ensures
        n == width(c),
        1 <= n <= 4,
{
    let code: u32 = c as u32;
    if code <= 0x7f {
        1
    } else if code <= 0x7ff {
        2
    } else if code <= 0xffff {
        3
    } else {
        4
    }
}

/// The characters of a text.
pub(crate) fn characters(text: &str) -> (v: Vec<char>)
    ensures
        v@ == text@,
{
    let mut v: Vec<char> = Vec::new();
    for c in it: text.chars()
        invariant
            it.seq() == text@,
            v@ == text@.take(it.index() as int),
    {
        v.push(c);
        assert(v@ =~= text@.take(it.index() + 1));
    }
    assert(text@.take(text@.len() as int) =~= text@);
    v
}

/// The byte offset of the character with index `index`.
pub(crate) fn byte_offset(text: &str, chars: &Vec<char>, index: usize) -> (at: usize)
    requires
        chars@ == text@,
        index <= text@.len(),
    ensures
        at == offset(text@, index as int),
{
    let total: usize = byte_length(text);
    let mut at: usize = 0;
    let mut i: usize = 0;
    while i < index
        invariant
            chars@ == text@,
            i <= index <= text@.len(),
            at == offset(text@, i as int),
            total == offset(text@, text@.len() as int),
        decreases index - i,
    {
        proof {
            lemma_offset_monotone(text@, i as int + 1, text@.len() as int);
        }
        at = at + byte_width(chars[i]);
        i = i + 1;
    }
    at
}

/// The part of a text between two character boundaries.
pub(crate) fn part<'a>(text: &'a str, from: usize, to: usize, i: Ghost<int>, j: Ghost<int>) -> (r:
    &'a str)
    requires
        0 <= i@ <= j@ <= text@.len(),
        from == offset(text@, i@),
        to == offset(text@, j@),
    ensures
        r@ == text@.subrange(i@, j@),
{
    let ghost s = text@;
    let ghost a = s.take(i@);
    let ghost b = s.subrange(i@, j@);
    let ghost c = s.subrange(j@, s.len() as int);
    proof {
        assert(s =~= (a + b) + c);
        lemma_encode_concat(a + b, c);
        lemma_encode_concat(a, b);
        lemma_offset_is_length(s, i@);
        lemma_offset_is_length(s, j@);
        assert(s.take(j@) =~= a + b);
        lemma_boundary(a + b, c);
        lemma_boundary(a, b);
    }
    let (head, _tail): (&str, &str) = text.split_at(to);
    proof {
        assert(encode_utf8(head@) =~= encode_utf8(a + b));
        encode_utf8_decode_utf8(head@);
        encode_utf8_decode_utf8(a + b);
        assert(head@ == a + b);
    }
    let (_rest, r): (&str, &str) = head.split_at(from);
    proof {
        assert(encode_utf8(r@) =~= encode_utf8(b));
        encode_utf8_decode_utf8(r@);
        encode_utf8_decode_utf8(b);
    }
    r
}

/// The end of the first of two texts is a character boundary.
proof fn lemma_boundary(a: Seq<char>, b: Seq<char>)
    ensures
        vstd::utf8::is_char_boundary(encode_utf8(a + b), encode_utf8(a).len() as int),
    decreases a.len(),
{
    let bytes = encode_utf8(a + b);
    encode_utf8_valid_utf8(a + b);
    if a.len() > 0 {
        lemma_encode_concat(a, b);
        lemma_boundary(a.drop_first(), b);
        encode_utf8_first_scalar(a + b);
        assert((a + b).drop_first() =~= a.drop_first() + b);
        assert(pop_first_scalar(bytes) =~= encode_utf8(a.drop_first() + b));
    }
}

/// The white space of ASCII, which separates words.
pub open spec fn separates(c: char) -> bool {
    c == ' ' || c == '\t' || c == '\r' || c == '\n' || c == '\x0c'
}

/// The index of the first character from `i` on that is no white space.
pub open spec fn after_space(s: Seq<char>, i: int) -> int
    decreases s.len() - i,
{
    if 0 <= i < s.len() && white_space(s[i]) {
        after_space(s, i + 1)
    } else {
        i
    }
}

/// The end of the text before the white space that ends at `j`, from `i` on.
pub open spec fn before_space(s: Seq<char>, i: int, j: int) -> int
    decreases j - i,
{
    if i < j && white_space(s[j - 1]) {
        before_space(s, i, j - 1)
    } else {
        j
    }
}

/// Where the run of characters from `i` on ends that do not separate words.
pub open spec fn run_end(s: Seq<char>, i: int, end: int) -> int
    decreases end - i,
{
    if i < end && !separates(s[i]) {
        run_end(s, i + 1, end)
    } else {
        i
    }
}

/// The words between `i` and `end`, by the indices of their characters: the
/// longest runs without a separator.
pub open spec fn words_between(s: Seq<char>, i: int, end: int) -> Seq<(int, int)>
    decreases end - i,
    via words_between_decreases
{
    if i >= end {
        seq![]
    } else if separates(s[i]) {
        words_between(s, i + 1, end)
    } else {
        seq![(i, run_end(s, i, end))] + words_between(s, run_end(s, i, end), end)
    }
}

#[via_fn]
proof fn words_between_decreases(s: Seq<char>, i: int, end: int) {
    if i < end && !separates(s[i]) {
        lemma_run_end(s, i + 1, end);
    }
}

/// Where trimming on the left begins the text.
pub open spec fn trimmed_from(s: Seq<char>) -> int {
    after_space(s, 0)
}

/// Where trimming on the right ends the text.
pub open spec fn trimmed_to(s: Seq<char>) -> int {
    before_space(s, trimmed_from(s), s.len() as int)
}

/// The words of a text, by the indices of their characters.
pub open spec fn word_spans(s: Seq<char>) -> Seq<(int, int)> {
    words_between(s, trimmed_from(s), trimmed_to(s))
}

/// The byte ranges of spans of characters.
pub open spec fn spans_bytes(s: Seq<char>, spans: Seq<(int, int)>, ranges: Seq<(usize, usize)>) -> bool {
    &&& ranges.len() == spans.len()
    &&& forall|k: int|
        0 <= k < spans.len() ==> (#[trigger] ranges[k]).0 == offset(s, spans[k].0) && ranges[k].1
            == offset(s, spans[k].1)
}

/// A run ends inside the text, and no separator stands in it.
pub proof fn lemma_run_end(s: Seq<char>, i: int, end: int)
    requires
        i <= end,
    ensures
        i <= run_end(s, i, end) <= end,
        forall|k: int| i <= k < run_end(s, i, end) ==> !separates(#[trigger] s[k]),
        run_end(s, i, end) < end ==> separates(s[run_end(s, i, end)]),
    decreases end - i,
{
    if i < end && !separates(s[i]) {
        lemma_run_end(s, i + 1, end);
    }
}

/// Trimming stays inside the text.
pub proof fn lemma_trimmed(s: Seq<char>)
    ensures
        0 <= trimmed_from(s) <= trimmed_to(s) <= s.len(),
        forall|k: int| 0 <= k < trimmed_from(s) ==> white_space(#[trigger] s[k]),
        forall|k: int| trimmed_to(s) <= k < s.len() ==> white_space(#[trigger] s[k]),
        trimmed_from(s) < trimmed_to(s) ==> !white_space(s[trimmed_from(s)]) && !white_space(
            s[trimmed_to(s) - 1],
        ),
{
    lemma_after_space(s, 0);
    lemma_before_space(s, trimmed_from(s), s.len() as int);
}

proof fn lemma_after_space(s: Seq<char>, i: int)
    requires
        0 <= i <= s.len(),
    ensures
        i <= after_space(s, i) <= s.len(),
        forall|k: int| i <= k < after_space(s, i) ==> white_space(#[trigger] s[k]),
        after_space(s, i) < s.len() ==> !white_space(s[after_space(s, i)]),
    decreases s.len() - i,
{
    if i < s.len() && white_space(s[i]) {
        lemma_after_space(s, i + 1);
    }
}

proof fn lemma_before_space(s: Seq<char>, i: int, j: int)
    requires
        0 <= i <= j <= s.len(),
    ensures
        i <= before_space(s, i, j) <= j,
        forall|k: int| before_space(s, i, j) <= k < j ==> white_space(#[trigger] s[k]),
        i < before_space(s, i, j) ==> !white_space(s[before_space(s, i, j) - 1]),
    decreases j - i,
{
    if i < j && white_space(s[j - 1]) {
        lemma_before_space(s, i, j - 1);
    }
}

/// Byte ranges of each word in `text`. White space at the two ends is trimmed;
/// between them the white space of ASCII separates words.
pub fn split_ranges(text: &str) -> (ranges: Vec<(usize, usize)>)
    ensures
        spans_bytes(text@, word_spans(text@), ranges@),
{
    let ghost s = text@;
    let chars: Vec<char> = characters(text);
    let total: usize = byte_length(text);
    let n: usize = chars.len();
    let mut from: usize = 0;
    let mut at: usize = 0;
    proof {
        lemma_trimmed(s);
    }
    while from < n && is_white_space(chars[from])
        invariant
            chars@ == s,
            n == s.len(),
            from <= n,
            after_space(s, from as int) == trimmed_from(s),
            at == offset(s, from as int),
            total == offset(s, n as int),
        decreases n - from,
    {
        proof {
            lemma_offset_monotone(s, from as int + 1, n as int);
        }
        at = at + byte_width(chars[from]);
        from = from + 1;
    }
    let mut to: usize = n;
    while to > from && is_white_space(chars[to - 1])
        invariant
            chars@ == s,
            n == s.len(),
            from <= to <= n,
            from == trimmed_from(s),
            before_space(s, from as int, to as int) == trimmed_to(s),
        decreases to,
    {
        to = to - 1;
    }
    let mut ranges: Vec<(usize, usize)> = Vec::new();
    let mut start: Option<usize> = None;
    let mut i: usize = from;
    let ghost mut done: Seq<(int, int)> = seq![];
    let ghost mut begin: int = 0;
    assert(done + words_between(s, i as int, to as int) =~= word_spans(s));
    while i < to
        invariant
            chars@ == s,
            n == s.len(),
            from <= i <= to <= n,
            at == offset(s, i as int),
            total == offset(s, n as int),
            spans_bytes(s, done, ranges@),
            start is None ==> done + words_between(s, i as int, to as int) == word_spans(s),
            start matches Some(b) ==> 0 <= begin < i && b == offset(s, begin) && done + seq![
                (begin, run_end(s, i as int, to as int)),
            ] + words_between(s, run_end(s, i as int, to as int), to as int) == word_spans(s),
        decreases to - i,
    {
        let c: char = chars[i];
        let ghost before = done;
        proof {
            lemma_offset_monotone(s, i as int + 1, n as int);
        }
        if c == ' ' || c == '\t' || c == '\r' || c == '\n' || c == '\x0c' {
            if let Some(b) = start {
                ranges.push((b, at));
                proof {
                    done = before.push((begin, i as int));
                    assert(done =~= before + seq![(begin, i as int)]);
                }
                start = None;
            }
        } else if start.is_none() {
            proof {
                begin = i as int;
                assert(done + (seq![(begin, run_end(s, i as int, to as int))] + words_between(
                    s,
                    run_end(s, i as int, to as int),
                    to as int,
                )) =~= done + seq![(begin, run_end(s, i as int, to as int))] + words_between(
                    s,
                    run_end(s, i as int, to as int),
                    to as int,
                ));
            }
            start = Some(at);
        }
        at = at + byte_width(c);
        i = i + 1;
    }
    if let Some(b) = start {
        ranges.push((b, at));
        proof {
            done = done.push((begin, i as int));
        }
    }
    assert(done =~= word_spans(s));
    ranges
}

/// Spans between `i` and `end` that are runs: not empty, without separators,
/// ending at a separator or at `end`, and in the order of the text.
pub open spec fn are_runs(s: Seq<char>, spans: Seq<(int, int)>, i: int, end: int) -> bool {
    &&& forall|k: int| 0 <= k < spans.len() ==> i <= (#[trigger] spans[k]).0 < spans[k].1 <= end
    &&& forall|k: int, c: int|
        0 <= k < spans.len() && (#[trigger] spans[k]).0 <= c < spans[k].1 ==> !separates(
            #[trigger] s[c],
        )
    &&& forall|k: int|
        0 <= k < spans.len() && (#[trigger] spans[k]).1 < end ==> separates(s[spans[k].1])
    &&& forall|j: int, k: int|
        0 <= j < k < spans.len() ==> (#[trigger] spans[j]).1 < (#[trigger] spans[k]).0
}

/// Every word is a stretch without separators, not empty, that ends at a
/// separator or at the end; the words stand in the order of the text.
pub proof fn law_words_are_runs(s: Seq<char>)
    ensures
        are_runs(s, word_spans(s), trimmed_from(s), trimmed_to(s)),
{
    lemma_trimmed(s);
    lemma_words_between(s, trimmed_from(s), trimmed_to(s));
}

/// Every character that separates no words belongs to a word, unless it was
/// trimmed.
pub proof fn law_words_cover(s: Seq<char>, c: int)
    requires
        trimmed_from(s) <= c < trimmed_to(s),
        !separates(s[c]),
    ensures
        exists|k: int|
            0 <= k < word_spans(s).len() && (#[trigger] word_spans(s)[k]).0 <= c
                < word_spans(s)[k].1,
{
    lemma_trimmed(s);
    lemma_words_cover(s, trimmed_from(s), trimmed_to(s), c);
    let spans = words_between(s, trimmed_from(s), trimmed_to(s));
    let k = choose|k: int| 0 <= k < spans.len() && (#[trigger] spans[k]).0 <= c < spans[k].1;
    assert(word_spans(s)[k].0 <= c < word_spans(s)[k].1);
}

proof fn lemma_words_between(s: Seq<char>, i: int, end: int)
    requires
        0 <= i <= end <= s.len(),
    ensures
        are_runs(s, words_between(s, i, end), i, end),
    decreases end - i,
{
    if i < end {
        let all = words_between(s, i, end);
        if separates(s[i]) {
            lemma_words_between(s, i + 1, end);
            assert(all == words_between(s, i + 1, end));
        } else {
            let e = run_end(s, i, end);
            lemma_run_end(s, i, end);
            lemma_run_end(s, i + 1, end);
            lemma_words_between(s, e, end);
            let rest = words_between(s, e, end);
            assert(all == seq![(i, e)] + rest);
            assert forall|k: int| 1 <= k < all.len() implies #[trigger] all[k] == rest[k - 1] by {}
            assert forall|k: int, c: int|
                0 <= k < all.len() && (#[trigger] all[k]).0 <= c < all[k].1 implies !separates(
                #[trigger] s[c],
            ) by {
                if k > 0 {
                    assert(rest[k - 1].0 <= c < rest[k - 1].1);
                }
            }
            assert forall|k: int| 0 <= k < rest.len() implies e < (#[trigger] rest[k]).0 by {
                if rest[k].0 == e {
                    assert(!separates(s[e]));
                }
            }
        }
    }
}

proof fn lemma_words_cover(s: Seq<char>, i: int, end: int, c: int)
    requires
        0 <= i <= c < end <= s.len(),
        !separates(s[c]),
    ensures
        exists|k: int|
            0 <= k < words_between(s, i, end).len() && (#[trigger] words_between(s, i, end)[k]).0
                <= c < words_between(s, i, end)[k].1,
    decreases end - i,
{
    let all = words_between(s, i, end);
    if separates(s[i]) {
        lemma_words_cover(s, i + 1, end, c);
    } else {
        let e = run_end(s, i, end);
        lemma_run_end(s, i, end);
        if c < e {
            assert(all[0] == (i, e));
        } else {
            lemma_words_cover(s, e, end, c);
            let rest = words_between(s, e, end);
            let k = choose|k: int|
                0 <= k < rest.len() && (#[trigger] rest[k]).0 <= c < rest[k].1;
            assert(all[k + 1] == rest[k]);
        }
    }
}

/// Punctuation that may hang at the end of a word.
pub open spec fn end_punctuation(c: char) -> bool {
    c == '.' || c == ',' || c == ';' || c == ':' || c == '!' || c == '?' || c == '\u{2026}' || c
        == '\u{2019}' || c == '\u{201d}' || c == '"' || c == '\''
}

/// A quotation mark that may hang at the start of a word.
pub open spec fn start_quote(c: char) -> bool {
    c == '\u{201c}' || c == '\u{2018}' || c == '\'' || c == '"' || c == '\u{ab}' || c == '\u{2039}'
}

/// A letter or a digit.
pub open spec fn letter_or_number(c: char) -> bool {
    alphabetic(c) || numeric(c)
}

/// Where the run of punctuation begins that ends the first `n` characters.
pub open spec fn punctuation_start(s: Seq<char>, n: int) -> int
    decreases n,
{
    if n > 0 && end_punctuation(s[n - 1]) {
        punctuation_start(s, n - 1)
    } else {
        n
    }
}

/// The run of punctuation at the end of a word, empty where there is none.
pub open spec fn trailing_run(s: Seq<char>) -> Seq<char> {
    s.subrange(punctuation_start(s, s.len() as int), s.len() as int)
}

/// The run that ends a word is all punctuation, and the longest such run.
pub proof fn law_trailing_run(s: Seq<char>)
    ensures
        0 <= punctuation_start(s, s.len() as int) <= s.len(),
        forall|k: int|
            punctuation_start(s, s.len() as int) <= k < s.len() ==> end_punctuation(
                #[trigger] s[k],
            ),
        punctuation_start(s, s.len() as int) > 0 ==> !end_punctuation(
            s[punctuation_start(s, s.len() as int) - 1],
        ),
{
    lemma_punctuation_start(s, s.len() as int);
}

proof fn lemma_punctuation_start(s: Seq<char>, n: int)
    requires
        0 <= n <= s.len(),
    ensures
        0 <= punctuation_start(s, n) <= n,
        forall|k: int| punctuation_start(s, n) <= k < n ==> end_punctuation(#[trigger] s[k]),
        punctuation_start(s, n) > 0 ==> !end_punctuation(s[punctuation_start(s, n) - 1]),
    decreases n,
{
    if n > 0 && end_punctuation(s[n - 1]) {
        lemma_punctuation_start(s, n - 1);
    }
}

/// Punctuation that may hang at the end of a word.
pub fn is_end_punctuation(c: char) -> (r: bool)
    ensures
        r == end_punctuation(c),
{
    c == '.' || c == ',' || c == ';' || c == ':' || c == '!' || c == '?' || c == '\u{2026}' || c
        == '\u{2019}' || c == '\u{201d}' || c == '"' || c == '\''
}

/// A letter or a digit.
pub fn is_letter_or_number(c: char) -> (r: bool)
    ensures
        r == letter_or_number(c),
{
    is_alphabetic(c) || is_numeric(c)
}

/// The trailing punctuation run of a word.
pub fn trailing_punctuation(word: &str) -> (r: Option<&str>)
    ensures
        r is None <==> trailing_run(word@).len() == 0,
        r matches Some(run) ==> run@ == trailing_run(word@),
{
    let ghost s = word@;
    let chars: Vec<char> = characters(word);
    let total: usize = byte_length(word);
    let n: usize = chars.len();
    let mut i: usize = n;
    let mut at: usize = total;
    while i > 0 && is_end_punctuation(chars[i - 1])
        invariant
            chars@ == s,
            n == s.len(),
            i <= n,
            at == offset(s, i as int),
            punctuation_start(s, i as int) == punctuation_start(s, n as int),
        decreases i,
    {
        at = at - byte_width(chars[i - 1]);
        i = i - 1;
    }
    if i == n {
        None
    } else {
        Some(part(word, at, total, Ghost(i as int), Ghost(n as int)))
    }
}

/// The leading quotation mark of a word.
pub fn leading_quote(word: &str) -> (r: Option<&str>)
    ensures
        r is Some <==> word@.len() > 0 && start_quote(word@[0]),
        r matches Some(quote) ==> quote@ == word@.subrange(0, 1),
{
    let chars: Vec<char> = characters(word);
    if chars.len() == 0 {
        return None;
    }
    let c: char = chars[0];
    if c == '\u{201c}' || c == '\u{2018}' || c == '\'' || c == '"' || c == '\u{ab}' || c
        == '\u{2039}' {
        proof {
            reveal_with_fuel(offset, 2);
        }
        Some(part(word, 0, byte_width(c), Ghost(0), Ghost(1)))
    } else {
        None
    }
}

/// True when a hyphen with index `i` joins two letters or digits.
pub open spec fn joins(s: Seq<char>, i: int) -> bool {
    &&& 0 < i < s.len() - 1
    &&& s[i] == '-' || s[i] == '\u{2010}'
    &&& letter_or_number(s[i - 1])
    &&& letter_or_number(s[i + 1])
}

/// The offsets just after the joining hyphens among the first `n` characters.
pub open spec fn hyphen_offsets(s: Seq<char>, n: int) -> Seq<nat>
    decreases n,
{
    if n <= 0 {
        seq![]
    } else if joins(s, n - 1) {
        hyphen_offsets(s, n - 1).push(offset(s, n))
    } else {
        hyphen_offsets(s, n - 1)
    }
}

/// The offsets at which a word may break after a hyphen of its own. A word
/// with a no-break space has none.
pub open spec fn explicit_offsets(s: Seq<char>) -> Seq<nat> {
    if s.contains('\u{a0}') {
        seq![]
    } else {
        hyphen_offsets(s, s.len() as int)
    }
}

/// True when a text holds a no-break space.
pub(crate) fn has_no_break_space(text: &str) -> (r: bool)
    ensures
        r == text@.contains('\u{a0}'),
{
    let chars: Vec<char> = characters(text);
    let mut i: usize = 0;
    while i < chars.len()
        invariant
            chars@ == text@,
            i <= chars.len(),
            forall|k: int| 0 <= k < i ==> chars@[k] != '\u{a0}',
        decreases chars.len() - i,
    {
        if chars[i] == '\u{a0}' {
            assert(text@[i as int] == '\u{a0}');
            return true;
        }
        i = i + 1;
    }
    false
}

/// Offsets just after a hyphen joining two letters or digits; a line may break
/// there without adding a glyph.
pub fn explicit_hyphens(word: &str) -> (offsets: Vec<usize>)
    ensures
        offsets@.map_values(|x: usize| x as nat) == explicit_offsets(word@),
{
    let ghost s = word@;
    let mut offsets: Vec<usize> = Vec::new();
    if has_no_break_space(word) {
        assert(offsets@.map_values(|x: usize| x as nat) =~= explicit_offsets(s));
        return offsets;
    }
    let chars: Vec<char> = characters(word);
    let total: usize = byte_length(word);
    let n: usize = chars.len();
    let mut i: usize = 0;
    let mut at: usize = 0;
    assert(offsets@.map_values(|x: usize| x as nat) =~= hyphen_offsets(s, 0));
    while i < n
        invariant
            chars@ == s,
            n == s.len(),
            i <= n,
            at == offset(s, i as int),
            total == offset(s, n as int),
            offsets@.map_values(|x: usize| x as nat) == hyphen_offsets(s, i as int),
        decreases n - i,
    {
        let c: char = chars[i];
        proof {
            lemma_offset_monotone(s, i as int + 1, n as int);
        }
        at = at + byte_width(c);
        if (c == '-' || c == '\u{2010}') && i > 0 && i + 1 < n && is_letter_or_number(chars[i - 1])
            && is_letter_or_number(chars[i + 1]) {
            let ghost before = offsets@;
            offsets.push(at);
            assert(offsets@.map_values(|x: usize| x as nat) =~= before.map_values(
                |x: usize| x as nat,
            ).push(at as nat));
        }
        i = i + 1;
    }
    offsets
}

}
