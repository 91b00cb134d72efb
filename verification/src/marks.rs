//! Which characters separate words, hang, open and join.

use crate::binary64::Binary64;
use crate::gauge::Gauge;
use crate::numeric::js_min;
use crate::prepare::{answered, paragraph_of, word_at, Answers};
use crate::text::{
    explicit_offsets, hyphen_offsets, law_trailing_run, law_words_are_runs, law_words_cover,
    lemma_offset_monotone, lemma_trimmed, offset, punctuation_start, trailing_run, trimmed_from,
    trimmed_to, unicode_alphabetic, unicode_numeric, word_spans,
};
use vstd::prelude::*;

verus! {

/// What hangs at the end of a word is the run of full stops, commas, colons,
/// exclamation and question marks, ellipses, closing quotation marks and
/// apostrophes that ends it: all of that run, and nothing before it.
pub proof fn law_marks_that_hang(stem: Seq<char>, run: Seq<char>)
    requires
        forall|i: int|
            0 <= i < run.len() ==> ".,;:!?\u{2026}\u{2019}\u{201d}\"'"@.contains(#[trigger] run[i]),
        stem.len() > 0 ==> !".,;:!?\u{2026}\u{2019}\u{201d}\"'"@.contains(stem.last()),
    ensures
        trailing_run(stem + run) == run,
{
    reveal_strlit(".,;:!?\u{2026}\u{2019}\u{201d}\"'");
    let marks = ".,;:!?\u{2026}\u{2019}\u{201d}\"'"@;
    let word = stem + run;
    let m = punctuation_start(word, word.len() as int);
    law_trailing_run(word);
    if m > stem.len() {
        assert(word[m - 1] == run[m - 1 - stem.len()]);
        let c = run[m - 1 - stem.len()];
        assert(marks.contains(c));
        let i = choose|i: int| 0 <= i < marks.len() && marks[i] == c;
        assert(0 <= i < 11);
    }
    if m < stem.len() {
        let c = word[stem.len() - 1];
        assert(c == stem.last());
        assert(marks[0] == '.' && marks[1] == ',' && marks[2] == ';' && marks[3] == ':');
        assert(marks[4] == '!' && marks[5] == '?' && marks[6] == '\u{2026}');
        assert(marks[7] == '\u{2019}' && marks[8] == '\u{201d}');
        assert(marks[9] == '"' && marks[10] == '\'');
    }
    assert(trailing_run(word) =~= run);
}

/// The hanging advance of a word is that of its closing marks, measured where
/// they stand and at most the whole word's; a word that ends otherwise has
/// none.
pub proof fn law_hangs_are_measured<G: Gauge>(
    g: G,
    base: int,
    text: Seq<char>,
    space: Binary64,
    answers: Seq<Answers>,
    k: int,
    stem: Seq<char>,
    run: Seq<char>,
)
    requires
        0 <= k < word_spans(text).len(),
        word_at(text, k) == stem + run,
        answered(g, base, stem + run, answers[k]),
        forall|i: int|
            0 <= i < run.len() ==> ".,;:!?\u{2026}\u{2019}\u{201d}\"'"@.contains(#[trigger] run[i]),
        stem.len() > 0 ==> !".,;:!?\u{2026}\u{2019}\u{201d}\"'"@.contains(stem.last()),
    ensures
        ({
            let word = stem + run;
            let hang = paragraph_of(text, space, answers).end_hangs[k];
            if run.len() == 0 {
                hang == Binary64::zero()
            } else {
                exists|whole: Binary64, ending: Binary64|
                    hang == js_min(whole, ending) && #[trigger] g.knows(
                        base,
                        base + offset(word, word.len() as int),
                        false,
                        whole,
                    ) && #[trigger] g.knows(
                        base + offset(word, stem.len() as int),
                        base + offset(word, word.len() as int),
                        false,
                        ending,
                    )
            }
        }),
{
    let word = stem + run;
    law_marks_that_hang(stem, run);
    law_trailing_run(word);
    assert(punctuation_start(word, word.len() as int) == stem.len());
    let a = answers[k];
    if run.len() > 0 {
        assert(g.knows(base, base + offset(word, word.len() as int), false, a.whole));
        assert(g.knows(
            base + offset(word, stem.len() as int),
            base + offset(word, word.len() as int),
            false,
            a.ending,
        ));
    }
}

/// The opening advance of a word is that of its first character where that is
/// an opening, straight or angle quotation mark, at most the whole word's; a
/// word that begins otherwise has none.
pub proof fn law_openings_are_measured<G: Gauge>(
    g: G,
    base: int,
    text: Seq<char>,
    space: Binary64,
    answers: Seq<Answers>,
    k: int,
    first: char,
    rest: Seq<char>,
)
    requires
        0 <= k < word_spans(text).len(),
        word_at(text, k) == seq![first] + rest,
        answered(g, base, seq![first] + rest, answers[k]),
    ensures
        ({
            let word = seq![first] + rest;
            let opening = paragraph_of(text, space, answers).start_hangs[k];
            if !"\u{201c}\u{2018}'\"\u{ab}\u{2039}"@.contains(first) {
                opening == Binary64::zero()
            } else {
                exists|whole: Binary64, quote: Binary64|
                    opening == js_min(whole, quote) && #[trigger] g.knows(
                        base,
                        base + offset(word, word.len() as int),
                        false,
                        whole,
                    ) && #[trigger] g.knows(base, base + offset(word, 1), false, quote)
            }
        }),
{
    reveal_strlit("\u{201c}\u{2018}'\"\u{ab}\u{2039}");
    let marks = "\u{201c}\u{2018}'\"\u{ab}\u{2039}"@;
    assert(marks[0] == '\u{201c}' && marks[1] == '\u{2018}' && marks[2] == '\'');
    assert(marks[3] == '"' && marks[4] == '\u{ab}' && marks[5] == '\u{2039}');
    let word = seq![first] + rest;
    assert(word[0] == first);
    reveal_with_fuel(offset, 2);
    assert(offset(word, 1) == crate::text::width(first));
    let a = answers[k];
    assert(g.knows(base, base + offset(word, word.len() as int), false, a.whole));
    if marks.contains(first) {
        let i = choose|i: int| 0 <= i < marks.len() && marks[i] == first;
        assert(0 <= i < 6);
        assert(g.knows(base, base + offset(word, 1), false, a.opening));
    }
}

/// A letter or a digit of ASCII, or what Unicode counts among letters and
/// numbers.
pub open spec fn letter_or_digit(c: char) -> bool {
    ||| 'a' <= c && c <= 'z'
    ||| 'A' <= c && c <= 'Z'
    ||| '0' <= c && c <= '9'
    ||| (c as u32) >= 0x80 && (unicode_alphabetic(c) || unicode_numeric(c))
}

/// A word may break by itself exactly after a hyphen, of ASCII or of Unicode,
/// between two letters or digits, unless it holds a no-break space.
pub proof fn law_hyphens_that_join(word: Seq<char>, i: int)
    requires
        0 <= i < word.len(),
    ensures
        explicit_offsets(word).contains(offset(word, i + 1)) <==> {
            &&& !word.contains('\u{a0}')
            &&& word[i] == '-' || word[i] == '\u{2010}'
            &&& 0 < i < word.len() - 1
            &&& letter_or_digit(word[i - 1])
            &&& letter_or_digit(word[i + 1])
        },
{
    lemma_hyphens(word, word.len() as int, i);
}

/// Nothing else breaks a word by itself.
pub proof fn law_only_hyphens_join(word: Seq<char>, k: int)
    requires
        0 <= k < explicit_offsets(word).len(),
    ensures
        exists|i: int|
            0 <= i < word.len() && #[trigger] offset(word, i + 1) == explicit_offsets(word)[k]
                && (word[i] == '-' || word[i] == '\u{2010}'),
{
    lemma_only_hyphens(word, word.len() as int, k);
}

proof fn lemma_only_hyphens(word: Seq<char>, n: int, k: int)
    requires
        0 <= n <= word.len(),
        0 <= k < hyphen_offsets(word, n).len(),
    ensures
        exists|i: int|
            0 <= i < word.len() && #[trigger] offset(word, i + 1) == hyphen_offsets(word, n)[k]
                && (word[i] == '-' || word[i] == '\u{2010}'),
    decreases n,
{
    if n > 0 {
        if k < hyphen_offsets(word, n - 1).len() {
            lemma_only_hyphens(word, n - 1, k);
        } else {
            assert(offset(word, (n - 1) + 1) == hyphen_offsets(word, n)[k]);
        }
    }
}

/// The offsets after the hyphens among the first characters.
proof fn lemma_hyphens(word: Seq<char>, n: int, i: int)
    requires
        0 <= n <= word.len(),
        0 <= i < word.len(),
    ensures
        hyphen_offsets(word, n).contains(offset(word, i + 1)) <==> {
            &&& i < n
            &&& word[i] == '-' || word[i] == '\u{2010}'
            &&& 0 < i < word.len() - 1
            &&& letter_or_digit(word[i - 1])
            &&& letter_or_digit(word[i + 1])
        },
    decreases n,
{
    if n > 0 {
        lemma_hyphens(word, n - 1, i);
        let (before, all) = (hyphen_offsets(word, n - 1), hyphen_offsets(word, n));
        if i < n - 1 {
            lemma_offset_monotone(word, i + 1, n);
        }
        if n < i + 1 {
            lemma_offset_monotone(word, n, i + 1);
        }
        if all.len() > before.len() {
            assert(all == before.push(offset(word, n)));
            assert(all[before.len() as int] == offset(word, n));
            if before.contains(offset(word, i + 1)) {
                let j = choose|j: int| 0 <= j < before.len() && before[j] == offset(word, i + 1);
                assert(all[j] == offset(word, i + 1));
            }
            if all.contains(offset(word, i + 1)) && i != n - 1 {
                let j = choose|j: int| 0 <= j < all.len() && all[j] == offset(word, i + 1);
                assert(before[j] == offset(word, i + 1));
            }
        }
    }
}

/// Words hold no space, tab, line end or form feed, and every character that
/// is none of these and no white space at an end of the text is in a word.
pub proof fn law_words_are_between_spaces(text: Seq<char>, c: int)
    requires
        0 <= c < text.len(),
    ensures
        (exists|k: int|
            0 <= k < word_spans(text).len() && (#[trigger] word_spans(text)[k]).0 <= c
                < word_spans(text)[k].1) <==> trimmed_from(text) <= c < trimmed_to(text)
            && !" \t\r\n\x0c"@.contains(text[c]),
{
    reveal_strlit(" \t\r\n\x0c");
    let spaces = " \t\r\n\x0c"@;
    assert(spaces[0] == ' ' && spaces[1] == '\t' && spaces[2] == '\r' && spaces[3] == '\n');
    assert(spaces[4] == '\x0c');
    let spans = word_spans(text);
    law_words_are_runs(text);
    if exists|k: int| 0 <= k < spans.len() && (#[trigger] spans[k]).0 <= c < spans[k].1 {
        let k = choose|k: int| 0 <= k < spans.len() && (#[trigger] spans[k]).0 <= c < spans[k].1;
        if spaces.contains(text[c]) {
            let i = choose|i: int| 0 <= i < spaces.len() && spaces[i] == text[c];
            assert(0 <= i < 5);
        }
        assert(!crate::text::separates(text[c]));
    }
    if trimmed_from(text) <= c < trimmed_to(text) && !spaces.contains(text[c]) {
        law_words_cover(text, c);
    }
}

/// Trimming takes away white space and nothing else: what stands before and
/// after the trimmed text is white space, and it neither begins nor ends with
/// any.
pub proof fn law_trimming(text: Seq<char>, c: int)
    requires
        0 <= c < text.len(),
    ensures
        c < trimmed_from(text) || trimmed_to(text) <= c ==> unicode_space(text[c]),
        c == trimmed_from(text) || c + 1 == trimmed_to(text) ==> trimmed_from(text) < trimmed_to(
            text,
        ) ==> !unicode_space(text[c]),
{
    lemma_trimmed(text);
    lemma_after(text, 0, c);
    lemma_before(text, trimmed_from(text), text.len() as int, c);
}

/// The characters with Unicode's `White_Space` property: the spaces, tabs and
/// line ends of ASCII, the next line, the no-break space and Unicode's other
/// spaces and separators.
pub open spec fn unicode_space(c: char) -> bool {
    ||| c == ' ' || c == '\t' || c == '\n' || c == '\x0b' || c == '\x0c' || c == '\r'
    ||| c == '\u{85}' || c == '\u{a0}' || c == '\u{1680}' || '\u{2000}' <= c && c <= '\u{200a}'
    ||| c == '\u{2028}' || c == '\u{2029}' || c == '\u{202f}' || c == '\u{205f}'
    ||| c == '\u{3000}'
}

proof fn lemma_after(s: Seq<char>, i: int, c: int)
    requires
        0 <= i <= s.len(),
    ensures
        i <= c < crate::text::after_space(s, i) ==> unicode_space(s[c]),
        i <= crate::text::after_space(s, i) <= s.len(),
        c == crate::text::after_space(s, i) && c < s.len() ==> !unicode_space(s[c]),
    decreases s.len() - i,
{
    if i < s.len() && crate::text::white_space(s[i]) {
        lemma_after(s, i + 1, c);
    }
}

proof fn lemma_before(s: Seq<char>, i: int, j: int, c: int)
    requires
        0 <= i <= j <= s.len(),
    ensures
        crate::text::before_space(s, i, j) <= c < j ==> unicode_space(s[c]),
        i <= crate::text::before_space(s, i, j) <= j,
        c + 1 == crate::text::before_space(s, i, j) && i <= c ==> !unicode_space(s[c]),
    decreases j - i,
{
    if i < j && crate::text::white_space(s[j - 1]) {
        lemma_before(s, i, j - 1, c);
    }
}

}
