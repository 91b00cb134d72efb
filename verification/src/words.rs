//! Splitting a text into words and joining them again.

use crate::prepare::word_at;
use crate::text::{
    after_space, before_space, law_words_are_runs, law_words_cover, lemma_run_end, lemma_trimmed,
    run_end, separates, trimmed_from, trimmed_to, white_space, word_spans, words_between,
};
use vstd::prelude::*;

verus! {

/// The words of a text.
pub open spec fn words_of(text: Seq<char>) -> Seq<Seq<char>> {
    Seq::new(word_spans(text).len(), |k: int| word_at(text, k))
}

/// The first `count` words, joined by single spaces.
pub open spec fn joined_words(words: Seq<Seq<char>>, count: nat) -> Seq<char>
    decreases count,
{
    if count == 0 {
        seq![]
    } else if count == 1 {
        words[0]
    } else {
        joined_words(words, (count - 1) as nat) + seq![' '] + words[count - 1]
    }
}

/// Where word `k` begins when words are joined by single spaces.
spec fn place(words: Seq<Seq<char>>, k: nat) -> int
    decreases k,
{
    if k == 0 {
        0
    } else {
        place(words, (k - 1) as nat) + words[k - 1].len() + 1
    }
}

/// Words that splitting can give: not empty, and without separators.
spec fn unsplit(words: Seq<Seq<char>>) -> bool {
    &&& forall|k: int| 0 <= k < words.len() ==> (#[trigger] words[k]).len() > 0
    &&& forall|k: int, i: int|
        0 <= k < words.len() && 0 <= i < words[k].len() ==> !separates(#[trigger] words[k][i])
}

/// Later words begin later.
proof fn lemma_place(words: Seq<Seq<char>>, j: nat, k: nat)
    requires
        j < k,
    ensures
        0 <= place(words, j),
        place(words, j) + words[j as int].len() < place(words, k),
    decreases k,
{
    if j < k - 1 {
        lemma_place(words, j, (k - 1) as nat);
    } else if j > 0 {
        lemma_place(words, (j - 1) as nat, j);
    }
}

/// Joined words hold each word at its place, with a space between.
proof fn lemma_joined(words: Seq<Seq<char>>, count: nat)
    requires
        0 < count <= words.len(),
    ensures
        joined_words(words, count).len() == place(words, (count - 1) as nat) + words[count
            - 1].len(),
        forall|k: int, i: int|
            0 <= k < count && 0 <= i < words[k].len() ==> joined_words(words, count)[place(
                words,
                k as nat,
            ) + i] == #[trigger] words[k][i],
        forall|k: int|
            0 <= k < count - 1 ==> #[trigger] joined_words(words, count)[place(words, k as nat)
                + words[k].len()] == ' ',
    decreases count,
{
    let all = joined_words(words, count);
    if count > 1 {
        let m = (count - 1) as nat;
        lemma_joined(words, m);
        let before = joined_words(words, m);
        assert(place(words, m) == before.len() + 1);
        assert forall|k: int, i: int| 0 <= k < count && 0 <= i < words[k].len() implies all[place(
            words,
            k as nat,
        ) + i] == #[trigger] words[k][i] by {
            if k < m {
                assert(before[place(words, k as nat) + i] == words[k][i]);
                if k < m - 1 {
                    lemma_place(words, k as nat, (m - 1) as nat);
                }
                if k > 0 {
                    lemma_place(words, 0, k as nat);
                }
            }
        }
        assert forall|k: int| 0 <= k < count - 1 implies #[trigger] all[place(words, k as nat)
            + words[k].len()] == ' ' by {
            if k > 0 {
                lemma_place(words, 0, k as nat);
            }
            if k < m - 1 {
                assert(before[place(words, k as nat) + words[k].len()] == ' ');
                lemma_place(words, k as nat, (m - 1) as nat);
            }
        }
    }
}

/// Splitting joined words from word `k` on gives the words from there.
proof fn lemma_split_joined(words: Seq<Seq<char>>, k: nat)
    requires
        unsplit(words),
        k < words.len(),
    ensures
        ({
            let n = words.len();
            let text = joined_words(words, n);
            words_between(text, place(words, k), text.len() as int) == Seq::new(
                (n - k) as nat,
                |j: int|
                    (
                        place(words, (k + j) as nat),
                        place(words, (k + j) as nat) + words[k + j].len(),
                    ),
            )
        }),
    decreases words.len() - k,
{
    let n = words.len();
    let text = joined_words(words, n);
    let end = text.len() as int;
    lemma_joined(words, n);
    let at = place(words, k);
    let word = words[k as int];
    let stop = at + word.len();
    if k > 0 {
        lemma_place(words, 0, k);
    }
    if k < n - 1 {
        lemma_place(words, k, (n - 1) as nat);
    }
    assert(0 <= at < stop <= end);
    assert(!separates(words[k as int][0]));
    assert(text[at + 0] == words[k as int][0]);
    lemma_run_end(text, at, end);
    let e = run_end(text, at, end);
    assert(e == stop) by {
        if e < stop {
            assert(text[at + (e - at)] == words[k as int][e - at]);
            assert(!separates(words[k as int][e - at]));
        }
        if e > stop {
            assert(k < n - 1);
            assert(text[place(words, k) + words[k as int].len()] == ' ');
            assert(!separates(text[stop]));
        }
    }
    let expected = Seq::new(
        (n - k) as nat,
        |j: int|
            (place(words, (k + j) as nat), place(words, (k + j) as nat) + words[k + j].len()),
    );
    assert(words_between(text, at, end) == seq![(at, stop)] + words_between(text, stop, end));
    if k == n - 1 {
        assert(words_between(text, stop, end) =~= seq![]);
        assert(seq![(at, stop)] + words_between(text, stop, end) =~= expected);
    } else {
        assert(text[place(words, k) + words[k as int].len()] == ' ');
        assert(words_between(text, stop, end) == words_between(text, stop + 1, end));
        lemma_split_joined(words, k + 1);
        assert(stop + 1 == place(words, k + 1));
        let rest = words_between(text, place(words, k + 1), end);
        assert forall|j: int| 0 <= j < n - k implies (seq![(at, stop)] + rest)[j]
            == #[trigger] expected[j] by {
            if j > 0 {
                assert(rest[j - 1] == (
                    place(words, (k + 1 + (j - 1)) as nat),
                    place(words, (k + 1 + (j - 1)) as nat) + words[k + 1 + (j - 1)].len(),
                ));
            }
        }
        assert(seq![(at, stop)] + rest =~= expected);
    }
}

/// The first word of a text begins where trimming ends, and the last one ends
/// where trimming begins.
proof fn lemma_outer_words(text: Seq<char>)
    requires
        word_spans(text).len() > 0,
    ensures
        word_spans(text)[0].0 == trimmed_from(text),
        word_spans(text).last().1 == trimmed_to(text),
{
    let spans = word_spans(text);
    let n = spans.len() as int;
    law_words_are_runs(text);
    lemma_trimmed(text);
    let (from, to) = (trimmed_from(text), trimmed_to(text));
    assert(from <= spans[0].0 < spans[0].1 <= to);
    assert(!separates(text[from]));
    law_words_cover(text, from);
    let k = choose|k: int| 0 <= k < n && (#[trigger] spans[k]).0 <= from < spans[k].1;
    if k > 0 {
        assert(spans[0].1 < spans[k].0);
    }
    assert(!separates(text[to - 1]));
    law_words_cover(text, to - 1);
    let m = choose|m: int| 0 <= m < n && (#[trigger] spans[m]).0 <= to - 1 < spans[m].1;
    assert(spans[m].1 <= to);
    if m < n - 1 {
        assert(spans[m].1 < spans[n - 1].0);
        assert(spans[n - 1].0 < spans[n - 1].1 <= to);
    }
}

/// Splitting undoes joining by single spaces: the words of a text, joined and
/// split again, are the same words.
pub proof fn law_split_undoes_join(text: Seq<char>)
    ensures
        words_of(joined_words(words_of(text), words_of(text).len())) == words_of(text),
{
    let words = words_of(text);
    let n = words.len();
    let spans = word_spans(text);
    let joined = joined_words(words, n);
    law_words_are_runs(text);
    lemma_trimmed(text);
    if n == 0 {
        assert(trimmed_from(joined) == 0);
        assert(trimmed_to(joined) == 0);
        assert(words_of(joined) =~= words);
    } else {
        assert forall|k: int| 0 <= k < n implies (#[trigger] words[k]).len() > 0 by {
            assert(spans[k].0 < spans[k].1);
        }
        assert forall|k: int, i: int| 0 <= k < n && 0 <= i < words[k].len() implies !separates(
            #[trigger] words[k][i],
        ) by {
            assert(spans[k].0 <= spans[k].0 + i < spans[k].1);
            assert(!separates(text[spans[k].0 + i]));
        }
        assert(unsplit(words));
        lemma_joined(words, n);
        lemma_outer_words(text);
        let end = joined.len() as int;
        let last = words[n - 1].len() - 1;
        assert(words[0].len() > 0 && words[n - 1].len() > 0);
        assert(joined[place(words, 0) + 0] == words[0][0]);
        assert(words[0][0] == text[trimmed_from(text)]);
        assert(joined[place(words, (n - 1) as nat) + last] == words[n - 1][last]);
        assert(words[n - 1][last] == text[trimmed_to(text) - 1]);
        assert(trimmed_from(text) < trimmed_to(text)) by {
            assert(spans[0].0 < spans[0].1 <= trimmed_to(text));
        }
        if n > 1 {
            lemma_place(words, 0, (n - 1) as nat);
        }
        assert(!white_space(joined[0]) && !white_space(joined[end - 1]));
        assert(after_space(joined, 0) == 0);
        assert(before_space(joined, 0, end) == end);
        lemma_split_joined(words, 0);
        let again = word_spans(joined);
        assert(again.len() == n);
        assert forall|k: int| 0 <= k < n implies #[trigger] word_at(joined, k) == words[k] by {
            let at = place(words, k as nat);
            assert(again[k] == (
                place(words, (0 + k) as nat),
                place(words, (0 + k) as nat) + words[0 + k].len(),
            ));
            if k > 0 {
                lemma_place(words, 0, k as nat);
            }
            if k < n - 1 {
                lemma_place(words, k as nat, (n - 1) as nat);
            }
            let part = joined.subrange(at, at + words[k].len());
            assert forall|i: int| 0 <= i < words[k].len() implies part[i] == words[k][i] by {
                assert(joined[at + i] == words[k][i]);
            }
            assert(part =~= words[k]);
        }
        assert(words_of(joined) =~= words);
    }
}

}
