//! Breaks inside words that a dictionary supplies.

use crate::binary64::Binary64;
use crate::fragments::{
    any_flag, boundary, flags_of, fragments, fragments_by, lemma_same_pieces, listed, needed,
    ordered, pieces_fail, pieces_in, pieces_known,
};
use crate::gauge::{answers_fragment, drawn, FragmentGauge, Gauge};
use crate::hyphenated::fragments_at;
use crate::model::{
    entry_models, fragments_model, texts, valid_entry, Error, Fragments, Paragraph, Prepared,
    WordFragments,
};
use crate::solve::unsigned;
use crate::text::{
    byte_length, grapheme_boundaries, grapheme_starts, has_no_break_space, lemma_offset_monotone,
    lemma_offset_within, offset,
};
use vstd::hash_map::StringHashMap;
use vstd::prelude::*;

verus! {

/// The first `k` parts, one after the other.
pub open spec fn joined(parts: Seq<Seq<char>>, k: nat) -> Seq<char>
    decreases k,
{
    if k == 0 {
        seq![]
    } else {
        joined(parts, (k - 1) as nat) + parts[k - 1]
    }
}

/// Parts that are not empty and make up the word.
pub open spec fn partitions(parts: Seq<Seq<char>>, word: Seq<char>) -> bool {
    &&& parts.len() > 0
    &&& forall|k: int| 0 <= k < parts.len() ==> (#[trigger] parts[k]).len() > 0
    &&& joined(parts, parts.len()) == word
}

/// The byte offset at which the part with index `k` begins.
pub open spec fn part_offset(word: Seq<char>, parts: Seq<Seq<char>>, k: int) -> usize {
    offset(word, joined(parts, k as nat).len() as int) as usize
}

/// The byte offsets of the parts, and the end of the word.
pub open spec fn part_offsets(word: Seq<char>, parts: Seq<Seq<char>>) -> Seq<usize> {
    Seq::new(parts.len() + 1, |k: int| part_offset(word, parts, k))
}

/// No part begins inside a grapheme.
pub open spec fn keeps_graphemes(word: Seq<char>, parts: Seq<Seq<char>>) -> bool {
    forall|k: int|
        0 < k < parts.len() ==> grapheme_starts(word).contains(
            #[trigger] part_offset(word, parts, k),
        )
}

/// The source itself ends in a hyphen at this byte, as known so far.
pub open spec fn marked(f: Option<Fragments>, at: usize) -> bool {
    f matches Some(f) && exists|k: int|
        0 <= k < f.offsets.len() && #[trigger] f.offsets[k] == at && f.explicit_at(k)
}

/// `merged` has, in order and once each, the numbers of `offsets` and those
/// that are marked.
pub open spec fn merges(merged: Seq<usize>, offsets: Seq<usize>, f: Option<Fragments>) -> bool {
    &&& forall|j: int, k: int|
        0 <= j < k < merged.len() ==> (#[trigger] merged[j]) < #[trigger] merged[k]
    &&& forall|at: usize| #[trigger]
        merged.contains(at) <==> offsets.contains(at) || marked(f, at)
}

/// Which boundaries are marked.
pub open spec fn marks(merged: Seq<usize>, f: Option<Fragments>) -> Seq<bool> {
    merged.map_values(|at: usize| marked(f, at))
}

/// The fragments of every word lie between its characters.
pub open spec fn sliced(p: Paragraph) -> bool {
    forall|i: int|
        0 <= i < p.words.len() && (#[trigger] p.fragments_of(i)) is Some ==> ordered(
            p.words[i],
            p.fragments_of(i)->0.offsets,
        )
}

/// The offsets that the source breaks at itself.
fn marked_offsets(f: Option<&WordFragments>) -> (r: Vec<usize>)
    requires
        f matches Some(f) ==> f@.valid(),
    ensures
        forall|at: usize| #[trigger]
            r@.contains(at) <==> marked(
                match f {
                    Some(f) => Some(f@),
                    None => None,
                },
                at,
            ),
        f matches Some(f) ==> r@.len() <= f@.offsets.len(),
        f is None ==> r@.len() == 0,
{
    let mut r: Vec<usize> = Vec::new();
    if let Some(f) = f {
        if let Some(flags) = &f.explicit {
            let n: usize = f.offsets.len();
            let mut i: usize = 0;
            while i < n
                invariant
                    f@.valid(),
                    n == f@.offsets.len(),
                    f@.explicit == Some(flags@),
                    i <= n,
                    r@.len() <= i,
                    forall|at: usize| #[trigger]
                        r@.contains(at) <==> exists|k: int|
                            0 <= k < i && #[trigger] f@.offsets[k] == at && f@.explicit_at(k),
                decreases n - i,
            {
                let at: usize = f.offsets[i];
                let ghost before = r@;
                if flags[i] {
                    r.push(at);
                    assert(r@ =~= before.push(at));
                    assert(r@[before.len() as int] == at);
                    assert forall|x: usize| before.contains(x) implies #[trigger] r@.contains(
                        x,
                    ) by {
                        let j = choose|j: int| 0 <= j < before.len() && before[j] == x;
                        assert(r@[j] == x);
                    }
                }
                i = i + 1;
                assert forall|x: usize| #[trigger] r@.contains(x) <==> exists|k: int|
                    0 <= k < i && #[trigger] f@.offsets[k] == x && f@.explicit_at(k) by {
                    if r@.contains(x) && !before.contains(x) {
                        assert(f@.offsets[i - 1] == x);
                    }
                }
            }
        }
    }
    r
}

/// Adds a number to a list in order, unless it is there.
fn insert_ordered(list: &mut Vec<usize>, x: usize)
    requires
        forall|j: int, k: int|
            0 <= j < k < old(list)@.len() ==> (#[trigger] old(list)@[j]) < #[trigger] old(
                list,
            )@[k],
    ensures
        forall|j: int, k: int|
            0 <= j < k < final(list)@.len() ==> (#[trigger] final(list)@[j])
                < #[trigger] final(list)@[k],
        forall|y: usize| #[trigger]
            final(list)@.contains(y) <==> old(list)@.contains(y) || y == x,
        final(list)@.len() <= old(list)@.len() + 1,
{
    let n: usize = list.len();
    let mut i: usize = 0;
    while i < n && list[i] < x
        invariant
            n == list@.len(),
            i <= n,
            forall|k: int| 0 <= k < i ==> #[trigger] list@[k] < x,
        decreases n - i,
    {
        i = i + 1;
    }
    let ghost before = list@;
    if i == n || list[i] != x {
        list.insert(i, x);
        assert(list@ =~= before.insert(i as int, x));
        assert(list@[i as int] == x);
        assert forall|y: usize| #[trigger] list@.contains(y) <==> before.contains(y) || y == x by {
            if before.contains(y) {
                let k = choose|k: int| 0 <= k < before.len() && before[k] == y;
                if k < i {
                    assert(list@[k] == y);
                } else {
                    assert(list@[k + 1] == y);
                }
            }
            if list@.contains(y) && y != x {
                let k = choose|k: int| 0 <= k < list@.len() && list@[k] == y;
                if k < i {
                    assert(before[k] == y);
                } else {
                    assert(before[k - 1] == y);
                }
            }
        }
    } else {
        assert(before[i as int] == x);
    }
}

/// The first parts make up the beginning of the word.
proof fn lemma_joined(parts: Seq<Seq<char>>, k: nat, m: nat)
    requires
        k <= m <= parts.len(),
    ensures
        joined(parts, k).len() <= joined(parts, m).len(),
        joined(parts, m).take(joined(parts, k).len() as int) == joined(parts, k),
    decreases m - k,
{
    if k < m {
        lemma_joined(parts, k, (m - 1) as nat);
        let short = joined(parts, k);
        let long = joined(parts, (m - 1) as nat);
        assert(joined(parts, m).take(short.len() as int) =~= long.take(short.len() as int));
    } else {
        assert(joined(parts, m).take(joined(parts, m).len() as int) =~= joined(parts, m));
    }
}

/// A part lies between its own offset and the next.
proof fn lemma_part(word: Seq<char>, parts: Seq<Seq<char>>, k: int)
    requires
        partitions(parts, word),
        0 <= k < parts.len(),
        offset(word, word.len() as int) <= usize::MAX,
    ensures
        part_offset(word, parts, k) + offset(parts[k], parts[k].len() as int) == part_offset(
            word,
            parts,
            k + 1,
        ),
        part_offset(word, parts, k) < part_offset(word, parts, k + 1),
        part_offset(word, parts, k + 1) <= offset(word, word.len() as int),
        part_offset(word, parts, k) == offset(word, joined(parts, k as nat).len() as int),
        part_offset(word, parts, k + 1) == offset(word, joined(parts, (k + 1) as nat).len() as int),
        joined(parts, (k + 1) as nat).len() <= word.len(),
{
    let (i, j) = (joined(parts, k as nat).len() as int, joined(parts, (k + 1) as nat).len() as int);
    lemma_joined(parts, k as nat, parts.len());
    lemma_joined(parts, (k + 1) as nat, parts.len());
    let before = joined(parts, (k + 1) as nat);
    assert(word.subrange(i, j) =~= parts[k]) by {
        assert(word.take(j) == before);
        assert forall|x: int| 0 <= x < j - i implies word.subrange(i, j)[x] == parts[k][x] by {
            assert(word.take(j)[i + x] == before[i + x]);
        }
    }
    lemma_offset_within(word, i, j, j - i);
    lemma_offset_monotone(word, i, j);
    lemma_offset_monotone(word, j, word.len() as int);
}

/// The offsets of the parts are in order.
proof fn lemma_part_order(word: Seq<char>, parts: Seq<Seq<char>>, j: int, k: int)
    requires
        partitions(parts, word),
        0 <= j < k <= parts.len(),
        offset(word, word.len() as int) <= usize::MAX,
    ensures
        part_offset(word, parts, j) < part_offset(word, parts, k),
    decreases k - j,
{
    lemma_part(word, parts, k - 1);
    if j < k - 1 {
        lemma_part_order(word, parts, j, k - 1);
    }
}

/// The offsets of parts that make up a word; nothing where they do not.
fn partition_offsets(word: &String, parts: &Vec<String>) -> (r: Option<Vec<usize>>)
    ensures
        r is Some <==> partitions(texts(parts@), word@),
        r matches Some(offsets) ==> offsets@ == part_offsets(word@, texts(parts@)),
{
    let ghost list = texts(parts@);
    let n: usize = parts.len();
    if n == 0 {
        return None;
    }
    let mut whole: String = String::new();
    let mut i: usize = 0;
    assert(whole@ =~= joined(list, 0));
    while i < n
        invariant
            list == texts(parts@),
            n == parts@.len(),
            i <= n,
            whole@ == joined(list, i as nat),
            forall|k: int| 0 <= k < i ==> (#[trigger] list[k]).len() > 0,
        decreases n - i,
    {
        assert(list[i as int] == parts@[i as int]@);
        let length: usize = byte_length(parts[i].as_str());
        proof {
            lemma_offset_monotone(list[i as int], 0, list[i as int].len() as int);
        }
        if length == 0 {
            assert(list[i as int].len() == 0);
            return None;
        }
        assert(list[i as int].len() > 0);
        whole.append(parts[i].as_str());
        i = i + 1;
    }
    if whole != *word {
        return None;
    }
    assert(partitions(list, word@));
    let total: usize = byte_length(word.as_str());
    let mut offsets: Vec<usize> = Vec::new();
    offsets.push(0);
    let mut at: usize = 0;
    let mut k: usize = 0;
    assert(offsets@ =~= part_offsets(word@, list).take(1)) by {
        assert(joined(list, 0).len() == 0);
        assert(offset(word@, 0) == 0);
    }
    while k < n
        invariant
            list == texts(parts@),
            n == parts@.len(),
            k <= n,
            partitions(list, word@),
            total == offset(word@, word@.len() as int),
            at == part_offset(word@, list, k as int),
            offsets@ == part_offsets(word@, list).take(k + 1),
        decreases n - k,
    {
        proof {
            lemma_part(word@, list, k as int);
            assert(list[k as int] == parts@[k as int]@);
        }
        at = at + byte_length(parts[k].as_str());
        offsets.push(at);
        k = k + 1;
        assert(offsets@ =~= part_offsets(word@, list).take(k + 1));
    }
    assert(offsets@ =~= part_offsets(word@, list));
    Some(offsets)
}

/// Whether no part begins inside a grapheme.
fn are_whole(word: &String, offsets: &Vec<usize>, parts: Ghost<Seq<Seq<char>>>) -> (r: bool)
    requires
        offsets@ == part_offsets(word@, parts@),
    ensures
        r == keeps_graphemes(word@, parts@),
{
    let starts: Vec<usize> = grapheme_boundaries(word.as_str());
    let n: usize = offsets.len();
    let mut k: usize = 1;
    while k < n - 1
        invariant
            starts@ == grapheme_starts(word@),
            offsets@ == part_offsets(word@, parts@),
            n == offsets@.len(),
            n >= 1,
            1 <= k,
            k <= n - 1 || k == 1,
            forall|j: int|
                0 < j < k && j < n - 1 ==> grapheme_starts(word@).contains(
                    #[trigger] part_offset(word@, parts@, j),
                ),
        decreases n - k,
    {
        assert(offsets@[k as int] == part_offset(word@, parts@, k as int));
        if !listed(&starts, offsets[k]) {
            return false;
        }
        k = k + 1;
    }
    true
}

/// The offsets of the parts, merged with the marked ones.
fn merge(
    word: &String,
    offsets: Vec<usize>,
    explicit_at: &Vec<usize>,
    existing: Ghost<Option<Fragments>>,
    parts: Ghost<Seq<Seq<char>>>,
) -> (merged: Vec<usize>)
    requires
        partitions(parts@, word@),
        offsets@ == part_offsets(word@, parts@),
        forall|at: usize| #[trigger] explicit_at@.contains(at) <==> marked(existing@, at),
        existing@ matches Some(f) ==> ordered(word@, f.offsets),
    ensures
        merges(merged@, part_offsets(word@, parts@), existing@),
        ordered(word@, merged@),
        parts@.len() + 1 <= merged@.len() <= parts@.len() + 1 + explicit_at@.len(),
{
    let _bytes: usize = byte_length(word.as_str());
    let ghost first = offsets@;
    let mut merged: Vec<usize> = offsets;
    proof {
        assert forall|j: int, k: int| 0 <= j < k < first.len() implies (#[trigger] first[j])
            < #[trigger] first[k] by {
            lemma_part_order(word@, parts@, j, k);
        }
    }
    let n: usize = explicit_at.len();
    let mut i: usize = 0;
    while i < n
        invariant
            n == explicit_at@.len(),
            i <= n,
            forall|j: int, k: int|
                0 <= j < k < merged@.len() ==> (#[trigger] merged@[j]) < #[trigger] merged@[k],
            forall|at: usize| #[trigger]
                merged@.contains(at) <==> first.contains(at) || explicit_at@.take(
                    i as int,
                ).contains(at),
            merged@.len() <= first.len() + i,
        decreases n - i,
    {
        let x: usize = explicit_at[i];
        let ghost before = merged@;
        insert_ordered(&mut merged, x);
        i = i + 1;
        proof {
            let (short, long) = (explicit_at@.take(i - 1), explicit_at@.take(i as int));
            assert(long =~= short.push(x));
            assert forall|at: usize| #[trigger] merged@.contains(at) <==> first.contains(at)
                || long.contains(at) by {
                if short.contains(at) {
                    let k = choose|k: int| 0 <= k < short.len() && short[k] == at;
                    assert(long[k] == at);
                }
                assert(long[i - 1] == x);
                if long.contains(at) && at != x {
                    let k = choose|k: int| 0 <= k < long.len() && long[k] == at;
                    assert(short[k] == at);
                }
            }
        }
    }
    proof {
        assert(explicit_at@.take(n as int) =~= explicit_at@);
        assert(merges(merged@, first, existing@));
        assert forall|k: int| 0 <= k < merged@.len() implies boundary(
            word@,
            #[trigger] merged@[k] as int,
        ) by {
            let at = merged@[k];
            assert(merged@.contains(at));
            if first.contains(at) {
                let j = choose|j: int| 0 <= j < first.len() && first[j] == at;
                if j > 0 {
                    lemma_part(word@, parts@, j - 1);
                } else {
                    lemma_part(word@, parts@, 0);
                }
            } else {
                let f = existing@->0;
                let j = choose|j: int|
                    0 <= j < f.offsets.len() && #[trigger] f.offsets[j] == at && f.explicit_at(j);
                assert(boundary(word@, f.offsets[j] as int));
            }
        }
        lemma_no_fewer(first, merged@);
    }
    merged
}

/// A list that has all numbers of another one, which has no number twice, is
/// not shorter.
proof fn lemma_no_fewer(a: Seq<usize>, b: Seq<usize>)
    requires
        forall|j: int, k: int| 0 <= j < k < a.len() ==> (#[trigger] a[j]) < #[trigger] a[k],
        forall|j: int, k: int| 0 <= j < k < b.len() ==> (#[trigger] b[j]) < #[trigger] b[k],
        forall|x: usize| a.contains(x) ==> #[trigger] b.contains(x),
    ensures
        a.len() <= b.len(),
    decreases a.len(),
{
    if a.len() > 0 {
        let x = a.last();
        assert(a.contains(x));
        assert(b.contains(x));
        let k = choose|k: int| 0 <= k < b.len() && b[k] == x;
        let (c, d) = (a.drop_last(), b.take(k));
        assert forall|y: usize| c.contains(y) implies #[trigger] d.contains(y) by {
            let j = choose|j: int| 0 <= j < c.len() && c[j] == y;
            assert(a[j] == y && a[j] < x);
            assert(a.contains(y));
            assert(b.contains(y));
            let m = choose|m: int| 0 <= m < b.len() && b[m] == y;
            if m > k {
                assert(b[k] < b[m]);
            }
            assert(d[m] == y);
        }
        lemma_no_fewer(c, d);
    }
}

/// Breaks after source hyphens are retained alongside those of the dictionary:
/// the boundaries run from the start of the word to its end, with every part
/// and every marked offset among them.
pub proof fn law_breaks_retained(
    word: Seq<char>,
    parts: Seq<Seq<char>>,
    f: Option<Fragments>,
    merged: Seq<usize>,
)
    requires
        partitions(parts, word),
        offset(word, word.len() as int) <= usize::MAX,
        f matches Some(f) ==> ordered(word, f.offsets),
        merges(merged, part_offsets(word, parts), f),
    ensures
        merged.len() >= 2,
        merged[0] == 0,
        merged.last() == offset(word, word.len() as int),
        ordered(word, merged),
        forall|k: int|
            0 <= k <= parts.len() ==> merged.contains(#[trigger] part_offset(word, parts, k)),
        forall|at: usize| #[trigger] marked(f, at) ==> merged.contains(at),
        forall|k: int|
            0 <= k < merged.len() ==> #[trigger] marks(merged, f)[k] == marked(f, merged[k]),
{
    let offsets = part_offsets(word, parts);
    let n = parts.len() as int;
    let end = offset(word, word.len() as int);
    assert forall|k: int| 0 <= k <= n implies merged.contains(
        #[trigger] part_offset(word, parts, k),
    ) by {
        assert(offsets[k] == part_offset(word, parts, k));
        assert(offsets.contains(part_offset(word, parts, k)));
    }
    assert(part_offset(word, parts, 0) == 0) by {
        assert(joined(parts, 0).len() == 0);
        assert(offset(word, 0) == 0);
    }
    assert(part_offset(word, parts, n) == end) by {
        lemma_part(word, parts, n - 1);
    }
    assert(merged.contains(0usize));
    assert(merged.contains(end as usize));
    let first = choose|k: int| 0 <= k < merged.len() && merged[k] == 0usize;
    let last = choose|k: int| 0 <= k < merged.len() && merged[k] == end as usize;
    if first > 0 {
        assert(merged[0] < merged[first]);
    }
    lemma_part_order(word, parts, 0, n);
    assert forall|k: int| 0 <= k < merged.len() implies boundary(word, #[trigger] merged[k] as int)
        && merged[k] <= end by {
        let at = merged[k];
        assert(merged.contains(at));
        if offsets.contains(at) {
            let j = choose|j: int| 0 <= j < offsets.len() && offsets[j] == at;
            if j > 0 {
                lemma_part(word, parts, j - 1);
            } else {
                lemma_part(word, parts, 0);
            }
        } else {
            let g = f->0;
            let j = choose|j: int|
                0 <= j < g.offsets.len() && #[trigger] g.offsets[j] == at && g.explicit_at(j);
            assert(boundary(word, g.offsets[j] as int));
        }
        let i = choose|i: int| 0 <= i <= word.len() && #[trigger] offset(word, i) == at;
        lemma_offset_monotone(word, i, word.len() as int);
    }
    if last < merged.len() - 1 {
        assert(merged[last] < merged[merged.len() - 1]);
    }
}

/// What dividing a word has given.
pub struct Division {
    /// The parts that the dictionary proposes.
    pub parts: Seq<Seq<char>>,
    /// The boundaries of its fragments.
    pub merged: Seq<usize>,
    /// The widths of its fragments.
    pub pieces: spec_fn(int, int, bool) -> Binary64,
}

/// The dictionary may propose these parts of the word with index `i`.
pub open spec fn proposes<F: FnMut(&str, usize) -> Vec<String>>(
    hyphenate: F,
    word: Seq<char>,
    i: usize,
    parts: Seq<Seq<char>>,
) -> bool {
    exists|s: &str, v: Vec<String>|
        s@ == word && texts(v@) == parts && #[trigger] hyphenate.ensures((s, i), v)
}

/// A gauge of the fragments of the word with index `i`.
pub open spec fn gauges<M: FnMut(&str, usize) -> Binary64>(
    g: FragmentGauge<M>,
    measure: M,
    p: Paragraph,
    i: int,
) -> bool {
    g.valid() && g.measure == measure && g.index == i && g.word@ == p.words[i]
}

/// The word with index `i` was divided like this. A word with a no-break space
/// is not.
pub open spec fn divided<
    F: FnMut(&str, usize) -> Vec<String>,
    M: FnMut(&str, usize) -> Binary64,
>(hyphenate: F, measure: M, p: Paragraph, i: int, d: Division) -> bool {
    let word = p.words[i];
    word.contains('\u{a0}') || {
        &&& proposes(hyphenate, word, i as usize, d.parts)
        &&& partitions(d.parts, word)
        &&& d.parts.len() > 1 ==> {
            &&& keeps_graphemes(word, d.parts)
            &&& merges(d.merged, part_offsets(word, d.parts), p.fragments_of(i))
            &&& exists|g: FragmentGauge<M>|
                gauges(g, measure, p, i) && #[trigger] pieces_known(
                    g,
                    0,
                    d.merged,
                    marks(d.merged, p.fragments_of(i)),
                    d.pieces,
                )
        }
    }
}

/// The words of a paragraph were divided like this.
pub open spec fn all_divided<
    F: FnMut(&str, usize) -> Vec<String>,
    M: FnMut(&str, usize) -> Binary64,
>(hyphenate: F, measure: M, p: Paragraph, d: Seq<Division>) -> bool {
    &&& d.len() == p.words.len()
    &&& forall|i: int| 0 <= i < d.len() ==> divided(hyphenate, measure, p, i, #[trigger] d[i])
}

/// The fragments of a word that was divided like this. One that stays whole
/// keeps those that it has.
pub open spec fn entry_of(p: Paragraph, i: int, d: Division) -> Option<Fragments> {
    let word = p.words[i];
    if word.contains('\u{a0}') || d.parts.len() == 1 {
        p.fragments_of(i)
    } else {
        Some(
            fragments_by(
                word,
                p.widths[i + 1] - p.widths[i],
                d.merged,
                marks(d.merged, p.fragments_of(i)),
                d.pieces,
            ),
        )
    }
}

/// A paragraph whose words were divided like this.
pub open spec fn with_divisions(p: Paragraph, d: Seq<Division>) -> Paragraph {
    Paragraph {
        hyphenation: Some(Seq::new(p.words.len(), |i: int| entry_of(p, i, d[i]))),
        ..p
    }
}

/// Dividing words changes nothing but their fragments, and a word with a
/// no-break space keeps those that it has.
pub proof fn law_source_kept(p: Paragraph, d: Seq<Division>, i: int)
    requires
        0 <= i < p.words.len(),
    ensures
        with_divisions(p, d).words == p.words,
        with_divisions(p, d).widths == p.widths,
        with_divisions(p, d).characters == p.characters,
        p.words[i].contains('\u{a0}') ==> with_divisions(p, d).fragments_of(i) == p.fragments_of(i),
{
}

/// What stands against these parts of the word with index `i`.
pub open spec fn objection<M: FnMut(&str, usize) -> Binary64>(
    measure: M,
    p: Paragraph,
    i: int,
    parts: Seq<Seq<char>>,
    message: Seq<char>,
) -> bool {
    let word = p.words[i];
    if !partitions(parts, word) {
        message == "Hyphenation must partition the source word"@
    } else if !keeps_graphemes(word, parts) {
        message == "Hyphenation must not split a grapheme"@
    } else {
        &&& parts.len() > 1
        &&& message == "Invalid measured fragment width"@
        &&& exists|g: FragmentGauge<M>, merged: Seq<usize>|
            {
                &&& gauges(g, measure, p, i)
                &&& merges(merged, part_offsets(word, parts), p.fragments_of(i))
                &&& #[trigger] pieces_fail(g, 0, merged, marks(merged, p.fragments_of(i)))
            }
    }
}

/// The word with index `i` gives rise to this message.
pub open spec fn objects<
    F: FnMut(&str, usize) -> Vec<String>,
    M: FnMut(&str, usize) -> Binary64,
>(hyphenate: F, measure: M, p: Paragraph, i: int, message: Seq<char>) -> bool {
    !p.words[i].contains('\u{a0}') && exists|parts: Seq<Seq<char>>| #[trigger]
        proposes(hyphenate, p.words[i], i as usize, parts) && objection(
            measure,
            p,
            i,
            parts,
            message,
        )
}

/// The first word that cannot be divided gives rise to this message; those
/// before it were divided.
pub open spec fn first_objection<
    F: FnMut(&str, usize) -> Vec<String>,
    M: FnMut(&str, usize) -> Binary64,
>(hyphenate: F, measure: M, p: Paragraph, message: Seq<char>) -> bool {
    exists|d: Seq<Division>|
        {
            &&& #[trigger] divided_to(hyphenate, measure, p, d)
            &&& d.len() < p.words.len()
            &&& objects(hyphenate, measure, p, d.len() as int, message)
        }
}

/// The first words of a paragraph were divided like this.
pub open spec fn divided_to<
    F: FnMut(&str, usize) -> Vec<String>,
    M: FnMut(&str, usize) -> Binary64,
>(hyphenate: F, measure: M, p: Paragraph, d: Seq<Division>) -> bool {
    forall|i: int| 0 <= i < d.len() ==> divided(hyphenate, measure, p, i, #[trigger] d[i])
}

/// What is drawn of a part of a word, with a hyphen or without.
pub open spec fn part_drawn(word: Seq<char>, key: Seq<char>) -> bool {
    exists|from: int, to: int, hyphen: bool|
        boundary(word, from) && boundary(word, to) && from < to && key == #[trigger] drawn(
            word,
            from,
            to,
            hyphen,
        )
}

/// The number of boundaries that a word has so far.
pub open spec fn boundary_count(p: Paragraph, i: int) -> nat {
    match p.fragments_of(i) {
        Some(f) => f.offsets.len(),
        None => 0,
    }
}

/// The machine can hold the fragment tables of whatever the dictionary proposes.
pub open spec fn divisible<F: FnMut(&str, usize) -> Vec<String>>(
    hyphenate: F,
    p: Paragraph,
) -> bool {
    forall|s: &str, i: usize, v: Vec<String>| #[trigger]
        hyphenate.ensures((s, i), v) && i < p.words.len() && s@ == p.words[i as int] ==> (v@.len() + 1 + boundary_count(
            p,
            i as int,
        )) * (v@.len() + 1 + boundary_count(p, i as int)) <= usize::MAX
}

/// Divide one word into parts that make it up.
fn divide<M: FnMut(&str, usize) -> Binary64>(
    p: &Prepared,
    index: usize,
    offsets: Vec<usize>,
    measure: M,
    parts: Ghost<Seq<Seq<char>>>,
) -> (r: (Result<(WordFragments, Ghost<Division>), Error>, M))
    requires
        p@.valid(),
        sliced(p@),
        index < p@.words.len(),
        parts@.len() > 1,
        partitions(parts@, p@.words[index as int]),
        keeps_graphemes(p@.words[index as int], parts@),
        offsets@ == part_offsets(p@.words[index as int], parts@),
        forall|s: &str|
            part_drawn(p@.words[index as int], s@) ==> #[trigger] measure.requires((s, index)),
        (parts@.len() + 1 + boundary_count(p@, index as int)) * (parts@.len() + 1 + boundary_count(
            p@,
            index as int,
        )) <= usize::MAX,
    ensures
        r.1 == measure,
        match r.0 {
            Ok((f, d)) => {
                &&& d@.parts == parts@
                &&& merges(
                    d@.merged,
                    part_offsets(p@.words[index as int], parts@),
                    p@.fragments_of(index as int),
                )
                &&& exists|g: FragmentGauge<M>|
                    gauges(g, measure, p@, index as int) && #[trigger] pieces_known(
                        g,
                        0,
                        d@.merged,
                        marks(d@.merged, p@.fragments_of(index as int)),
                        d@.pieces,
                    )
                &&& f@.valid()
                &&& ordered(p@.words[index as int], f@.offsets)
                &&& !p@.words[index as int].contains('\u{a0}') ==> Some(f@) == entry_of(
                    p@,
                    index as int,
                    d@,
                )
            },
            Err(e) => objection(measure, p@, index as int, parts@, e@),
        },
{
    let ghost old_fragments = p@.fragments_of(index as int);
    let word: &String = &p.words[index];
    assert(word@ == p@.words[index as int]);
    let _bytes: usize = byte_length(word.as_str());
    let existing: Option<&WordFragments> = fragments_at(p, index);
    proof {
        if old_fragments is Some {
            assert(valid_entry(p@.hyphenation->0[index as int]));
        }
    }
    let explicit_at: Vec<usize> = marked_offsets(existing);
    let merged: Vec<usize> = merge(word, offsets, &explicit_at, Ghost(old_fragments), parts);
    let ghost list = merged@;
    let whole: Binary64 = p.widths[index + 1] - p.widths[index];
    let gauge: FragmentGauge<M> = FragmentGauge {
        word: word.as_str(),
        index,
        measure,
        cache: StringHashMap::new(),
    };
    let ghost first = gauge;
    proof {
        assert(flags_of(list, explicit_at@) =~= marks(list, old_fragments));
        assert(word@.subrange(0, word@.len() as int) =~= word@);
        assert(offset(word@, 0) == 0);
        let marks_now = flags_of(list, explicit_at@);
        assert forall|from: int, to: int, hyphen: bool| #[trigger]
            needed(list.len(), marks_now, from, to, hyphen) implies first.takes(
            0 + list[from],
            0 + list[to],
            hyphen,
        ) by {
            assert(boundary(word@, list[from] as int) && boundary(word@, list[to] as int));
            assert(list[from] < list[to]);
            let key = drawn(word@, list[from] as int, list[to] as int, hyphen);
            assert(part_drawn(word@, key));
        }
        let n = list.len();
        let most = (parts@.len() + 1 + boundary_count(p@, index as int)) as nat;
        assert(n * n <= most * most) by (nonlinear_arith)
            requires
                n <= most,
        ;
    }
    let (r, gauge): (Result<WordFragments, Error>, FragmentGauge<M>) = fragments(
        word.as_str(),
        whole,
        merged,
        &explicit_at,
        gauge,
        0,
        Ghost(0),
    );
    let ghost last = gauge;
    let FragmentGauge { word: _, index: _, measure: back, cache: _ } = gauge;
    match r {
        Ok(f) => {
            let ghost d = Division { parts: parts@, merged: list, pieces: pieces_in(f@) };
            proof {
                assert(gauges(last, measure, p@, index as int));
                assert(pieces_known(last, 0, d.merged, marks(d.merged, old_fragments), d.pieces));
                law_breaks_retained(word@, parts@, old_fragments, list);
                let n = list.len();
                assert(n <= n * n) by (nonlinear_arith)
                    requires
                        n >= 1,
                ;
            }
            (Ok((f, Ghost(d))), back)
        },
        Err(e) => {
            proof {
                assert(gauges(first, measure, p@, index as int));
                assert(pieces_fail(first, 0, list, marks(list, old_fragments)));
            }
            (Err(e), back)
        },
    }
}

/// Add optional dictionary-supplied breaks without changing source words.
/// Measure every legal fragment as a shaped unit, including its visible hyphen.
/// The word index lets adapters preserve the source word's font/style.
/// Breaks after source hyphens found by `prepare` are retained alongside.
pub fn with_hyphenation<F: FnMut(&str, usize) -> Vec<String>, M: FnMut(&str, usize) -> Binary64>(
    p: &Prepared,
    hyphenate: F,
    measure: M,
) -> (r: Result<Prepared, Error>)
    requires
        p@.valid(),
        sliced(p@),
        forall|s: &str, i: usize|
            i < p@.words.len() && s@ == p@.words[i as int] && !s@.contains('\u{a0}')
                ==> #[trigger] hyphenate.requires((s, i)),
        forall|s: &str, i: usize|
            i < p@.words.len() && part_drawn(p@.words[i as int], s@)
                ==> #[trigger] measure.requires((s, i)),
        divisible(hyphenate, p@),
    ensures
        r matches Ok(q) ==> exists|d: Seq<Division>| #[trigger]
            all_divided(hyphenate, measure, p@, d) && q@ == with_divisions(p@, d),
        r matches Ok(q) ==> q@.valid() && sliced(q@),
        r matches Err(e) ==> first_objection(hyphenate, measure, p@, e@),
{
    let mut dictionary: F = hyphenate;
    let mut ruler: M = measure;
    let n: usize = p.words.len();
    let mut hyphenation: Vec<Option<WordFragments>> = Vec::new();
    let ghost mut d: Seq<Division> = seq![];
    let ghost none = Division {
        parts: seq![],
        merged: seq![],
        pieces: |a: int, b: int, h: bool| Binary64::zero(),
    };
    let mut index: usize = 0;
    while index < n
        invariant
            p@.valid(),
            sliced(p@),
            dictionary == hyphenate,
            ruler == measure,
            forall|s: &str, i: usize|
                i < p@.words.len() && s@ == p@.words[i as int] && !s@.contains('\u{a0}')
                    ==> #[trigger] dictionary.requires((s, i)),
            forall|s: &str, i: usize|
                i < p@.words.len() && part_drawn(p@.words[i as int], s@)
                    ==> #[trigger] ruler.requires((s, i)),
            divisible(hyphenate, p@),
            n == p@.words.len(),
            index <= n,
            hyphenation@.len() == index,
            d.len() == index,
            forall|i: int| 0 <= i < index ==> divided(hyphenate, measure, p@, i, #[trigger] d[i]),
            forall|i: int|
                0 <= i < index ==> fragments_model(#[trigger] hyphenation@[i]) == entry_of(
                    p@,
                    i,
                    d[i],
                ) && valid_entry(fragments_model(hyphenation@[i])) && (hyphenation@[i] matches Some(
                    f,
                ) ==> ordered(p@.words[i], f@.offsets)),
        decreases n - index,
    {
        let word: &String = &p.words[index];
        assert(word@ == p@.words[index as int]);
        if has_no_break_space(word.as_str()) {
            hyphenation.push(existing_entry(p, index));
            proof {
                d = d.push(none);
            }
            index = index + 1;
            continue;
        }
        let parts: Vec<String> = dictionary(word.as_str(), index);
        let ghost list = texts(parts@);
        assert(proposes(hyphenate, p@.words[index as int], (index as int) as usize, list));
        let offsets: Vec<usize> = match partition_offsets(word, &parts) {
            Some(offsets) => offsets,
            None => {
                let e: Error = Error::range("Hyphenation must partition the source word");
                proof {
                    assert(objection(measure, p@, index as int, list, e@));
                    assert(objects(hyphenate, measure, p@, index as int, e@));
                    assert(divided_to(hyphenate, measure, p@, d));
                    assert(first_objection(hyphenate, measure, p@, e@));
                }
                return Err(e);
            },
        };
        if parts.len() == 1 {
            hyphenation.push(existing_entry(p, index));
            proof {
                d = d.push(Division { parts: list, ..none });
            }
            index = index + 1;
            continue;
        }
        if !are_whole(word, &offsets, Ghost(list)) {
            let e: Error = Error::range("Hyphenation must not split a grapheme");
            proof {
                assert(objection(measure, p@, index as int, list, e@));
                assert(objects(hyphenate, measure, p@, index as int, e@));
                assert(divided_to(hyphenate, measure, p@, d));
                assert(first_objection(hyphenate, measure, p@, e@));
            }
            return Err(e);
        }
        let (r, back): (Result<(WordFragments, Ghost<Division>), Error>, M) = divide(
            p,
            index,
            offsets,
            ruler,
            Ghost(list),
        );
        ruler = back;
        match r {
            Ok((f, division)) => {
                hyphenation.push(Some(f));
                proof {
                    d = d.push(division@);
                }
            },
            Err(e) => {
                assert(objects(hyphenate, measure, p@, index as int, e@));
                assert(divided_to(hyphenate, measure, p@, d));
                assert(first_objection(hyphenate, measure, p@, e@));
                return Err(e);
            },
        }
        index = index + 1;
    }
    let mut q: Prepared = p.clone();
    q.hyphenation = Some(hyphenation);
    proof {
        let entries = entry_models(hyphenation@);
        assert forall|i: int| 0 <= i < n implies #[trigger] entries[i] == entry_of(p@, i, d[i]) by {
            assert(entries[i] == fragments_model(hyphenation@[i]));
        }
        assert(entries =~= with_divisions(p@, d).hyphenation->0);
        assert(q@ == with_divisions(p@, d));
        assert(all_divided(hyphenate, measure, p@, d));
        assert forall|i: int| 0 <= i < n implies valid_entry(#[trigger] entries[i]) by {
            assert(entries[i] == fragments_model(hyphenation@[i]));
        }
        assert forall|i: int|
            0 <= i < n && (#[trigger] q@.fragments_of(i)) is Some implies ordered(
            q@.words[i],
            q@.fragments_of(i)->0.offsets,
        ) by {
            assert(entries[i] == fragments_model(hyphenation@[i]));
        }
    }
    Ok(q)
}

/// The fragments that a word has, copied.
fn existing_entry(p: &Prepared, index: usize) -> (r: Option<WordFragments>)
    requires
        p@.valid(),
        sliced(p@),
        index < p@.words.len(),
    ensures
        fragments_model(r) == p@.fragments_of(index as int),
        valid_entry(fragments_model(r)),
        r matches Some(f) ==> ordered(p@.words[index as int], f@.offsets),
{
    match fragments_at(p, index) {
        Some(f) => {
            assert(valid_entry(p@.hyphenation->0[index as int]));
            Some(f.clone())
        },
        None => None,
    }
}

/// A dictionary that divides equal words alike.
pub open spec fn pure_dictionary<F: FnMut(&str, usize) -> Vec<String>>(hyphenate: F) -> bool {
    forall|word: Seq<char>, i: usize, a: Seq<Seq<char>>, b: Seq<Seq<char>>| #[trigger]
        proposes(hyphenate, word, i, a) && #[trigger] proposes(hyphenate, word, i, b) ==> a == b
}

/// A callback that answers equal fragments of a word alike.
pub open spec fn pure_fragments<M: FnMut(&str, usize) -> Binary64>(measure: M) -> bool {
    forall|key: Seq<char>, i: usize, v: Binary64, w: Binary64| #[trigger]
        answers_fragment(measure, key, i, v) && #[trigger] answers_fragment(measure, key, i, w)
            ==> v == w
}

/// Two lists in order with the same numbers are the same.
proof fn lemma_same_list(a: Seq<usize>, b: Seq<usize>)
    requires
        forall|j: int, k: int| 0 <= j < k < a.len() ==> (#[trigger] a[j]) < #[trigger] a[k],
        forall|j: int, k: int| 0 <= j < k < b.len() ==> (#[trigger] b[j]) < #[trigger] b[k],
        forall|x: usize| #[trigger] a.contains(x) <==> b.contains(x),
    ensures
        a == b,
    decreases a.len(),
{
    if a.len() == 0 {
        if b.len() > 0 {
            assert(b.contains(b[0]));
            assert(a.contains(b[0]));
        }
        assert(a =~= b);
    } else {
        let (x, y) = (a.last(), b.last());
        assert(a.contains(x));
        assert(b.contains(x));
        let m = choose|m: int| 0 <= m < b.len() && b[m] == x;
        assert(b.contains(y));
        assert(a.contains(y));
        let n = choose|n: int| 0 <= n < a.len() && a[n] == y;
        assert(x == y) by {
            if m < b.len() - 1 {
                assert(b[m] < b[b.len() - 1]);
            }
            if n < a.len() - 1 {
                assert(a[n] < a[a.len() - 1]);
            }
        }
        let (c, d) = (a.drop_last(), b.drop_last());
        assert forall|z: usize| #[trigger] c.contains(z) <==> d.contains(z) by {
            if c.contains(z) {
                let k = choose|k: int| 0 <= k < c.len() && c[k] == z;
                assert(a[k] == z && a[k] < a[a.len() - 1]);
                assert(a.contains(z));
                let l = choose|l: int| 0 <= l < b.len() && b[l] == z;
                assert(d[l] == z);
            }
            if d.contains(z) {
                let k = choose|k: int| 0 <= k < d.len() && d[k] == z;
                assert(b[k] == z && b[k] < b[b.len() - 1]);
                assert(b.contains(z));
                assert(a.contains(z));
                let l = choose|l: int| 0 <= l < a.len() && a[l] == z;
                assert(c[l] == z);
            }
        }
        lemma_same_list(c, d);
        assert(a =~= c.push(x));
        assert(b =~= d.push(x));
    }
}

/// A divided word is marked where it was marked before.
proof fn lemma_marks_kept(
    word: Seq<char>,
    whole: Binary64,
    f: Option<Fragments>,
    offsets: Seq<usize>,
    d: Division,
)
    requires
        merges(d.merged, offsets, f),
    ensures
        ({
            let g = Some(fragments_by(word, whole, d.merged, marks(d.merged, f), d.pieces));
            forall|at: usize| #[trigger] marked(g, at) <==> marked(f, at)
        }),
{
    let flags = marks(d.merged, f);
    let g = fragments_by(word, whole, d.merged, flags, d.pieces);
    assert forall|at: usize| #[trigger] marked(Some(g), at) <==> marked(f, at) by {
        if marked(Some(g), at) {
            let k = choose|k: int|
                0 <= k < g.offsets.len() && #[trigger] g.offsets[k] == at && g.explicit_at(k);
            assert(flags[k]);
        }
        if marked(f, at) {
            assert(d.merged.contains(at));
            let k = choose|k: int| 0 <= k < d.merged.len() && d.merged[k] == at;
            assert(flags[k]);
            assert(any_flag(flags));
            assert(g.offsets[k] == at && g.explicit_at(k));
        }
    }
}

/// Dividing a divided word in the same parts finds the same boundaries.
proof fn lemma_same_boundaries(
    word: Seq<char>,
    whole: Binary64,
    f: Option<Fragments>,
    offsets: Seq<usize>,
    d: Division,
    again: Seq<usize>,
)
    requires
        merges(d.merged, offsets, f),
        merges(
            again,
            offsets,
            Some(fragments_by(word, whole, d.merged, marks(d.merged, f), d.pieces)),
        ),
    ensures
        again == d.merged,
        marks(again, Some(fragments_by(word, whole, d.merged, marks(d.merged, f), d.pieces)))
            == marks(d.merged, f),
{
    let g = Some(fragments_by(word, whole, d.merged, marks(d.merged, f), d.pieces));
    lemma_marks_kept(word, whole, f, offsets, d);
    assert forall|x: usize| #[trigger] again.contains(x) <==> d.merged.contains(x) by {
        assert(marked(g, x) <==> marked(f, x));
    }
    lemma_same_list(again, d.merged);
    assert(marks(again, g) =~= marks(d.merged, f));
}

/// Hyphenating twice by the same dictionary and font is hyphenating once: the
/// second time nothing stands against it, and nothing changes.
pub proof fn law_hyphenating_twice<
    F: FnMut(&str, usize) -> Vec<String>,
    M: FnMut(&str, usize) -> Binary64,
>(hyphenate: F, measure: M, p: Paragraph, d: Seq<Division>)
    requires
        p.valid(),
        pure_dictionary(hyphenate),
        pure_fragments(measure),
        all_divided(hyphenate, measure, p, d),
    ensures
        forall|again: Seq<Division>| #[trigger]
            all_divided(hyphenate, measure, with_divisions(p, d), again) ==> with_divisions(
                with_divisions(p, d),
                again,
            ) == with_divisions(p, d),
        forall|message: Seq<char>|
            !#[trigger] first_objection(hyphenate, measure, with_divisions(p, d), message),
{
    let q = with_divisions(p, d);
    assert forall|again: Seq<Division>| #[trigger]
        all_divided(hyphenate, measure, q, again) implies with_divisions(q, again) == q by {
        let (x, y) = (with_divisions(q, again).hyphenation->0, q.hyphenation->0);
        assert forall|i: int| 0 <= i < p.words.len() implies #[trigger] x[i] == y[i] by {
            assert(divided(hyphenate, measure, p, i, d[i]));
            assert(divided(hyphenate, measure, q, i, again[i]));
            lemma_word_twice(hyphenate, measure, p, d, i, again[i]);
        }
        assert(x =~= y);
    }
    assert forall|message: Seq<char>| !#[trigger] first_objection(
        hyphenate,
        measure,
        q,
        message,
    ) by {
        if first_objection(hyphenate, measure, q, message) {
            let e = choose|e: Seq<Division>|
                {
                    &&& #[trigger] divided_to(hyphenate, measure, q, e)
                    &&& e.len() < q.words.len()
                    &&& objects(hyphenate, measure, q, e.len() as int, message)
                };
            let i = e.len() as int;
            assert(divided(hyphenate, measure, p, i, d[i]));
            lemma_no_objection(hyphenate, measure, p, d, i, message);
        }
    }
}

/// A word divided twice has the fragments that it had after the first time.
proof fn lemma_word_twice<
    F: FnMut(&str, usize) -> Vec<String>,
    M: FnMut(&str, usize) -> Binary64,
>(hyphenate: F, measure: M, p: Paragraph, d: Seq<Division>, i: int, again: Division)
    requires
        p.valid(),
        pure_dictionary(hyphenate),
        pure_fragments(measure),
        0 <= i < p.words.len(),
        divided(hyphenate, measure, p, i, d[i]),
        divided(hyphenate, measure, with_divisions(p, d), i, again),
    ensures
        entry_of(with_divisions(p, d), i, again) == entry_of(p, i, d[i]),
{
    let q = with_divisions(p, d);
    let word = p.words[i];
    let f = p.fragments_of(i);
    let one = d[i];
    assert(q.fragments_of(i) == entry_of(p, i, one));
    if !word.contains('\u{a0}') {
        assert(one.parts == again.parts);
        if one.parts.len() != 1 {
            let whole = p.widths[i + 1] - p.widths[i];
            let offsets = part_offsets(word, one.parts);
            lemma_same_boundaries(word, whole, f, offsets, one, again.merged);
            let flags = marks(one.merged, f);
            let g = choose|g: FragmentGauge<M>|
                gauges(g, measure, p, i) && #[trigger] pieces_known(
                    g,
                    0,
                    one.merged,
                    flags,
                    one.pieces,
                );
            let h = choose|h: FragmentGauge<M>|
                gauges(h, measure, q, i) && #[trigger] pieces_known(
                    h,
                    0,
                    again.merged,
                    marks(again.merged, q.fragments_of(i)),
                    again.pieces,
                );
            assert forall|from: int, to: int, hyphen: bool| #[trigger]
                needed(one.merged.len(), flags, from, to, hyphen) implies (one.pieces)(
                from,
                to,
                hyphen,
            ) == (again.pieces)(from, to, hyphen) by {
                let key = drawn(word, 0 + one.merged[from], 0 + one.merged[to], hyphen);
                assert(g.cache@.contains_key(key));
                assert(h.cache@.contains_key(key));
                assert(answers_fragment(measure, key, g.index, (one.pieces)(from, to, hyphen)));
                assert(answers_fragment(measure, key, h.index, (again.pieces)(from, to, hyphen)));
            }
            lemma_same_pieces(word, whole, one.merged, flags, one.pieces, again.pieces);
        }
    }
}

/// Nothing stands against dividing a divided word again.
proof fn lemma_no_objection<
    F: FnMut(&str, usize) -> Vec<String>,
    M: FnMut(&str, usize) -> Binary64,
>(hyphenate: F, measure: M, p: Paragraph, d: Seq<Division>, i: int, message: Seq<char>)
    requires
        p.valid(),
        pure_dictionary(hyphenate),
        pure_fragments(measure),
        0 <= i < p.words.len(),
        divided(hyphenate, measure, p, i, d[i]),
    ensures
        !objects(hyphenate, measure, with_divisions(p, d), i, message),
{
    let q = with_divisions(p, d);
    let word = p.words[i];
    let f = p.fragments_of(i);
    let one = d[i];
    assert(q.fragments_of(i) == entry_of(p, i, one));
    if objects(hyphenate, measure, q, i, message) {
        let parts = choose|parts: Seq<Seq<char>>| #[trigger]
            proposes(hyphenate, q.words[i], i as usize, parts) && objection(
                measure,
                q,
                i,
                parts,
                message,
            );
        assert(parts == one.parts);
        let whole = p.widths[i + 1] - p.widths[i];
        let offsets = part_offsets(word, one.parts);
        if one.parts.len() == 1 {
            assert(keeps_graphemes(word, parts));
        } else {
            let (h, merged) = choose|h: FragmentGauge<M>, merged: Seq<usize>|
                {
                    &&& gauges(h, measure, q, i)
                    &&& merges(merged, offsets, q.fragments_of(i))
                    &&& #[trigger] pieces_fail(h, 0, merged, marks(merged, q.fragments_of(i)))
                };
            lemma_same_boundaries(word, whole, f, offsets, one, merged);
            let flags = marks(one.merged, f);
            let g = choose|g: FragmentGauge<M>|
                gauges(g, measure, p, i) && #[trigger] pieces_known(
                    g,
                    0,
                    one.merged,
                    flags,
                    one.pieces,
                );
            let (from, to, hyphen) = choose|from: int, to: int, hyphen: bool| #[trigger]
                needed(one.merged.len(), flags, from, to, hyphen) && h.fails(
                    0 + one.merged[from],
                    0 + one.merged[to],
                    hyphen,
                );
            let key = drawn(word, 0 + one.merged[from], 0 + one.merged[to], hyphen);
            assert(g.knows(
                0 + one.merged[from],
                0 + one.merged[to],
                hyphen,
                (one.pieces)(from, to, hyphen),
            ));
            assert(g.cache@.contains_key(key));
            let w = choose|w: Binary64|
                !unsigned(w) && #[trigger] answers_fragment(measure, key, h.index, w);
            assert(answers_fragment(measure, key, g.index, g.cache@[key]));
        }
    }
}

}
