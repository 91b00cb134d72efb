//! The measured fragments of one word.

use crate::binary64::Binary64;
use crate::gauge::{index_at, slice, Gauge};
use crate::model::{Error, Fragments, WordFragments};
use crate::text::{
    grapheme_count, grapheme_total, lemma_offset_monotone, lemma_offset_within, offset, part,
};
use vstd::arithmetic::div_mod::lemma_fundamental_div_mod_converse;
use vstd::prelude::*;

verus! {

/// A byte offset between two characters, or at an end of the text.
pub open spec fn boundary(text: Seq<char>, at: int) -> bool {
    exists|i: int| 0 <= i <= text.len() && #[trigger] offset(text, i) == at
}

/// The index of a boundary belongs to it.
pub proof fn lemma_boundary_index(text: Seq<char>, at: int)
    requires
        boundary(text, at),
    ensures
        0 <= index_at(text, at) <= text.len(),
        offset(text, index_at(text, at)) == at,
{
}

/// Boundaries of a word, in order.
pub open spec fn ordered(word: Seq<char>, offsets: Seq<usize>) -> bool {
    &&& forall|k: int| 0 <= k < offsets.len() ==> boundary(word, #[trigger] offsets[k] as int)
    &&& forall|j: int, k: int|
        0 <= j < k < offsets.len() ==> (#[trigger] offsets[j]) < #[trigger] offsets[k]
}

/// Which boundaries are among those that the source breaks at itself.
pub open spec fn flags_of(offsets: Seq<usize>, explicit_at: Seq<usize>) -> Seq<bool> {
    offsets.map_values(|at: usize| explicit_at.contains(at))
}

/// Some boundary is flagged.
pub open spec fn any_flag(flags: Seq<bool>) -> bool {
    exists|k: int| 0 <= k < flags.len() && #[trigger] flags[k]
}

/// A square table that has `entry(from, to)` above its diagonal.
pub open spec fn table(n: nat, entry: spec_fn(int, int) -> Binary64) -> Seq<Binary64> {
    Seq::new(
        n * n,
        |cell: int|
            {
                let (from, to) = (cell / n as int, cell % n as int);
                if from < to {
                    entry(from, to)
                } else {
                    Binary64::zero()
                }
            },
    )
}

/// The width of a fragment.
pub open spec fn fragment_width(
    n: nat,
    whole: Binary64,
    pieces: spec_fn(int, int, bool) -> Binary64,
    from: int,
    to: int,
) -> Binary64 {
    if from == 0 && to == n - 1 {
        whole
    } else {
        pieces(from, to, false)
    }
}

/// The width of a fragment with its hyphen: one of the source is part of it,
/// and the end of the word has none.
pub open spec fn hyphen_width(
    n: nat,
    whole: Binary64,
    flags: Seq<bool>,
    pieces: spec_fn(int, int, bool) -> Binary64,
    from: int,
    to: int,
) -> Binary64 {
    if to < n - 1 {
        if flags[to] {
            fragment_width(n, whole, pieces, from, to)
        } else {
            pieces(from, to, true)
        }
    } else {
        Binary64::zero()
    }
}

/// The characters of a fragment.
pub open spec fn fragment_characters(
    word: Seq<char>,
    offsets: Seq<usize>,
    from: int,
    to: int,
) -> Binary64 {
    Binary64::from_count(
        grapheme_total(slice(word, offsets[from] as int, offsets[to] as int)) as usize,
    )
}

/// The fragments of a word, from the width of the whole and of its pieces;
/// `pieces(from, to, hyphen)` is the width between two boundaries.
pub open spec fn fragments_by(
    word: Seq<char>,
    whole: Binary64,
    offsets: Seq<usize>,
    flags: Seq<bool>,
    pieces: spec_fn(int, int, bool) -> Binary64,
) -> Fragments {
    let n = offsets.len();
    Fragments {
        offsets,
        widths: table(n, |from: int, to: int| fragment_width(n, whole, pieces, from, to)),
        hyphen_widths: table(
            n,
            |from: int, to: int| hyphen_width(n, whole, flags, pieces, from, to),
        ),
        characters: table(n, |from: int, to: int| fragment_characters(word, offsets, from, to)),
        start_protrusions: None,
        hyphen_protrusion: None,
        explicit: if any_flag(flags) {
            Some(flags)
        } else {
            None
        },
    }
}

/// The piece between two boundaries is measured, with or without a hyphen.
pub open spec fn needed(n: nat, flags: Seq<bool>, from: int, to: int, hyphen: bool) -> bool {
    &&& 0 <= from < to < n
    &&& if hyphen {
        to < n - 1 && !flags[to]
    } else {
        !(from == 0 && to == n - 1)
    }
}

/// The gauge knows the pieces of a word that begins at the byte `base`.
pub open spec fn pieces_known<G: Gauge>(
    g: G,
    base: int,
    offsets: Seq<usize>,
    flags: Seq<bool>,
    pieces: spec_fn(int, int, bool) -> Binary64,
) -> bool {
    forall|from: int, to: int, hyphen: bool|
        #[trigger] needed(offsets.len(), flags, from, to, hyphen) ==> g.knows(
            base + offsets[from],
            base + offsets[to],
            hyphen,
            pieces(from, to, hyphen),
        )
}

/// The callback takes every piece of a word that begins at the byte `base`.
pub open spec fn pieces_taken<G: Gauge>(
    g: G,
    base: int,
    offsets: Seq<usize>,
    flags: Seq<bool>,
) -> bool {
    forall|from: int, to: int, hyphen: bool| #[trigger]
        needed(offsets.len(), flags, from, to, hyphen) ==> g.takes(
            base + offsets[from],
            base + offsets[to],
            hyphen,
        )
}

/// The gauge may fail on a piece of a word that begins at the byte `base`.
pub open spec fn pieces_fail<G: Gauge>(
    g: G,
    base: int,
    offsets: Seq<usize>,
    flags: Seq<bool>,
) -> bool {
    exists|from: int, to: int, hyphen: bool| #[trigger]
        needed(offsets.len(), flags, from, to, hyphen) && g.fails(
            base + offsets[from],
            base + offsets[to],
            hyphen,
        )
}

/// The pieces that the tables of a word hold.
pub open spec fn pieces_in(f: Fragments) -> spec_fn(int, int, bool) -> Binary64 {
    |from: int, to: int, hyphen: bool|
        if hyphen {
            f.hyphen_widths[from * f.offsets.len() + to]
        } else {
            f.widths[from * f.offsets.len() + to]
        }
}

/// True when a list has a number.
pub(crate) fn listed(list: &Vec<usize>, x: usize) -> (r: bool)
    ensures
        r == list@.contains(x),
{
    let mut i: usize = 0;
    while i < list.len()
        invariant
            i <= list@.len(),
            forall|k: int| 0 <= k < i ==> list@[k] != x,
        decreases list@.len() - i,
    {
        if list[i] == x {
            assert(list@[i as int] == x);
            return true;
        }
        i = i + 1;
    }
    false
}

/// The coordinates of a cell.
pub proof fn lemma_cell(n: nat, from: int, to: int)
    requires
        0 <= from < n,
        0 <= to < n,
    ensures
        0 <= from * n <= from * n + to < n * n,
        (from * n + to) / n as int == from,
        (from * n + to) % n as int == to,
{
    assert(0 <= from * n <= from * n + to < n * n) by (nonlinear_arith)
        requires
            0 <= from < n,
            0 <= to < n,
    ;
    lemma_fundamental_div_mod_converse(from * n + to, n as int, from, to);
}

/// A row of zeros.
fn zeros(count: usize) -> (v: Vec<Binary64>)
    ensures
        v@ == Seq::new(count as nat, |i: int| Binary64::zero()),
{
    let mut v: Vec<Binary64> = Vec::new();
    let mut i: usize = 0;
    while i < count
        invariant
            i <= count,
            v@ == Seq::new(i as nat, |i: int| Binary64::zero()),
        decreases count - i,
    {
        v.push(Binary64::zero());
        i = i + 1;
        assert(v@ =~= Seq::new(i as nat, |i: int| Binary64::zero()));
    }
    v
}

/// What a cell of the three tables holds once it is measured.
spec fn measured_cell<G: Gauge>(
    g: G,
    base: int,
    word: Seq<char>,
    whole: Binary64,
    offsets: Seq<usize>,
    flags: Seq<bool>,
    width: Binary64,
    hyphened: Binary64,
    characters: Binary64,
    from: int,
    to: int,
) -> bool {
    let n = offsets.len();
    &&& if from == 0 && to == n - 1 {
        width == whole
    } else {
        g.knows(base + offsets[from], base + offsets[to], false, width)
    }
    &&& if to == n - 1 {
        hyphened == Binary64::zero()
    } else if flags[to] {
        hyphened == width
    } else {
        g.knows(base + offsets[from], base + offsets[to], true, hyphened)
    }
    &&& characters == fragment_characters(word, offsets, from, to)
}

/// A cell above the diagonal comes before `(from, to)`.
spec fn earlier(n: int, cell: int, from: int, to: int) -> bool {
    let (a, b) = (cell / n, cell % n);
    a < b && (a < from || (a == from && b < to))
}

/// The cells before `(from, to)` are measured, and the others are zero.
spec fn filled<G: Gauge>(
    g: G,
    base: int,
    word: Seq<char>,
    whole: Binary64,
    offsets: Seq<usize>,
    flags: Seq<bool>,
    widths: Seq<Binary64>,
    hyphen_widths: Seq<Binary64>,
    characters: Seq<Binary64>,
    from: int,
    to: int,
) -> bool {
    let n = offsets.len() as int;
    &&& widths.len() == n * n
    &&& hyphen_widths.len() == n * n
    &&& characters.len() == n * n
    &&& forall|cell: int|
        0 <= cell < n * n ==> {
            let (a, b) = (cell / n, cell % n);
            if earlier(n, cell, from, to) {
                measured_cell(
                    g,
                    base,
                    word,
                    whole,
                    offsets,
                    flags,
                    #[trigger] widths[cell],
                    hyphen_widths[cell],
                    characters[cell],
                    a,
                    b,
                )
            } else {
                &&& widths[cell] == Binary64::zero()
                &&& hyphen_widths[cell] == Binary64::zero()
                &&& characters[cell] == Binary64::zero()
            }
        }
}

/// Which boundaries the source breaks at itself.
fn flag(offsets: &Vec<usize>, explicit_at: &Vec<usize>) -> (flags: Vec<bool>)
    ensures
        flags@ == flags_of(offsets@, explicit_at@),
{
    let mut flags: Vec<bool> = Vec::new();
    let mut i: usize = 0;
    while i < offsets.len()
        invariant
            i <= offsets@.len(),
            flags@ == flags_of(offsets@, explicit_at@).take(i as int),
        decreases offsets@.len() - i,
    {
        flags.push(listed(explicit_at, offsets[i]));
        i = i + 1;
        assert(flags@ =~= flags_of(offsets@, explicit_at@).take(i as int));
    }
    assert(flags@ =~= flags_of(offsets@, explicit_at@));
    flags
}

/// Whether some boundary is flagged.
fn has_flag(flags: &Vec<bool>) -> (r: bool)
    ensures
        r == any_flag(flags@),
{
    let mut i: usize = 0;
    while i < flags.len()
        invariant
            i <= flags@.len(),
            forall|k: int| 0 <= k < i ==> !#[trigger] flags@[k],
        decreases flags@.len() - i,
    {
        if flags[i] {
            assert(flags@[i as int]);
            return true;
        }
        i = i + 1;
    }
    false
}

/// Build the fragment matrices for one word, which begins at the character
/// `at` of the measured text.
pub(crate) fn fragments<G: Gauge>(
    word: &str,
    whole: Binary64,
    offsets: Vec<usize>,
    explicit_at: &Vec<usize>,
    gauge: G,
    base: usize,
    at: Ghost<int>,
) -> (r: (Result<WordFragments, Error>, G))
    requires
        gauge.valid(),
        offsets@.len() >= 2,
        offsets@.len() * offsets@.len() <= usize::MAX,
        ordered(word@, offsets@),
        0 <= at@ <= at@ + word@.len() <= gauge.source().len(),
        word@ == gauge.source().subrange(at@, at@ + word@.len()),
        base == offset(gauge.source(), at@),
        offset(gauge.source(), gauge.source().len() as int) <= usize::MAX,
        pieces_taken(gauge, base as int, offsets@, flags_of(offsets@, explicit_at@)),
    ensures
        r.1.valid(),
        r.1.ruler() == gauge.ruler(),
        r.1.source() == gauge.source(),
        r.1.complaint() == gauge.complaint(),
        forall|a: int, b: int, h: bool, w: Binary64|
            gauge.knows(a, b, h, w) ==> #[trigger] r.1.knows(a, b, h, w),
        forall|a: int, b: int, h: bool| #[trigger] r.1.fails(a, b, h) == gauge.fails(a, b, h),
        forall|a: int, b: int, h: bool| #[trigger] r.1.takes(a, b, h) == gauge.takes(a, b, h),
        match r.0 {
            Ok(f) => {
                let flags = flags_of(offsets@, explicit_at@);
                &&& f@ == fragments_by(word@, whole, offsets@, flags, pieces_in(f@))
                &&& pieces_known(r.1, base as int, offsets@, flags, pieces_in(f@))
            },
            Err(e) => {
                &&& e@ == gauge.complaint()
                &&& pieces_fail(
                    gauge,
                    base as int,
                    offsets@,
                    flags_of(offsets@, explicit_at@),
                )
            },
        },
{
    let ghost text = gauge.source();
    let ghost s = word@;
    let ghost list = offsets@;
    let n: usize = offsets.len();
    let mut widths: Vec<Binary64> = zeros(n * n);
    let mut hyphen_widths: Vec<Binary64> = zeros(n * n);
    let mut characters: Vec<Binary64> = zeros(n * n);
    let flags: Vec<bool> = flag(&offsets, explicit_at);
    let ghost marks = flags@;
    let mut g: G = gauge;
    let mut from: usize = 0;
    proof {
        assert(filled(
            g,
            base as int,
            s,
            whole,
            list,
            marks,
            widths@,
            hyphen_widths@,
            characters@,
            0,
            1,
        )) by {
            assert forall|cell: int| 0 <= cell < n * n implies !#[trigger] earlier(
                n as int,
                cell,
                0,
                1,
            ) by {
                vstd::arithmetic::div_mod::lemma_div_pos_is_pos(cell, n as int);
            }
        }
    }
    while from < n - 1
        invariant
            g.valid(),
            g.ruler() == gauge.ruler(),
            g.source() == text,
            text == gauge.source(),
            g.complaint() == gauge.complaint(),
            forall|a: int, b: int, h: bool, w: Binary64|
                gauge.knows(a, b, h, w) ==> #[trigger] g.knows(a, b, h, w),
            forall|a: int, b: int, h: bool| #[trigger] g.fails(a, b, h) == gauge.fails(a, b, h),
            forall|a: int, b: int, h: bool| #[trigger] g.takes(a, b, h) == gauge.takes(a, b, h),
            pieces_taken(gauge, base as int, list, marks),
            s == word@,
            list == offsets@,
            n == list.len(),
            n >= 2,
            n * n <= usize::MAX,
            marks == flags@,
            marks == flags_of(list, explicit_at@),
            ordered(s, list),
            0 <= at@ <= at@ + s.len() <= text.len(),
            s == text.subrange(at@, at@ + s.len()),
            base == offset(text, at@),
            offset(text, text.len() as int) <= usize::MAX,
            from <= n - 1,
            filled(
                g,
                base as int,
                s,
                whole,
                list,
                marks,
                widths@,
                hyphen_widths@,
                characters@,
                from as int,
                from + 1,
            ),
        decreases n - from,
    {
        let mut to: usize = from + 1;
        while to < n
            invariant
                g.valid(),
                g.ruler() == gauge.ruler(),
                g.source() == text,
                text == gauge.source(),
                g.complaint() == gauge.complaint(),
                forall|a: int, b: int, h: bool, w: Binary64|
                    gauge.knows(a, b, h, w) ==> #[trigger] g.knows(a, b, h, w),
                forall|a: int, b: int, h: bool| #[trigger]
                    g.fails(a, b, h) == gauge.fails(a, b, h),
                forall|a: int, b: int, h: bool| #[trigger]
                    g.takes(a, b, h) == gauge.takes(a, b, h),
                pieces_taken(gauge, base as int, list, marks),
                s == word@,
                list == offsets@,
                n == list.len(),
                n >= 2,
                n * n <= usize::MAX,
                marks == flags@,
                marks == flags_of(list, explicit_at@),
                ordered(s, list),
                0 <= at@ <= at@ + s.len() <= text.len(),
                s == text.subrange(at@, at@ + s.len()),
                base == offset(text, at@),
                offset(text, text.len() as int) <= usize::MAX,
                from < n - 1,
                from < to <= n,
                filled(
                    g,
                    base as int,
                    s,
                    whole,
                    list,
                    marks,
                    widths@,
                    hyphen_widths@,
                    characters@,
                    from as int,
                    to as int,
                ),
            decreases n - to,
        {
            let start: usize = offsets[from];
            let end: usize = offsets[to];
            let ghost i = index_at(s, start as int);
            let ghost j = index_at(s, end as int);
            proof {
                lemma_cell(n as nat, from as int, to as int);
                lemma_range(text, at@, s, start as int, end as int);
            }
            let fragment: &str = part(word, start, end, Ghost(i), Ghost(j));
            let cell: usize = from * n + to;
            let width: Binary64 = if from == 0 && to == n - 1 {
                whole
            } else {
                assert(needed(n as nat, marks, from as int, to as int, false));
                let (r, next): (Result<Binary64, Error>, G) = g.width(
                    base + start,
                    base + end,
                    false,
                    Ghost(at@ + i),
                    Ghost(at@ + j),
                );
                g = next;
                match r {
                    Ok(w) => w,
                    Err(e) => {
                        return (Err(e), g);
                    },
                }
            };
            let hyphened: Binary64 = if to == n - 1 {
                Binary64::zero()
            } else if flags[to] {
                width
            } else {
                assert(needed(n as nat, marks, from as int, to as int, true));
                let (r, next): (Result<Binary64, Error>, G) = g.width(
                    base + start,
                    base + end,
                    true,
                    Ghost(at@ + i),
                    Ghost(at@ + j),
                );
                g = next;
                match r {
                    Ok(w) => w,
                    Err(e) => {
                        return (Err(e), g);
                    },
                }
            };
            let ghost before = (widths@, hyphen_widths@, characters@);
            widths.set(cell, width);
            hyphen_widths.set(cell, hyphened);
            characters.set(cell, Binary64::from_count(grapheme_count(fragment)));
            to = to + 1;
            proof {
                assert(earlier(n as int, cell as int, from as int, to as int));
                assert forall|c: int| 0 <= c < n * n && c != cell implies #[trigger] earlier(
                    n as int,
                    c,
                    from as int,
                    to as int,
                ) == earlier(n as int, c, from as int, to - 1) by {
                    vstd::arithmetic::div_mod::lemma_fundamental_div_mod(c, n as int);
                    assert((n as int) * (from as int) == (from as int) * (n as int))
                        by (nonlinear_arith);
                }
                assert forall|c: int| 0 <= c < n * n implies {
                    let (a, b) = (c / (n as int), c % (n as int));
                    if earlier(n as int, c, from as int, to as int) {
                        measured_cell(
                            g,
                            base as int,
                            s,
                            whole,
                            list,
                            marks,
                            #[trigger] widths@[c],
                            hyphen_widths@[c],
                            characters@[c],
                            a,
                            b,
                        )
                    } else {
                        &&& widths@[c] == Binary64::zero()
                        &&& hyphen_widths@[c] == Binary64::zero()
                        &&& characters@[c] == Binary64::zero()
                    }
                } by {
                    if c != cell {
                        assert(widths@[c] == before.0[c]);
                        assert(earlier(n as int, c, from as int, to as int) == earlier(
                            n as int,
                            c,
                            from as int,
                            to - 1,
                        ));
                    }
                }
            }
        }
        from = from + 1;
        proof {
            assert forall|c: int| 0 <= c < n * n implies #[trigger] earlier(
                n as int,
                c,
                from as int,
                from + 1,
            ) == earlier(n as int, c, from - 1, n as int) by {
                vstd::arithmetic::div_mod::lemma_mod_bound(c, n as int);
                vstd::arithmetic::div_mod::lemma_div_pos_is_pos(c, n as int);
            }
        }
    }
    let explicit: Option<Vec<bool>> = if has_flag(&flags) {
        Some(flags)
    } else {
        None
    };
    let f: WordFragments = WordFragments {
        offsets,
        widths,
        hyphen_widths,
        characters,
        start_protrusions: None,
        hyphen_protrusion: None,
        explicit,
    };
    proof {
        lemma_complete(g, base as int, s, whole, list, marks, f@);
    }
    (Ok(f), g)
}

/// A range of a word is one of the text that the word stands in.
proof fn lemma_range(text: Seq<char>, at: int, word: Seq<char>, start: int, end: int)
    requires
        0 <= at <= at + word.len() <= text.len(),
        word == text.subrange(at, at + word.len()),
        boundary(word, start),
        boundary(word, end),
        start < end,
    ensures
        0 <= index_at(word, start) <= index_at(word, end) <= word.len(),
        offset(word, index_at(word, start)) == start,
        offset(word, index_at(word, end)) == end,
        offset(text, at + index_at(word, start)) == offset(text, at) + start,
        offset(text, at + index_at(word, end)) == offset(text, at) + end,
        offset(text, at) + end <= offset(text, text.len() as int),
{
    let (i, j) = (index_at(word, start), index_at(word, end));
    lemma_boundary_index(word, start);
    lemma_boundary_index(word, end);
    if j < i {
        lemma_offset_monotone(word, j, i);
    }
    lemma_offset_within(text, at, at + word.len(), i);
    lemma_offset_within(text, at, at + word.len(), j);
    lemma_offset_monotone(text, at + j, text.len() as int);
}

/// Tables that are measured throughout are the fragments of the word.
proof fn lemma_complete<G: Gauge>(
    g: G,
    base: int,
    word: Seq<char>,
    whole: Binary64,
    offsets: Seq<usize>,
    flags: Seq<bool>,
    f: Fragments,
)
    requires
        offsets.len() >= 2,
        filled(
            g,
            base,
            word,
            whole,
            offsets,
            flags,
            f.widths,
            f.hyphen_widths,
            f.characters,
            offsets.len() - 1,
            offsets.len() as int,
        ),
        f.offsets == offsets,
        f.start_protrusions is None,
        f.hyphen_protrusion is None,
        f.explicit == if any_flag(flags) {
            Some(flags)
        } else {
            None
        },
    ensures
        f == fragments_by(word, whole, offsets, flags, pieces_in(f)),
        pieces_known(g, base, offsets, flags, pieces_in(f)),
{
    let n = offsets.len();
    let expected = fragments_by(word, whole, offsets, flags, pieces_in(f));
    assert forall|cell: int| 0 <= cell < n * n implies {
        &&& #[trigger] f.widths[cell] == expected.widths[cell]
        &&& f.hyphen_widths[cell] == expected.hyphen_widths[cell]
        &&& f.characters[cell] == expected.characters[cell]
    } by {
        let (a, b) = (cell / n as int, cell % n as int);
        vstd::arithmetic::div_mod::lemma_fundamental_div_mod(cell, n as int);
        vstd::arithmetic::div_mod::lemma_mod_bound(cell, n as int);
        vstd::arithmetic::div_mod::lemma_div_pos_is_pos(cell, n as int);
        assert(n * a == a * n) by (nonlinear_arith);
        assert(earlier(n as int, cell, n - 1, n as int) == (a < b));
        let width = f.widths[cell];
    }
    assert(f.widths =~= expected.widths);
    assert forall|cell: int| 0 <= cell < n * n implies #[trigger] f.hyphen_widths[cell]
        == expected.hyphen_widths[cell] by {
        assert(f.widths[cell] == expected.widths[cell]);
    }
    assert(f.hyphen_widths =~= expected.hyphen_widths);
    assert forall|cell: int| 0 <= cell < n * n implies #[trigger] f.characters[cell]
        == expected.characters[cell] by {
        assert(f.widths[cell] == expected.widths[cell]);
    }
    assert(f.characters =~= expected.characters);
    assert forall|from: int, to: int, hyphen: bool| #[trigger]
        needed(n, flags, from, to, hyphen) implies g.knows(
        base + offsets[from],
        base + offsets[to],
        hyphen,
        pieces_in(f)(from, to, hyphen),
    ) by {
        lemma_cell(n, from, to);
        let width = f.widths[from * n + to];
    }
}

/// Fragments depend on the pieces that are measured alone.
pub proof fn lemma_same_pieces(
    word: Seq<char>,
    whole: Binary64,
    offsets: Seq<usize>,
    flags: Seq<bool>,
    a: spec_fn(int, int, bool) -> Binary64,
    b: spec_fn(int, int, bool) -> Binary64,
)
    requires
        flags.len() == offsets.len(),
        forall|from: int, to: int, hyphen: bool| #[trigger]
            needed(offsets.len(), flags, from, to, hyphen) ==> a(from, to, hyphen) == b(
                from,
                to,
                hyphen,
            ),
    ensures
        fragments_by(word, whole, offsets, flags, a) == fragments_by(
            word,
            whole,
            offsets,
            flags,
            b,
        ),
{
    let n = offsets.len();
    let (x, y) = (
        fragments_by(word, whole, offsets, flags, a),
        fragments_by(word, whole, offsets, flags, b),
    );
    assert forall|cell: int| 0 <= cell < n * n implies x.widths[cell] == y.widths[cell]
        && #[trigger] x.hyphen_widths[cell] == y.hyphen_widths[cell] by {
        let (from, to) = (cell / n as int, cell % n as int);
        vstd::arithmetic::div_mod::lemma_mod_bound(cell, n as int);
        vstd::arithmetic::div_mod::lemma_div_pos_is_pos(cell, n as int);
        if from < to {
            if !(from == 0 && to == n - 1) {
                assert(needed(n, flags, from, to, false));
            }
            if to < n - 1 && !flags[to] {
                assert(needed(n, flags, from, to, true));
            }
        }
    }
    assert forall|cell: int| 0 <= cell < n * n implies #[trigger] x.widths[cell]
        == y.widths[cell] by {
        assert(x.hyphen_widths[cell] == y.hyphen_widths[cell]);
    }
    assert(x.widths =~= y.widths);
    assert(x.hyphen_widths =~= y.hyphen_widths);
}

}
