//! The search over words and their fragments.
//!
//! A break node also records whether the preceding line hyphenated. This makes
//! the penalties of neighbouring hyphens part of the optimum rather than a
//! repair after the layout.

use crate::binary64::Binary64;
use crate::fit::{credit_at, credit_of, fit, fragment_line, FragmentMetrics};
use crate::model::{
    valid_entry, Fragments, Layout, Line, Options, Paragraph, Prepared, WordFragments,
};
use crate::search::{lemma_slot, unknown, Grid, Verdict};
use crate::solver::{countable, search, solution, Shape};
use vstd::prelude::*;

verus! {

/// A place where a line may break.
#[derive(Debug, Clone, Copy, PartialEq, Eq, Structural)]
pub struct Node {
    /// The word that the next line starts with.
    pub word: usize,
    /// Its fragment boundary at the break; 0 for the whole word.
    pub part: usize,
    /// The byte offset of that boundary.
    pub offset: usize,
    /// True where the source itself ends in a hyphen.
    pub explicit: bool,
}

/// The break before a whole word.
pub open spec fn whole(word: int) -> Node {
    Node { word: word as usize, part: 0, offset: 0, explicit: false }
}

/// The break at boundary `part` of a word.
pub open spec fn within(f: Fragments, word: int, part: int) -> Node {
    Node {
        word: word as usize,
        part: part as usize,
        offset: f.offsets[part],
        explicit: f.explicit_at(part),
    }
}

/// The breaks inside a word.
pub open spec fn inner_nodes(p: Paragraph, word: int) -> Seq<Node> {
    match p.fragments_of(word) {
        Some(f) => Seq::new((f.offsets.len() - 2) as nat, |i: int| within(f, word, i + 1)),
        None => seq![],
    }
}

/// The breaks up to a word, in source order.
pub open spec fn nodes_to(p: Paragraph, word: nat) -> Seq<Node>
    decreases word,
{
    if word == 0 {
        seq![whole(0)]
    } else {
        (nodes_to(p, (word - 1) as nat) + inner_nodes(p, word - 1)).push(whole(word as int))
    }
}

/// The breaks of a paragraph, in source order.
pub open spec fn nodes_of(p: Paragraph) -> Seq<Node> {
    nodes_to(p, p.words.len())
}

/// A node describes a break of the paragraph.
pub open spec fn describes(p: Paragraph, node: Node) -> bool {
    if node.part == 0 {
        node == whole(node.word as int) && node.word <= p.words.len()
    } else {
        &&& node.word < p.words.len()
        &&& p.fragments_of(node.word as int) matches Some(f) && {
            &&& node.part < f.offsets.len() - 1
            &&& node == within(f, node.word as int, node.part as int)
        }
    }
}

/// One break comes before another.
pub open spec fn precedes(a: Node, b: Node) -> bool {
    a.word < b.word || (a.word == b.word && a.part < b.part)
}

/// The breaks are described in source order, from the first word to the end.
pub proof fn lemma_nodes(p: Paragraph, word: nat)
    requires
        p.valid(),
        word <= p.words.len(),
    ensures
        nodes_to(p, word).len() > word,
        nodes_to(p, word)[0] == whole(0),
        nodes_to(p, word).last() == whole(word as int),
        forall|i: int|
            0 <= i < nodes_to(p, word).len() ==> describes(p, #[trigger] nodes_to(p, word)[i])
                && nodes_to(p, word)[i].word <= word,
        forall|i: int, j: int|
            0 <= i < j < nodes_to(p, word).len() ==> precedes(
                #[trigger] nodes_to(p, word)[i],
                #[trigger] nodes_to(p, word)[j],
            ),
    decreases word,
{
    if word > 0 {
        let k = (word - 1) as nat;
        lemma_nodes(p, k);
        let before = nodes_to(p, k);
        let inner = inner_nodes(p, k as int);
        if p.fragments_of(k as int) is Some {
            assert(valid_entry(p.hyphenation->0[k as int]));
        }
        let all = nodes_to(p, word);
        assert(all == (before + inner).push(whole(word as int)));
        assert forall|i: int| 0 <= i < all.len() implies describes(p, #[trigger] all[i])
            && all[i].word <= word by {
            if i < before.len() {
                assert(all[i] == before[i]);
            } else if i < before.len() + inner.len() {
                assert(all[i] == inner[i - before.len()]);
            }
        }
        assert forall|i: int, j: int| 0 <= i < j < all.len() implies precedes(
            #[trigger] all[i],
            #[trigger] all[j],
        ) by {
            if i < before.len() {
                assert(all[i] == before[i]);
                if i < before.len() - 1 {
                    assert(precedes(before[i], before.last()));
                }
            } else if i < before.len() + inner.len() {
                assert(all[i] == inner[i - before.len()]);
            }
            if j < before.len() {
                assert(all[j] == before[j]);
            } else if j < before.len() + inner.len() {
                assert(all[j] == inner[j - before.len()]);
            }
        }
    }
}

/// The measured width and characters of one word, or of the part of it from
/// boundary `from` to boundary `to`.
pub open spec fn piece(p: Paragraph, word: int, from: int, to: Option<int>, hyphen: bool) -> (
    Binary64,
    Binary64,
) {
    match p.fragments_of(word) {
        None => (p.widths[word + 1] - p.widths[word], p.characters[word + 1] - p.characters[word]),
        Some(f) => {
            let n = f.offsets.len() as int;
            let target = match to {
                Some(part) => part,
                None => n - 1,
            };
            let cell = from * n + target;
            let generated = hyphen && !f.explicit_at(target);
            (
                if hyphen {
                    f.hyphen_widths[cell]
                } else {
                    f.widths[cell]
                },
                f.characters[cell] + Binary64::from_count(
                    if generated {
                        1
                    } else {
                        0
                    },
                ),
            )
        },
    }
}

/// The last word of a line that ends at `b`.
pub open spec fn last_word(b: Node) -> int {
    if b.offset > 0 {
        b.word as int
    } else {
        b.word - 1
    }
}

/// The natural width and the characters of the source from `a` to `b`.
pub open spec fn span(p: Paragraph, a: Node, b: Node) -> (Binary64, Binary64) {
    let hyphen = b.offset > 0;
    let to = if hyphen {
        Some(b.part as int)
    } else {
        None
    };
    let end = last_word(b);
    if a.word == end {
        piece(p, end, a.part as int, to, hyphen)
    } else {
        let first = piece(p, a.word as int, a.part as int, None, false);
        let last = piece(p, end, 0, to, hyphen);
        let gaps = Binary64::from_count((end - a.word) as usize);
        (
            first.0 + p.widths[end] - p.widths[a.word + 1] + last.0 + gaps * p.space,
            first.1 + p.characters[end] - p.characters[a.word + 1] + last.1 + gaps,
        )
    }
}

/// The optical credit at the start of a line.
pub open spec fn start_credit(p: Paragraph, a: Node) -> Option<Binary64> {
    if a.offset > 0 {
        match p.fragments_of(a.word as int) {
            Some(f) => match f.start_protrusions {
                Some(credits) => if a.part < credits.len() {
                    Some(credits[a.part as int])
                } else {
                    None
                },
                None => None,
            },
            None => None,
        }
    } else {
        credit_at(p.start_protrusions, a.word as int)
    }
}

/// The optical credit at the end of a line.
pub open spec fn end_credit(p: Paragraph, b: Node) -> Option<Binary64> {
    if b.offset > 0 {
        match p.fragments_of(b.word as int) {
            Some(f) => f.hyphen_protrusion,
            None => None,
        }
    } else {
        credit_at(p.end_protrusions, b.word - 1)
    }
}

/// The metrics of a line from `a` to `b`.
pub open spec fn metrics(p: Paragraph, a: Node, b: Node, first: bool, last: bool) -> FragmentMetrics {
    FragmentMetrics {
        natural: span(p, a, b).0,
        chars: span(p, a, b).1,
        last,
        continued: !first,
        hanging: if b.offset > 0 {
            Binary64::zero()
        } else {
            p.end_hangs[b.word - 1]
        },
        opening: if a.offset > 0 {
            Binary64::zero()
        } else {
            p.start_hangs[a.word as int]
        },
        start_protrusion: start_credit(p, a),
        end_protrusion: end_credit(p, b),
    }
}

/// The price of the break at the end of a line from `a` to `b`: a generated
/// hyphen, more so after another one; a hyphen of the source; or a last line
/// after a generated hyphen.
pub open spec fn break_cost(a: Node, b: Node, last: bool, o: Options) -> Binary64 {
    let after_generated = a.offset > 0 && !a.explicit;
    if b.offset > 0 && !b.explicit {
        o.hyphen_penalty + (if after_generated {
            o.consecutive_hyphen_penalty
        } else {
            Binary64::zero()
        })
    } else if b.offset > 0 {
        o.explicit_hyphen_penalty
    } else if last && after_generated {
        o.final_hyphen_penalty
    } else {
        Binary64::zero()
    }
}

/// An offset, where the line does not start or end at a whole word.
pub open spec fn inside(offset: usize) -> Option<usize> {
    if offset != 0 {
        Some(offset)
    } else {
        None
    }
}

/// The line from one node to another.
pub open spec fn candidate(
    p: Paragraph,
    nodes: Seq<Node>,
    start: int,
    end: int,
    width: Binary64,
    o: Options,
    emergency: bool,
) -> Line {
    let a = nodes[start];
    let b = nodes[end];
    let last = end == nodes.len() - 1;
    let line = fragment_line(
        p,
        a.word as int,
        last_word(b) + 1,
        width,
        o,
        emergency,
        metrics(p, a, b, start == 0, last),
    );
    Line {
        start_offset: inside(a.offset),
        end_offset: inside(b.offset),
        hyphenated: Some(b.offset > 0 && !b.explicit),
        cost: line.cost + break_cost(a, b, last, o),
        ..line
    }
}

/// The lines of words and fragments.
pub open spec fn fragment_lines(p: Paragraph, widths: Seq<Binary64>, o: Options) -> spec_fn(
    bool,
) -> spec_fn(int, int, int) -> Line {
    |emergency: bool|
        |start: int, end: int, l: int|
            candidate(p, nodes_of(p), start, end, widths[l], o, emergency)
}

/// The fragments of a word, if it has any.
pub(crate) fn fragments_at(p: &Prepared, word: usize) -> (r: Option<&WordFragments>)
    ensures
        match r {
            Some(f) => p@.fragments_of(word as int) == Some(f@),
            None => p@.fragments_of(word as int) is None,
        },
{
    match &p.hyphenation {
        Some(entries) => if word < entries.len() {
            match &entries[word] {
                Some(f) => Some(f),
                None => None,
            }
        } else {
            None
        },
        None => None,
    }
}

/// Whether the source itself ends in a hyphen at a boundary.
fn explicit_of(f: &WordFragments, part: usize) -> (r: bool)
    requires
        f@.valid(),
        part < f@.offsets.len(),
    ensures
        r == f@.explicit_at(part as int),
{
    match &f.explicit {
        Some(flags) => flags[part],
        None => false,
    }
}

/// The breaks of a paragraph.
pub(crate) fn collect_nodes(p: &Prepared) -> (nodes: Vec<Node>)
    requires
        p@.valid(),
    ensures
        nodes@ == nodes_of(p@),
{
    let mut nodes: Vec<Node> = Vec::new();
    nodes.push(Node { word: 0, part: 0, offset: 0, explicit: false });
    assert(nodes@ =~= nodes_to(p@, 0));
    let n: usize = p.words.len();
    let mut word: usize = 0;
    while word < n
        invariant
            p@.valid(),
            n == p@.words.len(),
            word <= n,
            nodes@ == nodes_to(p@, word as nat),
        decreases n - word,
    {
        let ghost before = nodes@;
        match fragments_at(p, word) {
            Some(f) => {
                let count: usize = f.offsets.len();
                assert(valid_entry(p@.hyphenation->0[word as int]));
                let mut part: usize = 1;
                while part < count - 1
                    invariant
                        f@.valid(),
                        count == f@.offsets.len(),
                        p@.fragments_of(word as int) == Some(f@),
                        1 <= part <= count - 1,
                        nodes@ == before + inner_nodes(p@, word as int).take(part - 1),
                    decreases count - part,
                {
                    nodes.push(
                        Node {
                            word,
                            part,
                            offset: f.offsets[part],
                            explicit: explicit_of(f, part),
                        },
                    );
                    part = part + 1;
                    assert(nodes@ =~= before + inner_nodes(p@, word as int).take(part - 1));
                }
                assert(nodes@ =~= before + inner_nodes(p@, word as int));
            },
            None => {
                assert(nodes@ =~= before + inner_nodes(p@, word as int));
            },
        }
        nodes.push(Node { word: word + 1, part: 0, offset: 0, explicit: false });
        word = word + 1;
        assert(nodes@ == nodes_to(p@, word as nat));
    }
    nodes
}

/// The width and characters of one word, or of a part of it.
fn piece_of(p: &Prepared, word: usize, from: usize, to: Option<usize>, hyphen: bool) -> (r: (
    Binary64,
    Binary64,
))
    requires
        p@.valid(),
        word < p@.words.len(),
        p@.fragments_of(word as int) matches Some(f) ==> from < f.offsets.len() && (to matches Some(
            part,
        ) ==> part < f.offsets.len()),
    ensures
        r == piece(
            p@,
            word as int,
            from as int,
            match to {
                Some(part) => Some(part as int),
                None => None,
            },
            hyphen,
        ),
{
    match fragments_at(p, word) {
        None => (p.widths[word + 1] - p.widths[word], p.characters[word + 1] - p.characters[word]),
        Some(f) => {
            assert(valid_entry(p@.hyphenation->0[word as int]));
            let n: usize = f.offsets.len();
            let target: usize = match to {
                Some(part) => part,
                None => n - 1,
            };
            let _cells: usize = f.widths.len();
            proof {
                assert(0 <= from * n <= from * n + target < n * n) by (nonlinear_arith)
                    requires
                        from < n,
                        target < n,
                ;
            }
            let cell: usize = from * n + target;
            let generated: bool = hyphen && !explicit_of(f, target);
            (
                if hyphen {
                    f.hyphen_widths[cell]
                } else {
                    f.widths[cell]
                },
                f.characters[cell] + Binary64::from_count(
                    if generated {
                        1
                    } else {
                        0
                    },
                ),
            )
        },
    }
}

/// The natural width and the characters of a line.
fn span_of(p: &Prepared, a: &Node, b: &Node) -> (r: (Binary64, Binary64))
    requires
        p@.valid(),
        describes(p@, *a),
        describes(p@, *b),
        precedes(*a, *b),
    ensures
        r == span(p@, *a, *b),
{
    proof {
        lemma_described(p@, *a);
        lemma_described(p@, *b);
    }
    let hyphen: bool = b.offset > 0;
    let to: Option<usize> = if hyphen {
        Some(b.part)
    } else {
        None
    };
    let end: usize = if hyphen {
        b.word
    } else {
        b.word - 1
    };
    if a.word == end {
        piece_of(p, end, a.part, to, hyphen)
    } else {
        let first: (Binary64, Binary64) = piece_of(p, a.word, a.part, None, false);
        let last: (Binary64, Binary64) = piece_of(p, end, 0, to, hyphen);
        let gaps: Binary64 = Binary64::from_count(end - a.word);
        (
            first.0 + p.widths[end] - p.widths[a.word + 1] + last.0 + gaps * p.space,
            first.1 + p.characters[end] - p.characters[a.word + 1] + last.1 + gaps,
        )
    }
}

/// What a described node says of its word.
pub proof fn lemma_described(p: Paragraph, node: Node)
    requires
        p.valid(),
        describes(p, node),
    ensures
        node.offset > 0 <==> node.part > 0,
        node.word < p.words.len() ==> (p.fragments_of(node.word as int) matches Some(f)
            ==> f.valid() && node.part < f.offsets.len() - 1),
{
    if node.word < p.words.len() && p.fragments_of(node.word as int) is Some {
        assert(valid_entry(p.hyphenation->0[node.word as int]));
    }
}

/// The optical credit at the start of a line.
fn start_credit_of(p: &Prepared, a: &Node) -> (r: Option<Binary64>)
    requires
        p@.valid(),
        a.word < p@.words.len(),
    ensures
        r == start_credit(p@, *a),
{
    if a.offset > 0 {
        match fragments_at(p, a.word) {
            Some(f) => match &f.start_protrusions {
                Some(credits) => if a.part < credits.len() {
                    Some(credits[a.part])
                } else {
                    None
                },
                None => None,
            },
            None => None,
        }
    } else {
        credit_of(&p.start_protrusions, a.word)
    }
}

/// The optical credit at the end of a line.
fn end_credit_of(p: &Prepared, b: &Node) -> (r: Option<Binary64>)
    requires
        p@.valid(),
        b.offset == 0 ==> 0 < b.word <= p@.words.len(),
    ensures
        r == end_credit(p@, *b),
{
    if b.offset > 0 {
        match fragments_at(p, b.word) {
            Some(f) => f.hyphen_protrusion,
            None => None,
        }
    } else {
        credit_of(&p.end_protrusions, b.word - 1)
    }
}

/// The line from one node to another.
fn candidate_of(
    p: &Prepared,
    nodes: &Vec<Node>,
    start: usize,
    end: usize,
    width: Binary64,
    o: &Options,
    emergency: bool,
) -> (r: Line)
    requires
        p@.valid(),
        nodes@ == nodes_of(p@),
        start < end < nodes@.len(),
    ensures
        r == candidate(p@, nodes@, start as int, end as int, width, *o, emergency),
{
    let a: Node = nodes[start];
    let b: Node = nodes[end];
    proof {
        lemma_nodes(p@, p@.words.len());
        assert(precedes(nodes@[start as int], nodes@[end as int]));
        assert(describes(p@, nodes@[start as int]));
        assert(describes(p@, nodes@[end as int]));
        lemma_described(p@, a);
        lemma_described(p@, b);
    }
    let hyphen: bool = b.offset > 0;
    let generated: bool = hyphen && !b.explicit;
    let last: bool = end == nodes.len() - 1;
    let end_word: usize = if hyphen {
        b.word
    } else {
        b.word - 1
    };
    let (natural, chars): (Binary64, Binary64) = span_of(p, &a, &b);
    let f: FragmentMetrics = FragmentMetrics {
        natural,
        chars,
        last,
        continued: start > 0,
        hanging: if hyphen {
            Binary64::zero()
        } else {
            p.end_hangs[end_word]
        },
        opening: if a.offset > 0 {
            Binary64::zero()
        } else {
            p.start_hangs[a.word]
        },
        start_protrusion: start_credit_of(p, &a),
        end_protrusion: end_credit_of(p, &b),
    };
    let line: Line = fit(p, a.word, end_word + 1, width, o, emergency, Some(f));
    let after_generated: bool = a.offset > 0 && !a.explicit;
    let price: Binary64 = if generated {
        o.hyphen_penalty + (if after_generated {
            o.consecutive_hyphen_penalty
        } else {
            Binary64::zero()
        })
    } else if hyphen {
        o.explicit_hyphen_penalty
    } else if line.last && after_generated {
        o.final_hyphen_penalty
    } else {
        Binary64::zero()
    };
    Line {
        start_offset: if a.offset != 0 {
            Some(a.offset)
        } else {
            None
        },
        end_offset: if b.offset != 0 {
            Some(b.offset)
        } else {
            None
        },
        hyphenated: Some(generated),
        cost: line.cost + price,
        ..line
    }
}

/// The search over words and fragments.
pub(crate) fn solve_hyphenated(p: &Prepared, widths: Vec<Binary64>, o: &Options) -> (r: Layout)
    requires
        p@.valid(),
        widths@.len() > 0,
        countable(Grid::of(widths@, *o), (nodes_of(p@).len() - 1) as nat),
    ensures
        r@ == solution(
            Grid::of(widths@, *o),
            (nodes_of(p@).len() - 1) as nat,
            fragment_lines(p@, widths@, *o),
            unknown(),
            o.adjacent_penalty,
        ),
{
    let ghost measures = widths@;
    let ghost g = Grid::of(measures, *o);
    let nodes: Vec<Node> = collect_nodes(p);
    proof {
        lemma_nodes(p@, p@.words.len());
        lemma_slot(g, 0, 0, 0);
        assert(g.states() <= nodes@.len() * g.states()) by (nonlinear_arith)
            requires
                nodes@.len() >= 1,
        ;
    }
    let last: usize = nodes.len() - 1;
    let s: Shape = Shape::new(widths, o);
    let one_line = |emergency: bool, a: usize, b: usize, l: usize| -> (r: Line)
        requires
            a < b < nodes@.len(),
            l < s@.lines(),
        ensures
            r == candidate(
                p@,
                nodes@,
                a as int,
                b as int,
                s.widths@[l as int],
                *o,
                emergency,
            ),
        { candidate_of(p, &nodes, a, b, s.width(l), o, emergency) };
    let unsure = |emergency: bool, a: usize, b: usize| -> (v: Verdict)
        ensures
            v == Verdict::Open,
        { Verdict::Open };
    search(
        &s,
        last,
        &one_line,
        &unsure,
        o.adjacent_penalty,
        Ghost(fragment_lines(p@, measures, *o)),
        Ghost(unknown()),
    )
}

}
