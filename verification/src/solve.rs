//! Solving a paragraph: validation, the search over its words, and the search
//! over its words and their fragments.

use crate::binary64::Binary64;
use crate::fit::{fit, word_line};
use crate::hyphenated::{
    collect_nodes, fragment_lines, lemma_nodes, nodes_of, solve_hyphenated, Node,
};
use crate::model::{
    usable_widths, Error, Layout, Line, Measure, Options, Paragraph, Prepared, Solution,
};
use crate::pruning::{law_pruning_is_safe, word_verdict, word_verdicts, Pruner};
use crate::search::{lemma_slot, safe, unknown, Grid, Verdict};
use crate::solver::{countable, search, solution, Shape};
use vstd::prelude::*;

verus! {

/// The numbers of a policy.
pub open spec fn policy_values(o: Options) -> Seq<Binary64> {
    seq![
        o.stretch,
        o.shrink,
        o.tracking,
        o.compression_penalty,
        o.emergency_stretch,
        o.hanging,
        o.opening,
        o.protrusion,
        o.adjacent_penalty,
        o.last_line,
        o.widow_penalty,
        o.hyphen_penalty,
        o.consecutive_hyphen_penalty,
        o.final_hyphen_penalty,
        o.explicit_hyphen_penalty,
    ]
}

/// A number that a measurement or a policy may have.
#[verifier::allow_in_spec]
pub fn unsigned(x: Binary64) -> (r: bool)
    returns
        (x.is_finite() && !x.lt(Binary64::zero())),
{
    x.is_finite() && !x.lt(Binary64::zero())
}

/// Every number of a policy is finite and not negative.
pub open spec fn sound(o: Options) -> bool {
    forall|i: int| 0 <= i < policy_values(o).len() ==> unsigned(#[trigger] policy_values(o)[i])
}

/// The fractions of a policy are at most 1.
pub open spec fn bounded(o: Options) -> bool {
    let one = Binary64::one();
    !(o.shrink.gt(one) || o.last_line.gt(one) || o.hanging.gt(one) || o.opening.gt(one)
        || o.protrusion.gt(one))
}

/// Why widths and a policy are refused, if they are.
pub open spec fn refusal(widths: Seq<Binary64>, o: Options) -> Option<Seq<char>> {
    if !usable_widths(widths) {
        Some("Measure must be positive"@)
    } else if !sound(o) {
        Some("Policy values must be finite and nonnegative"@)
    } else if !bounded(o) {
        Some("Shrink, lastLine, hanging, opening, and protrusion must be at most 1"@)
    } else {
        None
    }
}

/// The widths of a measure, if they and the policy are in order.
pub fn validate(measure: Measure, o: &Options) -> (r: Result<Vec<Binary64>, Error>)
    ensures
        match refusal(measure@, *o) {
            None => r matches Ok(widths) && widths@ == measure@,
            Some(message) => r matches Err(e) && e@ == message,
        },
{
    let widths: Vec<Binary64> = measure.widths()?;
    proof {
        let v = policy_values(*o);
        assert(v.len() == 15);
        assert(sound(*o) == (unsigned(v[0]) && unsigned(v[1]) && unsigned(v[2]) && unsigned(v[3])
            && unsigned(v[4]) && unsigned(v[5]) && unsigned(v[6]) && unsigned(v[7]) && unsigned(
            v[8],
        ) && unsigned(v[9]) && unsigned(v[10]) && unsigned(v[11]) && unsigned(v[12]) && unsigned(
            v[13],
        ) && unsigned(v[14])));
    }
    let fine: bool = unsigned(o.stretch) && unsigned(o.shrink) && unsigned(o.tracking) && unsigned(
        o.compression_penalty,
    ) && unsigned(o.emergency_stretch) && unsigned(o.hanging) && unsigned(o.opening) && unsigned(
        o.protrusion,
    ) && unsigned(o.adjacent_penalty) && unsigned(o.last_line) && unsigned(o.widow_penalty)
        && unsigned(o.hyphen_penalty) && unsigned(o.consecutive_hyphen_penalty) && unsigned(
        o.final_hyphen_penalty,
    ) && unsigned(o.explicit_hyphen_penalty);
    if !fine {
        return Err(Error::range("Policy values must be finite and nonnegative"));
    }
    let one: Binary64 = Binary64::one();
    if o.shrink.gt(one) || o.last_line.gt(one) || o.hanging.gt(one) || o.opening.gt(one)
        || o.protrusion.gt(one) {
        return Err(
            Error::range("Shrink, lastLine, hanging, opening, and protrusion must be at most 1"),
        );
    }
    Ok(widths)
}

/// The lines of whole words.
pub open spec fn word_lines(p: Paragraph, widths: Seq<Binary64>, o: Options) -> spec_fn(
    bool,
) -> spec_fn(int, int, int) -> Line {
    |emergency: bool|
        |start: int, end: int, l: int| word_line(p, start, end, widths[l], o, emergency)
}

/// The search over whole words.
fn solve_words(p: &Prepared, widths: Vec<Binary64>, o: &Options) -> (r: Layout)
    requires
        p@.valid(),
        usable_widths(widths@),
        sound(*o),
        bounded(*o),
        countable(Grid::of(widths@, *o), p@.words.len()),
    ensures
        r@ == solution(
            Grid::of(widths@, *o),
            p@.words.len(),
            word_lines(p@, widths@, *o),
            word_verdicts(p@, widths@, *o),
            o.adjacent_penalty,
        ),
{
    let ghost measures = widths@;
    let ghost g = Grid::of(measures, *o);
    let n: usize = p.words.len();
    proof {
        lemma_slot(g, 0, 0, 0);
        assert(g.states() <= (n + 1) * g.states()) by (nonlinear_arith)
            requires
                n >= 0,
        ;
    }
    let pruner: Pruner = Pruner::new(p, &widths, o);
    let s: Shape = Shape::new(widths, o);
    let one_line = |emergency: bool, a: usize, b: usize, l: usize| -> (r: Line)
        requires
            a < b <= n,
            l < s@.lines(),
        ensures
            r == word_line(p@, a as int, b as int, s.widths@[l as int], *o, emergency),
        { fit(p, a, b, s.width(l), o, emergency, None) };
    let judge = |emergency: bool, a: usize, b: usize| -> (v: Verdict)
        requires
            a < b <= n,
        ensures
            v == word_verdict(p@, s.widths@, *o, emergency, a as int, b as int),
        { pruner.judge(p, o, emergency, a, b, Ghost(s.widths@)) };
    proof {
        assert forall|e: bool| safe(
            #[trigger] word_verdicts(p@, measures, *o)(e),
            word_lines(p@, measures, *o)(e),
            g,
            n as nat,
            o.adjacent_penalty,
        ) by {
            law_pruning_is_safe(p@, measures, *o, e);
        }
    }
    search(
        &s,
        n,
        &one_line,
        &judge,
        o.adjacent_penalty,
        Ghost(word_lines(p@, measures, *o)),
        Ghost(word_verdicts(p@, measures, *o)),
    )
}

/// The last break of a paragraph: its words are counted, and the breaks inside
/// them where there are any.
pub open spec fn last_break(p: Paragraph) -> nat {
    if p.breakable() {
        (nodes_of(p).len() - 1) as nat
    } else {
        p.words.len()
    }
}

/// The lines that a paragraph can be broken into: by ordinary fitting, or by
/// the relaxed scoring of an emergency.
pub open spec fn layout_lines(p: Paragraph, widths: Seq<Binary64>, o: Options) -> spec_fn(
    bool,
) -> spec_fn(int, int, int) -> Line {
    if p.breakable() {
        fragment_lines(p, widths, o)
    } else {
        word_lines(p, widths, o)
    }
}

/// What the search for breaks knows of earlier starts: over words and
/// fragments nothing.
pub open spec fn layout_verdicts(p: Paragraph, widths: Seq<Binary64>, o: Options) -> spec_fn(
    bool,
) -> spec_fn(int, int) -> Verdict {
    if p.breakable() {
        unknown()
    } else {
        word_verdicts(p, widths, o)
    }
}

/// The layout of a paragraph.
pub open spec fn best_layout(p: Paragraph, widths: Seq<Binary64>, o: Options) -> Solution {
    solution(
        Grid::of(widths, o),
        last_break(p),
        layout_lines(p, widths, o),
        layout_verdicts(p, widths, o),
        o.adjacent_penalty,
    )
}

/// The measure, if it is accepted, leaves the search within machine numbers.
pub open spec fn solvable(p: Paragraph, widths: Seq<Binary64>, o: Options) -> bool {
    refusal(widths, o) is None ==> countable(Grid::of(widths, o), last_break(p))
}

/// `r` is the answer to a request to lay out `p`.
pub open spec fn answers(
    r: Result<Layout, Error>,
    p: Paragraph,
    widths: Seq<Binary64>,
    o: Options,
) -> bool {
    match refusal(widths, o) {
        None => r matches Ok(layout) && layout@ == best_layout(p, widths, o),
        Some(message) => r matches Err(e) && e@ == message,
    }
}

/// Whether some word has fragments.
fn is_breakable(p: &Prepared) -> (r: bool)
    ensures
        r == p@.breakable(),
{
    match &p.hyphenation {
        Some(entries) => {
            let mut i: usize = 0;
            while i < entries.len()
                invariant
                    i <= entries@.len(),
                    p.hyphenation == Some(*entries),
                    forall|k: int| 0 <= k < i ==> (#[trigger] p@.hyphenation->0[k]) is None,
                decreases entries@.len() - i,
            {
                assert(p@.hyphenation->0[i as int] is Some == entries@[i as int] is Some);
                if entries[i].is_some() {
                    return true;
                }
                i = i + 1;
            }
            false
        },
        None => false,
    }
}

/// The last break of a paragraph.
fn count_breaks(p: &Prepared) -> (n: usize)
    requires
        p@.valid(),
    ensures
        n == last_break(p@),
{
    if is_breakable(p) {
        let nodes: Vec<Node> = collect_nodes(p);
        proof {
            lemma_nodes(p@, p@.words.len());
        }
        nodes.len() - 1
    } else {
        p.words.len()
    }
}

/// Whether the search at so many measures stays within machine numbers.
pub(crate) fn is_countable(p: &Prepared, widths: &Vec<Binary64>, o: &Options) -> (r: bool)
    requires
        p@.valid(),
        widths@.len() > 0,
    ensures
        r == countable(Grid::of(widths@, *o), last_break(p@)),
{
    let ghost g = Grid::of(widths@, *o);
    let lines: usize = widths.len();
    let last: usize = count_breaks(p);
    let fitnesses: usize = if !o.adjacent_penalty.same(Binary64::zero()) {
        4
    } else {
        1
    };
    proof {
        let n = last as int;
        let f = fitnesses as int;
        let l = lines as int;
        assert(f * l <= (n + 1) * (f * l)) by (nonlinear_arith)
            requires
                n >= 0,
                f >= 1,
                l >= 1,
        ;
        assert(n + 1 <= (n + 1) * (f * l)) by (nonlinear_arith)
            requires
                n >= 0,
                f >= 1,
                l >= 1,
        ;
        assert(n * (n + 1) <= (n * (n + 1)) * l) by (nonlinear_arith)
            requires
                n >= 0,
                l >= 1,
        ;
    }
    let nodes: usize = match last.checked_add(1) {
        Some(nodes) => nodes,
        None => {
            return false;
        },
    };
    let states: usize = match fitnesses.checked_mul(lines) {
        Some(states) => states,
        None => {
            return false;
        },
    };
    if nodes.checked_mul(states).is_none() {
        return false;
    }
    match last.checked_mul(nodes) {
        Some(pairs) => pairs.checked_mul(lines).is_some(),
        None => false,
    }
}

/// Exact optimum within the first viable pass: ordinary fitting, then relaxed
/// stretch scoring if necessary. Both passes use admissible overflow pruning.
pub fn solve<M: Into<Measure>>(p: &Prepared, measure: M) -> (r: Result<Layout, Error>)
    requires
        p@.valid(),
        forall|m: Measure|
            call_ensures(<M as Into<Measure>>::into, (measure,), m) ==> solvable(
                p@,
                m@,
                Options::published(),
            ),
    ensures
        exists|m: Measure|
            call_ensures(<M as Into<Measure>>::into, (measure,), m) && answers(
                r,
                p@,
                m@,
                Options::published(),
            ),
{
    solve_with(p, measure, Options::default())
}

/// `solve` with an explicit policy.
pub fn solve_with<M: Into<Measure>>(p: &Prepared, measure: M, policy: Options) -> (r: Result<
    Layout,
    Error,
>)
    requires
        p@.valid(),
        forall|m: Measure|
            call_ensures(<M as Into<Measure>>::into, (measure,), m) ==> solvable(p@, m@, policy),
    ensures
        exists|m: Measure|
            call_ensures(<M as Into<Measure>>::into, (measure,), m) && answers(r, p@, m@, policy),
{
    let m: Measure = measure.into();
    let ghost given = m;
    let r: Result<Layout, Error> = solve_measure(p, m, policy);
    assert(answers(r, p@, given@, policy));
    r
}

/// `solve_with` for a measure as such.
pub fn solve_measure(p: &Prepared, measure: Measure, policy: Options) -> (r: Result<Layout, Error>)
    requires
        p@.valid(),
        solvable(p@, measure@, policy),
    ensures
        answers(r, p@, measure@, policy),
{
    let widths: Vec<Binary64> = match validate(measure, &policy) {
        Ok(widths) => widths,
        Err(e) => {
            return Err(e);
        },
    };
    let layout: Layout = if is_breakable(p) {
        solve_hyphenated(p, widths, &policy)
    } else {
        solve_words(p, widths, &policy)
    };
    Ok(layout)
}

}
