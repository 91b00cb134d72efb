//! Which policies are refused, and what breaks and neighbours cost.

use crate::binary64::Binary64;
use crate::fit::{credit_at, fragment_line, FragmentMetrics};
use crate::hyphenated::{candidate, Node};
use crate::model::{Line, Options, Paragraph};
use crate::numeric::larger;
use crate::search::adjacency;
use crate::solve::{policy_values, refusal, sound, unsigned};
use vstd::prelude::*;

verus! {

/// A number that is finite and not below zero.
pub open spec fn proper_value(x: Binary64) -> bool {
    x.is_finite() && !x.lt(Binary64::zero())
}

/// A policy is refused exactly for one of its fifteen numbers that is not finite
/// or below zero, or for a fraction above one, and a measure exactly for having
/// no width or one that is not finite and above zero. The measure is looked at
/// first, then the numbers, then the fractions.
pub proof fn law_refusals(widths: Seq<Binary64>, o: Options)
    ensures
        ({
            let one = Binary64::one();
            let measured = widths.len() > 0 && forall|i: int|
                0 <= i < widths.len() ==> (#[trigger] widths[i]).is_finite() && widths[i].gt(
                    Binary64::zero(),
                );
            let valued = {
                &&& proper_value(o.stretch)
                &&& proper_value(o.shrink)
                &&& proper_value(o.tracking)
                &&& proper_value(o.compression_penalty)
                &&& proper_value(o.emergency_stretch)
                &&& proper_value(o.hanging)
                &&& proper_value(o.opening)
                &&& proper_value(o.protrusion)
                &&& proper_value(o.adjacent_penalty)
                &&& proper_value(o.last_line)
                &&& proper_value(o.widow_penalty)
                &&& proper_value(o.hyphen_penalty)
                &&& proper_value(o.consecutive_hyphen_penalty)
                &&& proper_value(o.final_hyphen_penalty)
                &&& proper_value(o.explicit_hyphen_penalty)
            };
            let fractions = !o.shrink.gt(one) && !o.last_line.gt(one) && !o.hanging.gt(one)
                && !o.opening.gt(one) && !o.protrusion.gt(one);
            refusal(widths, o) == if !measured {
                Some("Measure must be positive"@)
            } else if !valued {
                Some("Policy values must be finite and nonnegative"@)
            } else if !fractions {
                Some("Shrink, lastLine, hanging, opening, and protrusion must be at most 1"@)
            } else {
                None
            }
        }),
{
    let measured = widths.len() > 0 && forall|i: int|
        0 <= i < widths.len() ==> (#[trigger] widths[i]).is_finite() && widths[i].gt(
            Binary64::zero(),
        );
    assert(measured == crate::model::usable_widths(widths)) by {
        if measured {
            assert forall|i: int| 0 <= i < widths.len() implies crate::model::usable_width(
                #[trigger] widths[i],
            ) by {}
        }
        if crate::model::usable_widths(widths) {
            assert forall|i: int| 0 <= i < widths.len() implies (#[trigger] widths[i]).is_finite()
                && widths[i].gt(Binary64::zero()) by {
                assert(crate::model::usable_width(widths[i]));
            }
        }
    }
    let v = policy_values(o);
    assert(v.len() == 15);
    let valued = {
        &&& proper_value(o.stretch)
        &&& proper_value(o.shrink)
        &&& proper_value(o.tracking)
        &&& proper_value(o.compression_penalty)
        &&& proper_value(o.emergency_stretch)
        &&& proper_value(o.hanging)
        &&& proper_value(o.opening)
        &&& proper_value(o.protrusion)
        &&& proper_value(o.adjacent_penalty)
        &&& proper_value(o.last_line)
        &&& proper_value(o.widow_penalty)
        &&& proper_value(o.hyphen_penalty)
        &&& proper_value(o.consecutive_hyphen_penalty)
        &&& proper_value(o.final_hyphen_penalty)
        &&& proper_value(o.explicit_hyphen_penalty)
    };
    assert(valued == sound(o)) by {
        if sound(o) {
            assert(unsigned(v[0]));
            assert(unsigned(v[1]));
            assert(unsigned(v[2]));
            assert(unsigned(v[3]));
            assert(unsigned(v[4]));
            assert(unsigned(v[5]));
            assert(unsigned(v[6]));
            assert(unsigned(v[7]));
            assert(unsigned(v[8]));
            assert(unsigned(v[9]));
            assert(unsigned(v[10]));
            assert(unsigned(v[11]));
            assert(unsigned(v[12]));
            assert(unsigned(v[13]));
            assert(unsigned(v[14]));
        }
    }
}

/// The neighbours of a line: its class and that of the line before it clash
/// where they differ by more than one, which costs the adjacent penalty and
/// nothing else does. The first line has no neighbour before it.
pub proof fn law_clashes_are_priced(start: int, before: int, line: Line, penalty: Binary64)
    requires
        line.fitness is Some,
    ensures
        ({
            let class = line.fitness->0;
            let apart = before >= class + 2 || class >= before + 2;
            &&& start > 0 && apart ==> adjacency(start, before, line, penalty) == penalty
            &&& start == 0 || !apart ==> adjacency(start, before, line, penalty)
                == Binary64::zero()
        }),
{
}

/// The breaks of a line are priced: a hyphen that is drawn costs the hyphen
/// penalty, and the consecutive penalty too where the line before ended in one;
/// a hyphen of the source costs its own penalty; the last line costs the final
/// penalty where the line before ended in a drawn hyphen; and a break between
/// words costs nothing. Only a drawn hyphen marks its line, and offsets are those
/// of the breaks.
pub proof fn law_breaks_are_priced(
    p: Paragraph,
    nodes: Seq<Node>,
    start: int,
    end: int,
    width: Binary64,
    o: Options,
    e: bool,
) -> (f: FragmentMetrics)
    requires
        0 <= start < end < nodes.len(),
    ensures
        ({
            let (a, b) = (nodes[start], nodes[end]);
            let line = candidate(p, nodes, start, end, width, o, e);
            let inside = b.offset > 0;
            let past: int = if inside {
                b.word + 1
            } else {
                b.word as int
            };
            let plain = fragment_line(p, a.word as int, past, width, o, e, f);
            let drawn = inside && !b.explicit;
            let after = a.offset > 0 && !a.explicit;
            let price = if drawn && after {
                o.hyphen_penalty + o.consecutive_hyphen_penalty
            } else if drawn {
                o.hyphen_penalty + Binary64::zero()
            } else if inside {
                o.explicit_hyphen_penalty
            } else if after && end == nodes.len() - 1 {
                o.final_hyphen_penalty
            } else {
                Binary64::zero()
            };
            &&& line.cost == plain.cost + price
            &&& line.natural == plain.natural && line.residual == plain.residual
            &&& line.word_spacing == plain.word_spacing && line.tracking == plain.tracking
            &&& f.continued == (start > 0) && f.last == (end == nodes.len() - 1)
            &&& line.start == a.word as usize && line.end == past as usize
            &&& line.hyphenated == Some(drawn)
            &&& (a.offset == 0 ==> line.start_offset is None) && (a.offset > 0
                ==> line.start_offset == Some(a.offset))
            &&& (b.offset == 0 ==> line.end_offset is None) && (b.offset > 0 ==> line.end_offset
                == Some(b.offset))
        }),
{
    let (a, b) = (nodes[start], nodes[end]);
    let f = crate::hyphenated::metrics(p, a, b, start == 0, end == nodes.len() - 1);
    f
}

/// The margins of a line of fragments: a line that ends in a word's own end has
/// the hanging credit of that word, and one that ends inside a word only that of
/// the hyphen; a line that begins with a word has the opening credit of that
/// word, and one that begins inside a word only that of the part it begins with.
pub proof fn law_fragment_credits(
    p: Paragraph,
    nodes: Seq<Node>,
    start: int,
    end: int,
    width: Binary64,
    o: Options,
    e: bool,
)
    requires
        0 <= start < end < nodes.len(),
    ensures
        ({
            let (a, b) = (nodes[start], nodes[end]);
            let line = candidate(p, nodes, start, end, width, o, e);
            let none = Binary64::zero();
            &&& line.last == (end == nodes.len() - 1)
            &&& b.offset == 0 ==> line.hanging == larger(
                p.end_hangs[b.word - 1] * o.hanging,
                (match credit_at(p.end_protrusions, b.word - 1) {
                    Some(credit) => credit,
                    None => none,
                }) * o.protrusion,
            )
            &&& b.offset > 0 ==> line.hanging == larger(
                none * o.hanging,
                (match p.fragments_of(b.word as int) {
                    Some(f) => match f.hyphen_protrusion {
                        Some(credit) => credit,
                        None => none,
                    },
                    None => none,
                }) * o.protrusion,
            )
            &&& a.offset == 0 ==> line.opening == match credit_at(
                p.start_protrusions,
                a.word as int,
            ) {
                Some(credit) => credit * o.protrusion,
                None => p.start_hangs[a.word as int] * o.opening,
            }
            &&& a.offset > 0 ==> {
                let f = p.fragments_of(a.word as int);
                if f is Some && f->0.start_protrusions is Some && a.part
                    < f->0.start_protrusions->0.len() {
                    line.opening == f->0.start_protrusions->0[a.part as int] * o.protrusion
                } else {
                    line.opening == none * o.opening
                }
            }
        }),
{
}

}
