//! What a host chooses, and what it gets.

use crate::binary64::Binary64;
use crate::errors::{amount, lemma_ratio_error, near, tiny, ulp};
use crate::ffi::{
    choice_refusal, chosen, host_line, line_refusal, numbered, placed, policy_of, shown,
    solve_refusal, Job, JusticeOptions,
};
use crate::laws::{accepted, continues, law_lines_tile};
use crate::model::{Ending, Mode, Options};
use crate::render::bytes;
use crate::solve::{best_layout, refusal};
use vstd::prelude::*;

verus! {

/// A host's choices mean what their names say: the policy has in each field the
/// number of that name, 0 and 1 stand for balanced and strict and for soft and
/// fit, and any other number for either is refused.
pub proof fn law_choices_mean_their_names(c: JusticeOptions)
    ensures
        choice_refusal(c) is None <==> 0 <= c.mode <= 1 && 0 <= c.ending <= 1,
        choice_refusal(c) is None ==> {
            let o = policy_of(c);
            &&& o.stretch == c.stretch
            &&& o.shrink == c.shrink
            &&& o.tracking == c.tracking
            &&& o.compression_penalty == c.compression_penalty
            &&& o.emergency_stretch == c.emergency_stretch
            &&& o.hanging == c.hanging
            &&& o.opening == c.opening
            &&& o.protrusion == c.protrusion
            &&& o.adjacent_penalty == c.adjacent_penalty
            &&& o.last_line == c.last_line
            &&& o.widow_penalty == c.widow_penalty
            &&& o.hyphen_penalty == c.hyphen_penalty
            &&& o.consecutive_hyphen_penalty == c.consecutive_hyphen_penalty
            &&& o.final_hyphen_penalty == c.final_hyphen_penalty
            &&& o.explicit_hyphen_penalty == c.explicit_hyphen_penalty
            &&& c.mode == 0 <==> o.mode == Mode::Balanced
            &&& c.mode == 1 <==> o.mode == Mode::Strict
            &&& c.ending == 0 <==> o.ending == Ending::Soft
            &&& c.ending == 1 <==> o.ending == Ending::Fit
        },
{
}

/// A policy is shown to the host field by field.
pub proof fn law_policies_are_shown_by_name(o: Options)
    ensures
        ({
            let c = numbered(o);
            &&& c.stretch == o.stretch
            &&& c.shrink == o.shrink
            &&& c.tracking == o.tracking
            &&& c.compression_penalty == o.compression_penalty
            &&& c.emergency_stretch == o.emergency_stretch
            &&& c.hanging == o.hanging
            &&& c.opening == o.opening
            &&& c.protrusion == o.protrusion
            &&& c.adjacent_penalty == o.adjacent_penalty
            &&& c.last_line == o.last_line
            &&& c.widow_penalty == o.widow_penalty
            &&& c.hyphen_penalty == o.hyphen_penalty
            &&& c.consecutive_hyphen_penalty == o.consecutive_hyphen_penalty
            &&& c.final_hyphen_penalty == o.final_hyphen_penalty
            &&& c.explicit_hyphen_penalty == o.explicit_hyphen_penalty
            &&& c.mode == 0 <==> o.mode == Mode::Balanced
            &&& c.mode == 1 <==> o.mode == Mode::Strict
            &&& c.ending == 0 <==> o.ending == Ending::Soft
            &&& c.ending == 1 <==> o.ending == Ending::Fit
        }),
{
}

/// The amount of a number is the fraction `num / den`, but for rounding.
pub open spec fn is_about(x: Binary64, num: u64, den: u64) -> bool {
    let exact = (num as real) / (den as real);
    x.is_finite() && near(amount(x), exact, ulp() * exact + tiny())
}

/// What a host gets that chooses nothing: balanced lines whose spaces stretch
/// by 6/10 and shrink by a quarter, tracking of 3/10, punctuation that hangs in
/// full, opening quotes by 3/10, and the published prices.
pub proof fn law_published_choices(none: Option<&JusticeOptions>)
    requires
        none is None,
    ensures
        ({
            let c = chosen(none);
            &&& is_about(c.stretch, 6, 10)
            &&& is_about(c.shrink, 25, 100)
            &&& is_about(c.tracking, 3, 10)
            &&& is_about(c.compression_penalty, 2, 1)
            &&& is_about(c.emergency_stretch, 15, 100)
            &&& is_about(c.hanging, 1, 1)
            &&& is_about(c.opening, 3, 10)
            &&& is_about(c.protrusion, 1, 1)
            &&& is_about(c.adjacent_penalty, 100, 1)
            &&& is_about(c.last_line, 33, 100)
            &&& is_about(c.widow_penalty, 300, 1)
            &&& is_about(c.hyphen_penalty, 50, 1)
            &&& is_about(c.consecutive_hyphen_penalty, 200, 1)
            &&& is_about(c.final_hyphen_penalty, 200, 1)
            &&& is_about(c.explicit_hyphen_penalty, 20, 1)
            &&& c.mode == 0
            &&& c.ending == 1
        }),
        policy_of(chosen(none)) == Options::published(),
{
    lemma_ratio_error(1, 1);
    lemma_ratio_error(2, 1);
    lemma_ratio_error(3, 10);
    lemma_ratio_error(6, 10);
    lemma_ratio_error(15, 100);
    lemma_ratio_error(20, 1);
    lemma_ratio_error(25, 100);
    lemma_ratio_error(33, 100);
    lemma_ratio_error(50, 1);
    lemma_ratio_error(100, 1);
    lemma_ratio_error(200, 1);
    lemma_ratio_error(300, 1);
}

/// A host's choices are its own wherever it has any.
pub proof fn law_own_choices(c: &JusticeOptions)
    ensures
        chosen(Some(c)) == *c,
{
}

/// A host is refused for a reason: without widths, for a width that is not
/// positive, for choices that stand for nothing, for a policy that is refused,
/// or for a search beyond the machine; and else it is served.
pub proof fn law_requests_are_refused_for_a_reason(
    job: Job,
    widths: Seq<Binary64>,
    c: JusticeOptions,
)
    ensures
        solve_refusal(job, widths, c) is None ==> {
            &&& widths.len() > 0
            &&& forall|i: int|
                0 <= i < widths.len() ==> (#[trigger] widths[i]).is_finite() && widths[i].gt(
                    Binary64::zero(),
                )
            &&& 0 <= c.mode <= 1
            &&& 0 <= c.ending <= 1
            &&& refusal(widths, policy_of(c)) is None
        },
{
    if solve_refusal(job, widths, c) is None {
        assert forall|i: int| 0 <= i < widths.len() implies (#[trigger] widths[i]).is_finite()
            && widths[i].gt(Binary64::zero()) by {
            assert(crate::model::usable_width(widths[i]));
        }
    }
}

/// The lines that a host gets follow one another through the text: the first
/// begins with the first word and the last ends with the last; each has the
/// spacing and the tracking of its line, in order; and each begins where the
/// one before it ends, at the next word or at the same byte inside a word.
pub proof fn law_host_lines_follow(job: Job, widths: Seq<Binary64>, o: Options, i: int)
    requires
        job.valid(),
        accepted(job.paragraph, widths, o),
        job.layout == Some(best_layout(job.paragraph, widths, o)),
        job.paragraph.words.len() <= u32::MAX,
        0 <= i < best_layout(job.paragraph, widths, o).lines.len(),
    ensures
        line_refusal(job, i) is None,
        ({
            let lines = best_layout(job.paragraph, widths, o).lines;
            let line = host_line(job, lines[i]);
            &&& line.word_start == lines[i].start && line.word_end == lines[i].end
            &&& line.word_spacing == lines[i].word_spacing
            &&& line.tracking == lines[i].tracking
            &&& (line.last == 1) == (i == lines.len() - 1)
            &&& line.last == 0 || line.last == 1
            &&& i == 0 ==> line.word_start == 0 && line.byte_start == job.ranges[0].0
            &&& i == lines.len() - 1 ==> line.word_end == job.ranges.len() && line.byte_end
                == job.ranges.last().1
            &&& i + 1 < lines.len() ==> {
                let next = host_line(job, lines[i + 1]);
                if lines[i].end_offset is None {
                    &&& next.word_start == line.word_end
                    &&& line.byte_end == job.ranges[line.word_end - 1].1
                    &&& next.byte_start == job.ranges[next.word_start as int].0
                } else {
                    &&& next.word_start + 1 == line.word_end
                    &&& next.byte_start == line.byte_end
                    &&& line.byte_end == job.ranges[line.word_end - 1].0
                        + lines[i].end_offset->0
                }
            }
        }),
{
    let p = job.paragraph;
    let lines = best_layout(p, widths, o).lines;
    law_lines_tile(p, widths, o);
    assert(placed(p, lines[i]));
    assert(lines[i].last == (i == lines.len() - 1));
    assert(lines[i].start < lines[i].end);
    let first = job.ranges[lines[i].start as int];
    let last = job.ranges[lines[i].end - 1];
    assert(first.0 + bytes(p.words[lines[i].start as int]) == first.1);
    assert(last.0 + bytes(p.words[lines[i].end - 1]) == last.1);
    if i + 1 < lines.len() {
        assert(continues(lines[i], lines[i + 1]));
        assert(placed(p, lines[i + 1]));
        assert(lines[i + 1].start < lines[i + 1].end);
        let next = job.ranges[lines[i + 1].start as int];
        assert(next.0 + bytes(p.words[lines[i + 1].start as int]) == next.1);
    }
}

}
