//! What a fitted line looks like.

use crate::accounting::speck;
use crate::binary64::Binary64;
use crate::errors::{
    amount, lemma_add_error, lemma_amount_neg, lemma_amount_one, lemma_amount_order,
    lemma_amount_zero, lemma_count, lemma_div_error, lemma_mul_error, lemma_near, lemma_ratio_error,
    lemma_sizes, lemma_sub_error, lemma_tiny, lemma_unit, near, tiny, ulp,
};
use crate::fit::{
    credit_at, finished, fitted, fragment_line, word_extent, word_line, Extent, FragmentMetrics,
};
use crate::hyphenated::{inner_nodes, metrics, nodes_of, nodes_to, Node};
use crate::model::{Line, Mode, Options, Paragraph};
use crate::numeric::{larger, truthy};
use crate::overflow::lemma_large;
use crate::signs::lemma_one;
use vstd::prelude::*;

verus! {

/// A line of words is as wide as its words and the spaces between them, counts
/// the characters of both, hangs by what its last word and the policy allow, and
/// opens by what its first word and the policy allow: measured margins take the
/// place of the quotation mark. Only the line that ends with the last word is
/// the last.
pub proof fn law_words_make_a_line(
    p: Paragraph,
    start: int,
    end: int,
    width: Binary64,
    o: Options,
    e: bool,
)
    requires
        p.valid(),
        0 <= start < end <= p.words.len(),
        p.words.len() < 9_007_199_254_740_992,
        p.widths[start].is_finite() && p.widths[end].is_finite() && p.space.is_finite(),
        0real <= amount(p.space),
        0real <= amount(p.widths[start]) <= amount(p.widths[end]),
        amount(p.widths[end]) + ((end - start) as real) * amount(p.space)
            <= 1000000000000000000000real,
    ensures
        ({
            let line = word_line(p, start, end, width, o, e);
            let gaps = (end - start - 1) as real;
            let exact = amount(p.widths[end]) - amount(p.widths[start]) + gaps * amount(p.space);
            &&& line.natural.is_finite()
            &&& near(amount(line.natural), exact, 8real * (ulp() * exact) + 8real * speck())
            &&& line.start == start && line.end == end && line.width == width
            &&& line.last == (end == p.words.len())
            &&& line.hanging == larger(
                p.end_hangs[end - 1] * o.hanging,
                (match credit_at(p.end_protrusions, end - 1) {
                    Some(credit) => credit,
                    None => Binary64::zero(),
                }) * o.protrusion,
            )
            &&& line.opening == match credit_at(p.start_protrusions, start) {
                Some(credit) => credit * o.protrusion,
                None => p.start_hangs[start] * o.opening,
            }
            &&& line.start_offset is None && line.end_offset is None && line.hyphenated is None
            &&& word_extent(p, start, end, o).chars == p.characters[end] - p.characters[start]
                + Binary64::from_count((end - start - 1) as usize)
            &&& word_extent(p, start, end, o).continued == (start > 0)
        }),
{
    let count = Binary64::from_count((end - start - 1) as usize);
    lemma_count((end - start - 1) as usize);
    lemma_unit();
    lemma_large();
    lemma_tiny(1real);
    let (a, b, sp) = (amount(p.widths[start]), amount(p.widths[end]), amount(p.space));
    let (g, d) = ((end - start - 1) as real, (end - start) as real);
    let gs = g * sp;
    assert(0real <= gs <= d * sp) by (nonlinear_arith)
        requires
            gs == g * sp,
            0real <= g <= d,
            0real <= sp,
    ;
    lemma_sizes(b - a, 0real);
    lemma_sizes(gs, 0real);
    lemma_sub_error(p.widths[end], p.widths[start]);
    let diff = p.widths[end] - p.widths[start];
    lemma_near(amount(diff), b - a, ulp() * (b - a));
    lemma_mul_error(count, p.space);
    let spaces = count * p.space;
    lemma_near(amount(spaces), gs, ulp() * gs + tiny());
    lemma_sizes(amount(diff), amount(spaces));
    lemma_sizes(amount(spaces), 0real);
    lemma_sizes(amount(diff) + amount(spaces), 0real);
    lemma_add_error(diff, spaces);
}

/// Classes go by the share of its flexibility by which a line is off. A line
/// that is tightened by more than half of what its spaces and letters can lose
/// is tight; one that is off by less than half is decent; one that is opened by
/// more than half of what they can gain is loose, and beyond all of it very
/// loose.
pub proof fn law_classes_go_by_flexibility(
    start: usize,
    end: usize,
    x: Extent,
    space: Binary64,
    width: Binary64,
    o: Options,
    e: bool,
)
    requires
        !x.last,
        ({
            let delta = width + x.hanging + x.opening - x.natural;
            let count = Binary64::from_count(x.gaps);
            let loose = count * space * o.stretch + x.chars * o.tracking;
            let tight = count * space * o.shrink + x.chars * o.tracking;
            &&& delta.is_finite() && loose.is_finite() && tight.is_finite()
            &&& amount(loose) >= 1real / 1000000000real && amount(tight) >= 1real / 1000000000real
            &&& -1000000000000000000real <= amount(delta) <= 1000000000000000000real
        }),
    ensures
        ({
            let d = amount(width + x.hanging + x.opening - x.natural);
            let count = Binary64::from_count(x.gaps);
            let loose = amount(count * space * o.stretch + x.chars * o.tracking);
            let tight = amount(count * space * o.shrink + x.chars * o.tracking);
            let class = fitted(start, end, x, space, width, o, e).fitness;
            &&& d < 0real && 1000real * d <= -501real * tight ==> class == Some(0i32)
            &&& d < 0real && 1000real * d >= -499real * tight ==> class == Some(1i32)
            &&& d >= 0real && 1000real * d <= 499real * loose ==> class == Some(1i32)
            &&& d >= 0real && 501real * loose <= 1000real * d <= 999real * loose ==> class == Some(
                2i32,
            )
            &&& d >= 0real && 1000real * d >= 1001real * loose ==> class == Some(3i32)
        }),
{
    let delta = width + x.hanging + x.opening - x.natural;
    let count = Binary64::from_count(x.gaps);
    let loose = count * space * o.stretch + x.chars * o.tracking;
    let tight = count * space * o.shrink + x.chars * o.tracking;
    let zero = Binary64::zero();
    lemma_amount_zero();
    lemma_amount_one();
    lemma_one();
    lemma_unit();
    lemma_large();
    lemma_tiny(1real);
    lemma_amount_order(zero, delta);
    let all = if delta.ge(zero) {
        loose
    } else {
        tight
    };
    let (d, a) = (amount(delta), amount(all));
    lemma_amount_order(all, zero);
    assert(truthy(all));
    let q = d / a;
    assert(q * a == d && -1000000000000000000000000000real <= q <= 1000000000000000000000000000real)
        by (nonlinear_arith)
        requires
            q == d / a,
            a >= 1real / 1000000000real,
            -1000000000000000000real <= d <= 1000000000000000000real,
    ;
    lemma_sizes(q, 0real);
    lemma_div_error(delta, all);
    let share = delta / all;
    let s = amount(share);
    let half = Binary64::ratio(1, 2);
    lemma_ratio_error(1, 2);
    assert(1u64 as real == 1real && 2u64 as real == 2real);
    lemma_amount_neg(half);
    lemma_amount_order(share, -half);
    lemma_amount_order(share, half);
    lemma_amount_order(share, Binary64::one());
    assert(1000real * d <= -501real * a ==> 1000real * q <= -501real) by (nonlinear_arith)
        requires
            q * a == d,
            a > 0real,
    ;
    assert(1000real * d >= -499real * a ==> 1000real * q >= -499real) by (nonlinear_arith)
        requires
            q * a == d,
            a > 0real,
    ;
    assert(1000real * d <= 499real * a ==> 1000real * q <= 499real) by (nonlinear_arith)
        requires
            q * a == d,
            a > 0real,
    ;
    assert(1000real * d >= 501real * a ==> 1000real * q >= 501real) by (nonlinear_arith)
        requires
            q * a == d,
            a > 0real,
    ;
    assert(1000real * d <= 999real * a ==> 1000real * q <= 999real) by (nonlinear_arith)
        requires
            q * a == d,
            a > 0real,
    ;
    assert(1000real * d >= 1001real * a ==> 1000real * q >= 1001real) by (nonlinear_arith)
        requires
            q * a == d,
            a > 0real,
    ;
    assert(d < 0real ==> q <= 0real) by (nonlinear_arith)
        requires
            q * a == d,
            a > 0real,
    ;
    assert(d >= 0real ==> q >= 0real) by (nonlinear_arith)
        requires
            q * a == d,
            a > 0real,
    ;
    assert(crate::fit::shortfall(x, width) == delta);
    assert(crate::fit::capacity(x, space, delta, o) == all);
}

/// An emergency changes what a line costs and nothing else.
pub proof fn law_emergency_changes_only_costs(
    start: usize,
    end: usize,
    x: Extent,
    space: Binary64,
    width: Binary64,
    o: Options,
)
    ensures
        ({
            let calm = fitted(start, end, x, space, width, o, false);
            let pressed = fitted(start, end, x, space, width, o, true);
            pressed == Line { cost: pressed.cost, ..calm }
        }),
{
}

/// Ordinary fitting gives up, in a balanced policy with emergency stretch, every
/// line that leaves more than a hundredth over, and every line that would have
/// to open beyond the cube root of two times its flexibility and a hundredth.
pub proof fn law_ordinary_fitting_gives_up(
    start: usize,
    end: usize,
    x: Extent,
    space: Binary64,
    width: Binary64,
    o: Options,
)
    requires
        o.mode == Mode::Balanced,
        o.emergency_stretch.gt(Binary64::zero()),
    ensures
        ({
            let line = fitted(start, end, x, space, width, o, false);
            let delta = width + x.hanging + x.opening - x.natural;
            let loose = Binary64::from_count(x.gaps) * space * o.stretch + x.chars * o.tracking;
            let root = Binary64::ratio(12_599_210_498_948_732, 10_000_000_000_000_000);
            let slight = Binary64::ratio(1, 100);
            &&& line.residual.abs().gt(slight) ==> line.cost == Binary64::infinity()
            &&& !x.last && delta.gt(Binary64::zero()) && delta.gt(loose * root + slight)
                ==> line.cost == Binary64::infinity()
        }),
{
}

/// Finishing leaves strict lines, lines without gaps and lines that leave
/// nothing over as they are; else it moves what is left over into the spaces, no
/// further than the shrink limit, and says so where a space changes by more
/// than one part in a thousand million. It changes nothing else.
pub proof fn law_finishing_moves_the_rest(line: Line, space: Binary64, o: Options)
    requires
        line.start < line.end,
    ensures
        ({
            let done = finished(line, space, o);
            let gaps = (line.end - line.start - 1) as usize;
            let change = (done.word_spacing - line.word_spacing).abs();
            let little = Binary64::ratio(1, 1_000_000_000);
            let still = o.mode == Mode::Strict || gaps == 0 || line.residual.same(
                Binary64::zero(),
            );
            &&& still ==> done == line
            &&& !still ==> done.relaxed == change.gt(little)
            &&& !still ==> done.residual == Binary64::zero() || !done.residual.abs().lt(little)
            &&& !still ==> done.word_spacing == larger(
                -space * o.shrink,
                line.word_spacing + line.residual / Binary64::from_count(gaps),
            )
            &&& done == Line {
                relaxed: done.relaxed,
                residual: done.residual,
                word_spacing: done.word_spacing,
                ..line
            }
        }),
{
}

/// A drawn hyphen counts as a character of its line; one of the source is
/// counted already.
pub proof fn law_drawn_hyphens_count(
    p: Paragraph,
    a: Node,
    b: Node,
    first: bool,
    last: bool,
)
    requires
        b.offset > 0,
        a.word == b.word,
        p.fragments_of(a.word as int) is Some,
    ensures
        ({
            let f = p.fragments_of(a.word as int)->0;
            let known = f.characters[a.part * f.offsets.len() + b.part];
            let more: usize = if f.explicit_at(b.part as int) {
                0
            } else {
                1
            };
            metrics(p, a, b, first, last).chars == known + Binary64::from_count(more)
        }),
{
}

/// A line of given metrics is as they say: its natural width and whether it is
/// the last, its hanging credit the larger of the punctuation's and the margin's
/// by the policy, and its opening credit the margin's where there is one, else
/// the quotation mark's.
pub proof fn law_metrics_make_a_line(
    p: Paragraph,
    start: int,
    end: int,
    width: Binary64,
    o: Options,
    e: bool,
    f: FragmentMetrics,
)
    requires
        0 <= start < end <= usize::MAX,
    ensures
        ({
            let line = fragment_line(p, start, end, width, o, e, f);
            &&& line.natural == f.natural && line.last == f.last && line.width == width
            &&& line.start == start && line.end == end
            &&& line.hanging == larger(
                f.hanging * o.hanging,
                (match f.end_protrusion {
                    Some(credit) => credit,
                    None => Binary64::zero(),
                }) * o.protrusion,
            )
            &&& line.opening == match f.start_protrusion {
                Some(credit) => credit * o.protrusion,
                None => f.opening * o.opening,
            }
            &&& line.tracking == fitted(
                start as usize,
                end as usize,
                Extent {
                    gaps: (end - start - 1) as usize,
                    chars: f.chars,
                    natural: f.natural,
                    last: f.last,
                    continued: f.continued,
                    hanging: line.hanging,
                    opening: line.opening,
                },
                p.space,
                width,
                o,
                e,
            ).tracking
        }),
{
}

/// Every place where a line may break is looked at: the end of every word, and
/// every boundary inside a word, with its offset and whether the source has the
/// hyphen. The first is the start of the paragraph.
pub proof fn law_every_boundary_is_looked_at(p: Paragraph, word: int)
    requires
        p.valid(),
        0 <= word < p.words.len(),
    ensures
        nodes_of(p)[0].word == 0 && nodes_of(p)[0].offset == 0,
        exists|i: int|
            0 <= i < nodes_of(p).len() && (#[trigger] nodes_of(p)[i]).word == word + 1
                && nodes_of(p)[i].offset == 0,
        forall|k: int|
            p.fragments_of(word) is Some && 0 < k < p.fragments_of(word)->0.offsets.len() - 1
                ==> has_node(
                p,
                word,
                k,
                #[trigger] p.fragments_of(word)->0.offsets[k],
                p.fragments_of(word)->0.explicit_at(k),
            ),
{
    lemma_first_node(p, p.words.len());
    lemma_all_nodes(p, p.words.len(), word);
    let nodes = nodes_of(p);
    assert(nodes == nodes_to(p, p.words.len()));
    assert forall|k: int|
        p.fragments_of(word) is Some && 0 < k < p.fragments_of(word)->0.offsets.len()
            - 1 implies has_node(
        p,
        word,
        k,
        #[trigger] p.fragments_of(word)->0.offsets[k],
        p.fragments_of(word)->0.explicit_at(k),
    ) by {
        lemma_inner_node(p, p.words.len(), word, k);
    }
}

/// A break inside a word is among those that are looked at.
pub open spec fn has_node(p: Paragraph, word: int, part: int, at: usize, own: bool) -> bool {
    exists|i: int|
        0 <= i < nodes_of(p).len() && (#[trigger] nodes_of(p)[i]).word == word && nodes_of(
            p,
        )[i].part == part && nodes_of(p)[i].offset == at && nodes_of(p)[i].explicit == own
}

proof fn lemma_first_node(p: Paragraph, n: nat)
    ensures
        nodes_to(p, n).len() > 0,
        nodes_to(p, n)[0].word == 0 && nodes_to(p, n)[0].offset == 0,
    decreases n,
{
    if n > 0 {
        lemma_first_node(p, (n - 1) as nat);
    }
}

proof fn lemma_all_nodes(p: Paragraph, n: nat, word: int)
    requires
        p.valid(),
        0 <= word < n <= p.words.len(),
    ensures
        exists|i: int|
            0 <= i < nodes_to(p, n).len() && (#[trigger] nodes_to(p, n)[i]).word == word + 1
                && nodes_to(p, n)[i].offset == 0,
    decreases n,
{
    let m = (n - 1) as nat;
    let (before, all) = (nodes_to(p, m), nodes_to(p, n));
    lemma_first_node(p, m);
    if word < m {
        lemma_all_nodes(p, m, word);
        let i = choose|i: int|
            0 <= i < before.len() && (#[trigger] before[i]).word == word + 1 && before[i].offset
                == 0;
        assert(all[i] == before[i]);
    } else {
        assert(all[all.len() - 1].word == word + 1 && all[all.len() - 1].offset == 0);
    }
}

proof fn lemma_inner_node(p: Paragraph, n: nat, word: int, k: int)
    requires
        p.valid(),
        0 <= word < n <= p.words.len(),
        p.fragments_of(word) is Some,
        0 < k < p.fragments_of(word)->0.offsets.len() - 1,
    ensures
        exists|i: int|
            0 <= i < nodes_to(p, n).len() && (#[trigger] nodes_to(p, n)[i]).word == word
                && nodes_to(p, n)[i].part == k && nodes_to(p, n)[i].offset == p.fragments_of(
                word,
            )->0.offsets[k] && nodes_to(p, n)[i].explicit == p.fragments_of(word)->0.explicit_at(k),
    decreases n,
{
    let m = (n - 1) as nat;
    let (before, all) = (nodes_to(p, m), nodes_to(p, n));
    lemma_first_node(p, m);
    let f = p.fragments_of(word)->0;
    if word < m {
        lemma_inner_node(p, m, word, k);
        let i = choose|i: int|
            0 <= i < before.len() && (#[trigger] before[i]).word == word && before[i].part == k
                && before[i].offset == f.offsets[k] && before[i].explicit == f.explicit_at(k);
        assert(all[i] == before[i]);
    } else {
        let i = before.len() + k - 1;
        let inner = inner_nodes(p, word);
        assert(inner[k - 1].part == k);
        assert(all[i] == inner[k - 1]);
    }
}

}
