//! Fitting one candidate line: its spacing, what it leaves over, and its cost.

use crate::binary64::Binary64;
use crate::model::{Ending, Line, Mode, Options, Paragraph, Prepared};
use crate::numeric::{cube, js_max, js_min, js_sign, square, truthy};
use vstd::prelude::*;

verus! {

/// Metrics of a partially measured line, supplied by the hyphenated solver.
#[derive(Debug, Clone, Copy, PartialEq)]
pub struct FragmentMetrics {
    pub natural: Binary64,
    pub chars: Binary64,
    pub last: bool,
    pub hanging: Binary64,
    pub opening: Binary64,
    pub continued: bool,
    pub start_protrusion: Option<Binary64>,
    pub end_protrusion: Option<Binary64>,
}

/// What is measured of a line before it is fitted.
#[derive(Debug, Clone, Copy, PartialEq)]
pub struct Extent {
    /// The gaps between words.
    pub gaps: usize,
    /// The characters, spaces included.
    pub chars: Binary64,
    /// The width at natural spacing.
    pub natural: Binary64,
    /// True of the line that ends the paragraph.
    pub last: bool,
    /// True of a line that follows another.
    pub continued: bool,
    /// The credit beyond the right margin.
    pub hanging: Binary64,
    /// The credit beyond the left margin.
    pub opening: Binary64,
}

/// The credit of an optional table at `i`.
pub open spec fn credit_at(credits: Option<Seq<Binary64>>, i: int) -> Option<Binary64> {
    match credits {
        Some(credits) => Some(credits[i]),
        None => None,
    }
}

/// Hanging credit: punctuation or the optical margin, whichever is larger.
pub open spec fn hanging_credit(base: Binary64, protrusion: Option<Binary64>, o: Options) -> Binary64 {
    js_max(
        base * o.hanging,
        (match protrusion {
            Some(credit) => credit,
            None => Binary64::zero(),
        }) * o.protrusion,
    )
}

/// Opening credit: the optical margin where there is one, else the quote.
pub open spec fn opening_credit(base: Binary64, protrusion: Option<Binary64>, o: Options) -> Binary64 {
    match protrusion {
        Some(credit) => credit * o.protrusion,
        None => base * o.opening,
    }
}

/// The extent of the words from `start` to `end`.
pub open spec fn word_extent(p: Paragraph, start: int, end: int, o: Options) -> Extent {
    let gaps = (end - start - 1) as usize;
    let count = Binary64::from_count(gaps);
    Extent {
        gaps,
        chars: p.characters[end] - p.characters[start] + count,
        natural: p.widths[end] - p.widths[start] + count * p.space,
        last: end == p.words.len(),
        continued: start > 0,
        hanging: hanging_credit(p.end_hangs[end - 1], credit_at(p.end_protrusions, end - 1), o),
        opening: opening_credit(p.start_hangs[start], credit_at(p.start_protrusions, start), o),
    }
}

/// The extent of a line with given metrics.
pub open spec fn fragment_extent(f: FragmentMetrics, gaps: usize, o: Options) -> Extent {
    Extent {
        gaps,
        chars: f.chars,
        natural: f.natural,
        last: f.last,
        continued: f.continued,
        hanging: hanging_credit(f.hanging, f.end_protrusion, o),
        opening: opening_credit(f.opening, f.start_protrusion, o),
    }
}

/// How far a line is from its target: positive to open it, negative to
/// tighten it. A last line that fits is left as it is.
pub open spec fn shortfall(x: Extent, width: Binary64) -> Binary64 {
    let target = width + x.hanging + x.opening;
    if x.last && x.natural.le(target) {
        Binary64::zero()
    } else {
        target - x.natural
    }
}

/// What the spaces of a line may give within the preferred limits.
pub open spec fn space_budget(x: Extent, space: Binary64, delta: Binary64, o: Options) -> Binary64 {
    Binary64::from_count(x.gaps) * space * (if delta.ge(Binary64::zero()) {
        o.stretch
    } else {
        o.shrink
    })
}

/// What a line may give within the preferred limits.
pub open spec fn capacity(x: Extent, space: Binary64, delta: Binary64, o: Options) -> Binary64 {
    space_budget(x, space, delta, o) + x.chars * o.tracking
}

/// The part of the capacity that a line uses, at most all of it.
pub open spec fn used(delta: Binary64, capacity: Binary64) -> Binary64 {
    if truthy(capacity) {
        js_min(Binary64::one(), delta.abs() / capacity)
    } else {
        Binary64::zero()
    }
}

/// A line fitted within the preferred limits, not yet finished.
pub open spec fn preferred(
    start: usize,
    end: usize,
    x: Extent,
    space: Binary64,
    width: Binary64,
    o: Options,
) -> Line {
    let delta = shortfall(x, width);
    let budget = space_budget(x, space, delta, o);
    let all = capacity(x, space, delta, o);
    let ratio = used(delta, all);
    let sign = js_sign(delta);
    Line {
        start,
        end,
        width,
        natural: x.natural,
        word_spacing: if x.gaps != 0 {
            sign * ratio * budget / Binary64::from_count(x.gaps)
        } else {
            Binary64::zero()
        },
        tracking: sign * ratio * o.tracking,
        hanging: x.hanging,
        opening: x.opening,
        residual: delta - sign * ratio * all,
        relaxed: false,
        cost: Binary64::zero(),
        last: x.last,
        start_offset: None,
        end_offset: None,
        hyphenated: None,
        fitness: Some(fitness_class(delta, all)),
    }
}

/// 0 tight, 1 decent, 2 loose, 3 very loose.
pub open spec fn fitness_class(delta: Binary64, capacity: Binary64) -> i32 {
    let half = Binary64::ratio(1, 2);
    let unbounded = if truthy(capacity) {
        delta / capacity
    } else if delta.same(Binary64::zero()) {
        Binary64::zero()
    } else {
        js_sign(delta) * Binary64::infinity()
    };
    if unbounded.lt(-half) {
        0
    } else if unbounded.le(half) {
        1
    } else if unbounded.le(Binary64::one()) {
        2
    } else {
        3
    }
}

/// The cost of what a line leaves over.
#[verifier::allow_in_spec]
pub fn overflow_cost(residual: Binary64, mode: Mode) -> (r: Binary64)
    returns
        (if mode == Mode::Balanced {
            Binary64::ratio(1_000_000, 1) + residual * residual * Binary64::ratio(10_000, 1)
        } else {
            Binary64::ratio(10_000, 1) + residual * residual * Binary64::ratio(100, 1)
        }),
{
    if mode == Mode::Balanced {
        Binary64::ratio(1_000_000, 1) + residual * residual * Binary64::ratio(10_000, 1)
    } else {
        Binary64::ratio(10_000, 1) + residual * residual * Binary64::ratio(100, 1)
    }
}

/// The word spacing that completes a line, bounded by the shrink limit.
pub open spec fn finished_spacing(line: Line, space: Binary64, o: Options) -> Binary64 {
    js_max(
        -space * o.shrink,
        line.word_spacing + line.residual / Binary64::from_count(
            (line.end - line.start - 1) as usize,
        ),
    )
}

/// A line whose spaces take up what is left over: they expand to complete a
/// line, or contract within the shrink limit. A strict policy, a line without
/// gaps, and a line that leaves nothing over stay as they are.
pub open spec fn finished(line: Line, space: Binary64, o: Options) -> Line {
    let gaps = (line.end - line.start - 1) as usize;
    if o.mode == Mode::Strict || gaps == 0 || line.residual.same(Binary64::zero()) {
        line
    } else {
        let tiny = Binary64::ratio(1, 1_000_000_000);
        let spacing = finished_spacing(line, space, o);
        let adjustment = spacing - line.word_spacing;
        let residual = line.residual - adjustment * Binary64::from_count(gaps);
        Line {
            relaxed: adjustment.abs().gt(tiny),
            residual: if residual.abs().lt(tiny) {
                Binary64::zero()
            } else {
                residual
            },
            word_spacing: spacing,
            ..line
        }
    }
}

/// The price of the strain on the spacing of a line.
pub open spec fn strain(
    line: Line,
    x: Extent,
    space: Binary64,
    o: Options,
    emergency: bool,
) -> Binary64 {
    let hundred = Binary64::ratio(100, 1);
    let delta = shortfall(x, line.width);
    let all = capacity(x, space, delta, o);
    let ratio = used(delta, all);
    if emergency && delta.gt(Binary64::zero()) {
        hundred * cube(delta / (all + line.width * o.emergency_stretch))
    } else if o.mode == Mode::Balanced {
        hundred * cube(
            ratio + line.residual.abs() / js_max(
                all,
                js_max(Binary64::from_count(x.gaps) * space, space),
            ),
        )
    } else {
        ratio * ratio * ratio * hundred
    }
}

/// The price of a short last line.
pub open spec fn ending_cost(x: Extent, space: Binary64, width: Binary64, o: Options) -> Binary64 {
    let missing = js_max(Binary64::zero(), o.last_line * width - x.natural);
    if x.last && x.continued {
        match o.ending {
            Ending::Fit => o.widow_penalty / Binary64::ratio(300, 1) * js_min(
                Binary64::ratio(10_000, 1),
                Binary64::ratio(100, 1) * cube(
                    missing / js_max(
                        space,
                        Binary64::from_count(x.gaps) * space * o.stretch + x.chars * o.tracking,
                    ),
                ),
            ),
            Ending::Soft => o.widow_penalty * square(missing / width),
        }
    } else {
        Binary64::zero()
    }
}

/// The price of what is still left over once a line is finished.
pub open spec fn failure_cost(remaining: Binary64, mode: Mode) -> Binary64 {
    if remaining.abs().gt(Binary64::ratio(1, 100)) {
        overflow_cost(
            remaining,
            if remaining.lt(Binary64::zero()) {
                mode
            } else {
                Mode::Strict
            },
        )
    } else {
        Binary64::zero()
    }
}

/// True when ordinary fitting gives a line up: the policy has emergency
/// stretch to offer, and the line is too loose or leaves something over.
pub open spec fn given_up(
    remaining: Binary64,
    x: Extent,
    space: Binary64,
    width: Binary64,
    o: Options,
    emergency: bool,
) -> bool {
    let delta = shortfall(x, width);
    let slight = Binary64::ratio(1, 100);
    &&& o.mode == Mode::Balanced
    &&& o.emergency_stretch.gt(Binary64::zero())
    &&& !emergency
    &&& delta.gt(
        capacity(x, space, delta, o) * Binary64::ratio(12_599_210_498_948_732, 10_000_000_000_000_000)
            + slight,
    ) || remaining.abs().gt(slight)
}

/// The cost of a line with extent `x`, fitted as `line` and finished with
/// `remaining` left over.
pub open spec fn line_cost(
    line: Line,
    remaining: Binary64,
    x: Extent,
    space: Binary64,
    o: Options,
    emergency: bool,
) -> Binary64 {
    if given_up(remaining, x, space, line.width, o, emergency) {
        Binary64::infinity()
    } else {
        Binary64::one() + strain(line, x, space, o, emergency) * (if shortfall(x, line.width).lt(
            Binary64::zero(),
        ) {
            o.compression_penalty
        } else {
            Binary64::one()
        }) + failure_cost(remaining, o.mode) + ending_cost(x, space, line.width, o)
    }
}

/// A line with extent `x`, fitted to `width`, finished and priced.
pub open spec fn fitted(
    start: usize,
    end: usize,
    x: Extent,
    space: Binary64,
    width: Binary64,
    o: Options,
    emergency: bool,
) -> Line {
    let line = preferred(start, end, x, space, width, o);
    let done = finished(line, space, o);
    Line { cost: line_cost(line, done.residual, x, space, o, emergency), ..done }
}

/// The line of the words from `start` to `end`.
pub open spec fn word_line(
    p: Paragraph,
    start: int,
    end: int,
    width: Binary64,
    o: Options,
    emergency: bool,
) -> Line {
    fitted(
        start as usize,
        end as usize,
        word_extent(p, start, end, o),
        p.space,
        width,
        o,
        emergency,
    )
}

/// The line of the words from `start` to `end`, with given metrics.
pub open spec fn fragment_line(
    p: Paragraph,
    start: int,
    end: int,
    width: Binary64,
    o: Options,
    emergency: bool,
    f: FragmentMetrics,
) -> Line {
    fitted(
        start as usize,
        end as usize,
        fragment_extent(f, (end - start - 1) as usize, o),
        p.space,
        width,
        o,
        emergency,
    )
}

/// Finish a candidate before scoring what it leaves over.
pub fn finish(line: Line, space: Binary64, o: &Options) -> (r: Line)
    requires
        line.start < line.end,
    ensures
        r == finished(line, space, *o),
{
    let gaps: usize = line.end - line.start - 1;
    if o.mode == Mode::Strict || gaps == 0 || line.residual.same(Binary64::zero()) {
        return line;
    }
    let tiny: Binary64 = Binary64::ratio(1, 1_000_000_000);
    let count: Binary64 = Binary64::from_count(gaps);
    let spacing: Binary64 = js_max(
        space.opposite() * o.shrink,
        line.word_spacing + line.residual / count,
    );
    let adjustment: Binary64 = spacing - line.word_spacing;
    let residual: Binary64 = line.residual - adjustment * count;
    Line {
        relaxed: adjustment.abs().gt(tiny),
        residual: if residual.abs().lt(tiny) {
            Binary64::zero()
        } else {
            residual
        },
        word_spacing: spacing,
        ..line
    }
}

/// What fitting a line computes first.
#[derive(Clone, Copy)]
struct Terms {
    /// How far the line is from its target.
    delta: Binary64,
    /// What its spaces may give.
    budget: Binary64,
    /// What it may give.
    all: Binary64,
    /// The part of that which it uses.
    ratio: Binary64,
}

impl Terms {
    /// The terms belong to this line.
    spec fn of(self, x: Extent, space: Binary64, width: Binary64, o: Options) -> bool {
        &&& self.delta == shortfall(x, width)
        &&& self.budget == space_budget(x, space, self.delta, o)
        &&& self.all == capacity(x, space, self.delta, o)
        &&& self.ratio == used(self.delta, self.all)
    }
}

/// The terms of a line.
fn terms_of(x: &Extent, space: Binary64, width: Binary64, o: &Options) -> (t: Terms)
    ensures
        t.of(*x, space, width, *o),
{
    let target: Binary64 = width + x.hanging + x.opening;
    let delta: Binary64 = if x.last && x.natural.le(target) {
        Binary64::zero()
    } else {
        target - x.natural
    };
    let budget: Binary64 = Binary64::from_count(x.gaps) * space * (if delta.ge(Binary64::zero()) {
        o.stretch
    } else {
        o.shrink
    });
    let all: Binary64 = budget + x.chars * o.tracking;
    let ratio: Binary64 = if truthy(all) {
        js_min(Binary64::one(), delta.abs() / all)
    } else {
        Binary64::zero()
    };
    Terms { delta, budget, all, ratio }
}

/// The fitness class of a line.
fn fitness_of(delta: Binary64, all: Binary64) -> (r: i32)
    ensures
        r == fitness_class(delta, all),
{
    let half: Binary64 = Binary64::ratio(1, 2);
    let unbounded: Binary64 = if truthy(all) {
        delta / all
    } else if delta.same(Binary64::zero()) {
        Binary64::zero()
    } else {
        js_sign(delta) * Binary64::infinity()
    };
    if unbounded.lt(half.opposite()) {
        0
    } else if unbounded.le(half) {
        1
    } else if unbounded.le(Binary64::one()) {
        2
    } else {
        3
    }
}

/// Fit a line within the preferred limits.
fn prefer(
    start: usize,
    end: usize,
    x: &Extent,
    t: &Terms,
    space: Ghost<Binary64>,
    width: Binary64,
    o: &Options,
) -> (r: Line)
    requires
        t.of(*x, space@, width, *o),
    ensures
        r == preferred(start, end, *x, space@, width, *o),
{
    let sign: Binary64 = js_sign(t.delta);
    Line {
        start,
        end,
        width,
        natural: x.natural,
        word_spacing: if x.gaps != 0 {
            sign * t.ratio * t.budget / Binary64::from_count(x.gaps)
        } else {
            Binary64::zero()
        },
        tracking: sign * t.ratio * o.tracking,
        hanging: x.hanging,
        opening: x.opening,
        residual: t.delta - sign * t.ratio * t.all,
        relaxed: false,
        cost: Binary64::zero(),
        last: x.last,
        start_offset: None,
        end_offset: None,
        hyphenated: None,
        fitness: Some(fitness_of(t.delta, t.all)),
    }
}

/// Price preferred-limit strain, but distinguish a fillable loose line from a
/// real overflow. Otherwise a narrow column can choose protruding words over a
/// feasible line simply because the latter needs wider spaces.
fn strain_of(
    line: &Line,
    x: &Extent,
    t: &Terms,
    space: Binary64,
    o: &Options,
    emergency: bool,
) -> (r: Binary64)
    requires
        t.of(*x, space, line.width, *o),
    ensures
        r == strain(*line, *x, space, *o, emergency),
{
    let hundred: Binary64 = Binary64::ratio(100, 1);
    if emergency && t.delta.gt(Binary64::zero()) {
        hundred * cube(t.delta / (t.all + line.width * o.emergency_stretch))
    } else if o.mode == Mode::Balanced {
        hundred * cube(
            t.ratio + line.residual.abs() / js_max(
                t.all,
                js_max(Binary64::from_count(x.gaps) * space, space),
            ),
        )
    } else {
        t.ratio * t.ratio * t.ratio * hundred
    }
}

/// Price a short last line. A one-word tail has little flexibility: missing
/// half the target should not cost less than a modestly tightened body line
/// merely because the page is wide.
fn ending_of(x: &Extent, space: Binary64, width: Binary64, o: &Options) -> (r: Binary64)
    ensures
        r == ending_cost(*x, space, width, *o),
{
    let missing: Binary64 = js_max(Binary64::zero(), o.last_line * width - x.natural);
    if x.last && x.continued {
        match o.ending {
            Ending::Fit => o.widow_penalty / Binary64::ratio(300, 1) * js_min(
                Binary64::ratio(10_000, 1),
                Binary64::ratio(100, 1) * cube(
                    missing / js_max(
                        space,
                        Binary64::from_count(x.gaps) * space * o.stretch + x.chars * o.tracking,
                    ),
                ),
            ),
            Ending::Soft => o.widow_penalty * square(missing / width),
        }
    } else {
        Binary64::zero()
    }
}

/// Price what is still left over.
fn failure_of(remaining: Binary64, mode: Mode) -> (r: Binary64)
    ensures
        r == failure_cost(remaining, mode),
{
    if remaining.abs().gt(Binary64::ratio(1, 100)) {
        overflow_cost(
            remaining,
            if remaining.lt(Binary64::zero()) {
                mode
            } else {
                Mode::Strict
            },
        )
    } else {
        Binary64::zero()
    }
}

/// Whether ordinary fitting gives a line up.
fn gives_up(
    remaining: Binary64,
    x: Ghost<Extent>,
    t: &Terms,
    space: Ghost<Binary64>,
    width: Ghost<Binary64>,
    o: &Options,
    emergency: bool,
) -> (r: bool)
    requires
        t.of(x@, space@, width@, *o),
    ensures
        r == given_up(remaining, x@, space@, width@, *o, emergency),
{
    let slight: Binary64 = Binary64::ratio(1, 100);
    let threshold: Binary64 = Binary64::ratio(12_599_210_498_948_732, 10_000_000_000_000_000);
    o.mode == Mode::Balanced && o.emergency_stretch.gt(Binary64::zero()) && !emergency && (
    t.delta.gt(t.all * threshold + slight) || remaining.abs().gt(slight))
}

/// Fit a line of known extent.
fn fit_extent(
    start: usize,
    end: usize,
    x: Extent,
    space: Binary64,
    width: Binary64,
    o: &Options,
    emergency: bool,
) -> (r: Line)
    requires
        start < end,
        x.gaps == end - start - 1,
    ensures
        r == fitted(start, end, x, space, width, *o, emergency),
{
    let t: Terms = terms_of(&x, space, width, o);
    let line: Line = prefer(start, end, &x, &t, Ghost(space), width, o);
    let done: Line = finish(line, space, o);
    let remaining: Binary64 = done.residual;
    let cost: Binary64 = if gives_up(
        remaining,
        Ghost(x),
        &t,
        Ghost(space),
        Ghost(width),
        o,
        emergency,
    ) {
        Binary64::infinity()
    } else {
        let factor: Binary64 = if t.delta.lt(Binary64::zero()) {
            o.compression_penalty
        } else {
            Binary64::one()
        };
        Binary64::one() + strain_of(&line, &x, &t, space, o, emergency) * factor + failure_of(
            remaining,
            o.mode,
        ) + ending_of(&x, space, width, o)
    };
    Line { cost, ..done }
}

/// The hanging credit of a line.
fn hanging_of(base: Binary64, protrusion: Option<Binary64>, o: &Options) -> (r: Binary64)
    ensures
        r == hanging_credit(base, protrusion, *o),
{
    let credit: Binary64 = match protrusion {
        Some(credit) => credit,
        None => Binary64::zero(),
    };
    js_max(base * o.hanging, credit * o.protrusion)
}

/// The opening credit of a line.
fn opening_of(base: Binary64, protrusion: Option<Binary64>, o: &Options) -> (r: Binary64)
    ensures
        r == opening_credit(base, protrusion, *o),
{
    match protrusion {
        Some(credit) => credit * o.protrusion,
        None => base * o.opening,
    }
}

/// The credit of an optional table.
pub(crate) fn credit_of(credits: &Option<Vec<Binary64>>, i: usize) -> (r: Option<Binary64>)
    requires
        credits matches Some(v) ==> i < v.len(),
    ensures
        r == credit_at(crate::model::contents(*credits), i as int),
{
    match credits {
        Some(credits) => Some(credits[i]),
        None => None,
    }
}

/// Measure the words from `start` to `end`.
pub(crate) fn measure_words(p: &Prepared, start: usize, end: usize, o: &Options) -> (r: Extent)
    requires
        p@.valid(),
        start < end <= p@.words.len(),
    ensures
        r == word_extent(p@, start as int, end as int, *o),
{
    let gaps: usize = end - start - 1;
    let count: Binary64 = Binary64::from_count(gaps);
    Extent {
        gaps,
        chars: p.characters[end] - p.characters[start] + count,
        natural: p.widths[end] - p.widths[start] + count * p.space,
        last: end == p.words.len(),
        continued: start > 0,
        hanging: hanging_of(p.end_hangs[end - 1], credit_of(&p.end_protrusions, end - 1), o),
        opening: opening_at_word(p, start, o),
    }
}

/// The opening credit of a line that starts with a word.
pub(crate) fn opening_at_word(p: &Prepared, word: usize, o: &Options) -> (r: Binary64)
    requires
        p@.valid(),
        word < p@.words.len(),
    ensures
        r == opening_credit(
            p@.start_hangs[word as int],
            credit_at(p@.start_protrusions, word as int),
            *o,
        ),
{
    opening_of(p.start_hangs[word], credit_of(&p.start_protrusions, word), o)
}

/// Fit the words from `start` to `end` to a width.
pub fn fit(
    p: &Prepared,
    start: usize,
    end: usize,
    width: Binary64,
    o: &Options,
    emergency: bool,
    fragment: Option<FragmentMetrics>,
) -> (r: Line)
    requires
        p@.valid(),
        start < end <= p@.words.len(),
    ensures
        fragment is None ==> r == word_line(p@, start as int, end as int, width, *o, emergency),
        fragment matches Some(f) ==> r == fragment_line(
            p@,
            start as int,
            end as int,
            width,
            *o,
            emergency,
            f,
        ),
{
    let gaps: usize = end - start - 1;
    let x: Extent = match fragment {
        Some(f) => Extent {
            gaps,
            chars: f.chars,
            natural: f.natural,
            last: f.last,
            continued: f.continued,
            hanging: hanging_of(f.hanging, f.end_protrusion, o),
            opening: opening_of(f.opening, f.start_protrusion, o),
        },
        None => measure_words(p, start, end, o),
    };
    fit_extent(start, end, x, p.space, width, o, emergency)
}

}
