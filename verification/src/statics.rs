//! Build-time break selection: precomputed band plans for static rendering.

use crate::binary64::Binary64;
use crate::hyphenation::sliced;
use crate::laws::{accepted, law_lines_renderable, law_lines_tile};
use crate::model::{Error, Layout, Line, Measure, Mode, Options, Paragraph, Prepared};
use crate::numerals::{decimal, decimal_text, is_scientific, js_number_string, written};
use crate::render::{line_text, renderable, rendered};
use crate::sampling::{ends, next_measure, sample, sample_limit};
use crate::search::Grid;
use crate::solve::{best_layout, last_break, refusal, solvable, solve_with};
use crate::solver::countable;
use crate::text::{grapheme_count, grapheme_total};
use vstd::prelude::*;

verus! {

/// Compact per-line inputs for `static_spacing`, reusable across width bands.
#[derive(Debug, Clone, PartialEq)]
pub struct StaticLine {
    pub line: Line,
    /// Custom-property declarations for this line's spacing rules, in the
    /// order of their names.
    pub properties: Vec<(String, String)>,
}

/// One sampled measure band. `lines` is absent when the measure is unfit and
/// native wrapping should be retained.
#[derive(Debug, Clone, PartialEq)]
pub struct StaticBand {
    pub min: Binary64,
    pub max: Binary64,
    pub lines: Option<Vec<StaticLine>>,
}

/// A name and what it stands for.
pub type Declaration = (Seq<char>, Seq<char>);

/// The model of declarations.
pub open spec fn declarations(v: Seq<(String, String)>) -> Seq<Declaration> {
    v.map_values(|d: (String, String)| (d.0@, d.1@))
}

/// The model of `StaticLine`.
#[verifier::ext_equal]
pub struct LineRules {
    pub line: Line,
    pub properties: Seq<Declaration>,
}

impl View for StaticLine {
    type V = LineRules;

    open spec fn view(&self) -> LineRules {
        LineRules { line: self.line, properties: declarations(self.properties@) }
    }
}

/// The models of the lines of a band.
pub open spec fn rules_of(lines: Seq<StaticLine>) -> Seq<LineRules> {
    lines.map_values(|line: StaticLine| line@)
}

/// The model of `StaticBand`.
#[verifier::ext_equal]
pub struct Band {
    pub min: Binary64,
    pub max: Binary64,
    pub lines: Option<Seq<LineRules>>,
}

impl View for StaticBand {
    type V = Band;

    open spec fn view(&self) -> Band {
        Band {
            min: self.min,
            max: self.max,
            lines: match self.lines {
                Some(lines) => Some(rules_of(lines@)),
                None => None,
            },
        }
    }
}

/// The printer may round a number to so many places like this, and give these
/// digits for it.
pub open spec fn prints<F: Fn(Binary64, usize) -> (Binary64, String)>(
    print: &F,
    x: Binary64,
    places: usize,
    answer: (Binary64, Seq<char>),
) -> bool {
    exists|r: (Binary64, String)|
        (r.0, r.1@) == answer && #[trigger] print.ensures((x, places), r)
}

/// The number that the printer rounds to, and its digits.
pub open spec fn rounded_to<F: Fn(Binary64, usize) -> (Binary64, String)>(
    print: &F,
    x: Binary64,
    places: usize,
) -> (Binary64, Seq<char>) {
    choose|answer: (Binary64, Seq<char>)| prints(print, x, places, answer)
}

/// How a number is written, rounded to so many places.
pub open spec fn printed<F: Fn(Binary64, usize) -> (Binary64, String)>(
    print: &F,
    x: Binary64,
    places: usize,
) -> Seq<char> {
    written(rounded_to(print, x, places).0, rounded_to(print, x, places).1)
}

/// The printer takes every number, with 10 places and with 7, rounds equal
/// numbers alike, and gives digits in scientific notation.
pub open spec fn steady<F: Fn(Binary64, usize) -> (Binary64, String)>(print: &F) -> bool {
    &&& forall|x: Binary64, places: usize|
        places == 10 || places == 7 ==> #[trigger] print.requires((x, places))
    &&& forall|x: Binary64, places: usize, r: (Binary64, String), s: (Binary64, String)| #[trigger]
        print.ensures((x, places), r) && #[trigger] print.ensures((x, places), s) ==> r.0 == s.0
            && r.1@ == s.1@
    &&& forall|x: Binary64, places: usize, r: (Binary64, String)| #[trigger]
        print.ensures((x, places), r) && r.0.is_finite() && !r.0.same(Binary64::zero())
            ==> is_scientific(r.1@)
}

/// A number rounded to so many places, in plain decimal.
fn rounded_text<F: Fn(Binary64, usize) -> (Binary64, String)>(
    print: &F,
    x: Binary64,
    places: usize,
) -> (r: String)
    requires
        steady(print),
        places == 10 || places == 7,
    ensures
        r@ == printed(print, x, places),
{
    let r: (Binary64, String) = print(x, places);
    proof {
        assert(prints(print, x, places, (r.0, r.1@)));
        let s = rounded_to(print, x, places);
        assert(prints(print, x, places, s));
    }
    js_number_string(r.0, r.1.as_str())
}

/// A number rounded to 10 places, in plain decimal.
fn number<F: Fn(Binary64, usize) -> (Binary64, String)>(print: &F, x: Binary64) -> (r: String)
    requires
        steady(print),
    ensures
        r@ == printed(print, x, 10),
{
    rounded_text(print, x, 10)
}

/// A number rounded to 7 places, in plain decimal.
fn coefficient<F: Fn(Binary64, usize) -> (Binary64, String)>(print: &F, x: Binary64) -> (r: String)
    requires
        steady(print),
    ensures
        r@ == printed(print, x, 7),
{
    rounded_text(print, x, 7)
}

/// Adds a declaration.
fn declare(v: &mut Vec<(String, String)>, name: &str, value: String)
    ensures
        declarations(final(v)@) == declarations(old(v)@).push((name@, value@)),
{
    let ghost before = v@;
    let name: String = name.to_owned();
    v.push((name, value));
    assert(declarations(v@) =~= declarations(before).push((name@, value@)));
}

/// The declarations that every rendered line shares.
pub open spec fn spacing_rules<F: Fn(Binary64, usize) -> (Binary64, String)>(
    p: Paragraph,
    o: Options,
    print: &F,
) -> Seq<Declaration> {
    let tracking = printed(print, o.tracking, 10);
    seq![
        ("--j-cap"@, "1000000px"@),
        ("--j-d"@, "min(var(--j-cap), calc(100cqw - var(--j-n)))"@),
        ("--j-gap"@, "calc("@ + printed(print, p.space, 10) + "px + var(--j-t) + var(--j-s))"@),
        ("--j-left"@, "0px"@),
        (
            "--j-s"@,
            "max(-"@ + printed(print, p.space * o.shrink, 10)
                + "px, calc((var(--j-d) - var(--j-t) * var(--j-c)) / var(--j-g)))"@,
        ),
        (
            "--j-t"@,
            "clamp(-"@ + tracking
                + "px, calc(min(0px, var(--j-d)) * var(--j-m) + max(0px, var(--j-d)) * var(--j-p)), "@
                + tracking + "px)"@,
        ),
    ]
}

/// Declare these on each rendered word/fragment and gap. Keeping the expressions
/// shared avoids repeating the fitting algebra in every responsive line rule.
pub fn static_spacing<F: Fn(Binary64, usize) -> (Binary64, String)>(p: &Prepared, print: &F) -> (r: Vec<
    (String, String),
>)
    requires
        steady(print),
    ensures
        declarations(r@) == spacing_rules(p@, Options::published(), print),
{
    static_spacing_with(p, Options::default(), print)
}

/// `static_spacing` with an explicit policy.
pub fn static_spacing_with<F: Fn(Binary64, usize) -> (Binary64, String)>(
    p: &Prepared,
    policy: Options,
    print: &F,
) -> (r: Vec<(String, String)>)
    requires
        steady(print),
    ensures
        declarations(r@) == spacing_rules(p@, policy, print),
{
    let o: Options = policy;
    let mut properties: Vec<(String, String)> = Vec::new();
    declare(&mut properties, "--j-cap", "1000000px".to_owned());
    declare(
        &mut properties,
        "--j-d",
        "min(var(--j-cap), calc(100cqw - var(--j-n)))".to_owned(),
    );
    let mut gap: String = "calc(".to_owned();
    gap.append(number(print, p.space).as_str());
    gap.append("px + var(--j-t) + var(--j-s))");
    declare(&mut properties, "--j-gap", gap);
    declare(&mut properties, "--j-left", "0px".to_owned());
    let mut spacing: String = "max(-".to_owned();
    spacing.append(number(print, p.space * o.shrink).as_str());
    spacing.append("px, calc((var(--j-d) - var(--j-t) * var(--j-c)) / var(--j-g)))");
    declare(&mut properties, "--j-s", spacing);
    let mut tracking: String = "clamp(-".to_owned();
    tracking.append(number(print, o.tracking).as_str());
    tracking.append(
        "px, calc(min(0px, var(--j-d)) * var(--j-m) + max(0px, var(--j-d)) * var(--j-p)), ",
    );
    tracking.append(number(print, o.tracking).as_str());
    tracking.append("px)");
    declare(&mut properties, "--j-t", tracking);
    assert(declarations(properties@) =~= spacing_rules(p@, o, print));
    properties
}

/// The number of gaps of a line.
pub open spec fn gaps_of(line: Line) -> usize {
    (line.end - line.start - 1) as usize
}

/// The number of graphemes of a line as rendered.
pub open spec fn graphemes_of(p: Paragraph, line: Line) -> usize {
    grapheme_total(rendered(p, line)) as usize
}

/// What a line may give, with this flexibility of its spaces.
pub open spec fn budget(p: Paragraph, line: Line, flexibility: Binary64, o: Options) -> Binary64 {
    Binary64::from_count(gaps_of(line)) * p.space * flexibility + Binary64::from_count(
        graphemes_of(p, line),
    ) * o.tracking
}

/// The width of a line that its measure must hold.
pub open spec fn footprint(line: Line) -> Binary64 {
    line.natural - line.hanging - line.opening
}

/// The tracking for each pixel of a budget, nothing where there is none.
pub open spec fn share(tracking: Binary64, all: Binary64) -> Binary64 {
    if !all.same(Binary64::zero()) {
        tracking / all
    } else {
        Binary64::zero()
    }
}

/// The shortfall of a line, in container units.
pub open spec fn delta_text<F: Fn(Binary64, usize) -> (Binary64, String)>(line: Line, print: &F) -> Seq<char> {
    let target = "calc(100cqw - "@ + printed(print, footprint(line), 10) + "px)"@;
    if line.last {
        "min(0px, "@ + target + ")"@
    } else {
        target
    }
}

/// How far the spaces of a strict line contract.
pub open spec fn shrink_text<F: Fn(Binary64, usize) -> (Binary64, String)>(
    p: Paragraph,
    line: Line,
    o: Options,
    print: &F,
) -> Seq<char> {
    let tight = budget(p, line, o.shrink, o);
    if !tight.same(Binary64::zero()) {
        "clamp(-"@ + printed(print, p.space * o.shrink, 10) + "px, calc("@ + delta_text(line, print)
            + " * "@ + printed(print, p.space * o.shrink / tight, 10) + "), 0px)"@
    } else {
        "0px"@
    }
}

/// How far the spaces of a strict line expand.
pub open spec fn stretch_text<F: Fn(Binary64, usize) -> (Binary64, String)>(
    p: Paragraph,
    line: Line,
    o: Options,
    print: &F,
) -> Seq<char> {
    let loose = budget(p, line, o.stretch, o);
    if !loose.same(Binary64::zero()) {
        "clamp(0px, calc("@ + delta_text(line, print) + " * "@ + printed(
            print,
            p.space * o.stretch / loose,
            10,
        ) + "), "@ + printed(print, p.space * o.stretch, 10) + "px)"@
    } else {
        "0px"@
    }
}

/// The spacing of a line that does not follow the shared rule.
pub open spec fn own_spacing<F: Fn(Binary64, usize) -> (Binary64, String)>(
    p: Paragraph,
    line: Line,
    o: Options,
    print: &F,
) -> Seq<char> {
    if gaps_of(line) > 0 && o.mode == Mode::Strict {
        "calc("@ + shrink_text(p, line, o, print) + " + "@ + stretch_text(p, line, o, print) + ")"@
    } else {
        "0px"@
    }
}

/// Declarations, if a condition holds.
pub open spec fn only_if(condition: bool, name: Seq<char>, value: Seq<char>) -> Seq<Declaration> {
    if condition {
        seq![(name, value)]
    } else {
        seq![]
    }
}

/// The declarations of a line.
pub open spec fn line_rules<F: Fn(Binary64, usize) -> (Binary64, String)>(
    p: Paragraph,
    line: Line,
    o: Options,
    print: &F,
) -> Seq<Declaration> {
    let gaps = gaps_of(line);
    seq![("--j-c"@, decimal_text(graphemes_of(p, line) as nat))] + only_if(
        line.last,
        "--j-cap"@,
        "0px"@,
    ) + seq![
        (
            "--j-g"@,
            decimal_text(
                if gaps > 1 {
                    gaps as nat
                } else {
                    1
                },
            ),
        ),
    ] + only_if(
        !line.opening.same(Binary64::zero()),
        "--j-left"@,
        printed(print, -line.opening, 10) + "px"@,
    ) + seq![
        ("--j-m"@, printed(print, share(o.tracking, budget(p, line, o.shrink, o)), 7)),
        ("--j-n"@, printed(print, footprint(line), 10) + "px"@),
        ("--j-p"@, printed(print, share(o.tracking, budget(p, line, o.stretch, o)), 7)),
    ] + only_if(
        o.mode == Mode::Strict || gaps == 0,
        "--j-s"@,
        own_spacing(p, line, o, print),
    )
}

/// The shortfall of a line, in container units.
fn delta_of<F: Fn(Binary64, usize) -> (Binary64, String)>(line: &Line, print: &F) -> (r: String)
    requires
        steady(print),
    ensures
        r@ == delta_text(*line, print),
{
    let mut target: String = "calc(100cqw - ".to_owned();
    target.append(number(print, line.natural - line.hanging - line.opening).as_str());
    target.append("px)");
    if line.last {
        let mut r: String = "min(0px, ".to_owned();
        r.append(target.as_str());
        r.append(")");
        r
    } else {
        target
    }
}

/// The spacing of a line that does not follow the shared rule.
fn spacing_of<F: Fn(Binary64, usize) -> (Binary64, String)>(
    p: &Prepared,
    line: &Line,
    o: &Options,
    gaps: usize,
    tight: Binary64,
    loose: Binary64,
    print: &F,
) -> (r: String)
    requires
        steady(print),
        gaps == gaps_of(*line),
        tight == budget(p@, *line, o.shrink, *o),
        loose == budget(p@, *line, o.stretch, *o),
    ensures
        r@ == own_spacing(p@, *line, *o, print),
{
    if gaps == 0 || o.mode == Mode::Balanced {
        return "0px".to_owned();
    }
    let delta: String = delta_of(line, print);
    let shrink: String = if !tight.same(Binary64::zero()) {
        let mut s: String = "clamp(-".to_owned();
        s.append(number(print, p.space * o.shrink).as_str());
        s.append("px, calc(");
        s.append(delta.as_str());
        s.append(" * ");
        s.append(number(print, p.space * o.shrink / tight).as_str());
        s.append("), 0px)");
        s
    } else {
        "0px".to_owned()
    };
    let stretch: String = if !loose.same(Binary64::zero()) {
        let mut s: String = "clamp(0px, calc(".to_owned();
        s.append(delta.as_str());
        s.append(" * ");
        s.append(number(print, p.space * o.stretch / loose).as_str());
        s.append("), ");
        s.append(number(print, p.space * o.stretch).as_str());
        s.append("px)");
        s
    } else {
        "0px".to_owned()
    };
    let mut r: String = "calc(".to_owned();
    r.append(shrink.as_str());
    r.append(" + ");
    r.append(stretch.as_str());
    r.append(")");
    r
}

/// The tracking for each pixel of a budget.
fn share_of(tracking: Binary64, all: Binary64) -> (r: Binary64)
    ensures
        r == share(tracking, all),
{
    if !all.same(Binary64::zero()) {
        tracking / all
    } else {
        Binary64::zero()
    }
}

/// The same fit budgets as the numerical engine, expressed in container units.
/// Each participating piece/gap receives --j-t = tracking and --j-gap = gap.
/// The containing paragraph supplies container-type:inline-size.
pub fn static_line<F: Fn(Binary64, usize) -> (Binary64, String)>(p: &Prepared, line: &Line, print: &F) -> (r:
    StaticLine)
    requires
        line.start < line.end,
        renderable(p@, *line),
        steady(print),
    ensures
        r@ == (LineRules {
            line: *line,
            properties: line_rules(p@, *line, Options::published(), print),
        }),
{
    static_line_with(p, line, Options::default(), print)
}

/// `static_line` with an explicit policy.
pub fn static_line_with<F: Fn(Binary64, usize) -> (Binary64, String)>(
    p: &Prepared,
    line: &Line,
    policy: Options,
    print: &F,
) -> (r: StaticLine)
    requires
        line.start < line.end,
        renderable(p@, *line),
        steady(print),
    ensures
        r@ == (LineRules { line: *line, properties: line_rules(p@, *line, policy, print) }),
{
    let o: Options = policy;
    let gaps: usize = line.end - line.start - 1;
    let text: String = line_text(p, line);
    let chars: usize = grapheme_count(text.as_str());
    let loose: Binary64 = Binary64::from_count(gaps) * p.space * o.stretch + Binary64::from_count(
        chars,
    ) * o.tracking;
    let tight: Binary64 = Binary64::from_count(gaps) * p.space * o.shrink + Binary64::from_count(
        chars,
    ) * o.tracking;
    let mut properties: Vec<(String, String)> = Vec::new();
    declare(&mut properties, "--j-c", decimal(chars));
    if line.last {
        declare(&mut properties, "--j-cap", "0px".to_owned());
    }
    declare(
        &mut properties,
        "--j-g",
        decimal(
            if gaps > 1 {
                gaps
            } else {
                1
            },
        ),
    );
    if !line.opening.same(Binary64::zero()) {
        let mut left: String = number(print, line.opening.opposite());
        left.append("px");
        declare(&mut properties, "--j-left", left);
    }
    declare(&mut properties, "--j-m", coefficient(print, share_of(o.tracking, tight)));
    let mut natural: String = number(print, line.natural - line.hanging - line.opening);
    natural.append("px");
    declare(&mut properties, "--j-n", natural);
    declare(&mut properties, "--j-p", coefficient(print, share_of(o.tracking, loose)));
    if o.mode == Mode::Strict || gaps == 0 {
        declare(
            &mut properties,
            "--j-s",
            spacing_of(p, line, &o, gaps, tight, loose, print),
        );
    }
    assert(declarations(properties@) =~= line_rules(p@, *line, o, print));
    StaticLine { line: *line, properties }
}

/// An optional number in decimal digits.
pub open spec fn optional_text(n: Option<usize>) -> Seq<char> {
    match n {
        Some(n) => decimal_text(n as nat),
        None => "null"@,
    }
}

/// Where a line begins and ends, in writing.
pub open spec fn breaks_text(line: Line) -> Seq<char> {
    "["@ + decimal_text(line.start as nat) + ","@ + decimal_text(line.end as nat) + ","@
        + optional_text(line.start_offset) + ","@ + optional_text(line.end_offset) + "]"@
}

/// Where the first `count` lines begin and end, in writing.
pub open spec fn plan_text_to(lines: Seq<Line>, count: nat) -> Seq<char>
    decreases count,
{
    if count == 0 {
        "["@
    } else if count == 1 {
        plan_text_to(lines, 0) + breaks_text(lines[0])
    } else {
        plan_text_to(lines, (count - 1) as nat) + ","@ + breaks_text(lines[count - 1])
    }
}

/// Where lines begin and end, in writing.
pub open spec fn plan_text(lines: Seq<Line>) -> Seq<char> {
    plan_text_to(lines, lines.len()) + "]"@
}

/// Appends an optional number.
fn append_optional(r: &mut String, n: Option<usize>)
    ensures
        final(r)@ == old(r)@ + optional_text(n),
{
    match n {
        Some(n) => r.append(decimal(n).as_str()),
        None => r.append("null"),
    }
}

/// Where a line begins and ends.
fn break_key(line: &Line) -> (r: String)
    ensures
        r@ == breaks_text(*line),
{
    let mut r: String = "[".to_owned();
    r.append(decimal(line.start).as_str());
    r.append(",");
    r.append(decimal(line.end).as_str());
    r.append(",");
    append_optional(&mut r, line.start_offset);
    r.append(",");
    append_optional(&mut r, line.end_offset);
    r.append("]");
    r
}

/// Where lines begin and end: plans with equal keys break alike.
pub fn plan_key(lines: &Vec<Line>) -> (key: String)
    ensures
        key@ == plan_text(lines@),
{
    let mut key: String = "[".to_owned();
    let mut i: usize = 0;
    while i < lines.len()
        invariant
            i <= lines@.len(),
            key@ == plan_text_to(lines@, i as nat),
        decreases lines@.len() - i,
    {
        if i > 0 {
            key.append(",");
        }
        key.append(break_key(&lines[i]).as_str());
        i = i + 1;
    }
    key.append("]");
    key
}

/// A line leaves more than half a pixel over.
pub open spec fn unfit(line: Line) -> bool {
    line.residual.abs().gt(Binary64::ratio(1, 2))
}

/// No line leaves more than half a pixel over.
pub open spec fn all_fit(lines: Seq<Line>) -> bool {
    forall|i: int| 0 <= i < lines.len() ==> !unfit(#[trigger] lines[i])
}

/// Whether no line leaves more than half a pixel over.
fn fits(lines: &Vec<Line>) -> (r: bool)
    ensures
        r == all_fit(lines@),
{
    let half: Binary64 = Binary64::ratio(1, 2);
    let mut i: usize = 0;
    while i < lines.len()
        invariant
            half == Binary64::ratio(1, 2),
            i <= lines@.len(),
            forall|k: int| 0 <= k < i ==> !unfit(#[trigger] lines@[k]),
        decreases lines@.len() - i,
    {
        if lines[i].residual.abs().gt(half) {
            assert(unfit(lines@[i as int]));
            return false;
        }
        i = i + 1;
    }
    true
}

/// What tells one plan from another; all unfit ones are alike.
pub open spec fn key_of(lines: Seq<Line>) -> Seq<char> {
    if all_fit(lines) {
        plan_text(lines)
    } else {
        "native"@
    }
}

/// The lines of the layout at a measure.
pub open spec fn lines_at(p: Paragraph, o: Options, width: Binary64) -> Seq<Line> {
    best_layout(p, seq![width], o).lines
}

/// The band that begins with a measure.
#[verifier::opaque]
pub open spec fn band_at<F: Fn(Binary64, usize) -> (Binary64, String)>(
    p: Paragraph,
    o: Options,
    print: &F,
    width: Binary64,
    step: Binary64,
) -> Band {
    let lines = lines_at(p, o, width);
    Band {
        min: width,
        max: width + step,
        lines: if all_fit(lines) {
            Some(
                Seq::new(
                    lines.len(),
                    |i: int|
                        LineRules { line: lines[i], properties: line_rules(p, lines[i], o, print) },
                ),
            )
        } else {
            None
        },
    }
}

/// The bands of the first `k` samples: equal adjacent plans collapse into one.
pub open spec fn bands_to<F: Fn(Binary64, usize) -> (Binary64, String)>(
    p: Paragraph,
    o: Options,
    print: &F,
    min: Binary64,
    step: Binary64,
    k: nat,
) -> Seq<Band>
    decreases k,
{
    if k == 0 {
        seq![]
    } else {
        let before = bands_to(p, o, print, min, step, (k - 1) as nat);
        let width = sample(min, step, (k - 1) as nat);
        if k > 1 && repeats(p, o, min, step, (k - 1) as nat) {
            before.update(before.len() - 1, Band { max: width + step, ..before.last() })
        } else {
            before.push(band_at(p, o, print, width, step))
        }
    }
}

/// Sample `k` has the plan of the one before.
#[verifier::opaque]
pub open spec fn repeats(p: Paragraph, o: Options, min: Binary64, step: Binary64, k: nat) -> bool {
    key_of(lines_at(p, o, sample(min, step, k))) == key_of(
        lines_at(p, o, sample(min, step, (k - 1) as nat)),
    )
}

/// A range of measures that cannot be sampled.
pub open spec fn bad_range(min: Binary64, max: Binary64, step: Binary64) -> bool {
    let zero = Binary64::zero();
    !min.gt(zero) || !max.ge(min) || !step.gt(zero) || !min.is_finite() || !max.is_finite()
        || !step.is_finite() || (min + step).same(min) || (max + step).same(max)
}

/// The first `k` samples are sampled and accepted.
pub open spec fn sampled(
    o: Options,
    min: Binary64,
    max: Binary64,
    step: Binary64,
    k: nat,
) -> bool {
    forall|j: nat|
        j < k ==> (#[trigger] sample(min, step, j)).le(sample_limit(max)) && refusal(
            seq![sample(min, step, j)],
            o,
        ) is None
}

/// `r` is the answer to a request for bands.
pub open spec fn compiles<F: Fn(Binary64, usize) -> (Binary64, String)>(
    r: Result<Vec<StaticBand>, Error>,
    p: Paragraph,
    o: Options,
    print: &F,
    min: Binary64,
    max: Binary64,
    step: Binary64,
) -> bool {
    if bad_range(min, max, step) {
        r matches Err(e) && e@ == "Invalid static measure range"@
    } else {
        exists|k: nat| #[trigger]
            sampled(o, min, max, step, k) && {
                let width = sample(min, step, k);
                if width.le(sample_limit(max)) {
                    r matches Err(e) && refusal(seq![width], o) == Some(e@)
                } else {
                    r matches Ok(bands) && bands_of(bands@) == bands_to(p, o, print, min, step, k)
                }
            }
    }
}

/// The models of bands.
pub open spec fn bands_of(bands: Seq<StaticBand>) -> Seq<Band> {
    bands.map_values(|band: StaticBand| band@)
}

/// The machine can search for a layout at a single measure.
pub open spec fn searchable(p: Paragraph, o: Options) -> bool {
    countable(Grid::of(seq![Binary64::one()], o), last_break(p))
}

/// Build-time break selection. Equal adjacent plans collapse into one CSS band.
/// Measures are sampled at `step` CSS pixels; spacing is continuous within a band.
/// This deliberately makes the sampling policy explicit rather than claiming an
/// unsampled fractional measure necessarily has the same global optimum.
pub fn compile_static<F: Fn(Binary64, usize) -> (Binary64, String)>(
    p: &Prepared,
    min: Binary64,
    max: Binary64,
    print: &F,
) -> (r: Result<Vec<StaticBand>, Error>)
    requires
        p@.valid(),
        sliced(p@),
        searchable(p@, Options::published()),
        steady(print),
        !bad_range(min, max, Binary64::one()) ==> ends(min, max, Binary64::one()),
    ensures
        compiles(r, p@, Options::published(), print, min, max, Binary64::one()),
{
    compile_static_with(p, min, max, Binary64::one(), Options::default(), print)
}

/// `compile_static` with an explicit sampling step and policy.
pub fn compile_static_with<F: Fn(Binary64, usize) -> (Binary64, String)>(
    p: &Prepared,
    min: Binary64,
    max: Binary64,
    step: Binary64,
    policy: Options,
    print: &F,
) -> (r: Result<Vec<StaticBand>, Error>)
    requires
        p@.valid(),
        sliced(p@),
        searchable(p@, policy),
        steady(print),
        !bad_range(min, max, step) ==> ends(min, max, step),
    ensures
        compiles(r, p@, policy, print, min, max, step),
{
    let zero: Binary64 = Binary64::zero();
    if !min.gt(zero) || !max.ge(min) || !step.gt(zero) || !min.is_finite() || !max.is_finite()
        || !step.is_finite() || (min + step).same(min) || (max + step).same(max) {
        return Err(Error::range("Invalid static measure range"));
    }
    let limit: Binary64 = sample_limit(max);
    let mut bands: Vec<StaticBand> = Vec::new();
    let mut previous: Option<String> = None;
    let mut width: Binary64 = min;
    let ghost mut k: nat = 0;
    let ghost end = choose|end: nat| !(#[trigger] sample(min, step, end)).le(sample_limit(max));
    assert(bands_of(bands@) =~= bands_to(p@, policy, print, min, step, 0));
    while width.le(limit)
        invariant
            p@.valid(),
            sliced(p@),
            searchable(p@, policy),
            steady(print),
            !bad_range(min, max, step),
            limit == sample_limit(max),
            !sample(min, step, end).le(limit),
            width == sample(min, step, k),
            sampled(policy, min, max, step, k),
            k <= end,
            bands_of(bands@) == bands_to(p@, policy, print, min, step, k),
            k > 0 <==> previous is Some,
            k > 0 ==> bands@.len() > 0 && previous->0@ == key_of(
                lines_at(p@, policy, sample(min, step, (k - 1) as nat)),
            ),
        decreases end - k,
    {
        proof {
            lemma_searchable(p@, policy, width);
            assert forall|m: Measure|
                call_ensures(<Binary64 as Into<Measure>>::into, (width,), m) implies solvable(
                p@,
                m@,
                policy,
            ) by {}
        }
        let r: Result<Layout, Error> = solve_with(p, width, policy);
        let layout: Layout = match r {
            Ok(layout) => layout,
            Err(e) => {
                let r: Result<Vec<StaticBand>, Error> = Err(e);
                assert(sampled(policy, min, max, step, k));
                assert(compiles(r, p@, policy, print, min, max, step));
                return r;
            },
        };
        let ghost lines = lines_at(p@, policy, width);
        assert(layout.lines@ == lines);
        let key: String = if fits(&layout.lines) {
            plan_key(&layout.lines)
        } else {
            "native".to_owned()
        };
        let same: bool = match &previous {
            Some(known) => key == *known,
            None => false,
        };
        proof {
            reveal(repeats);
        }
        let ghost before = bands@;
        if same {
            let last: usize = bands.len() - 1;
            let mut band: StaticBand = bands.remove(last);
            band.max = width + step;
            bands.push(band);
            assert(bands_of(bands@) =~= bands_of(before).update(
                last as int,
                Band { max: width + step, ..bands_of(before).last() },
            ));
        } else {
            bands.push(make_band(p, &layout, width, step, policy, print));
            assert(bands_of(bands@) =~= bands_of(before).push(
                band_at(p@, policy, print, width, step),
            ));
        }
        previous = Some(key);
        width = next_measure(min, step, width);
        proof {
            k = k + 1;
            assert(sample(min, step, k) == width);
        }
    }
    let r: Result<Vec<StaticBand>, Error> = Ok(bands);
    assert(sampled(policy, min, max, step, k));
    assert(compiles(r, p@, policy, print, min, max, step));
    r
}

/// Searching at one measure is searching at any.
proof fn lemma_searchable(p: Paragraph, o: Options, width: Binary64)
    requires
        searchable(p, o),
    ensures
        solvable(p, seq![width], o),
{
    let (a, b) = (Grid::of(seq![Binary64::one()], o), Grid::of(seq![width], o));
    assert(a.lines() == b.lines());
    assert(a.states() == b.states());
}

/// The band that begins with a measure.
fn make_band<F: Fn(Binary64, usize) -> (Binary64, String)>(
    p: &Prepared,
    layout: &Layout,
    width: Binary64,
    step: Binary64,
    policy: Options,
    print: &F,
) -> (r: StaticBand)
    requires
        accepted(p@, seq![width], policy),
        sliced(p@),
        steady(print),
        layout@ == best_layout(p@, seq![width], policy),
    ensures
        r@ == band_at(p@, policy, print, width, step),
{
    proof {
        reveal(band_at);
    }
    let ghost found = layout.lines@;
    if !fits(&layout.lines) {
        return StaticBand { min: width, max: width + step, lines: None };
    }
    proof {
        law_lines_renderable(p@, seq![width], policy);
        law_lines_tile(p@, seq![width], policy);
    }
    let ghost expected = band_at(p@, policy, print, width, step).lines->0;
    let mut lines: Vec<StaticLine> = Vec::new();
    let mut i: usize = 0;
    while i < layout.lines.len()
        invariant
            found == layout.lines@,
            steady(print),
            forall|i: int|
                0 <= i < found.len() ==> (#[trigger] found[i]).start < found[i].end && renderable(
                    p@,
                    found[i],
                ),
            expected == Seq::new(
                found.len(),
                |i: int|
                    LineRules {
                        line: found[i],
                        properties: line_rules(p@, found[i], policy, print),
                    },
            ),
            i <= found.len(),
            rules_of(lines@) == expected.take(i as int),
        decreases found.len() - i,
    {
        let ghost before = lines@;
        assert(found[i as int].start < found[i as int].end);
        lines.push(static_line_with(p, &layout.lines[i], policy, print));
        i = i + 1;
        assert(rules_of(lines@) =~= rules_of(before).push(expected[i - 1]));
        assert(rules_of(lines@) =~= expected.take(i as int));
    }
    assert(rules_of(lines@) =~= expected);
    StaticBand { min: width, max: width + step, lines: Some(lines) }
}

}
