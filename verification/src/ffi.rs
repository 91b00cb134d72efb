//! What a host that draws text asks of the engine.
//!
//! Everything textual stays here: splitting, character classes, grapheme
//! counts, and the whole paragraph-wide solve. The host answers exactly one
//! question (how wide is a byte range of this paragraph?), which is the only
//! thing a cumulative advance table can answer, because the same string in a
//! regular and a bold span has two widths.

use crate::binary64::Binary64;
use crate::fragments::{boundary, ordered};
use crate::gauge::RangeGauge;
use crate::hyphenation::sliced;
use crate::laws::{accepted, at_boundary, law_breaks_at_boundaries, law_lines_tile};
use crate::model::{
    usable_widths, Ending, Error, Layout, Line, Measure, Mode, Options, Paragraph, Prepared,
    Solution,
};
use crate::prepare::{inside_word, prepare_ranged, prepared_with, tabulable, word_at};
use crate::render::bytes;
use crate::search::Grid;
use crate::solve::{best_layout, is_countable, last_break, refusal, solve_measure, validate};
use crate::solver::countable;
use crate::text::{
    decoded, law_words_are_runs, lemma_offset_end, lemma_offset_monotone, lemma_offset_within,
    lemma_trimmed, offset, spans_bytes, split_ranges, word_spans,
};
use vstd::prelude::*;
use vstd::utf8::{decode_utf8, valid_utf8};

verus! {

/// Fitting policy with numbered choices. Mirrors [`Options`]; the published
/// defaults are what `justice_options_default` gives.
#[derive(Debug, Clone, Copy, PartialEq)]
pub struct JusticeOptions {
    pub stretch: Binary64,
    pub shrink: Binary64,
    /// 0 = balanced, 1 = strict.
    pub mode: i32,
    /// Absolute pixels per character.
    pub tracking: Binary64,
    pub compression_penalty: Binary64,
    pub emergency_stretch: Binary64,
    /// 0 leaves optical margins entirely to the host.
    pub hanging: Binary64,
    pub opening: Binary64,
    pub protrusion: Binary64,
    pub adjacent_penalty: Binary64,
    pub last_line: Binary64,
    /// 0 = soft, 1 = fit.
    pub ending: i32,
    pub widow_penalty: Binary64,
    pub hyphen_penalty: Binary64,
    pub consecutive_hyphen_penalty: Binary64,
    pub final_hyphen_penalty: Binary64,
    pub explicit_hyphen_penalty: Binary64,
}

/// A policy with its choices numbered.
pub open spec fn numbered(o: Options) -> JusticeOptions {
    JusticeOptions {
        stretch: o.stretch,
        shrink: o.shrink,
        mode: match o.mode {
            Mode::Balanced => 0,
            Mode::Strict => 1,
        },
        tracking: o.tracking,
        compression_penalty: o.compression_penalty,
        emergency_stretch: o.emergency_stretch,
        hanging: o.hanging,
        opening: o.opening,
        protrusion: o.protrusion,
        adjacent_penalty: o.adjacent_penalty,
        last_line: o.last_line,
        ending: match o.ending {
            Ending::Soft => 0,
            Ending::Fit => 1,
        },
        widow_penalty: o.widow_penalty,
        hyphen_penalty: o.hyphen_penalty,
        consecutive_hyphen_penalty: o.consecutive_hyphen_penalty,
        final_hyphen_penalty: o.final_hyphen_penalty,
        explicit_hyphen_penalty: o.explicit_hyphen_penalty,
    }
}

impl From<&Options> for JusticeOptions {
    fn from(o: &Options) -> (c: JusticeOptions) {
        JusticeOptions {
            stretch: o.stretch,
            shrink: o.shrink,
            mode: match o.mode {
                Mode::Balanced => 0,
                Mode::Strict => 1,
            },
            tracking: o.tracking,
            compression_penalty: o.compression_penalty,
            emergency_stretch: o.emergency_stretch,
            hanging: o.hanging,
            opening: o.opening,
            protrusion: o.protrusion,
            adjacent_penalty: o.adjacent_penalty,
            last_line: o.last_line,
            ending: match o.ending {
                Ending::Soft => 0,
                Ending::Fit => 1,
            },
            widow_penalty: o.widow_penalty,
            hyphen_penalty: o.hyphen_penalty,
            consecutive_hyphen_penalty: o.consecutive_hyphen_penalty,
            final_hyphen_penalty: o.final_hyphen_penalty,
            explicit_hyphen_penalty: o.explicit_hyphen_penalty,
        }
    }
}

impl vstd::std_specs::convert::FromSpecImpl<&Options> for JusticeOptions {
    open spec fn obeys_from_spec() -> bool {
        true
    }

    open spec fn from_spec(o: &Options) -> JusticeOptions {
        numbered(*o)
    }
}

/// What is wrong with the choices of a policy, if anything is.
pub open spec fn choice_refusal(c: JusticeOptions) -> Option<Seq<char>> {
    if c.mode != 0 && c.mode != 1 {
        Some("Policy mode must be 0 (balanced) or 1 (strict)"@)
    } else if c.ending != 0 && c.ending != 1 {
        Some("Policy ending must be 0 (soft) or 1 (fit)"@)
    } else {
        None
    }
}

/// The policy with these choices.
pub open spec fn policy_of(c: JusticeOptions) -> Options {
    Options {
        stretch: c.stretch,
        shrink: c.shrink,
        mode: if c.mode == 0 {
            Mode::Balanced
        } else {
            Mode::Strict
        },
        tracking: c.tracking,
        compression_penalty: c.compression_penalty,
        emergency_stretch: c.emergency_stretch,
        hanging: c.hanging,
        opening: c.opening,
        protrusion: c.protrusion,
        adjacent_penalty: c.adjacent_penalty,
        last_line: c.last_line,
        ending: if c.ending == 0 {
            Ending::Soft
        } else {
            Ending::Fit
        },
        widow_penalty: c.widow_penalty,
        hyphen_penalty: c.hyphen_penalty,
        consecutive_hyphen_penalty: c.consecutive_hyphen_penalty,
        final_hyphen_penalty: c.final_hyphen_penalty,
        explicit_hyphen_penalty: c.explicit_hyphen_penalty,
    }
}

impl TryFrom<&JusticeOptions> for Options {
    type Error = Error;

    /// The policy with these choices, if it exists.
    fn try_from(c: &JusticeOptions) -> (r: Result<Options, Error>)
        ensures
            match choice_refusal(*c) {
                Some(message) => r matches Err(e) && e@ == message,
                None => r matches Ok(o) && o == policy_of(*c),
            },
            r matches Ok(o) ==> o.hanging == c.hanging && o.opening == c.opening && o.protrusion
                == c.protrusion && o.stretch == c.stretch && o.shrink == c.shrink,
    {
        let mode: Mode = if c.mode == 0 {
            Mode::Balanced
        } else if c.mode == 1 {
            Mode::Strict
        } else {
            return Err(Error::range("Policy mode must be 0 (balanced) or 1 (strict)"));
        };
        let ending: Ending = if c.ending == 0 {
            Ending::Soft
        } else if c.ending == 1 {
            Ending::Fit
        } else {
            return Err(Error::range("Policy ending must be 0 (soft) or 1 (fit)"));
        };
        Ok(
            Options {
                stretch: c.stretch,
                shrink: c.shrink,
                mode,
                tracking: c.tracking,
                compression_penalty: c.compression_penalty,
                emergency_stretch: c.emergency_stretch,
                hanging: c.hanging,
                opening: c.opening,
                protrusion: c.protrusion,
                adjacent_penalty: c.adjacent_penalty,
                last_line: c.last_line,
                ending,
                widow_penalty: c.widow_penalty,
                hyphen_penalty: c.hyphen_penalty,
                consecutive_hyphen_penalty: c.consecutive_hyphen_penalty,
                final_hyphen_penalty: c.final_hyphen_penalty,
                explicit_hyphen_penalty: c.explicit_hyphen_penalty,
            },
        )
    }
}

impl vstd::std_specs::convert::TryFromSpecImpl<&JusticeOptions> for Options {
    open spec fn obeys_try_from_spec() -> bool {
        false
    }

    open spec fn try_from_spec(c: &JusticeOptions) -> Result<Options, Error> {
        arbitrary()
    }
}

/// The published defaults.
pub fn justice_options_default() -> (c: JusticeOptions)
    ensures
        c == numbered(Options::published()),
{
    JusticeOptions::from(&Options::default())
}

/// Numbering the choices of a policy loses nothing, and gives only numbers that
/// stand for choices.
pub proof fn law_numbering_faithful(o: Options, c: JusticeOptions)
    ensures
        policy_of(numbered(o)) == o,
        choice_refusal(numbered(o)) is None,
        choice_refusal(c) is None ==> numbered(policy_of(c)) == c,
{
}

/// One solved line.
#[derive(Debug, Clone, Copy, PartialEq)]
pub struct JusticeLine {
    /// Word indices, `end` exclusive.
    pub word_start: u32,
    pub word_end: u32,
    /// Byte range of the line's text within the prepared paragraph.
    pub byte_start: u32,
    pub byte_end: u32,
    /// Per-gap adjustment from the measured space width.
    pub word_spacing: Binary64,
    /// Per-character adjustment.
    pub tracking: Binary64,
    /// 1 for the last line of the paragraph, else 0.
    pub last: i32,
}

/// A prepared paragraph awaiting its measure and its policy.
pub struct JusticeJob {
    ranges: Vec<(usize, usize)>,
    prepared: Prepared,
    layout: Option<Layout>,
}

/// The model of `JusticeJob`.
#[verifier::ext_equal]
pub struct Job {
    /// The byte range of each word.
    pub ranges: Seq<(usize, usize)>,
    pub paragraph: Paragraph,
    /// What was solved last.
    pub layout: Option<Solution>,
}

impl View for JusticeJob {
    type V = Job;

    closed spec fn view(&self) -> Job {
        Job {
            ranges: self.ranges@,
            paragraph: self.prepared@,
            layout: match self.layout {
                Some(layout) => Some(layout@),
                None => None,
            },
        }
    }
}

impl Job {
    /// The ranges hold the words, and the lines of the layout lie among them.
    pub open spec fn valid(self) -> bool {
        &&& self.paragraph.valid()
        &&& sliced(self.paragraph)
        &&& self.ranges.len() == self.paragraph.words.len()
        &&& forall|k: int|
            0 <= k < self.ranges.len() ==> (#[trigger] self.ranges[k]).0 + bytes(
                self.paragraph.words[k],
            ) == self.ranges[k].1 && self.ranges[k].1 <= u32::MAX
        &&& self.layout matches Some(layout) ==> forall|i: int|
            0 <= i < layout.lines.len() ==> placed(self.paragraph, #[trigger] layout.lines[i])
    }
}

/// A line of words that exist, whose offsets lie within them.
pub open spec fn placed(p: Paragraph, line: Line) -> bool {
    line.start < line.end ==> {
        &&& line.end <= p.words.len()
        &&& line.start_offset matches Some(at) ==> at <= bytes(p.words[line.start as int])
        &&& line.end_offset matches Some(at) ==> at <= bytes(p.words[line.end - 1])
    }
}

/// The lines of a layout are placed.
proof fn lemma_placed(p: Paragraph, widths: Seq<Binary64>, o: Options)
    requires
        accepted(p, widths, o),
        sliced(p),
    ensures
        forall|i: int|
            0 <= i < best_layout(p, widths, o).lines.len() ==> placed(
                p,
                #[trigger] best_layout(p, widths, o).lines[i],
            ),
{
    let lines = best_layout(p, widths, o).lines;
    law_lines_tile(p, widths, o);
    law_breaks_at_boundaries(p, widths, o);
    assert forall|i: int| 0 <= i < lines.len() implies placed(p, #[trigger] lines[i]) by {
        lemma_within_word(p, lines[i].start as int, lines[i].start_offset);
        lemma_within_word(p, lines[i].end - 1, lines[i].end_offset);
    }
}

/// A boundary of the fragments of a word lies within it.
proof fn lemma_within_word(p: Paragraph, word: int, at: Option<usize>)
    requires
        sliced(p),
        0 <= word < p.words.len(),
        at_boundary(p, word, at),
    ensures
        at matches Some(at) ==> at <= bytes(p.words[word]),
{
    if let Some(at) = at {
        let f = p.fragments_of(word)->0;
        let k = choose|k: int| 0 <= k < f.offsets.len() && f.offsets[k] == at;
        assert(ordered(p.words[word], f.offsets));
        assert(boundary(p.words[word], f.offsets[k] as int));
        let i = choose|i: int|
            0 <= i <= p.words[word].len() && #[trigger] offset(p.words[word], i) == at;
        lemma_offset_monotone(p.words[word], i, p.words[word].len() as int);
    }
}

impl JusticeJob {
    /// The byte range of a word, if it exists.
    pub fn range_for(&self, word: usize) -> (r: Option<(usize, usize)>)
        ensures
            r == range_of(self@, word as int),
    {
        if word < self.ranges.len() {
            Some(self.ranges[word])
        } else {
            None
        }
    }
}

/// The byte range of a word, if it exists.
pub open spec fn range_of(job: Job, word: int) -> Option<(usize, usize)> {
    if 0 <= word < job.ranges.len() {
        Some(job.ranges[word])
    } else {
        None
    }
}

/// The error as it is shown.
pub open spec fn shown(message: Seq<char>) -> Seq<char> {
    "RangeError: "@ + message
}

/// Bytes that can be read as a text: there are some, not too many, and they are
/// valid UTF-8.
pub open spec fn readable(bytes: Seq<u8>) -> bool {
    0 < bytes.len() <= u32::MAX && valid_utf8(bytes)
}

/// `r` is the answer to a request to prepare a text that is there.
pub open spec fn job_prepared<F: FnMut(usize, usize, bool) -> Binary64>(
    text: Seq<char>,
    space: Binary64,
    measure: F,
    r: Result<JusticeJob, String>,
) -> bool {
    exists|s: &str, p: Result<Prepared, Error>|
        {
            &&& s@ == text
            &&& #[trigger] prepared_with(RangeGauge { text: s, measure }, text, space, p)
            &&& match p {
                Ok(p) => r matches Ok(job) && spans_bytes(text, word_spans(text), job@.ranges)
                    && job@.paragraph == p@ && job@.layout is None && job@.valid(),
                Err(e) => r matches Err(m) && m@ == shown(e@),
            }
        }
}

/// Split `text` into words and measure each one through `measure`.
///
/// Gives a message if the text or the callback is missing, the text is not
/// valid UTF-8, or the host reports a width that is not finite and
/// non-negative.
pub fn justice_prepare<F: FnMut(usize, usize, bool) -> Binary64>(
    text: Option<&[u8]>,
    space: Binary64,
    measure: Option<F>,
) -> (r: Result<JusticeJob, String>)
    requires
        measure matches Some(f) ==> text matches Some(bytes) ==> readable(bytes@) ==> forall|
            from: usize,
            to: usize,
        |
            inside_word(decode_utf8(bytes@), from as int, to as int) ==> #[trigger] f.requires(
                (from, to, false),
            ),
        text matches Some(bytes) ==> readable(bytes@) ==> tabulable(decode_utf8(bytes@)),
    ensures
        match (text, measure) {
            (Some(bytes), Some(f)) => if bytes@.len() == 0 || bytes@.len() > u32::MAX {
                r matches Err(m) && m@
                    == "justice_prepare: null text, empty text, or missing measure"@
            } else if !valid_utf8(bytes@) {
                r matches Err(m) && m@ == "justice_prepare: text is not valid UTF-8"@
            } else {
                job_prepared(decode_utf8(bytes@), space, f, r)
            },
            _ => r matches Err(m) && m@
                == "justice_prepare: null text, empty text, or missing measure"@,
        },
{
    let (bytes, measure): (&[u8], F) = match (text, measure) {
        (Some(bytes), Some(measure)) => (bytes, measure),
        _ => {
            return Err("justice_prepare: null text, empty text, or missing measure".to_owned());
        },
    };
    if bytes.len() == 0 || bytes.len() as u64 > u32::MAX as u64 {
        return Err("justice_prepare: null text, empty text, or missing measure".to_owned());
    }
    let paragraph: &str = match decoded(bytes) {
        Some(paragraph) => paragraph,
        None => {
            return Err("justice_prepare: text is not valid UTF-8".to_owned());
        },
    };
    let ghost gauge = RangeGauge { text: paragraph, measure };
    let prepared: Result<Prepared, Error> = prepare_ranged(paragraph, space, measure);
    let ghost outcome = prepared;
    let r: Result<JusticeJob, String> = match prepared {
        Ok(prepared) => Ok(JusticeJob { ranges: split_ranges(paragraph), prepared, layout: None }),
        Err(error) => Err(error.to_text()),
    };
    proof {
        assert(prepared_with(gauge, paragraph@, space, outcome));
        if r is Ok {
            vstd::utf8::decode_utf8_encode_utf8(bytes@);
            lemma_offset_end(paragraph@);
            lemma_ranges(paragraph@, r->Ok_0@.ranges, r->Ok_0@.paragraph);
        }
    }
    r
}

/// The split ranges hold the words.
proof fn lemma_ranges(text: Seq<char>, ranges: Seq<(usize, usize)>, p: Paragraph)
    requires
        spans_bytes(text, word_spans(text), ranges),
        offset(text, text.len() as int) <= u32::MAX,
        p.words.len() == word_spans(text).len(),
        forall|k: int| 0 <= k < p.words.len() ==> #[trigger] p.words[k] == word_at(text, k),
    ensures
        ranges.len() == p.words.len(),
        forall|k: int|
            0 <= k < ranges.len() ==> (#[trigger] ranges[k]).0 + bytes(p.words[k]) == ranges[k].1
                && ranges[k].1 <= u32::MAX,
{
    law_words_are_runs(text);
    lemma_trimmed(text);
    assert forall|k: int| 0 <= k < ranges.len() implies (#[trigger] ranges[k]).0 + bytes(p.words[k])
        == ranges[k].1 && ranges[k].1 <= u32::MAX by {
        let (i, j) = word_spans(text)[k];
        assert(p.words[k] == word_at(text, k));
        lemma_offset_within(text, i, j, j - i);
        lemma_offset_monotone(text, j, text.len() as int);
    }
}

/// The choices that are asked for: the published ones unless others are given.
pub open spec fn chosen(options: Option<&JusticeOptions>) -> JusticeOptions {
    match options {
        Some(c) => *c,
        None => numbered(Options::published()),
    }
}

/// Why a request to solve is refused, if it is.
pub open spec fn solve_refusal(job: Job, widths: Seq<Binary64>, choices: JusticeOptions) -> Option<
    Seq<char>,
> {
    let o = policy_of(choices);
    if widths.len() == 0 {
        Some("justice_solve: null job or widths, or no widths at all"@)
    } else if !usable_widths(widths) {
        Some("justice_solve: Measure must be positive"@)
    } else if choice_refusal(choices) is Some {
        Some(shown(choice_refusal(choices)->0))
    } else if refusal(widths, o) is Some {
        Some(shown(refusal(widths, o)->0))
    } else if !countable(Grid::of(widths, o), last_break(job.paragraph)) {
        Some("justice_solve: solver failed on this input"@)
    } else {
        None
    }
}

/// Solve for line breaks and spacing.
///
/// `widths` holds one usable width per line, the final entry repeating: pass a
/// single width for a uniform column, or `[w - indent, w]` for a first-line
/// indent. Without `options` the published defaults hold.
///
/// Gives a message on failure, and leaves the job as it was.
pub fn justice_solve(
    job: &mut JusticeJob,
    widths: &[Binary64],
    options: Option<&JusticeOptions>,
) -> (r: Result<(), String>)
    requires
        old(job)@.valid(),
    ensures
        final(job)@.valid(),
        match solve_refusal(old(job)@, widths@, chosen(options)) {
            Some(message) => r matches Err(m) && m@ == message && final(job)@ == old(job)@,
            None => r is Ok && final(job)@ == (Job {
                layout: Some(
                    best_layout(old(job)@.paragraph, widths@, policy_of(chosen(options))),
                ),
                ..old(job)@
            }),
        },
{
    if widths.len() == 0 {
        return Err("justice_solve: null job or widths, or no widths at all".to_owned());
    }
    let list: Vec<Binary64> = vstd::slice::slice_to_vec(widths);
    if Measure::from(widths).widths().is_err() {
        return Err("justice_solve: Measure must be positive".to_owned());
    }
    let policy: Options = match options {
        Some(c) => match Options::try_from(c) {
            Ok(policy) => policy,
            Err(error) => {
                return Err(error.to_text());
            },
        },
        None => Options::default(),
    };
    match validate(Measure::from(widths), &policy) {
        Ok(accepted) => {},
        Err(error) => {
            return Err(error.to_text());
        },
    }
    if !is_countable(&job.prepared, &list, &policy) {
        return Err("justice_solve: solver failed on this input".to_owned());
    }
    match solve_measure(&job.prepared, Measure::from(widths), policy) {
        Ok(layout) => {
            proof {
                lemma_placed(job.prepared@, widths@, policy);
            }
            job.layout = Some(layout);
            Ok(())
        },
        Err(error) => Err(error.to_text()),
    }
}

/// Words in the prepared paragraph.
pub fn justice_word_count(job: &JusticeJob) -> (n: u32)
    ensures
        n == job@.ranges.len() as u32,
{
    job.ranges.len() as u32
}

/// Byte offsets of every word: start, end per word.
pub fn justice_word_byte_ranges(job: &JusticeJob) -> (r: Vec<u32>)
    ensures
        r@ == Seq::new(
            2 * job@.ranges.len(),
            |i: int|
                if i % 2 == 0 {
                    job@.ranges[i / 2].0 as u32
                } else {
                    job@.ranges[i / 2].1 as u32
                },
        ),
{
    let ghost expected = Seq::new(
        2 * job@.ranges.len(),
        |i: int|
            if i % 2 == 0 {
                job@.ranges[i / 2].0 as u32
            } else {
                job@.ranges[i / 2].1 as u32
            },
    );
    let mut r: Vec<u32> = Vec::new();
    let mut i: usize = 0;
    while i < job.ranges.len()
        invariant
            i <= job@.ranges.len(),
            job.ranges@ == job@.ranges,
            expected.len() == 2 * job@.ranges.len(),
            forall|k: int|
                0 <= k < expected.len() ==> #[trigger] expected[k] == if k % 2 == 0 {
                    job@.ranges[k / 2].0 as u32
                } else {
                    job@.ranges[k / 2].1 as u32
                },
            r@ == expected.take(2 * i),
        decreases job@.ranges.len() - i,
    {
        let (start, end): (usize, usize) = job.ranges[i];
        r.push(start as u32);
        r.push(end as u32);
        i = i + 1;
        assert(r@ =~= expected.take(2 * i));
    }
    assert(r@ =~= expected);
    r
}

/// Lines produced by the last successful `justice_solve`.
pub fn justice_line_count(job: &JusticeJob) -> (n: u32)
    ensures
        n == match job@.layout {
            Some(layout) => layout.lines.len() as u32,
            None => 0,
        },
{
    match &job.layout {
        Some(layout) => layout.lines.len() as u32,
        None => 0,
    }
}

/// Why a line cannot be given, if it cannot.
pub open spec fn line_refusal(job: Job, index: int) -> Option<Seq<char>> {
    match job.layout {
        None => Some("justice_line: solved before justice_solve"@),
        Some(layout) => if index >= layout.lines.len() {
            Some("justice_line: index out of range"@)
        } else {
            let line = layout.lines[index];
            if line.start >= line.end {
                Some("justice_line: empty line"@)
            } else if range_of(job, line.start as int) is None || range_of(job, line.end - 1) is None {
                Some("justice_line: word range missing"@)
            } else {
                None
            }
        },
    }
}

/// A line as the host sees it.
pub open spec fn host_line(job: Job, line: Line) -> JusticeLine {
    JusticeLine {
        word_start: line.start as u32,
        word_end: line.end as u32,
        byte_start: (job.ranges[line.start as int].0 + match line.start_offset {
            Some(at) => at as int,
            None => 0,
        }) as u32,
        byte_end: match line.end_offset {
            Some(at) => (job.ranges[line.end - 1].0 + at) as u32,
            None => job.ranges[line.end - 1].1 as u32,
        },
        word_spacing: line.word_spacing,
        tracking: line.tracking,
        last: if line.last {
            1
        } else {
            0
        },
    }
}

/// Line `index` of the last successful `justice_solve`.
///
/// Gives a message if the index is out of range or the line falls outside the
/// prepared text.
pub fn justice_line(job: &JusticeJob, index: u32) -> (r: Result<JusticeLine, String>)
    requires
        job@.valid(),
    ensures
        match line_refusal(job@, index as int) {
            Some(message) => r matches Err(m) && m@ == message,
            None => r matches Ok(line) && line == host_line(
                job@,
                job@.layout->0.lines[index as int],
            ),
        },
{
    let layout: &Layout = match &job.layout {
        Some(layout) => layout,
        None => {
            return Err("justice_line: solved before justice_solve".to_owned());
        },
    };
    if index as usize >= layout.lines.len() {
        return Err("justice_line: index out of range".to_owned());
    }
    let line: Line = layout.lines[index as usize];
    if line.start >= line.end {
        return Err("justice_line: empty line".to_owned());
    }
    let first: (usize, usize) = match job.range_for(line.start) {
        Some(range) => range,
        None => {
            return Err("justice_line: word range missing".to_owned());
        },
    };
    let last: (usize, usize) = match job.range_for(line.end - 1) {
        Some(range) => range,
        None => {
            return Err("justice_line: word range missing".to_owned());
        },
    };
    proof {
        assert(placed(job@.paragraph, job@.layout->0.lines[index as int]));
        assert(job@.ranges[line.start as int] == first);
        assert(job@.ranges[line.end - 1] == last);
    }
    let start: usize = match line.start_offset {
        Some(at) => first.0 + at,
        None => first.0,
    };
    let end: usize = match line.end_offset {
        Some(at) => last.0 + at,
        None => last.1,
    };
    Ok(
        JusticeLine {
            word_start: line.start as u32,
            word_end: line.end as u32,
            byte_start: start as u32,
            byte_end: end as u32,
            word_spacing: line.word_spacing,
            tracking: line.tracking,
            last: if line.last {
                1
            } else {
                0
            },
        },
    )
}

}
