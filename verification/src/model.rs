//! The types of the engine and their mathematical models.

use crate::binary64::Binary64;
use std::sync::Arc;
use vstd::prelude::*;

verus! {

/// How the solver prices strain against the preferred spacing limits.
#[derive(Debug, Clone, Copy, PartialEq, Eq, Structural)]
pub enum Mode {
    /// Relax word spacing beyond the preferred limits to complete a line.
    Balanced,
    /// Keep stretch and shrink limits hard.
    Strict,
}

/// How a short final line is priced.
#[derive(Debug, Clone, Copy, PartialEq, Eq, Structural)]
pub enum Ending {
    /// Price a short ending by missing width alone.
    Soft,
    /// Price a short ending by its measured flexibility.
    Fit,
}

/// Fitting policy; `Options::default()` is the published default policy.
#[derive(Debug, Clone, Copy, PartialEq)]
pub struct Options {
    /// Relative to measured space. Stretch may relax; shrink always stays bounded.
    pub stretch: Binary64,
    pub shrink: Binary64,
    pub mode: Mode,
    /// Absolute pixels per character.
    pub tracking: Binary64,
    /// Cost multiplier for tightening a line rather than opening its spacing.
    pub compression_penalty: Binary64,
    /// Extra scoring flexibility, as a fraction of width, when ordinary fitting fails.
    pub emergency_stretch: Binary64,
    /// Fraction of trailing punctuation advance allowed beyond the right margin.
    pub hanging: Binary64,
    /// Optical allowance for a leading quote, as a fraction of its advance.
    pub opening: Binary64,
    /// Strength of supplied font-aware optical margins (0 disables them).
    pub protrusion: Binary64,
    /// Cost when neighbouring line fitness classes differ by more than one.
    pub adjacent_penalty: Binary64,
    /// Preferred fraction of the measure occupied by the last line.
    pub last_line: Binary64,
    /// Price a short ending by missing width alone, or by its measured flexibility.
    pub ending: Ending,
    pub widow_penalty: Binary64,
    /// Costs for discretionary, consecutive, and penultimate-line hyphens.
    pub hyphen_penalty: Binary64,
    pub consecutive_hyphen_penalty: Binary64,
    pub final_hyphen_penalty: Binary64,
    /// Cost of breaking after a hyphen already present in the source ("well-known").
    pub explicit_hyphen_penalty: Binary64,
}

impl Options {
    /// The published default policy.
    pub open spec fn published() -> Options {
        Options {
            stretch: Binary64::ratio(6, 10),
            shrink: Binary64::ratio(25, 100),
            mode: Mode::Balanced,
            tracking: Binary64::ratio(3, 10),
            compression_penalty: Binary64::ratio(2, 1),
            emergency_stretch: Binary64::ratio(15, 100),
            hanging: Binary64::ratio(1, 1),
            opening: Binary64::ratio(3, 10),
            protrusion: Binary64::ratio(1, 1),
            adjacent_penalty: Binary64::ratio(100, 1),
            last_line: Binary64::ratio(33, 100),
            ending: Ending::Fit,
            widow_penalty: Binary64::ratio(300, 1),
            hyphen_penalty: Binary64::ratio(50, 1),
            consecutive_hyphen_penalty: Binary64::ratio(200, 1),
            final_hyphen_penalty: Binary64::ratio(200, 1),
            explicit_hyphen_penalty: Binary64::ratio(20, 1),
        }
    }
}

impl Default for Options {
    fn default() -> (o: Options)
        ensures
            o == Options::published(),
    {
        Options {
            stretch: Binary64::ratio(6, 10),
            shrink: Binary64::ratio(25, 100),
            mode: Mode::Balanced,
            tracking: Binary64::ratio(3, 10),
            compression_penalty: Binary64::ratio(2, 1),
            emergency_stretch: Binary64::ratio(15, 100),
            hanging: Binary64::ratio(1, 1),
            opening: Binary64::ratio(3, 10),
            protrusion: Binary64::ratio(1, 1),
            adjacent_penalty: Binary64::ratio(100, 1),
            last_line: Binary64::ratio(33, 100),
            ending: Ending::Fit,
            widow_penalty: Binary64::ratio(300, 1),
            hyphen_penalty: Binary64::ratio(50, 1),
            consecutive_hyphen_penalty: Binary64::ratio(200, 1),
            final_hyphen_penalty: Binary64::ratio(200, 1),
            explicit_hyphen_penalty: Binary64::ratio(20, 1),
        }
    }
}

/// The error raised for invalid measurements, partitions, or policies.
#[derive(Debug, Clone, PartialEq, Eq)]
pub enum Error {
    Range(String),
}

impl View for Error {
    type V = Seq<char>;

    /// The message.
    open spec fn view(&self) -> Seq<char> {
        match self {
            Error::Range(message) => message@,
        }
    }
}

impl Error {
    /// An error with this message.
    pub fn range(message: &str) -> (e: Error)
        ensures
            e@ == message@,
    {
        Error::Range(message.to_owned())
    }

    /// The error as it is shown.
    pub fn to_text(&self) -> (r: String)
        ensures
            r@ == "RangeError: "@ + self@,
    {
        match self {
            Error::Range(message) => {
                let mut r: String = "RangeError: ".to_owned();
                r.append(message.as_str());
                r
            },
        }
    }
}

/// A single column width, or one width per line with the final entry repeating.
/// Use several for a first-line indent (`[w - indent, w]`) or a drop cap
/// (`[w - cap, w - cap, w - cap, w]`).
#[derive(Debug, Clone, PartialEq)]
pub struct Measure {
    widths: Vec<Binary64>,
}

impl View for Measure {
    type V = Seq<Binary64>;

    /// The widths, line by line.
    closed spec fn view(&self) -> Seq<Binary64> {
        self.widths@
    }
}

/// What makes a width usable.
pub open spec fn usable_width(w: Binary64) -> bool {
    w.is_finite() && w.gt(Binary64::zero())
}

/// What makes the widths of a measure usable.
pub open spec fn usable_widths(widths: Seq<Binary64>) -> bool {
    widths.len() > 0 && forall|i: int| 0 <= i < widths.len() ==> usable_width(#[trigger] widths[i])
}

impl Measure {
    /// The per-line widths without validation.
    pub fn into_widths(self) -> (r: Vec<Binary64>)
        ensures
            r@ == self@,
    {
        self.widths
    }

    /// The per-line widths, if all of them are usable.
    pub fn widths(self) -> (r: Result<Vec<Binary64>, Error>)
        ensures
            r is Ok <==> usable_widths(self@),
            r matches Ok(widths) ==> widths@ == self@,
            r matches Err(e) ==> e@ == "Measure must be positive"@,
    {
        if self.widths.len() == 0 {
            return Err(Error::range("Measure must be positive"));
        }
        let mut i: usize = 0;
        while i < self.widths.len()
            invariant
                i <= self.widths@.len(),
                forall|k: int| 0 <= k < i ==> usable_width(#[trigger] self.widths@[k]),
            decreases self.widths@.len() - i,
        {
            let w: Binary64 = self.widths[i];
            if !(w.is_finite() && w.gt(Binary64::zero())) {
                assert(!usable_width(self@[i as int]));
                return Err(Error::range("Measure must be positive"));
            }
            i = i + 1;
        }
        Ok(self.widths)
    }
}

impl From<Binary64> for Measure {
    /// One width for every line.
    fn from(width: Binary64) -> (m: Measure)
        ensures
            m@ == seq![width],
    {
        let mut widths: Vec<Binary64> = Vec::new();
        widths.push(width);
        assert(widths@ =~= seq![width]);
        Measure { widths }
    }
}

impl vstd::std_specs::convert::FromSpecImpl<Binary64> for Measure {
    open spec fn obeys_from_spec() -> bool {
        false
    }

    open spec fn from_spec(width: Binary64) -> Measure {
        arbitrary()
    }
}

impl From<Vec<Binary64>> for Measure {
    /// One width per line, the last one repeating.
    fn from(widths: Vec<Binary64>) -> (m: Measure)
        ensures
            m@ == widths@,
    {
        Measure { widths }
    }
}

impl vstd::std_specs::convert::FromSpecImpl<Vec<Binary64>> for Measure {
    open spec fn obeys_from_spec() -> bool {
        false
    }

    open spec fn from_spec(widths: Vec<Binary64>) -> Measure {
        arbitrary()
    }
}

impl From<i32> for Measure {
    /// One whole width for every line.
    fn from(width: i32) -> (m: Measure)
        ensures
            m@ == seq![Binary64::from_int(width)],
    {
        Measure::from(Binary64::from_int(width))
    }
}

impl vstd::std_specs::convert::FromSpecImpl<i32> for Measure {
    open spec fn obeys_from_spec() -> bool {
        false
    }

    open spec fn from_spec(width: i32) -> Measure {
        arbitrary()
    }
}

impl From<&[Binary64]> for Measure {
    /// One width per line, the last one repeating.
    fn from(widths: &[Binary64]) -> (m: Measure)
        ensures
            m@ == widths@,
    {
        Measure { widths: vstd::slice::slice_to_vec(widths) }
    }
}

impl vstd::std_specs::convert::FromSpecImpl<&[Binary64]> for Measure {
    open spec fn obeys_from_spec() -> bool {
        false
    }

    open spec fn from_spec(widths: &[Binary64]) -> Measure {
        arbitrary()
    }
}

impl<const N: usize> From<[Binary64; N]> for Measure {
    /// One width per line, the last one repeating.
    fn from(widths: [Binary64; N]) -> (m: Measure)
        ensures
            m@ == widths@,
    {
        Measure { widths: vstd::slice::slice_to_vec(widths.as_slice()) }
    }
}

impl<const N: usize> vstd::std_specs::convert::FromSpecImpl<[Binary64; N]> for Measure {
    open spec fn obeys_from_spec() -> bool {
        false
    }

    open spec fn from_spec(widths: [Binary64; N]) -> Measure {
        arbitrary()
    }
}

/// Measured fragments of one source word, for discretionary breaks.
#[derive(Debug, PartialEq)]
pub struct WordFragments {
    /// Byte source offsets, including zero and the word's length.
    pub offsets: Vec<usize>,
    /// Square matrices indexed by start * offsets.len() + end.
    pub widths: Vec<Binary64>,
    pub hyphen_widths: Vec<Binary64>,
    pub characters: Vec<Binary64>,
    /// Leading credit at each source boundary, plus the generated hyphen's end.
    pub start_protrusions: Option<Vec<Binary64>>,
    pub hyphen_protrusion: Option<Binary64>,
    /// Per boundary: true when the source already ends in a hyphen there, so a
    /// break renders no additional glyph.
    pub explicit: Option<Vec<bool>>,
}

/// The model of `WordFragments`.
#[verifier::ext_equal]
pub struct Fragments {
    pub offsets: Seq<usize>,
    pub widths: Seq<Binary64>,
    pub hyphen_widths: Seq<Binary64>,
    pub characters: Seq<Binary64>,
    pub start_protrusions: Option<Seq<Binary64>>,
    pub hyphen_protrusion: Option<Binary64>,
    pub explicit: Option<Seq<bool>>,
}

/// The contents of an optional vector.
pub open spec fn contents<T>(v: Option<Vec<T>>) -> Option<Seq<T>> {
    match v {
        Some(v) => Some(v@),
        None => None,
    }
}

impl View for WordFragments {
    type V = Fragments;

    open spec fn view(&self) -> Fragments {
        Fragments {
            offsets: self.offsets@,
            widths: self.widths@,
            hyphen_widths: self.hyphen_widths@,
            characters: self.characters@,
            start_protrusions: contents(self.start_protrusions),
            hyphen_protrusion: self.hyphen_protrusion,
            explicit: contents(self.explicit),
        }
    }
}

impl Fragments {
    /// The matrices are square, over at least the two ends of the word, and
    /// the breaks between them lie past its start.
    pub open spec fn valid(self) -> bool {
        let n = self.offsets.len();
        &&& 2 <= n <= usize::MAX
        &&& self.widths.len() == n * n
        &&& self.hyphen_widths.len() == n * n
        &&& self.characters.len() == n * n
        &&& self.explicit matches Some(flags) ==> flags.len() == n
        &&& forall|i: int| 0 < i < n - 1 ==> 0 < #[trigger] self.offsets[i]
    }

    /// True where the source itself ends in a hyphen at boundary `i`.
    pub open spec fn explicit_at(self, i: int) -> bool {
        match self.explicit {
            Some(flags) => flags[i],
            None => false,
        }
    }
}

/// The contents of an optional vector, copied.
pub(crate) fn copy_numbers(v: &Option<Vec<Binary64>>) -> (r: Option<Vec<Binary64>>)
    ensures
        contents(r) == contents(*v),
{
    match v {
        Some(v) => Some(copy_vec(v)),
        None => None,
    }
}

/// The same numbers in a new vector.
pub(crate) fn copy_vec(v: &Vec<Binary64>) -> (r: Vec<Binary64>)
    ensures
        r@ == v@,
{
    let mut r: Vec<Binary64> = Vec::new();
    let mut i: usize = 0;
    while i < v.len()
        invariant
            i <= v.len(),
            r@ == v@.take(i as int),
        decreases v.len() - i,
    {
        r.push(v[i]);
        i = i + 1;
        assert(r@ =~= v@.take(i as int));
    }
    assert(r@ =~= v@);
    r
}

impl Clone for WordFragments {
    fn clone(&self) -> (r: WordFragments)
        ensures
            r@ == self@,
    {
        let offsets: Vec<usize> = self.offsets.clone();
        assert(offsets@ =~= self.offsets@);
        let explicit: Option<Vec<bool>> = match &self.explicit {
            Some(flags) => {
                let flags2: Vec<bool> = flags.clone();
                assert(flags2@ =~= flags@);
                Some(flags2)
            },
            None => None,
        };
        WordFragments {
            offsets,
            widths: copy_vec(&self.widths),
            hyphen_widths: copy_vec(&self.hyphen_widths),
            characters: copy_vec(&self.characters),
            start_protrusions: copy_numbers(&self.start_protrusions),
            hyphen_protrusion: self.hyphen_protrusion,
            explicit,
        }
    }
}

/// A measured paragraph, ready to solve across widths and policy changes.
/// Copies share the underlying measurements.
#[derive(Debug, PartialEq)]
pub struct Prepared {
    pub words: Vec<String>,
    /// Prefix-summed word widths; shared by every copy of this paragraph.
    pub widths: Arc<Vec<Binary64>>,
    pub characters: Vec<Binary64>,
    /// Per-word advance of a trailing punctuation run, not a prefix sum.
    pub end_hangs: Vec<Binary64>,
    pub start_hangs: Vec<Binary64>,
    /// Optional absolute-pixel optical credits. Start replaces quote-only credit;
    /// end combines with punctuation hanging by taking the larger allowance.
    pub start_protrusions: Option<Vec<Binary64>>,
    pub end_protrusions: Option<Vec<Binary64>>,
    pub space: Binary64,
    /// Optional measured discretionary breaks; ordinary words retain the fast path.
    pub hyphenation: Option<Vec<Option<WordFragments>>>,
}

/// The model of `Prepared`.
#[verifier::ext_equal]
pub struct Paragraph {
    pub words: Seq<Seq<char>>,
    pub widths: Seq<Binary64>,
    pub characters: Seq<Binary64>,
    pub end_hangs: Seq<Binary64>,
    pub start_hangs: Seq<Binary64>,
    pub start_protrusions: Option<Seq<Binary64>>,
    pub end_protrusions: Option<Seq<Binary64>>,
    pub space: Binary64,
    pub hyphenation: Option<Seq<Option<Fragments>>>,
}

/// The texts of strings.
pub open spec fn texts(words: Seq<String>) -> Seq<Seq<char>> {
    words.map_values(|word: String| word@)
}

/// The model of optional fragments.
pub open spec fn fragments_model(f: Option<WordFragments>) -> Option<Fragments> {
    match f {
        Some(f) => Some(f@),
        None => None,
    }
}

/// The models of the fragments of each word.
pub open spec fn entry_models(entries: Seq<Option<WordFragments>>) -> Seq<Option<Fragments>> {
    entries.map_values(|entry: Option<WordFragments>| fragments_model(entry))
}

/// The models of the fragments, where there are any.
pub open spec fn hyphenation_model(h: Option<Vec<Option<WordFragments>>>) -> Option<
    Seq<Option<Fragments>>,
> {
    match h {
        Some(entries) => Some(entry_models(entries@)),
        None => None,
    }
}

impl View for Prepared {
    type V = Paragraph;

    open spec fn view(&self) -> Paragraph {
        Paragraph {
            words: texts(self.words@),
            widths: self.widths@,
            characters: self.characters@,
            end_hangs: self.end_hangs@,
            start_hangs: self.start_hangs@,
            start_protrusions: contents(self.start_protrusions),
            end_protrusions: contents(self.end_protrusions),
            space: self.space,
            hyphenation: hyphenation_model(self.hyphenation),
        }
    }
}

/// `Arc::clone`: another pointer to the same numbers.
#[verifier::external_body]
fn share(widths: &Arc<Vec<Binary64>>) -> (r: Arc<Vec<Binary64>>)
    ensures
        *r == **widths,
{
    Arc::clone(widths)
}

/// The same texts in new strings.
fn copy_words(words: &Vec<String>) -> (r: Vec<String>)
    ensures
        texts(r@) == texts(words@),
{
    let mut r: Vec<String> = Vec::new();
    let mut i: usize = 0;
    while i < words.len()
        invariant
            i <= words@.len(),
            r@.len() == i,
            forall|k: int| 0 <= k < i ==> (#[trigger] r@[k])@ == words@[k]@,
        decreases words@.len() - i,
    {
        r.push(words[i].clone());
        i = i + 1;
    }
    assert(texts(r@) =~= texts(words@));
    r
}

/// The same fragments in new tables.
pub(crate) fn copy_entry(entry: &Option<WordFragments>) -> (r: Option<WordFragments>)
    ensures
        fragments_model(r) == fragments_model(*entry),
{
    match entry {
        Some(f) => Some(f.clone()),
        None => None,
    }
}

/// The fragments of each word in new tables.
fn copy_entries(entries: &Vec<Option<WordFragments>>) -> (r: Vec<Option<WordFragments>>)
    ensures
        entry_models(r@) == entry_models(entries@),
{
    let mut r: Vec<Option<WordFragments>> = Vec::new();
    let mut i: usize = 0;
    while i < entries.len()
        invariant
            i <= entries@.len(),
            r@.len() == i,
            forall|k: int|
                0 <= k < i ==> #[trigger] entry_models(r@)[k] == entry_models(entries@)[k],
        decreases entries@.len() - i,
    {
        let ghost before = r@;
        r.push(copy_entry(&entries[i]));
        i = i + 1;
        assert forall|k: int| 0 <= k < i implies #[trigger] entry_models(r@)[k] == entry_models(
            entries@,
        )[k] by {
            if k < i - 1 {
                assert(entry_models(before)[k] == entry_models(entries@)[k]);
            }
        }
    }
    assert(entry_models(r@) =~= entry_models(entries@));
    r
}

impl Clone for Prepared {
    fn clone(&self) -> (r: Prepared)
        ensures
            r@ == self@,
    {
        let hyphenation: Option<Vec<Option<WordFragments>>> = match &self.hyphenation {
            Some(entries) => Some(copy_entries(entries)),
            None => None,
        };
        Prepared {
            words: copy_words(&self.words),
            widths: share(&self.widths),
            characters: copy_vec(&self.characters),
            end_hangs: copy_vec(&self.end_hangs),
            start_hangs: copy_vec(&self.start_hangs),
            start_protrusions: copy_numbers(&self.start_protrusions),
            end_protrusions: copy_numbers(&self.end_protrusions),
            space: self.space,
            hyphenation,
        }
    }
}

impl Paragraph {
    /// Every table but that of the fragments has an entry for each word.
    pub open spec fn valid(self) -> bool {
        let n = self.words.len();
        &&& n <= usize::MAX
        &&& self.widths.len() == n + 1
        &&& self.characters.len() == n + 1
        &&& self.end_hangs.len() == n
        &&& self.start_hangs.len() == n
        &&& self.start_protrusions matches Some(credits) ==> credits.len() == n
        &&& self.end_protrusions matches Some(credits) ==> credits.len() == n
        &&& self.hyphenation matches Some(entries) ==> forall|i: int|
            0 <= i < entries.len() ==> valid_entry(#[trigger] entries[i])
    }

    /// The fragments of a word, if it has any.
    pub open spec fn fragments_of(self, word: int) -> Option<Fragments> {
        match self.hyphenation {
            Some(entries) => if 0 <= word < entries.len() {
                entries[word]
            } else {
                None
            },
            None => None,
        }
    }

    /// True when some word has fragments.
    pub open spec fn breakable(self) -> bool {
        self.hyphenation matches Some(entries) && exists|i: int|
            0 <= i < entries.len() && (#[trigger] entries[i]) is Some
    }
}

/// An entry that is absent or square.
pub open spec fn valid_entry(entry: Option<Fragments>) -> bool {
    entry matches Some(fragments) ==> fragments.valid()
}

/// One justified line.
#[derive(Debug, Clone, Copy, PartialEq)]
pub struct Line {
    pub start: usize,
    pub end: usize,
    /// The measure this line was fitted to.
    pub width: Binary64,
    pub natural: Binary64,
    pub word_spacing: Binary64,
    pub tracking: Binary64,
    /// Available optical margin credit; a ragged last line need not use it.
    pub hanging: Binary64,
    pub opening: Binary64,
    pub residual: Binary64,
    /// True when finishing used word spacing beyond the preferred limits.
    pub relaxed: bool,
    pub cost: Binary64,
    pub last: bool,
    /// Byte offsets within the first/last included word; absent for whole words.
    pub start_offset: Option<usize>,
    pub end_offset: Option<usize>,
    /// Render a discretionary '-' after the source text, without adding it to the source.
    pub hyphenated: Option<bool>,
    /// 0 tight, 1 decent, 2 loose, 3 very loose; based on unbounded fitting strain.
    pub fitness: Option<i32>,
}

/// A solved paragraph: the chosen breaks and their total cost.
#[derive(Debug, Clone, PartialEq)]
pub struct Layout {
    pub lines: Vec<Line>,
    pub cost: Binary64,
    pub candidates: usize,
}

/// The model of `Layout`.
#[verifier::ext_equal]
pub struct Solution {
    pub lines: Seq<Line>,
    pub cost: Binary64,
    pub candidates: nat,
}

impl View for Layout {
    type V = Solution;

    open spec fn view(&self) -> Solution {
        Solution { lines: self.lines@, cost: self.cost, candidates: self.candidates as nat }
    }
}

/// Font-aware edge measurements for one string: how far its first and last
/// glyph may protrude past a margin, in absolute pixels.
#[derive(Debug, Clone, Copy, PartialEq)]
pub struct Margins {
    pub start: Binary64,
    pub end: Binary64,
}

}
