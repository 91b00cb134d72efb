//! Measuring ranges of a text by a callback.

use crate::binary64::Binary64;
use crate::model::Error;
use crate::solve::unsigned;
use crate::text::{offset, part};
use vstd::hash_map::StringHashMap;
use vstd::prelude::*;

verus! {

/// A text and a way to measure its ranges.
pub trait Gauge: Sized {
    /// The callback.
    type Ruler;

    /// The callback.
    spec fn ruler(self) -> Self::Ruler;

    /// The text.
    spec fn source(self) -> Seq<char>;

    /// What is said of a width that cannot be used.
    spec fn complaint(self) -> Seq<char>;

    /// What is remembered was measured.
    spec fn valid(self) -> bool;

    /// The callback takes a request for the range of bytes, with a hyphen drawn
    /// after it or not.
    spec fn takes(self, from: int, to: int, hyphen: bool) -> bool;

    /// The range of bytes, with a hyphen drawn after it or not, was measured,
    /// and this is its width.
    spec fn knows(self, from: int, to: int, hyphen: bool, width: Binary64) -> bool;

    /// The callback may answer the range with a width that cannot be used.
    spec fn fails(self, from: int, to: int, hyphen: bool) -> bool;

    /// Measures a range between two characters.
    fn width(self, from: usize, to: usize, hyphen: bool, i: Ghost<int>, j: Ghost<int>) -> (r: (
        Result<Binary64, Error>,
        Self,
    ))
        requires
            self.valid(),
            0 <= i@ <= j@ <= self.source().len(),
            from == offset(self.source(), i@),
            to == offset(self.source(), j@),
            self.takes(from as int, to as int, hyphen),
        ensures
            r.1.valid(),
            r.1.ruler() == self.ruler(),
            r.1.source() == self.source(),
            r.1.complaint() == self.complaint(),
            forall|a: int, b: int, h: bool, w: Binary64|
                self.knows(a, b, h, w) ==> #[trigger] r.1.knows(a, b, h, w),
            forall|a: int, b: int, h: bool| #[trigger] r.1.fails(a, b, h) == self.fails(a, b, h),
            forall|a: int, b: int, h: bool| #[trigger] r.1.takes(a, b, h) == self.takes(a, b, h),
            match r.0 {
                Ok(w) => unsigned(w) && r.1.knows(from as int, to as int, hyphen, w),
                Err(e) => e@ == self.complaint() && self.fails(from as int, to as int, hyphen),
            },
    ;
}

/// Measures ranges by where they stand.
pub struct RangeGauge<'a, F> {
    pub text: &'a str,
    pub measure: F,
}

impl<'a, F: FnMut(usize, usize, bool) -> Binary64> Gauge for RangeGauge<'a, F> {
    type Ruler = F;

    open spec fn ruler(self) -> F {
        self.measure
    }

    open spec fn source(self) -> Seq<char> {
        self.text@
    }

    open spec fn complaint(self) -> Seq<char> {
        "Invalid measured word width"@
    }

    open spec fn valid(self) -> bool {
        true
    }

    open spec fn takes(self, from: int, to: int, hyphen: bool) -> bool {
        self.measure.requires((from as usize, to as usize, hyphen))
    }

    open spec fn knows(self, from: int, to: int, hyphen: bool, width: Binary64) -> bool {
        unsigned(width) && self.measure.ensures((from as usize, to as usize, hyphen), width)
    }

    open spec fn fails(self, from: int, to: int, hyphen: bool) -> bool {
        exists|width: Binary64|
            !unsigned(width) && #[trigger] self.measure.ensures(
                (from as usize, to as usize, hyphen),
                width,
            )
    }

    fn width(self, from: usize, to: usize, hyphen: bool, i: Ghost<int>, j: Ghost<int>) -> (r: (
        Result<Binary64, Error>,
        Self,
    )) {
        let RangeGauge { text, mut measure } = self;
        let width: Binary64 = measure(from, to, hyphen);
        let r: Result<Binary64, Error> = if unsigned(width) {
            Ok(width)
        } else {
            Err(Error::range("Invalid measured word width"))
        };
        (r, RangeGauge { text, measure })
    }
}

/// What is drawn of a range of bytes: its text, and a hyphen if asked for.
pub open spec fn drawn(text: Seq<char>, from: int, to: int, hyphen: bool) -> Seq<char> {
    let range = slice(text, from, to);
    if hyphen {
        range.push('-')
    } else {
        range
    }
}

/// The index of the character that begins at a byte offset.
pub open spec fn index_at(text: Seq<char>, at: int) -> int {
    choose|i: int| 0 <= i <= text.len() && #[trigger] offset(text, i) == at
}

/// The characters of a range of bytes.
pub open spec fn slice(text: Seq<char>, from: int, to: int) -> Seq<char> {
    text.subrange(index_at(text, from), index_at(text, to))
}

/// The callback may give this width to a text.
pub open spec fn answers_text<F: FnMut(&str) -> Binary64>(
    measure: F,
    key: Seq<char>,
    width: Binary64,
) -> bool {
    exists|s: &str| s@ == key && #[trigger] measure.ensures((s,), width)
}

/// The callback takes a text.
pub open spec fn takes_text<F: FnMut(&str) -> Binary64>(measure: F, key: Seq<char>) -> bool {
    forall|s: &str| s@ == key ==> #[trigger] measure.requires((s,))
}

/// Measures ranges by what they say; equal texts are measured once.
pub struct TextGauge<'a, F> {
    pub text: &'a str,
    pub measure: F,
    pub cache: StringHashMap<Binary64>,
}

impl<'a, F: FnMut(&str) -> Binary64> Gauge for TextGauge<'a, F> {
    type Ruler = F;

    open spec fn ruler(self) -> F {
        self.measure
    }

    open spec fn source(self) -> Seq<char> {
        self.text@
    }

    open spec fn complaint(self) -> Seq<char> {
        "Invalid measured word width"@
    }

    open spec fn takes(self, from: int, to: int, hyphen: bool) -> bool {
        takes_text(self.measure, drawn(self.text@, from, to, hyphen))
    }

    open spec fn valid(self) -> bool {
        forall|key: Seq<char>| #[trigger]
            self.cache@.contains_key(key) ==> unsigned(self.cache@[key]) && answers_text(
                self.measure,
                key,
                self.cache@[key],
            )
    }

    open spec fn knows(self, from: int, to: int, hyphen: bool, width: Binary64) -> bool {
        let key = drawn(self.text@, from, to, hyphen);
        self.cache@.contains_key(key) && self.cache@[key] == width
    }

    open spec fn fails(self, from: int, to: int, hyphen: bool) -> bool {
        exists|width: Binary64|
            !unsigned(width) && #[trigger] answers_text(
                self.measure,
                drawn(self.text@, from, to, hyphen),
                width,
            )
    }

    fn width(self, from: usize, to: usize, hyphen: bool, i: Ghost<int>, j: Ghost<int>) -> (r: (
        Result<Binary64, Error>,
        Self,
    )) {
        let TextGauge { text, mut measure, mut cache } = self;
        let key: String = key_of(text, from, to, hyphen, i, j);
        if let Some(width) = cache.get(key.as_str()) {
            let known: Binary64 = *width;
            return (Ok(known), TextGauge { text, measure, cache });
        }
        let width: Binary64 = measure(key.as_str());
        assert(answers_text(measure, key@, width));
        if !unsigned(width) {
            return (
                Err(Error::range("Invalid measured word width")),
                TextGauge { text, measure, cache },
            );
        }
        cache.insert(key, width);
        (Ok(width), TextGauge { text, measure, cache })
    }
}

/// The callback may give this width to a text of the word with this index.
pub open spec fn answers_fragment<M: FnMut(&str, usize) -> Binary64>(
    measure: M,
    key: Seq<char>,
    index: usize,
    width: Binary64,
) -> bool {
    exists|s: &str| s@ == key && #[trigger] measure.ensures((s, index), width)
}

/// The callback takes a text of the word with this index.
pub open spec fn takes_fragment<M: FnMut(&str, usize) -> Binary64>(
    measure: M,
    key: Seq<char>,
    index: usize,
) -> bool {
    forall|s: &str| s@ == key ==> #[trigger] measure.requires((s, index))
}

/// Measures ranges of one word by what they say; equal texts are measured once.
pub struct FragmentGauge<'a, M> {
    pub word: &'a str,
    pub index: usize,
    pub measure: M,
    pub cache: StringHashMap<Binary64>,
}

impl<'a, M: FnMut(&str, usize) -> Binary64> Gauge for FragmentGauge<'a, M> {
    type Ruler = (M, usize);

    open spec fn ruler(self) -> (M, usize) {
        (self.measure, self.index)
    }

    open spec fn source(self) -> Seq<char> {
        self.word@
    }

    open spec fn complaint(self) -> Seq<char> {
        "Invalid measured fragment width"@
    }

    open spec fn takes(self, from: int, to: int, hyphen: bool) -> bool {
        takes_fragment(self.measure, drawn(self.word@, from, to, hyphen), self.index)
    }

    open spec fn valid(self) -> bool {
        forall|key: Seq<char>| #[trigger]
            self.cache@.contains_key(key) ==> unsigned(self.cache@[key]) && answers_fragment(
                self.measure,
                key,
                self.index,
                self.cache@[key],
            )
    }

    open spec fn knows(self, from: int, to: int, hyphen: bool, width: Binary64) -> bool {
        let key = drawn(self.word@, from, to, hyphen);
        self.cache@.contains_key(key) && self.cache@[key] == width
    }

    open spec fn fails(self, from: int, to: int, hyphen: bool) -> bool {
        exists|width: Binary64|
            !unsigned(width) && #[trigger] answers_fragment(
                self.measure,
                drawn(self.word@, from, to, hyphen),
                self.index,
                width,
            )
    }

    fn width(self, from: usize, to: usize, hyphen: bool, i: Ghost<int>, j: Ghost<int>) -> (r: (
        Result<Binary64, Error>,
        Self,
    )) {
        let FragmentGauge { word, index, mut measure, mut cache } = self;
        let key: String = key_of(word, from, to, hyphen, i, j);
        if let Some(width) = cache.get(key.as_str()) {
            let known: Binary64 = *width;
            return (Ok(known), FragmentGauge { word, index, measure, cache });
        }
        let width: Binary64 = measure(key.as_str(), index);
        assert(answers_fragment(measure, key@, index, width));
        if !unsigned(width) {
            return (
                Err(Error::range("Invalid measured fragment width")),
                FragmentGauge { word, index, measure, cache },
            );
        }
        cache.insert(key, width);
        (Ok(width), FragmentGauge { word, index, measure, cache })
    }
}

/// What is drawn of a range, as a string.
fn key_of(
    text: &str,
    from: usize,
    to: usize,
    hyphen: bool,
    i: Ghost<int>,
    j: Ghost<int>,
) -> (key: String)
    requires
        0 <= i@ <= j@ <= text@.len(),
        from == offset(text@, i@),
        to == offset(text@, j@),
    ensures
        key@ == drawn(text@, from as int, to as int, hyphen),
{
    proof {
        lemma_index_at(text@, i@);
        lemma_index_at(text@, j@);
    }
    let mut key: String = part(text, from, to, i, j).to_owned();
    if hyphen {
        proof {
            reveal_strlit("-");
        }
        let ghost before = key@;
        key.append("-");
        assert(key@ =~= before.push('-'));
    }
    key
}

/// The character at its own offset.
pub proof fn lemma_index_at(text: Seq<char>, i: int)
    requires
        0 <= i <= text.len(),
    ensures
        index_at(text, offset(text, i) as int) == i,
{
    let k = index_at(text, offset(text, i) as int);
    assert(offset(text, i) == offset(text, i));
    if k < i {
        crate::text::lemma_offset_monotone(text, k, i);
    }
    if i < k {
        crate::text::lemma_offset_monotone(text, i, k);
    }
}

}
