//! Numbers in writing.

use crate::binary64::Binary64;
use crate::text::{characters, offset, part};
use vstd::prelude::*;

verus! {

/// A decimal digit.
pub open spec fn digit(d: nat) -> char {
    if d == 0 {
        '0'
    } else if d == 1 {
        '1'
    } else if d == 2 {
        '2'
    } else if d == 3 {
        '3'
    } else if d == 4 {
        '4'
    } else if d == 5 {
        '5'
    } else if d == 6 {
        '6'
    } else if d == 7 {
        '7'
    } else if d == 8 {
        '8'
    } else {
        '9'
    }
}

/// True of the decimal digits.
pub open spec fn is_digit(c: char) -> bool {
    '0' <= c && c <= '9'
}

/// The value of a decimal digit.
pub open spec fn digit_value(c: char) -> nat {
    (c as u32 - '0' as u32) as nat
}

/// A number in decimal digits.
pub open spec fn decimal_text(n: nat) -> Seq<char>
    decreases n,
{
    if n < 10 {
        seq![digit(n)]
    } else {
        decimal_text(n / 10).push(digit(n % 10))
    }
}

/// Appends the digit `d`.
fn append_digit(r: &mut String, d: usize)
    requires
        d < 10,
    ensures
        final(r)@ == old(r)@.push(digit(d as nat)),
{
    let ghost before = r@;
    proof {
        reveal_strlit("0");
        reveal_strlit("1");
        reveal_strlit("2");
        reveal_strlit("3");
        reveal_strlit("4");
        reveal_strlit("5");
        reveal_strlit("6");
        reveal_strlit("7");
        reveal_strlit("8");
        reveal_strlit("9");
    }
    let s: &str = if d == 0 {
        "0"
    } else if d == 1 {
        "1"
    } else if d == 2 {
        "2"
    } else if d == 3 {
        "3"
    } else if d == 4 {
        "4"
    } else if d == 5 {
        "5"
    } else if d == 6 {
        "6"
    } else if d == 7 {
        "7"
    } else if d == 8 {
        "8"
    } else {
        "9"
    };
    r.append(s);
    assert(s@ =~= seq![digit(d as nat)]);
    assert(r@ =~= before.push(digit(d as nat)));
}

/// A number in decimal digits.
pub fn decimal(n: usize) -> (r: String)
    ensures
        r@ == decimal_text(n as nat),
    decreases n,
{
    let mut r: String = if n < 10 {
        String::new()
    } else {
        decimal(n / 10)
    };
    let ghost before = r@;
    append_digit(&mut r, n % 10);
    if n < 10 {
        assert(before =~= seq![]);
        assert(r@ =~= seq![digit(n as nat)]);
    }
    r
}

/// The digits of a text.
pub open spec fn digits_in(s: Seq<char>, count: nat) -> Seq<char>
    decreases count,
{
    if count == 0 {
        seq![]
    } else if is_digit(s[count - 1]) {
        digits_in(s, (count - 1) as nat).push(s[count - 1])
    } else {
        digits_in(s, (count - 1) as nat)
    }
}

/// A text of `count` zeros.
pub open spec fn zeros_text(count: nat) -> Seq<char> {
    Seq::new(count, |i: int| '0')
}

/// A text without the zeros at its end.
pub open spec fn without_zeros(s: Seq<char>) -> Seq<char>
    decreases s.len(),
{
    if s.len() > 0 && s.last() == '0' {
        without_zeros(s.drop_last())
    } else {
        s
    }
}

/// The digits before the decimal point, which stands after `point` of them.
pub open spec fn whole_digits(digits: Seq<char>, point: int) -> Seq<char> {
    if point <= 0 {
        seq!['0']
    } else if point >= digits.len() {
        digits + zeros_text((point - digits.len()) as nat)
    } else {
        digits.take(point)
    }
}

/// The digits behind the decimal point.
pub open spec fn fraction_digits(digits: Seq<char>, point: int) -> Seq<char> {
    if point <= 0 {
        zeros_text((-point) as nat) + digits
    } else if point >= digits.len() {
        seq![]
    } else {
        digits.skip(point)
    }
}

/// A number from its digits, with the decimal point after `point` of them.
pub open spec fn plain_text(negative: bool, digits: Seq<char>, point: int) -> Seq<char> {
    let fraction = without_zeros(fraction_digits(digits, point));
    let sign = if negative {
        seq!['-']
    } else {
        seq![]
    };
    let whole = sign + whole_digits(digits, point);
    if fraction.len() > 0 {
        whole + seq!['.'] + fraction
    } else {
        whole
    }
}

/// The size of an integer.
pub open spec fn size(e: int) -> nat {
    if e < 0 {
        (-e) as nat
    } else {
        e as nat
    }
}

/// How ECMAScript writes a number with this mantissa and decimal exponent.
pub open spec fn js_text(mantissa: Seq<char>, exponent: int) -> Seq<char> {
    if -6 <= exponent <= 20 {
        plain_text(
            mantissa.len() > 0 && mantissa[0] == '-',
            digits_in(mantissa, mantissa.len()),
            exponent + 1,
        )
    } else {
        mantissa + seq!['e'] + (if exponent < 0 {
            seq!['-']
        } else {
            seq!['+']
        }) + decimal_text(size(exponent))
    }
}

/// The value of the first `count` digits of a text.
pub open spec fn digits_value(s: Seq<char>, count: nat) -> nat
    decreases count,
{
    if count == 0 {
        0
    } else {
        digits_value(s, (count - 1) as nat) * 10 + digit_value(s[count - 1])
    }
}

/// A text of digits only, at least one.
pub open spec fn all_digits(s: Seq<char>) -> bool {
    s.len() > 0 && forall|i: int| 0 <= i < s.len() ==> is_digit(#[trigger] s[i])
}

/// An integer in writing, with or without a sign.
pub open spec fn writes(s: Seq<char>, n: int) -> bool {
    if s.len() > 0 && s[0] == '-' {
        all_digits(s.skip(1)) && n == -(digits_value(s.skip(1), (s.len() - 1) as nat) as int)
    } else if s.len() > 0 && s[0] == '+' {
        all_digits(s.skip(1)) && n == digits_value(s.skip(1), (s.len() - 1) as nat)
    } else {
        all_digits(s) && n == digits_value(s, s.len())
    }
}

/// A number in scientific notation: a mantissa, the letter `e`, an exponent.
pub open spec fn scientific_form(s: Seq<char>, mantissa: Seq<char>, exponent: int) -> bool {
    exists|at: int|
        {
            &&& 0 <= at < s.len()
            &&& #[trigger] s[at] == 'e'
            &&& forall|i: int| 0 <= i < at ==> s[i] != 'e'
            &&& mantissa == s.take(at)
            &&& writes(s.skip(at + 1), exponent)
        }
}

/// Appends digits.
fn append_digits(r: &mut String, digits: &Vec<char>, count: usize)
    requires
        count <= digits@.len(),
        forall|i: int| 0 <= i < count ==> is_digit(#[trigger] digits@[i]),
    ensures
        final(r)@ == old(r)@ + digits@.take(count as int),
{
    let ghost before = r@;
    let mut i: usize = 0;
    assert(r@ =~= before + digits@.take(0));
    while i < count
        invariant
            i <= count <= digits@.len(),
            forall|i: int| 0 <= i < count ==> is_digit(#[trigger] digits@[i]),
            r@ == before + digits@.take(i as int),
        decreases count - i,
    {
        let c: char = digits[i];
        assert(is_digit(digits@[i as int]));
        let d: u32 = c as u32 - '0' as u32;
        append_digit(r, d as usize);
        i = i + 1;
        assert(r@ =~= before + digits@.take(i as int));
    }
}

/// The digits of a text.
fn collect_digits(chars: &Vec<char>) -> (r: Vec<char>)
    ensures
        r@ == digits_in(chars@, chars@.len()),
        forall|i: int| 0 <= i < r@.len() ==> is_digit(#[trigger] r@[i]),
{
    let mut r: Vec<char> = Vec::new();
    let mut i: usize = 0;
    assert(r@ =~= digits_in(chars@, 0));
    while i < chars.len()
        invariant
            i <= chars@.len(),
            r@ == digits_in(chars@, i as nat),
            forall|i: int| 0 <= i < r@.len() ==> is_digit(#[trigger] r@[i]),
        decreases chars@.len() - i,
    {
        let c: char = chars[i];
        if '0' <= c && c <= '9' {
            r.push(c);
        }
        i = i + 1;
    }
    r
}

/// Appends one character of a few.
fn append_mark(r: &mut String, mark: &str, c: Ghost<char>)
    requires
        mark@ == seq![c@],
    ensures
        final(r)@ == old(r)@.push(c@),
{
    let ghost before = r@;
    r.append(mark);
    assert(r@ =~= before.push(c@));
}

/// A number from its digits, with the decimal point after `point` of them.
fn plain(negative: bool, digits: &Vec<char>, point: i32) -> (r: String)
    requires
        -5 <= point <= 21,
        forall|i: int| 0 <= i < digits@.len() ==> is_digit(#[trigger] digits@[i]),
    ensures
        r@ == plain_text(negative, digits@, point as int),
{
    let n: usize = digits.len();
    let mut whole: Vec<char> = Vec::new();
    let mut fraction: Vec<char> = Vec::new();
    if point <= 0 {
        whole.push('0');
        assert(whole@ =~= whole_digits(digits@, point as int));
        let mut i: i32 = point;
        assert(fraction@ =~= zeros_text(0));
        while i < 0
            invariant
                point <= i <= 0,
                fraction@ == zeros_text((i - point) as nat),
            decreases -i,
        {
            fraction.push('0');
            i = i + 1;
            assert(fraction@ =~= zeros_text((i - point) as nat));
        }
        push_range(&mut fraction, digits, 0, n);
        assert(fraction@ =~= fraction_digits(digits@, point as int));
    } else if point as usize >= n {
        push_range(&mut whole, digits, 0, n);
        let mut i: usize = n;
        assert(whole@ =~= digits@ + zeros_text(0));
        while i < point as usize
            invariant
                n <= i <= point,
                n == digits@.len(),
                whole@ == digits@ + zeros_text((i - n) as nat),
            decreases point - i,
        {
            whole.push('0');
            i = i + 1;
            assert(whole@ =~= digits@ + zeros_text((i - n) as nat));
        }
        assert(fraction@ =~= fraction_digits(digits@, point as int));
    } else {
        push_range(&mut whole, digits, 0, point as usize);
        push_range(&mut fraction, digits, point as usize, n);
        assert(whole@ =~= whole_digits(digits@, point as int));
        assert(fraction@ =~= fraction_digits(digits@, point as int));
    }
    assert forall|i: int| 0 <= i < whole@.len() implies is_digit(#[trigger] whole@[i]) by {}
    let ghost full = fraction@;
    assert forall|i: int| 0 <= i < full.len() implies is_digit(#[trigger] full[i]) by {}
    while fraction.len() > 0 && fraction[fraction.len() - 1] == '0'
        invariant
            without_zeros(fraction@) == without_zeros(full),
            forall|i: int| 0 <= i < fraction@.len() ==> is_digit(#[trigger] fraction@[i]),
        decreases fraction@.len(),
    {
        let ghost before = fraction@;
        fraction.pop();
        assert(fraction@ =~= before.drop_last());
    }
    assert(fraction@ == without_zeros(full));
    let mut r: String = String::new();
    proof {
        reveal_strlit("-");
        reveal_strlit(".");
    }
    assert(r@ =~= seq![]);
    if negative {
        assert("-"@ =~= seq!['-']);
        append_mark(&mut r, "-", Ghost('-'));
        assert(r@ =~= seq!['-']);
    }
    let count: usize = whole.len();
    append_digits(&mut r, &whole, count);
    assert(whole@.take(count as int) =~= whole@);
    if fraction.len() > 0 {
        assert("."@ =~= seq!['.']);
        append_mark(&mut r, ".", Ghost('.'));
        let count: usize = fraction.len();
        append_digits(&mut r, &fraction, count);
        assert(fraction@.take(count as int) =~= fraction@);
    }
    assert(r@ =~= plain_text(negative, digits@, point as int));
    r
}

/// Appends some of the digits.
fn push_range(r: &mut Vec<char>, digits: &Vec<char>, from: usize, to: usize)
    requires
        from <= to <= digits@.len(),
    ensures
        final(r)@ == old(r)@ + digits@.subrange(from as int, to as int),
{
    let ghost before = r@;
    let mut i: usize = from;
    assert(r@ =~= before + digits@.subrange(from as int, from as int));
    while i < to
        invariant
            from <= i <= to <= digits@.len(),
            r@ == before + digits@.subrange(from as int, i as int),
        decreases to - i,
    {
        r.push(digits[i]);
        i = i + 1;
        assert(r@ =~= before + digits@.subrange(from as int, i as int));
    }
}

/// Fewer digits have no larger value.
proof fn lemma_digits_value(s: Seq<char>, count: nat, more: nat)
    requires
        count <= more <= s.len(),
    ensures
        digits_value(s, count) <= digits_value(s, more),
    decreases more,
{
    if count < more {
        lemma_digits_value(s, count, (more - 1) as nat);
    }
}

/// The integer that a text writes.
fn read_integer(chars: &Vec<char>, from: usize, n: Ghost<int>) -> (r: i32)
    requires
        from <= chars@.len(),
        writes(chars@.skip(from as int), n@),
        -0x7fff_ffff <= n@ <= 0x7fff_ffff,
    ensures
        r == n@,
{
    let ghost s = chars@.skip(from as int);
    let negative: bool = from < chars.len() && chars[from] == '-';
    let signed: bool = negative || (from < chars.len() && chars[from] == '+');
    let start: usize = if signed {
        from + 1
    } else {
        from
    };
    let ghost t = chars@.skip(start as int);
    proof {
        if signed {
            assert(t =~= s.skip(1));
        }
    }
    let mut value: i32 = 0;
    let mut i: usize = start;
    while i < chars.len()
        invariant
            start <= i <= chars@.len(),
            t == chars@.skip(start as int),
            all_digits(t),
            digits_value(t, t.len()) <= 0x7fff_ffff,
            value == digits_value(t, (i - start) as nat),
        decreases chars@.len() - i,
    {
        let c: char = chars[i];
        proof {
            assert(c == t[i - start]);
            assert(is_digit(t[i - start]));
            lemma_digits_value(t, (i - start + 1) as nat, t.len());
        }
        let d: u32 = c as u32 - '0' as u32;
        value = value * 10 + d as i32;
        i = i + 1;
    }
    if negative {
        -value
    } else {
        value
    }
}

/// The exponent in writing is unique.
proof fn lemma_form(s: Seq<char>, a: Seq<char>, m: int, b: Seq<char>, n: int)
    requires
        scientific_form(s, a, m),
        scientific_form(s, b, n),
    ensures
        a == b,
        m == n,
{
    let i = choose|at: int|
        {
            &&& 0 <= at < s.len()
            &&& #[trigger] s[at] == 'e'
            &&& forall|i: int| 0 <= i < at ==> s[i] != 'e'
            &&& a == s.take(at)
            &&& writes(s.skip(at + 1), m)
        };
    let j = choose|at: int|
        {
            &&& 0 <= at < s.len()
            &&& #[trigger] s[at] == 'e'
            &&& forall|i: int| 0 <= i < at ==> s[i] != 'e'
            &&& b == s.take(at)
            &&& writes(s.skip(at + 1), n)
        };
    assert(i == j);
}

/// True of a text in scientific notation whose exponent is within reason.
pub open spec fn is_scientific(s: Seq<char>) -> bool {
    exists|mantissa: Seq<char>, exponent: int| #[trigger]
        scientific_form(s, mantissa, exponent) && -0x7fff_ffff <= exponent <= 0x7fff_ffff
}

/// How ECMAScript writes `n`, which is `scientific` in scientific notation.
pub open spec fn written(n: Binary64, scientific: Seq<char>) -> Seq<char> {
    if n.same(Binary64::zero()) {
        "0"@
    } else if n.is_nan() {
        "NaN"@
    } else if !n.is_finite() {
        if n.gt(Binary64::zero()) {
            "Infinity"@
        } else {
            "-Infinity"@
        }
    } else {
        let (mantissa, exponent) = form_of(scientific);
        js_text(mantissa, exponent)
    }
}

/// The mantissa and the exponent of a number in scientific notation.
pub open spec fn form_of(scientific: Seq<char>) -> (Seq<char>, int) {
    choose|mantissa: Seq<char>, exponent: int| #[trigger]
        scientific_form(scientific, mantissa, exponent) && -0x7fff_ffff <= exponent <= 0x7fff_ffff
}

/// A text has one mantissa and one exponent.
pub proof fn law_one_form(s: Seq<char>, mantissa: Seq<char>, exponent: int)
    requires
        scientific_form(s, mantissa, exponent),
        -0x7fff_ffff <= exponent <= 0x7fff_ffff,
    ensures
        form_of(s) == (mantissa, exponent),
{
    lemma_form(s, form_of(s).0, form_of(s).1, mantissa, exponent);
}

/// `String(n)` in ECMAScript: shortest round-trip digits, exponent form only
/// at magnitude 1e21 or below 1e-6, with a signed exponent. The digits come
/// from `scientific`, which is `n` in scientific notation.
pub fn js_number_string(n: Binary64, scientific: &str) -> (r: String)
    requires
        n.is_finite() && !n.same(Binary64::zero()) ==> is_scientific(scientific@),
    ensures
        r@ == written(n, scientific@),
{
    if n.same(Binary64::zero()) {
        return "0".to_owned();
    }
    if !n.is_finite() {
        return if n.is_nan() {
            "NaN".to_owned()
        } else if n.gt(Binary64::zero()) {
            "Infinity".to_owned()
        } else {
            "-Infinity".to_owned()
        };
    }
    let ghost s = scientific@;
    let chars: Vec<char> = characters(scientific);
    let length: usize = chars.len();
    let ghost form = form_of(s);
    let ghost found = choose|at: int|
        {
            &&& 0 <= at < s.len()
            &&& #[trigger] s[at] == 'e'
            &&& forall|i: int| 0 <= i < at ==> s[i] != 'e'
            &&& form.0 == s.take(at)
            &&& writes(s.skip(at + 1), form.1)
        };
    let mut at: usize = 0;
    while chars[at] != 'e'
        invariant
            chars@ == s,
            length == s.len(),
            0 <= found < s.len(),
            s[found] == 'e',
            forall|i: int| 0 <= i < found ==> s[i] != 'e',
            at <= found,
        decreases s.len() - at,
    {
        at = at + 1;
    }
    let exponent: i32 = read_integer(&chars, at + 1, Ghost(form.1));
    let end: usize = crate::text::byte_offset(scientific, &chars, at);
    proof {
        assert(s.subrange(0, at as int) =~= s.take(at as int));
        assert(offset(s, 0) == 0);
    }
    let mantissa: &str = part(scientific, 0, end, Ghost(0), Ghost(at as int));
    if -6 <= exponent && exponent <= 20 {
        let marks: Vec<char> = characters(mantissa);
        let negative: bool = marks.len() > 0 && marks[0] == '-';
        let digits: Vec<char> = collect_digits(&marks);
        plain(negative, &digits, exponent + 1)
    } else {
        let mut r: String = mantissa.to_owned();
        proof {
            reveal_strlit("e-");
            reveal_strlit("e+");
        }
        let ghost m = form.0;
        let power: i32 = if exponent < 0 {
            r.append("e-");
            assert(r@ =~= m + seq!['e'] + seq!['-']);
            -exponent
        } else {
            r.append("e+");
            assert(r@ =~= m + seq!['e'] + seq!['+']);
            exponent
        };
        r.append(decimal(power as usize).as_str());
        r
    }
}

}
