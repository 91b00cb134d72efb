//! What holds of static plans.

use crate::binary64::Binary64;
use crate::model::{Line, Mode, Options, Paragraph};
use crate::numerals::{decimal_text, is_digit};
use crate::sampling::sample;
use crate::solve::best_layout;
use crate::statics::{
    all_fit, band_at, bands_to, breaks_text, gaps_of, key_of, line_rules, lines_at, optional_text,
    plan_text, plan_text_to, repeats, spacing_rules, unfit, Band, Declaration,
};
use vstd::prelude::*;

verus! {

/// The last sample of a band: the one before the next band begins.
pub open spec fn stop_of(starts: Seq<nat>, k: nat, i: int) -> nat {
    if i + 1 < starts.len() {
        (starts[i + 1] - 1) as nat
    } else {
        (k - 1) as nat
    }
}

/// Bands that begin with these samples: each covers the samples up to the next
/// band, all with the plan of its first, and adjacent bands have different
/// plans.
pub open spec fn banded<F: Fn(Binary64, usize) -> (Binary64, String)>(
    bands: Seq<Band>,
    p: Paragraph,
    o: Options,
    print: &F,
    min: Binary64,
    step: Binary64,
    k: nat,
    starts: Seq<nat>,
) -> bool {
    &&& starts.len() == bands.len()
    &&& k > 0 ==> starts.len() > 0 && starts[0] == 0
    &&& forall|i: int| 0 <= i < starts.len() ==> #[trigger] starts[i] < k
    &&& forall|i: int, j: int|
        0 <= i < j < starts.len() ==> (#[trigger] starts[i]) < #[trigger] starts[j]
    &&& forall|i: int|
        0 <= i < bands.len() ==> #[trigger] bands[i] == (Band {
            max: sample(min, step, stop_of(starts, k, i)) + step,
            ..band_at(p, o, print, sample(min, step, starts[i]), step)
        })
    &&& forall|i: int| 0 < i < starts.len() ==> !repeats(p, o, min, step, #[trigger] starts[i])
    &&& forall|i: int, j: nat|
        0 <= i < starts.len() && #[trigger] covers(starts, k, i, j) && starts[i] < j ==> repeats(
            p,
            o,
            min,
            step,
            j,
        )
}

/// Band `i` covers sample `j`.
pub open spec fn covers(starts: Seq<nat>, k: nat, i: int, j: nat) -> bool {
    starts[i] <= j <= stop_of(starts, k, i)
}

/// Equal adjacent plans collapse into one band: the bands cover the samples in
/// order, each those that share its plan, and adjacent bands differ.
pub proof fn law_bands_collapse<F: Fn(Binary64, usize) -> (Binary64, String)>(
    p: Paragraph,
    o: Options,
    print: &F,
    min: Binary64,
    step: Binary64,
    k: nat,
) -> (starts: Seq<nat>)
    ensures
        banded(bands_to(p, o, print, min, step, k), p, o, print, min, step, k, starts),
    decreases k,
{
    let bands = bands_to(p, o, print, min, step, k);
    if k == 0 {
        seq![]
    } else {
        let m = (k - 1) as nat;
        let old_starts = law_bands_collapse(p, o, print, min, step, m);
        let before = bands_to(p, o, print, min, step, m);
        if k > 1 && repeats(p, o, min, step, m) {
            let n = old_starts.len() as int;
            assert forall|i: int| 0 <= i < bands.len() implies #[trigger] bands[i] == (Band {
                max: sample(min, step, stop_of(old_starts, k, i)) + step,
                ..band_at(p, o, print, sample(min, step, old_starts[i]), step)
            }) by {
                assert(before[i] == (Band {
                    max: sample(min, step, stop_of(old_starts, m, i)) + step,
                    ..band_at(p, o, print, sample(min, step, old_starts[i]), step)
                }));
            }
            assert forall|i: int, j: nat|
                0 <= i < n && #[trigger] covers(old_starts, k, i, j) && old_starts[i]
                    < j implies repeats(p, o, min, step, j) by {
                if j < m {
                    assert(covers(old_starts, m, i, j));
                } else if i + 1 < n {
                    assert(old_starts[i + 1] < m);
                }
            }
            old_starts
        } else {
            let starts = old_starts.push(m);
            let n = starts.len() as int;
            assert forall|i: int| 0 <= i < bands.len() implies #[trigger] bands[i] == (Band {
                max: sample(min, step, stop_of(starts, k, i)) + step,
                ..band_at(p, o, print, sample(min, step, starts[i]), step)
            }) by {
                if i < n - 1 {
                    assert(bands[i] == before[i]);
                    assert(stop_of(starts, k, i) == stop_of(old_starts, m, i));
                } else {
                    reveal(band_at);
                }
            }
            assert forall|i: int, j: nat|
                0 <= i < n && #[trigger] covers(starts, k, i, j) && starts[i] < j implies repeats(
                p,
                o,
                min,
                step,
                j,
            ) by {
                if i < n - 1 {
                    assert(stop_of(starts, k, i) == stop_of(old_starts, m, i));
                    assert(covers(old_starts, m, i, j));
                }
            }
            starts
        }
    }
}

/// A text without a character.
spec fn lacks(s: Seq<char>, c: char) -> bool {
    forall|i: int| 0 <= i < s.len() ==> #[trigger] s[i] != c
}

/// A text splits in one way at the first of a character.
proof fn lemma_split(a: Seq<char>, x: Seq<char>, b: Seq<char>, y: Seq<char>, c: char)
    requires
        lacks(a, c),
        lacks(b, c),
        a + seq![c] + x == b + seq![c] + y,
    ensures
        a == b,
        x == y,
{
    let (s, t) = (a + seq![c] + x, b + seq![c] + y);
    assert(s[a.len() as int] == c);
    assert(t[b.len() as int] == c);
    if a.len() < b.len() {
        assert(t[a.len() as int] == b[a.len() as int]);
    }
    if b.len() < a.len() {
        assert(s[b.len() as int] == a[b.len() as int]);
    }
    assert(a =~= b) by {
        assert forall|i: int| 0 <= i < a.len() implies a[i] == b[i] by {
            assert(s[i] == t[i]);
        }
    }
    assert(x =~= s.skip(a.len() + 1int));
    assert(y =~= t.skip(b.len() + 1int));
}

/// A text splits in one way at the last of a character.
proof fn lemma_split_last(a: Seq<char>, x: Seq<char>, b: Seq<char>, y: Seq<char>, c: char)
    requires
        lacks(x, c),
        lacks(y, c),
        a + seq![c] + x == b + seq![c] + y,
    ensures
        a == b,
        x == y,
{
    let (s, t) = (a + seq![c] + x, b + seq![c] + y);
    assert(s[a.len() as int] == c);
    assert(t[b.len() as int] == c);
    assert(s.len() == t.len());
    if a.len() < b.len() {
        assert(s[b.len() as int] == x[b.len() - a.len() - 1]);
    }
    if b.len() < a.len() {
        assert(t[a.len() as int] == y[a.len() - b.len() - 1]);
    }
    assert(a =~= b) by {
        assert forall|i: int| 0 <= i < a.len() implies a[i] == b[i] by {
            assert(s[i] == t[i]);
        }
    }
    assert(x =~= s.skip(a.len() + 1int));
    assert(y =~= t.skip(b.len() + 1int));
}

/// A number in writing is made of digits.
proof fn lemma_decimal_digits(n: nat)
    ensures
        decimal_text(n).len() > 0,
        forall|i: int| 0 <= i < decimal_text(n).len() ==> is_digit(#[trigger] decimal_text(n)[i]),
    decreases n,
{
    if n >= 10 {
        lemma_decimal_digits(n / 10);
    }
}

/// Different numbers are written differently.
pub proof fn law_decimal_faithful(m: nat, n: nat)
    requires
        decimal_text(m) == decimal_text(n),
    ensures
        m == n,
    decreases m,
{
    let (s, t) = (decimal_text(m), decimal_text(n));
    assert(s.last() == t.last());
    assert(s.drop_last() =~= t.drop_last());
    if m >= 10 && n >= 10 {
        lemma_decimal_digits(m / 10);
        assert(s.drop_last() =~= decimal_text(m / 10));
        assert(t.drop_last() =~= decimal_text(n / 10));
        law_decimal_faithful(m / 10, n / 10);
    } else if m >= 10 {
        lemma_decimal_digits(m / 10);
    } else if n >= 10 {
        lemma_decimal_digits(n / 10);
    }
}

/// Optional numbers in writing have no separators, and differ as they do.
proof fn lemma_optional(m: Option<usize>)
    ensures
        lacks(optional_text(m), ','),
        lacks(optional_text(m), '['),
        lacks(optional_text(m), ']'),
        m is None ==> optional_text(m) == seq!['n', 'u', 'l', 'l'],
        m is Some ==> is_digit(optional_text(m)[0]) && optional_text(m).len() > 0,
{
    reveal_strlit("null");
    match m {
        Some(n) => {
            lemma_decimal_digits(n as nat);
        },
        None => {
            assert(optional_text(m) =~= seq!['n', 'u', 'l', 'l']);
        },
    }
}

/// Different optional numbers are written differently.
proof fn lemma_optional_faithful(m: Option<usize>, n: Option<usize>)
    requires
        optional_text(m) == optional_text(n),
    ensures
        m == n,
{
    lemma_optional(m);
    lemma_optional(n);
    if m is Some && n is Some {
        law_decimal_faithful(m->0 as nat, n->0 as nat);
    }
}

/// Two lines begin and end alike.
pub open spec fn same_breaks(a: Line, b: Line) -> bool {
    &&& a.start == b.start
    &&& a.end == b.end
    &&& a.start_offset == b.start_offset
    &&& a.end_offset == b.end_offset
}

/// Two plans have lines that begin and end alike.
pub open spec fn same_plan(a: Seq<Line>, b: Seq<Line>) -> bool {
    &&& a.len() == b.len()
    &&& forall|i: int| 0 <= i < a.len() ==> same_breaks(#[trigger] a[i], b[i])
}

/// The inside of the text of a line, in four parts.
spec fn fields(line: Line) -> Seq<char> {
    decimal_text(line.start as nat) + (seq![','] + (decimal_text(line.end as nat) + (seq![','] + (
    optional_text(line.start_offset) + (seq![','] + optional_text(line.end_offset))))))
}

/// The text of a line is its fields in brackets.
proof fn lemma_fields(line: Line)
    ensures
        breaks_text(line) == seq!['['] + fields(line) + seq![']'],
        lacks(fields(line), '['),
        lacks(fields(line), ']'),
{
    reveal_strlit("[");
    reveal_strlit(",");
    reveal_strlit("]");
    lemma_decimal_digits(line.start as nat);
    lemma_decimal_digits(line.end as nat);
    lemma_optional(line.start_offset);
    lemma_optional(line.end_offset);
    assert("["@ =~= seq!['[']);
    assert(","@ =~= seq![',']);
    assert("]"@ =~= seq![']']);
    assert(breaks_text(line) =~= seq!['['] + fields(line) + seq![']']);
}

/// Equal fields belong to lines that break alike.
proof fn lemma_fields_faithful(a: Line, b: Line)
    requires
        fields(a) == fields(b),
    ensures
        same_breaks(a, b),
{
    lemma_decimal_digits(a.start as nat);
    lemma_decimal_digits(b.start as nat);
    lemma_decimal_digits(a.end as nat);
    lemma_decimal_digits(b.end as nat);
    lemma_optional(a.start_offset);
    lemma_optional(b.start_offset);
    let (a1, b1) = (decimal_text(a.start as nat), decimal_text(b.start as nat));
    let (a2, b2) = (decimal_text(a.end as nat), decimal_text(b.end as nat));
    let (a3, b3) = (optional_text(a.start_offset), optional_text(b.start_offset));
    let (a4, b4) = (optional_text(a.end_offset), optional_text(b.end_offset));
    let comma = seq![','];
    let (x3, y3) = (a3 + (comma + a4), b3 + (comma + b4));
    let (x2, y2) = (a2 + (comma + x3), b2 + (comma + y3));
    assert(fields(a) =~= a1 + comma + x2);
    assert(fields(b) =~= b1 + comma + y2);
    lemma_split(a1, x2, b1, y2, ',');
    assert(x2 =~= a2 + comma + x3);
    assert(y2 =~= b2 + comma + y3);
    lemma_split(a2, x3, b2, y3, ',');
    assert(x3 =~= a3 + comma + a4);
    assert(y3 =~= b3 + comma + b4);
    lemma_split(a3, a4, b3, b4, ',');
    law_decimal_faithful(a.start as nat, b.start as nat);
    law_decimal_faithful(a.end as nat, b.end as nat);
    lemma_optional_faithful(a.start_offset, b.start_offset);
    lemma_optional_faithful(a.end_offset, b.end_offset);
}

/// The text of lines before its last line.
spec fn opening_text(lines: Seq<Line>, m: nat) -> Seq<char> {
    if m == 1 {
        seq!['[']
    } else {
        plan_text_to(lines, (m - 1) as nat) + seq![',']
    }
}

/// How the text of lines ends.
proof fn lemma_plan_end(lines: Seq<Line>, m: nat)
    ensures
        m == 0 ==> plan_text_to(lines, m) == seq!['['],
        m > 0 ==> plan_text_to(lines, m) == opening_text(lines, m) + (seq!['['] + fields(
            lines[m - 1],
        ) + seq![']']),
        plan_text_to(lines, m).len() > 0,
        plan_text_to(lines, m)[0] == '[',
        plan_text_to(lines, m).last() == if m == 0 {
            '['
        } else {
            ']'
        },
        m > 0 ==> opening_text(lines, m).last() == if m == 1 {
            '['
        } else {
            ','
        },
    decreases m,
{
    reveal_strlit("[");
    reveal_strlit(",");
    assert("["@ =~= seq!['[']);
    assert(","@ =~= seq![',']);
    reveal_with_fuel(plan_text_to, 2);
    if m > 0 {
        lemma_fields(lines[m - 1]);
        lemma_plan_end(lines, (m - 1) as nat);
    }
}

/// A text splits in one way before its last pair of brackets.
proof fn lemma_brackets(x: Seq<char>, f: Seq<char>, y: Seq<char>, g: Seq<char>)
    requires
        lacks(f, '['),
        lacks(g, '['),
        x + (seq!['['] + f + seq![']']) == y + (seq!['['] + g + seq![']']),
    ensures
        x == y,
        f == g,
{
    let (s, t) = (f + seq![']'], g + seq![']']);
    assert(x + (seq!['['] + f + seq![']']) =~= x + seq!['['] + s);
    assert(y + (seq!['['] + g + seq![']']) =~= y + seq!['['] + t);
    assert(lacks(s, '['));
    assert(lacks(t, '['));
    lemma_split_last(x, s, y, t, '[');
    assert(f =~= s.drop_last());
    assert(g =~= t.drop_last());
}

/// Equal texts belong to plans that break alike.
proof fn lemma_plan_faithful(a: Seq<Line>, m: nat, b: Seq<Line>, n: nat)
    requires
        m <= a.len(),
        n <= b.len(),
        plan_text_to(a, m) == plan_text_to(b, n),
    ensures
        m == n,
        forall|i: int| 0 <= i < m ==> same_breaks(#[trigger] a[i], b[i]),
    decreases m,
{
    lemma_plan_end(a, m);
    lemma_plan_end(b, n);
    if m > 0 {
        let (x, y) = (opening_text(a, m), opening_text(b, n));
        let (f, g) = (fields(a[m - 1]), fields(b[n - 1]));
        lemma_fields(a[m - 1]);
        lemma_fields(b[n - 1]);
        lemma_brackets(x, f, y, g);
        lemma_fields_faithful(a[m - 1], b[n - 1]);
        if m > 1 && n > 1 {
            assert(plan_text_to(a, (m - 1) as nat) =~= x.drop_last());
            assert(plan_text_to(b, (n - 1) as nat) =~= y.drop_last());
            lemma_plan_faithful(a, (m - 1) as nat, b, (n - 1) as nat);
        }
    }
}

/// Plans that break alike have equal texts.
proof fn lemma_plan_same(a: Seq<Line>, b: Seq<Line>, m: nat)
    requires
        same_plan(a, b),
        m <= a.len(),
    ensures
        plan_text_to(a, m) == plan_text_to(b, m),
    decreases m,
{
    if m > 0 {
        lemma_plan_same(a, b, (m - 1) as nat);
        assert(same_breaks(a[m - 1], b[m - 1]));
    }
}

/// Keys tell plans apart: they are equal where both plans are unfit, or where
/// both fit and break alike, and nowhere else.
pub proof fn law_key_faithful(a: Seq<Line>, b: Seq<Line>)
    ensures
        key_of(a) == key_of(b) <==> (!all_fit(a) && !all_fit(b)) || (all_fit(a) && all_fit(b)
            && same_plan(a, b)),
{
    reveal_strlit("native");
    reveal_strlit("]");
    assert("]"@ =~= seq![']']);
    lemma_plan_end(a, a.len());
    lemma_plan_end(b, b.len());
    assert(plan_text(a)[0] == '[');
    assert(plan_text(b)[0] == '[');
    assert("native"@[0] == 'n');
    if plan_text(a) == plan_text(b) {
        assert(plan_text_to(a, a.len()) =~= plan_text(a).drop_last());
        assert(plan_text_to(b, b.len()) =~= plan_text(b).drop_last());
        lemma_plan_faithful(a, a.len(), b, b.len());
    }
    if same_plan(a, b) {
        lemma_plan_same(a, b, a.len());
    }
}

/// One name sorts before another.
pub open spec fn sorts_before(a: Seq<char>, b: Seq<char>) -> bool {
    exists|i: int| #[trigger] differs_at(a, b, i)
}

/// Two names are alike up to `i`, where the first ends or has the lesser
/// character.
pub open spec fn differs_at(a: Seq<char>, b: Seq<char>, i: int) -> bool {
    &&& 0 <= i <= a.len()
    &&& i < b.len()
    &&& forall|j: int| 0 <= j < i ==> a[j] == b[j]
    &&& i == a.len() || a[i] < b[i]
}

/// Declarations in the order of their names, with no name twice.
pub open spec fn ordered_names(d: Seq<Declaration>) -> bool {
    forall|i: int, j: int|
        0 <= i < j < d.len() ==> sorts_before((#[trigger] d[i]).0, (#[trigger] d[j]).0)
}

proof fn lemma_sorts(a: Seq<char>, b: Seq<char>, i: int)
    requires
        differs_at(a, b, i),
    ensures
        sorts_before(a, b),
{
}

/// The names in use are in order.
proof fn lemma_names()
    ensures
        sorts_before("--j-c"@, "--j-cap"@),
        sorts_before("--j-c"@, "--j-g"@),
        sorts_before("--j-c"@, "--j-left"@),
        sorts_before("--j-c"@, "--j-m"@),
        sorts_before("--j-c"@, "--j-n"@),
        sorts_before("--j-c"@, "--j-p"@),
        sorts_before("--j-c"@, "--j-s"@),
        sorts_before("--j-cap"@, "--j-d"@),
        sorts_before("--j-cap"@, "--j-g"@),
        sorts_before("--j-cap"@, "--j-gap"@),
        sorts_before("--j-cap"@, "--j-left"@),
        sorts_before("--j-cap"@, "--j-m"@),
        sorts_before("--j-cap"@, "--j-n"@),
        sorts_before("--j-cap"@, "--j-p"@),
        sorts_before("--j-cap"@, "--j-s"@),
        sorts_before("--j-cap"@, "--j-t"@),
        sorts_before("--j-d"@, "--j-gap"@),
        sorts_before("--j-d"@, "--j-left"@),
        sorts_before("--j-d"@, "--j-s"@),
        sorts_before("--j-d"@, "--j-t"@),
        sorts_before("--j-g"@, "--j-left"@),
        sorts_before("--j-g"@, "--j-m"@),
        sorts_before("--j-g"@, "--j-n"@),
        sorts_before("--j-g"@, "--j-p"@),
        sorts_before("--j-g"@, "--j-s"@),
        sorts_before("--j-gap"@, "--j-left"@),
        sorts_before("--j-gap"@, "--j-s"@),
        sorts_before("--j-gap"@, "--j-t"@),
        sorts_before("--j-left"@, "--j-m"@),
        sorts_before("--j-left"@, "--j-n"@),
        sorts_before("--j-left"@, "--j-p"@),
        sorts_before("--j-left"@, "--j-s"@),
        sorts_before("--j-left"@, "--j-t"@),
        sorts_before("--j-m"@, "--j-n"@),
        sorts_before("--j-m"@, "--j-p"@),
        sorts_before("--j-m"@, "--j-s"@),
        sorts_before("--j-n"@, "--j-p"@),
        sorts_before("--j-n"@, "--j-s"@),
        sorts_before("--j-p"@, "--j-s"@),
        sorts_before("--j-s"@, "--j-t"@),
{
    reveal_strlit("--j-c");
    reveal_strlit("--j-cap");
    reveal_strlit("--j-d");
    reveal_strlit("--j-g");
    reveal_strlit("--j-gap");
    reveal_strlit("--j-left");
    reveal_strlit("--j-m");
    reveal_strlit("--j-n");
    reveal_strlit("--j-p");
    reveal_strlit("--j-s");
    reveal_strlit("--j-t");
    lemma_sorts("--j-c"@, "--j-cap"@, 5);
    lemma_sorts("--j-c"@, "--j-g"@, 4);
    lemma_sorts("--j-c"@, "--j-left"@, 4);
    lemma_sorts("--j-c"@, "--j-m"@, 4);
    lemma_sorts("--j-c"@, "--j-n"@, 4);
    lemma_sorts("--j-c"@, "--j-p"@, 4);
    lemma_sorts("--j-c"@, "--j-s"@, 4);
    lemma_sorts("--j-cap"@, "--j-d"@, 4);
    lemma_sorts("--j-cap"@, "--j-g"@, 4);
    lemma_sorts("--j-cap"@, "--j-gap"@, 4);
    lemma_sorts("--j-cap"@, "--j-left"@, 4);
    lemma_sorts("--j-cap"@, "--j-m"@, 4);
    lemma_sorts("--j-cap"@, "--j-n"@, 4);
    lemma_sorts("--j-cap"@, "--j-p"@, 4);
    lemma_sorts("--j-cap"@, "--j-s"@, 4);
    lemma_sorts("--j-cap"@, "--j-t"@, 4);
    lemma_sorts("--j-d"@, "--j-gap"@, 4);
    lemma_sorts("--j-d"@, "--j-left"@, 4);
    lemma_sorts("--j-d"@, "--j-s"@, 4);
    lemma_sorts("--j-d"@, "--j-t"@, 4);
    lemma_sorts("--j-g"@, "--j-left"@, 4);
    lemma_sorts("--j-g"@, "--j-m"@, 4);
    lemma_sorts("--j-g"@, "--j-n"@, 4);
    lemma_sorts("--j-g"@, "--j-p"@, 4);
    lemma_sorts("--j-g"@, "--j-s"@, 4);
    lemma_sorts("--j-gap"@, "--j-left"@, 4);
    lemma_sorts("--j-gap"@, "--j-s"@, 4);
    lemma_sorts("--j-gap"@, "--j-t"@, 4);
    lemma_sorts("--j-left"@, "--j-m"@, 4);
    lemma_sorts("--j-left"@, "--j-n"@, 4);
    lemma_sorts("--j-left"@, "--j-p"@, 4);
    lemma_sorts("--j-left"@, "--j-s"@, 4);
    lemma_sorts("--j-left"@, "--j-t"@, 4);
    lemma_sorts("--j-m"@, "--j-n"@, 4);
    lemma_sorts("--j-m"@, "--j-p"@, 4);
    lemma_sorts("--j-m"@, "--j-s"@, 4);
    lemma_sorts("--j-n"@, "--j-p"@, 4);
    lemma_sorts("--j-n"@, "--j-s"@, 4);
    lemma_sorts("--j-p"@, "--j-s"@, 4);
    lemma_sorts("--j-s"@, "--j-t"@, 4);
}

/// The shared declarations stand in the order of their names.
pub proof fn law_spacing_ordered<F: Fn(Binary64, usize) -> (Binary64, String)>(
    p: Paragraph,
    o: Options,
    print: &F,
)
    ensures
        ordered_names(spacing_rules(p, o, print)),
{
    lemma_names();
}

/// The declarations of a line stand in the order of their names.
pub proof fn law_line_ordered<F: Fn(Binary64, usize) -> (Binary64, String)>(
    p: Paragraph,
    line: Line,
    o: Options,
    print: &F,
)
    ensures
        ordered_names(line_rules(p, line, o, print)),
{
    lemma_names();
    let d = line_rules(p, line, o, print);
    let places = line_places(
        line.last,
        !line.opening.same(Binary64::zero()),
        o.mode == Mode::Strict || gaps_of(line) == 0,
    );
    assert(d.len() == places.len());
    assert forall|i: int| 0 <= i < d.len() implies (#[trigger] d[i]).0 == line_name(
        places[i],
    ) by {}
    assert forall|i: int, j: int| 0 <= i < j < d.len() implies sorts_before(
        (#[trigger] d[i]).0,
        (#[trigger] d[j]).0,
    ) by {
        assert(places[i] < places[j]);
        lemma_line_names(places[i], places[j]);
    }
}

/// The names that a line may declare, in order.
spec fn line_name(i: int) -> Seq<char> {
    if i == 0 {
        "--j-c"@
    } else if i == 1 {
        "--j-cap"@
    } else if i == 2 {
        "--j-g"@
    } else if i == 3 {
        "--j-left"@
    } else if i == 4 {
        "--j-m"@
    } else if i == 5 {
        "--j-n"@
    } else if i == 6 {
        "--j-p"@
    } else {
        "--j-s"@
    }
}

/// Which of its names a line declares.
spec fn line_places(cap: bool, left: bool, spacing: bool) -> Seq<int> {
    seq![0int] + (if cap {
        seq![1int]
    } else {
        seq![]
    }) + seq![2int] + (if left {
        seq![3int]
    } else {
        seq![]
    }) + seq![4int, 5int, 6int] + (if spacing {
        seq![7int]
    } else {
        seq![]
    })
}

/// The names that a line may declare are in order.
proof fn lemma_line_names(i: int, j: int)
    requires
        0 <= i < j < 8,
    ensures
        sorts_before(line_name(i), line_name(j)),
{
    lemma_names();
}

/// The plan of a band is the plan of each of its samples.
proof fn lemma_band_key<F: Fn(Binary64, usize) -> (Binary64, String)>(
    bands: Seq<Band>,
    p: Paragraph,
    o: Options,
    print: &F,
    min: Binary64,
    step: Binary64,
    k: nat,
    starts: Seq<nat>,
    i: int,
    j: nat,
)
    requires
        banded(bands, p, o, print, min, step, k, starts),
        0 <= i < starts.len(),
        covers(starts, k, i, j),
    ensures
        key_of(lines_at(p, o, sample(min, step, j))) == key_of(
            lines_at(p, o, sample(min, step, starts[i])),
        ),
    decreases j,
{
    if starts[i] < j {
        let m = (j - 1) as nat;
        assert(covers(starts, k, i, m));
        lemma_band_key(bands, p, o, print, min, step, k, starts, i, m);
        assert(repeats(p, o, min, step, j));
        reveal(repeats);
    }
}

/// Every sample is laid out by the band that it lies in. Bands begin one after
/// the other, the first with the first sample, and reach from their first
/// sample to a step past their last. Where a band has lines, the optimal layout
/// at each of its samples leaves at most half a pixel over on every line and
/// has line by line the same start, end and offsets as the band; where a band
/// has none, each of its samples leaves more over on some line. At the first
/// sample of a later band the layout is not that of the sample before.
pub proof fn law_bands_lay_out_their_samples<F: Fn(Binary64, usize) -> (Binary64, String)>(
    p: Paragraph,
    o: Options,
    print: &F,
    min: Binary64,
    step: Binary64,
    k: nat,
) -> (starts: Seq<nat>)
    ensures
        ({
            let bands = bands_to(p, o, print, min, step, k);
            &&& starts.len() == bands.len()
            &&& k > 0 ==> starts.len() > 0 && starts[0] == 0
            &&& forall|i: int, j: int|
                0 <= i < j < starts.len() ==> (#[trigger] starts[i]) < #[trigger] starts[j] < k
            &&& forall|i: int|
                0 <= i < starts.len() ==> (#[trigger] bands[i]).min == sample(min, step, starts[i])
                    && bands[i].max == sample(min, step, stop_of(starts, k, i)) + step
            &&& forall|i: int, j: nat|
                0 <= i < starts.len() && #[trigger] covers(starts, k, i, j) ==> {
                    let lines = best_layout(p, seq![sample(min, step, j)], o).lines;
                    match bands[i].lines {
                        Some(rules) => {
                            &&& rules.len() == lines.len()
                            &&& forall|n: int|
                                0 <= n < rules.len() ==> {
                                    &&& (#[trigger] rules[n]).line.start == lines[n].start
                                    &&& rules[n].line.end == lines[n].end
                                    &&& rules[n].line.start_offset == lines[n].start_offset
                                    &&& rules[n].line.end_offset == lines[n].end_offset
                                    &&& !lines[n].residual.abs().gt(Binary64::ratio(1, 2))
                                }
                        },
                        None => exists|n: int|
                            0 <= n < lines.len() && (#[trigger] lines[n]).residual.abs().gt(
                                Binary64::ratio(1, 2),
                            ),
                    }
                }
            &&& forall|i: int, n: int|
                0 <= i < starts.len() && bands[i].lines is Some && 0 <= n
                    < bands[i].lines->0.len() ==> {
                    let line = best_layout(p, seq![sample(min, step, starts[i])], o).lines[n];
                    (#[trigger] bands[i].lines->0[n]).line == line
                        && bands[i].lines->0[n].properties == line_rules(p, line, o, print)
                }
            &&& forall|i: int|
                0 < i < starts.len() ==> {
                    let here = best_layout(p, seq![sample(min, step, #[trigger] starts[i])], o).lines;
                    let before = best_layout(
                        p,
                        seq![sample(min, step, (starts[i] - 1) as nat)],
                        o,
                    ).lines;
                    !(bands[i].lines is None && bands[i - 1].lines is None) && !(
                    bands[i].lines is Some && bands[i - 1].lines is Some && same_plan(here, before))
                }
        }),
{
    let bands = bands_to(p, o, print, min, step, k);
    let starts = law_bands_collapse(p, o, print, min, step, k);
    reveal(band_at);
    assert forall|i: int, j: nat|
        0 <= i < starts.len() && #[trigger] covers(starts, k, i, j) implies {
        let lines = best_layout(p, seq![sample(min, step, j)], o).lines;
        match bands[i].lines {
            Some(rules) => {
                &&& rules.len() == lines.len()
                &&& forall|n: int|
                    0 <= n < rules.len() ==> {
                        &&& (#[trigger] rules[n]).line.start == lines[n].start
                        &&& rules[n].line.end == lines[n].end
                        &&& rules[n].line.start_offset == lines[n].start_offset
                        &&& rules[n].line.end_offset == lines[n].end_offset
                        &&& !lines[n].residual.abs().gt(Binary64::ratio(1, 2))
                    }
            },
            None => exists|n: int|
                0 <= n < lines.len() && (#[trigger] lines[n]).residual.abs().gt(
                    Binary64::ratio(1, 2),
                ),
        }
    } by {
        let first = lines_at(p, o, sample(min, step, starts[i]));
        let lines = lines_at(p, o, sample(min, step, j));
        lemma_band_key(bands, p, o, print, min, step, k, starts, i, j);
        law_key_faithful(lines, first);
        assert(bands[i] == (Band {
            max: sample(min, step, stop_of(starts, k, i)) + step,
            ..band_at(p, o, print, sample(min, step, starts[i]), step)
        }));
        if all_fit(lines) {
            let rules = bands[i].lines->0;
            assert forall|n: int| 0 <= n < rules.len() implies {
                &&& (#[trigger] rules[n]).line.start == lines[n].start
                &&& rules[n].line.end == lines[n].end
                &&& rules[n].line.start_offset == lines[n].start_offset
                &&& rules[n].line.end_offset == lines[n].end_offset
                &&& !lines[n].residual.abs().gt(Binary64::ratio(1, 2))
            } by {
                assert(rules[n].line == first[n]);
                assert(same_breaks(lines[n], first[n]));
                assert(!unfit(lines[n]));
            }
        } else {
            let n = choose|n: int| 0 <= n < lines.len() && unfit(#[trigger] lines[n]);
            assert(lines[n].residual.abs().gt(Binary64::ratio(1, 2)));
        }
    }
    assert forall|i: int, n: int|
        0 <= i < starts.len() && bands[i].lines is Some && 0 <= n < bands[i].lines->0.len() implies {
        let line = best_layout(p, seq![sample(min, step, starts[i])], o).lines[n];
        (#[trigger] bands[i].lines->0[n]).line == line && bands[i].lines->0[n].properties
            == line_rules(p, line, o, print)
    } by {
        assert(bands[i] == (Band {
            max: sample(min, step, stop_of(starts, k, i)) + step,
            ..band_at(p, o, print, sample(min, step, starts[i]), step)
        }));
    }
    assert forall|i: int| 0 < i < starts.len() implies {
        let here = best_layout(p, seq![sample(min, step, #[trigger] starts[i])], o).lines;
        let before = best_layout(p, seq![sample(min, step, (starts[i] - 1) as nat)], o).lines;
        !(bands[i].lines is None && bands[i - 1].lines is None) && !(bands[i].lines is Some
            && bands[i - 1].lines is Some && same_plan(here, before))
    } by {
        let j = (starts[i] - 1) as nat;
        assert(starts[i - 1] < starts[i]);
        assert(covers(starts, k, i - 1, j));
        assert(!repeats(p, o, min, step, starts[i]));
        reveal(repeats);
        let here = lines_at(p, o, sample(min, step, starts[i]));
        let before = lines_at(p, o, sample(min, step, j));
        lemma_band_key(bands, p, o, print, min, step, k, starts, i - 1, j);
        law_key_faithful(here, before);
        law_key_faithful(before, lines_at(p, o, sample(min, step, starts[i - 1])));
        assert(bands[i] == (Band {
            max: sample(min, step, stop_of(starts, k, i)) + step,
            ..band_at(p, o, print, sample(min, step, starts[i]), step)
        }));
        assert(bands[i - 1] == (Band {
            max: sample(min, step, stop_of(starts, k, i - 1)) + step,
            ..band_at(p, o, print, sample(min, step, starts[i - 1]), step)
        }));
    }
    starts
}

}
