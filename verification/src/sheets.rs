//! What the declarations of a line mean.

use crate::accounting::{accountable, law_line_accounts, lemma_reach, tolerance};
use crate::binary64::Binary64;
use crate::errors::{
    amount, lemma_amount_order, lemma_amount_zero, lemma_div_error, lemma_near, lemma_sizes,
    lemma_sub_error, lemma_tiny, lemma_unit, near, size, tiny, ulp,
};
use crate::fit::{fitted, Extent};
use crate::model::{Line, Mode, Options, Paragraph};
use crate::numerals::decimal_text;
use crate::render::rendered;
use crate::statics::{line_rules, printed, spacing_rules, Declaration};
use crate::text::grapheme_total;
use vstd::prelude::*;

verus! {

/// A name is declared to be a value.
pub open spec fn declares(rules: Seq<Declaration>, name: Seq<char>, value: Seq<char>) -> bool {
    exists|i: int| 0 <= i < rules.len() && #[trigger] rules[i] == (name, value)
}

/// A declaration at a known place.
proof fn lemma_declares(rules: Seq<Declaration>, i: int, name: Seq<char>, value: Seq<char>)
    requires
        0 <= i < rules.len(),
        rules[i].0 == name,
        rules[i].1 == value,
    ensures
        declares(rules, name, value),
{
    assert(rules[i] == (name, value));
}

/// Where the declarations of a line stand.
proof fn lemma_places<F: Fn(Binary64, usize) -> (Binary64, String)>(
    p: Paragraph,
    line: Line,
    o: Options,
    print: &F,
)
    ensures
        ({
            let rules = line_rules(p, line, o, print);
            let a: int = if line.last {
                1
            } else {
                0
            };
            let b: int = if !line.opening.same(Binary64::zero()) {
                a + 1
            } else {
                a
            };
            &&& rules.len() >= b + 5
            &&& rules[0].0 == "--j-c"@
            &&& line.last ==> rules[1].0 == "--j-cap"@
            &&& rules[a + 1].0 == "--j-g"@
            &&& b > a ==> rules[a + 2].0 == "--j-left"@
            &&& rules[b + 2].0 == "--j-m"@
            &&& rules[b + 3].0 == "--j-n"@
            &&& rules[b + 4].0 == "--j-p"@
        }),
{
}

/// A line that is not the last is declared as wide as what it leaves to be
/// distributed: its own measure less the declared width is what its spacing
/// over the gaps, its tracking over the characters and its residual add up to.
/// Hanging and opening credits are off the declared width.
pub proof fn law_declared_width_leaves_the_shortfall<
    F: Fn(Binary64, usize) -> (Binary64, String),
>(
    p: Paragraph,
    start: usize,
    end: usize,
    x: Extent,
    space: Binary64,
    width: Binary64,
    o: Options,
    emergency: bool,
    print: &F,
) -> (n: Binary64)
    requires
        start < end,
        x.gaps == end - start - 1,
        accountable(x, space, width, o),
        !x.last,
    ensures
        ({
            let line = fitted(start, end, x, space, width, o, emergency);
            &&& declares(
                line_rules(p, line, o, print),
                "--j-n"@,
                printed(print, n, 10) + "px"@,
            )
            &&& n.is_finite()
            &&& near(
                amount(line.width) - amount(n),
                amount(Binary64::from_count(x.gaps)) * amount(line.word_spacing) + amount(x.chars)
                    * amount(line.tracking) + amount(line.residual),
                2real * tolerance(x, width),
            )
            &&& near(
                amount(n),
                amount(x.natural) - amount(x.hanging) - amount(x.opening),
                tolerance(x, width),
            )
        }),
{
    let line = fitted(start, end, x, space, width, o, emergency);
    let n = line.natural - line.hanging - line.opening;
    lemma_unit();
    lemma_reach();
    let (a, h, v, w) = (
        amount(x.natural),
        amount(x.hanging),
        amount(x.opening),
        amount(width),
    );
    assert(line.natural == x.natural && line.hanging == x.hanging && line.opening == x.opening);
    assert(line.width == width);
    lemma_sizes(w, 0real);
    lemma_sizes(a, h);
    lemma_sizes(h, v);
    lemma_sizes(v, a);
    lemma_sub_error(x.natural, x.hanging);
    let f = amount(x.natural - x.hanging);
    lemma_near(f, a - h, ulp() * size(a - h));
    lemma_sizes(f, v);
    lemma_sub_error(x.natural - x.hanging, x.opening);
    law_line_accounts(start, end, x, space, width, o, emergency);
    let rules = line_rules(p, line, o, print);
    lemma_places(p, line, o, print);
    let b: int = if !line.opening.same(Binary64::zero()) {
        1
    } else {
        0
    };
    lemma_declares(rules, b + 3, "--j-n"@, printed(print, n, 10) + "px"@);
    n
}

/// What is declared of any line: its characters as it is rendered, its gaps but
/// at least one, its natural width less its credits, whether it is the last, and
/// by how much it opens to the left.
pub proof fn law_line_declares_itself<F: Fn(Binary64, usize) -> (Binary64, String)>(
    p: Paragraph,
    line: Line,
    o: Options,
    print: &F,
)
    requires
        line.start < line.end,
        grapheme_total(rendered(p, line)) <= usize::MAX,
    ensures
        ({
            let rules = line_rules(p, line, o, print);
            &&& declares(rules, "--j-c"@, decimal_text(grapheme_total(rendered(p, line))))
            &&& declares(
                rules,
                "--j-g"@,
                decimal_text(
                    if line.end - line.start > 2 {
                        (line.end - line.start - 1) as nat
                    } else {
                        1
                    },
                ),
            )
            &&& declares(
                rules,
                "--j-n"@,
                printed(print, line.natural - line.hanging - line.opening, 10) + "px"@,
            )
            &&& line.last ==> declares(rules, "--j-cap"@, "0px"@)
            &&& !line.opening.same(Binary64::zero()) ==> declares(
                rules,
                "--j-left"@,
                printed(print, -line.opening, 10) + "px"@,
            )
        }),
{
    let rules = line_rules(p, line, o, print);
    lemma_places(p, line, o, print);
    let a: int = if line.last {
        1
    } else {
        0
    };
    let b: int = if !line.opening.same(Binary64::zero()) {
        a + 1
    } else {
        a
    };
    lemma_declares(rules, 0, "--j-c"@, decimal_text(grapheme_total(rendered(p, line))));
    lemma_declares(
        rules,
        a + 1,
        "--j-g"@,
        decimal_text(
            if line.end - line.start > 2 {
                (line.end - line.start - 1) as nat
            } else {
                1
            },
        ),
    );
    lemma_declares(
        rules,
        b + 3,
        "--j-n"@,
        printed(print, line.natural - line.hanging - line.opening, 10) + "px"@,
    );
    if line.last {
        lemma_declares(rules, 1, "--j-cap"@, "0px"@);
    }
    if b > a {
        lemma_declares(rules, a + 2, "--j-left"@, printed(print, -line.opening, 10) + "px"@);
    }
}

/// A share of a budget, and that budget: together they make the whole.
proof fn lemma_share_of(whole: Binary64, budget: Binary64)
    requires
        whole.is_finite(),
        budget.is_finite(),
        0real <= amount(whole) <= 1000000000000real,
        1real / 1000000real <= amount(budget) <= 1000000000000real,
    ensures
        (whole / budget).is_finite(),
        near(amount(whole / budget) * amount(budget), amount(whole), 1real / 1000real),
{
    lemma_unit();
    lemma_reach();
    let (w, b, t) = (amount(whole), amount(budget), tiny());
    let q = w / b;
    assert(0real <= q <= 1000000000000000000real && q * b == w) by (nonlinear_arith)
        requires
            q == w / b,
            0real <= w <= 1000000000000real,
            1real / 1000000real <= b,
    ;
    lemma_sizes(q, 0real);
    lemma_tiny(b);
    lemma_div_error(whole, budget);
    let r = amount(whole / budget);
    assert(near(r * b, w, ulp() * w + t * b)) by (nonlinear_arith)
        requires
            near(r, q, ulp() * q + t),
            q * b == w,
            b > 0real,
    ;
}

/// The declared shares make up the tracking: a line that has to close by all
/// that its spaces may shrink and its letters may close is tracked in full by
/// the share for closing, and one that has to open by all that its spaces may
/// stretch and its letters may open in full by the share for opening. The
/// letters are those of the line as rendered.
pub proof fn law_declared_shares_make_up_the_tracking<
    F: Fn(Binary64, usize) -> (Binary64, String),
>(p: Paragraph, line: Line, o: Options, print: &F) -> (shares: (Binary64, Binary64))
    requires
        line.start < line.end,
        grapheme_total(rendered(p, line)) <= usize::MAX,
        o.tracking.is_finite(),
        0real <= amount(o.tracking) <= 1000000000000real,
        ({
            let gaps = Binary64::from_count((line.end - line.start - 1) as usize);
            let letters = Binary64::from_count(grapheme_total(rendered(p, line)) as usize);
            let tight = gaps * p.space * o.shrink + letters * o.tracking;
            let loose = gaps * p.space * o.stretch + letters * o.tracking;
            &&& tight.is_finite() && loose.is_finite()
            &&& 1real / 1000000real <= amount(tight) <= 1000000000000real
            &&& 1real / 1000000real <= amount(loose) <= 1000000000000real
        }),
    ensures
        ({
            let gaps = Binary64::from_count((line.end - line.start - 1) as usize);
            let letters = Binary64::from_count(grapheme_total(rendered(p, line)) as usize);
            let tight = gaps * p.space * o.shrink + letters * o.tracking;
            let loose = gaps * p.space * o.stretch + letters * o.tracking;
            let rules = line_rules(p, line, o, print);
            &&& declares(rules, "--j-m"@, printed(print, shares.0, 7))
            &&& declares(rules, "--j-p"@, printed(print, shares.1, 7))
            &&& shares.0.is_finite() && shares.1.is_finite()
            &&& near(amount(shares.0) * amount(tight), amount(o.tracking), 1real / 1000real)
            &&& near(amount(shares.1) * amount(loose), amount(o.tracking), 1real / 1000real)
        }),
{
    let gaps = Binary64::from_count((line.end - line.start - 1) as usize);
    let letters = Binary64::from_count(grapheme_total(rendered(p, line)) as usize);
    let tight = gaps * p.space * o.shrink + letters * o.tracking;
    let loose = gaps * p.space * o.stretch + letters * o.tracking;
    lemma_amount_zero();
    lemma_amount_order(tight, Binary64::zero());
    lemma_amount_order(loose, Binary64::zero());
    lemma_share_of(o.tracking, tight);
    lemma_share_of(o.tracking, loose);
    let rules = line_rules(p, line, o, print);
    lemma_places(p, line, o, print);
    let a: int = if line.last {
        1
    } else {
        0
    };
    let b: int = if !line.opening.same(Binary64::zero()) {
        a + 1
    } else {
        a
    };
    lemma_declares(rules, b + 2, "--j-m"@, printed(print, o.tracking / tight, 7));
    lemma_declares(rules, b + 4, "--j-p"@, printed(print, o.tracking / loose, 7));
    (o.tracking / tight, o.tracking / loose)
}

/// What is declared for all lines: the gap is the measured space with the
/// tracking and the spacing of the line; the spacing takes up what is left of
/// the shortfall once letters are tracked, evenly over the gaps and no further
/// than the shrink limit; the tracking goes by the shares, no further than the
/// policy's either way; and the shortfall is the container less the declared
/// width, at most the cap.
pub proof fn law_shared_declarations<F: Fn(Binary64, usize) -> (Binary64, String)>(
    p: Paragraph,
    o: Options,
    print: &F,
)
    ensures
        ({
            let rules = spacing_rules(p, o, print);
            let most = printed(print, o.tracking, 10);
            &&& rules.len() == 6
            &&& declares(rules, "--j-d"@, "min(var(--j-cap), calc(100cqw - var(--j-n)))"@)
            &&& declares(
                rules,
                "--j-gap"@,
                "calc("@ + printed(print, p.space, 10) + "px + var(--j-t) + var(--j-s))"@,
            )
            &&& declares(
                rules,
                "--j-s"@,
                "max(-"@ + printed(print, p.space * o.shrink, 10)
                    + "px, calc((var(--j-d) - var(--j-t) * var(--j-c)) / var(--j-g)))"@,
            )
            &&& declares(
                rules,
                "--j-t"@,
                "clamp(-"@ + most
                    + "px, calc(min(0px, var(--j-d)) * var(--j-m) + max(0px, var(--j-d)) * var(--j-p)), "@
                    + most + "px)"@,
            )
            &&& declares(rules, "--j-cap"@, "1000000px"@)
            &&& declares(rules, "--j-left"@, "0px"@)
        }),
{
    let rules = spacing_rules(p, o, print);
    let most = printed(print, o.tracking, 10);
    lemma_declares(rules, 0, "--j-cap"@, "1000000px"@);
    lemma_declares(rules, 1, "--j-d"@, "min(var(--j-cap), calc(100cqw - var(--j-n)))"@);
    lemma_declares(
        rules,
        2,
        "--j-gap"@,
        "calc("@ + printed(print, p.space, 10) + "px + var(--j-t) + var(--j-s))"@,
    );
    lemma_declares(rules, 3, "--j-left"@, "0px"@);
    lemma_declares(
        rules,
        4,
        "--j-s"@,
        "max(-"@ + printed(print, p.space * o.shrink, 10)
            + "px, calc((var(--j-d) - var(--j-t) * var(--j-c)) / var(--j-g)))"@,
    );
    lemma_declares(
        rules,
        5,
        "--j-t"@,
        "clamp(-"@ + most
            + "px, calc(min(0px, var(--j-d)) * var(--j-m) + max(0px, var(--j-d)) * var(--j-p)), "@
            + most + "px)"@,
    );
}

/// A line without gaps, and a strict line, space themselves: a line without
/// gaps not at all, and a strict one by the share of its shortfall that its
/// spaces bear, within the policy's limits either way. A last line is never
/// opened.
pub proof fn law_own_spacing_is_declared<F: Fn(Binary64, usize) -> (Binary64, String)>(
    p: Paragraph,
    line: Line,
    o: Options,
    print: &F,
)
    requires
        line.start < line.end,
        grapheme_total(rendered(p, line)) <= usize::MAX,
    ensures
        ({
            let rules = line_rules(p, line, o, print);
            let gaps = Binary64::from_count((line.end - line.start - 1) as usize);
            let letters = Binary64::from_count(grapheme_total(rendered(p, line)) as usize);
            let tight = gaps * p.space * o.shrink + letters * o.tracking;
            let loose = gaps * p.space * o.stretch + letters * o.tracking;
            let bare = "calc(100cqw - "@ + printed(
                print,
                line.natural - line.hanging - line.opening,
                10,
            ) + "px)"@;
            let delta = if line.last {
                "min(0px, "@ + bare + ")"@
            } else {
                bare
            };
            &&& line.end - line.start == 1 ==> declares(rules, "--j-s"@, "0px"@)
            &&& line.end - line.start > 1 && o.mode == Mode::Strict && !tight.same(
                Binary64::zero(),
            ) && !loose.same(Binary64::zero()) ==> declares(
                rules,
                "--j-s"@,
                "calc("@ + ("clamp(-"@ + printed(print, p.space * o.shrink, 10) + "px, calc("@
                    + delta + " * "@ + printed(print, p.space * o.shrink / tight, 10) + "), 0px)"@)
                    + " + "@ + ("clamp(0px, calc("@ + delta + " * "@ + printed(
                    print,
                    p.space * o.stretch / loose,
                    10,
                ) + "), "@ + printed(print, p.space * o.stretch, 10) + "px)"@) + ")"@,
            )
        }),
{
    let rules = line_rules(p, line, o, print);
    let own = crate::statics::own_spacing(p, line, o, print);
    if o.mode == Mode::Strict || line.end - line.start == 1 {
        let n = rules.len() - 1;
        assert(rules[n] == ("--j-s"@, own));
        lemma_declares(rules, n, "--j-s"@, own);
    }
}

}
