//! Numeric helpers with the zero, not-a-number and rounding behaviour of
//! ECMAScript.

use crate::binary64::Binary64;
use vstd::prelude::*;

verus! {

/// Where a number stands among all numbers, with the negative zero before the
/// positive one.
pub open spec fn standing(x: Binary64) -> int {
    if x.negative() {
        -1 - x.mag()
    } else {
        x.mag() as int
    }
}

/// The larger of two numbers; of the two zeros the positive one.
pub open spec fn larger(a: Binary64, b: Binary64) -> Binary64 {
    if a.is_nan() || b.is_nan() {
        Binary64::nan()
    } else if standing(a) >= standing(b) {
        a
    } else {
        b
    }
}

/// The smaller of two numbers; of the two zeros the negative one.
pub open spec fn smaller(a: Binary64, b: Binary64) -> Binary64 {
    if a.is_nan() || b.is_nan() {
        Binary64::nan()
    } else if standing(a) <= standing(b) {
        a
    } else {
        b
    }
}

/// The larger of two numbers; of the two zeros the positive one.
#[verifier::when_used_as_spec(larger)]
pub fn js_max(a: Binary64, b: Binary64) -> (r: Binary64)
    ensures
        r == larger(a, b),
{
    if a.is_nan() || b.is_nan() {
        Binary64::nan()
    } else if a.gt(b) {
        a
    } else if b.gt(a) {
        b
    } else if a.is_signed() {
        b
    } else {
        a
    }
}

/// The smaller of two numbers; of the two zeros the negative one.
#[verifier::when_used_as_spec(smaller)]
pub fn js_min(a: Binary64, b: Binary64) -> (r: Binary64)
    ensures
        r == smaller(a, b),
{
    if a.is_nan() || b.is_nan() {
        Binary64::nan()
    } else if a.lt(b) {
        a
    } else if b.lt(a) {
        b
    } else if a.is_signed() {
        a
    } else {
        b
    }
}

/// One with the sign of the number; a zero, or what is no number, as it is.
#[verifier::allow_in_spec]
pub fn js_sign(x: Binary64) -> (r: Binary64)
    returns
        (if x.gt(Binary64::zero()) {
            Binary64::one()
        } else if x.lt(Binary64::zero()) {
            -Binary64::one()
        } else {
            x
        }),
{
    if x.gt(Binary64::zero()) {
        Binary64::one()
    } else if x.lt(Binary64::zero()) {
        Binary64::one().opposite()
    } else {
        x
    }
}

/// False of the two zeros and of what is no number.
#[verifier::allow_in_spec]
pub fn truthy(x: Binary64) -> (r: bool)
    returns
        !x.same(Binary64::zero()) && !x.is_nan(),
{
    !x.same(Binary64::zero()) && !x.is_nan()
}

/// The third power.
#[verifier::allow_in_spec]
pub fn cube(x: Binary64) -> (r: Binary64)
    returns
        x * x * x,
{
    x * x * x
}

/// The second power.
#[verifier::allow_in_spec]
pub fn square(x: Binary64) -> (r: Binary64)
    returns
        x * x,
{
    x * x
}

/// ECMAScript `Math.round` for finite, nonnegative values: the nearest integer,
/// the upper of two. Infinities and what is no number stay.
#[verifier::allow_in_spec]
pub fn js_round(x: Binary64) -> (r: Binary64)
    returns
        (if x.is_finite() {
            if (x - x.floor()).ge(Binary64::ratio(1, 2)) {
                x.floor() + Binary64::one()
            } else {
                x.floor()
            }
        } else {
            x
        }),
{
    if x.is_finite() {
        let below: Binary64 = x.floor();
        if (x - below).ge(Binary64::ratio(1, 2)) {
            below + Binary64::one()
        } else {
            below
        }
    } else {
        x
    }
}

}
