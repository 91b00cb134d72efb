//! Whole numbers, whose arithmetic is exact.

use crate::binary64::Binary64;
use crate::rounding::{
    excess, lemma_excess, lemma_magnitude_monotone, lemma_nearest_even_is,
    lemma_nearest_even_scaled, lemma_pow2_53, lemma_rounded_magnitude, lemma_rounded_monotone,
    lemma_rounded_scaled, magnitude, rounded, scale, significand, HIDDEN, INFINITE,
};
use crate::signs::lemma_zero;
use vstd::arithmetic::div_mod::lemma_fundamental_div_mod_converse;
use vstd::arithmetic::power2::{
    lemma_pow2_adds, lemma_pow2_pos, lemma_pow2_strictly_increases, pow2,
};
use vstd::prelude::*;

verus! {

/// Below this, whole numbers and their sums are exact.
pub const EXACT: u64 = 0x20_0000_0000_0000;

/// `x` is the whole number `n`.
pub open spec fn whole_number(x: Binary64, n: int) -> bool {
    !x.negative() && x.is_finite() && n >= 0 && magnitude(x.mag()) == n * pow2(1074)
}

/// A whole number is one number.
pub proof fn lemma_whole_unique(x: Binary64, y: Binary64, n: int)
    requires
        whole_number(x, n),
        whole_number(y, n),
    ensures
        x == y,
{
    if x.mag() < y.mag() {
        lemma_magnitude_monotone(x.mag(), y.mag());
    }
    if y.mag() < x.mag() {
        lemma_magnitude_monotone(y.mag(), x.mag());
    }
}

/// A significand of at most 53 bits at some scale is held exactly.
proof fn lemma_held(f: nat, k: nat)
    requires
        f < 2 * HIDDEN,
        k > 0 ==> f >= HIDDEN,
        k <= 1074,
    ensures
        magnitude(k * (HIDDEN as nat) + f) == f * pow2(k),
        k * (HIDDEN as nat) + f < INFINITE,
{
    let h = HIDDEN as int;
    let bits = k * (HIDDEN as nat) + f;
    assert(k * h <= 1074 * h) by (nonlinear_arith)
        requires
            k <= 1074,
            h >= 0,
    ;
    if f < HIDDEN {
        assert(k == 0);
        assert(0 * (HIDDEN as nat) == 0) by (nonlinear_arith);
    } else {
        assert(bits == (k + 1) * h + (f - h)) by (nonlinear_arith)
            requires
                bits == k * h + f,
        ;
        lemma_fundamental_div_mod_converse(bits as int, h, k + 1int, f - h);
        assert(bits >= HIDDEN) by (nonlinear_arith)
            requires
                bits == k * h + f,
                f >= h,
                k >= 0,
                h >= 0,
                h == HIDDEN,
        ;
        assert(scale(bits) == k);
        assert(significand(bits) == f);
    }
}

/// A whole number below the limit rounds to itself.
pub proof fn lemma_whole_rounded(n: nat)
    requires
        n < EXACT,
    ensures
        magnitude(rounded(n * pow2(1074), 1)) == n * pow2(1074),
        rounded(n * pow2(1074), 1) < INFINITE,
{
    let unit = pow2(1074);
    let a = n * unit;
    let k = excess(a);
    lemma_pow2_53();
    lemma_pow2_pos(1074);
    lemma_pow2_pos(k);
    assert(a / 1 == a);
    lemma_excess(a);
    lemma_pow2_adds(53, 1074);
    assert(a < pow2(1127)) by (nonlinear_arith)
        requires
            a == n * unit,
            n < EXACT,
            pow2(53) == EXACT,
            pow2(53) * unit == pow2(1127),
            unit > 0,
    ;
    if k > 1074 {
        if 52 + k > 1127 {
            lemma_pow2_strictly_increases(1127, 52 + k);
        }
    }
    assert(k <= 1074);
    let rest = pow2((1074 - k) as nat);
    lemma_pow2_adds(k, (1074 - k) as nat);
    let f = n * rest;
    assert(a == f * pow2(k)) by (nonlinear_arith)
        requires
            a == n * unit,
            unit == pow2(k) * rest,
            f == n * rest,
    ;
    lemma_nearest_even_is(f, 1, f);
    lemma_nearest_even_scaled(f, 1, pow2(k));
    assert(1 * pow2(k) == pow2(k)) by (nonlinear_arith);
    lemma_pow2_adds(53, k);
    lemma_pow2_adds(52, k);
    assert(f < pow2(53)) by (nonlinear_arith)
        requires
            f * pow2(k) < pow2(53) * pow2(k),
            pow2(k) > 0,
    ;
    if k > 0 {
        assert(f >= pow2(52)) by (nonlinear_arith)
            requires
                f * pow2(k) >= pow2(52) * pow2(k),
                pow2(k) > 0,
        ;
    }
    lemma_held(f, k);
}

/// A count is a whole number.
pub proof fn lemma_whole_count(n: usize)
    requires
        n < EXACT,
    ensures
        whole_number(Binary64::from_count(n), n as int),
{
    reveal(Binary64::spec_ratio);
    lemma_whole_rounded(n as nat);
}

/// Sums of whole numbers are whole.
pub proof fn lemma_whole_add(x: Binary64, a: int, y: Binary64, b: int)
    requires
        whole_number(x, a),
        whole_number(y, b),
        a + b < EXACT,
    ensures
        whole_number(x + y, a + b),
{
    reveal(Binary64::spec_add);
    let unit = pow2(1074);
    lemma_pow2_pos(1074);
    lemma_zero();
    assert(a * unit + b * unit == (a + b) * unit) by (nonlinear_arith);
    assert((a + b) * unit == 0 ==> a + b == 0) by (nonlinear_arith)
        requires
            unit > 0,
            a + b >= 0,
    ;
    lemma_whole_rounded((a + b) as nat);
    assert((a + b) * unit >= 0) by (nonlinear_arith)
        requires
            a + b >= 0,
            unit > 0,
    ;
}

/// Differences of whole numbers are whole.
pub proof fn lemma_whole_sub(x: Binary64, a: int, y: Binary64, b: int)
    requires
        whole_number(x, a),
        whole_number(y, b),
        b <= a < EXACT,
    ensures
        whole_number(x - y, a - b),
{
    reveal(Binary64::spec_sub);
    reveal(Binary64::spec_neg);
    reveal(Binary64::spec_add);
    let unit = pow2(1074);
    lemma_pow2_pos(1074);
    lemma_zero();
    assert(a * unit - b * unit == (a - b) * unit) by (nonlinear_arith);
    assert((a - b) * unit == 0 ==> a - b == 0) by (nonlinear_arith)
        requires
            unit > 0,
            a - b >= 0,
    ;
    lemma_whole_rounded((a - b) as nat);
    assert((a - b) * unit >= 0) by (nonlinear_arith)
        requires
            a - b >= 0,
            unit > 0,
    ;
}

/// Products of whole numbers are whole.
pub proof fn lemma_whole_mul(x: Binary64, a: int, y: Binary64, b: int)
    requires
        whole_number(x, a),
        whole_number(y, b),
        a * b < EXACT,
    ensures
        whole_number(x * y, a * b),
{
    reveal(Binary64::spec_mul);
    let unit = pow2(1074);
    lemma_pow2_pos(1074);
    assert(a * b >= 0) by (nonlinear_arith)
        requires
            a >= 0,
            b >= 0,
    ;
    let n = (a * b) as nat;
    assert((a * unit) * (b * unit) == (n * unit) * unit) by (nonlinear_arith)
        requires
            n == a * b,
    ;
    assert(1 * unit == unit) by (nonlinear_arith);
    lemma_rounded_scaled(n * unit, 1, unit);
    lemma_whole_rounded(n);
}

/// Not the negative zero.
pub open spec fn not_minus_zero(x: Binary64) -> bool {
    !(x.negative() && x.mag() == 0)
}

/// A sum is the negative zero only where both sides are.
pub proof fn lemma_sum_not_minus_zero(x: Binary64, y: Binary64)
    requires
        not_minus_zero(x),
    ensures
        not_minus_zero(x + y),
        (x + y).is_nan() ==> x + y == Binary64::nan(),
{
    reveal(Binary64::spec_add);
    lemma_zero();
    if x.is_finite() && y.is_finite() {
        let sum = x.value() + y.value();
        if sum == 0 {
            if x.negative() && y.negative() {
                if x.mag() > 0 {
                    lemma_magnitude_monotone(0, x.mag());
                }
            }
        } else {
            let d = crate::binary64::distance(sum);
            lemma_pow2_53();
            assert(magnitude(1) == 1) by {
                assert(significand(1) == 1 && scale(1) == 0);
                assert(1 * pow2(0) == 1) by (nonlinear_arith)
                    requires
                        pow2(0) == 1,
                ;
            }
            lemma_rounded_magnitude(1);
            lemma_rounded_monotone(1, d, 1);
        }
    }
}

/// Adding nothing changes nothing.
pub proof fn lemma_add_nothing(x: Binary64)
    requires
        not_minus_zero(x),
        x.is_nan() ==> x == Binary64::nan(),
    ensures
        x + Binary64::zero() == x,
{
    reveal(Binary64::spec_add);
    lemma_zero();
    if x.is_finite() {
        lemma_rounded_magnitude(x.mag());
        if x.mag() > 0 {
            lemma_magnitude_monotone(0, x.mag());
        }
    }
}

}
