//! Numbers of the IEEE 754 binary64 format, with arithmetic that rounds to
//! nearest, ties to even. All not-a-number results share one bit pattern.

use crate::rounding::{
    lemma_absorbed, lemma_fields, lemma_magnitude_monotone, lemma_pow2_53, lemma_rounded_magnitude,
    lemma_rounded_monotone, lemma_rounded_same, lemma_shl, magnitude, raise, round_quotient,
    round_scaled, rounded, scale, significand, HIDDEN, INFINITE,
};
use vstd::arithmetic::div_mod::{lemma_fundamental_div_mod, lemma_fundamental_div_mod_converse};
use vstd::arithmetic::power2::{
    lemma_pow2_adds, lemma_pow2_pos, lemma_pow2_strictly_increases, pow2,
};
use vstd::prelude::*;

verus! {

/// `2^63`, the sign bit.
pub const SIGN: u64 = 0x8000_0000_0000_0000;

/// A binary64 number, held as its bits.
#[derive(Clone, Copy, Debug)]
pub struct Binary64 {
    pub bits: u64,
}

impl PartialEq for Binary64 {
    /// Numerical equality: both zeros are equal, and what is no number equals
    /// nothing.
    fn eq(&self, other: &Binary64) -> (r: bool) {
        self.same(*other)
    }
}

impl vstd::std_specs::cmp::PartialEqSpecImpl for Binary64 {
    open spec fn obeys_eq_spec() -> bool {
        true
    }

    open spec fn eq_spec(&self, other: &Binary64) -> bool {
        self.same(*other)
    }
}

/// A number from its sign and its magnitude bits.
pub open spec fn signed(negative: bool, m: nat) -> Binary64 {
    Binary64 {
        bits: if negative {
            (SIGN + m) as u64
        } else {
            m as u64
        },
    }
}

/// The absolute value of an integer.
pub open spec fn distance(x: int) -> nat {
    if x < 0 {
        (-x) as nat
    } else {
        x as nat
    }
}

impl Binary64 {
    /// Positive zero.
    #[verifier::allow_in_spec]
    pub fn zero() -> (r: Binary64)
        returns
            (Binary64 { bits: 0 }),
    {
        Binary64 { bits: 0 }
    }

    /// One.
    #[verifier::allow_in_spec]
    pub fn one() -> (r: Binary64)
        returns
            (Binary64 { bits: 0x3ff0_0000_0000_0000 }),
    {
        Binary64 { bits: 0x3ff0_0000_0000_0000 }
    }

    /// Positive infinity.
    #[verifier::allow_in_spec]
    pub fn infinity() -> (r: Binary64)
        returns
            (Binary64 { bits: 0x7ff0_0000_0000_0000 }),
    {
        Binary64 { bits: 0x7ff0_0000_0000_0000 }
    }

    /// Negative infinity.
    #[verifier::allow_in_spec]
    pub fn neg_infinity() -> (r: Binary64)
        returns
            (Binary64 { bits: 0xfff0_0000_0000_0000 }),
    {
        Binary64 { bits: 0xfff0_0000_0000_0000 }
    }

    /// The result of an operation that has no number for an answer.
    #[verifier::allow_in_spec]
    pub fn nan() -> (r: Binary64)
        returns
            (Binary64 { bits: 0x7ff8_0000_0000_0000 }),
    {
        Binary64 { bits: 0x7ff8_0000_0000_0000 }
    }

    /// True when the sign bit is set.
    pub open spec fn negative(self) -> bool {
        self.bits >= SIGN
    }

    /// The bits below the sign.
    pub open spec fn mag(self) -> nat {
        if self.bits >= SIGN {
            (self.bits - SIGN) as nat
        } else {
            self.bits as nat
        }
    }

    /// The exact value of a finite number, in units of `2^-1074`.
    pub open spec fn value(self) -> int {
        if self.negative() {
            -(magnitude(self.mag()) as int)
        } else {
            magnitude(self.mag()) as int
        }
    }

    /// True of anything but a number.
    pub open spec fn spec_is_nan(self) -> bool {
        self.mag() > INFINITE
    }

    /// True of the two infinities.
    pub open spec fn spec_is_infinite(self) -> bool {
        self.mag() == INFINITE
    }

    /// True of the numbers that have a value.
    pub open spec fn spec_is_finite(self) -> bool {
        self.mag() < INFINITE
    }

    /// Where a number stands among all numbers: its bits, counted from zero.
    pub open spec fn rank(self) -> int {
        if self.negative() {
            -(self.mag() as int)
        } else {
            self.mag() as int
        }
    }

    /// Numerically less; false where either side is not a number.
    pub open spec fn spec_lt(self, other: Binary64) -> bool {
        !self.spec_is_nan() && !other.spec_is_nan() && self.rank() < other.rank()
    }

    /// Numerically less or equal; false where either side is not a number.
    pub open spec fn spec_le(self, other: Binary64) -> bool {
        !self.spec_is_nan() && !other.spec_is_nan() && self.rank() <= other.rank()
    }

    /// Numerically greater; false where either side is not a number.
    pub open spec fn spec_gt(self, other: Binary64) -> bool {
        other.spec_lt(self)
    }

    /// Numerically greater or equal; false where either side is not a number.
    pub open spec fn spec_ge(self, other: Binary64) -> bool {
        other.spec_le(self)
    }

    /// Numerically equal: both zeros are, and nothing that is not a number.
    pub open spec fn spec_same(self, other: Binary64) -> bool {
        !self.spec_is_nan() && !other.spec_is_nan() && self.rank() == other.rank()
    }

    /// The number with the opposite sign.
    #[verifier::opaque]
    pub open spec fn spec_neg(self) -> Binary64 {
        signed(!self.negative(), self.mag())
    }

    /// The number without its sign.
    #[verifier::opaque]
    pub open spec fn spec_abs(self) -> Binary64 {
        signed(false, self.mag())
    }

    /// The rounded sum.
    #[verifier::opaque]
    pub open spec fn spec_add(self, other: Binary64) -> Binary64 {
        if self.spec_is_nan() || other.spec_is_nan() {
            Binary64::nan()
        } else if self.spec_is_infinite() {
            if other.spec_is_infinite() && self.negative() != other.negative() {
                Binary64::nan()
            } else {
                self
            }
        } else if other.spec_is_infinite() {
            other
        } else {
            let sum = self.value() + other.value();
            if sum == 0 {
                signed(self.negative() && other.negative(), 0)
            } else {
                signed(sum < 0, rounded(distance(sum), 1))
            }
        }
    }

    /// The rounded difference.
    #[verifier::opaque]
    pub open spec fn spec_sub(self, other: Binary64) -> Binary64 {
        self.spec_add(other.spec_neg())
    }

    /// The rounded product.
    #[verifier::opaque]
    pub open spec fn spec_mul(self, other: Binary64) -> Binary64 {
        let negative = self.negative() != other.negative();
        if self.spec_is_nan() || other.spec_is_nan() {
            Binary64::nan()
        } else if self.spec_is_infinite() || other.spec_is_infinite() {
            if self.mag() == 0 || other.mag() == 0 {
                Binary64::nan()
            } else {
                signed(negative, INFINITE as nat)
            }
        } else {
            signed(negative, rounded(magnitude(self.mag()) * magnitude(other.mag()), pow2(1074)))
        }
    }

    /// The rounded quotient.
    #[verifier::opaque]
    pub open spec fn spec_euclidean_or_real_div(self, other: Binary64) -> Binary64 {
        let negative = self.negative() != other.negative();
        if self.spec_is_nan() || other.spec_is_nan() {
            Binary64::nan()
        } else if self.spec_is_infinite() {
            if other.spec_is_infinite() {
                Binary64::nan()
            } else {
                signed(negative, INFINITE as nat)
            }
        } else if other.spec_is_infinite() {
            signed(negative, 0)
        } else if other.mag() == 0 {
            if self.mag() == 0 {
                Binary64::nan()
            } else {
                signed(negative, INFINITE as nat)
            }
        } else {
            signed(negative, rounded(magnitude(self.mag()) * pow2(1074), magnitude(other.mag())))
        }
    }

    /// The number nearest to `num / den`.
    #[verifier::opaque]
    pub open spec fn spec_ratio(num: u64, den: u64) -> Binary64 {
        signed(false, rounded(num as nat * pow2(1074), den as nat))
    }

    /// The number nearest to the integer `n`.
    pub open spec fn spec_from_count(n: usize) -> Binary64 {
        Binary64::spec_ratio(n as u64, 1)
    }

    /// An integer, which is exact.
    pub open spec fn spec_from_int(n: i32) -> Binary64 {
        if n < 0 {
            -Binary64::spec_ratio(-n as u64, 1)
        } else {
            Binary64::spec_ratio(n as u64, 1)
        }
    }

    /// The largest integer that is not above the number.
    #[verifier::opaque]
    pub open spec fn spec_floor(self) -> Binary64 {
        if !self.spec_is_finite() {
            self
        } else {
            let unit = pow2(1074);
            let whole = magnitude(self.mag()) / unit;
            let up: nat = if self.negative() && magnitude(self.mag()) % unit != 0 {
                1
            } else {
                0
            };
            signed(self.negative(), rounded((whole + up) * unit, 1))
        }
    }

    /// The sign bit and the bits below it.
    fn split(self) -> (r: (bool, u64))
        ensures
            r.0 == self.negative(),
            r.1 == self.mag(),
            r.1 < SIGN,
    {
        if self.bits >= SIGN {
            (true, self.bits - SIGN)
        } else {
            (false, self.bits)
        }
    }

    /// A number from its sign and its magnitude bits.
    fn join(negative: bool, m: u64) -> (r: Binary64)
        requires
            m < SIGN,
        ensures
            r == signed(negative, m as nat),
    {
        if negative {
            Binary64 { bits: SIGN + m }
        } else {
            Binary64 { bits: m }
        }
    }

    /// The significand and the scale of finite magnitude bits.
    fn fields(m: u64) -> (r: (u64, i32))
        requires
            m < INFINITE,
        ensures
            r.0 == significand(m as nat),
            r.1 == scale(m as nat),
            r.0 < 2 * HIDDEN,
            0 <= r.1 <= 2045,
            r.1 > 0 ==> r.0 >= HIDDEN,
            r.0 == 0 <==> m == 0,
    {
        proof {
            lemma_fields(m as nat);
        }
        if m < HIDDEN {
            (m, 0)
        } else {
            (HIDDEN + m % HIDDEN, (m / HIDDEN) as i32 - 1)
        }
    }

    /// True of anything but a number.
    #[verifier::when_used_as_spec(spec_is_nan)]
    pub fn is_nan(self) -> (r: bool)
        ensures
            r == self.spec_is_nan(),
    {
        self.split().1 > INFINITE
    }

    /// True of the numbers that have a value.
    #[verifier::when_used_as_spec(spec_is_finite)]
    pub fn is_finite(self) -> (r: bool)
        ensures
            r == self.spec_is_finite(),
    {
        self.split().1 < INFINITE
    }

    /// True of a number with a minus sign, the negative zero too.
    pub fn is_signed(self) -> (r: bool)
        ensures
            r == self.negative(),
    {
        self.bits >= SIGN
    }

    /// Where the number stands among all numbers.
    fn place(self) -> (r: i64)
        ensures
            r == self.rank(),
    {
        let (negative, m): (bool, u64) = self.split();
        if negative {
            -(m as i64)
        } else {
            m as i64
        }
    }

    /// Numerically less.
    #[verifier::when_used_as_spec(spec_lt)]
    pub fn lt(self, other: Binary64) -> (r: bool)
        ensures
            r == self.spec_lt(other),
    {
        !self.is_nan() && !other.is_nan() && self.place() < other.place()
    }

    /// Numerically less or equal.
    #[verifier::when_used_as_spec(spec_le)]
    pub fn le(self, other: Binary64) -> (r: bool)
        ensures
            r == self.spec_le(other),
    {
        !self.is_nan() && !other.is_nan() && self.place() <= other.place()
    }

    /// Numerically greater.
    #[verifier::when_used_as_spec(spec_gt)]
    pub fn gt(self, other: Binary64) -> (r: bool)
        ensures
            r == self.spec_gt(other),
    {
        other.lt(self)
    }

    /// Numerically greater or equal.
    #[verifier::when_used_as_spec(spec_ge)]
    pub fn ge(self, other: Binary64) -> (r: bool)
        ensures
            r == self.spec_ge(other),
    {
        other.le(self)
    }

    /// Numerically equal.
    #[verifier::when_used_as_spec(spec_same)]
    pub fn same(self, other: Binary64) -> (r: bool)
        ensures
            r == self.spec_same(other),
    {
        !self.is_nan() && !other.is_nan() && self.place() == other.place()
    }

    /// The number without its sign.
    #[verifier::when_used_as_spec(spec_abs)]
    pub fn abs(self) -> (r: Binary64)
        ensures
            r == self.spec_abs(),
    {
        proof {
            reveal(Binary64::spec_abs);
        }
        Binary64::join(false, self.split().1)
    }

    /// The number with the opposite sign.
    #[verifier::when_used_as_spec(spec_neg)]
    pub fn opposite(self) -> (r: Binary64)
        ensures
            r == -self,
    {
        proof {
            reveal(Binary64::spec_neg);
        }
        let (negative, m): (bool, u64) = self.split();
        Binary64::join(!negative, m)
    }

    /// The number nearest to `num / den`.
    #[verifier::when_used_as_spec(spec_ratio)]
    pub fn ratio(num: u64, den: u64) -> (r: Binary64)
        requires
            den > 0,
        ensures
            r == Binary64::spec_ratio(num, den),
    {
        proof {
            reveal(Binary64::spec_ratio);
            lemma_pow2_53();
            assert(den as nat * pow2(raise(-1074)) == den) by (nonlinear_arith)
                requires
                    pow2(raise(-1074)) == 1,
            ;
        }
        Binary64::join(false, round_quotient(num, den, 1074))
    }

    /// The number nearest to the integer `n`.
    #[verifier::when_used_as_spec(spec_from_count)]
    pub fn from_count(n: usize) -> (r: Binary64)
        ensures
            r == Binary64::spec_from_count(n),
    {
        Binary64::ratio(n as u64, 1)
    }

    /// An integer.
    #[verifier::when_used_as_spec(spec_from_int)]
    pub fn from_int(n: i32) -> (r: Binary64)
        ensures
            r == Binary64::spec_from_int(n),
    {
        if n < 0 {
            Binary64::ratio((-(n as i64)) as u64, 1).opposite()
        } else {
            Binary64::ratio(n as u64, 1)
        }
    }

    /// The rounded sum.
    fn sum(self, other: Binary64) -> (r: Binary64)
        ensures
            r == self + other,
    {
        proof {
            reveal(Binary64::spec_add);
        }
        if self.is_nan() || other.is_nan() {
            return Binary64::nan();
        }
        if !self.is_finite() {
            if !other.is_finite() && (self.bits >= SIGN) != (other.bits >= SIGN) {
                return Binary64::nan();
            }
            return self;
        }
        if !other.is_finite() {
            return other;
        }
        let m: u64 = self.split().1;
        let n: u64 = other.split().1;
        let i: i32 = Binary64::fields(m).1;
        let j: i32 = Binary64::fields(n).1;
        if i >= j {
            Binary64::sum_ordered(self, other)
        } else {
            proof {
                assert(self.value() + other.value() == other.value() + self.value());
            }
            Binary64::sum_ordered(other, self)
        }
    }

    /// The rounded sum, where the scale of the first is not the smaller one.
    fn sum_ordered(a: Binary64, b: Binary64) -> (r: Binary64)
        requires
            a.is_finite(),
            b.is_finite(),
            scale(a.mag()) >= scale(b.mag()),
        ensures
            r == ({
                let sum = a.value() + b.value();
                if sum == 0 {
                    signed(a.negative() && b.negative(), 0)
                } else {
                    signed(sum < 0, rounded(distance(sum), 1))
                }
            }),
    {
        let (an, am): (bool, u64) = a.split();
        let (bn, bm): (bool, u64) = b.split();
        let (af, ae): (u64, i32) = Binary64::fields(am);
        let (bf, be): (u64, i32) = Binary64::fields(bm);
        let gap: i32 = ae - be;
        let ghost x = magnitude(am as nat);
        let ghost y = magnitude(bm as nat);
        proof {
            lemma_pow2_53();
            lemma_pow2_adds(gap as nat, be as nat);
            lemma_pow2_pos(be as nat);
            lemma_pow2_pos(gap as nat);
        }
        if gap >= 55 {
            proof {
                lemma_pow2_adds(55, (ae - 55) as nat);
                lemma_pow2_adds(54, 1);
                if be < ae - 55 {
                    lemma_pow2_strictly_increases(be as nat, (ae - 55) as nat);
                }
                let w = pow2(be as nat);
                let v = pow2((ae - 55) as nat);
                assert(4 * y < 8 * HIDDEN * v) by (nonlinear_arith)
                    requires
                        y == bf * w,
                        bf < 2 * HIDDEN,
                        w <= v,
                        w > 0,
                ;
                assert(pow2(55) == 8 * HIDDEN);
                lemma_absorbed(am as nat, y);
                assert(x > 0) by (nonlinear_arith)
                    requires
                        x == af * pow2(ae as nat),
                        af >= HIDDEN,
                        pow2(ae as nat) > y,
                ;
                assert(x > y) by (nonlinear_arith)
                    requires
                        x == af * pow2(ae as nat),
                        af >= HIDDEN,
                        pow2(ae as nat) > y,
                ;
            }
            return a;
        }
        let ghost g = pow2(gap as nat);
        let ghost w = pow2(be as nat);
        proof {
            lemma_pow2_adds(54, 54);
            lemma_pow2_adds(64, 63);
            if gap < 54 {
                lemma_pow2_strictly_increases(gap as nat, 54);
            }
            assert(af * g <= 2 * HIDDEN * (4 * HIDDEN)) by (nonlinear_arith)
                requires
                    af < 2 * HIDDEN,
                    g <= 4 * HIDDEN,
            ;
            lemma_shl(af as u128, gap as u128);
            assert(x == (af * g) * w) by (nonlinear_arith)
                requires
                    x == af * pow2(ae as nat),
                    pow2(ae as nat) == g * w,
            ;
        }
        let p: u128 = (af as u128) << (gap as u32);
        let q: u128 = bf as u128;
        assert(x == p * w);
        assert(y == q * w);
        if an == bn {
            proof {
                Binary64::lemma_exact((p + q) as nat, be as nat);
                assert((p + q) * w == p * w + q * w) by (nonlinear_arith);
                if p + q == 0 {
                    assert(0 * w == 0) by (nonlinear_arith);
                    lemma_rounded_magnitude(0);
                    assert(magnitude(0) == 0);
                } else {
                    assert((p + q) * w > 0) by (nonlinear_arith)
                        requires
                            p + q > 0,
                            w > 0,
                    ;
                }
            }
            Binary64::join(an, round_scaled(p + q, be))
        } else if p > q {
            proof {
                Binary64::lemma_exact((p - q) as nat, be as nat);
                assert((p - q) * w == p * w - q * w) by (nonlinear_arith);
                assert((p - q) * w > 0) by (nonlinear_arith)
                    requires
                        p - q > 0,
                        w > 0,
                ;
            }
            Binary64::join(an, round_scaled(p - q, be))
        } else if p < q {
            proof {
                Binary64::lemma_exact((q - p) as nat, be as nat);
                assert((q - p) * w == q * w - p * w) by (nonlinear_arith);
                assert((q - p) * w > 0) by (nonlinear_arith)
                    requires
                        q - p > 0,
                        w > 0,
                ;
            }
            Binary64::join(bn, round_scaled(q - p, be))
        } else {
            Binary64::zero()
        }
    }

    /// An integer number of units needs no divisor.
    proof fn lemma_exact(p: nat, e: nat)
        ensures
            crate::rounding::rounded_scaled(p, e as int) == rounded(p * pow2(e), 1),
    {
        lemma_pow2_53();
        assert(raise(e as int) == e);
        assert(pow2(raise(-(e as int))) == 1);
    }

    /// The rounded product.
    fn product(self, other: Binary64) -> (r: Binary64)
        ensures
            r == self * other,
    {
        proof {
            reveal(Binary64::spec_mul);
        }
        let (an, am): (bool, u64) = self.split();
        let (bn, bm): (bool, u64) = other.split();
        if am > INFINITE || bm > INFINITE {
            return Binary64::nan();
        }
        if am == INFINITE || bm == INFINITE {
            if am == 0 || bm == 0 {
                return Binary64::nan();
            }
            return Binary64::join(an != bn, INFINITE);
        }
        let (af, ae): (u64, i32) = Binary64::fields(am);
        let (bf, be): (u64, i32) = Binary64::fields(bm);
        proof {
            assert(af * bf < 4 * HIDDEN * HIDDEN) by (nonlinear_arith)
                requires
                    af < 2 * HIDDEN,
                    bf < 2 * HIDDEN,
            ;
        }
        let p: u128 = (af as u128) * (bf as u128);
        let e: i32 = ae + be - 1074;
        proof {
            lemma_pow2_53();
            lemma_pow2_adds(64, 63);
            let up = pow2(raise(e as int));
            let down = pow2(raise(-e));
            let unit = pow2(1074);
            lemma_pow2_pos(raise(-e));
            lemma_pow2_pos(1074);
            lemma_pow2_adds(ae as nat, be as nat);
            lemma_pow2_adds((ae + be) as nat, raise(-e));
            lemma_pow2_adds(raise(e as int), 1074);
            assert((ae + be) as nat + raise(-e) == raise(e as int) + 1074);
            let a = pow2(ae as nat);
            let b = pow2(be as nat);
            assert((af * a) * (bf * b) * down == (p * up) * unit) by (nonlinear_arith)
                requires
                    p == af * bf,
                    a * b * down == up * unit,
            ;
            lemma_rounded_same(
                magnitude(am as nat) * magnitude(bm as nat),
                unit,
                p as nat * up,
                down,
            );
        }
        Binary64::join(an != bn, round_scaled(p, e))
    }

    /// The rounded quotient.
    fn quotient(self, other: Binary64) -> (r: Binary64)
        ensures
            r == self / other,
    {
        proof {
            reveal(Binary64::spec_euclidean_or_real_div);
        }
        let (an, am): (bool, u64) = self.split();
        let (bn, bm): (bool, u64) = other.split();
        if am > INFINITE || bm > INFINITE {
            return Binary64::nan();
        }
        if am == INFINITE {
            if bm == INFINITE {
                return Binary64::nan();
            }
            return Binary64::join(an != bn, INFINITE);
        }
        if bm == INFINITE {
            return Binary64::join(an != bn, 0);
        }
        if bm == 0 {
            if am == 0 {
                return Binary64::nan();
            }
            return Binary64::join(an != bn, INFINITE);
        }
        let (af, ae): (u64, i32) = Binary64::fields(am);
        let (bf, be): (u64, i32) = Binary64::fields(bm);
        let e: i32 = 1074 + ae - be;
        proof {
            let up = pow2(raise(e as int));
            let down = pow2(raise(-e));
            let unit = pow2(1074);
            let a = pow2(ae as nat);
            let b = pow2(be as nat);
            lemma_pow2_pos(raise(-e));
            lemma_pow2_pos(be as nat);
            lemma_pow2_adds(ae as nat, 1074);
            lemma_pow2_adds((ae + 1074) as nat, raise(-e));
            lemma_pow2_adds(raise(e as int), be as nat);
            assert((ae + 1074) as nat + raise(-e) == raise(e as int) + be);
            assert((af * a * unit) * (bf * down) == (af * up) * (bf * b)) by (nonlinear_arith)
                requires
                    a * unit * down == up * b,
            ;
            assert(bf * down > 0 && bf * b > 0) by (nonlinear_arith)
                requires
                    bf > 0,
                    down > 0,
                    b > 0,
            ;
            lemma_rounded_same(
                magnitude(am as nat) * unit,
                magnitude(bm as nat),
                af as nat * up,
                bf as nat * down,
            );
        }
        Binary64::join(an != bn, round_quotient(af, bf, e))
    }

    /// The largest integer that is not above the number.
    #[verifier::when_used_as_spec(spec_floor)]
    pub fn floor(self) -> (r: Binary64)
        ensures
            r == self.spec_floor(),
    {
        proof {
            reveal(Binary64::spec_floor);
        }
        if !self.is_finite() {
            return self;
        }
        let (negative, m): (bool, u64) = self.split();
        let (f, e): (u64, i32) = Binary64::fields(m);
        let ghost unit = pow2(1074);
        let ghost w = pow2(e as nat);
        let ghost x = magnitude(m as nat);
        proof {
            lemma_pow2_53();
            lemma_pow2_pos(1074);
            lemma_pow2_pos(e as nat);
        }
        if e >= 1074 {
            proof {
                let t = pow2((e - 1074) as nat);
                lemma_pow2_adds((e - 1074) as nat, 1074);
                assert(x == (f * t) * unit) by (nonlinear_arith)
                    requires
                        x == f * w,
                        w == t * unit,
                ;
                lemma_fundamental_div_mod_converse(
                    x as int,
                    unit as int,
                    (f * t) as int,
                    0,
                );
                lemma_rounded_magnitude(m as nat);
            }
            return self;
        }
        let s: u32 = (1074 - e) as u32;
        let ghost d = pow2(s as nat);
        proof {
            lemma_pow2_pos(s as nat);
            lemma_pow2_adds(s as nat, e as nat);
            let q = f as nat / d;
            let rest = f as nat % d;
            lemma_fundamental_div_mod(f as int, d as int);
            assert(x == q * unit + rest * w && 0 <= rest * w < unit) by (nonlinear_arith)
                requires
                    x == f * w,
                    f == d * q + rest,
                    0 <= rest < d,
                    unit == d * w,
                    w > 0,
            ;
            lemma_fundamental_div_mod_converse(
                x as int,
                unit as int,
                q as int,
                (rest * w) as int,
            );
            assert(rest * w == 0 <==> rest == 0) by (nonlinear_arith)
                requires
                    w > 0,
                    rest >= 0,
            ;
        }
        let whole: u64 = if s < 64 {
            proof {
                vstd::bits::lemma_u64_shr_is_div(f, s as u64);
            }
            f >> s
        } else {
            proof {
                if s > 64 {
                    lemma_pow2_strictly_increases(64, s as nat);
                }
                lemma_fundamental_div_mod_converse(f as int, d as int, 0, f as int);
            }
            0
        };
        assert(whole == f as nat / d);
        let exact: bool = if s < 64 {
            proof {
                assert(whole * d <= f) by (nonlinear_arith)
                    requires
                        f == d * whole + f as nat % d,
                        f as nat % d >= 0,
                ;
                vstd::bits::lemma_u64_shl_is_mul(whole, s as u64);
                assert(whole * d == d * whole) by (nonlinear_arith);
            }
            (whole << s) == f
        } else {
            f == 0
        };
        let up: u64 = if negative && !exact {
            1
        } else {
            0
        };
        proof {
            assert(whole <= f) by (nonlinear_arith)
                requires
                    f == d * whole + f as nat % d,
                    f as nat % d >= 0,
                    d > 0,
            ;
            lemma_pow2_adds(64, 63);
            Binary64::lemma_exact((whole + up) as nat, 1074);
        }
        Binary64::join(negative, round_scaled((whole + up) as u128, 1074))
    }
}

impl vstd::std_specs::ops::AddSpecImpl<Binary64> for Binary64 {
    open spec fn obeys_add_spec() -> bool {
        true
    }

    open spec fn add_req(self, rhs: Binary64) -> bool {
        true
    }

    open spec fn add_spec(self, rhs: Binary64) -> Binary64 {
        self + rhs
    }
}

impl std::ops::Add<Binary64> for Binary64 {
    type Output = Binary64;

    fn add(self, rhs: Binary64) -> (r: Binary64) {
        self.sum(rhs)
    }
}

impl vstd::std_specs::ops::SubSpecImpl<Binary64> for Binary64 {
    open spec fn obeys_sub_spec() -> bool {
        true
    }

    open spec fn sub_req(self, rhs: Binary64) -> bool {
        true
    }

    open spec fn sub_spec(self, rhs: Binary64) -> Binary64 {
        self - rhs
    }
}

impl std::ops::Sub<Binary64> for Binary64 {
    type Output = Binary64;

    fn sub(self, rhs: Binary64) -> (r: Binary64) {
        proof {
            reveal(Binary64::spec_sub);
        }
        self.sum(rhs.opposite())
    }
}

impl vstd::std_specs::ops::MulSpecImpl<Binary64> for Binary64 {
    open spec fn obeys_mul_spec() -> bool {
        true
    }

    open spec fn mul_req(self, rhs: Binary64) -> bool {
        true
    }

    open spec fn mul_spec(self, rhs: Binary64) -> Binary64 {
        self * rhs
    }
}

impl std::ops::Mul<Binary64> for Binary64 {
    type Output = Binary64;

    fn mul(self, rhs: Binary64) -> (r: Binary64) {
        self.product(rhs)
    }
}

impl vstd::std_specs::ops::DivSpecImpl<Binary64> for Binary64 {
    open spec fn obeys_div_spec() -> bool {
        true
    }

    open spec fn div_req(self, rhs: Binary64) -> bool {
        true
    }

    open spec fn div_spec(self, rhs: Binary64) -> Binary64 {
        self / rhs
    }
}

impl std::ops::Div<Binary64> for Binary64 {
    type Output = Binary64;

    fn div(self, rhs: Binary64) -> (r: Binary64) {
        self.quotient(rhs)
    }
}

/// Adding the same number to both sides never turns an order round: where `a`
/// is not below `b`, `a + c` is not below `b + c`.
pub proof fn law_add_monotone(a: Binary64, b: Binary64, c: Binary64)
    requires
        !a.lt(b),
        !b.is_nan(),
    ensures
        !(a + c).lt(b + c),
{
    reveal(Binary64::spec_add);
    if a.is_finite() && b.is_finite() && c.is_finite() {
        let (s, t) = (a.value() + c.value(), b.value() + c.value());
        lemma_value_order(a, b);
        assert(s >= t);
        lemma_rounded_bounded(s);
        lemma_rounded_bounded(t);
        if s >= 0 && t >= 0 {
            lemma_rounded_monotone(distance(t), distance(s), 1);
        } else if s < 0 && t < 0 {
            lemma_rounded_monotone(distance(s), distance(t), 1);
        }
    } else if !a.is_nan() && !c.is_nan() {
        if a.is_finite() && c.is_finite() {
            lemma_rounded_bounded(a.value() + c.value());
        }
        if b.is_finite() && c.is_finite() {
            lemma_rounded_bounded(b.value() + c.value());
        }
    }
}

/// A rounded magnitude is at most infinite.
proof fn lemma_rounded_bounded(x: int)
    ensures
        rounded(distance(x), 1) <= INFINITE,
{
}

/// Finite numbers are ordered as their values are.
pub proof fn lemma_value_order(a: Binary64, b: Binary64)
    requires
        a.is_finite(),
        b.is_finite(),
    ensures
        a.lt(b) <==> a.value() < b.value(),
        a.same(b) <==> a.value() == b.value(),
{
    let (m, n) = (a.mag(), b.mag());
    if m < n {
        lemma_magnitude_monotone(m, n);
    }
    if n < m {
        lemma_magnitude_monotone(n, m);
    }
    assert(magnitude(0) == 0) by {
        assert(0 * pow2(0) == 0) by (nonlinear_arith);
    }
    if m > 0 {
        lemma_magnitude_monotone(0, m);
    }
    if n > 0 {
        lemma_magnitude_monotone(0, n);
    }
}

}
