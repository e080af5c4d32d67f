//! Single-precision weights, held as their bit patterns.
//!
//! Weights, scores and thresholds are IEEE-754 single-precision values. The
//! decisions that the library takes on them are comparisons, and a comparison
//! is exact on the bit pattern: the magnitude bits of two values of one sign
//! order as unsigned integers. [`Scalar`] carries the pattern and compares it.

use vstd::arithmetic::power2::pow2;
use vstd::prelude::*;

verus! {

/// The sign bit of a single-precision value.
pub const SIGN_BIT: u32 = 0x8000_0000;

/// The magnitude bits of positive infinity; every larger magnitude is a NaN.
pub const INFINITY_BITS: u32 = 0x7F80_0000;

/// The implicit leading one of a normal significand.
pub const HIDDEN_BIT: u32 = 0x0080_0000;

/// An IEEE-754 single-precision value, by its bit pattern.
#[derive(Clone, Copy, Debug, PartialEq, Eq, Structural, Hash)]
pub struct Scalar {
    /// The bit pattern: sign, eight exponent bits, 23 fraction bits.
    pub bits: u32,
}

/// The pattern of zero.
pub const ZERO: u32 = 0;

/// The pattern of one.
pub const ONE: u32 = 0x3F80_0000;

impl Scalar {
    /// The pattern without its sign.
    pub open spec fn magnitude(self) -> int {
        if self.bits < SIGN_BIT {
            self.bits as int
        } else {
            self.bits - SIGN_BIT
        }
    }

    /// Whether the value is not a number.
    pub open spec fn nan(self) -> bool {
        self.magnitude() > INFINITY_BITS
    }

    /// The place of a number among all numbers: it grows with the value, and
    /// the two zeros share the place zero.
    pub open spec fn rank(self) -> int {
        if self.bits < SIGN_BIT {
            self.bits as int
        } else {
            SIGN_BIT - self.bits
        }
    }

    /// The place of a value in a list that is sorted by value: a number's
    /// place among all numbers, and a NaN's place below all of them.
    pub open spec fn sort_key(self) -> int {
        if self.nan() {
            -0x1_0000_0000
        } else {
            self.rank()
        }
    }

    /// `self < other`, which no NaN satisfies.
    pub open spec fn below(self, other: Scalar) -> bool {
        !self.nan() && !other.nan() && self.rank() < other.rank()
    }

    /// `self <= other`, which no NaN satisfies.
    pub open spec fn at_most(self, other: Scalar) -> bool {
        !self.nan() && !other.nan() && self.rank() <= other.rank()
    }

    /// Whether the value lies in the closed interval from `lo` to `hi`.
    pub open spec fn between(self, lo: Scalar, hi: Scalar) -> bool {
        lo.at_most(self) && self.at_most(hi)
    }

    /// The value limited to the interval from `lo` to `hi`: a value outside is
    /// replaced by the bound it passed, a NaN stays.
    pub open spec fn clamped(self, lo: Scalar, hi: Scalar) -> Scalar {
        if self.below(lo) {
            lo
        } else if hi.below(self) {
            hi
        } else {
            self
        }
    }

    /// Whether the value is the fraction `k / 2^24`: zero, or the normal
    /// number whose significand is `k` scaled up to 24 bits.
    pub open spec fn is_unit_fraction(self, k: int) -> bool {
        let exponent = self.bits as int / HIDDEN_BIT as int;
        let significand = HIDDEN_BIT + self.bits as int % HIDDEN_BIT as int;
        if k == 0 {
            self.bits == 0
        } else {
            &&& 1 <= exponent <= 126
            &&& significand == k * pow2((126 - exponent) as nat)
        }
    }

    /// The value with the given bit pattern.
    pub open spec fn of_bits(bits: u32) -> Scalar {
        Scalar { bits }
    }

    /// The value with the given bit pattern.
    #[verifier::when_used_as_spec(of_bits)]
    pub fn from_bits(bits: u32) -> (r: Scalar)
        ensures
            r == Scalar::of_bits(bits),
    {
        Scalar { bits }
    }

    /// The bit pattern.
    pub fn to_bits(self) -> (r: u32)
        ensures
            r == self.bits,
    {
        self.bits
    }

    /// Whether the value is not a number.
    pub fn is_nan(self) -> (r: bool)
        ensures
            r == self.nan(),
    {
        if self.bits < SIGN_BIT {
            self.bits > INFINITY_BITS
        } else {
            self.bits - SIGN_BIT > INFINITY_BITS
        }
    }

    /// Whether the value is neither infinite nor a NaN.
    pub fn is_finite(self) -> (r: bool)
        ensures
            r == (self.magnitude() < INFINITY_BITS),
    {
        if self.bits < SIGN_BIT {
            self.bits < INFINITY_BITS
        } else {
            self.bits - SIGN_BIT < INFINITY_BITS
        }
    }

    /// The place of a number among all numbers.
    fn place(self) -> (r: i64)
        ensures
            r == self.rank(),
    {
        if self.bits < SIGN_BIT {
            self.bits as i64
        } else {
            SIGN_BIT as i64 - self.bits as i64
        }
    }

    /// The place of a value in a list that is sorted by value.
    pub fn key(self) -> (r: i64)
        ensures
            r == self.sort_key(),
    {
        if self.is_nan() {
            -0x1_0000_0000
        } else {
            self.place()
        }
    }

    /// `self < other`, as the language compares the two numbers.
    pub fn lt(self, other: Scalar) -> (r: bool)
        ensures
            r == self.below(other),
    {
        !self.is_nan() && !other.is_nan() && self.place() < other.place()
    }

    /// `self <= other`, as the language compares the two numbers.
    pub fn le(self, other: Scalar) -> (r: bool)
        ensures
            r == self.at_most(other),
    {
        !self.is_nan() && !other.is_nan() && self.place() <= other.place()
    }

    /// Whether the value lies in the closed interval from `lo` to `hi`.
    pub fn within(self, lo: Scalar, hi: Scalar) -> (r: bool)
        ensures
            r == self.between(lo, hi),
    {
        lo.le(self) && self.le(hi)
    }

    /// The value limited to the interval from `lo` to `hi`.
    pub fn clamp(self, lo: Scalar, hi: Scalar) -> (r: Scalar)
        ensures
            r == self.clamped(lo, hi),
            !self.nan() && lo.at_most(hi) ==> r.between(lo, hi),
    {
        if self.lt(lo) {
            lo
        } else if hi.lt(self) {
            hi
        } else {
            self
        }
    }

    /// The fraction `k / 2^24`, which a single-precision value holds exactly.
    pub fn unit_fraction(k: u32) -> (r: Scalar)
        requires
            k < 0x0100_0000,
        ensures
            r.is_unit_fraction(k as int),
            r.between(Scalar::from_bits(ZERO), Scalar::from_bits(ONE)),
            r.below(Scalar::from_bits(ONE)),
    {
        if k == 0 {
            return Scalar::from_bits(ZERO);
        }
        let mut significand: u32 = k;
        let mut exponent: u32 = 126;
        assert(pow2(0) == 1) by {
            vstd::arithmetic::power2::lemma_pow2(0);
            vstd::arithmetic::power::lemma_pow0(2);
        }
        assert(significand == k * pow2((126 - exponent) as nat)) by (nonlinear_arith)
            requires
                significand == k,
                exponent == 126,
                pow2(0) == 1,
        ;
        assert(HIDDEN_BIT <= significand * pow2((exponent - 103) as nat)) by {
            vstd::arithmetic::power2::lemma2_to64();
            assert(significand * 0x80_0000 >= HIDDEN_BIT) by (nonlinear_arith)
                requires
                    significand >= 1,
                    HIDDEN_BIT == 0x80_0000,
            ;
        }
        while significand < HIDDEN_BIT
            invariant
                1 <= significand < 0x0100_0000,
                103 <= exponent <= 126,
                HIDDEN_BIT == 0x0080_0000,
                significand == k * pow2((126 - exponent) as nat),
                HIDDEN_BIT <= significand * pow2((exponent - 103) as nat),
            decreases exponent,
        {
            proof {
                if exponent == 103 {
                    vstd::arithmetic::power2::lemma2_to64();
                    assert(false);
                }
                vstd::arithmetic::power2::lemma_pow2_unfold((127 - exponent) as nat);
                vstd::arithmetic::power2::lemma_pow2_unfold((exponent - 103) as nat);
                let a = pow2((126 - exponent) as nat) as int;
                let b = pow2((exponent - 104) as nat) as int;
                let s = significand as int;
                let n = k as int;
                assert(s * 2 == n * (2 * a)) by (nonlinear_arith)
                    requires
                        s == n * a,
                ;
                assert((s * 2) * b == s * (2 * b)) by (nonlinear_arith);
            }
            significand = significand * 2;
            exponent = exponent - 1;
        }
        let r = Scalar { bits: exponent * HIDDEN_BIT + (significand - HIDDEN_BIT) };
        assert(r.bits as int / HIDDEN_BIT as int == exponent);
        assert(r.bits as int % HIDDEN_BIT as int == significand - HIDDEN_BIT);
        r
    }
}

} // verus!
