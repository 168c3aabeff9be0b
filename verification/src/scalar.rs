//! Single-precision numbers, held by their bit patterns.
//!
//! Surfaces are described by coordinates, scales and colours in the IEEE 754
//! binary32 format. Nothing here computes with them: the rules of this library
//! only compare, select and carry them, and comparison and selection depend on
//! nothing but the bit patterns.

use vstd::prelude::*;

verus! {

/// The sign of a binary32 number.
pub const SIGN_BIT: u32 = 0x8000_0000;

/// The magnitude of an infinity. A larger magnitude is a NaN.
pub const INFINITY_BITS: u32 = 0x7f80_0000;

/// A binary32 number, as its bit pattern.
///
/// Two scalars are equal when their bits are; `-0` and `+0` are different
/// scalars of the same rank.
#[derive(Clone, Copy, Debug, PartialEq, Eq, Hash, Structural)]
pub struct Scalar {
    pub bits: u32,
}

impl Scalar {
    /// The bits below the sign.
    pub open spec fn magnitude(self) -> int {
        if self.bits < SIGN_BIT {
            self.bits as int
        } else {
            self.bits - SIGN_BIT
        }
    }

    /// Whether this is a NaN, which compares with nothing.
    pub open spec fn nan(self) -> bool {
        self.magnitude() > INFINITY_BITS
    }

    /// The place of a number in the order of the numbers: a negative number
    /// ranks by its magnitude below zero.
    pub open spec fn rank(self) -> int {
        if self.bits < SIGN_BIT {
            self.magnitude()
        } else {
            -self.magnitude()
        }
    }

    /// The number's `<`.
    pub open spec fn less(self, other: Self) -> bool {
        !self.nan() && !other.nan() && self.rank() < other.rank()
    }

    /// The number's `<=`.
    pub open spec fn at_most(self, other: Self) -> bool {
        !self.nan() && !other.nan() && self.rank() <= other.rank()
    }

    /// The lesser of two numbers, and `other` where they do not compare.
    pub open spec fn lesser(self, other: Self) -> Self {
        if self.at_most(other) {
            self
        } else {
            other
        }
    }

    /// The greater of two numbers, and `other` where they do not compare.
    pub open spec fn greater(self, other: Self) -> Self {
        if other.at_most(self) {
            self
        } else {
            other
        }
    }

    /// The number zero.
    pub open spec fn zero_value() -> Self {
        Scalar { bits: 0 }
    }

    /// The number one.
    pub open spec fn one_value() -> Self {
        Scalar { bits: 0x3f80_0000 }
    }

    /// The number with the given bit pattern.
    pub fn from_bits(bits: u32) -> (r: Self)
        ensures
            r.bits == bits,
    {
        Scalar { bits }
    }

    /// The number zero.
    pub fn zero() -> (r: Self)
        ensures
            r == Self::zero_value(),
    {
        Scalar { bits: 0 }
    }

    /// The number one.
    pub fn one() -> (r: Self)
        ensures
            r == Self::one_value(),
    {
        Scalar { bits: 0x3f80_0000 }
    }

    /// Whether this is a NaN.
    pub fn is_nan(self) -> (r: bool)
        ensures
            r == self.nan(),
    {
        if self.bits < SIGN_BIT {
            self.bits > INFINITY_BITS
        } else {
            self.bits - SIGN_BIT > INFINITY_BITS
        }
    }

    fn rank_value(self) -> (r: i64)
        ensures
            r == self.rank(),
    {
        if self.bits < SIGN_BIT {
            self.bits as i64
        } else {
            0 - (self.bits - SIGN_BIT) as i64
        }
    }

    /// Whether this number is less than `other`.
    pub fn lt(self, other: Self) -> (r: bool)
        ensures
            r == self.less(other),
    {
        !self.is_nan() && !other.is_nan() && self.rank_value() < other.rank_value()
    }

    /// Whether this number is at most `other`.
    pub fn le(self, other: Self) -> (r: bool)
        ensures
            r == self.at_most(other),
    {
        !self.is_nan() && !other.is_nan() && self.rank_value() <= other.rank_value()
    }

    /// The lesser of two numbers, and `other` where they do not compare.
    pub fn min(self, other: Self) -> (r: Self)
        ensures
            r == self.lesser(other),
    {
        if self.le(other) {
            self
        } else {
            other
        }
    }

    /// The greater of two numbers, and `other` where they do not compare.
    pub fn max(self, other: Self) -> (r: Self)
        ensures
            r == self.greater(other),
    {
        if other.le(self) {
            self
        } else {
            other
        }
    }
}

} // verus!
