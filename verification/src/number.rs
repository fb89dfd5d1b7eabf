//! Extended real numbers held as the bit pattern of an IEEE 754 binary64.
//!
//! The library stores, classifies, compares and negates numbers; it never adds
//! or multiplies them. All of that can be read off the bits: the top bit is the
//! sign, and the remaining 63 bits order the magnitudes, infinity after every
//! finite magnitude and the NaN payloads after infinity.

use vstd::prelude::*;

verus! {

/// The sign bit, which is also one more than the largest magnitude pattern.
pub const SIGN: u64 = 0x8000_0000_0000_0000;

/// The magnitude pattern of infinity.
pub const INFINITY_BITS: u64 = 0x7ff0_0000_0000_0000;

/// The magnitude pattern of one.
pub const ONE_BITS: u64 = 0x3ff0_0000_0000_0000;

/// A binary64 value by its bit pattern. `==` compares patterns; the numeric
/// comparison, under which both zeros are equal and a NaN equals nothing, is
/// [`Real::equals`].
#[derive(Clone, Copy, Debug, PartialEq, Eq, Structural, Hash)]
pub struct Real {
    pub bits: u64,
}

#[verifier::allow_in_spec]
pub fn zero() -> Real
    returns
        (Real { bits: 0 }),
{
    Real { bits: 0 }
}

#[verifier::allow_in_spec]
pub fn one() -> Real
    returns
        (Real { bits: ONE_BITS }),
{
    Real { bits: ONE_BITS }
}

#[verifier::allow_in_spec]
pub fn minus_one() -> Real
    returns
        (Real { bits: (ONE_BITS + SIGN) as u64 }),
{
    Real { bits: ONE_BITS + SIGN }
}

#[verifier::allow_in_spec]
pub fn infinity() -> Real
    returns
        (Real { bits: INFINITY_BITS }),
{
    Real { bits: INFINITY_BITS }
}

#[verifier::allow_in_spec]
pub fn neg_infinity() -> Real
    returns
        (Real { bits: (INFINITY_BITS + SIGN) as u64 }),
{
    Real { bits: INFINITY_BITS + SIGN }
}

impl Real {
    pub open spec fn negative_sign(self) -> bool {
        self.bits >= SIGN
    }

    /// The pattern without its sign bit.
    pub open spec fn magnitude(self) -> int {
        if self.negative_sign() {
            self.bits - SIGN
        } else {
            self.bits as int
        }
    }

    /// Position on the extended real line: among values that are not NaN, one
    /// is less than another exactly when its rank is less, and both zeros have
    /// rank zero.
    pub open spec fn rank(self) -> int {
        if self.negative_sign() {
            -self.magnitude()
        } else {
            self.magnitude()
        }
    }

    pub open spec fn nan(self) -> bool {
        self.magnitude() > INFINITY_BITS
    }

    pub open spec fn finite(self) -> bool {
        self.magnitude() < INFINITY_BITS
    }

    pub open spec fn zero(self) -> bool {
        self.magnitude() == 0
    }

    pub open spec fn lt(self, other: Real) -> bool {
        !self.nan() && !other.nan() && self.rank() < other.rank()
    }

    pub open spec fn le(self, other: Real) -> bool {
        !self.nan() && !other.nan() && self.rank() <= other.rank()
    }

    /// Numeric equality.
    pub open spec fn same(self, other: Real) -> bool {
        !self.nan() && !other.nan() && self.rank() == other.rank()
    }

    pub open spec fn opposite(self) -> Real {
        if self.negative_sign() {
            Real { bits: (self.bits - SIGN) as u64 }
        } else {
            Real { bits: (self.bits + SIGN) as u64 }
        }
    }

    pub open spec fn absolute(self) -> Real {
        Real { bits: self.magnitude() as u64 }
    }

    pub fn from_bits(bits: u64) -> (r: Real)
        ensures
            r.bits == bits,
    {
        Real { bits }
    }

    pub fn to_bits(self) -> (bits: u64)
        ensures
            bits == self.bits,
    {
        self.bits
    }

    pub fn is_nan(self) -> (b: bool)
        ensures
            b == self.nan(),
    {
        self.abs().bits > INFINITY_BITS
    }

    pub fn is_finite(self) -> (b: bool)
        ensures
            b == self.finite(),
    {
        self.abs().bits < INFINITY_BITS
    }

    pub fn is_zero(self) -> (b: bool)
        ensures
            b == self.zero(),
    {
        self.bits == 0 || self.bits == SIGN
    }

    /// Whether the value is greater than zero.
    pub fn is_positive(self) -> (b: bool)
        ensures
            b == zero().lt(self),
    {
        self.bits > 0 && self.bits <= INFINITY_BITS
    }

    /// Whether the value is less than zero.
    pub fn is_negative(self) -> (b: bool)
        ensures
            b == self.lt(zero()),
    {
        self.bits > SIGN && self.bits - SIGN <= INFINITY_BITS
    }

    pub fn abs(self) -> (r: Real)
        ensures
            r == self.absolute(),
            r.magnitude() == self.magnitude(),
            !r.negative_sign(),
    {
        if self.bits >= SIGN {
            Real { bits: self.bits - SIGN }
        } else {
            self
        }
    }

    pub fn neg(self) -> (r: Real)
        ensures
            r == self.opposite(),
            r.rank() == -self.rank(),
            r.magnitude() == self.magnitude(),
    {
        if self.bits >= SIGN {
            Real { bits: self.bits - SIGN }
        } else {
            Real { bits: self.bits + SIGN }
        }
    }

    pub fn less(self, other: Real) -> (b: bool)
        ensures
            b == self.lt(other),
    {
        if self.is_nan() || other.is_nan() {
            return false;
        }
        let a: u64 = self.abs().bits;
        let b: u64 = other.abs().bits;
        if self.bits >= SIGN {
            if other.bits >= SIGN {
                a > b
            } else {
                a > 0 || b > 0
            }
        } else {
            other.bits < SIGN && a < b
        }
    }

    pub fn at_most(self, other: Real) -> (b: bool)
        ensures
            b == self.le(other),
    {
        !self.is_nan() && !other.is_nan() && !other.less(self)
    }

    /// Numeric equality: both zeros are equal and a NaN equals nothing.
    pub fn equals(self, other: Real) -> (b: bool)
        ensures
            b == self.same(other),
    {
        self.at_most(other) && other.at_most(self)
    }
}

/// Negation undoes itself on every pattern, NaNs included.
pub proof fn opposite_is_an_involution(x: Real)
    ensures
        x.opposite().opposite() == x,
{
}

/// Numeric comparison of values that are not NaN is a total order up to the
/// two zeros, and negation reverses it.
pub proof fn comparison_is_total_and_reversed_by_negation(x: Real, y: Real)
    requires
        !x.nan(),
        !y.nan(),
    ensures
        x.lt(y) || x.same(y) || y.lt(x),
        x.le(y) && y.le(x) ==> x.same(y),
        x.lt(y) == y.opposite().lt(x.opposite()),
        x.same(y) && !x.zero() ==> x == y,
{
}

} // verus!
