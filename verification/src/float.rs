//! Double precision numbers by their bit patterns.
//!
//! A [`Float`] holds the 64 bits of an IEEE 754 binary64 number. Comparison and
//! arithmetic are defined on those bits: every result is the exact result, rounded to
//! the nearest number of the format, ties to even.

use vstd::arithmetic::power2::pow2;
use vstd::prelude::*;

pub mod arith;
pub mod convert;
pub mod fused;
pub mod laws;
pub mod root;
pub mod round;

verus! {

/// The sign bit.
pub const SIGN: u64 = 0x8000_0000_0000_0000;

/// The magnitude of an infinity.
pub const INFINITE: u64 = 0x7ff0_0000_0000_0000;

/// The magnitude of the result of an undefined operation.
pub const QUIET: u64 = 0x7ff8_0000_0000_0000;

/// Two to the power of 52: the number of magnitudes with one exponent.
pub const STEP: u64 = 0x0010_0000_0000_0000;

/// The bits of zero.
pub const ZERO: u64 = 0;

/// The bits of one.
pub const ONE: u64 = 0x3ff0_0000_0000_0000;

/// The bits of two.
pub const TWO: u64 = 0x4000_0000_0000_0000;

/// A double precision number.
#[derive(Clone, Copy, PartialEq, Eq, Structural, Debug)]
pub struct Float {
    pub bits: u64,
}

impl Float {
    /// Whether the sign bit is set.
    pub open spec fn negative(self) -> bool {
        self.bits >= SIGN
    }

    /// The bits without the sign.
    pub open spec fn magnitude(self) -> u64 {
        if self.bits >= SIGN {
            (self.bits - SIGN) as u64
        } else {
            self.bits
        }
    }

    /// Whether the bits stand for no number.
    pub open spec fn nan(self) -> bool {
        self.magnitude() > INFINITE
    }

    pub open spec fn infinite(self) -> bool {
        self.magnitude() == INFINITE
    }

    pub open spec fn finite(self) -> bool {
        self.magnitude() < INFINITE
    }

    pub open spec fn zero(self) -> bool {
        self.magnitude() == 0
    }

    /// The significant bits of a finite number, as an integer.
    pub open spec fn significand(self) -> nat {
        let m = self.magnitude();
        if m < STEP {
            m as nat
        } else {
            (STEP + m % STEP) as nat
        }
    }

    /// How often the significand of a finite number is to be doubled to give its units.
    pub open spec fn exponent(self) -> nat {
        let m = self.magnitude();
        if m < STEP {
            0
        } else {
            (m / STEP - 1) as nat
        }
    }

    /// The absolute value of a finite number, counted in units of `2^-1074`.
    pub open spec fn units(self) -> nat {
        self.significand() * pow2(self.exponent())
    }

    /// The value of a finite number, counted in units of `2^-1074`.
    pub open spec fn value(self) -> int {
        if self.negative() {
            -(self.units() as int)
        } else {
            self.units() as int
        }
    }

    /// The number with sign `negative` and the magnitude `m`; an infinity where `m` is
    /// beyond the largest number.
    pub open spec fn make(negative: bool, m: nat) -> Float {
        let mag = if m >= INFINITE {
            INFINITE
        } else {
            m as u64
        };
        Float {
            bits: if negative {
                (mag + SIGN) as u64
            } else {
                mag
            },
        }
    }

    /// The number's place in the total order of all bit patterns: negative ones come
    /// first, by falling magnitude, then the others by rising magnitude.
    pub open spec fn rank(self) -> int {
        if self.negative() {
            -1 - self.magnitude()
        } else {
            self.magnitude() as int
        }
    }

    /// The number's place in the order in which the two zeros are one, and everything
    /// that is no number is one and comes last.
    pub open spec fn order(self) -> int {
        if self.nan() {
            QUIET as int
        } else if self.zero() {
            0
        } else {
            self.rank()
        }
    }

    /// Whether `self < other`; never where either is no number.
    pub open spec fn less(self, other: Float) -> bool {
        !self.nan() && !other.nan() && self.order() < other.order()
    }

    /// Whether `self <= other`; never where either is no number.
    pub open spec fn at_most(self, other: Float) -> bool {
        !self.nan() && !other.nan() && self.order() <= other.order()
    }

    /// Whether `self == other` as numbers; never where either is no number.
    pub open spec fn same(self, other: Float) -> bool {
        !self.nan() && !other.nan() && self.order() == other.order()
    }

    /// The number with its sign turned.
    pub open spec fn negated(self) -> Float {
        Float {
            bits: if self.negative() {
                (self.bits - SIGN) as u64
            } else {
                (self.bits + SIGN) as u64
            },
        }
    }

    /// The number without its sign.
    pub open spec fn absolute(self) -> Float {
        Float { bits: self.magnitude() }
    }

    /// The smaller of two numbers; the other one where one is no number.
    pub open spec fn smaller(self, other: Float) -> Float {
        if self.nan() || other.less(self) {
            other
        } else {
            self
        }
    }

    /// The larger of two numbers; the other one where one is no number.
    pub open spec fn larger(self, other: Float) -> Float {
        if self.nan() || self.less(other) {
            other
        } else {
            self
        }
    }

    /// Whether the sign bit is set.
    pub fn is_negative(self) -> (r: bool)
        ensures
            r == self.negative(),
    {
        self.bits >= SIGN
    }

    /// The bits without the sign.
    pub fn mag(self) -> (r: u64)
        ensures
            r == self.magnitude(),
            r < SIGN,
    {
        if self.bits >= SIGN {
            self.bits - SIGN
        } else {
            self.bits
        }
    }

    pub fn is_nan(self) -> (r: bool)
        ensures
            r == self.nan(),
    {
        self.mag() > INFINITE
    }

    pub fn is_infinite(self) -> (r: bool)
        ensures
            r == self.infinite(),
    {
        self.mag() == INFINITE
    }

    pub fn is_finite(self) -> (r: bool)
        ensures
            r == self.finite(),
    {
        self.mag() < INFINITE
    }

    /// The place in the total order of all bit patterns.
    pub fn total_rank(self) -> (r: i64)
        ensures
            r == self.rank(),
    {
        if self.bits >= SIGN {
            -1 - ((self.bits - SIGN) as i64)
        } else {
            self.bits as i64
        }
    }

    /// The place in the order with one zero, where what is no number comes last.
    pub fn order_key(self) -> (r: i64)
        ensures
            r == self.order(),
    {
        if self.is_nan() {
            QUIET as i64
        } else if self.mag() == 0 {
            0
        } else {
            self.total_rank()
        }
    }

    pub fn lt(self, other: Float) -> (r: bool)
        ensures
            r == self.less(other),
    {
        !self.is_nan() && !other.is_nan() && self.order_key() < other.order_key()
    }

    pub fn le(self, other: Float) -> (r: bool)
        ensures
            r == self.at_most(other),
    {
        !self.is_nan() && !other.is_nan() && self.order_key() <= other.order_key()
    }

    pub fn eq_number(self, other: Float) -> (r: bool)
        ensures
            r == self.same(other),
    {
        !self.is_nan() && !other.is_nan() && self.order_key() == other.order_key()
    }

    pub fn neg(self) -> (r: Float)
        ensures
            r == self.negated(),
    {
        if self.bits >= SIGN {
            Float { bits: self.bits - SIGN }
        } else {
            Float { bits: self.bits + SIGN }
        }
    }

    pub fn abs(self) -> (r: Float)
        ensures
            r == self.absolute(),
    {
        Float { bits: self.mag() }
    }

    pub fn min(self, other: Float) -> (r: Float)
        ensures
            r == self.smaller(other),
    {
        if self.is_nan() || other.lt(self) {
            other
        } else {
            self
        }
    }

    pub fn max(self, other: Float) -> (r: Float)
        ensures
            r == self.larger(other),
    {
        if self.is_nan() || self.lt(other) {
            other
        } else {
            self
        }
    }
}

} // verus!
