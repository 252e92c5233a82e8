//! Scalar numbers as the library carries them.
//!
//! Quantities, factors, prices and hyperparameters are real numbers that the
//! library stores and hands on without computing with them. A `Scalar` holds the
//! 64 bits of a binary64 number: one sign bit, then the magnitude (eleven
//! exponent bits and fifty-two fraction bits).

use vstd::prelude::*;

verus! {

/// The bits of a binary64 number.
#[derive(Clone, Copy, Debug, PartialEq, Eq, Structural)]
pub struct Scalar {
    pub bits: u64,
}

/// Mask of the magnitude: every bit but the sign.
pub const MAGNITUDE_MASK: u64 = 0x7FFF_FFFF_FFFF_FFFF;

/// Magnitude of infinity; a larger magnitude is not a number.
pub const INFINITY_MAGNITUDE: u64 = 0x7FF0_0000_0000_0000;

impl Scalar {
    /// The magnitude bits.
    pub open spec fn magnitude(self) -> u64 {
        self.bits & MAGNITUDE_MASK
    }

    /// The sign bit is set.
    pub open spec fn negative(self) -> bool {
        self.bits > MAGNITUDE_MASK
    }

    /// The bits stand for no number.
    pub open spec fn not_a_number(self) -> bool {
        self.magnitude() > INFINITY_MAGNITUDE
    }

    /// An integer that orders numbers as their values do: the magnitude,
    /// negated where the sign bit is set. Both zeros have key 0.
    pub open spec fn key(self) -> int {
        if self.negative() {
            -(self.magnitude() as int)
        } else {
            self.magnitude() as int
        }
    }

    /// The number is greater than zero.
    pub open spec fn positive(self) -> bool {
        !self.not_a_number() && self.key() > 0
    }

    /// Tells whether the number is greater than zero.
    pub fn is_positive(self) -> (p: bool)
        ensures
            p == self.positive(),
    {
        match self.order_key() {
            Some(k) => k > 0,
            None => false,
        }
    }

    /// The number is finite and not below zero.
    pub open spec fn finite_non_negative(self) -> bool {
        self.magnitude() < INFINITY_MAGNITUDE && (!self.negative() || self.magnitude() == 0)
    }

    /// Tells whether the number is finite and not below zero.
    pub fn is_finite_non_negative(self) -> (v: bool)
        ensures
            v == self.finite_non_negative(),
    {
        let bits: u64 = self.bits;
        let magnitude: u64 = bits & MAGNITUDE_MASK;
        magnitude < INFINITY_MAGNITUDE && (bits <= MAGNITUDE_MASK || magnitude == 0)
    }

    /// The number zero.
    pub fn zero() -> (r: Scalar)
        ensures
            r.bits == 0,
    {
        Scalar { bits: 0 }
    }

    /// Wraps the bits of a number.
    pub fn from_bits(bits: u64) -> (r: Scalar)
        ensures
            r.bits == bits,
    {
        Scalar { bits }
    }

    /// The bits of the number.
    pub fn to_bits(self) -> (bits: u64)
        ensures
            bits == self.bits,
    {
        self.bits
    }

    /// The ordering key of the number, or `None` where the bits stand for no
    /// number.
    pub fn order_key(self) -> (k: Option<i64>)
        ensures
            k.is_none() == self.not_a_number(),
            k matches Some(v) ==> v as int == self.key(),
    {
        let bits: u64 = self.bits;
        let magnitude: u64 = bits & MAGNITUDE_MASK;
        assert(magnitude <= 0x7FFF_FFFF_FFFF_FFFF) by (bit_vector)
            requires
                magnitude == bits & 0x7FFF_FFFF_FFFF_FFFF,
        ;
        if magnitude > INFINITY_MAGNITUDE {
            None
        } else if self.bits > MAGNITUDE_MASK {
            Some(-(magnitude as i64))
        } else {
            Some(magnitude as i64)
        }
    }
}

} // verus!
