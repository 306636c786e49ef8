//! Numbers and angles as the decoders carry them.

use vstd::prelude::*;

verus! {

/// An IEEE 754 binary64 number, carried by its bit pattern.
///
/// Equality is equality of bit patterns: it tells the two zeros apart and
/// holds between two copies of one NaN pattern.
#[derive(Clone, Copy, Debug, PartialEq, Eq, Structural)]
pub struct Binary64 {
    /// The sign bit, the eleven exponent bits and the 52 fraction bits, from
    /// the most significant bit down.
    pub bits: u64,
}

impl Binary64 {
    /// The number with the given bit pattern.
    pub fn from_bits(bits: u64) -> (value: Self)
        ensures
            value.bits == bits,
    {
        Binary64 { bits }
    }

    /// The bit pattern of the number.
    pub fn to_bits(self) -> (bits: u64)
        ensures
            bits == self.bits,
    {
        self.bits
    }
}

/// An angle in radians.
///
/// The type keeps an angle apart from a bare number: a value in degrees has to
/// be converted before it can stand where an angle is expected.
#[derive(Clone, Copy, Debug, PartialEq, Eq, Structural)]
pub struct Radians(pub Binary64);

} // verus!
