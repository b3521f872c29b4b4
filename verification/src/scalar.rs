//! Numbers with a fraction, as they are stored: by the 64 bits of their
//! binary64 form.

use vstd::prelude::*;

verus! {

/// A number with a fraction, held as the bits of its IEEE 754 binary64
/// encoding. The library never computes with such a number: it carries it,
/// and tells from the bits whether it lies between zero and one.
#[derive(Clone, Copy, Debug, PartialEq, Eq)]
pub struct Scalar {
    pub bits: u64,
}

/// The encoding of one.
pub const ONE_BITS: u64 = 0x3FF0_0000_0000_0000;

/// The encoding of negative zero.
pub const NEGATIVE_ZERO_BITS: u64 = 0x8000_0000_0000_0000;

impl Scalar {
    /// The number that `bits` encodes.
    pub fn from_bits(bits: u64) -> (r: Scalar)
        ensures
            r.bits == bits,
    {
        Scalar { bits }
    }

    /// The bits that encode the number.
    pub fn to_bits(&self) -> (bits: u64)
        ensures
            bits == self.bits,
    {
        self.bits
    }

    /// Whether the number lies in the closed interval from zero to one. The
    /// non-negative numbers are ordered as their encodings are, the encoding
    /// of zero being 0; negative zero equals zero; every other encoding with
    /// the sign bit set is a negative number or not a number, and every
    /// encoding above that of one is a larger number, an infinity or not a
    /// number.
    pub open spec fn in_unit_interval(self) -> bool {
        self.bits <= ONE_BITS || self.bits == NEGATIVE_ZERO_BITS
    }

    /// Tells whether the number lies between zero and one, ends included.
    pub fn is_in_unit_interval(&self) -> (b: bool)
        ensures
            b == self.in_unit_interval(),
    {
        self.bits <= ONE_BITS || self.bits == NEGATIVE_ZERO_BITS
    }
}

} // verus!
