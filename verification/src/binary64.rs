//! IEEE-754 binary64 numbers held by their encoding.
//!
//! Scores, weights and decay parameters are binary64 numbers. The library
//! stores them as their 64-bit encodings and never does arithmetic on them;
//! it only copies, compares and orders them. Arithmetic happens where the
//! numbers are decoded (`f64::from_bits`).

use vstd::prelude::*;

verus! {

/// Mask of every bit but the sign.
pub const MAGNITUDE_MASK: u64 = 0x7fff_ffff_ffff_ffff;

/// The sign bit.
pub const SIGN_BIT: u64 = 0x8000_0000_0000_0000;

/// The exponent field, all ones for infinities and NaNs.
pub const EXPONENT_MASK: u64 = 0x7ff0_0000_0000_0000;

/// A binary64 number, by its encoding.
#[derive(Clone, Copy, Debug)]
pub struct Binary64 {
    /// The 64-bit IEEE-754 encoding.
    pub bits: u64,
}

/// The encoding of `+0.0`.
pub const ZERO_BITS: u64 = 0;

/// The encoding of `1.0`.
pub const ONE_BITS: u64 = 0x3ff0_0000_0000_0000;

impl Binary64 {
    /// The number whose encoding is `bits`.
    pub fn from_bits(bits: u64) -> (r: Self)
        ensures
            r.bits == bits,
    {
        Binary64 { bits }
    }

    /// The encoding is a NaN (exponent all ones, fraction non-zero).
    pub open spec fn spec_is_nan(self) -> bool {
        &&& self.bits & EXPONENT_MASK == EXPONENT_MASK
        &&& self.bits & 0x000f_ffff_ffff_ffff != 0
    }

    /// The encoding is `+0.0` or `-0.0`.
    pub open spec fn spec_is_zero(self) -> bool {
        self.bits & MAGNITUDE_MASK == 0
    }

    /// Numeric equality of binary64 values: NaN equals nothing, and the two
    /// zeros are equal.
    pub open spec fn spec_num_eq(self, other: Self) -> bool {
        &&& !self.spec_is_nan()
        &&& !other.spec_is_nan()
        &&& (self.bits == other.bits || (self.spec_is_zero() && other.spec_is_zero()))
    }

    /// A key whose unsigned order is the numeric order of non-NaN values:
    /// both zeros map to the sign bit, a negative value to the complement of
    /// its encoding, a positive value to its encoding with the sign bit set.
    pub open spec fn spec_order_key(self) -> u64 {
        if self.bits & MAGNITUDE_MASK == 0 {
            SIGN_BIT
        } else if self.bits & SIGN_BIT != 0 {
            !self.bits
        } else {
            self.bits | SIGN_BIT
        }
    }

    /// See [`Self::spec_order_key`].
    pub fn order_key(&self) -> (r: u64)
        ensures
            r == self.spec_order_key(),
    {
        if self.bits & MAGNITUDE_MASK == 0 {
            SIGN_BIT
        } else if self.bits & SIGN_BIT != 0 {
            !self.bits
        } else {
            self.bits | SIGN_BIT
        }
    }

    /// Whether the encoding is a NaN (see [`Self::spec_is_nan`]).
    pub fn is_nan(&self) -> (r: bool)
        ensures
            r == self.spec_is_nan(),
    {
        self.bits & EXPONENT_MASK == EXPONENT_MASK && self.bits & 0x000f_ffff_ffff_ffff != 0
    }

    /// Numeric equality (see [`Self::spec_num_eq`]).
    pub fn num_eq(&self, other: &Self) -> (r: bool)
        ensures
            r == self.spec_num_eq(*other),
    {
        let nan_a = self.bits & EXPONENT_MASK == EXPONENT_MASK && self.bits & 0x000f_ffff_ffff_ffff != 0;
        let nan_b = other.bits & EXPONENT_MASK == EXPONENT_MASK && other.bits & 0x000f_ffff_ffff_ffff
            != 0;
        !nan_a && !nan_b && (self.bits == other.bits || (self.bits & MAGNITUDE_MASK == 0
            && other.bits & MAGNITUDE_MASK == 0))
    }
}

impl PartialEq for Binary64 {
    fn eq(&self, other: &Self) -> (r: bool) {
        self.num_eq(other)
    }
}

impl vstd::std_specs::cmp::PartialEqSpecImpl for Binary64 {
    open spec fn obeys_eq_spec() -> bool {
        true
    }

    open spec fn eq_spec(&self, other: &Self) -> bool {
        self.spec_num_eq(*other)
    }
}

} // verus!
