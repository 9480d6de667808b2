//! Two compact 16-bit floating-point storage formats — IEEE 754 `binary16`
//! ("half") and truncated-`binary32` ("bfloat") — with bit-exact conversion
//! to and from the 32-bit and 64-bit IEEE 754 bit patterns, lossless-conversion
//! detection, classification, and IEEE comparison semantics, all stated and
//! proved over the raw bit patterns.
//!
//! The conversion engine is pure bit manipulation: a wide value enters and
//! leaves as its `u32` or `u64` bit pattern, so every rounding decision is a
//! statement about integers that the verifier checks. The arithmetic
//! operators follow the promote–compute–demote rule, with the wide compute
//! step carried out exactly on scaled integer significands, so they are
//! verified on the same footing as the conversions.

use vstd::prelude::*;

pub mod bfloat;
pub mod binary16;
pub mod rounding;
pub mod wide;

pub use bfloat::bf16;
pub use binary16::F16;

verus! {

/// The class of a floating point value: the five IEEE 754 categories.
#[derive(Clone, Copy, Debug, PartialEq, Eq, Structural)]
pub enum FpCategory {
    /// Not a number.
    Nan,
    /// Positive or negative infinity.
    Infinite,
    /// Positive or negative zero.
    Zero,
    /// A subnormal value: exponent field zero, mantissa nonzero.
    Subnormal,
    /// A normal finite value.
    Normal,
}

/// A sealing marker for the two storage formats of this crate: only [`F16`]
/// and [`bf16`] implement it.
pub trait SealedHalf {

}

impl SealedHalf for F16 {

}

impl SealedHalf for bf16 {

}

} // verus!
