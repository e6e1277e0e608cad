//! Fractional base conversion.
//!
//! The library turns the fractional part of a binary floating-point value
//! into its digit expansion in an arbitrary target base, by the classic
//! repeated-multiplication method: multiply the remainder by the base, the
//! integer part is the next digit, keep the fractional part, and stop early
//! once the remainder is exactly zero, or after [`convert::MAX_DIGITS`]
//! digits.
//!
//! The input is a [`frac::Frac`], an exact dyadic fraction
//! `significand * 2^exponent` holding the value of an IEEE 754 binary64
//! number in `[0, 1)`. Every arithmetic step — including the rounding of
//! each product to 53 significant bits, round half to even — is carried out
//! on integers and verified, so the digit strings match what repeated
//! `f64` multiplication produces for such inputs.

pub mod bits;
pub mod convert;
pub mod dec;
pub mod frac;
pub mod laws;
pub mod rounding;
