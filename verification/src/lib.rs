//! Fixed-point numbers of 128 bits with saturating arithmetic, on an exact 256-bit kernel.
//!
//! The product of two 128-bit numbers has up to 256 bits, and a quotient with fractional
//! bits needs a dividend of up to 256 bits. [`int256`] holds such numbers in two 128-bit
//! limbs and multiplies, divides, shifts, adds and negates them exactly, reporting every
//! loss of bits in a flag. [`unsigned`] and [`signed`] build fixed-point numbers on it, and
//! [`saturating`] wraps them in a type whose arithmetic stops at the bounds of the range.
//!
//! Every function states what it returns over mathematical integers, and Verus proves that
//! it does so without overflow.

pub mod bits;
pub mod bytes;
pub mod convert;
pub mod int256;
pub mod lemmas;
pub mod log;
pub mod nonzero;
pub mod rounding;
pub mod saturating;
pub mod signed;
pub mod sqrt;
pub mod traits;
pub mod unsigned;
