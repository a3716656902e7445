//! IEEE 754 binary floating-point arithmetic on bit patterns.
//!
//! A number is held as the pattern of its encoding, in an unsigned integer.
//! Each operation takes patterns and gives the pattern of the exact result
//! rounded to nearest, ties to even; what that is, is said over integers:
//! a finite pattern denotes `(-1)^neg * mant * 2^exp`, and `round` maps an
//! exact result, written as an integer times a power of two, to the nearest
//! pattern.
pub mod arith;
pub mod convert;
pub mod format;
pub mod identities;
pub mod order;
pub mod pow;
pub mod root;
pub mod rounding;
pub mod scaling;
pub mod single;
