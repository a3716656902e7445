//! Single precision on 32-bit words: the operations of the other modules at
//! `Format::Binary32`, taking and giving `u32`.
use crate::ieee::arith::{add_spec, div_spec, fadd, fdiv, fmul, fsub, mul_spec, sub_spec};
use crate::ieee::format::{Format, negate};
use crate::ieee::identities::{
    lemma_product_is_pattern, lemma_quotient_is_pattern, lemma_sum_is_pattern,
};
use crate::ieee::order::{lt, lt_spec};
use vstd::prelude::*;

verus! {

/// The sum of two binary32 patterns.
pub open spec fn add32(a: u32, b: u32) -> u32 {
    add_spec(Format::Binary32, a as nat, b as nat) as u32
}

/// The difference of two binary32 patterns.
pub open spec fn sub32(a: u32, b: u32) -> u32 {
    sub_spec(Format::Binary32, a as nat, b as nat) as u32
}

/// The product of two binary32 patterns.
pub open spec fn mul32(a: u32, b: u32) -> u32 {
    mul_spec(Format::Binary32, a as nat, b as nat) as u32
}

/// The quotient of two binary32 patterns.
pub open spec fn div32(a: u32, b: u32) -> u32 {
    div_spec(Format::Binary32, a as nat, b as nat) as u32
}

/// Whether `a < b` as binary32 numbers.
pub open spec fn lt32(a: u32, b: u32) -> bool {
    lt_spec(Format::Binary32, a as nat, b as nat)
}

/// Adds in single precision.
pub fn fadd32(a: u32, b: u32) -> (r: u32)
    ensures
        r == add32(a, b),
        r == add_spec(Format::Binary32, a as nat, b as nat),
{
    proof {
        lemma_sum_is_pattern(Format::Binary32, a as nat, b as nat);
    }
    fadd(Format::Binary32, a as u64, b as u64) as u32
}

/// Subtracts in single precision.
pub fn fsub32(a: u32, b: u32) -> (r: u32)
    ensures
        r == sub32(a, b),
        r == sub_spec(Format::Binary32, a as nat, b as nat),
{
    proof {
        lemma_sum_is_pattern(
            Format::Binary32,
            a as nat,
            negate(Format::Binary32, b as nat),
        );
    }
    fsub(Format::Binary32, a as u64, b as u64) as u32
}

/// Multiplies in single precision.
pub fn fmul32(a: u32, b: u32) -> (r: u32)
    ensures
        r == mul32(a, b),
        r == mul_spec(Format::Binary32, a as nat, b as nat),
{
    proof {
        lemma_product_is_pattern(Format::Binary32, a as nat, b as nat);
    }
    fmul(Format::Binary32, a as u64, b as u64) as u32
}

/// Divides in single precision.
pub fn fdiv32(a: u32, b: u32) -> (r: u32)
    ensures
        r == div32(a, b),
        r == div_spec(Format::Binary32, a as nat, b as nat),
{
    proof {
        lemma_quotient_is_pattern(Format::Binary32, a as nat, b as nat);
    }
    fdiv(Format::Binary32, a as u64, b as u64) as u32
}

/// Whether `a < b` in single precision.
pub fn less32(a: u32, b: u32) -> (r: bool)
    ensures
        r == lt32(a, b),
{
    lt(Format::Binary32, a as u64, b as u64)
}

} // verus!
