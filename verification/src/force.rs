//! Newton's law of gravitation between two point masses.
use crate::consts::G;
use crate::ieee::arith::{div_spec, fdiv, fmul, mul_spec};
use crate::ieee::format::Format;
use crate::vector::{Pair, Vector2};
use vstd::prelude::*;

verus! {

/// The force that a body of mass `m2` at `p2` exerts on a body of mass `m1`
/// at `p1`: of magnitude `G * m1 * m2 / r^2`, where `r` is the length of
/// `p2 - p1`, along the unit vector of `p2 - p1`.
///
/// Every operation is rounded, in this order: the product of the masses,
/// its product with `G`, the square of `r`, the quotient; the unit vector;
/// its product with the magnitude. Where the two positions are the same
/// finite point the unit vector, and with it the force, is a pair of NaNs.
pub open spec fn gravity_force(m1: nat, p1: Pair, m2: nat, p2: Pair) -> Pair {
    let diff = p2.minus(p1);
    let r = diff.norm();
    let magnitude = div_spec(
        Format::Binary64,
        mul_spec(Format::Binary64, G as nat, mul_spec(Format::Binary64, m1, m2)),
        mul_spec(Format::Binary64, r, r),
    );
    diff.unit().times(magnitude)
}

/// Computes the force that body 2 exerts on body 1.
pub fn calculate_gravity_force(m1: u64, p1: Vector2, m2: u64, p2: Vector2) -> (f: Vector2)
    ensures
        f@ == gravity_force(m1 as nat, p1@, m2 as nat, p2@),
{
    let diff = p2.minus(p1);
    let r = diff.norm();
    let dir = diff.unit();
    let masses = fmul(Format::Binary64, m1, m2);
    let magnitude = fdiv(Format::Binary64, fmul(Format::Binary64, G, masses), fmul(Format::Binary64, r, r));
    dir.times(magnitude)
}

} // verus!
