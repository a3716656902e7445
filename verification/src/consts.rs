//! The constants of the simulation, each a binary64 pattern unless its name
//! says otherwise. Lengths are kilometres, masses kilograms.
use vstd::prelude::*;

verus! {

/// The gravitational constant in km^3 / (kg * time-unit^2): the binary64
/// nearest to 6.673e-20.
pub const G: u64 = 0x3bf3_b1f9_eb49_3ad1;

/// Length of one sub-step: the binary64 nearest to one sixtieth of a time
/// unit.
pub const DT: u64 = 0x3f91_1111_1111_1111;

/// Kilometres per unit of length on the scale in which radii and the two
/// distance thresholds are given: 696 000.
pub const KM_IN_PX: u64 = 0x4125_3d80_0000_0000;

/// Safety margin added to the two radii of a pair, as a binary32 pattern:
/// 0.5.
pub const CONTACT_MARGIN: u32 = 0x3f00_0000;

/// Separation from which a light body no longer pulls: 5.
pub const FAR_DISTANCE: u64 = 0x4014_0000_0000_0000;

/// Mass up to which a body counts as light: the binary64 nearest to 1e30.
pub const LIGHT_MASS: u64 = 0x4629_3e59_39a0_8cea;

} // verus!
