//! A body of the simulation.
use crate::ieee::format::Format;
use crate::ieee::identities::is_positive_finite;
use crate::ieee::order::lemma_zero_significand;
use crate::vector::{Pair, Vector2};
use vstd::prelude::*;

verus! {

/// A massive body.
///
/// Position and velocity are binary64 vectors, in kilometres and kilometres
/// per time unit; the mass is a binary64 pattern, in kilograms; the radius is
/// a binary32 pattern on the length scale of the distance thresholds. The
/// label is carried along and never read.
#[derive(Clone, Debug)]
pub struct Planet {
    pub label: String,
    pub position: Vector2,
    pub velocity: Vector2,
    pub radius: u32,
    pub mass: u64,
}

/// The mathematical view of a `Planet`.
pub struct Body {
    pub label: Seq<char>,
    pub position: Pair,
    pub velocity: Pair,
    pub radius: nat,
    pub mass: nat,
}

impl View for Planet {
    type V = Body;

    open spec fn view(&self) -> Body {
        Body {
            label: self.label@,
            position: self.position@,
            velocity: self.velocity@,
            radius: self.radius as nat,
            mass: self.mass as nat,
        }
    }
}

impl Body {
    /// The mass is a finite number above zero.
    pub open spec fn well_formed(self) -> bool {
        is_positive_finite(Format::Binary64, self.mass)
    }
}

impl Planet {
    /// Whether the mass is a finite number above zero.
    pub fn is_well_formed(&self) -> (r: bool)
        ensures
            r == self@.well_formed(),
    {
        proof {
            if self.mass < 0x7ff0_0000_0000_0000 {
                lemma_zero_significand(Format::Binary64, self.mass as nat);
            }
        }
        0 < self.mass && self.mass < 0x7ff0_0000_0000_0000
    }
}

/// The views of a sequence of planets, in the same order.
pub open spec fn bodies(planets: Seq<Planet>) -> Seq<Body> {
    Seq::new(planets.len(), |k: int| planets[k]@)
}

} // verus!
