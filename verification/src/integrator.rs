//! The integration step: which neighbours pull on a body, the force they
//! sum to, and the semi-implicit Euler update of velocity and position.
use crate::consts::{CONTACT_MARGIN, DT, FAR_DISTANCE, KM_IN_PX, LIGHT_MASS};
use crate::force::{calculate_gravity_force, gravity_force};
use crate::ieee::arith::{add_spec, div_spec, fadd, fdiv};
use crate::ieee::convert::{narrow, narrow_spec};
use crate::ieee::format::Format;
use crate::ieee::order::{le, le_spec};
use crate::planet::{Body, Planet, bodies};
use crate::vector::{Pair, Vector2};
use vstd::prelude::*;

verus! {

/// The separation of two positions on the length scale of the radii: the
/// length of their difference, divided by `KM_IN_PX`.
pub open spec fn separation(a: Pair, b: Pair) -> nat {
    div_spec(Format::Binary64, a.minus(b).norm(), KM_IN_PX as nat)
}

/// The reach of a pair: the two radii and the contact margin, summed in
/// single precision, the radii first.
pub open spec fn contact_reach(radius_i: nat, radius_j: nat) -> nat {
    add_spec(
        Format::Binary32,
        add_spec(Format::Binary32, radius_i, radius_j),
        CONTACT_MARGIN as nat,
    )
}

/// Whether a neighbour at separation `diff` is left out of the force sum:
/// it is within reach of the body (compared in single precision), or it is
/// far and light.
pub open spec fn skipped(diff: nat, radius_i: nat, radius_j: nat, mass_j: nat) -> bool {
    ||| le_spec(Format::Binary32, narrow_spec(diff), contact_reach(radius_i, radius_j))
    ||| (le_spec(Format::Binary64, FAR_DISTANCE as nat, diff) && le_spec(
        Format::Binary64,
        mass_j,
        LIGHT_MASS as nat,
    ))
}

/// Whether body `j` pulls on body `i`.
pub open spec fn pulls(all: Seq<Body>, i: int, j: int) -> bool {
    j != i && !skipped(
        separation(all[i].position, all[j].position),
        all[i].radius,
        all[j].radius,
        all[j].mass,
    )
}

/// The force on body `i` from those of the first `upto` bodies that pull on
/// it, summed in index order from a vector of positive zeros.
pub open spec fn net_force(all: Seq<Body>, i: int, upto: int) -> Pair
    decreases upto,
{
    if upto <= 0 {
        Pair::zero()
    } else {
        let before = net_force(all, i, upto - 1);
        let j = upto - 1;
        if pulls(all, i, j) {
            before.plus(gravity_force(all[i].mass, all[i].position, all[j].mass, all[j].position))
        } else {
            before
        }
    }
}

/// `v + rate * DT * dt_multiplier`, the products taken from the left.
pub open spec fn drifted(v: Pair, rate: Pair, dt_multiplier: nat) -> Pair {
    v.plus(rate.times(DT as nat).times(dt_multiplier))
}

/// Body `i` after one step under the force `f`: the velocity moves by the
/// acceleration `f / mass`, and the position then moves by the new velocity.
pub open spec fn pushed(b: Body, f: Pair, dt_multiplier: nat) -> Body {
    let velocity = drifted(b.velocity, f.over(b.mass), dt_multiplier);
    let position = drifted(b.position, velocity, dt_multiplier);
    Body { label: b.label, position, velocity, radius: b.radius, mass: b.mass }
}

/// Body `i` after one step among `all`.
pub open spec fn stepped(all: Seq<Body>, i: int, dt_multiplier: nat) -> Body {
    pushed(all[i], net_force(all, i, all.len() as int), dt_multiplier)
}

/// The separation of two positions on the length scale of the radii.
pub fn distance(a: Vector2, b: Vector2) -> (r: u64)
    ensures
        r == separation(a@, b@),
{
    fdiv(Format::Binary64, a.minus(b).norm(), KM_IN_PX)
}

/// Whether a neighbour of radius `radius_j` and mass `mass_j`, at separation
/// `diff` from a body of radius `radius_i`, is left out of the force sum.
pub fn pair_is_skipped(diff: u64, radius_i: u32, radius_j: u32, mass_j: u64) -> (r: bool)
    ensures
        r == skipped(diff as nat, radius_i as nat, radius_j as nat, mass_j as nat),
{
    let radii = fadd(Format::Binary32, radius_i as u64, radius_j as u64);
    let reach = fadd(Format::Binary32, radii, CONTACT_MARGIN as u64);
    le(Format::Binary32, narrow(diff) as u64, reach) || (le(Format::Binary64, FAR_DISTANCE, diff)
        && le(Format::Binary64, mass_j, LIGHT_MASS))
}

/// The pull of body `j` on body `i`, if there is one.
pub fn pull_between(i: usize, j: usize, planets: &Vec<Planet>) -> (r: Option<Vector2>)
    requires
        i < planets.len(),
        j < planets.len(),
    ensures
        r is Some <==> pulls(bodies(planets@), i as int, j as int),
        r is Some ==> r->Some_0@ == gravity_force(
            planets[i as int]@.mass,
            planets[i as int]@.position,
            planets[j as int]@.mass,
            planets[j as int]@.position,
        ),
{
    if j == i {
        return None;
    }
    let diff = distance(planets[i].position, planets[j].position);
    if pair_is_skipped(diff, planets[i].radius, planets[j].radius, planets[j].mass) {
        None
    } else {
        Some(
            calculate_gravity_force(
                planets[i].mass,
                planets[i].position,
                planets[j].mass,
                planets[j].position,
            ),
        )
    }
}

/// The force on body `i` from all the bodies that pull on it.
pub fn resultant_force(i: usize, planets: &Vec<Planet>) -> (f: Vector2)
    requires
        i < planets.len(),
    ensures
        f@ == net_force(bodies(planets@), i as int, planets.len() as int),
{
    let ghost all = bodies(planets@);
    let mut f = Vector2::zero();
    let mut j: usize = 0;
    while j < planets.len()
        invariant
            j <= planets.len(),
            i < planets.len(),
            all == bodies(planets@),
            f@ == net_force(all, i as int, j as int),
        decreases planets.len() - j,
    {
        let ghost before = f@;
        match pull_between(i, j, planets) {
            Some(pull) => {
                f = f.plus(pull);
            },
            None => {},
        }
        j = j + 1;
        assert(f@ == net_force(all, i as int, j as int)) by {
            assert(all[i as int] == planets[i as int]@);
            assert(all[j - 1] == planets[j - 1]@);
            assert(before == net_force(all, i as int, j - 1));
        }
    }
    f
}

/// Advances body `i` by one sub-step of length `DT * dt_multiplier`.
///
/// The force is summed over the neighbours that pull, the velocity is
/// advanced by the acceleration, and the position by the new velocity. No
/// other body changes.
pub fn update_planet_position(i: usize, planets: &mut Vec<Planet>, dt_multiplier: u64)
    requires
        i < old(planets).len(),
    ensures
        final(planets).len() == old(planets).len(),
        bodies(final(planets)@) == bodies(old(planets)@).update(
            i as int,
            stepped(bodies(old(planets)@), i as int, dt_multiplier as nat),
        ),
{
    let force = resultant_force(i, planets);
    let acceleration = force.over(planets[i].mass);
    let velocity = planets[i].velocity.plus(acceleration.times(DT).times(dt_multiplier));
    let position = planets[i].position.plus(velocity.times(DT).times(dt_multiplier));
    planets[i].velocity = velocity;
    planets[i].position = position;
    assert(bodies(planets@) =~= bodies(old(planets)@).update(
        i as int,
        stepped(bodies(old(planets)@), i as int, dt_multiplier as nat),
    ));
}

} // verus!
