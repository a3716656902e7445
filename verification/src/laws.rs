//! What holds of the force model and of the integration step on all inputs.
use crate::consts::{DT, FAR_DISTANCE, G, LIGHT_MASS};
use crate::force::gravity_force;
use crate::ieee::arith::{add_spec, div_spec, mul_spec, sub_spec};
use crate::ieee::convert::narrow_spec;
use crate::ieee::format::{Format, negate};
use crate::ieee::identities::{
    is_finite, lemma_add_zero, lemma_decode_zero, lemma_div_negated,
    lemma_mul_commutes, lemma_mul_negated, lemma_nan_spreads, lemma_results_are_patterns,
    lemma_square_of_negated, lemma_sub_swapped, lemma_zero_over_anything, lemma_zero_over_positive,
    lemma_zero_times_anything, lemma_zero_times_finite, sign_of,
};
use crate::ieee::order::{is_nan, is_zero, le_spec, lemma_order_total, lt_spec, same_number};
use crate::ieee::root::sqrt_spec;
use crate::ieee::rounding::lemma_decode_negate;
use crate::ieee::scaling::{
    above_subnormal, four, lemma_add_scaled, lemma_div_scaled_both, lemma_div_scaled_dividend,
    lemma_div_scaled_divisor, lemma_mul_by_two_or_four, lemma_mul_scaled, lemma_sqrt_scaled,
    lemma_square_scaled, lemma_sub_scaled, lemma_times_two_or_four, raisable, roomy, times_pow2,
    two, zero_or_raisable,
};
use crate::integrator::{contact_reach, drifted, net_force, pulls, skipped, stepped};
use crate::planet::{Body, Planet, bodies};
use crate::vector::{Pair, Vector2};
use vstd::prelude::*;

verus! {

/// A neighbour whose separation, taken to single precision, is exactly the
/// contact reach of the pair is left out, whatever its mass, and so is every
/// neighbour closer than that. A neighbour beyond the reach pulls unless it
/// is both far and light.
pub proof fn law_contact_boundary(diff: nat, radius_i: nat, radius_j: nat, mass_j: nat)
    ensures
        narrow_spec(diff) == contact_reach(radius_i, radius_j) && !is_nan(
            Format::Binary32,
            contact_reach(radius_i, radius_j),
        ) ==> skipped(diff, radius_i, radius_j, mass_j),
        le_spec(Format::Binary32, narrow_spec(diff), contact_reach(radius_i, radius_j))
            ==> skipped(diff, radius_i, radius_j, mass_j),
        lt_spec(Format::Binary32, contact_reach(radius_i, radius_j), narrow_spec(diff)) && (lt_spec(
            Format::Binary64,
            diff,
            FAR_DISTANCE as nat,
        ) || lt_spec(Format::Binary64, LIGHT_MASS as nat, mass_j)) ==> !skipped(
            diff,
            radius_i,
            radius_j,
            mass_j,
        ),
{
    let reach = contact_reach(radius_i, radius_j);
    lemma_order_total(Format::Binary32, reach, narrow_spec(diff));
    lemma_order_total(Format::Binary32, reach, reach);
    lemma_order_total(Format::Binary64, diff, FAR_DISTANCE as nat);
    lemma_order_total(Format::Binary64, LIGHT_MASS as nat, mass_j);
}

/// A neighbour at exactly the far distance with exactly the light mass is
/// left out, as is every neighbour at least as far and at most as heavy. At
/// the far distance a neighbour heavier than the light mass pulls unless it
/// is within contact reach.
pub proof fn law_far_light_cutoff(diff: nat, radius_i: nat, radius_j: nat, mass_j: nat)
    ensures
        skipped(FAR_DISTANCE as nat, radius_i, radius_j, LIGHT_MASS as nat),
        le_spec(Format::Binary64, FAR_DISTANCE as nat, diff) && le_spec(
            Format::Binary64,
            mass_j,
            LIGHT_MASS as nat,
        ) ==> skipped(diff, radius_i, radius_j, mass_j),
        lt_spec(Format::Binary64, LIGHT_MASS as nat, mass_j) && lt_spec(
            Format::Binary32,
            contact_reach(radius_i, radius_j),
            narrow_spec(FAR_DISTANCE as nat),
        ) ==> !skipped(FAR_DISTANCE as nat, radius_i, radius_j, mass_j),
{
    lemma_order_total(Format::Binary64, FAR_DISTANCE as nat, FAR_DISTANCE as nat);
    lemma_order_total(Format::Binary64, LIGHT_MASS as nat, LIGHT_MASS as nat);
    lemma_order_total(Format::Binary64, LIGHT_MASS as nat, mass_j);
    lemma_order_total(
        Format::Binary32,
        contact_reach(radius_i, radius_j),
        narrow_spec(FAR_DISTANCE as nat),
    );
}

/// The step is semi-implicit: under the net force `f` the velocity becomes
/// `v + (f / m) * DT * k`, and the position moves by the new velocity, not
/// the old one: it becomes `p + v_new * DT * k`. Label, radius and mass stay.
pub proof fn law_velocity_before_position(all: Seq<Body>, i: int, dt_multiplier: nat)
    requires
        0 <= i < all.len(),
    ensures
        ({
            let f = net_force(all, i, all.len() as int);
            let after = stepped(all, i, dt_multiplier);
            &&& after.velocity == drifted(all[i].velocity, f.over(all[i].mass), dt_multiplier)
            &&& after.position == drifted(all[i].position, after.velocity, dt_multiplier)
            &&& after.label == all[i].label
            &&& after.radius == all[i].radius
            &&& after.mass == all[i].mass
        }),
{
}

/// A step neither adds nor removes a body, changes no body but the one it
/// is taken for, and leaves every mass, radius and label: bodies that were
/// well formed stay so.
pub proof fn law_step_keeps_the_rest(all: Seq<Body>, i: int, dt_multiplier: nat)
    requires
        0 <= i < all.len(),
    ensures
        ({
            let after = all.update(i, stepped(all, i, dt_multiplier));
            &&& after.len() == all.len()
            &&& forall|k: int| 0 <= k < all.len() && k != i ==> after[k] == all[k]
            &&& forall|k: int|
                0 <= k < all.len() ==> {
                    &&& (#[trigger] after[k]).mass == all[k].mass
                    &&& after[k].radius == all[k].radius
                    &&& after[k].label == all[k].label
                    &&& after[k].well_formed() == all[k].well_formed()
                }
        }),
{
}

/// Only the neighbours that pull enter the force sum: where none of the
/// first `upto` bodies pulls on body `i`, the sum is the zero vector.
pub proof fn law_no_pull_no_force(all: Seq<Body>, i: int, upto: int)
    requires
        forall|j: int| 0 <= j < upto ==> !pulls(all, i, j),
    ensures
        net_force(all, i, upto) == Pair::zero(),
    decreases upto,
{
    if upto > 0 {
        law_no_pull_no_force(all, i, upto - 1);
    }
}

/// Whether a velocity component is what it was, as a number, and bit for
/// bit unless it was a NaN or the negative zero.
pub open spec fn kept(before: nat, after: nat) -> bool {
    &&& same_number(Format::Binary64, after, before)
    &&& !is_nan(Format::Binary64, before) && before != Format::Binary64.sign() ==> after == before
}

/// A body of positive finite mass on which no neighbour pulls keeps its
/// velocity over a step of finite length, and its position moves by
/// `velocity * DT * dt_multiplier`.
pub proof fn law_unpulled_body_drifts(planets: Seq<Planet>, i: int, dt_multiplier: u64)
    requires
        0 <= i < planets.len(),
        forall|j: int| 0 <= j < planets.len() ==> !pulls(bodies(planets), i, j),
        planets[i]@.well_formed(),
        is_finite(Format::Binary64, dt_multiplier as nat),
    ensures
        ({
            let before = planets[i]@;
            let after = stepped(bodies(planets), i, dt_multiplier as nat);
            &&& kept(before.velocity.x, after.velocity.x)
            &&& kept(before.velocity.y, after.velocity.y)
            &&& after.position == drifted(before.position, after.velocity, dt_multiplier as nat)
        }),
{
    let fmt = Format::Binary64;
    let all = bodies(planets);
    let before = planets[i]@;
    assert(all[i] == before);
    law_no_pull_no_force(all, i, all.len() as int);
    lemma_zero_over_positive(fmt, before.mass);
    lemma_zero_times_finite(fmt, false, DT as nat);
    assert(!sign_of(fmt, DT as nat));
    lemma_zero_times_finite(fmt, false, dt_multiplier as nat);
    let neg = sign_of(fmt, dt_multiplier as nat);
    lemma_add_zero(fmt, before.velocity.x, neg);
    lemma_add_zero(fmt, before.velocity.y, neg);
    let acc = Pair::zero().over(before.mass);
    assert(acc == Pair::zero());
    assert(acc.times(DT as nat) == Pair::zero());
    assert(acc.times(DT as nat).times(dt_multiplier as nat) == (Pair {
        x: fmt.zero(neg),
        y: fmt.zero(neg),
    }));
}

/// A body alone keeps its velocity and moves in a straight line: stepping it
/// leaves the velocity as it was and adds `velocity * DT * dt_multiplier` to
/// the position.
pub proof fn law_lone_body_drifts(planet: Planet, dt_multiplier: u64)
    requires
        planet@.well_formed(),
        is_finite(Format::Binary64, dt_multiplier as nat),
    ensures
        ({
            let before = planet@;
            let after = stepped(seq![before], 0, dt_multiplier as nat);
            &&& kept(before.velocity.x, after.velocity.x)
            &&& kept(before.velocity.y, after.velocity.y)
            &&& after.position == drifted(before.position, after.velocity, dt_multiplier as nat)
        }),
{
    let planets = seq![planet];
    assert(bodies(planets) =~= seq![planet@]);
    law_unpulled_body_drifts(planets, 0, dt_multiplier);
}

/// One component of the force when the displacement is taken the other way
/// round: `e` is the swapped difference of which `d` is the straight one.
proof fn lemma_component_swapped(d: nat, e: nat, r: nat, magnitude: nat)
    requires
        d < 0x1_0000_0000_0000_0000,
        ({
            let fmt = Format::Binary64;
            ||| e == negate(fmt, d) && d != fmt.nan()
            ||| e == 0 && d == 0
            ||| e == fmt.nan() && d == fmt.nan()
        }),
    ensures
        ({
            let fmt = Format::Binary64;
            let f = mul_spec(fmt, div_spec(fmt, d, r), magnitude);
            let g = mul_spec(fmt, div_spec(fmt, e, r), magnitude);
            same_number(fmt, g, negate(fmt, f))
        }),
{
    let fmt = Format::Binary64;
    let u = div_spec(fmt, d, r);
    let v = div_spec(fmt, e, r);
    let f = mul_spec(fmt, u, magnitude);
    let g = mul_spec(fmt, v, magnitude);
    lemma_results_are_patterns(fmt, d, r);
    lemma_results_are_patterns(fmt, u, magnitude);
    lemma_decode_negate(fmt, fmt.nan());
    lemma_nan_spreads(fmt, fmt.nan(), magnitude);
    lemma_nan_spreads(fmt, fmt.nan(), r);
    if e == 0 && d == 0 {
        lemma_zero_over_anything(fmt, false, r);
        if u != fmt.nan() {
            lemma_zero_times_anything(fmt, u == fmt.sign(), magnitude);
        }
    } else if e == fmt.nan() && d == fmt.nan() {
    } else {
        lemma_div_negated(fmt, d, r);
        if u != fmt.nan() {
            lemma_mul_negated(fmt, u, magnitude);
        }
    }
}

/// Action and reaction: the force that body 2 exerts on body 1 is the
/// negation of the force that body 1 exerts on body 2, component by
/// component, as numbers. Where one is not a number, neither is the other.
pub proof fn law_force_antisymmetric(m1: u64, p1: Vector2, m2: u64, p2: Vector2)
    ensures
        ({
            let f = gravity_force(m1 as nat, p1@, m2 as nat, p2@);
            let g = gravity_force(m2 as nat, p2@, m1 as nat, p1@);
            &&& same_number(Format::Binary64, g.x, negate(Format::Binary64, f.x))
            &&& same_number(Format::Binary64, g.y, negate(Format::Binary64, f.y))
        }),
{
    let fmt = Format::Binary64;
    let d = p2@.minus(p1@);
    let e = p1@.minus(p2@);
    lemma_sub_swapped(fmt, p2.x as nat, p1.x as nat);
    lemma_sub_swapped(fmt, p2.y as nat, p1.y as nat);
    lemma_results_are_patterns(fmt, p2.x as nat, p1.x as nat);
    lemma_results_are_patterns(fmt, p2.y as nat, p1.y as nat);
    lemma_square_of_negated(fmt, d.x);
    lemma_square_of_negated(fmt, d.y);
    assert(mul_spec(fmt, e.x, e.x) == mul_spec(fmt, d.x, d.x));
    assert(mul_spec(fmt, e.y, e.y) == mul_spec(fmt, d.y, d.y));
    assert(e.norm() == d.norm());
    lemma_mul_commutes(fmt, m1 as nat, m2 as nat);
    let r = d.norm();
    let magnitude = div_spec(
        fmt,
        mul_spec(fmt, crate::consts::G as nat, mul_spec(fmt, m1 as nat, m2 as nat)),
        mul_spec(fmt, r, r),
    );
    lemma_component_swapped(d.x, e.x, r, magnitude);
    lemma_component_swapped(d.y, e.y, r, magnitude);
}

/// Whether the force between two bodies is computed without leaving the
/// range of the normal numbers, with room for a factor two: the product of
/// the masses, its product with `G` and the magnitude are normal numbers
/// that neither are the smallest nor double to an infinity, and each
/// component of the force is above the subnormal range or is the product of
/// a zero.
pub open spec fn force_has_room(m1: nat, p1: Pair, m2: nat, p2: Pair) -> bool {
    let fmt = Format::Binary64;
    let diff = p2.minus(p1);
    let r = diff.norm();
    let masses = mul_spec(fmt, m1, m2);
    let pull = mul_spec(fmt, G as nat, masses);
    let magnitude = div_spec(fmt, pull, mul_spec(fmt, r, r));
    let f = gravity_force(m1, p1, m2, p2);
    &&& roomy(fmt, masses, 1)
    &&& roomy(fmt, pull, 1)
    &&& roomy(fmt, magnitude, 1)
    &&& above_subnormal(fmt, f.x) || is_zero(fmt, diff.unit().x)
    &&& above_subnormal(fmt, f.y) || is_zero(fmt, diff.unit().y)
}

/// The force when the product of the masses is doubled.
proof fn lemma_force_of_doubled_masses(m1: nat, p1: Pair, m2: nat, p2: Pair, doubled: nat)
    requires
        force_has_room(m1, p1, m2, p2),
        doubled == times_pow2(Format::Binary64, mul_spec(Format::Binary64, m1, m2), 1),
    ensures
        ({
            let fmt = Format::Binary64;
            let diff = p2.minus(p1);
            let r = diff.norm();
            let magnitude = div_spec(fmt, mul_spec(fmt, G as nat, doubled), mul_spec(fmt, r, r));
            diff.unit().times(magnitude) == gravity_force(m1, p1, m2, p2).times(two())
        }),
{
    let fmt = Format::Binary64;
    let diff = p2.minus(p1);
    let r = diff.norm();
    let masses = mul_spec(fmt, m1, m2);
    let pull = mul_spec(fmt, G as nat, masses);
    let magnitude = div_spec(fmt, pull, mul_spec(fmt, r, r));
    // G * (2 * masses) = 2 * (G * masses)
    lemma_mul_commutes(fmt, G as nat, masses);
    lemma_mul_commutes(fmt, G as nat, doubled);
    lemma_mul_scaled(fmt, masses, G as nat, 1);
    // (2 * pull) / r^2 = 2 * (pull / r^2)
    lemma_div_scaled_dividend(fmt, pull, mul_spec(fmt, r, r), 1);
    let magnitude2 = times_pow2(fmt, magnitude, 1);
    assert(div_spec(fmt, mul_spec(fmt, G as nat, doubled), mul_spec(fmt, r, r)) == magnitude2);
    // unit * (2 * magnitude) = 2 * (unit * magnitude)
    lemma_mul_commutes(fmt, magnitude, diff.unit().x);
    lemma_mul_commutes(fmt, magnitude, diff.unit().y);
    lemma_mul_by_two_or_four(magnitude, diff.unit().x, 1);
    lemma_mul_by_two_or_four(magnitude, diff.unit().y, 1);
}

/// The force is proportional to each mass: with twice the mass of either
/// body every component of the force is twice what it was, as long as the
/// doubled mass is a normal number and the computation keeps within the
/// normal range.
pub proof fn law_force_doubles_with_mass(m1: u64, p1: Vector2, m2: u64, p2: Vector2)
    requires
        force_has_room(m1 as nat, p1@, m2 as nat, p2@),
    ensures
        raisable(Format::Binary64, m1 as nat, 1) ==> gravity_force(
            times_pow2(Format::Binary64, m1 as nat, 1),
            p1@,
            m2 as nat,
            p2@,
        ) == gravity_force(m1 as nat, p1@, m2 as nat, p2@).times(two()),
        raisable(Format::Binary64, m2 as nat, 1) ==> gravity_force(
            m1 as nat,
            p1@,
            times_pow2(Format::Binary64, m2 as nat, 1),
            p2@,
        ) == gravity_force(m1 as nat, p1@, m2 as nat, p2@).times(two()),
        raisable(Format::Binary64, m1 as nat, 1) ==> times_pow2(Format::Binary64, m1 as nat, 1)
            == mul_spec(Format::Binary64, m1 as nat, two()),
{
    let fmt = Format::Binary64;
    if raisable(fmt, m1 as nat, 1) {
        lemma_mul_scaled(fmt, m1 as nat, m2 as nat, 1);
        lemma_force_of_doubled_masses(
            m1 as nat,
            p1@,
            m2 as nat,
            p2@,
            mul_spec(fmt, times_pow2(fmt, m1 as nat, 1), m2 as nat),
        );
        lemma_times_two_or_four(m1 as nat, 1);
    }
    if raisable(fmt, m2 as nat, 1) {
        lemma_mul_commutes(fmt, m1 as nat, m2 as nat);
        lemma_mul_commutes(fmt, m1 as nat, times_pow2(fmt, m2 as nat, 1));
        lemma_mul_scaled(fmt, m2 as nat, m1 as nat, 1);
        lemma_force_of_doubled_masses(
            m1 as nat,
            p1@,
            m2 as nat,
            p2@,
            mul_spec(fmt, m1 as nat, times_pow2(fmt, m2 as nat, 1)),
        );
    }
}

/// The vector `2^j` times `p`, for components that are zeros or normal
/// numbers.
pub open spec fn scaled_pair(p: Pair, j: nat) -> Pair {
    Pair {
        x: times_pow2(Format::Binary64, p.x, j),
        y: times_pow2(Format::Binary64, p.y, j),
    }
}

/// Whether one component of the displacement, and its square, leave room for
/// the displacement to double: each is a zero or a normal number that is not
/// the smallest and stays finite when doubled (the square: when multiplied
/// by four).
pub open spec fn component_has_room(d: nat) -> bool {
    let fmt = Format::Binary64;
    let square = mul_spec(fmt, d, d);
    is_zero(fmt, d) || (roomy(fmt, d, 1) && roomy(fmt, square, 2))
}

/// Whether the force between two bodies can be compared with the force at
/// twice the distance without leaving the range of the normal numbers: the
/// coordinates are zeros or normal numbers that stay finite when doubled,
/// the displacement has room in both components, its squared length, its
/// length and the square of that have room for the factors four, two and
/// four, and at twice the distance the magnitude has room for a factor four
/// and each component of the force is above the subnormal range or is the
/// product of a zero.
pub open spec fn distance_has_room(m1: nat, p1: Pair, m2: nat, p2: Pair) -> bool {
    let fmt = Format::Binary64;
    let diff = p2.minus(p1);
    let squares = add_spec(fmt, mul_spec(fmt, diff.x, diff.x), mul_spec(fmt, diff.y, diff.y));
    let r = diff.norm();
    let rr = mul_spec(fmt, r, r);
    let pull = mul_spec(fmt, G as nat, mul_spec(fmt, m1, m2));
    let far_magnitude = div_spec(fmt, pull, times_pow2(fmt, rr, 2));
    let unit = diff.unit();
    &&& zero_or_raisable(fmt, p1.x, 1)
    &&& zero_or_raisable(fmt, p1.y, 1)
    &&& zero_or_raisable(fmt, p2.x, 1)
    &&& zero_or_raisable(fmt, p2.y, 1)
    &&& component_has_room(diff.x)
    &&& component_has_room(diff.y)
    &&& roomy(fmt, squares, 2)
    &&& raisable(fmt, r, 1)
    &&& roomy(fmt, rr, 2)
    &&& roomy(fmt, far_magnitude, 2)
    &&& above_subnormal(fmt, mul_spec(fmt, unit.x, far_magnitude)) || is_zero(fmt, unit.x)
    &&& above_subnormal(fmt, mul_spec(fmt, unit.y, far_magnitude)) || is_zero(fmt, unit.y)
}

/// Doubling both positions doubles the displacement, leaves its unit vector
/// and doubles its length.
proof fn lemma_displacement_doubles(p1: Pair, p2: Pair)
    requires
        zero_or_raisable(Format::Binary64, p1.x, 1),
        zero_or_raisable(Format::Binary64, p1.y, 1),
        zero_or_raisable(Format::Binary64, p2.x, 1),
        zero_or_raisable(Format::Binary64, p2.y, 1),
        component_has_room(p2.minus(p1).x),
        component_has_room(p2.minus(p1).y),
        ({
            let fmt = Format::Binary64;
            let diff = p2.minus(p1);
            roomy(
                fmt,
                add_spec(fmt, mul_spec(fmt, diff.x, diff.x), mul_spec(fmt, diff.y, diff.y)),
                2,
            )
        }),
        raisable(Format::Binary64, p2.minus(p1).norm(), 1),
    ensures
        ({
            let near = p2.minus(p1);
            let far = scaled_pair(p2, 1).minus(scaled_pair(p1, 1));
            &&& far == scaled_pair(near, 1)
            &&& far.norm() == times_pow2(Format::Binary64, near.norm(), 1)
            &&& far.unit() == near.unit()
        }),
{
    let fmt = Format::Binary64;
    let near = p2.minus(p1);
    let far = scaled_pair(p2, 1).minus(scaled_pair(p1, 1));
    lemma_sub_scaled(fmt, p2.x, p1.x, 1);
    lemma_sub_scaled(fmt, p2.y, p1.y, 1);
    assert(far == scaled_pair(near, 1));
    let xx = mul_spec(fmt, near.x, near.x);
    let yy = mul_spec(fmt, near.y, near.y);
    lemma_zero_square(near.x);
    lemma_zero_square(near.y);
    lemma_square_scaled(fmt, near.x, 1);
    lemma_square_scaled(fmt, near.y, 1);
    lemma_add_scaled(fmt, xx, yy, 2);
    lemma_sqrt_scaled(fmt, add_spec(fmt, xx, yy), 1);
    assert(far.norm() == times_pow2(fmt, near.norm(), 1));
    lemma_div_scaled_both(fmt, near.x, near.norm(), 1);
    lemma_div_scaled_both(fmt, near.y, near.norm(), 1);
}

/// The square of a zero is a zero.
proof fn lemma_zero_square(d: nat)
    ensures
        is_zero(Format::Binary64, d) ==> is_zero(
            Format::Binary64,
            mul_spec(Format::Binary64, d, d),
        ),
{
    let fmt = Format::Binary64;
    if is_zero(fmt, d) {
        let neg = d >= fmt.sign();
        lemma_decode_zero(fmt, neg);
        lemma_zero_times_finite(fmt, neg, d);
    }
}

/// The inverse-square law: at twice the distance the force is a quarter.
/// With both positions doubled, four times each component of the force is
/// what the component was, as long as the computation keeps within the
/// normal range; the doubled positions are the positions times two.
pub proof fn law_force_quarters_with_doubled_distance(
    m1: u64,
    p1: Vector2,
    m2: u64,
    p2: Vector2,
)
    requires
        distance_has_room(m1 as nat, p1@, m2 as nat, p2@),
    ensures
        gravity_force(m1 as nat, scaled_pair(p1@, 1), m2 as nat, scaled_pair(p2@, 1)).times(four())
            == gravity_force(m1 as nat, p1@, m2 as nat, p2@),
        scaled_pair(p1@, 1) == p1@.times(two()),
        scaled_pair(p2@, 1) == p2@.times(two()),
{
    let fmt = Format::Binary64;
    let near = p2@.minus(p1@);
    let far = scaled_pair(p2@, 1).minus(scaled_pair(p1@, 1));
    lemma_displacement_doubles(p1@, p2@);
    let r = near.norm();
    let rr = mul_spec(fmt, r, r);
    let pull = mul_spec(fmt, G as nat, mul_spec(fmt, m1 as nat, m2 as nat));
    // the square of the doubled length is four times the square of the length
    lemma_square_scaled(fmt, r, 1);
    let far_magnitude = div_spec(fmt, pull, times_pow2(fmt, rr, 2));
    let magnitude = div_spec(fmt, pull, rr);
    lemma_div_scaled_divisor(fmt, pull, rr, 2);
    assert(magnitude == times_pow2(fmt, far_magnitude, 2));
    let unit = near.unit();
    lemma_mul_commutes(fmt, far_magnitude, unit.x);
    lemma_mul_commutes(fmt, far_magnitude, unit.y);
    lemma_mul_by_two_or_four(far_magnitude, unit.x, 2);
    lemma_mul_by_two_or_four(far_magnitude, unit.y, 2);
    lemma_times_two_or_four(p1.x as nat, 1);
    lemma_times_two_or_four(p1.y as nat, 1);
    lemma_times_two_or_four(p2.x as nat, 1);
    lemma_times_two_or_four(p2.y as nat, 1);
}

/// Two bodies at the same finite point exert no force that is a number:
/// the displacement is zero, it has no unit vector, and both components of
/// the force are NaNs.
pub proof fn law_coincident_bodies_have_no_force(m1: u64, m2: u64, p: Vector2)
    requires
        is_finite(Format::Binary64, p.x as nat),
        is_finite(Format::Binary64, p.y as nat),
    ensures
        gravity_force(m1 as nat, p@, m2 as nat, p@) == (Pair {
            x: Format::Binary64.nan(),
            y: Format::Binary64.nan(),
        }),
{
    let fmt = Format::Binary64;
    let diff = p@.minus(p@);
    lemma_self_difference(p.x as nat);
    lemma_self_difference(p.y as nat);
    assert(diff == Pair::zero());
    lemma_decode_zero(fmt, false);
    lemma_zero_times_finite(fmt, false, 0);
    lemma_add_zero(fmt, 0, false);
    assert(sqrt_spec(fmt, 0) == 0) by {
        reveal(sqrt_spec);
    }
    assert(diff.norm() == 0);
    assert(div_spec(fmt, 0, 0) == fmt.nan()) by {
        reveal(div_spec);
    }
    let r = diff.norm();
    let magnitude = div_spec(
        fmt,
        mul_spec(fmt, G as nat, mul_spec(fmt, m1 as nat, m2 as nat)),
        mul_spec(fmt, r, r),
    );
    lemma_nan_spreads(fmt, fmt.nan(), magnitude);
}

/// A finite number less itself is positive zero.
proof fn lemma_self_difference(a: nat)
    requires
        a < 0x1_0000_0000_0000_0000,
        is_finite(Format::Binary64, a),
    ensures
        sub_spec(Format::Binary64, a, a) == 0,
{
    let fmt = Format::Binary64;
    reveal(add_spec);
    lemma_decode_negate(fmt, a);
}

} // verus!
