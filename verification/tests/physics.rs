use gravity_sim::ieee::arith::fdiv;
use gravity_sim::consts::{CONTACT_MARGIN, DT, FAR_DISTANCE, G, KM_IN_PX, LIGHT_MASS};
use gravity_sim::control::{SpeedCommand, SpeedControl};
use gravity_sim::force::calculate_gravity_force;
use gravity_sim::ieee::format::Format;
use gravity_sim::integrator::{
    distance, pair_is_skipped, pull_between, resultant_force, update_planet_position,
};
use gravity_sim::planet::Planet;
use gravity_sim::simulation::{advance, sub_step};
use gravity_sim::vector::Vector2;

// The same quantities in hardware arithmetic, to hold the library against.

const G_F: f64 = 6.673e-20;
const DT_F: f64 = 1.0 / 60.0;
const KM_IN_PX_F: f64 = 696_000.0;

#[derive(Clone, Debug)]
struct HardBody {
    position: nalgebra::Vector2<f64>,
    velocity: nalgebra::Vector2<f64>,
    radius: f32,
    mass: f64,
}

fn hard_force(
    m1: f64,
    p1: nalgebra::Vector2<f64>,
    m2: f64,
    p2: nalgebra::Vector2<f64>,
) -> nalgebra::Vector2<f64> {
    let diff = p2 - p1;
    let r: f64 = diff.norm();
    let dir = diff.normalize();
    let magnitude = G_F * (m1 * m2) / (r * r);
    dir * magnitude
}

fn hard_step(i: usize, all: &mut Vec<HardBody>, dt_multiplier: f64) {
    let mut total: nalgebra::Vector2<f64> = nalgebra::Vector2::new(0.0, 0.0);
    for j in 0..all.len() {
        if j == i {
            continue;
        }
        let diff = (all[i].position - all[j].position).norm() / KM_IN_PX_F;
        if diff as f32 <= all[i].radius + all[j].radius + 0.5
            || (diff >= 5.0 && all[j].mass <= 1.0e30)
        {
            continue;
        }
        total += hard_force(all[i].mass, all[i].position, all[j].mass, all[j].position);
    }
    let acceleration = total / all[i].mass;
    all[i].velocity += acceleration * DT_F * dt_multiplier;
    let vel = all[i].velocity;
    all[i].position += vel * DT_F * dt_multiplier;
}

fn vec_bits(x: f64, y: f64) -> Vector2 {
    Vector2 { x: x.to_bits(), y: y.to_bits() }
}

fn planet(label: &str, pos: (f64, f64), vel: (f64, f64), radius: f32, mass: f64) -> Planet {
    Planet {
        label: String::from(label),
        position: vec_bits(pos.0, pos.1),
        velocity: vec_bits(vel.0, vel.1),
        radius: radius.to_bits(),
        mass: mass.to_bits(),
    }
}

fn hard(p: &Planet) -> HardBody {
    HardBody {
        position: nalgebra::Vector2::new(f64::from_bits(p.position.x), f64::from_bits(p.position.y)),
        velocity: nalgebra::Vector2::new(f64::from_bits(p.velocity.x), f64::from_bits(p.velocity.y)),
        radius: f32::from_bits(p.radius),
        mass: f64::from_bits(p.mass),
    }
}

fn same(got: u64, want: f64) -> bool {
    if want.is_nan() {
        f64::from_bits(got).is_nan()
    } else {
        got == want.to_bits()
    }
}

fn assert_same_state(planets: &Vec<Planet>, hard: &Vec<HardBody>, what: &str) {
    assert_eq!(planets.len(), hard.len());
    for k in 0..planets.len() {
        assert!(same(planets[k].position.x, hard[k].position.x), "{}: position.x of {}", what, k);
        assert!(same(planets[k].position.y, hard[k].position.y), "{}: position.y of {}", what, k);
        assert!(same(planets[k].velocity.x, hard[k].velocity.x), "{}: velocity.x of {}", what, k);
        assert!(same(planets[k].velocity.y, hard[k].velocity.y), "{}: velocity.y of {}", what, k);
        assert_eq!(planets[k].mass, hard[k].mass.to_bits());
        assert_eq!(planets[k].radius, hard[k].radius.to_bits());
    }
}

fn solar_system() -> Vec<Planet> {
    vec![
        planet("Sun", (0.0, 0.0), (0.0, 0.0), 1.0, 1.989e30),
        planet("Mercury", (-49.553e6, 0.0), (0.0, 47.87), 0.0030581, 3.285e23),
        planet("Venus", (-108.209e6, 0.0), (0.0, 35.0), 0.0086956, 4.867e24),
        planet("Earth", (-149.6e6, 0.0), (0.0, 30.0), 0.0091743, 5.972e24),
        planet("Moon", (-149.9835e6, 0.0), (0.0, 31.2), 0.0025, 7.34767309e22),
        planet("Mars", (-227.9e6, 0.0), (0.0, 24.077), 0.00458715, 6.39e23),
        planet("Jupiter", (-778.6e6, 0.0), (0.0, 13.07), 0.1283381, 1.89813e27),
        planet("Saturn", (-1433.5e6, 0.0), (0.0, 9.69), 0.82566, 5.683e26),
        planet("Uranus", (-2872.5e6, 0.0), (0.0, 6.81), 0.366972, 8.681e25),
        planet("Neptune", (-4496.1e6, 0.0), (0.0, 5.43), 0.366972, 1.0241e26),
        planet("Pluto", (-5906.38e6, 0.0), (0.0, 4.74), 0.366972, 1.309e22),
        planet("Ninth", (-37400.0e6, 0.0), (0.0, 8.0), 0.02293575, 29.86e24),
    ]
}

/// Three stars heavy enough to pull on one another at any range.
fn heavy_triple() -> Vec<Planet> {
    vec![
        planet("A", (0.0, 0.0), (0.0, -5000.0), 0.05, 34.0e32),
        planet("B", (-10.0 * KM_IN_PX_F, 0.0), (0.0, 5000.0), 0.05, 34.0e32),
        planet("C", (-4.0 * KM_IN_PX_F, 6.0 * KM_IN_PX_F), (8000.0, 0.0), 0.05, 34.0e32),
    ]
}

#[test]
fn constants_are_the_patterns_of_their_values() {
    assert_eq!(G, 6.673e-20f64.to_bits());
    assert_eq!(DT, (1.0f64 / 60.0).to_bits());
    assert_eq!(DT, fdiv(Format::Binary64, 1.0f64.to_bits(), 60.0f64.to_bits()));
    assert_eq!(KM_IN_PX, 696_000.0f64.to_bits());
    assert_eq!(CONTACT_MARGIN, 0.5f32.to_bits());
    assert_eq!(FAR_DISTANCE, 5.0f64.to_bits());
    assert_eq!(LIGHT_MASS, 1.0e30f64.to_bits());
}

#[test]
fn force_of_the_sun_on_the_earth() {
    let f = calculate_gravity_force(
        5.972e24f64.to_bits(),
        vec_bits(-149.6e6, 0.0),
        1.989e30f64.to_bits(),
        vec_bits(0.0, 0.0),
    );
    let want = hard_force(
        5.972e24,
        nalgebra::Vector2::new(-149.6e6, 0.0),
        1.989e30,
        nalgebra::Vector2::new(0.0, 0.0),
    );
    assert_eq!(f.x, want.x.to_bits());
    assert_eq!(f.y, want.y.to_bits());
    // G m1 m2 / r^2 = 6.673e-20 * 5.972e24 * 1.989e30 / 149.6e6^2, towards the sun
    let magnitude = f64::from_bits(f.x);
    assert!((magnitude - 3.5417e19).abs() < 1e16, "{}", magnitude);
    assert_eq!(f64::from_bits(f.y), 0.0);
}

#[test]
fn force_matches_hardware_on_many_pairs() {
    let mut seed: u64 = 99;
    let mut next = move || {
        seed = seed.wrapping_mul(6364136223846793005).wrapping_add(1442695040888963407);
        ((seed >> 11) as f64) / ((1u64 << 53) as f64)
    };
    for _ in 0..5000 {
        let m1 = 1e20 * (1.0 + 1e12 * next());
        let m2 = 1e20 * (1.0 + 1e12 * next());
        let p1 = (1e9 * (next() - 0.5), 1e9 * (next() - 0.5));
        let p2 = (1e9 * (next() - 0.5), 1e9 * (next() - 0.5));
        let f = calculate_gravity_force(
            m1.to_bits(),
            vec_bits(p1.0, p1.1),
            m2.to_bits(),
            vec_bits(p2.0, p2.1),
        );
        let want = hard_force(
            m1,
            nalgebra::Vector2::new(p1.0, p1.1),
            m2,
            nalgebra::Vector2::new(p2.0, p2.1),
        );
        assert!(same(f.x, want.x) && same(f.y, want.y));
    }
}

#[test]
fn force_is_antisymmetric_in_the_two_bodies() {
    let (m1, m2) = (5.972e24f64.to_bits(), 1.989e30f64.to_bits());
    let (p1, p2) = (vec_bits(-149.6e6, 3.0e5), vec_bits(1.5e4, -2.5e6));
    let on_one = calculate_gravity_force(m1, p1, m2, p2);
    let on_two = calculate_gravity_force(m2, p2, m1, p1);
    assert_eq!(f64::from_bits(on_one.x), -f64::from_bits(on_two.x));
    assert_eq!(f64::from_bits(on_one.y), -f64::from_bits(on_two.y));
}

#[test]
fn force_scales_with_mass_and_with_the_inverse_square_of_distance() {
    let m1 = 5.972e24f64;
    let m2 = 1.989e30f64;
    let p1 = vec_bits(0.0, 0.0);
    let at = |d: f64, m1: f64, m2: f64| {
        calculate_gravity_force(m1.to_bits(), p1, m2.to_bits(), vec_bits(3.0 * d, 4.0 * d))
    };
    let base = at(1.0e7, m1, m2);
    let heavy_one = at(1.0e7, 2.0 * m1, m2);
    let heavy_two = at(1.0e7, m1, 2.0 * m2);
    let far = at(2.0e7, m1, m2);
    assert_eq!(f64::from_bits(heavy_one.x), 2.0 * f64::from_bits(base.x));
    assert_eq!(f64::from_bits(heavy_one.y), 2.0 * f64::from_bits(base.y));
    assert_eq!(f64::from_bits(heavy_two.x), 2.0 * f64::from_bits(base.x));
    assert_eq!(f64::from_bits(heavy_two.y), 2.0 * f64::from_bits(base.y));
    assert_eq!(f64::from_bits(far.x), f64::from_bits(base.x) / 4.0);
    assert_eq!(f64::from_bits(far.y), f64::from_bits(base.y) / 4.0);
}

#[test]
fn force_between_coincident_bodies_is_not_a_number() {
    let p = vec_bits(12.5, -3.0);
    let f = calculate_gravity_force(1.0e24f64.to_bits(), p, 2.0e24f64.to_bits(), p);
    assert!(f64::from_bits(f.x).is_nan());
    assert!(f64::from_bits(f.y).is_nan());
}

#[test]
fn distance_is_measured_on_the_radius_scale() {
    let d = distance(vec_bits(0.0, 0.0), vec_bits(3.0 * 696_000.0, 4.0 * 696_000.0));
    assert_eq!(d, 5.0f64.to_bits());
}

#[test]
fn pair_at_exactly_the_contact_reach_is_skipped() {
    let (ri, rj) = (1.0f32, 0.25f32);
    let reach = ri + rj + 0.5; // 1.75, exact
    let heavy = 2.0e30f64.to_bits();
    assert!(pair_is_skipped((reach as f64).to_bits(), ri.to_bits(), rj.to_bits(), heavy));
    // one single-precision step above the reach the pair counts
    let above = f32::from_bits(reach.to_bits() + 1) as f64;
    assert!(!pair_is_skipped(above.to_bits(), ri.to_bits(), rj.to_bits(), heavy));
    // anywhere below the reach it is skipped as well
    let below = f32::from_bits(reach.to_bits() - 1) as f64;
    assert!(pair_is_skipped(below.to_bits(), ri.to_bits(), rj.to_bits(), heavy));
    assert!(pair_is_skipped(0.0f64.to_bits(), ri.to_bits(), rj.to_bits(), heavy));
}

#[test]
fn contact_is_judged_in_single_precision() {
    let (ri, rj) = (1.0f32, 0.25f32);
    let heavy = 2.0e30f64.to_bits();
    // a double just above 1.75 that rounds to the single 1.75
    let barely = f64::from_bits(1.75f64.to_bits() + 1);
    assert!(barely > 1.75);
    assert!(pair_is_skipped(barely.to_bits(), ri.to_bits(), rj.to_bits(), heavy));
}

#[test]
fn distant_light_body_is_skipped_and_a_heavier_one_is_not() {
    let small = 0.01f32.to_bits();
    let five = 5.0f64.to_bits();
    let light = 1.0e30f64.to_bits();
    assert!(pair_is_skipped(five, small, small, light));
    // the next mass above the threshold pulls
    assert!(!pair_is_skipped(five, small, small, light + 1));
    // just inside the distance threshold a light body pulls
    assert!(!pair_is_skipped(five - 1, small, small, light));
    assert!(!pair_is_skipped(five - 1, small, small, 1.0f64.to_bits()));
    // far beyond it a light body does not, a heavy one does
    assert!(pair_is_skipped(1.0e6f64.to_bits(), small, small, 5.972e24f64.to_bits()));
    assert!(!pair_is_skipped(1.0e6f64.to_bits(), small, small, 1.989e30f64.to_bits()));
}

#[test]
fn a_separation_that_is_not_a_number_skips_nothing() {
    let small = 0.01f32.to_bits();
    assert!(!pair_is_skipped(f64::NAN.to_bits(), small, small, 1.0f64.to_bits()));
}

#[test]
fn only_the_sun_pulls_on_the_earth() {
    let planets = solar_system();
    for j in 0..planets.len() {
        let pull = pull_between(3, j, &planets);
        // the moon is closer than five units, so it pulls too
        assert_eq!(pull.is_some(), j == 0 || j == 4, "neighbour {}", j);
    }
    let total = resultant_force(3, &planets);
    let sun = pull_between(3, 0, &planets).unwrap();
    let moon = pull_between(3, 4, &planets).unwrap();
    let want = Vector2::zero().plus(sun).plus(moon);
    assert_eq!(total, want);
}

#[test]
fn step_changes_only_the_target_body() {
    let mut planets = heavy_triple();
    let before = planets.clone();
    update_planet_position(1, &mut planets, 1.0f64.to_bits());
    assert_eq!(planets.len(), 3);
    for k in [0usize, 2] {
        assert_eq!(planets[k].position, before[k].position);
        assert_eq!(planets[k].velocity, before[k].velocity);
    }
    assert_ne!(planets[1].position, before[1].position);
    assert_ne!(planets[1].velocity, before[1].velocity);
    assert_eq!(planets[1].mass, before[1].mass);
    assert_eq!(planets[1].radius, before[1].radius);
    assert_eq!(planets[1].label, "B");
}

#[test]
fn step_updates_velocity_before_position() {
    let mut planets = vec![
        planet("probe", (1.0e7, 0.0), (0.0, 25.0), 0.01, 1000.0),
        planet("star", (0.0, 0.0), (0.0, 0.0), 1.0, 1.989e30),
    ];
    let dt_multiplier = 3.0f64;
    let force = resultant_force(0, &planets);
    let (fx, fy) = (f64::from_bits(force.x), f64::from_bits(force.y));
    assert!(fx < 0.0);
    let v0 = (0.0f64, 25.0f64);
    let p0 = (1.0e7f64, 0.0f64);
    update_planet_position(0, &mut planets, dt_multiplier.to_bits());
    let v1 = (v0.0 + fx / 1000.0 * DT_F * dt_multiplier, v0.1 + fy / 1000.0 * DT_F * dt_multiplier);
    let p1 = (p0.0 + v1.0 * DT_F * dt_multiplier, p0.1 + v1.1 * DT_F * dt_multiplier);
    assert_eq!(planets[0].velocity, vec_bits(v1.0, v1.1));
    assert_eq!(planets[0].position, vec_bits(p1.0, p1.1));
    // not the position that the old velocity would give
    let stale = p0.0 + v0.0 * DT_F * dt_multiplier;
    assert_ne!(planets[0].position.x, stale.to_bits());
}

#[test]
fn a_lone_body_keeps_its_velocity_and_drifts() {
    let mut planets = vec![planet("alone", (3.0, -4.0), (1.5, -2.25), 0.1, 5.0e24)];
    let k = 7.0f64;
    update_planet_position(0, &mut planets, k.to_bits());
    assert_eq!(planets[0].velocity, vec_bits(1.5, -2.25));
    assert_eq!(
        planets[0].position,
        vec_bits(3.0 + 1.5 * DT_F * k, -4.0 + -2.25 * DT_F * k)
    );
}

#[test]
fn steps_match_hardware_on_the_solar_system() {
    let mut planets = solar_system();
    let mut reference: Vec<HardBody> = planets.iter().map(hard).collect();
    for round in 0..150 {
        for i in 0..planets.len() {
            update_planet_position(i, &mut planets, 1.0f64.to_bits());
            hard_step(i, &mut reference, 1.0);
        }
        if round % 10 == 0 {
            assert_same_state(&planets, &reference, "solar system");
        }
    }
    assert_same_state(&planets, &reference, "solar system");
}

#[test]
fn sub_steps_match_hardware_when_every_body_pulls() {
    let mut planets = heavy_triple();
    let mut reference: Vec<HardBody> = planets.iter().map(hard).collect();
    for _ in 0..400 {
        sub_step(&mut planets, 2.0f64.to_bits());
        for i in 0..reference.len() {
            hard_step(i, &mut reference, 2.0);
        }
    }
    assert_same_state(&planets, &reference, "heavy triple");
}

#[test]
fn a_sub_step_lets_later_bodies_see_earlier_updates() {
    let mut in_place = heavy_triple();
    sub_step(&mut in_place, 1.0f64.to_bits());
    // stepping each body against the untouched start gives another result
    let start = heavy_triple();
    let mut frozen = start.clone();
    update_planet_position(1, &mut frozen, 1.0f64.to_bits());
    assert_ne!(in_place[1].velocity, frozen[1].velocity);
    // while doing the steps by hand, in order, gives the same
    let mut by_hand = heavy_triple();
    for i in 0..3 {
        update_planet_position(i, &mut by_hand, 1.0f64.to_bits());
    }
    for k in 0..3 {
        assert_eq!(in_place[k].position, by_hand[k].position);
        assert_eq!(in_place[k].velocity, by_hand[k].velocity);
    }
}

#[test]
fn advance_is_repeated_sub_steps() {
    let mut a = solar_system();
    let mut b = solar_system();
    advance(&mut a, 25, 4.0f64.to_bits());
    for _ in 0..25 {
        sub_step(&mut b, 4.0f64.to_bits());
    }
    for k in 0..a.len() {
        assert_eq!(a[k].position, b[k].position);
        assert_eq!(a[k].velocity, b[k].velocity);
    }
    let mut c = solar_system();
    advance(&mut c, 0, 4.0f64.to_bits());
    let start = solar_system();
    for k in 0..c.len() {
        assert_eq!(c[k].position, start[k].position);
        assert_eq!(c[k].velocity, start[k].velocity);
    }
}

#[test]
fn no_bodies_is_no_work() {
    let mut none: Vec<Planet> = Vec::new();
    sub_step(&mut none, 1.0f64.to_bits());
    advance(&mut none, 3, 1.0f64.to_bits());
    assert!(none.is_empty());
}

#[test]
fn circular_orbit_keeps_its_radius_over_one_period() {
    let big_m = 1.989e30f64;
    let d = 149.6e6f64;
    let speed = (G_F * big_m / d).sqrt();
    let mut planets = vec![
        planet("centre", (0.0, 0.0), (0.0, 0.0), 1.0, big_m),
        planet("orbiter", (d, 0.0), (0.0, speed), 0.01, 5.972e24),
    ];
    let period = 2.0 * std::f64::consts::PI * d / speed;
    let steps: u32 = 8000;
    let dt_multiplier = period / (steps as f64 * DT_F);
    let mut worst: f64 = 0.0;
    let mut quarter_seen = false;
    for s in 0..steps {
        sub_step(&mut planets, dt_multiplier.to_bits());
        let x = f64::from_bits(planets[1].position.x);
        let y = f64::from_bits(planets[1].position.y);
        let r = (x * x + y * y).sqrt();
        worst = worst.max((r - d).abs() / d);
        if s == steps / 4 {
            // a quarter of the way round the body is near the top of the circle
            quarter_seen = x.abs() < 0.01 * d && y > 0.99 * d;
        }
    }
    assert!(worst < 2.0e-3, "radius strayed by {}", worst);
    assert!(quarter_seen);
    // the centre is not pulled by a light, distant body
    assert_eq!(planets[0].position, vec_bits(0.0, 0.0));
    // after one period the body is back near its start
    let x = f64::from_bits(planets[1].position.x);
    let y = f64::from_bits(planets[1].position.y);
    assert!((x - d).abs() < 0.01 * d && y.abs() < 0.01 * d, "ended at {}, {}", x, y);
}

#[test]
fn speed_commands_change_sub_steps_below_the_ceiling_and_the_multiplier_above() {
    let mut s = SpeedControl::new();
    assert_eq!(s.sim_speed, 20_000);
    assert_eq!(s.dt_multiplier, 1.0f64.to_bits());
    s.apply(SpeedCommand::Faster);
    assert_eq!((s.sim_speed, s.dt_multiplier), (21_000, 1.0f64.to_bits()));
    for _ in 0..9 {
        s.apply(SpeedCommand::Faster);
    }
    assert_eq!((s.sim_speed, s.dt_multiplier), (30_000, 1.0f64.to_bits()));
    s.apply(SpeedCommand::Faster);
    assert_eq!((s.sim_speed, s.dt_multiplier), (30_000, 3.0f64.to_bits()));
    s.apply(SpeedCommand::Slower);
    s.apply(SpeedCommand::Slower);
    assert_eq!((s.sim_speed, s.dt_multiplier), (30_000, (-1.0f64).to_bits()));
    s.apply(SpeedCommand::Reset);
    assert_eq!((s.sim_speed, s.dt_multiplier), (20_000, (-1.0f64).to_bits()));
    for _ in 0..19 {
        s.apply(SpeedCommand::Slower);
    }
    assert_eq!(s.sim_speed, 1_000);
    s.apply(SpeedCommand::Slower);
    assert_eq!(s.sim_speed, 1);
    s.apply(SpeedCommand::Slower);
    assert_eq!(s.sim_speed, 1);
    s.apply(SpeedCommand::Faster);
    assert_eq!(s.sim_speed, 1_001);
    assert!(s.is_well_formed());
    for _ in 0..29 {
        s.apply(SpeedCommand::Faster);
    }
    assert_eq!(s.sim_speed, 30_001);
    assert!(s.is_well_formed());
    s.apply(SpeedCommand::Faster);
    assert_eq!(s.sim_speed, 30_001);
    assert!(!SpeedControl { sim_speed: 0, dt_multiplier: 0 }.is_well_formed());
    assert!(!SpeedControl { sim_speed: 31_000, dt_multiplier: 0 }.is_well_formed());
}

#[test]
fn a_planet_is_well_formed_when_its_mass_is_a_positive_number() {
    let with_mass = |m: f64| planet("p", (0.0, 0.0), (0.0, 0.0), 1.0, m);
    assert!(with_mass(1.989e30).is_well_formed());
    assert!(with_mass(f64::MIN_POSITIVE).is_well_formed());
    assert!(with_mass(5e-324).is_well_formed());
    assert!(with_mass(f64::MAX).is_well_formed());
    assert!(!with_mass(0.0).is_well_formed());
    assert!(!with_mass(-0.0).is_well_formed());
    assert!(!with_mass(-1.0).is_well_formed());
    assert!(!with_mass(f64::INFINITY).is_well_formed());
    assert!(!with_mass(f64::NEG_INFINITY).is_well_formed());
    assert!(!with_mass(f64::NAN).is_well_formed());
}

#[test]
fn a_body_without_mass_diverges_silently() {
    let mut planets = vec![
        planet("ghost", (1.0e7, 0.0), (0.0, 1.0), 0.01, 0.0),
        planet("star", (0.0, 0.0), (0.0, 0.0), 1.0, 1.989e30),
    ];
    update_planet_position(0, &mut planets, 1.0f64.to_bits());
    // zero force over zero mass is no number, and it spreads to the position
    assert!(f64::from_bits(planets[0].velocity.x).is_nan());
    assert!(f64::from_bits(planets[0].position.x).is_nan());
}
