use gravity_sim::camera::{
    project_coordinate, Camera, Point, LABEL_OFFSET, START_SCALE, UNIT_SCALE, ZOOM_FACTOR,
    ZOOM_FACTOR_BACK,
};
use gravity_sim::control::SpeedControl;
use gravity_sim::ieee::convert::truncate;
use gravity_sim::ieee::single::{fadd32, fdiv32, fmul32, fsub32, less32};
use gravity_sim::vector::Vector2;

fn point(x: f32, y: f32) -> Point {
    Point { x: x.to_bits(), y: y.to_bits() }
}

fn camera(scale: f32, scene: (f32, f32), last: Option<(f32, f32)>, curr: Option<(f32, f32)>) -> Camera {
    Camera {
        world_scale: scale.to_bits(),
        scene_position: point(scene.0, scene.1),
        last_mouse_position: last.map(|p| point(p.0, p.1)),
        curr_mouse_position: curr.map(|p| point(p.0, p.1)),
    }
}

#[test]
fn view_constants_are_the_patterns_of_their_values() {
    assert_eq!(START_SCALE, 2.5f32.to_bits());
    assert_eq!(UNIT_SCALE, 1.0f32.to_bits());
    assert_eq!(ZOOM_FACTOR, 0.1f32.to_bits());
    assert_eq!(ZOOM_FACTOR_BACK, (-0.1f32).to_bits());
    assert_eq!(LABEL_OFFSET, 0.05f64.to_bits());
}

#[test]
fn single_precision_words_match_hardware() {
    let values = [0.0f32, -0.0, 1.0, 0.1, -0.1, 2.5, 1375.0, 937.5, 1e-3, 3.4e38, f32::INFINITY];
    for &x in &values {
        for &y in &values {
            let (a, b) = (x.to_bits(), y.to_bits());
            let same = |got: u32, want: f32| {
                if want.is_nan() { f32::from_bits(got).is_nan() } else { got == want.to_bits() }
            };
            assert!(same(fadd32(a, b), x + y), "{} + {}", x, y);
            assert!(same(fsub32(a, b), x - y), "{} - {}", x, y);
            assert!(same(fmul32(a, b), x * y), "{} * {}", x, y);
            assert!(same(fdiv32(a, b), x / y), "{} / {}", x, y);
            assert_eq!(less32(a, b), x < y, "{} < {}", x, y);
        }
    }
}

#[test]
fn new_camera_centres_the_world_in_the_window() {
    let c = Camera::new(2750.0f32.to_bits(), 1875.0f32.to_bits());
    assert_eq!(c, camera(2.5, (1375.0, 937.5), None, None));
}

#[test]
fn zoom_keeps_the_point_under_the_pointer() {
    let mut c = camera(2.5, (1375.0, 937.5), None, Some((100.0, 50.0)));
    c.zoom(0.1f32.to_bits());
    let prev = 2.5f32;
    let mut scale = prev;
    scale += 0.1f32 * scale;
    let x = 100.0f32 + (1375.0f32 - 100.0) / prev * scale;
    let y = 50.0f32 + (937.5f32 - 50.0) / prev * scale;
    assert_eq!(c, camera(scale, (x, y), None, Some((100.0, 50.0))));
}

#[test]
fn zoom_without_a_pointer_is_about_the_corner() {
    let mut c = camera(2.0, (10.0, 20.0), None, None);
    c.zoom((-0.1f32).to_bits());
    let mut scale = 2.0f32;
    scale += -0.1f32 * scale;
    assert_eq!(c, camera(scale, (0.0 + 10.0 / 2.0 * scale, 0.0 + 20.0 / 2.0 * scale), None, None));
}

#[test]
fn wheel_zooms_in_out_or_not_at_all() {
    let start = camera(2.5, (1375.0, 937.5), None, Some((3.0, 4.0)));
    let mut zoomed_in = start;
    zoomed_in.zoom(ZOOM_FACTOR);
    let mut zoomed_out = start;
    zoomed_out.zoom(ZOOM_FACTOR_BACK);
    let mut c = start;
    c.mouse_wheel(1.0f32.to_bits());
    assert_eq!(c, zoomed_in);
    let mut c = start;
    c.mouse_wheel((-3.0f32).to_bits());
    assert_eq!(c, zoomed_out);
    let mut c = start;
    c.mouse_wheel(0.0f32.to_bits());
    assert_eq!(c, start);
    let mut c = start;
    c.mouse_wheel(f32::NAN.to_bits());
    assert_eq!(c, start);
}

#[test]
fn a_drag_moves_the_scene_with_the_pointer() {
    let mut c = camera(1.0, (10.0, 20.0), None, None);
    // button down: the drag starts, nothing moves
    c.update_scene_position(point(5.0, 5.0));
    assert_eq!(c, camera(1.0, (10.0, 20.0), Some((5.0, 5.0)), None));
    // pointer moves while the button is down
    c.mouse_motion(point(8.0, 1.0));
    assert_eq!(c, camera(1.0, (13.0, 16.0), Some((8.0, 1.0)), Some((8.0, 1.0))));
    // button up: the drag ends
    c.mouse_button_up();
    assert_eq!(c, camera(1.0, (13.0, 16.0), None, Some((8.0, 1.0))));
    // pointer moves with no button down: only the pointer is noted
    c.mouse_motion(point(100.0, 100.0));
    assert_eq!(c, camera(1.0, (13.0, 16.0), None, Some((100.0, 100.0))));
}

#[test]
fn reset_restores_scale_and_scene_only() {
    let mut c = camera(7.0, (13.0, 16.0), Some((1.0, 2.0)), Some((3.0, 4.0)));
    c.reset();
    assert_eq!(c, camera(1.0, (0.0, 0.0), Some((1.0, 2.0)), Some((3.0, 4.0))));
}

#[test]
fn projection_scales_and_moves_a_position() {
    let c = camera(2.5, (1375.0, 937.5), None, None);
    let position = Vector2 { x: (-149.6e6f64).to_bits(), y: 1.0e6f64.to_bits() };
    let p = c.project(position, None);
    let want_x = (-149.6e6f64 / 696_000.0) as f32 * 2.5 + 1375.0;
    let want_y = (1.0e6f64 / 696_000.0) as f32 * 2.5 + 937.5;
    assert_eq!(p, point(want_x, want_y));
    let l = c.project(position, Some(LABEL_OFFSET));
    let label_x = (-149.6e6f64 / 696_000.0 - 0.05) as f32 * 2.5 + 1375.0;
    let label_y = (1.0e6f64 / 696_000.0 - 0.05) as f32 * 2.5 + 937.5;
    assert_eq!(l, point(label_x, label_y));
    assert_eq!(
        project_coordinate(0.0f64.to_bits(), None, 2.5f32.to_bits(), 1375.0f32.to_bits()),
        1375.0f32.to_bits()
    );
    assert_eq!(c.shown_radius(0.366972f32.to_bits()), (0.366972f32 * 2.5).to_bits());
}

#[test]
fn truncation_matches_the_cast() {
    let values = [
        0.0f64, -0.0, 0.4, -0.4, 0.99999, 1.0, -1.0, 1.5, -1.5, 2.0, 3.0, -7.9, 1e9, -1e9,
        2147483646.5, 2147483647.0, 2147483647.5, 2147483648.0, -2147483648.0, -2147483648.5,
        -2147483649.0, 4294967296.0, 1e19, -1e19, 1e300, -1e300, 5e-324, f64::INFINITY,
        f64::NEG_INFINITY, f64::NAN,
    ];
    for &x in &values {
        assert_eq!(truncate(x.to_bits()), x as i32, "{}", x);
    }
    let mut seed: u64 = 5;
    for _ in 0..20000 {
        seed = seed.wrapping_mul(6364136223846793005).wrapping_add(1442695040888963407);
        let field = 1023 - 4 + (seed >> 40) % 40;
        let bits = (seed & 0x800f_ffff_ffff_ffff) | (field << 52);
        assert_eq!(truncate(bits), f64::from_bits(bits) as i32, "{:#x}", bits);
    }
}

#[test]
fn effective_speed_is_sub_steps_times_the_whole_multiplier() {
    let s = SpeedControl { sim_speed: 30_000, dt_multiplier: 5.0f64.to_bits() };
    assert_eq!(s.effective_speed(), 150_000);
    let s = SpeedControl { sim_speed: 20_000, dt_multiplier: 1.0f64.to_bits() };
    assert_eq!(s.effective_speed(), 20_000);
    let s = SpeedControl { sim_speed: 30_000, dt_multiplier: (-3.0f64).to_bits() };
    assert_eq!(s.effective_speed(), -90_000);
    let s = SpeedControl { sim_speed: 30_000, dt_multiplier: 2.75f64.to_bits() };
    assert_eq!(s.effective_speed(), 60_000);
    let s = SpeedControl { sim_speed: 30_000, dt_multiplier: 1e12f64.to_bits() };
    assert_eq!(s.effective_speed(), 30_000 * (i32::MAX as i64));
}
