use mmo_server::fixed::{ceil_isqrt, div_toward_zero, isqrt};
use mmo_server::physics::{
    accelerate, clamp_speed_exec, command_desired_velocity, is_over_magnitude, step_motion,
    InputCommand, CharacterProfile, SimConfig, Vec2, DIRECTION_SCALE,
};

fn profile() -> CharacterProfile {
    CharacterProfile { max_speed: 10_000, acceleration: 20_000, deceleration: 30_000, friction_keep: 9_990 }
}

fn cfg() -> SimConfig {
    SimConfig { tick_hz: 20, bounds: Vec2 { x: 100_000, y: 100_000 } }
}

#[test]
fn isqrt_exact_and_between_squares() {
    assert_eq!(isqrt(0), 0);
    assert_eq!(isqrt(1), 1);
    assert_eq!(isqrt(15), 3);
    assert_eq!(isqrt(16), 4);
    assert_eq!(isqrt(1_000_000_000_000), 1_000_000);
    assert_eq!(ceil_isqrt(15), 4);
    assert_eq!(ceil_isqrt(16), 4);
    assert_eq!(ceil_isqrt(17), 5);
}

#[test]
fn division_rounds_toward_zero() {
    assert_eq!(div_toward_zero(7, 2), 3);
    assert_eq!(div_toward_zero(-7, 2), -3);
    assert_eq!(div_toward_zero(-1, 20), 0);
}

#[test]
fn move_right_asks_for_top_speed() {
    let cmd = InputCommand::Move { direction: Vec2::new(DIRECTION_SCALE, 0) };
    assert_eq!(command_desired_velocity(&cmd, 10_000), Vec2::new(10_000, 0));
}

#[test]
fn diagonal_direction_is_normalised() {
    let cmd = InputCommand::Move { direction: Vec2::new(600_000, 800_000) };
    assert_eq!(command_desired_velocity(&cmd, 10_000), Vec2::new(6_000, 8_000));
}

#[test]
fn over_long_direction_is_flagged_and_clamped_to_top_speed() {
    let d = Vec2::new(3 * DIRECTION_SCALE, 0);
    assert!(is_over_magnitude(d));
    let v = command_desired_velocity(&InputCommand::Move { direction: d }, 10_000);
    assert_eq!(v, Vec2::new(10_000, 0));
    let d2 = Vec2::new(3 * DIRECTION_SCALE, 4 * DIRECTION_SCALE);
    let v2 = command_desired_velocity(&InputCommand::Move { direction: d2 }, 10_000);
    assert_eq!(v2, Vec2::new(6_000, 8_000));
    assert_eq!(v2.x * v2.x + v2.y * v2.y, 10_000 * 10_000);
}

#[test]
fn direction_limit_is_one_point_one() {
    assert!(!is_over_magnitude(Vec2::new(1_100_000, 0)));
    assert!(is_over_magnitude(Vec2::new(1_100_001, 0)));
    assert!(!is_over_magnitude(Vec2::new(DIRECTION_SCALE, 0)));
}

#[test]
fn tiny_direction_stays_below_unit_length() {
    // 0.005 is shorter than 0.01: it is divided by 0.01, giving half speed
    let cmd = InputCommand::Move { direction: Vec2::new(5_000, 0) };
    assert_eq!(command_desired_velocity(&cmd, 10_000), Vec2::new(5_000, 0));
    let zero = InputCommand::Move { direction: Vec2::new(0, 0) };
    assert_eq!(command_desired_velocity(&zero, 10_000), Vec2::new(0, 0));
}

#[test]
fn stop_asks_for_rest() {
    assert_eq!(command_desired_velocity(&InputCommand::Stop, 10_000), Vec2::new(0, 0));
}

#[test]
fn clamp_scales_down_only_when_too_fast() {
    assert_eq!(clamp_speed_exec(Vec2::new(3_000, 4_000), 10_000), Vec2::new(3_000, 4_000));
    assert_eq!(clamp_speed_exec(Vec2::new(30_000, 40_000), 10_000), Vec2::new(6_000, 8_000));
}

#[test]
fn acceleration_is_limited_per_tick() {
    // 200 units/s^2 at 20 Hz: 10 units/s per tick
    let v = accelerate(Vec2::new(0, 0), Vec2::new(10_000, 0), profile(), 20);
    assert_eq!(v, Vec2::new(1_000, 0));
    let v = accelerate(Vec2::new(9_500, 0), Vec2::new(10_000, 0), profile(), 20);
    assert_eq!(v, Vec2::new(10_000, 0));
}

#[test]
fn deceleration_then_friction_when_stopping() {
    // 300 units/s^2: 15 units/s per tick, then 0.999 friction
    let v = accelerate(Vec2::new(10_000, 0), Vec2::new(0, 0), profile(), 20);
    assert_eq!(v, Vec2::new(8_491, 0));
}

#[test]
fn boundary_reflect_at_far_edge() {
    let (p, v) = step_motion(
        Vec2::new(99_950, 50_000),
        Vec2::new(10_000, 0),
        Vec2::new(10_000, 0),
        Some(profile()),
        cfg(),
    );
    assert_eq!(p, Vec2::new(100_000, 50_000));
    assert_eq!(v, Vec2::new(-10_000, 0));
}

#[test]
fn boundary_reflect_at_near_edge() {
    let (p, v) = step_motion(Vec2::new(10, 300), Vec2::new(-1_000, 0), Vec2::new(0, 0), None, cfg());
    assert_eq!(p, Vec2::new(0, 300));
    assert_eq!(v, Vec2::new(1_000, 0));
}

#[test]
fn integration_moves_by_velocity_times_dt() {
    let (p, v) = step_motion(Vec2::new(1_000, 1_000), Vec2::new(2_000, -400), Vec2::new(0, 0), None, cfg());
    assert_eq!(p, Vec2::new(1_100, 980));
    assert_eq!(v, Vec2::new(2_000, -400));
}

#[test]
fn idle_body_stays_put() {
    let (p, v) = step_motion(Vec2::new(500, 700), Vec2::new(0, 0), Vec2::new(0, 0), Some(profile()), cfg());
    assert_eq!(p, Vec2::new(500, 700));
    assert_eq!(v, Vec2::new(0, 0));
}

#[test]
fn speed_never_exceeds_top_speed_over_many_ticks() {
    let mut p = Vec2::new(50_000, 50_000);
    let mut v = Vec2::new(0, 0);
    let desired = command_desired_velocity(
        &InputCommand::Move { direction: Vec2::new(700_000, 700_000) },
        10_000,
    );
    for _ in 0..400 {
        let (p2, v2) = step_motion(p, v, desired, Some(profile()), cfg());
        p = p2;
        v = v2;
        assert!(0 <= p.x && p.x <= 100_000 && 0 <= p.y && p.y <= 100_000);
        assert!(v.x * v.x + v.y * v.y <= 10_000 * 10_000);
    }
}
