//! The fixed-step simulation rules: input to desired velocity,
//! acceleration and friction, integration, and reflection at the edges
//! of the world.
//!
//! Lengths are counted in hundredths of a world unit and speeds in
//! hundredths of a unit per second, so `0.01` (the threshold of every
//! comparison below) is the integer 1. Input directions are unitless and
//! counted in millionths.
use vstd::prelude::*;
use crate::fixed::{
    abs_int, ceil_isqrt, ceil_sqrt, div_toward_zero, lemma_mul_abs_bound, lemma_scaled_norm,
    lemma_trunc_div_bound, trunc_div,
};

verus! {

/// Hundredths of a world unit in one unit.
pub const CENTI_PER_UNIT: i64 = 100;

/// Below this a speed component counts as zero (0.01 units).
pub const EPSILON: i64 = 1;

/// An input direction of length one, in millionths.
pub const DIRECTION_SCALE: i64 = 1_000_000;

/// Directions shorter than this (0.01) are divided by it rather than by
/// their own length, so that their normalised length stays below one.
pub const DIRECTION_EPSILON: i64 = 10_000;

/// Input directions longer than this (1.1) are reported as suspicious.
pub const MAX_INPUT_MAGNITUDE: i64 = 1_100_000;

/// Bound on each component of an input direction.
pub const MAX_DIRECTION: i64 = 1_000_000_000_000;

/// Bound on any speed component and on every profile rate.
pub const SPEED_LIMIT: i64 = 1_000_000_000;

/// Bound on the size of the world, in hundredths of a unit.
pub const WORLD_LIMIT: i64 = 1_000_000_000_000;

/// Bound on the tick rate, in ticks per second.
pub const MAX_TICK_HZ: i64 = 1000;

/// Friction keeps `friction_keep / FRICTION_SCALE` of the velocity each tick.
pub const FRICTION_SCALE: i64 = 10_000;

/// A pair of fixed-point numbers: a position, a velocity or a direction.
#[derive(Clone, Copy, Debug, PartialEq, Eq, Structural)]
pub struct Vec2 {
    pub x: i64,
    pub y: i64,
}

impl Vec2 {
    /// Square of the Euclidean length.
    pub open spec fn norm2(self) -> int {
        self.x * self.x + self.y * self.y
    }

    /// Both components lie within `[-limit, limit]`.
    pub open spec fn bounded(self, limit: int) -> bool {
        abs_int(self.x as int) <= limit && abs_int(self.y as int) <= limit
    }

    pub fn new(x: i64, y: i64) -> (r: Vec2)
        ensures
            r.x == x,
            r.y == y,
    {
        Vec2 { x, y }
    }

    pub fn zero() -> (r: Vec2)
        ensures
            r.x == 0,
            r.y == 0,
    {
        Vec2 { x: 0, y: 0 }
    }
}

/// How an agent accelerates: its top speed, its rates of speeding up and of
/// slowing down, and the share of velocity friction keeps per tick.
#[derive(Clone, Copy, Debug, PartialEq, Eq, Structural)]
pub struct CharacterProfile {
    pub max_speed: i64,
    pub acceleration: i64,
    pub deceleration: i64,
    pub friction_keep: i64,
}

impl CharacterProfile {
    pub open spec fn wf(self) -> bool {
        &&& 0 < self.max_speed <= SPEED_LIMIT
        &&& 0 < self.acceleration <= SPEED_LIMIT
        &&& 0 < self.deceleration <= SPEED_LIMIT
        &&& 0 < self.friction_keep <= FRICTION_SCALE
    }
}

/// A movement command from a player.
#[derive(Clone, Copy, Debug, PartialEq, Eq, Structural)]
pub enum InputCommand {
    Move { direction: Vec2 },
    Stop,
}

impl InputCommand {
    pub open spec fn wf(self) -> bool {
        match self {
            InputCommand::Move { direction } => direction.bounded(MAX_DIRECTION as int),
            InputCommand::Stop => true,
        }
    }
}

/// The world's size and the tick rate.
#[derive(Clone, Copy, Debug, PartialEq, Eq, Structural)]
pub struct SimConfig {
    pub tick_hz: i64,
    pub bounds: Vec2,
}

impl SimConfig {
    pub open spec fn wf(self) -> bool {
        &&& 0 < self.tick_hz <= MAX_TICK_HZ
        &&& 0 < self.bounds.x <= WORLD_LIMIT
        &&& 0 < self.bounds.y <= WORLD_LIMIT
    }
}

pub open spec fn inside(p: Vec2, bounds: Vec2) -> bool {
    0 <= p.x <= bounds.x && 0 <= p.y <= bounds.y
}

/// `(trunc(x * m / l), trunc(y * m / l))`.
pub open spec fn scaled(v: Vec2, m: int, l: int) -> Vec2 {
    Vec2 { x: trunc_div(v.x * m, l) as i64, y: trunc_div(v.y * m, l) as i64 }
}

/// What a direction is divided by to normalise it.
pub open spec fn direction_divisor(d: Vec2) -> int {
    let c = ceil_sqrt(d.norm2());
    if c < DIRECTION_EPSILON {
        DIRECTION_EPSILON as int
    } else {
        c
    }
}

/// The desired velocity a command asks for.
pub open spec fn command_velocity(cmd: InputCommand, max_speed: int) -> Vec2 {
    match cmd {
        InputCommand::Move { direction } => scaled(direction, max_speed, direction_divisor(direction)),
        InputCommand::Stop => Vec2 { x: 0, y: 0 },
    }
}

/// The larger of a vector's two absolute components.
pub open spec fn max_component(d: Vec2) -> int {
    if abs_int(d.x as int) >= abs_int(d.y as int) {
        abs_int(d.x as int)
    } else {
        abs_int(d.y as int)
    }
}

/// A command with its direction scaled down, where a component exceeds
/// `MAX_DIRECTION`, until the larger one equals it.
pub open spec fn clamped(c: InputCommand) -> InputCommand {
    match c {
        InputCommand::Move { direction } => if max_component(direction) <= MAX_DIRECTION {
            c
        } else {
            InputCommand::Move {
                direction: scaled(direction, MAX_DIRECTION as int, max_component(direction)),
            }
        },
        InputCommand::Stop => c,
    }
}

pub open spec fn over_magnitude(d: Vec2) -> bool {
    d.norm2() > MAX_INPUT_MAGNITUDE * MAX_INPUT_MAGNITUDE
}

pub open spec fn trying_to_move(desired: Vec2) -> bool {
    abs_int(desired.x as int) > EPSILON || abs_int(desired.y as int) > EPSILON
}

/// Velocity moved toward `desired` by at most `max_change`.
pub open spec fn approach(v: Vec2, desired: Vec2, max_change: int) -> Vec2 {
    let diff = Vec2 { x: (desired.x - v.x) as i64, y: (desired.y - v.y) as i64 };
    let n = diff.norm2();
    if n > EPSILON * EPSILON && ceil_sqrt(n) > max_change {
        let step = scaled(diff, max_change, ceil_sqrt(n));
        Vec2 { x: (v.x + step.x) as i64, y: (v.y + step.y) as i64 }
    } else {
        desired
    }
}

pub open spec fn snap(c: int) -> int {
    if abs_int(c) < EPSILON {
        0
    } else {
        c
    }
}

/// One tick of friction: keep a share of the velocity, then zero what is
/// below the threshold.
pub open spec fn damp(v: Vec2, keep: int) -> Vec2 {
    Vec2 {
        x: snap(trunc_div(v.x * keep, FRICTION_SCALE as int)) as i64,
        y: snap(trunc_div(v.y * keep, FRICTION_SCALE as int)) as i64,
    }
}

/// The velocity scaled down to length at most `max_speed`.
pub open spec fn clamp_speed(v: Vec2, max_speed: int) -> Vec2 {
    if v.norm2() > max_speed * max_speed {
        scaled(v, max_speed, ceil_sqrt(v.norm2()))
    } else {
        v
    }
}

/// The velocity after the acceleration and friction phase. Friction acts
/// only while no movement is desired, after the approach toward the
/// desired velocity.
pub open spec fn accelerated(v: Vec2, desired: Vec2, p: CharacterProfile, hz: int) -> Vec2 {
    let moving = trying_to_move(desired);
    let rate: int = if moving {
        p.acceleration as int
    } else {
        p.deceleration as int
    };
    let a = approach(v, desired, rate / hz);
    let f = if moving {
        a
    } else {
        damp(a, p.friction_keep as int)
    };
    clamp_speed(f, p.max_speed as int)
}

/// Position after one tick of travel at velocity `v`.
pub open spec fn integrated(p: Vec2, v: Vec2, hz: int) -> Vec2 {
    Vec2 { x: (p.x + trunc_div(v.x as int, hz)) as i64, y: (p.y + trunc_div(v.y as int, hz)) as i64 }
}

/// One axis of reflection: `(position, velocity)` after meeting `[0, bound]`.
pub open spec fn reflect_axis(p: int, v: int, bound: int) -> (int, int) {
    if p < 0 {
        (0, -v)
    } else if p > bound {
        (bound, -v)
    } else {
        (p, v)
    }
}

pub open spec fn reflected(p: Vec2, v: Vec2, bounds: Vec2) -> (Vec2, Vec2) {
    let (px, vx) = reflect_axis(p.x as int, v.x as int, bounds.x as int);
    let (py, vy) = reflect_axis(p.y as int, v.y as int, bounds.y as int);
    (Vec2 { x: px as i64, y: py as i64 }, Vec2 { x: vx as i64, y: vy as i64 })
}

/// Position and velocity of a body after one simulation step.
pub open spec fn motion_step(
    p: Vec2,
    v: Vec2,
    desired: Vec2,
    profile: Option<CharacterProfile>,
    cfg: SimConfig,
) -> (Vec2, Vec2) {
    let v1 = match profile {
        Some(pr) => accelerated(v, desired, pr, cfg.tick_hz as int),
        None => v,
    };
    reflected(integrated(p, v1, cfg.tick_hz as int), v1, cfg.bounds)
}

/// What a body's velocity may be: within its profile's top speed, or
/// within the global limit where it has no profile.
pub open spec fn speed_ok(v: Vec2, profile: Option<CharacterProfile>) -> bool {
    match profile {
        Some(pr) => v.norm2() <= pr.max_speed * pr.max_speed,
        None => v.bounded(SPEED_LIMIT as int),
    }
}

/// A vector of length at most `m` has both components within `[-m, m]`.
pub proof fn lemma_norm_bounds_components(v: Vec2, m: int)
    requires
        m >= 0,
        v.norm2() <= m * m,
    ensures
        v.bounded(m),
{
    let x = v.x as int;
    let y = v.y as int;
    assert(abs_int(x) <= m) by (nonlinear_arith)
        requires
            x * x + y * y <= m * m,
            m >= 0,
    ;
    assert(abs_int(y) <= m) by (nonlinear_arith)
        requires
            x * x + y * y <= m * m,
            m >= 0,
    ;
}

proof fn lemma_norm_fits(v: Vec2)
    ensures
        0 <= v.norm2() <= 2 * (SPEED_LIMIT * SPEED_LIMIT) || !v.bounded(SPEED_LIMIT as int),
{
    if v.bounded(SPEED_LIMIT as int) {
        let x = v.x as int;
        let y = v.y as int;
        assert(0 <= x * x + y * y <= 2 * (SPEED_LIMIT * SPEED_LIMIT)) by (nonlinear_arith)
            requires
                abs_int(x) <= SPEED_LIMIT,
                abs_int(y) <= SPEED_LIMIT,
        ;
    }
}

/// Computes `scaled(v, m, l)` for a vector whose products with `m` fit.
fn scale_by(v: Vec2, m: i64, l: i128) -> (r: Vec2)
    requires
        l > 0,
        0 <= m,
        v.bounded(MAX_DIRECTION as int),
        m <= SPEED_LIMIT,
        abs_int(v.x as int) * m <= l * SPEED_LIMIT,
        abs_int(v.y as int) * m <= l * SPEED_LIMIT,
    ensures
        r == scaled(v, m as int, l as int),
        r.x as int == trunc_div(v.x * m, l as int),
        r.y as int == trunc_div(v.y * m, l as int),
        r.bounded(SPEED_LIMIT as int),
{
    proof {
        lemma_mul_abs_bound(v.x as int, m as int, MAX_DIRECTION as int, SPEED_LIMIT as int);
        lemma_mul_abs_bound(v.y as int, m as int, MAX_DIRECTION as int, SPEED_LIMIT as int);
        lemma_trunc_div_bound(v.x * m, l as int);
        lemma_trunc_div_bound(v.y * m, l as int);
        assert(abs_int(v.x * m) == abs_int(v.x as int) * m) by (nonlinear_arith)
            requires
                m >= 0,
        ;
        assert(abs_int(v.y * m) == abs_int(v.y as int) * m) by (nonlinear_arith)
            requires
                m >= 0,
        ;
        let tx = abs_int(trunc_div(v.x * m, l as int));
        let ty = abs_int(trunc_div(v.y * m, l as int));
        assert(tx <= SPEED_LIMIT) by (nonlinear_arith)
            requires
                tx * l <= abs_int(v.x as int) * m,
                abs_int(v.x as int) * m <= l * SPEED_LIMIT,
                l > 0,
                tx >= 0,
        ;
        assert(ty <= SPEED_LIMIT) by (nonlinear_arith)
            requires
                ty * l <= abs_int(v.y as int) * m,
                abs_int(v.y as int) * m <= l * SPEED_LIMIT,
                l > 0,
                ty >= 0,
        ;
    }
    let x = div_toward_zero(v.x as i128 * m as i128, l);
    let y = div_toward_zero(v.y as i128 * m as i128, l);
    Vec2 { x: x as i64, y: y as i64 }
}

/// A command whose direction fits the input bounds: directions with a
/// component beyond `MAX_DIRECTION` are scaled down, keeping their angle up
/// to rounding.
pub fn clamp_command(c: InputCommand) -> (r: InputCommand)
    ensures
        r == clamped(c),
        r.wf(),
{
    match c {
        InputCommand::Stop => c,
        InputCommand::Move { direction } => {
            let ax: i128 = if direction.x < 0 {
                -(direction.x as i128)
            } else {
                direction.x as i128
            };
            let ay: i128 = if direction.y < 0 {
                -(direction.y as i128)
            } else {
                direction.y as i128
            };
            let m: i128 = if ax >= ay {
                ax
            } else {
                ay
            };
            if m <= MAX_DIRECTION as i128 {
                return c;
            }
            let ghost lim = MAX_DIRECTION as int;
            proof {
                lemma_mul_abs_bound(direction.x as int, lim, 0x8000_0000_0000_0000, lim);
                lemma_mul_abs_bound(direction.y as int, lim, 0x8000_0000_0000_0000, lim);
                lemma_trunc_div_bound(direction.x * lim, m as int);
                lemma_trunc_div_bound(direction.y * lim, m as int);
                let tx = abs_int(trunc_div(direction.x * lim, m as int));
                let ty = abs_int(trunc_div(direction.y * lim, m as int));
                assert(abs_int(direction.x * lim) == ax * lim) by (nonlinear_arith)
                    requires
                        ax == abs_int(direction.x as int),
                        lim > 0,
                ;
                assert(abs_int(direction.y * lim) == ay * lim) by (nonlinear_arith)
                    requires
                        ay == abs_int(direction.y as int),
                        lim > 0,
                ;
                assert(tx <= lim) by (nonlinear_arith)
                    requires
                        tx * m <= ax * lim,
                        ax <= m,
                        m > 0,
                        lim > 0,
                        tx >= 0,
                ;
                assert(ty <= lim) by (nonlinear_arith)
                    requires
                        ty * m <= ay * lim,
                        ay <= m,
                        m > 0,
                        lim > 0,
                        ty >= 0,
                ;
            }
            let x = div_toward_zero(direction.x as i128 * MAX_DIRECTION as i128, m);
            let y = div_toward_zero(direction.y as i128 * MAX_DIRECTION as i128, m);
            InputCommand::Move { direction: Vec2 { x: x as i64, y: y as i64 } }
        },
    }
}

/// Whether a move direction is longer than the input limit allows.
pub fn is_over_magnitude(d: Vec2) -> (r: bool)
    requires
        d.bounded(MAX_DIRECTION as int),
    ensures
        r == over_magnitude(d),
{
    proof {
        lemma_mul_abs_bound(d.x as int, d.x as int, MAX_DIRECTION as int, MAX_DIRECTION as int);
        lemma_mul_abs_bound(d.y as int, d.y as int, MAX_DIRECTION as int, MAX_DIRECTION as int);
    }
    let n: i128 = d.x as i128 * d.x as i128 + d.y as i128 * d.y as i128;
    let lim: i128 = MAX_INPUT_MAGNITUDE as i128;
    assert(lim * lim == 1_210_000_000_000) by (nonlinear_arith)
        requires
            lim == 1_100_000,
    ;
    n > lim * lim
}

/// The desired velocity that a command sets for an agent with top speed
/// `max_speed`: the direction normalised to length one (or less, for a
/// direction shorter than 0.01), times the top speed.
pub fn command_desired_velocity(cmd: &InputCommand, max_speed: i64) -> (r: Vec2)
    requires
        cmd.wf(),
        0 <= max_speed <= SPEED_LIMIT,
    ensures
        r == command_velocity(*cmd, max_speed as int),
        r.norm2() <= max_speed * max_speed,
{
    match cmd {
        InputCommand::Stop => {
            let z = Vec2::zero();
            proof {
                assert(0 <= max_speed * max_speed) by (nonlinear_arith);
                assert(z.norm2() == 0);
            }
            z
        },
        InputCommand::Move { direction } => {
            let d = *direction;
            proof {
                lemma_mul_abs_bound(d.x as int, d.x as int, MAX_DIRECTION as int, MAX_DIRECTION as int);
                lemma_mul_abs_bound(d.y as int, d.y as int, MAX_DIRECTION as int, MAX_DIRECTION as int);
                assert(d.x * d.x >= 0 && d.y * d.y >= 0) by (nonlinear_arith);
            }
            let n: u128 = (d.x as i128 * d.x as i128 + d.y as i128 * d.y as i128) as u128;
            let c = ceil_isqrt(n);
            let l: i128 = if c < DIRECTION_EPSILON as u128 {
                DIRECTION_EPSILON as i128
            } else {
                c as i128
            };
            proof {
                let dx = abs_int(d.x as int);
                let dy = abs_int(d.y as int);
                assert(dx * dx + dy * dy == d.norm2()) by (nonlinear_arith)
                    requires
                        dx == abs_int(d.x as int),
                        dy == abs_int(d.y as int),
                ;
                assert(d.norm2() <= l * l) by (nonlinear_arith)
                    requires
                        d.norm2() <= c * c,
                        c <= l,
                        c >= 0,
                ;
                assert(dx <= l) by (nonlinear_arith)
                    requires
                        dx * dx + dy * dy <= l * l,
                        dx >= 0,
                        dy >= 0,
                        l > 0,
                ;
                assert(dy <= l) by (nonlinear_arith)
                    requires
                        dx * dx + dy * dy <= l * l,
                        dx >= 0,
                        dy >= 0,
                        l > 0,
                ;
                assert(dx * max_speed <= l * SPEED_LIMIT) by (nonlinear_arith)
                    requires
                        0 <= dx <= l,
                        0 <= max_speed <= SPEED_LIMIT,
                ;
                assert(dy * max_speed <= l * SPEED_LIMIT) by (nonlinear_arith)
                    requires
                        0 <= dy <= l,
                        0 <= max_speed <= SPEED_LIMIT,
                ;
                lemma_scaled_norm(d.x as int, d.y as int, max_speed as int, l as int);
            }
            let r = scale_by(d, max_speed, l);
            r
        },
    }
}

/// Moves `v` toward `desired` by a change of length at most `max_change`.
fn approach_exec(v: Vec2, desired: Vec2, max_change: i64) -> (r: Vec2)
    requires
        v.bounded(SPEED_LIMIT as int),
        desired.bounded(SPEED_LIMIT as int),
        0 <= max_change <= SPEED_LIMIT,
    ensures
        r == approach(v, desired, max_change as int),
        r.bounded(SPEED_LIMIT as int),
{
    let diff = Vec2 { x: desired.x - v.x, y: desired.y - v.y };
    proof {
        lemma_mul_abs_bound(diff.x as int, diff.x as int, 2 * SPEED_LIMIT, 2 * SPEED_LIMIT);
        lemma_mul_abs_bound(diff.y as int, diff.y as int, 2 * SPEED_LIMIT, 2 * SPEED_LIMIT);
        assert(diff.x * diff.x >= 0 && diff.y * diff.y >= 0) by (nonlinear_arith);
    }
    let n: i128 = diff.x as i128 * diff.x as i128 + diff.y as i128 * diff.y as i128;
    assert(EPSILON * EPSILON == 1);
    if n > 1 {
        let l = ceil_isqrt(n as u128);
        if l > max_change as u128 {
            let li = l as i128;
            proof {
                let mc = max_change as int;
                let ddx = diff.x as int;
                let ddy = diff.y as int;
                lemma_mul_abs_bound(ddx, mc, 2 * SPEED_LIMIT, SPEED_LIMIT as int);
                lemma_mul_abs_bound(ddy, mc, 2 * SPEED_LIMIT, SPEED_LIMIT as int);
                lemma_trunc_div_bound(ddx * mc, li as int);
                lemma_trunc_div_bound(ddy * mc, li as int);
                let tx = trunc_div(ddx * mc, li as int);
                let ty = trunc_div(ddy * mc, li as int);
                assert(abs_int(ddx * mc) == abs_int(ddx) * mc) by (nonlinear_arith)
                    requires
                        mc >= 0,
                ;
                assert(abs_int(ddy * mc) == abs_int(ddy) * mc) by (nonlinear_arith)
                    requires
                        mc >= 0,
                ;
                assert(abs_int(tx) <= abs_int(ddx)) by (nonlinear_arith)
                    requires
                        abs_int(tx) * li <= abs_int(ddx) * mc,
                        0 <= mc < li,
                        abs_int(ddx) >= 0,
                        abs_int(tx) >= 0,
                ;
                assert(abs_int(ty) <= abs_int(ddy)) by (nonlinear_arith)
                    requires
                        abs_int(ty) * li <= abs_int(ddy) * mc,
                        0 <= mc < li,
                        abs_int(ddy) >= 0,
                        abs_int(ty) >= 0,
                ;
                // the sign of each step follows the sign of the difference
                assert(ddx * mc >= 0 <==> ddx >= 0 || mc == 0) by (nonlinear_arith)
                    requires
                        mc >= 0,
                ;
                assert(ddy * mc >= 0 <==> ddy >= 0 || mc == 0) by (nonlinear_arith)
                    requires
                        mc >= 0,
                ;
                if mc == 0 {
                    assert(ddx * mc == 0 && ddy * mc == 0) by (nonlinear_arith)
                        requires
                            mc == 0,
                    ;
                }
            }
            let sx = div_toward_zero(diff.x as i128 * max_change as i128, li);
            let sy = div_toward_zero(diff.y as i128 * max_change as i128, li);
            Vec2 { x: v.x + sx as i64, y: v.y + sy as i64 }
        } else {
            desired
        }
    } else {
        desired
    }
}

/// One tick of friction on `v`.
fn damp_exec(v: Vec2, keep: i64) -> (r: Vec2)
    requires
        v.bounded(SPEED_LIMIT as int),
        0 < keep <= FRICTION_SCALE,
    ensures
        r == damp(v, keep as int),
        r.bounded(SPEED_LIMIT as int),
{
    proof {
        lemma_mul_abs_bound(v.x as int, keep as int, SPEED_LIMIT as int, FRICTION_SCALE as int);
        lemma_mul_abs_bound(v.y as int, keep as int, SPEED_LIMIT as int, FRICTION_SCALE as int);
        lemma_trunc_div_bound(v.x * keep, FRICTION_SCALE as int);
        lemma_trunc_div_bound(v.y * keep, FRICTION_SCALE as int);
        let tx = abs_int(trunc_div(v.x * keep, FRICTION_SCALE as int));
        let ty = abs_int(trunc_div(v.y * keep, FRICTION_SCALE as int));
        assert(tx <= SPEED_LIMIT) by (nonlinear_arith)
            requires
                tx * FRICTION_SCALE <= abs_int(v.x * keep),
                abs_int(v.x * keep) <= SPEED_LIMIT * FRICTION_SCALE,
                tx >= 0,
        ;
        assert(ty <= SPEED_LIMIT) by (nonlinear_arith)
            requires
                ty * FRICTION_SCALE <= abs_int(v.y * keep),
                abs_int(v.y * keep) <= SPEED_LIMIT * FRICTION_SCALE,
                ty >= 0,
        ;
    }
    let fx = div_toward_zero(v.x as i128 * keep as i128, FRICTION_SCALE as i128) as i64;
    let fy = div_toward_zero(v.y as i128 * keep as i128, FRICTION_SCALE as i128) as i64;
    let x = if -EPSILON < fx && fx < EPSILON {
        0
    } else {
        fx
    };
    let y = if -EPSILON < fy && fy < EPSILON {
        0
    } else {
        fy
    };
    Vec2 { x, y }
}

/// `v` scaled down, if need be, to length at most `max_speed`.
pub fn clamp_speed_exec(v: Vec2, max_speed: i64) -> (r: Vec2)
    requires
        v.bounded(SPEED_LIMIT as int),
        0 <= max_speed <= SPEED_LIMIT,
    ensures
        r == clamp_speed(v, max_speed as int),
        r.norm2() <= max_speed * max_speed,
{
    proof {
        lemma_norm_fits(v);
        lemma_mul_abs_bound(v.x as int, v.x as int, SPEED_LIMIT as int, SPEED_LIMIT as int);
        lemma_mul_abs_bound(v.y as int, v.y as int, SPEED_LIMIT as int, SPEED_LIMIT as int);
        lemma_mul_abs_bound(max_speed as int, max_speed as int, SPEED_LIMIT as int, SPEED_LIMIT as int);
    }
    let n: i128 = v.x as i128 * v.x as i128 + v.y as i128 * v.y as i128;
    if n > max_speed as i128 * max_speed as i128 {
        let l = ceil_isqrt(n as u128);
        let li = l as i128;
        proof {
            let ax = abs_int(v.x as int);
            let ay = abs_int(v.y as int);
            assert(ax * ax + ay * ay == v.norm2()) by (nonlinear_arith)
                requires
                    ax == abs_int(v.x as int),
                    ay == abs_int(v.y as int),
            ;
            assert(li > 0) by (nonlinear_arith)
                requires
                    v.norm2() <= li * li,
                    v.norm2() > max_speed * max_speed,
                    max_speed >= 0,
                    li >= 0,
            ;
            assert(ax <= li && ay <= li) by (nonlinear_arith)
                requires
                    ax * ax + ay * ay <= li * li,
                    ax >= 0,
                    ay >= 0,
                    li > 0,
            ;
            assert(ax * max_speed <= li * SPEED_LIMIT) by (nonlinear_arith)
                requires
                    0 <= ax <= li,
                    0 <= max_speed <= SPEED_LIMIT,
            ;
            assert(ay * max_speed <= li * SPEED_LIMIT) by (nonlinear_arith)
                requires
                    0 <= ay <= li,
                    0 <= max_speed <= SPEED_LIMIT,
            ;
            lemma_scaled_norm(v.x as int, v.y as int, max_speed as int, li as int);
        }
        scale_by(v, max_speed, li)
    } else {
        v
    }
}

/// The velocity after the acceleration and friction phase of one tick.
pub fn accelerate(v: Vec2, desired: Vec2, p: CharacterProfile, hz: i64) -> (r: Vec2)
    requires
        v.bounded(SPEED_LIMIT as int),
        desired.bounded(SPEED_LIMIT as int),
        p.wf(),
        0 < hz <= MAX_TICK_HZ,
    ensures
        r == accelerated(v, desired, p, hz as int),
        r.norm2() <= p.max_speed * p.max_speed,
{
    let moving = desired.x > EPSILON || desired.x < -EPSILON || desired.y > EPSILON || desired.y
        < -EPSILON;
    let rate = if moving {
        p.acceleration
    } else {
        p.deceleration
    };
    let a = approach_exec(v, desired, rate / hz);
    let f = if moving {
        a
    } else {
        damp_exec(a, p.friction_keep)
    };
    clamp_speed_exec(f, p.max_speed)
}

/// Position and velocity of a body after one simulation step: acceleration
/// and friction (for a body with a profile), integration, then reflection
/// at the edges of the world.
pub fn step_motion(p: Vec2, v: Vec2, desired: Vec2, profile: Option<CharacterProfile>, cfg: SimConfig) -> (r:
    (Vec2, Vec2))
    requires
        cfg.wf(),
        inside(p, cfg.bounds),
        speed_ok(v, profile),
        desired.bounded(SPEED_LIMIT as int),
        profile matches Some(pr) ==> pr.wf(),
    ensures
        r == motion_step(p, v, desired, profile, cfg),
        inside(r.0, cfg.bounds),
        speed_ok(r.1, profile),
{
    let v1 = match profile {
        Some(pr) => {
            proof {
                lemma_norm_bounds_components(v, pr.max_speed as int);
            }
            let a = accelerate(v, desired, pr, cfg.tick_hz);
            proof {
                lemma_norm_bounds_components(a, pr.max_speed as int);
            }
            a
        },
        None => v,
    };
    proof {
        lemma_trunc_div_bound(v1.x as int, cfg.tick_hz as int);
        lemma_trunc_div_bound(v1.y as int, cfg.tick_hz as int);
    }
    let px = p.x + div_toward_zero(v1.x as i128, cfg.tick_hz as i128) as i64;
    let py = p.y + div_toward_zero(v1.y as i128, cfg.tick_hz as i128) as i64;
    let (qx, wx) = if px < 0 {
        (0, -v1.x)
    } else if px > cfg.bounds.x {
        (cfg.bounds.x, -v1.x)
    } else {
        (px, v1.x)
    };
    let (qy, wy) = if py < 0 {
        (0, -v1.y)
    } else if py > cfg.bounds.y {
        (cfg.bounds.y, -v1.y)
    } else {
        (py, v1.y)
    };
    let w = Vec2 { x: wx, y: wy };
    proof {
        assert(w.norm2() == v1.norm2()) by (nonlinear_arith)
            requires
                w.x == v1.x || w.x == -v1.x,
                w.y == v1.y || w.y == -v1.y,
        ;
    }
    (Vec2 { x: qx, y: qy }, w)
}

} // verus!
