//! Laws that relate several of the library's functions.
use vstd::prelude::*;
use crate::fixed::{abs_int, is_ceil_sqrt, lemma_trunc_div_lower, trunc_div};
use crate::physics::{
    accelerated, command_velocity, direction_divisor, inside, integrated, motion_step,
    over_magnitude, reflected, CharacterProfile, InputCommand, SimConfig, Vec2, DIRECTION_EPSILON,
    MAX_DIRECTION, SPEED_LIMIT,
};
use crate::replication::{
    any_dirty, detected, entity_update, included, sees, updates_for, EntityUpdate,
    HEALTH_THRESHOLD, POSITION_THRESHOLD, VELOCITY_THRESHOLD,
};
use crate::session::view_of;
use crate::world::{has_id, Entity};

verus! {

/// What a client knows of one entity: the attributes it was told, if any.
#[derive(Clone, Copy, Debug, PartialEq, Eq, Structural)]
pub struct ClientView {
    pub position: Option<Vec2>,
    pub velocity: Option<Vec2>,
    pub health_current: Option<i64>,
    pub health_max: Option<i64>,
}

/// A client's knowledge after it applies one update: attributes present in
/// the update replace what it knew.
pub open spec fn apply_update(c: ClientView, u: EntityUpdate) -> ClientView {
    ClientView {
        position: if u.position is Some {
            u.position
        } else {
            c.position
        },
        velocity: if u.velocity is Some {
            u.velocity
        } else {
            c.velocity
        },
        health_current: if u.health_current is Some {
            u.health_current
        } else {
            c.health_current
        },
        health_max: if u.health_max is Some {
            u.health_max
        } else {
            c.health_max
        },
    }
}

/// A client that knows nothing yet.
pub open spec fn empty_view() -> ClientView {
    ClientView { position: None, velocity: None, health_current: None, health_max: None }
}

/// What a client holds that has every value last broadcast for `e`.
pub open spec fn view_of_sent(e: Entity) -> ClientView {
    ClientView {
        position: e.sent.position,
        velocity: e.sent.velocity,
        health_current: match e.sent.health {
            Some(h) => Some(h.current),
            None => None,
        },
        health_max: match e.sent.health {
            Some(h) => Some(h.max),
            None => None,
        },
    }
}

/// Replaying deltas keeps a client within the thresholds: a client that
/// holds the values last broadcast for an entity and applies this tick's
/// delta for it knows every replicated field of the entity, each within
/// that field's threshold of its current value. A full sync of this tick
/// would tell it the current values themselves.
pub proof fn law_delta_replay_within_threshold(e: Entity)
    ensures
        ({
            let c = apply_update(view_of_sent(e), entity_update(detected(e), false));
            let f = apply_update(empty_view(), entity_update(detected(e), true));
            &&& c.position is Some && c.velocity is Some
            &&& f.position == Some(e.position) && f.velocity == Some(e.velocity)
            &&& abs_int(c.position->0.x - e.position.x) <= POSITION_THRESHOLD
            &&& abs_int(c.position->0.y - e.position.y) <= POSITION_THRESHOLD
            &&& abs_int(c.velocity->0.x - e.velocity.x) <= VELOCITY_THRESHOLD
            &&& abs_int(c.velocity->0.y - e.velocity.y) <= VELOCITY_THRESHOLD
            &&& (e.health matches Some(h) ==> {
                &&& c.health_current is Some && c.health_max is Some
                &&& abs_int(c.health_current->0 - h.current) <= HEALTH_THRESHOLD
                &&& abs_int(c.health_max->0 - h.max) <= HEALTH_THRESHOLD
            })
        }),
{
}

/// The snapshot after change detection is the value this tick's update
/// carries where the attribute is dirty, and is kept where it is not.
pub proof fn lemma_snapshot_follows_dirty(e: Entity)
    ensures
        detected(e).dirty.position ==> detected(e).sent.position == Some(e.position),
        !detected(e).dirty.position ==> detected(e).sent.position == e.sent.position,
        detected(e).dirty.velocity ==> detected(e).sent.velocity == Some(e.velocity),
        !detected(e).dirty.velocity ==> detected(e).sent.velocity == e.sent.velocity,
{
}

/// At rest with nothing desired, a body stays where it is.
pub proof fn law_idle_body_stays(p: Vec2, profile: Option<CharacterProfile>, cfg: SimConfig)
    requires
        cfg.wf(),
        inside(p, cfg.bounds),
        profile matches Some(pr) ==> pr.wf(),
    ensures
        motion_step(p, Vec2 { x: 0, y: 0 }, Vec2 { x: 0, y: 0 }, profile, cfg) == (
            p,
            Vec2 { x: 0, y: 0 },
        ),
{
    let z = Vec2 { x: 0, y: 0 };
    let hz = cfg.tick_hz as int;
    if let Some(pr) = profile {
        assert(0 * (pr.friction_keep as int) == 0);
        assert(trunc_div(0, crate::physics::FRICTION_SCALE as int) == 0);
        assert(0 <= pr.max_speed * pr.max_speed) by (nonlinear_arith);
        assert(accelerated(z, z, pr, hz) == z);
    }
    assert(trunc_div(0, hz) == 0);
    assert(integrated(p, z, hz) == p);
}

/// An idle world brings a steady session nothing: where no entity is dirty
/// and every visible entity is in view already, no update is owed short of
/// a full sync.
pub proof fn law_steady_session_gets_nothing(s: Seq<Entity>, vis: Set<u32>, seen: Set<u32>)
    requires
        vis.subset_of(seen),
        forall|i: int| 0 <= i < s.len() ==> !any_dirty(#[trigger] s[i]),
    ensures
        updates_for(s, vis, seen, false) == Seq::<EntityUpdate>::empty(),
    decreases s.len(),
{
    if s.len() > 0 {
        let t = s.drop_last();
        assert forall|i: int| 0 <= i < t.len() implies !any_dirty(#[trigger] t[i]) by {
            assert(t[i] == s[i]);
        }
        law_steady_session_gets_nothing(t, vis, seen);
        assert(!any_dirty(s[s.len() - 1]));
        assert(!included(s.last(), vis, seen, false));
    }
}

/// A move longer than the input limit still asks for top speed and no
/// more: the desired velocity `q` has length at most `max_speed`, and falls
/// short of it only by rounding each component toward zero. With `l` the
/// direction's length rounded up (in millionths),
/// `l^2 * ((|q.x| + 1)^2 + (|q.y| + 1)^2) > (l - 1)^2 * max_speed^2`.
pub proof fn law_long_move_asks_for_top_speed(d: Vec2, max_speed: int)
    requires
        d.bounded(MAX_DIRECTION as int),
        over_magnitude(d),
        0 <= max_speed <= SPEED_LIMIT,
    ensures
        ({
            let q = command_velocity(InputCommand::Move { direction: d }, max_speed);
            let l = direction_divisor(d);
            let ax = abs_int(q.x as int);
            let ay = abs_int(q.y as int);
            &&& q.norm2() <= max_speed * max_speed
            &&& l * l * ((ax + 1) * (ax + 1) + (ay + 1) * (ay + 1)) > (l - 1) * (l - 1) * (
            max_speed * max_speed)
        }),
{
    let n = d.norm2();
    let l = direction_divisor(d);
    let c = crate::fixed::ceil_sqrt(n);
    assert(n >= 0) by (nonlinear_arith)
        requires
            n == d.x * d.x + d.y * d.y,
    ;
    lemma_ceil_sqrt_exists(n);
    assert(is_ceil_sqrt(n, c));
    assert(c >= DIRECTION_EPSILON) by (nonlinear_arith)
        requires
            n > 1_210_000_000_000,
            n <= c * c,
            c >= 0,
    ;
    assert(l == c);
    let mx = d.x * max_speed;
    let my = d.y * max_speed;
    let tx = trunc_div(mx, l);
    let ty = trunc_div(my, l);
    crate::fixed::lemma_mul_abs_bound(d.x as int, max_speed, MAX_DIRECTION as int, SPEED_LIMIT as int);
    crate::fixed::lemma_mul_abs_bound(d.y as int, max_speed, MAX_DIRECTION as int, SPEED_LIMIT as int);
    crate::fixed::lemma_trunc_div_bound(mx, l);
    crate::fixed::lemma_trunc_div_bound(my, l);
    crate::fixed::lemma_scaled_norm(d.x as int, d.y as int, max_speed, l);
    // the coordinates fit, so the casts to i64 keep them
    let ux = abs_int(d.x as int);
    let uy = abs_int(d.y as int);
    assert(ux * ux + uy * uy == n) by (nonlinear_arith)
        requires
            ux == abs_int(d.x as int),
            uy == abs_int(d.y as int),
            n == d.x * d.x + d.y * d.y,
    ;
    assert(ux <= l && uy <= l) by (nonlinear_arith)
        requires
            ux * ux + uy * uy <= l * l,
            ux >= 0,
            uy >= 0,
            l > 0,
    ;
    assert(abs_int(mx) == ux * max_speed) by (nonlinear_arith)
        requires
            ux == abs_int(d.x as int),
            mx == d.x * max_speed,
            max_speed >= 0,
    ;
    assert(abs_int(my) == uy * max_speed) by (nonlinear_arith)
        requires
            uy == abs_int(d.y as int),
            my == d.y * max_speed,
            max_speed >= 0,
    ;
    let ax = abs_int(tx);
    let ay = abs_int(ty);
    assert(ax <= SPEED_LIMIT) by (nonlinear_arith)
        requires
            ax * l <= ux * max_speed,
            ux <= l,
            0 <= max_speed <= SPEED_LIMIT,
            l > 0,
            ax >= 0,
    ;
    assert(ay <= SPEED_LIMIT) by (nonlinear_arith)
        requires
            ay * l <= uy * max_speed,
            uy <= l,
            0 <= max_speed <= SPEED_LIMIT,
            l > 0,
            ay >= 0,
    ;
    lemma_trunc_div_lower(mx, l);
    lemma_trunc_div_lower(my, l);
    assert(l * l * ((ax + 1) * (ax + 1)) >= ux * ux * (max_speed * max_speed)) by (nonlinear_arith)
        requires
            (ax + 1) * l > ux * max_speed,
            ux >= 0,
            max_speed >= 0,
            ax >= 0,
            l > 0,
    ;
    assert(l * l * ((ay + 1) * (ay + 1)) >= uy * uy * (max_speed * max_speed)) by (nonlinear_arith)
        requires
            (ay + 1) * l > uy * max_speed,
            uy >= 0,
            max_speed >= 0,
            ay >= 0,
            l > 0,
    ;
    assert((l - 1) * (l - 1) < n);
    let ll = l * l;
    let p = (ax + 1) * (ax + 1);
    let q = (ay + 1) * (ay + 1);
    let mm = max_speed * max_speed;
    let k = (l - 1) * (l - 1);
    assert(ll * (p + q) == ll * p + ll * q) by (nonlinear_arith);
    assert(ux * ux * mm + uy * uy * mm == n * mm) by (nonlinear_arith)
        requires
            ux * ux + uy * uy == n,
    ;
    if max_speed == 0 {
        assert(ll > 0 && p > 0) by (nonlinear_arith)
            requires
                l > 0,
                ax >= 0,
                p == (ax + 1) * (ax + 1),
                ll == l * l,
        ;
        assert(q >= 0) by (nonlinear_arith)
            requires
                q == (ay + 1) * (ay + 1),
        ;
        assert(ll * p > 0) by (nonlinear_arith)
            requires
                ll > 0,
                p > 0,
        ;
        assert(ll * q >= 0) by (nonlinear_arith)
            requires
                ll > 0,
                q >= 0,
        ;
        assert(k * mm == 0) by (nonlinear_arith)
            requires
                mm == max_speed * max_speed,
                max_speed == 0,
        ;
    } else {
        assert(mm > 0) by (nonlinear_arith)
            requires
                mm == max_speed * max_speed,
                max_speed > 0,
        ;
        assert(n * mm > k * mm) by (nonlinear_arith)
            requires
                k < n,
                mm > 0,
        ;
    }
}

/// Every natural number has a ceiling square root.
proof fn lemma_ceil_sqrt_exists(n: int)
    requires
        n >= 0,
    ensures
        exists|r: int| #[trigger] is_ceil_sqrt(n, r),
    decreases n,
{
    if n == 0 {
        assert(is_ceil_sqrt(0, 0));
    } else {
        lemma_ceil_sqrt_exists(n - 1);
        let r = choose|r: int| #[trigger] is_ceil_sqrt(n - 1, r);
        if n <= r * r {
            assert(is_ceil_sqrt(n, r));
        } else {
            assert(n == r * r + 1) by (nonlinear_arith)
                requires
                    n - 1 <= r * r,
                    n > r * r,
            ;
            assert(n <= (r + 1) * (r + 1)) by (nonlinear_arith)
                requires
                    n == r * r + 1,
                    r >= 0,
            ;
            assert(is_ceil_sqrt(n, r + 1));
        }
    }
}

/// A view only names live entities: every id that the owner of a session
/// sees belongs to an entity of the world.
pub proof fn law_view_names_live_entities(s: Seq<Entity>, player_id: u32, id: u32)
    requires
        view_of(s, player_id).contains(id),
    ensures
        has_id(s, id),
{
    let i = choose|i: int|
        0 <= i < s.len() && s[i].network_id == player_id && s[i].view_radius is Some;
    assert(sees(s, s[i].position, s[i].view_radius->0 as int, id));
}

/// An entity that would pass the far edge of the world in one step lands
/// on that edge with its velocity along that axis negated.
pub proof fn law_reflect_at_far_edge(p: Vec2, v: Vec2, cfg: SimConfig)
    requires
        cfg.wf(),
        inside(p, cfg.bounds),
        v.bounded(SPEED_LIMIT as int),
        integrated(p, v, cfg.tick_hz as int).x > cfg.bounds.x,
    ensures
        reflected(integrated(p, v, cfg.tick_hz as int), v, cfg.bounds).0.x == cfg.bounds.x,
        reflected(integrated(p, v, cfg.tick_hz as int), v, cfg.bounds).1.x == -v.x,
{
}

} // verus!
