use mmo_server::physics::{InputCommand, Vec2, DIRECTION_SCALE, MAX_DIRECTION};
use mmo_server::replication::{EntityUpdate, MessageKind};
use mmo_server::server::{
    is_heartbeat, Frame, Received, Server, ServerConfig, ServerError, TickOutput,
};
use mmo_server::session::SessionState;
use mmo_server::world::Health;
use std::collections::HashMap;

const DT: u64 = 50;

fn server() -> Server {
    Server::new(ServerConfig::standard(), 0)
}

fn entity_pos(s: &Server, id: u32) -> Vec2 {
    s.world.entities[s.world.find(id).unwrap()].position
}

fn entity_vel(s: &Server, id: u32) -> Vec2 {
    s.world.entities[s.world.find(id).unwrap()].velocity
}

fn to(out: &TickOutput, player: u32) -> Vec<(MessageKind, Vec<EntityUpdate>)> {
    out.messages
        .iter()
        .filter(|o| o.player_id == player)
        .map(|o| (o.message.kind, o.message.updates.clone()))
        .collect()
}

#[test]
fn welcome_is_sent_once_within_one_tick() {
    let mut s = server();
    let p = s.accept(77, 0, Vec2::new(10_000, 10_000)).unwrap();
    assert!((1..=9_999).contains(&p));
    let out = s.tick(DT).unwrap();
    let msgs = to(&out, p);
    assert_eq!(msgs[0].0, MessageKind::Welcome);
    assert_eq!(msgs[0].1.len(), 1);
    assert_eq!(msgs[0].1[0].network_id, p);
    let id = msgs[0].1[0].identity.unwrap();
    assert_eq!((id.player_id, id.network_id), (p, p));
    assert_eq!(out.messages[0].client_key, 77);
    assert!(msgs[1..].iter().all(|m| m.0 != MessageKind::Welcome));
    let later = s.tick(2 * DT).unwrap();
    assert!(later.messages.iter().all(|o| o.message.kind != MessageKind::Welcome));
}

#[test]
fn first_sync_is_full_and_names_the_view() {
    let mut s = server();
    let p = s.accept(1, 0, Vec2::new(10_000, 10_000)).unwrap();
    let out = s.tick(DT).unwrap();
    let msgs = to(&out, p);
    assert_eq!(msgs.len(), 2);
    assert_eq!(msgs[1].0, MessageKind::FullSync);
    assert_eq!(msgs[1].1.len(), 1);
    assert_eq!(msgs[1].1[0].position, Some(Vec2::new(10_000, 10_000)));
    assert_eq!(msgs[1].1[0].velocity, Some(Vec2::new(0, 0)));
    assert_eq!(s.sessions[0].in_view, vec![p]);
}

#[test]
fn players_get_the_least_free_id() {
    let mut s = server();
    assert_eq!(s.accept(1, 0, Vec2::new(0, 0)), Ok(1));
    assert_eq!(s.accept(2, 0, Vec2::new(0, 0)), Ok(2));
    assert!(s.disconnect(1));
    assert_eq!(s.accept(3, 0, Vec2::new(0, 0)), Ok(1));
}

#[test]
fn accept_errors() {
    let mut s = server();
    assert_eq!(s.accept(1, 0, Vec2::new(100_001, 0)), Err(ServerError::OutsideWorld));
    s.tick(100).unwrap();
    assert_eq!(s.accept(1, 99, Vec2::new(0, 0)), Err(ServerError::ClockWentBack));
    assert!(s.sessions.is_empty() && s.world.entities.is_empty());
}

#[test]
fn accept_random_spawns_inside_the_world() {
    let mut s = server();
    for k in 0..20u64 {
        let p = s.accept_random(k, 0).unwrap();
        let pos = entity_pos(&s, p);
        assert!(0 <= pos.x && pos.x <= 100_000 && 0 <= pos.y && pos.y <= 100_000);
    }
}

#[test]
fn tick_refuses_a_clock_that_went_back() {
    let mut s = server();
    s.tick(500).unwrap();
    assert_eq!(s.tick(400).err(), Some(ServerError::ClockWentBack));
    assert_eq!(s.clock, 500);
}

#[test]
fn receive_routes_frames() {
    let mut s = server();
    let p = s.accept(1, 0, Vec2::new(0, 0)).unwrap();
    assert_eq!(s.receive(p, Frame::Heartbeat, 10), Ok(Received::HeartbeatRecorded));
    assert_eq!(s.sessions[0].last_heartbeat_at, 10);
    assert_eq!(s.receive(p, Frame::Command(InputCommand::Stop), 11), Ok(Received::Queued));
    assert_eq!(s.receive(p, Frame::Unrecognized, 12), Ok(Received::Ignored));
    assert_eq!(s.mailbox.pending_command(p), Some(InputCommand::Stop));
    // an absurd direction is scaled down, not dropped
    let absurd = InputCommand::Move { direction: Vec2::new(i64::MAX, i64::MAX / 2) };
    assert_eq!(s.receive(p, Frame::Command(absurd), 13), Ok(Received::Queued));
    assert_eq!(
        s.mailbox.pending_command(p),
        Some(InputCommand::Move { direction: Vec2::new(MAX_DIRECTION, MAX_DIRECTION / 2 - 1) })
    );
    assert_eq!(s.receive(p + 1, Frame::Heartbeat, 14), Err(ServerError::UnknownPlayer));
    assert_eq!(s.receive(p, Frame::Heartbeat, 1), Err(ServerError::ClockWentBack));
    assert_eq!(s.clock, 13);
}

#[test]
fn steady_move_for_twenty_ticks() {
    let mut s = server();
    let p = s.accept(1, 0, Vec2::new(10_000, 10_000)).unwrap();
    let mut now = DT;
    s.tick(now).unwrap();
    let right = InputCommand::Move { direction: Vec2::new(DIRECTION_SCALE, 0) };
    assert_eq!(s.receive(p, Frame::Command(right), now), Ok(Received::Queued));
    for _ in 0..20 {
        now += DT;
        let out = s.tick(now).unwrap();
        let msgs = to(&out, p);
        assert_eq!(msgs.len(), 1);
        assert_eq!(msgs[0].0, MessageKind::Delta);
        assert_eq!(msgs[0].1.len(), 1);
        assert_eq!(msgs[0].1[0].network_id, p);
        assert!(msgs[0].1[0].identity.is_none());
    }
    // ten ticks of speeding up by 10 units/s each, then ten at 100 units/s
    assert_eq!(entity_pos(&s, p), Vec2::new(17_750, 10_000));
    assert_eq!(entity_vel(&s, p), Vec2::new(10_000, 0));
}

#[test]
fn stop_and_coast_then_silence() {
    let mut s = server();
    let p = s.accept(1, 0, Vec2::new(10_000, 10_000)).unwrap();
    let mut now = DT;
    s.tick(now).unwrap();
    let right = InputCommand::Move { direction: Vec2::new(DIRECTION_SCALE, 0) };
    s.receive(p, Frame::Command(right), now).unwrap();
    for _ in 0..20 {
        now += DT;
        s.tick(now).unwrap();
    }
    s.receive(p, Frame::Command(InputCommand::Stop), now).unwrap();
    let mut stopped_at = None;
    for k in 0..60 {
        now += DT;
        s.tick(now).unwrap();
        if entity_vel(&s, p).x < 1 {
            stopped_at = Some(k);
            break;
        }
    }
    assert!(stopped_at.is_some());
    // the tick that brought it to rest reported that; the next ones are silent
    for _ in 0..5 {
        now += DT;
        let out = s.tick(now).unwrap();
        assert!(to(&out, p).is_empty());
    }
}

#[test]
fn two_idle_ticks_send_nothing_to_a_steady_session() {
    let mut s = server();
    let p = s.accept(1, 0, Vec2::new(10_000, 10_000)).unwrap();
    s.tick(DT).unwrap();
    assert!(to(&s.tick(2 * DT).unwrap(), p).is_empty());
    assert!(to(&s.tick(3 * DT).unwrap(), p).is_empty());
}

#[test]
fn boundary_reflect_lands_on_the_edge() {
    let mut s = server();
    let p = s.accept(1, 0, Vec2::new(99_950, 50_000)).unwrap();
    let i = s.world.find(p).unwrap();
    s.world.entities[i].velocity = Vec2::new(10_000, 0);
    s.world.entities[i].desired_velocity = Vec2::new(10_000, 0);
    s.tick(DT).unwrap();
    assert_eq!(entity_pos(&s, p), Vec2::new(100_000, 50_000));
    assert_eq!(entity_vel(&s, p), Vec2::new(-10_000, 0));
}

#[test]
fn interest_enter_gives_full_state() {
    let mut s = server();
    let a = s.accept(1, 0, Vec2::new(0, 0)).unwrap();
    let b = s.accept(2, 0, Vec2::new(100_000, 0)).unwrap();
    let mut now = DT;
    let out = s.tick(now).unwrap();
    for (player, other) in [(a, b), (b, a)] {
        for (_, ups) in to(&out, player) {
            assert!(ups.iter().all(|u| u.network_id != other));
        }
    }
    let east = InputCommand::Move { direction: Vec2::new(DIRECTION_SCALE, 0) };
    s.receive(a, Frame::Command(east), now).unwrap();
    let mut met = false;
    for _ in 0..400 {
        now += DT;
        s.receive(b, Frame::Heartbeat, now).unwrap();
        s.receive(a, Frame::Heartbeat, now).unwrap();
        let out = s.tick(now).unwrap();
        let ax = entity_pos(&s, a).x;
        if 100_000 - ax <= 42_000 {
            let to_a = to(&out, a);
            let to_b = to(&out, b);
            // entering the view brings a full sync, not a delta
            assert_eq!(to_a[0].0, MessageKind::FullSync);
            assert_eq!(to_b[0].0, MessageKind::FullSync);
            assert_eq!(to_a[0].1.len(), 2);
            assert_eq!(to_b[0].1.len(), 2);
            let of_b = to_a[0].1.iter().find(|u| u.network_id == b).unwrap();
            assert_eq!(of_b.position, Some(entity_pos(&s, b)));
            assert_eq!(of_b.velocity, Some(entity_vel(&s, b)));
            let of_a = to_b[0].1.iter().find(|u| u.network_id == a).unwrap();
            assert_eq!(of_a.position, Some(entity_pos(&s, a)));
            assert_eq!(of_a.velocity, Some(entity_vel(&s, a)));
            met = true;
            break;
        } else {
            for (_, ups) in to(&out, a) {
                assert!(ups.iter().all(|u| u.network_id != b));
            }
        }
    }
    assert!(met);
}

#[test]
fn silent_session_gets_full_sync_then_deltas() {
    let mut s = server();
    let p = s.accept(1, 0, Vec2::new(10_000, 10_000)).unwrap();
    s.tick(DT).unwrap();
    let later = DT + 4_000;
    let right = InputCommand::Move { direction: Vec2::new(DIRECTION_SCALE, 0) };
    s.receive(p, Frame::Command(right), later).unwrap();
    let out = s.tick(later + DT).unwrap();
    let msgs = to(&out, p);
    assert_eq!(msgs.len(), 1);
    assert_eq!(msgs[0].0, MessageKind::FullSync);
    assert_eq!(msgs[0].1.len(), s.sessions[0].in_view.len());
    let out = s.tick(later + 2 * DT).unwrap();
    assert_eq!(to(&out, p)[0].0, MessageKind::Delta);
}

#[test]
fn closed_and_silent_sessions_are_reaped() {
    let mut s = server();
    let a = s.accept(10, 0, Vec2::new(0, 0)).unwrap();
    let b = s.accept(20, 0, Vec2::new(0, 0)).unwrap();
    s.tick(DT).unwrap();
    assert!(s.mark_closed(a));
    assert_eq!(s.sessions[0].state, SessionState::Closed);
    let out = s.tick(2 * DT).unwrap();
    assert_eq!(out.closed, vec![10]);
    assert!(!s.world.contains(a));
    let out = s.tick(30_000 + 2 * DT).unwrap();
    assert_eq!(out.closed, vec![20]);
    assert!(!s.world.contains(b));
    assert!(s.sessions.is_empty());
    assert!(!s.mark_closed(b));
}

#[test]
fn over_long_move_is_reported() {
    let mut s = server();
    let p = s.accept(1, 0, Vec2::new(10_000, 10_000)).unwrap();
    s.tick(DT).unwrap();
    let cheat = InputCommand::Move { direction: Vec2::new(5 * DIRECTION_SCALE, 0) };
    s.receive(p, Frame::Command(cheat), DT).unwrap();
    let out = s.tick(2 * DT).unwrap();
    assert_eq!(out.suspicious, vec![p]);
    let i = s.world.find(p).unwrap();
    assert_eq!(s.world.entities[i].desired_velocity, Vec2::new(10_000, 0));
}

#[test]
fn objects_spawn_above_player_range() {
    let mut s = server();
    let id = s
        .spawn_object(mmo_server::world::NetworkedObjectType::Npc, Vec2::new(500, 500), None)
        .unwrap();
    assert_eq!(id, 10_000);
    assert_eq!(
        s.spawn_object(mmo_server::world::NetworkedObjectType::Item, Vec2::new(-1, 0), None),
        Err(ServerError::OutsideWorld)
    );
    let bad = mmo_server::physics::CharacterProfile {
        max_speed: 0,
        acceleration: 1,
        deceleration: 1,
        friction_keep: 1,
    };
    assert_eq!(
        s.spawn_object(mmo_server::world::NetworkedObjectType::Npc, Vec2::new(0, 0), Some(bad)),
        Err(ServerError::InvalidProfile)
    );
    assert!(s.despawn_object(id));
    assert!(!s.despawn_object(id));
}

#[test]
fn object_ids_exhausted() {
    let mut s = server();
    s.ids.next_id = u32::MAX;
    assert_eq!(
        s.spawn_object(mmo_server::world::NetworkedObjectType::Projectile, Vec2::new(0, 0), None),
        Err(ServerError::IdsExhausted)
    );
}

#[test]
fn player_entities_cannot_be_despawned_as_objects() {
    let mut s = server();
    let p = s.accept(1, 0, Vec2::new(0, 0)).unwrap();
    assert!(!s.despawn_object(p));
    assert!(s.world.contains(p));
}

#[test]
fn object_id_collision_is_refused() {
    let mut s = server();
    let id = s
        .spawn_object(mmo_server::world::NetworkedObjectType::Npc, Vec2::new(0, 0), None)
        .unwrap();
    s.ids.next_id = id;
    assert_eq!(
        s.spawn_object(mmo_server::world::NetworkedObjectType::Npc, Vec2::new(0, 0), None),
        Err(ServerError::DuplicateNetworkId)
    );
}

#[test]
fn no_free_player_id_when_all_taken() {
    let mut s = server();
    for id in 1..=9_999u32 {
        s.world.entities.push(mmo_server::world::Entity::new(
            id,
            mmo_server::world::NetworkedObjectType::Player,
            Vec2::new(0, 0),
            None,
            None,
        ));
    }
    assert_eq!(s.allocate_player_id(), None);
    assert_eq!(s.accept(1, 0, Vec2::new(0, 0)), Err(ServerError::NoFreePlayerId));
}

#[test]
fn set_health_reaches_the_owner() {
    let mut s = server();
    let p = s.accept(1, 0, Vec2::new(0, 0)).unwrap();
    s.tick(DT).unwrap();
    assert!(s.set_health(p, Health { current: 7_500, max: 10_000 }));
    assert!(!s.set_health(p + 1, Health { current: 1, max: 1 }));
    let out = s.tick(2 * DT).unwrap();
    let msgs = to(&out, p);
    assert_eq!(msgs[0].0, MessageKind::Delta);
    assert_eq!(msgs[0].1[0].health_current, Some(7_500));
    assert_eq!(msgs[0].1[0].health_max, Some(10_000));
}

fn brute_force_view(s: &Server, player: u32) -> Vec<u32> {
    let o = match s.world.find(player) {
        Some(i) => &s.world.entities[i],
        None => return Vec::new(),
    };
    let r = match o.view_radius {
        Some(r) => r,
        None => return Vec::new(),
    };
    let mut ids: Vec<u32> = s
        .world
        .entities
        .iter()
        .filter(|e| 10 * ((o.position.x - e.position.x).abs() + (o.position.y - e.position.y).abs()) <= 14 * r)
        .map(|e| e.network_id)
        .collect();
    ids.sort();
    ids
}

#[test]
fn views_match_visibility_and_replayed_deltas_match_the_world() {

    let mut s = server();
    let a = s.accept(1, 0, Vec2::new(20_000, 50_000)).unwrap();
    let b = s.accept(2, 0, Vec2::new(70_000, 50_000)).unwrap();
    let c = s.accept(3, 0, Vec2::new(45_000, 90_000)).unwrap();
    let mut known: HashMap<u32, HashMap<u32, (Option<Vec2>, Option<Vec2>)>> = HashMap::new();
    let moves = [
        (a, Vec2::new(DIRECTION_SCALE, 0)),
        (b, Vec2::new(-DIRECTION_SCALE, 300_000)),
        (c, Vec2::new(0, -DIRECTION_SCALE)),
    ];
    let mut now = 0;
    for t in 0..200u64 {
        now += DT;
        if t % 40 == 0 {
            for (p, d) in moves.iter() {
                let dir = if (t / 40) % 2 == 0 { *d } else { Vec2::new(-d.x, -d.y) };
                s.receive(*p, Frame::Command(InputCommand::Move { direction: dir }), now).unwrap();
            }
        }
        if t == 120 {
            s.receive(a, Frame::Command(InputCommand::Stop), now).unwrap();
        }
        for p in [a, b, c] {
            s.receive(p, Frame::Heartbeat, now).unwrap();
        }
        let out = s.tick(now).unwrap();
        for o in &out.messages {
            let view = known.entry(o.player_id).or_default();
            if o.message.kind == MessageKind::FullSync {
                view.clear();
            }
            for u in &o.message.updates {
                let entry = view.entry(u.network_id).or_insert((None, None));
                if u.position.is_some() {
                    entry.0 = u.position;
                }
                if u.velocity.is_some() {
                    entry.1 = u.velocity;
                }
            }
        }
        for sess in &s.sessions {
            let mut in_view = sess.in_view.clone();
            in_view.sort();
            assert_eq!(in_view, brute_force_view(&s, sess.player_id));
            let view = &known[&sess.player_id];
            // what the client was told is within 0.01 of the truth
            for id in &sess.in_view {
                let (pos, vel) = view[id];
                let (pos, vel) = (pos.unwrap(), vel.unwrap());
                let (p, v) = (entity_pos(&s, *id), entity_vel(&s, *id));
                assert!((pos.x - p.x).abs() <= 1 && (pos.y - p.y).abs() <= 1);
                assert!((vel.x - v.x).abs() <= 1 && (vel.y - v.y).abs() <= 1);
            }
        }
    }
}

#[test]
fn heartbeat_is_the_exact_literal() {

    assert!(is_heartbeat("heartbeat"));
    assert!(!is_heartbeat("heartbeat "));
    assert!(!is_heartbeat("Heartbeat"));
    assert!(!is_heartbeat("heartbeet"));
    assert!(!is_heartbeat(""));
    assert!(!is_heartbeat("\"Stop\""));
}
