use mmo_server::ids::{IdError, NetworkIdAllocator};
use mmo_server::mailbox::InputBuffer;
use mmo_server::physics::{InputCommand, SimConfig, Vec2};
use mmo_server::replication::{contains_id, is_visible, MessageKind};
use mmo_server::session::{Session, SessionState};
use mmo_server::world::{Entity, Health, NetworkedObjectType, SpawnError, World};

fn world() -> World {
    World::new(SimConfig { tick_hz: 20, bounds: Vec2 { x: 100_000, y: 100_000 } })
}

fn observer(id: u32, x: i64, y: i64) -> Entity {
    Entity::new(id, NetworkedObjectType::Player, Vec2::new(x, y), None, Some(30_000))
}

#[test]
fn visibility_uses_manhattan_times_one_point_four() {
    let o = Vec2::new(0, 0);
    assert!(is_visible(o, 30_000, Vec2::new(42_000, 0)));
    assert!(!is_visible(o, 30_000, Vec2::new(42_001, 0)));
    assert!(is_visible(o, 30_000, Vec2::new(21_000, 21_000)));
    assert!(!is_visible(o, 30_000, Vec2::new(21_000, 21_001)));
}

#[test]
fn contains_id_finds_members_only() {
    let v = vec![3u32, 9, 27];
    assert!(contains_id(&v, 9));
    assert!(!contains_id(&v, 4));
    assert!(!contains_id(&Vec::new(), 4));
}

#[test]
fn spawn_refuses_duplicate_network_id() {
    let mut w = world();
    assert_eq!(w.spawn(observer(1, 0, 0)), Ok(()));
    assert_eq!(w.spawn(observer(1, 5, 5)), Err(SpawnError::DuplicateNetworkId));
    assert_eq!(w.entities.len(), 1);
    assert!(w.contains(1));
    assert!(!w.contains(2));
}

#[test]
fn despawn_removes_only_that_entity() {
    let mut w = world();
    w.spawn(observer(1, 0, 0)).unwrap();
    w.spawn(observer(2, 10, 0)).unwrap();
    w.spawn(observer(3, 20, 0)).unwrap();
    let gone = w.despawn(1).unwrap();
    assert_eq!(gone.network_id, 1);
    assert!(!w.contains(1) && w.contains(2) && w.contains(3));
    assert!(w.despawn(1).is_none());
    assert_eq!(w.find(3).map(|i| w.entities[i].network_id), Some(3));
}

#[test]
fn visible_from_lists_each_visible_entity_once() {
    let mut w = world();
    w.spawn(observer(1, 0, 0)).unwrap();
    w.spawn(observer(2, 42_000, 0)).unwrap();
    w.spawn(observer(3, 42_001, 0)).unwrap();
    let mut v = w.visible_from(Vec2::new(0, 0), 30_000);
    v.sort();
    assert_eq!(v, vec![1, 2]);
}

#[test]
fn change_detection_marks_and_snapshots() {
    let mut w = world();
    w.spawn(observer(1, 100, 100)).unwrap();
    w.detect_changes();
    assert!(w.entities[0].dirty.position && w.entities[0].dirty.velocity);
    assert_eq!(w.entities[0].sent.position, Some(Vec2::new(100, 100)));
    w.detect_changes();
    assert!(!w.entities[0].dirty.position && !w.entities[0].dirty.velocity);
    // a move of exactly 0.01 does not exceed the threshold
    w.entities[0].position = Vec2::new(101, 100);
    w.detect_changes();
    assert!(!w.entities[0].dirty.position);
    assert_eq!(w.entities[0].sent.position, Some(Vec2::new(100, 100)));
    w.entities[0].position = Vec2::new(102, 100);
    w.detect_changes();
    assert!(w.entities[0].dirty.position && !w.entities[0].dirty.velocity);
    assert_eq!(w.entities[0].sent.position, Some(Vec2::new(102, 100)));
}

#[test]
fn mailbox_keeps_latest_command_only() {
    let mut m = InputBuffer::new();
    m.post(7, InputCommand::Move { direction: Vec2::new(1_000_000, 0) });
    m.post(7, InputCommand::Stop);
    m.post(8, InputCommand::Move { direction: Vec2::new(0, 1_000_000) });
    assert_eq!(m.take(7), Some(InputCommand::Stop));
    assert_eq!(m.take(7), None);
    assert_eq!(m.take(8), Some(InputCommand::Move { direction: Vec2::new(0, 1_000_000) }));
}

#[test]
fn object_ids_count_up_from_ten_thousand() {
    let mut a = NetworkIdAllocator::new();
    assert_eq!(a.allocate_id(), Ok(10_000));
    assert_eq!(a.allocate_id(), Ok(10_001));
    let mut full = NetworkIdAllocator { next_id: u32::MAX };
    assert_eq!(full.allocate_id(), Err(IdError::Exhausted));
}

#[test]
fn player_id_range_is_one_to_9999() {
    let a = NetworkIdAllocator::new();
    assert!(a.is_player_id(1) && a.is_player_id(9_999));
    assert!(!a.is_player_id(0) && !a.is_player_id(10_000));
    assert_eq!(a.reserve_player_id(42), Ok(42));
    assert_eq!(a.reserve_player_id(10_000), Err(IdError::NotAPlayerId));
}

#[test]
fn session_welcome_happens_once() {
    let mut s = Session::new(5, 12, 0);
    let m = s.activate().unwrap();
    assert_eq!(m.kind, MessageKind::Welcome);
    assert_eq!(m.player_id, 12);
    assert_eq!(m.updates.len(), 1);
    assert_eq!(m.updates[0].network_id, 12);
    let id = m.updates[0].identity.unwrap();
    assert_eq!((id.player_id, id.network_id), (12, 12));
    assert_eq!(s.state, SessionState::Active);
    assert!(s.activate().is_none());
}

#[test]
fn session_sync_full_then_delta_then_nothing() {
    let mut w = world();
    w.spawn(observer(12, 1_000, 1_000)).unwrap();
    w.spawn(observer(13, 2_000, 1_000)).unwrap();
    w.detect_changes();
    let mut s = Session::new(5, 12, 0);
    s.activate();
    let full = s.sync(&w, 50, 3_000).unwrap();
    assert_eq!(full.kind, MessageKind::FullSync);
    assert_eq!(full.updates.len(), 2);
    assert!(!s.needs_full_sync);
    assert_eq!(s.last_sync_at, 50);
    // nothing changed: nothing to send
    w.detect_changes();
    assert!(s.sync(&w, 100, 3_000).is_none());
    // one entity moves: a delta with its position only
    w.entities[1].position = Vec2::new(2_050, 1_000);
    w.detect_changes();
    let d = s.sync(&w, 150, 3_000).unwrap();
    assert_eq!(d.kind, MessageKind::Delta);
    assert_eq!(d.updates.len(), 1);
    assert_eq!(d.updates[0].network_id, 13);
    assert_eq!(d.updates[0].position, Some(Vec2::new(2_050, 1_000)));
    assert_eq!(d.updates[0].velocity, None);
}

#[test]
fn session_sync_forces_full_after_silence() {
    let mut w = world();
    w.spawn(observer(12, 1_000, 1_000)).unwrap();
    w.detect_changes();
    let mut s = Session::new(5, 12, 0);
    s.activate();
    s.sync(&w, 0, 3_000).unwrap();
    w.detect_changes();
    assert!(s.sync(&w, 3_000, 3_000).is_none());
    let m = s.sync(&w, 3_001, 3_000).unwrap();
    assert_eq!(m.kind, MessageKind::FullSync);
}

#[test]
fn heartbeat_defers_timeout() {
    let mut s = Session::new(5, 12, 0);
    assert!(!s.timed_out(30_000, 30_000));
    assert!(s.timed_out(30_001, 30_000));
    s.heartbeat(20_000);
    assert!(!s.timed_out(30_001, 30_000));
}

#[test]
fn health_changes_below_a_tenth_are_not_dirty() {
    let mut w = world();
    w.spawn(observer(1, 0, 0)).unwrap();
    w.entities[0].health = Some(Health { current: 10_000, max: 10_000 });
    w.detect_changes();
    assert!(w.entities[0].dirty.health_current && w.entities[0].dirty.health_max);
    assert_eq!(w.entities[0].sent.health, Some(Health { current: 10_000, max: 10_000 }));
    w.entities[0].health = Some(Health { current: 9_995, max: 10_000 });
    w.detect_changes();
    assert!(!w.entities[0].dirty.health_current && !w.entities[0].dirty.health_max);
    assert_eq!(w.entities[0].sent.health, Some(Health { current: 10_000, max: 10_000 }));
    // exactly 0.1 does not exceed the threshold
    w.entities[0].health = Some(Health { current: 9_990, max: 10_000 });
    w.detect_changes();
    assert!(!w.entities[0].dirty.health_current);
    w.entities[0].health = Some(Health { current: 9_989, max: 10_000 });
    w.detect_changes();
    assert!(w.entities[0].dirty.health_current && !w.entities[0].dirty.health_max);
    assert_eq!(w.entities[0].sent.health, Some(Health { current: 9_989, max: 10_000 }));
}

#[test]
fn delta_carries_only_the_dirty_health_field() {
    let mut w = world();
    w.spawn(observer(12, 1_000, 1_000)).unwrap();
    w.entities[0].health = Some(Health { current: 5_000, max: 10_000 });
    w.detect_changes();
    let mut s = Session::new(5, 12, 0);
    s.activate();
    let full = s.sync(&w, 50, 3_000).unwrap();
    assert_eq!(full.updates[0].health_current, Some(5_000));
    assert_eq!(full.updates[0].health_max, Some(10_000));
    w.entities[0].health = Some(Health { current: 4_000, max: 10_000 });
    w.detect_changes();
    let d = s.sync(&w, 100, 3_000).unwrap();
    assert_eq!(d.kind, MessageKind::Delta);
    assert_eq!(d.updates[0].health_current, Some(4_000));
    assert_eq!(d.updates[0].health_max, None);
    assert_eq!(d.updates[0].position, None);
}
