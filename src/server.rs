//! The authoritative server core: sessions, the world and the mailbox,
//! driven by connection events and by the fixed-rate tick.
//!
//! The transport is outside: it reports accepts, frames and closes, runs
//! the tick on its clock, and delivers what the tick hands back.
use vstd::prelude::*;
use vstd::string::StringSliceAdditionalSpecFns;
use crate::ids::{is_player_id_spec, NetworkIdAllocator, PLAYER_ID_MAX, PLAYER_ID_MIN};
use crate::mailbox::InputBuffer;
use crate::physics::{
    clamp_command, clamped, inside, CharacterProfile, InputCommand, SimConfig, Vec2, SPEED_LIMIT, WORLD_LIMIT,
};
use crate::replication::NetworkMessage;
use crate::session::{Session, SessionState};
use crate::world::{has_id, Entity, Health, NetworkedObjectType, World};

verus! {

/// Everything the server core is configured with. Times are milliseconds.
#[derive(Clone, Copy, Debug, PartialEq, Eq, Structural)]
pub struct ServerConfig {
    pub sim: SimConfig,
    pub player_profile: CharacterProfile,
    pub view_radius: i64,
    pub reconnect_threshold_ms: u64,
    pub heartbeat_timeout_ms: u64,
}

impl ServerConfig {
    pub open spec fn wf(&self) -> bool {
        &&& self.sim.wf()
        &&& self.player_profile.wf()
        &&& 0 <= self.view_radius <= WORLD_LIMIT
    }

    /// 20 ticks per second; a 1000 by 1000 world; players with top speed
    /// 100, acceleration 200, deceleration 300, friction 0.98 per second
    /// and view radius 300; full sync after 3 s without one; heartbeat
    /// timeout 30 s.
    pub fn standard() -> (r: ServerConfig)
        ensures
            r.wf(),
            r.sim.tick_hz == 20,
            r.sim.bounds == (Vec2 { x: 100_000, y: 100_000 }),
            r.player_profile == (CharacterProfile {
                max_speed: 10_000,
                acceleration: 20_000,
                deceleration: 30_000,
                friction_keep: 9_990,
            }),
            r.view_radius == 30_000,
            r.reconnect_threshold_ms == 3_000,
            r.heartbeat_timeout_ms == 30_000,
    {
        ServerConfig {
            sim: SimConfig { tick_hz: 20, bounds: Vec2 { x: 100_000, y: 100_000 } },
            // 0.98 to the power 1/20 is 0.99899..., kept as 9990 ten-thousandths
            player_profile: CharacterProfile {
                max_speed: 10_000,
                acceleration: 20_000,
                deceleration: 30_000,
                friction_keep: 9_990,
            },
            view_radius: 30_000,
            reconnect_threshold_ms: 3_000,
            heartbeat_timeout_ms: 30_000,
        }
    }
}

/// An inbound text frame, as the transport classified it.
#[derive(Clone, Copy, Debug, PartialEq, Eq, Structural)]
pub enum Frame {
    Heartbeat,
    Command(InputCommand),
    Unrecognized,
}

/// The bytes of the heartbeat frame, the literal text `heartbeat`.
pub open spec fn heartbeat_text() -> Seq<u8> {
    seq![104u8, 101u8, 97u8, 114u8, 116u8, 98u8, 101u8, 97u8, 116u8]
}

/// Whether an inbound text frame is a heartbeat.
pub fn is_heartbeat(text: &str) -> (r: bool)
    ensures
        r == (text.spec_bytes() == heartbeat_text()),
{
    let b = text.as_bytes();
    let expected: [u8; 9] = [104, 101, 97, 114, 116, 98, 101, 97, 116];
    if b.len() != 9 {
        proof {
            assert(b@.len() != heartbeat_text().len());
        }
        return false;
    }
    let mut i: usize = 0;
    while i < 9
        invariant
            b@ == text.spec_bytes(),
            b@.len() == 9,
            expected@ == heartbeat_text(),
            i <= 9,
            forall|k: int| 0 <= k < i ==> b@[k] == expected@[k],
        decreases 9 - i,
    {
        if b[i] != expected[i] {
            proof {
                assert(b@[i as int] != heartbeat_text()[i as int]);
            }
            return false;
        }
        i = i + 1;
    }
    proof {
        assert(b@ =~= heartbeat_text());
    }
    true
}

/// What became of an inbound frame.
#[derive(Clone, Copy, Debug, PartialEq, Eq, Structural)]
pub enum Received {
    HeartbeatRecorded,
    /// The command waits in the mailbox for the next tick.
    Queued,
    /// The frame was logged and dropped; the client stays connected.
    Ignored,
}

/// Why the server refused an event.
#[derive(Clone, Copy, Debug, PartialEq, Eq, Structural)]
pub enum ServerError {
    /// The event is dated before an earlier one.
    ClockWentBack,
    /// Every player id is in use.
    NoFreePlayerId,
    /// The position lies outside the world.
    OutsideWorld,
    /// No session has that player id.
    UnknownPlayer,
    /// The profile's rates are not all positive and within bounds.
    InvalidProfile,
    /// The ids above the player range are used up.
    IdsExhausted,
    /// The network id is taken.
    DuplicateNetworkId,
}

/// A message for one client.
#[derive(Clone, Debug)]
pub struct Outbound {
    pub player_id: u32,
    pub client_key: u64,
    pub message: NetworkMessage,
}

/// What one tick hands to the transport.
#[derive(Clone, Debug)]
pub struct TickOutput {
    /// Messages in sending order: first the welcomes, then the syncs.
    pub messages: Vec<Outbound>,
    /// Clients whose sessions were reaped; their transports are to close.
    pub closed: Vec<u64>,
    /// Players whose move direction this tick was longer than allowed.
    pub suspicious: Vec<u32>,
}

pub open spec fn sessions_unique(s: Seq<Session>) -> bool {
    forall|i: int, j: int|
        0 <= i < s.len() && 0 <= j < s.len() && i != j ==> s[i].player_id != s[j].player_id
}

pub open spec fn has_session(s: Seq<Session>, id: u32) -> bool {
    exists|i: int| 0 <= i < s.len() && s[i].player_id == id
}

pub open spec fn session_ok(s: Session, clock: u64) -> bool {
    &&& s.wf()
    &&& s.last_sync_at <= clock
    &&& s.last_heartbeat_at <= clock
}

/// Whether a player id is taken, by a session or by an entity.
pub open spec fn id_in_use(w: Seq<Entity>, s: Seq<Session>, id: u32) -> bool {
    has_id(w, id) || has_session(s, id)
}

/// Unique player ids stay unique through a change that keeps each
/// session's player id.
pub proof fn lemma_sessions_same_players(before: Seq<Session>, after: Seq<Session>)
    requires
        sessions_unique(before),
        after.len() == before.len(),
        forall|k: int| 0 <= k < after.len() ==> (#[trigger] after[k]).player_id == before[k].player_id,
    ensures
        sessions_unique(after),
{
    assert forall|a: int, b: int|
        0 <= a < after.len() && 0 <= b < after.len() && a != b implies after[a].player_id
        != after[b].player_id by {
        assert(before[a].player_id != before[b].player_id);
    }
}

proof fn lemma_sessions_swap_remove(before: Seq<Session>, after: Seq<Session>, i: int, clock: u64)
    requires
        0 <= i < before.len(),
        after == before.update(i, before.last()).drop_last(),
        sessions_unique(before),
        forall|k: int| 0 <= k < before.len() ==> session_ok(#[trigger] before[k], clock),
    ensures
        sessions_unique(after),
        forall|k: int| 0 <= k < after.len() ==> session_ok(#[trigger] after[k], clock),
        !has_session(after, before[i].player_id),
        forall|x: u32|
            x != before[i].player_id ==> (has_session(after, x) <==> has_session(before, x)),
{
    let n = before.len();
    assert forall|k: int| 0 <= k < after.len() implies (#[trigger] after[k]) == (if k == i {
        before[n - 1]
    } else {
        before[k]
    }) by {}
    assert forall|a: int, b: int|
        0 <= a < after.len() && 0 <= b < after.len() && a != b implies after[a].player_id
        != after[b].player_id by {
        let a0 = if a == i {
            n - 1
        } else {
            a
        };
        let b0 = if b == i {
            n - 1
        } else {
            b
        };
        assert(before[a0].player_id != before[b0].player_id);
    }
    assert forall|k: int| 0 <= k < after.len() implies session_ok(#[trigger] after[k], clock) by {
        let k0 = if k == i {
            n - 1
        } else {
            k
        };
        assert(session_ok(before[k0], clock));
    }
    assert forall|k: int| 0 <= k < after.len() implies after[k].player_id != before[i].player_id by {
        let k0 = if k == i {
            n - 1
        } else {
            k
        };
        assert(before[k0].player_id != before[i].player_id);
    }
    assert forall|x: u32| x != before[i].player_id implies (has_session(after, x) <==> has_session(
        before,
        x,
    )) by {
        if has_session(before, x) {
            let k = choose|k: int| 0 <= k < before.len() && before[k].player_id == x;
            let k1 = if k == n - 1 {
                i
            } else {
                k
            };
            assert(after[k1].player_id == x);
        }
        if has_session(after, x) {
            let k = choose|k: int| 0 <= k < after.len() && after[k].player_id == x;
            let k0 = if k == i {
                n - 1
            } else {
                k
            };
            assert(before[k0].player_id == x);
        }
    }
}

/// A profile, where present, is well formed.
pub open spec fn profile_ok(p: Option<CharacterProfile>) -> bool {
    p matches Some(x) ==> x.wf()
}

/// Whether every player id is taken.
pub open spec fn all_player_ids_used(s: Server) -> bool {
    forall|x: u32| is_player_id_spec(x) ==> id_in_use(s.world.entities@, s.sessions@, x)
}

/// `new` is `old` once it accepted player `id` at `now` from `client_key`:
/// the least free player id, its entity at rest at `spawn_at`, its session
/// connecting and owed a full sync, and nothing else changed.
pub open spec fn accepted(
    old: Server,
    new: Server,
    id: u32,
    client_key: u64,
    now: u64,
    spawn_at: Vec2,
) -> bool {
    &&& is_player_id_spec(id)
    &&& !id_in_use(old.world.entities@, old.sessions@, id)
    &&& forall|x: u32| PLAYER_ID_MIN <= x < id ==> id_in_use(old.world.entities@, old.sessions@, x)
    &&& new.clock == now
    &&& new.config == old.config
    &&& new.mailbox == old.mailbox
    &&& new.ids == old.ids
    &&& new.world.config == old.world.config
    &&& new.world.entities@.len() == old.world.entities@.len() + 1
    &&& new.world.entities@.drop_last() == old.world.entities@
    &&& ({
        let e = new.world.entities@.last();
        &&& e.network_id == id
        &&& e.kind == NetworkedObjectType::Player
        &&& e.position == spawn_at
        &&& e.velocity == Vec2 { x: 0, y: 0 }
        &&& e.desired_velocity == Vec2 { x: 0, y: 0 }
        &&& e.view_radius == Some(old.config.view_radius)
        &&& e.profile == Some(old.config.player_profile)
        &&& e.health is None
    })
    &&& new.sessions@.len() == old.sessions@.len() + 1
    &&& new.sessions@.drop_last() == old.sessions@
    &&& ({
        let s = new.sessions@.last();
        &&& s.player_id == id
        &&& s.client_key == client_key
        &&& s.state == SessionState::Connecting
        &&& !s.welcomed
        &&& s.needs_full_sync
        &&& s.connected_at == now
        &&& s.last_sync_at == now
        &&& s.last_heartbeat_at == now
        &&& s.in_view@.len() == 0
    })
}

/// Relies on `rand::Rng::gen_range` with the thread-local generator over
/// an inclusive range: the value lies in the range, which here is never
/// empty.
#[verifier::external_body]
fn random_coordinate(bound: i64) -> (r: i64)
    requires
        0 <= bound,
    ensures
        0 <= r <= bound,
{
    rand::Rng::gen_range(&mut rand::thread_rng(), 0..=bound)
}

/// The server core.
#[derive(Debug)]
pub struct Server {
    pub config: ServerConfig,
    pub world: World,
    pub sessions: Vec<Session>,
    pub mailbox: InputBuffer,
    pub ids: NetworkIdAllocator,
    /// Time of the latest event, in milliseconds.
    pub clock: u64,
}

impl Server {
    pub open spec fn wf(&self) -> bool {
        &&& self.config.wf()
        &&& self.world.wf()
        &&& self.world.config == self.config.sim
        &&& self.mailbox.wf()
        &&& self.ids.wf()
        &&& sessions_unique(self.sessions@)
        &&& forall|k: int|
            0 <= k < self.sessions@.len() ==> session_ok(#[trigger] self.sessions@[k], self.clock)
    }

    /// An empty server whose clock starts at `now`.
    pub fn new(config: ServerConfig, now: u64) -> (r: Server)
        requires
            config.wf(),
        ensures
            r.wf(),
            r.config == config,
            r.clock == now,
            r.sessions@.len() == 0,
            r.world.entities@.len() == 0,
    {
        Server {
            config,
            world: World::new(config.sim),
            sessions: Vec::new(),
            mailbox: InputBuffer::new(),
            ids: NetworkIdAllocator::new(),
            clock: now,
        }
    }

    /// Index of the session of player `id`.
    pub fn find_session(&self, id: u32) -> (r: Option<usize>)
        ensures
            match r {
                Some(i) => i < self.sessions@.len() && self.sessions@[i as int].player_id == id,
                None => !has_session(self.sessions@, id),
            },
    {
        let mut i: usize = 0;
        while i < self.sessions.len()
            invariant
                i <= self.sessions@.len(),
                forall|k: int| 0 <= k < i ==> self.sessions@[k].player_id != id,
            decreases self.sessions@.len() - i,
        {
            if self.sessions[i].player_id == id {
                return Some(i);
            }
            i = i + 1;
        }
        None
    }

    /// The least player id that neither a session nor an entity holds.
    pub fn allocate_player_id(&self) -> (r: Option<u32>)
        ensures
            match r {
                Some(id) => {
                    &&& is_player_id_spec(id)
                    &&& !id_in_use(self.world.entities@, self.sessions@, id)
                    &&& forall|x: u32|
                        PLAYER_ID_MIN <= x < id ==> id_in_use(self.world.entities@, self.sessions@, x)
                },
                None => forall|x: u32|
                    is_player_id_spec(x) ==> id_in_use(self.world.entities@, self.sessions@, x),
            },
    {
        let mut id: u32 = PLAYER_ID_MIN;
        while id <= PLAYER_ID_MAX
            invariant
                PLAYER_ID_MIN <= id <= PLAYER_ID_MAX + 1,
                forall|x: u32|
                    PLAYER_ID_MIN <= x < id ==> id_in_use(self.world.entities@, self.sessions@, x),
            decreases PLAYER_ID_MAX + 1 - id,
        {
            if !self.world.contains(id) && self.find_session(id).is_none() {
                return Some(id);
            }
            id = id + 1;
        }
        None
    }

    /// Accepts a connection from `client_key` at `now`: takes the least free
    /// player id, spawns that player's entity at `spawn_at`, and opens a
    /// session that is welcomed at the next tick.
    pub fn accept(&mut self, client_key: u64, now: u64, spawn_at: Vec2) -> (r: Result<
        u32,
        ServerError,
    >)
        requires
            old(self).wf(),
        ensures
            final(self).wf(),
            final(self).config == old(self).config,
            r == Err::<u32, ServerError>(ServerError::ClockWentBack) <==> now < old(self).clock,
            r == Err::<u32, ServerError>(ServerError::OutsideWorld) <==> now >= old(self).clock
                && !inside(spawn_at, old(self).config.sim.bounds),
            r == Err::<u32, ServerError>(ServerError::NoFreePlayerId) <==> now >= old(self).clock
                && inside(spawn_at, old(self).config.sim.bounds) && all_player_ids_used(*old(self)),
            r is Err ==> r == Err::<u32, ServerError>(ServerError::ClockWentBack) || r == Err::<
                u32,
                ServerError,
            >(ServerError::OutsideWorld) || r == Err::<u32, ServerError>(
                ServerError::NoFreePlayerId,
            ),
            r is Err ==> *final(self) == *old(self),
            r matches Ok(id) ==> accepted(*old(self), *final(self), id, client_key, now, spawn_at),
    {
        if now < self.clock {
            return Err(ServerError::ClockWentBack);
        }
        if !(0 <= spawn_at.x && spawn_at.x <= self.config.sim.bounds.x && 0 <= spawn_at.y
            && spawn_at.y <= self.config.sim.bounds.y) {
            return Err(ServerError::OutsideWorld);
        }
        let id = match self.allocate_player_id() {
            Some(id) => id,
            None => {
                return Err(ServerError::NoFreePlayerId);
            },
        };
        self.clock = now;
        let e = Entity::new(
            id,
            NetworkedObjectType::Player,
            spawn_at,
            Some(self.config.player_profile),
            Some(self.config.view_radius),
        );
        proof {
            assert(e.velocity.norm2() == 0);
            assert(0 <= e.profile->0.max_speed * e.profile->0.max_speed) by (nonlinear_arith);
        }
        let spawned = self.world.spawn(e);
        proof {
            assert(spawned is Ok);
        }
        let ghost before = self.sessions@;
        self.sessions.push(Session::new(client_key, id, now));
        proof {
            assert(self.world.entities@.drop_last() =~= old(self).world.entities@);
            let after = self.sessions@;
            assert(after.drop_last() =~= before);
            assert forall|a: int, b: int|
                0 <= a < after.len() && 0 <= b < after.len() && a != b implies after[a].player_id
                != after[b].player_id by {
                if a < before.len() && b < before.len() {
                    assert(before[a].player_id != before[b].player_id);
                } else if a < before.len() {
                    assert(before[a].player_id != id);
                } else {
                    assert(before[b].player_id != id);
                }
            }
            assert forall|k: int| 0 <= k < after.len() implies session_ok(
                #[trigger] after[k],
                self.clock,
            ) by {
                if k < before.len() {
                    assert(session_ok(before[k], old(self).clock));
                }
            }
        }
        Ok(id)
    }

    /// Accepts a connection as `accept` does, at a position drawn uniformly
    /// at random in the world.
    pub fn accept_random(&mut self, client_key: u64, now: u64) -> (r: Result<u32, ServerError>)
        requires
            old(self).wf(),
        ensures
            final(self).wf(),
            final(self).config == old(self).config,
            r == Err::<u32, ServerError>(ServerError::ClockWentBack) <==> now < old(self).clock,
            r == Err::<u32, ServerError>(ServerError::NoFreePlayerId) <==> now >= old(self).clock
                && all_player_ids_used(*old(self)),
            r is Err ==> r == Err::<u32, ServerError>(ServerError::ClockWentBack) || r == Err::<
                u32,
                ServerError,
            >(ServerError::NoFreePlayerId),
            r is Err ==> *final(self) == *old(self),
            r matches Ok(id) ==> {
                let p = final(self).world.entities@.last().position;
                &&& inside(p, old(self).config.sim.bounds)
                &&& accepted(*old(self), *final(self), id, client_key, now, p)
            },
    {
        let x = random_coordinate(self.config.sim.bounds.x);
        let y = random_coordinate(self.config.sim.bounds.y);
        self.accept(client_key, now, Vec2 { x, y })
    }

    /// Removes the session at index `i`, its entity and its pending input.
    pub(crate) fn remove_session_at(&mut self, i: usize)
        requires
            old(self).wf(),
            i < old(self).sessions@.len(),
        ensures
            final(self).wf(),
            final(self).config == old(self).config,
            final(self).clock == old(self).clock,
            final(self).sessions@ == old(self).sessions@.update(
                i as int,
                old(self).sessions@.last(),
            ).drop_last(),
            !has_session(final(self).sessions@, old(self).sessions@[i as int].player_id),
            !has_id(final(self).world.entities@, old(self).sessions@[i as int].player_id),
            forall|x: u32|
                x != old(self).sessions@[i as int].player_id ==> (has_session(
                    final(self).sessions@,
                    x,
                ) <==> has_session(old(self).sessions@, x)),
            forall|k: int|
                0 <= k < final(self).world.entities@.len() ==> old(self).world.entities@.contains(
                    #[trigger] final(self).world.entities@[k],
                ),
            forall|q: u32|
                q != old(self).sessions@[i as int].player_id ==> final(self).mailbox.pending(q)
                    == old(self).mailbox.pending(q),
            forall|k: int|
                0 <= k < final(self).sessions@.len() ==> old(self).sessions@.contains(
                    #[trigger] final(self).sessions@[k],
                ),
            forall|x: u32|
                x != old(self).sessions@[i as int].player_id ==> (has_id(
                    final(self).world.entities@,
                    x,
                ) <==> has_id(old(self).world.entities@, x)),
            final(self).mailbox.pending(old(self).sessions@[i as int].player_id) is None,
            final(self).ids == old(self).ids,
    {
        let ghost before = self.sessions@;
        let s = self.sessions.swap_remove(i);
        proof {
            lemma_sessions_swap_remove(before, self.sessions@, i as int, self.clock);
            let after = self.sessions@;
            assert forall|k: int| 0 <= k < after.len() implies before.contains(#[trigger] after[k]) by {
                if k == i {
                    assert(after[k] == before[before.len() - 1]);
                } else {
                    assert(after[k] == before[k]);
                }
            }
        }
        let _ = self.world.despawn(s.player_id);
        let _ = self.mailbox.take(s.player_id);
    }

    /// The transport of player `id` closed: its session, entity and
    /// pending input go. False where no session has that id.
    pub fn disconnect(&mut self, id: u32) -> (r: bool)
        requires
            old(self).wf(),
        ensures
            final(self).wf(),
            final(self).config == old(self).config,
            final(self).clock == old(self).clock,
            final(self).ids == old(self).ids,
            r == has_session(old(self).sessions@, id),
            !has_session(final(self).sessions@, id),
            r ==> !has_id(final(self).world.entities@, id) && final(self).mailbox.pending(id) is None,
            !r ==> *final(self) == *old(self),
            forall|x: u32|
                x != id ==> (has_session(final(self).sessions@, x) <==> has_session(
                    old(self).sessions@,
                    x,
                )),
            forall|k: int|
                0 <= k < final(self).sessions@.len() ==> old(self).sessions@.contains(
                    #[trigger] final(self).sessions@[k],
                ),
            forall|x: u32|
                x != id ==> (has_id(final(self).world.entities@, x) <==> has_id(
                    old(self).world.entities@,
                    x,
                )),
            forall|k: int|
                0 <= k < final(self).world.entities@.len() ==> old(self).world.entities@.contains(
                    #[trigger] final(self).world.entities@[k],
                ),
            forall|q: u32| q != id ==> final(self).mailbox.pending(q) == old(self).mailbox.pending(q),
    {
        match self.find_session(id) {
            Some(i) => {
                self.remove_session_at(i);
                true
            },
            None => false,
        }
    }

    /// A send to player `id` failed: its session closes and is reaped at
    /// the next tick. False where no session has that id.
    pub fn mark_closed(&mut self, id: u32) -> (r: bool)
        requires
            old(self).wf(),
        ensures
            final(self).wf(),
            final(self).config == old(self).config,
            r == has_session(old(self).sessions@, id),
            final(self).sessions@.len() == old(self).sessions@.len(),
            forall|k: int|
                0 <= k < final(self).sessions@.len() ==> (#[trigger] final(self).sessions@[k]).state
                    == (if old(self).sessions@[k].player_id == id {
                    SessionState::Closed
                } else {
                    old(self).sessions@[k].state
                }),
            final(self).world.entities@ == old(self).world.entities@,
    {
        match self.find_session(id) {
            Some(i) => {
                let ghost before = self.sessions@;
                self.sessions[i].state = SessionState::Closed;
                proof {
                    let after = self.sessions@;
                    lemma_sessions_same_players(before, after);
                    assert forall|k: int| 0 <= k < after.len() implies session_ok(
                        #[trigger] after[k],
                        self.clock,
                    ) by {
                        assert(session_ok(before[k], self.clock));
                    }
                    assert forall|k: int| 0 <= k < after.len() implies (#[trigger] after[k]).state
                        == (if before[k].player_id == id {
                        SessionState::Closed
                    } else {
                        before[k].state
                    }) by {
                        if k != i {
                            assert(before[k].player_id != before[i as int].player_id);
                        }
                    }
                }
                true
            },
            None => false,
        }
    }

    /// Handles an inbound frame of player `id` at `now`: a heartbeat defers
    /// the timeout, a command waits in the mailbox (replacing any pending
    /// one), anything else is dropped.
    pub fn receive(&mut self, id: u32, frame: Frame, now: u64) -> (r: Result<Received, ServerError>)
        requires
            old(self).wf(),
        ensures
            final(self).wf(),
            final(self).config == old(self).config,
            final(self).world == old(self).world,
            final(self).ids == old(self).ids,
            now < old(self).clock ==> r == Err::<Received, ServerError>(ServerError::ClockWentBack),
            now >= old(self).clock && !has_session(old(self).sessions@, id) ==> r == Err::<
                Received,
                ServerError,
            >(ServerError::UnknownPlayer),
            r is Ok <==> now >= old(self).clock && has_session(old(self).sessions@, id),
            r is Err ==> *final(self) == *old(self),
            r is Ok ==> final(self).clock == now,
            r is Ok ==> r == Ok::<Received, ServerError>(
                match frame {
                    Frame::Heartbeat => Received::HeartbeatRecorded,
                    Frame::Command(_) => Received::Queued,
                    Frame::Unrecognized => Received::Ignored,
                },
            ),
            r is Ok ==> final(self).sessions@.len() == old(self).sessions@.len(),
            r is Ok ==> forall|k: int|
                0 <= k < old(self).sessions@.len() ==> #[trigger] final(self).sessions@[k] == (if frame
                    == Frame::Heartbeat && old(self).sessions@[k].player_id == id {
                    Session { last_heartbeat_at: now, ..old(self).sessions@[k] }
                } else {
                    old(self).sessions@[k]
                }),
            r is Ok ==> (frame matches Frame::Command(c) ==> final(self).mailbox.pending(id) == Some(
                clamped(c),
            )),
            !(r is Ok && frame is Command) ==> final(self).mailbox.pending(id) == old(
                self,
            ).mailbox.pending(id),
            forall|q: u32| q != id ==> final(self).mailbox.pending(q) == old(self).mailbox.pending(q),
    {
        if now < self.clock {
            return Err(ServerError::ClockWentBack);
        }
        let i = match self.find_session(id) {
            Some(i) => i,
            None => {
                return Err(ServerError::UnknownPlayer);
            },
        };
        let ghost before = self.sessions@;
        self.clock = now;
        proof {
            assert forall|k: int| 0 <= k < before.len() implies session_ok(
                #[trigger] before[k],
                now,
            ) by {
                assert(session_ok(before[k], old(self).clock));
            }
        }
        match frame {
            Frame::Heartbeat => {
                self.sessions[i].heartbeat(now);
                proof {
                    let after = self.sessions@;
                    lemma_sessions_same_players(before, after);
                    assert forall|k: int| 0 <= k < after.len() implies session_ok(
                        #[trigger] after[k],
                        now,
                    ) by {
                        assert(session_ok(before[k], now));
                    }
                }
                Ok(Received::HeartbeatRecorded)
            },
            Frame::Command(cmd) => {
                self.mailbox.post(id, clamp_command(cmd));
                Ok(Received::Queued)
            },
            Frame::Unrecognized => Ok(Received::Ignored),
        }
    }

    /// Spawns an entity that is not a player, under the next free id above
    /// the player range.
    pub fn spawn_object(&mut self, kind: NetworkedObjectType, position: Vec2, profile: Option<CharacterProfile>) -> (r:
        Result<u32, ServerError>)
        requires
            old(self).wf(),
        ensures
            final(self).wf(),
            final(self).config == old(self).config,
            final(self).sessions@ == old(self).sessions@,
            final(self).mailbox == old(self).mailbox,
            final(self).clock == old(self).clock,
            r == Err::<u32, ServerError>(ServerError::OutsideWorld) <==> !inside(
                position,
                old(self).config.sim.bounds,
            ),
            r == Err::<u32, ServerError>(ServerError::InvalidProfile) <==> inside(
                position,
                old(self).config.sim.bounds,
            ) && !profile_ok(profile),
            r == Err::<u32, ServerError>(ServerError::IdsExhausted) <==> inside(
                position,
                old(self).config.sim.bounds,
            ) && profile_ok(profile) && old(self).ids.next_id == u32::MAX,
            r == Err::<u32, ServerError>(ServerError::DuplicateNetworkId) <==> inside(
                position,
                old(self).config.sim.bounds,
            ) && profile_ok(profile) && old(self).ids.next_id < u32::MAX && has_id(
                old(self).world.entities@,
                old(self).ids.next_id,
            ),
            r is Err ==> r == Err::<u32, ServerError>(ServerError::OutsideWorld) || r == Err::<
                u32,
                ServerError,
            >(ServerError::InvalidProfile) || r == Err::<u32, ServerError>(
                ServerError::IdsExhausted,
            ) || r == Err::<u32, ServerError>(ServerError::DuplicateNetworkId),
            r is Err ==> final(self).world.entities@ == old(self).world.entities@,
            r matches Ok(id) ==> {
                &&& id == old(self).ids.next_id
                &&& id >= crate::ids::FIRST_OBJECT_ID
                &&& final(self).ids.next_id == id + 1
                &&& final(self).world.entities@.len() == old(self).world.entities@.len() + 1
                &&& final(self).world.entities@.drop_last() == old(self).world.entities@
                &&& ({
                    let e = final(self).world.entities@.last();
                    &&& e.network_id == id
                    &&& e.position == position
                    &&& e.kind == kind
                    &&& e.profile == profile
                    &&& e.velocity == Vec2 { x: 0, y: 0 }
                    &&& e.desired_velocity == Vec2 { x: 0, y: 0 }
                    &&& e.view_radius is None
                    &&& e.health is None
                })
            },
    {
        if !(0 <= position.x && position.x <= self.config.sim.bounds.x && 0 <= position.y
            && position.y <= self.config.sim.bounds.y) {
            return Err(ServerError::OutsideWorld);
        }
        match profile {
            Some(p) => {
                if !(0 < p.max_speed && p.max_speed <= SPEED_LIMIT && 0 < p.acceleration
                    && p.acceleration <= SPEED_LIMIT && 0 < p.deceleration && p.deceleration
                    <= SPEED_LIMIT && 0 < p.friction_keep && p.friction_keep
                    <= crate::physics::FRICTION_SCALE) {
                    return Err(ServerError::InvalidProfile);
                }
            },
            None => {},
        }
        let id = match self.ids.allocate_id() {
            Ok(id) => id,
            Err(_) => {
                return Err(ServerError::IdsExhausted);
            },
        };
        let e = Entity::new(id, kind, position, profile, None);
        proof {
            assert(e.velocity.norm2() == 0);
            if let Some(p) = profile {
                assert(0 <= p.max_speed * p.max_speed) by (nonlinear_arith);
            }
        }
        match self.world.spawn(e) {
            Ok(()) => {
                proof {
                    assert(self.world.entities@.drop_last() =~= old(self).world.entities@);
                }
                Ok(id)
            },
            Err(_) => Err(ServerError::DuplicateNetworkId),
        }
    }

    /// Sets the health of the entity with network id `id`; false where there
    /// is none.
    pub fn set_health(&mut self, id: u32, health: Health) -> (r: bool)
        requires
            old(self).wf(),
        ensures
            final(self).wf(),
            final(self).config == old(self).config,
            final(self).sessions@ == old(self).sessions@,
            r == has_id(old(self).world.entities@, id),
            final(self).world.entities@.len() == old(self).world.entities@.len(),
            forall|k: int|
                0 <= k < old(self).world.entities@.len() ==> {
                    let e = #[trigger] final(self).world.entities@[k];
                    let e0 = old(self).world.entities@[k];
                    &&& e.network_id == e0.network_id
                    &&& e.health == (if e0.network_id == id {
                        Some(health)
                    } else {
                        e0.health
                    })
                    &&& e == (Entity { health: e.health, ..e0 })
                },
    {
        match self.world.find(id) {
            Some(i) => {
                let ghost before = self.world.entities@;
                self.world.entities[i].health = Some(health);
                proof {
                    let after = self.world.entities@;
                    crate::world::lemma_same_ids(before, after);
                    assert forall|k: int| 0 <= k < after.len() implies #[trigger] after[k].wf(
                        self.world.config,
                    ) by {
                        assert(before[k].wf(self.world.config));
                    }
                    assert forall|k: int| 0 <= k < before.len() implies (#[trigger] after[k]).health
                        == (if before[k].network_id == id {
                        Some(health)
                    } else {
                        before[k].health
                    }) by {
                        if k != i {
                            assert(before[k].network_id != before[i as int].network_id);
                        }
                    }
                }
                true
            },
            None => false,
        }
    }

    /// Despawns the entity with network id `id`, unless a session owns it.
    pub fn despawn_object(&mut self, id: u32) -> (r: bool)
        requires
            old(self).wf(),
        ensures
            final(self).wf(),
            final(self).config == old(self).config,
            final(self).sessions@ == old(self).sessions@,
            r == (has_id(old(self).world.entities@, id) && !has_session(old(self).sessions@, id)),
            r ==> !has_id(final(self).world.entities@, id),
            !r ==> final(self).world.entities@ == old(self).world.entities@,
    {
        if self.find_session(id).is_some() {
            return false;
        }
        self.world.despawn(id).is_some()
    }
}

} // verus!
