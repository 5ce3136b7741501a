//! The fixed-rate tick: reap dead sessions, welcome new ones, apply
//! pending input, step the world, detect changes and sync every client.
use vstd::prelude::*;
use crate::physics::{
    command_desired_velocity, command_velocity, is_over_magnitude, lemma_norm_bounds_components,
    motion_step, over_magnitude, InputCommand, SimConfig,
};
use crate::replication::{detected, updates_for, MessageKind, NetworkMessage};
use crate::server::{
    has_session, lemma_sessions_same_players, session_ok, sessions_unique, Outbound, Server, ServerError, TickOutput,
};
use crate::session::{agrees_with_view, full_due, view_of, welcome_of, Session, SessionState};
use crate::mailbox::InputBuffer;
use crate::world::{has_id, ids_unique, Entity};

verus! {

/// An entity once its pending command, if any, set its desired velocity.
pub open spec fn with_input(e: Entity, cmd: Option<InputCommand>) -> Entity {
    match (e.profile, cmd) {
        (Some(p), Some(c)) => Entity {
            desired_velocity: command_velocity(c, p.max_speed as int),
            ..e
        },
        _ => e,
    }
}

/// An entity after one tick: its pending command applied, one simulation
/// step, and change detection.
pub open spec fn advanced(e: Entity, cmd: Option<InputCommand>, cfg: SimConfig) -> Entity {
    let e1 = with_input(e, cmd);
    let (p, v) = motion_step(e1.position, e1.velocity, e1.desired_velocity, e1.profile, cfg);
    detected(Entity { position: p, velocity: v, ..e1 })
}

/// Whether a pending command is a move longer than the input limit.
pub open spec fn over_long_move(c: Option<InputCommand>) -> bool {
    match c {
        Some(InputCommand::Move { direction }) => over_magnitude(direction),
        _ => false,
    }
}

/// Whether `s` holds an agent (an entity with a profile) with id `id`.
pub open spec fn has_agent(s: Seq<Entity>, id: u32) -> bool {
    exists|k: int| 0 <= k < s.len() && s[k].network_id == id && s[k].profile is Some
}

/// Whether some session of `s` with client key `key` is not `alive`.
pub open spec fn reaped_key(s: Seq<Session>, key: u64, now: u64, timeout: u64) -> bool {
    exists|j: int| 0 <= j < s.len() && (#[trigger] s[j]).client_key == key && !alive(s[j], now, timeout)
}

/// Every message of `m` goes to the player of a session of `s` that is
/// connecting.
#[verifier::opaque]
pub open spec fn from_connecting(m: Seq<Outbound>, s: Seq<Session>) -> bool {
    forall|j: int|
        0 <= j < m.len() ==> exists|k: int|
            0 <= k < s.len() && s[k].state == SessionState::Connecting && (#[trigger] m[j]).player_id
                == s[k].player_id
}

/// No two messages of `m` go to the same player.
#[verifier::opaque]
pub open spec fn players_distinct(m: Seq<Outbound>) -> bool {
    forall|j1: int, j2: int|
        0 <= j1 < j2 < m.len() ==> (#[trigger] m[j1]).player_id != (#[trigger] m[j2]).player_id
}

/// Whether a session outlives the reaping of a tick at `now`.
pub open spec fn alive(s: Session, now: u64, timeout: u64) -> bool {
    s.state != SessionState::Closed && !(now >= s.last_heartbeat_at && now - s.last_heartbeat_at
        > timeout)
}

/// `e` is what one tick made of some entity of `w0`, whose pending
/// command `mb` held.
pub open spec fn advanced_from(e: Entity, w0: Seq<Entity>, mb: InputBuffer, cfg: SimConfig) -> bool {
    exists|e0: Entity| #[trigger] w0.contains(e0) && e == advanced(e0, mb.pending(e0.network_id), cfg)
}

/// The first `w` messages are welcomes; the rest are syncs, each agreeing
/// with the view of the session it goes to.
pub open spec fn welcomes_then_syncs(m: Seq<Outbound>, w: int, s: Seq<Session>) -> bool {
    &&& 0 <= w <= m.len()
    &&& forall|j: int| 0 <= j < w ==> welcome_of((#[trigger] m[j]).player_id, m[j].message)
    &&& forall|j: int|
        w <= j < m.len() ==> {
            &&& (#[trigger] m[j]).message.kind != MessageKind::Welcome
            &&& exists|k: int|
                0 <= k < s.len() && agrees_with_view(m[j].message, s[k]) && m[j].player_id
                    == s[k].player_id
        }
}

/// Whether `sync` owes session `s` a message against world `w` at `now`.
#[verifier::opaque]
pub open spec fn sync_owed(s: Session, w: Seq<Entity>, now: u64, thr: u64) -> bool {
    let vis = view_of(w, s.player_id);
    let full = full_due(s, vis, now, thr);
    full || updates_for(w, vis, s.in_view@.to_set(), full).len() > 0
}

/// Whether `m` is the message that `sync` builds for session `s` against
/// world `w` at `now`.
#[verifier::opaque]
pub open spec fn sync_exact(m: NetworkMessage, s: Session, w: Seq<Entity>, now: u64, thr: u64) -> bool {
    let vis = view_of(w, s.player_id);
    let full = full_due(s, vis, now, thr);
    &&& m.player_id == s.player_id
    &&& m.kind == (if full {
        MessageKind::FullSync
    } else {
        MessageKind::Delta
    })
    &&& m.updates@ == updates_for(w, vis, s.in_view@.to_set(), full)
}

/// Message `j` of `m` is what `sync` builds for some session of `s`.
pub open spec fn sound_at(m: Seq<Outbound>, s: Seq<Session>, j: int, w: Seq<Entity>, now: u64, thr: u64) -> bool {
    exists|k: int|
        0 <= k < s.len() && #[trigger] s[k].player_id == m[j].player_id && sync_exact(
            m[j].message,
            s[k],
            w,
            now,
            thr,
        )
}

/// Each message of `m` is what `sync` builds for some session of `s`.
#[verifier::opaque]
pub open spec fn syncs_sound(m: Seq<Outbound>, s: Seq<Session>, w: Seq<Entity>, now: u64, thr: u64) -> bool {
    forall|j: int| 0 <= j < m.len() ==> #[trigger] sound_at(m, s, j, w, now, thr)
}

/// Every session of `s` that `sync` owes a message has one in `m`.
#[verifier::opaque]
pub open spec fn syncs_complete(m: Seq<Outbound>, s: Seq<Session>, w: Seq<Entity>, now: u64, thr: u64) -> bool {
    forall|k: int|
        #![trigger s[k]]
        0 <= k < s.len() && sync_owed(s[k], w, now, thr) ==> exists|j: int|
            0 <= j < m.len() && #[trigger] m[j].player_id == s[k].player_id
}

/// The messages `m` are exactly what `sync` owes the sessions `s`.
pub open spec fn syncs_exact(m: Seq<Outbound>, s: Seq<Session>, w: Seq<Entity>, now: u64, thr: u64) -> bool {
    syncs_sound(m, s, w, now, thr) && syncs_complete(m, s, w, now, thr)
}

/// A session as a tick's welcome leaves it: one that was connecting is owed
/// a full sync.
pub open spec fn prepared(s: Session) -> Session {
    Session { needs_full_sync: s.needs_full_sync || s.state == SessionState::Connecting, ..s }
}

/// The session of `s` with player `pid`.
pub open spec fn session_of(s: Seq<Session>, pid: u32) -> Session {
    s[choose|k: int| 0 <= k < s.len() && s[k].player_id == pid]
}

/// No message is exactly what no session is owed.
proof fn lemma_syncs_exact_empty(s: Seq<Session>, w: Seq<Entity>, now: u64, thr: u64)
    requires
        s.len() == 0,
    ensures
        syncs_exact(Seq::empty(), s, w, now, thr),
{
    reveal(syncs_sound);
    reveal(syncs_complete);
}

/// What `sync` owes a session depends on its player, its full-sync flag,
/// its last sync and its view alone.
proof fn lemma_sync_same_fields(a: Session, b: Session, w: Seq<Entity>, now: u64, thr: u64)
    requires
        a.player_id == b.player_id,
        a.needs_full_sync == b.needs_full_sync,
        a.last_sync_at == b.last_sync_at,
        a.in_view@ == b.in_view@,
    ensures
        sync_owed(a, w, now, thr) == sync_owed(b, w, now, thr),
        forall|m: NetworkMessage| sync_exact(m, a, w, now, thr) == sync_exact(m, b, w, now, thr),
{
    reveal(sync_owed);
    reveal(sync_exact);
    assert(a.in_view@.to_set() == b.in_view@.to_set());
}

/// `syncs_exact` reads of a session only its player, its full-sync flag,
/// its last sync and its view.
proof fn lemma_syncs_exact_same_fields(
    m: Seq<Outbound>,
    a: Seq<Session>,
    b: Seq<Session>,
    w: Seq<Entity>,
    now: u64,
    thr: u64,
)
    requires
        syncs_exact(m, a, w, now, thr),
        a.len() == b.len(),
        forall|k: int|
            0 <= k < a.len() ==> (#[trigger] a[k]).player_id == b[k].player_id
                && a[k].needs_full_sync == b[k].needs_full_sync && a[k].last_sync_at
                == b[k].last_sync_at && a[k].in_view@ == b[k].in_view@,
    ensures
        syncs_exact(m, b, w, now, thr),
{
    lemma_syncs_sound_same_fields(m, a, b, w, now, thr);
    lemma_syncs_complete_same_fields(m, a, b, w, now, thr);
}

proof fn lemma_syncs_sound_same_fields(
    m: Seq<Outbound>,
    a: Seq<Session>,
    b: Seq<Session>,
    w: Seq<Entity>,
    now: u64,
    thr: u64,
)
    requires
        syncs_sound(m, a, w, now, thr),
        a.len() == b.len(),
        forall|k: int|
            0 <= k < a.len() ==> (#[trigger] a[k]).player_id == b[k].player_id
                && a[k].needs_full_sync == b[k].needs_full_sync && a[k].last_sync_at
                == b[k].last_sync_at && a[k].in_view@ == b[k].in_view@,
    ensures
        syncs_sound(m, b, w, now, thr),
{
    reveal(syncs_sound);
    assert forall|j: int| 0 <= j < m.len() implies #[trigger] sound_at(m, b, j, w, now, thr) by {
        assert(sound_at(m, a, j, w, now, thr));
        let k = choose|k: int|
            0 <= k < a.len() && #[trigger] a[k].player_id == m[j].player_id && sync_exact(
                m[j].message,
                a[k],
                w,
                now,
                thr,
            );
        lemma_sync_same_fields(a[k], b[k], w, now, thr);
        assert(b[k].player_id == m[j].player_id);
        assert(sync_exact(m[j].message, b[k], w, now, thr));
    }
}

proof fn lemma_syncs_complete_same_fields(
    m: Seq<Outbound>,
    a: Seq<Session>,
    b: Seq<Session>,
    w: Seq<Entity>,
    now: u64,
    thr: u64,
)
    requires
        syncs_complete(m, a, w, now, thr),
        a.len() == b.len(),
        forall|k: int|
            0 <= k < a.len() ==> (#[trigger] a[k]).player_id == b[k].player_id
                && a[k].needs_full_sync == b[k].needs_full_sync && a[k].last_sync_at
                == b[k].last_sync_at && a[k].in_view@ == b[k].in_view@,
    ensures
        syncs_complete(m, b, w, now, thr),
{
    reveal(syncs_complete);
    assert forall|k: int| #![trigger b[k]] 0 <= k < b.len() && sync_owed(b[k], w, now, thr) implies exists|j: int|
        0 <= j < m.len() && #[trigger] m[j].player_id == b[k].player_id by {
        lemma_sync_same_fields(a[k], b[k], w, now, thr);
        assert(sync_owed(a[k], w, now, thr));
    }
}

/// The sessions `fs` as they stood just before their sync in a tick that
/// started from the sessions `os`.
pub open spec fn pre_sync(fs: Seq<Session>, os: Seq<Session>) -> Seq<Session> {
    Seq::new(fs.len(), |k: int| prepared(session_of(os, fs[k].player_id)))
}

/// The sessions a tick syncs are, field for field that `sync` reads, the
/// sessions it started from once welcomed.
proof fn lemma_pre_sync_fields(
    fs: Seq<Session>,
    welcomed: Seq<Session>,
    s1: Seq<Session>,
    os: Seq<Session>,
)
    requires
        sessions_unique(os),
        fs.len() == welcomed.len(),
        welcomed.len() == s1.len(),
        forall|k: int| 0 <= k < s1.len() ==> os.contains(#[trigger] s1[k]),
        forall|k: int|
            0 <= k < fs.len() ==> (#[trigger] fs[k]).player_id == welcomed[k].player_id,
        forall|k: int|
            0 <= k < welcomed.len() ==> {
                let s = #[trigger] welcomed[k];
                let s0 = s1[k];
                &&& s.player_id == s0.player_id
                &&& s.last_sync_at == s0.last_sync_at
                &&& s.in_view@ == s0.in_view@
                &&& s.needs_full_sync == (s0.needs_full_sync || s0.state
                    == SessionState::Connecting)
            },
    ensures
        forall|k: int|
            0 <= k < welcomed.len() ==> (#[trigger] welcomed[k]).player_id == pre_sync(fs, os)[k].player_id
                && welcomed[k].needs_full_sync == pre_sync(fs, os)[k].needs_full_sync
                && welcomed[k].last_sync_at == pre_sync(fs, os)[k].last_sync_at
                && welcomed[k].in_view@ == pre_sync(fs, os)[k].in_view@,
        pre_sync(fs, os).len() == welcomed.len(),
{
    assert forall|k: int| 0 <= k < welcomed.len() implies (#[trigger] welcomed[k]).player_id
        == pre_sync(fs, os)[k].player_id && welcomed[k].needs_full_sync == pre_sync(
        fs,
        os,
    )[k].needs_full_sync && welcomed[k].last_sync_at == pre_sync(fs, os)[k].last_sync_at
        && welcomed[k].in_view@ == pre_sync(fs, os)[k].in_view@ by {
        let pid = fs[k].player_id;
        assert(os.contains(s1[k]));
        let j = choose|j: int| 0 <= j < os.len() && os[j] == s1[k];
        assert(os[j].player_id == pid);
        let c = choose|c: int| 0 <= c < os.len() && os[c].player_id == pid;
        assert(c == j);
        assert(session_of(os, pid) == s1[k]);
    }
}

/// One more session synced: `syncs_exact` over the first `i` sessions
/// extends to the first `i + 1`.
proof fn lemma_syncs_exact_step(
    before: Seq<Outbound>,
    after: Seq<Outbound>,
    s: Seq<Session>,
    i: int,
    w: Seq<Entity>,
    now: u64,
    thr: u64,
)
    requires
        0 <= i < s.len(),
        sessions_unique(s),
        syncs_exact(before, s.take(i), w, now, thr),
        after.len() == before.len() || after.len() == before.len() + 1,
        forall|j: int| 0 <= j < before.len() ==> after[j] == before[j],
        after.len() == before.len() + 1 <==> sync_owed(s[i], w, now, thr),
        after.len() == before.len() + 1 ==> after.last().player_id == s[i].player_id && sync_exact(
            after.last().message,
            s[i],
            w,
            now,
            thr,
        ),
    ensures
        syncs_exact(after, s.take(i + 1), w, now, thr),
{
    reveal(syncs_sound);
    reveal(syncs_complete);
    let t = s.take(i);
    let t1 = s.take(i + 1);
    assert forall|j: int| 0 <= j < after.len() implies #[trigger] sound_at(after, t1, j, w, now, thr) by {
        if j < before.len() {
            assert(after[j] == before[j]);
            assert(sound_at(before, t, j, w, now, thr));
            let k = choose|k: int|
                0 <= k < t.len() && #[trigger] t[k].player_id == before[j].player_id
                    && sync_exact(before[j].message, t[k], w, now, thr);
            assert(t1[k] == t[k]);
            assert(t1[k].player_id == after[j].player_id);
        } else {
            assert(t1[i] == s[i]);
            assert(t1[i].player_id == after[j].player_id);
        }
    }
    assert forall|k: int| #![trigger t1[k]] 0 <= k < t1.len() && sync_owed(t1[k], w, now, thr) implies exists|j: int|
        0 <= j < after.len() && #[trigger] after[j].player_id == t1[k].player_id by {
        if k < i {
            assert(t1[k] == t[k]);
            let j = choose|j: int| 0 <= j < before.len() && #[trigger] before[j].player_id == t[k].player_id;
            assert(after[j] == before[j]);
        } else {
            assert(t1[k] == s[i]);
            assert(after[after.len() - 1].player_id == s[i].player_id);
        }
    }
}

/// Messages that go to connecting sessions of `s1` go to connecting
/// sessions of any `s` that holds every session of `s1`.
proof fn lemma_from_connecting_widen(m: Seq<Outbound>, s1: Seq<Session>, s: Seq<Session>)
    requires
        from_connecting(m, s1),
        forall|k: int| 0 <= k < s1.len() ==> s.contains(#[trigger] s1[k]),
    ensures
        from_connecting(m, s),
{
    reveal(from_connecting);
    assert forall|j: int| #![trigger m[j]] 0 <= j < m.len() implies exists|k: int|
        0 <= k < s.len() && (#[trigger] s[k]).state == SessionState::Connecting && m[j].player_id
            == s[k].player_id by {
        let k = choose|k: int|
            0 <= k < s1.len() && s1[k].state == SessionState::Connecting && m[j].player_id
                == s1[k].player_id;
        assert(s.contains(s1[k]));
        let k1 = choose|k1: int| 0 <= k1 < s.len() && s[k1] == s1[k];
        assert(s[k1].state == SessionState::Connecting);
    }
}

impl Server {
    /// Drops every closed or silent session with its entity; returns their
    /// client keys.
    #[verifier::spinoff_prover]
    fn reap(&mut self, now: u64) -> (closed: Vec<u64>)
        requires
            old(self).wf(),
            old(self).clock == now,
        ensures
            final(self).wf(),
            final(self).config == old(self).config,
            final(self).clock == now,
            forall|k: int|
                0 <= k < final(self).sessions@.len() ==> {
                    let s = #[trigger] final(self).sessions@[k];
                    s.state != SessionState::Closed && !(now - s.last_heartbeat_at
                        > final(self).config.heartbeat_timeout_ms)
                },
            forall|k: int|
                0 <= k < final(self).world.entities@.len() ==> old(self).world.entities@.contains(
                    #[trigger] final(self).world.entities@[k],
                ),
            forall|id: u32|
                has_id(final(self).world.entities@, id) ==> final(self).mailbox.pending(id) == old(
                    self,
                ).mailbox.pending(id),
            forall|k: int|
                0 <= k < final(self).sessions@.len() ==> old(self).sessions@.contains(
                    #[trigger] final(self).sessions@[k],
                ),
            forall|j: int|
                0 <= j < old(self).sessions@.len() && alive(
                    #[trigger] old(self).sessions@[j],
                    now,
                    old(self).config.heartbeat_timeout_ms,
                ) ==> has_session(final(self).sessions@, old(self).sessions@[j].player_id),
            forall|key: u64|
                closed@.contains(key) <==> reaped_key(
                    old(self).sessions@,
                    key,
                    now,
                    old(self).config.heartbeat_timeout_ms,
                ),
            forall|x: u32|
                has_id(old(self).world.entities@, x) && (has_session(final(self).sessions@, x)
                    || !has_session(old(self).sessions@, x)) ==> has_id(final(self).world.entities@, x),
    {
        let mut closed: Vec<u64> = Vec::new();
        let mut i: usize = 0;
        while i < self.sessions.len()
            invariant
                self.wf(),
                old(self).wf(),
                self.config == old(self).config,
                self.clock == now,
                i <= self.sessions@.len(),
                forall|k: int|
                    0 <= k < i ==> {
                        let s = #[trigger] self.sessions@[k];
                        s.state != SessionState::Closed && !(now - s.last_heartbeat_at
                            > self.config.heartbeat_timeout_ms)
                    },
                forall|k: int|
                    0 <= k < self.world.entities@.len() ==> old(self).world.entities@.contains(
                        #[trigger] self.world.entities@[k],
                    ),
                forall|id: u32|
                    has_id(self.world.entities@, id) ==> self.mailbox.pending(id) == old(
                        self,
                    ).mailbox.pending(id),
                forall|k: int|
                    0 <= k < self.sessions@.len() ==> old(self).sessions@.contains(
                        #[trigger] self.sessions@[k],
                    ),
                forall|j: int|
                    0 <= j < old(self).sessions@.len() && alive(
                        #[trigger] old(self).sessions@[j],
                        now,
                        old(self).config.heartbeat_timeout_ms,
                    ) ==> has_session(self.sessions@, old(self).sessions@[j].player_id),
                forall|key: u64|
                    closed@.contains(key) <==> exists|j: int|
                        0 <= j < old(self).sessions@.len() && (#[trigger] old(
                            self,
                        ).sessions@[j]).client_key == key && !alive(
                            old(self).sessions@[j],
                            now,
                            old(self).config.heartbeat_timeout_ms,
                        ) && !has_session(self.sessions@, old(self).sessions@[j].player_id),
                forall|x: u32|
                    has_id(old(self).world.entities@, x) && (has_session(self.sessions@, x)
                        || !has_session(old(self).sessions@, x)) ==> has_id(self.world.entities@, x),
            decreases self.sessions@.len() - i,
        {
            proof {
                assert(session_ok(self.sessions@[i as int], self.clock));
            }
            let dead = self.sessions[i].state == SessionState::Closed || self.sessions[i].timed_out(
                now,
                self.config.heartbeat_timeout_ms,
            );
            if dead {
                let ghost closed_before = closed@;
                closed.push(self.sessions[i].client_key);
                let ghost before = self.sessions@;
                let ghost wb = self.world.entities@;
                let ghost mb = self.mailbox;
                let ghost pid = before[i as int].player_id;
                self.remove_session_at(i);
                proof {
                    assert forall|k: int| 0 <= k < i implies self.sessions@[k] == before[k] by {}
                    let timeout = old(self).config.heartbeat_timeout_ms;
                    let os = old(self).sessions@;
                    assert(os.contains(before[i as int]));
                    assert forall|x: u32|
                        has_id(old(self).world.entities@, x) && (has_session(self.sessions@, x)
                            || !has_session(os, x)) implies has_id(self.world.entities@, x) by {
                        if x == pid {
                            let j1 = choose|j1: int| 0 <= j1 < os.len() && os[j1] == before[i as int];
                            assert(os[j1].player_id == pid);
                        } else {
                            if has_session(self.sessions@, x) {
                                assert(has_session(before, x));
                            }
                        }
                    }
                    let j0 = choose|j0: int| 0 <= j0 < os.len() && os[j0] == before[i as int];
                    assert forall|key: u64|
                        closed@.contains(key) <==> exists|j: int|
                            0 <= j < os.len() && (#[trigger] os[j]).client_key == key && !alive(
                                os[j],
                                now,
                                timeout,
                            ) && !has_session(self.sessions@, os[j].player_id) by {
                        if closed@.contains(key) {
                            let m = choose|m: int| 0 <= m < closed@.len() && closed@[m] == key;
                            if m < closed_before.len() {
                                assert(closed_before[m] == key);
                                assert(closed_before.contains(key));
                                let j = choose|j: int|
                                    0 <= j < os.len() && (#[trigger] os[j]).client_key == key
                                        && !alive(os[j], now, timeout) && !has_session(
                                        before,
                                        os[j].player_id,
                                    );
                                assert(os[j].player_id != pid);
                            } else {
                                assert(key == before[i as int].client_key);
                                assert(os[j0].client_key == key);
                            }
                        }
                        if exists|j: int|
                            0 <= j < os.len() && (#[trigger] os[j]).client_key == key && !alive(
                                os[j],
                                now,
                                timeout,
                            ) && !has_session(self.sessions@, os[j].player_id) {
                            let j = choose|j: int|
                                0 <= j < os.len() && (#[trigger] os[j]).client_key == key && !alive(
                                    os[j],
                                    now,
                                    timeout,
                                ) && !has_session(self.sessions@, os[j].player_id);
                            if os[j].player_id == pid {
                                assert(j == j0);
                                assert(closed@.last() == key);
                            } else {
                                assert(!has_session(before, os[j].player_id));
                                assert(closed_before.contains(key));
                                let m = choose|m: int|
                                    0 <= m < closed_before.len() && closed_before[m] == key;
                                assert(closed@[m] == key);
                            }
                        }
                    }
                    assert forall|j: int|
                        0 <= j < old(self).sessions@.len() && alive(
                            #[trigger] old(self).sessions@[j],
                            now,
                            old(self).config.heartbeat_timeout_ms,
                        ) implies has_session(self.sessions@, old(self).sessions@[j].player_id) by {
                        let sj = old(self).sessions@[j];
                        assert(has_session(before, sj.player_id));
                        if sj.player_id == pid {
                            assert(old(self).sessions@.contains(before[i as int]));
                            let j0 = choose|j0: int|
                                0 <= j0 < old(self).sessions@.len() && old(self).sessions@[j0]
                                    == before[i as int];
                            assert(j0 == j);
                            assert(!alive(before[i as int], now, old(self).config.heartbeat_timeout_ms));
                            assert(false);
                        }
                    }
                    assert forall|k: int| 0 <= k < self.sessions@.len() implies old(
                        self,
                    ).sessions@.contains(#[trigger] self.sessions@[k]) by {
                        assert(before.contains(self.sessions@[k]));
                        let j = choose|j: int| 0 <= j < before.len() && before[j] == self.sessions@[k];
                        assert(old(self).sessions@.contains(before[j]));
                    }
                    assert forall|k: int| 0 <= k < self.world.entities@.len() implies old(
                        self,
                    ).world.entities@.contains(#[trigger] self.world.entities@[k]) by {
                        assert(wb.contains(self.world.entities@[k]));
                        let j = choose|j: int| 0 <= j < wb.len() && wb[j] == self.world.entities@[k];
                        assert(old(self).world.entities@.contains(wb[j]));
                    }
                    assert forall|id: u32| has_id(self.world.entities@, id) implies self.mailbox.pending(
                        id,
                    ) == old(self).mailbox.pending(id) by {
                        let k = choose|k: int|
                            0 <= k < self.world.entities@.len() && self.world.entities@[k].network_id
                                == id;
                        assert(wb.contains(self.world.entities@[k]));
                        let j = choose|j: int| 0 <= j < wb.len() && wb[j] == self.world.entities@[k];
                        assert(has_id(wb, id));
                        assert(id != pid);
                    }
                }
            } else {
                i = i + 1;
            }
        }
        proof {
            let timeout = old(self).config.heartbeat_timeout_ms;
            let os = old(self).sessions@;
            assert forall|key: u64|
                closed@.contains(key) <==> reaped_key(os, key, now, timeout) by {
                if reaped_key(os, key, now, timeout) {
                    let j = choose|j: int|
                        0 <= j < os.len() && (#[trigger] os[j]).client_key == key && !alive(
                            os[j],
                            now,
                            timeout,
                        );
                    if has_session(self.sessions@, os[j].player_id) {
                        let k = choose|k: int|
                            0 <= k < self.sessions@.len() && self.sessions@[k].player_id
                                == os[j].player_id;
                        assert(os.contains(self.sessions@[k]));
                        let j1 = choose|j1: int| 0 <= j1 < os.len() && os[j1] == self.sessions@[k];
                        assert(j1 == j);
                        assert(false);
                    }
                }
            }
        }
        closed
    }

    /// Welcomes every session still connecting, in session order.
    #[verifier::spinoff_prover]
    #[verifier::rlimit(60)]
    fn welcome_all(&mut self) -> (out: Vec<Outbound>)
        requires
            old(self).wf(),
            forall|k: int|
                0 <= k < old(self).sessions@.len() ==> (#[trigger] old(self).sessions@[k]).state
                    != SessionState::Closed,
        ensures
            final(self).wf(),
            final(self).config == old(self).config,
            final(self).clock == old(self).clock,
            final(self).world == old(self).world,
            final(self).mailbox == old(self).mailbox,
            final(self).sessions@.len() == old(self).sessions@.len(),
            forall|k: int|
                0 <= k < final(self).sessions@.len() ==> {
                    let s = #[trigger] final(self).sessions@[k];
                    let s0 = old(self).sessions@[k];
                    &&& s.state == SessionState::Active
                    &&& s.welcomed
                    &&& s.player_id == s0.player_id
                    &&& s.client_key == s0.client_key
                    &&& s.last_heartbeat_at == s0.last_heartbeat_at
                    &&& s.last_sync_at == s0.last_sync_at
                    &&& s.in_view@ == s0.in_view@
                    &&& s.needs_full_sync == (s0.needs_full_sync || s0.state
                        == SessionState::Connecting)
                },
            forall|j: int|
                0 <= j < out@.len() ==> welcome_of(
                    (#[trigger] out@[j]).player_id,
                    out@[j].message,
                ),
            forall|k: int|
                0 <= k < old(self).sessions@.len() && (#[trigger] old(self).sessions@[k]).state
                    == SessionState::Connecting ==> exists|j: int|
                    0 <= j < out@.len() && (#[trigger] out@[j]).player_id == old(
                        self,
                    ).sessions@[k].player_id,            from_connecting(out@, old(self).sessions@),
            players_distinct(out@),
    {
        let mut out: Vec<Outbound> = Vec::new();
        let n = self.sessions.len();
        proof {
            reveal(from_connecting);
            reveal(players_distinct);
        }
        let mut i: usize = 0;
        while i < n
            invariant
                self.wf(),
                n == self.sessions@.len(),
                n == old(self).sessions@.len(),
                i <= n,
                self.config == old(self).config,
                self.clock == old(self).clock,
                self.world == old(self).world,
                self.mailbox == old(self).mailbox,
                forall|k: int|
                    0 <= k < old(self).sessions@.len() ==> (#[trigger] old(self).sessions@[k]).state
                        != SessionState::Closed,
                forall|k: int| i <= k < n ==> #[trigger] self.sessions@[k] == old(self).sessions@[k],
                forall|k: int|
                    0 <= k < i ==> {
                        let s = #[trigger] self.sessions@[k];
                        let s0 = old(self).sessions@[k];
                        &&& s.state == SessionState::Active
                        &&& s.welcomed
                        &&& s.player_id == s0.player_id
                        &&& s.client_key == s0.client_key
                        &&& s.last_heartbeat_at == s0.last_heartbeat_at
                        &&& s.last_sync_at == s0.last_sync_at
                        &&& s.in_view@ == s0.in_view@
                        &&& s.needs_full_sync == (s0.needs_full_sync || s0.state
                            == SessionState::Connecting)
                    },
                forall|j: int|
                    0 <= j < out@.len() ==> welcome_of(
                        (#[trigger] out@[j]).player_id,
                        out@[j].message,
                    ),
                forall|k: int|
                    0 <= k < i && (#[trigger] old(self).sessions@[k]).state
                        == SessionState::Connecting ==> exists|j: int|
                        0 <= j < out@.len() && (#[trigger] out@[j]).player_id == old(
                            self,
                        ).sessions@[k].player_id,
                old(self).wf(),
                from_connecting(out@, old(self).sessions@.take(i as int)),
                players_distinct(out@),
            decreases n - i,
        {
            let ghost before = self.sessions@;
            let ghost out_before = out@;
            proof {
                assert(session_ok(before[i as int], self.clock));
                assert(before[i as int] == old(self).sessions@[i as int]);
            }
            let pid = self.sessions[i].player_id;
            let key = self.sessions[i].client_key;
            let m = self.sessions[i].activate();
            let ghost sent_welcome = m is Some;
            proof {
                let after = self.sessions@;
                lemma_sessions_same_players(before, after);
                assert forall|k: int| 0 <= k < after.len() implies session_ok(
                    #[trigger] after[k],
                    self.clock,
                ) by {
                    assert(session_ok(before[k], self.clock));
                }
            }
            match m {
                Some(msg) => {
                    out.push(Outbound { player_id: pid, client_key: key, message: msg });
                    proof {
                        assert(out@[out@.len() - 1].player_id == pid);
                        reveal(players_distinct);
                        reveal(from_connecting);
                        let os = old(self).sessions@;
                        assert forall|j: int| 0 <= j < out@.len() - 1 implies out@[j].player_id
                            != pid by {
                            assert(out@[j] == out_before[j]);
                            let k = choose|k: int|
                                0 <= k < os.take(i as int).len() && os.take(i as int)[k].state
                                    == SessionState::Connecting && out_before[j].player_id
                                    == os.take(i as int)[k].player_id;
                            assert(os[k].player_id != os[i as int].player_id);
                        }
                        assert forall|j: int| #![trigger out@[j]] 0 <= j < out@.len() implies exists|k: int|
                            0 <= k < os.take(i + 1).len() && (#[trigger] os.take(i + 1)[k]).state
                                == SessionState::Connecting && out@[j].player_id
                                == os.take(i + 1)[k].player_id by {
                            if j < out@.len() - 1 {
                                assert(out@[j] == out_before[j]);
                                let k = choose|k: int|
                                    0 <= k < os.take(i as int).len() && os.take(i as int)[k].state
                                        == SessionState::Connecting && out_before[j].player_id
                                        == os.take(i as int)[k].player_id;
                                assert(os.take(i + 1)[k] == os[k]);
                            } else {
                                assert(os.take(i + 1)[i as int] == os[i as int]);
                            }
                        }
                    }
                },
                None => {},
            }
            proof {
                if !sent_welcome {
                    reveal(from_connecting);
                    let os = old(self).sessions@;
                    assert forall|j: int| #![trigger out@[j]] 0 <= j < out@.len() implies exists|k: int|
                        0 <= k < os.take(i + 1).len() && (#[trigger] os.take(i + 1)[k]).state
                            == SessionState::Connecting && out@[j].player_id
                            == os.take(i + 1)[k].player_id by {
                        let k = choose|k: int|
                            0 <= k < os.take(i as int).len() && os.take(i as int)[k].state
                                == SessionState::Connecting && out@[j].player_id == os.take(
                                i as int,
                            )[k].player_id;
                        assert(os.take(i + 1)[k] == os[k]);
                    }
                }
            }
            proof {
                assert forall|k: int|
                    0 <= k < i + 1 && (#[trigger] old(self).sessions@[k]).state
                        == SessionState::Connecting implies exists|j: int|
                    0 <= j < out@.len() && (#[trigger] out@[j]).player_id == old(
                        self,
                    ).sessions@[k].player_id by {
                    if k < i {
                        let j = choose|j: int|
                            0 <= j < out_before.len() && out_before[j].player_id == old(
                                self,
                            ).sessions@[k].player_id;
                        assert(out@[j] == out_before[j]);
                    } else {
                        assert(out@[out@.len() - 1].player_id == pid);
                    }
                }
            }
            i = i + 1;
        }
        proof {
            assert(old(self).sessions@.take(n as int) =~= old(self).sessions@);
        }
        out
    }

    /// Drains the mailbox into the desired velocity of each agent it holds a
    /// command for; returns the players whose move direction was too long.
    #[verifier::spinoff_prover]
    fn apply_inputs(&mut self) -> (suspicious: Vec<u32>)
        requires
            old(self).wf(),
        ensures
            final(self).wf(),
            final(self).config == old(self).config,
            final(self).clock == old(self).clock,
            final(self).sessions == old(self).sessions,
            final(self).world.entities@.len() == old(self).world.entities@.len(),
            forall|k: int|
                0 <= k < final(self).world.entities@.len() ==> #[trigger] final(self).world.entities@[k]
                    == with_input(
                    old(self).world.entities@[k],
                    old(self).mailbox.pending(old(self).world.entities@[k].network_id),
                ),
            forall|id: u32|
                suspicious@.contains(id) <==> has_agent(old(self).world.entities@, id)
                    && over_long_move(old(self).mailbox.pending(id)),
    {
        let mut suspicious: Vec<u32> = Vec::new();
        let n = self.world.entities.len();
        let mut i: usize = 0;
        while i < n
            invariant
                self.wf(),
                old(self).wf(),
                n == self.world.entities@.len(),
                n == old(self).world.entities@.len(),
                i <= n,
                self.config == old(self).config,
                self.clock == old(self).clock,
                self.sessions == old(self).sessions,
                forall|k: int|
                    i <= k < n ==> #[trigger] self.world.entities@[k] == old(
                        self,
                    ).world.entities@[k],
                forall|k: int|
                    i <= k < n ==> self.mailbox.pending(old(self).world.entities@[k].network_id)
                        == old(self).mailbox.pending(old(self).world.entities@[k].network_id),
                forall|k: int|
                    0 <= k < i ==> #[trigger] self.world.entities@[k] == with_input(
                        old(self).world.entities@[k],
                        old(self).mailbox.pending(old(self).world.entities@[k].network_id),
                    ),
                forall|id: u32|
                    suspicious@.contains(id) <==> has_agent(old(self).world.entities@.take(i as int), id)
                        && over_long_move(old(self).mailbox.pending(id)),
            decreases n - i,
        {
            let ghost before = self.world.entities@;
            let ghost mb = self.mailbox;
            let ghost sus_before = suspicious@;
            proof {
                assert(before[i as int].wf(self.world.config));
                assert(ids_unique(old(self).world.entities@));
            }
            let id = self.world.entities[i].network_id;
            match self.world.entities[i].profile {
                Some(p) => {
                    let taken = self.mailbox.take(id);
                    match taken {
                        Some(cmd) => {
                            proof {
                                assert(mb.wf());
                                let j = choose|j: int|
                                    0 <= j < mb.slots@.len() && mb.slots@[j].player_id == id;
                                assert(mb.slots@[j].command.wf());
                            }
                            match cmd {
                                InputCommand::Move { direction } => {
                                    if is_over_magnitude(direction) {
                                        suspicious.push(id);
                                    }
                                },
                                InputCommand::Stop => {},
                            }
                            let d = command_desired_velocity(&cmd, p.max_speed);
                            proof {
                                lemma_norm_bounds_components(d, p.max_speed as int);
                            }
                            self.world.entities[i].desired_velocity = d;
                        },
                        None => {},
                    }
                    proof {
                        assert forall|k: int| i < k < n implies self.mailbox.pending(
                            old(self).world.entities@[k].network_id,
                        ) == old(self).mailbox.pending(old(self).world.entities@[k].network_id) by {
                            assert(old(self).world.entities@[k].network_id != old(
                                self,
                            ).world.entities@[i as int].network_id);
                        }
                    }
                },
                None => {},
            }
            proof {
                let w0 = old(self).world.entities@;
                let t = w0.take(i as int);
                let t1 = w0.take(i as int + 1);
                let e0 = w0[i as int];
                assert(t1[i as int] == e0);
                assert(before[i as int] == e0);
                assert forall|id: u32|
                    suspicious@.contains(id) <==> has_agent(t1, id) && over_long_move(
                        old(self).mailbox.pending(id),
                    ) by {
                    if has_agent(t, id) {
                        let k = choose|k: int|
                            0 <= k < t.len() && t[k].network_id == id && t[k].profile is Some;
                        assert(t1[k] == t[k]);
                    }
                    if has_agent(t1, id) && !has_agent(t, id) {
                        let k = choose|k: int|
                            0 <= k < t1.len() && t1[k].network_id == id && t1[k].profile is Some;
                        if k < i {
                            assert(t[k] == t1[k]);
                        }
                        assert(k == i);
                    }
                    if has_agent(t1, id) {
                        let k = choose|k: int|
                            0 <= k < t1.len() && t1[k].network_id == id && t1[k].profile is Some;
                        if k < i {
                            assert(t[k] == t1[k]);
                            assert(has_agent(t, id));
                        }
                    }
                    if suspicious@.contains(id) && !sus_before.contains(id) {
                        let j = choose|j: int| 0 <= j < suspicious@.len() && suspicious@[j] == id;
                        if j < sus_before.len() {
                            assert(sus_before[j] == suspicious@[j]);
                        }
                        assert(id == e0.network_id);
                    }
                    if sus_before.contains(id) {
                        let j = choose|j: int| 0 <= j < sus_before.len() && sus_before[j] == id;
                        assert(suspicious@[j] == id);
                    }
                    if has_agent(t1, id) && over_long_move(old(self).mailbox.pending(id))
                        && !has_agent(t, id) {
                        assert(id == e0.network_id);
                        assert(suspicious@.last() == id);
                    }
                }
                let after = self.world.entities@;
                crate::world::lemma_same_ids(before, after);
                assert forall|k: int| 0 <= k < after.len() implies #[trigger] after[k].wf(
                    self.world.config,
                ) by {
                    assert(before[k].wf(self.world.config));
                }
            }
            i = i + 1;
        }
        proof {
            assert(old(self).world.entities@.take(n as int) =~= old(self).world.entities@);
        }
        suspicious
    }

    /// Syncs every session against the world, in session order.
    #[verifier::spinoff_prover]
    fn sync_all(&mut self, now: u64) -> (out: Vec<Outbound>)
        requires
            old(self).wf(),
            old(self).clock == now,
        ensures
            final(self).wf(),
            final(self).config == old(self).config,
            final(self).clock == now,
            final(self).world == old(self).world,
            final(self).mailbox == old(self).mailbox,
            final(self).sessions@.len() == old(self).sessions@.len(),
            forall|k: int|
                0 <= k < final(self).sessions@.len() ==> {
                    let s = #[trigger] final(self).sessions@[k];
                    let s0 = old(self).sessions@[k];
                    &&& s.player_id == s0.player_id
                    &&& s.state == s0.state
                    &&& s.welcomed == s0.welcomed
                    &&& s.in_view@.to_set() == view_of(final(self).world.entities@, s.player_id)
                },
            forall|j: int|
                0 <= j < out@.len() ==> {
                    &&& (#[trigger] out@[j]).message.kind != MessageKind::Welcome
                    &&& exists|k: int|
                        0 <= k < final(self).sessions@.len() && agrees_with_view(
                            out@[j].message,
                            final(self).sessions@[k],
                        ) && out@[j].player_id == final(self).sessions@[k].player_id
                },
            syncs_exact(
                out@,
                old(self).sessions@,
                old(self).world.entities@,
                now,
                old(self).config.reconnect_threshold_ms,
            ),
    {
        let mut out: Vec<Outbound> = Vec::new();
        let n = self.sessions.len();
        proof {
            lemma_syncs_exact_empty(
                old(self).sessions@.take(0),
                old(self).world.entities@,
                now,
                old(self).config.reconnect_threshold_ms,
            );
        }
        let mut i: usize = 0;
        while i < n
            invariant
                self.wf(),
                n == self.sessions@.len(),
                n == old(self).sessions@.len(),
                i <= n,
                self.config == old(self).config,
                self.clock == now,
                self.world == old(self).world,
                self.mailbox == old(self).mailbox,
                forall|k: int| i <= k < n ==> #[trigger] self.sessions@[k] == old(self).sessions@[k],
                old(self).wf(),
                syncs_exact(
                    out@,
                    old(self).sessions@.take(i as int),
                    old(self).world.entities@,
                    now,
                    old(self).config.reconnect_threshold_ms,
                ),
                forall|k: int|
                    0 <= k < i ==> {
                        let s = #[trigger] self.sessions@[k];
                        let s0 = old(self).sessions@[k];
                        &&& s.player_id == s0.player_id
                        &&& s.state == s0.state
                        &&& s.welcomed == s0.welcomed
                        &&& s.in_view@.to_set() == view_of(self.world.entities@, s.player_id)
                    },
                forall|j: int|
                    0 <= j < out@.len() ==> {
                        &&& (#[trigger] out@[j]).message.kind != MessageKind::Welcome
                        &&& exists|k: int|
                            0 <= k < i && agrees_with_view(out@[j].message, self.sessions@[k])
                                && out@[j].player_id == self.sessions@[k].player_id
                    },
            decreases n - i,
        {
            let ghost before = self.sessions@;
            proof {
                assert(session_ok(before[i as int], self.clock));
            }
            let pid = self.sessions[i].player_id;
            let key = self.sessions[i].client_key;
            let ghost out_before = out@;
            let m = self.sessions[i].sync(&self.world, now, self.config.reconnect_threshold_ms);
            proof {
                let after = self.sessions@;
                lemma_sessions_same_players(before, after);
                assert forall|k: int| 0 <= k < after.len() implies session_ok(
                    #[trigger] after[k],
                    self.clock,
                ) by {
                    assert(session_ok(before[k], self.clock));
                }
                assert forall|j: int| #![trigger out@[j]] 0 <= j < out@.len() implies exists|k: int|
                    0 <= k < i + 1 && agrees_with_view((#[trigger] out@[j]).message, after[k])
                        && out@[j].player_id == after[k].player_id by {
                    let k = choose|k: int|
                        0 <= k < i && agrees_with_view(out@[j].message, before[k])
                            && out@[j].player_id == before[k].player_id;
                    assert(after[k] == before[k]);
                }
            }
            match m {
                Some(msg) => {
                    out.push(Outbound { player_id: pid, client_key: key, message: msg });
                    proof {
                        let j = out@.len() - 1;
                        assert(agrees_with_view(out@[j].message, self.sessions@[i as int]));
                    }
                },
                None => {},
            }
            proof {
                assert(before[i as int] == old(self).sessions@[i as int]);
                reveal(sync_owed);
                reveal(sync_exact);
                lemma_syncs_exact_step(
                    out_before,
                    out@,
                    old(self).sessions@,
                    i as int,
                    old(self).world.entities@,
                    now,
                    old(self).config.reconnect_threshold_ms,
                );
            }
            i = i + 1;
        }
        proof {
            assert(old(self).sessions@.take(n as int) =~= old(self).sessions@);
        }
        out
    }

    /// One tick at `now`: reaps closed and silent sessions, welcomes the
    /// new ones, applies pending input, steps the world, detects changes
    /// and syncs every session. The messages come welcomes first, then one
    /// sync at most per session.
    #[verifier::spinoff_prover]
    #[verifier::rlimit(80)]
    pub fn tick(&mut self, now: u64) -> (r: Result<TickOutput, ServerError>)
        requires
            old(self).wf(),
        ensures
            final(self).wf(),
            final(self).config == old(self).config,
            r is Err <==> now < old(self).clock,
            r is Err ==> r == Err::<TickOutput, ServerError>(ServerError::ClockWentBack),
            r is Err ==> *final(self) == *old(self),
            r is Ok ==> final(self).clock == now,
            r is Ok ==> forall|k: int|
                0 <= k < final(self).world.entities@.len() ==> advanced_from(
                    #[trigger] final(self).world.entities@[k],
                    old(self).world.entities@,
                    old(self).mailbox,
                    old(self).config.sim,
                ),
            r is Ok ==> forall|k: int|
                0 <= k < final(self).sessions@.len() ==> {
                    let s = #[trigger] final(self).sessions@[k];
                    &&& s.state == SessionState::Active
                    &&& s.welcomed
                    &&& s.in_view@.to_set() == view_of(final(self).world.entities@, s.player_id)
                },
            r is Ok ==> forall|j: int|
                0 <= j < old(self).sessions@.len() && alive(
                    #[trigger] old(self).sessions@[j],
                    now,
                    old(self).config.heartbeat_timeout_ms,
                ) ==> has_session(final(self).sessions@, old(self).sessions@[j].player_id),
            r matches Ok(out) ==> forall|k: int|
                0 <= k < old(self).sessions@.len() && (#[trigger] old(self).sessions@[k]).state
                    == SessionState::Connecting && has_session(
                    final(self).sessions@,
                    old(self).sessions@[k].player_id,
                ) ==> exists|j: int|
                    0 <= j < out.messages@.len() && (#[trigger] out.messages@[j]).player_id == old(
                        self,
                    ).sessions@[k].player_id && out.messages@[j].message.kind
                        == MessageKind::Welcome,
            r matches Ok(out) ==> forall|key: u64|
                out.closed@.contains(key) <==> reaped_key(
                    old(self).sessions@,
                    key,
                    now,
                    old(self).config.heartbeat_timeout_ms,
                ),
            r matches Ok(out) ==> forall|id: u32|
                out.suspicious@.contains(id) <==> has_agent(final(self).world.entities@, id)
                    && over_long_move(old(self).mailbox.pending(id)),
            r matches Ok(out) ==> exists|w: int|
                #[trigger] welcomes_then_syncs(out.messages@, w, final(self).sessions@)
                    && from_connecting(out.messages@.take(w), old(self).sessions@)
                    && players_distinct(out.messages@.take(w)) && syncs_exact(
                    out.messages@.skip(w),
                    pre_sync(final(self).sessions@, old(self).sessions@),
                    final(self).world.entities@,
                    now,
                    old(self).config.reconnect_threshold_ms,
                ),
            r is Ok ==> forall|x: u32|
                has_id(old(self).world.entities@, x) && (has_session(final(self).sessions@, x)
                    || !has_session(old(self).sessions@, x)) ==> has_id(final(self).world.entities@, x),
    {
        if now < self.clock {
            return Err(ServerError::ClockWentBack);
        }
        self.clock = now;
        proof {
            assert forall|k: int| 0 <= k < self.sessions@.len() implies session_ok(
                #[trigger] self.sessions@[k],
                now,
            ) by {
                assert(session_ok(self.sessions@[k], old(self).clock));
            }
        }
        let closed = self.reap(now);
        let ghost w1 = self.world.entities@;
        let ghost mb1 = self.mailbox;
        let ghost s1 = self.sessions@;
        let mut messages = self.welcome_all();
        let ghost wm = messages@;
        let suspicious = self.apply_inputs();
        let ghost w2 = self.world.entities@;
        self.world.step();
        let ghost w3 = self.world.entities@;
        self.world.detect_changes();
        proof {
            let cfg = self.config.sim;
            let w4 = self.world.entities@;
            assert forall|id: u32|
                suspicious@.contains(id) <==> has_agent(w4, id) && over_long_move(
                    old(self).mailbox.pending(id),
                ) by {
                assert(suspicious@.contains(id) <==> has_agent(w1, id) && over_long_move(
                    mb1.pending(id),
                ));
                if has_agent(w1, id) {
                    let k = choose|k: int|
                        0 <= k < w1.len() && w1[k].network_id == id && w1[k].profile is Some;
                    assert(w2[k] == with_input(w1[k], mb1.pending(w1[k].network_id)));
                    assert(w3[k].profile == w2[k].profile && w3[k].network_id == w2[k].network_id);
                    assert(w4[k] == detected(w3[k]));
                    assert(has_id(w1, id));
                    assert(has_agent(w4, id));
                }
                if has_agent(w4, id) {
                    let k = choose|k: int|
                        0 <= k < w4.len() && w4[k].network_id == id && w4[k].profile is Some;
                    assert(w4[k] == detected(w3[k]));
                    assert(w3[k].profile == w2[k].profile && w3[k].network_id == w2[k].network_id);
                    assert(w2[k] == with_input(w1[k], mb1.pending(w1[k].network_id)));
                    assert(has_agent(w1, id));
                    assert(has_id(w1, id));
                }
            }
            assert forall|k: int| 0 <= k < w4.len() implies advanced_from(
                #[trigger] w4[k],
                old(self).world.entities@,
                old(self).mailbox,
                cfg,
            ) by {
                let e1 = w1[k];
                assert(old(self).world.entities@.contains(e1));
                assert(has_id(w1, e1.network_id));
                assert(mb1.pending(e1.network_id) == old(self).mailbox.pending(e1.network_id));
                assert(w2[k] == with_input(e1, mb1.pending(e1.network_id)));
                let e2 = w2[k];
                let (p, v) = motion_step(
                    e2.position,
                    e2.velocity,
                    e2.desired_velocity,
                    e2.profile,
                    cfg,
                );
                assert(w3[k] == Entity { position: p, velocity: v, ..e2 });
                assert(w4[k] == detected(w3[k]));
                assert(w4[k] == advanced(e1, old(self).mailbox.pending(e1.network_id), cfg));
            }
        }
        let ghost welcomed = self.sessions@;
        let ghost stepped = self.world;
        let syncs = self.sync_all(now);
        let ghost w = messages@.len() as int;
        let mut syncs = syncs;
        let ghost sy = syncs@;
        messages.append(&mut syncs);
        proof {
            let m = messages@;
            assert forall|j: int| w <= j < m.len() implies m[j] == sy[j - w] by {}
            assert forall|k: int| 0 <= k < self.sessions@.len() implies (#[trigger] self.sessions@[k]).state
                == SessionState::Active && self.sessions@[k].welcomed by {
                assert(welcomed[k].state == SessionState::Active);
            }
            assert forall|j: int| w <= j < m.len() implies {
                &&& (#[trigger] m[j]).message.kind != MessageKind::Welcome
                &&& exists|k: int|
                    0 <= k < self.sessions@.len() && agrees_with_view(m[j].message, self.sessions@[k])
                        && m[j].player_id == self.sessions@[k].player_id
            } by {
                assert(m[j] == sy[j - w]);
            }
            assert(welcomes_then_syncs(m, w, self.sessions@));
            let fs = self.sessions@;
            assert forall|j: int|
                0 <= j < old(self).sessions@.len() && alive(
                    #[trigger] old(self).sessions@[j],
                    now,
                    old(self).config.heartbeat_timeout_ms,
                ) implies has_session(fs, old(self).sessions@[j].player_id) by {
                let pid = old(self).sessions@[j].player_id;
                let idx = choose|idx: int| 0 <= idx < s1.len() && s1[idx].player_id == pid;
                assert(welcomed[idx].player_id == pid);
                assert(fs[idx].player_id == pid);
            }
            assert forall|k: int|
                0 <= k < old(self).sessions@.len() && (#[trigger] old(self).sessions@[k]).state
                    == SessionState::Connecting && has_session(
                    fs,
                    old(self).sessions@[k].player_id,
                ) implies exists|j: int|
                0 <= j < m.len() && (#[trigger] m[j]).player_id == old(self).sessions@[k].player_id
                    && m[j].message.kind == MessageKind::Welcome by {
                let pid = old(self).sessions@[k].player_id;
                let idx = choose|idx: int| 0 <= idx < fs.len() && fs[idx].player_id == pid;
                assert(welcomed[idx].player_id == pid);
                assert(s1[idx].player_id == pid);
                assert(old(self).sessions@.contains(s1[idx]));
                let j0 = choose|j0: int|
                    0 <= j0 < old(self).sessions@.len() && old(self).sessions@[j0] == s1[idx];
                assert(j0 == k);
                assert(s1[idx].state == SessionState::Connecting);
                let j = choose|j: int| 0 <= j < wm.len() && wm[j].player_id == s1[idx].player_id;
                assert(m[j] == wm[j]);
                assert(welcome_of(wm[j].player_id, wm[j].message));
            }
        }
        let out = TickOutput { messages, closed, suspicious };
        proof {
            assert(welcomes_then_syncs(out.messages@, w, self.sessions@));
            assert forall|k: int| 0 <= k < self.sessions@.len() implies {
                let s = #[trigger] self.sessions@[k];
                &&& s.state == SessionState::Active
                &&& s.welcomed
                &&& s.in_view@.to_set() == view_of(self.world.entities@, s.player_id)
            } by {
                assert(welcomed[k].state == SessionState::Active);
            }
        }
        proof {
            let os = old(self).sessions@;
            assert(out.messages@.take(w) =~= wm);
            lemma_from_connecting_widen(wm, s1, os);
            assert(out.messages@.skip(w) =~= sy);
            lemma_pre_sync_fields(self.sessions@, welcomed, s1, os);
            lemma_syncs_exact_same_fields(
                sy,
                welcomed,
                pre_sync(self.sessions@, os),
                self.world.entities@,
                now,
                self.config.reconnect_threshold_ms,
            );
            let fs = self.sessions@;
            let w4 = self.world.entities@;
            assert forall|x: u32|
                has_id(old(self).world.entities@, x) && (has_session(fs, x) || !has_session(
                    os,
                    x,
                )) implies has_id(w4, x) by {
                if has_session(fs, x) {
                    let k = choose|k: int| 0 <= k < fs.len() && fs[k].player_id == x;
                    assert(welcomed[k].player_id == x);
                    assert(s1[k].player_id == x);
                }
                assert(has_id(w1, x));
                let k = choose|k: int| 0 <= k < w1.len() && w1[k].network_id == x;
                assert(w2[k] == with_input(w1[k], mb1.pending(w1[k].network_id)));
                assert(w4[k] == detected(w3[k]));
            }
        }
        let r: Result<TickOutput, ServerError> = Ok(out);
        proof {
            assert(r->Ok_0.messages@ == out.messages@);
            assert(welcomes_then_syncs(r->Ok_0.messages@, w, self.sessions@));
        }
        r
    }
}

} // verus!
