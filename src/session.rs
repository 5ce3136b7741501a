//! Client sessions: their lifecycle, heartbeats, and the per-tick choice
//! between a full sync, a delta and silence.
use vstd::prelude::*;
use crate::replication::{
    contains_id, lemma_full_names_all, lemma_updates_visible, sees, update_ids, updates_for,
    EntityUpdate, Identity, NetworkMessage, MessageKind,
};
use crate::world::{ids_unique, Entity, World};

verus! {

/// Where a session is in its lifecycle.
#[derive(Clone, Copy, Debug, PartialEq, Eq, Structural)]
pub enum SessionState {
    /// Accepted; its player entity exists but it has not been welcomed.
    Connecting,
    /// Welcomed; it receives syncs every tick.
    Active,
    /// Its transport failed or closed; it is reaped at the next tick.
    Closed,
}

/// One connected client. Timestamps are milliseconds of a monotonic clock.
#[derive(Debug)]
pub struct Session {
    pub client_key: u64,
    pub player_id: u32,
    pub state: SessionState,
    pub connected_at: u64,
    pub last_sync_at: u64,
    pub last_heartbeat_at: u64,
    pub needs_full_sync: bool,
    pub in_view: Vec<u32>,
    pub welcomed: bool,
}

/// The network ids that the owner of `player_id` sees in `s`: none where it
/// has no entity, or its entity observes nothing.
pub open spec fn view_of(s: Seq<Entity>, player_id: u32) -> Set<u32> {
    if exists|i: int| 0 <= i < s.len() && s[i].network_id == player_id && s[i].view_radius is Some {
        let i = choose|i: int|
            0 <= i < s.len() && s[i].network_id == player_id && s[i].view_radius is Some;
        Set::new(|id: u32| sees(s, s[i].position, s[i].view_radius->0 as int, id))
    } else {
        Set::empty()
    }
}

/// Whether a session is owed a full sync at `now`, where `vis` is what
/// its owner sees now: it was flagged for one, it has not been synced for
/// longer than the reconnect threshold, or an entity entered its view.
pub open spec fn full_due(s: Session, vis: Set<u32>, now: u64, reconnect_threshold: u64) -> bool {
    ||| s.needs_full_sync
    ||| now - s.last_sync_at > reconnect_threshold
    ||| !vis.subset_of(s.in_view@.to_set())
}

/// The welcome a session receives once, right after its entity spawned.
pub open spec fn welcome_of(player_id: u32, m: NetworkMessage) -> bool {
    &&& m.kind == MessageKind::Welcome
    &&& m.player_id == player_id
    &&& m.updates@ == seq![
        EntityUpdate {
            network_id: player_id,
            position: None,
            velocity: None,
            health_current: None,
            health_max: None,
            identity: Some(Identity { player_id, network_id: player_id }),
        },
    ]
}

/// A sync message agrees with the view of the session it was sent to: a
/// full sync names exactly the entities in view, a delta only entities in
/// view.
pub open spec fn agrees_with_view(m: NetworkMessage, s: Session) -> bool {
    &&& m.player_id == s.player_id
    &&& (m.kind == MessageKind::FullSync ==> update_ids(m.updates@) == s.in_view@.to_set())
    &&& (m.kind == MessageKind::Delta ==> update_ids(m.updates@).subset_of(s.in_view@.to_set()))
}

impl Session {
    /// The lifecycle invariant: a connecting session has not been welcomed,
    /// an active one has.
    pub open spec fn wf(&self) -> bool {
        &&& (self.state == SessionState::Connecting ==> !self.welcomed)
        &&& (self.state == SessionState::Active ==> self.welcomed)
        &&& self.in_view@.no_duplicates()
    }

    /// A session just accepted at `now`.
    pub fn new(client_key: u64, player_id: u32, now: u64) -> (r: Session)
        ensures
            r.wf(),
            r.client_key == client_key,
            r.player_id == player_id,
            r.state == SessionState::Connecting,
            r.connected_at == now,
            r.last_sync_at == now,
            r.last_heartbeat_at == now,
            r.needs_full_sync,
            r.in_view@.len() == 0,
            !r.welcomed,
    {
        Session {
            client_key,
            player_id,
            state: SessionState::Connecting,
            connected_at: now,
            last_sync_at: now,
            last_heartbeat_at: now,
            needs_full_sync: true,
            in_view: Vec::new(),
            welcomed: false,
        }
    }

    /// The spawn of the session's entity completed: the session becomes
    /// active, is owed a full sync, and gets its welcome. A session that
    /// was welcomed already gets nothing.
    pub fn activate(&mut self) -> (r: Option<NetworkMessage>)
        requires
            old(self).wf(),
        ensures
            final(self).wf(),
            r is Some <==> old(self).state == SessionState::Connecting,
            r matches Some(m) ==> welcome_of(old(self).player_id, m),
            r is Some ==> final(self).state == SessionState::Active && final(self).needs_full_sync,
            r is None ==> final(self).state == old(self).state && final(self).needs_full_sync
                == old(self).needs_full_sync,
            r is Some ==> final(self).welcomed,
            r is None ==> final(self).welcomed == old(self).welcomed,
            final(self).player_id == old(self).player_id,
            final(self).client_key == old(self).client_key,
            final(self).last_sync_at == old(self).last_sync_at,
            final(self).last_heartbeat_at == old(self).last_heartbeat_at,
            final(self).in_view@ == old(self).in_view@,
            final(self).connected_at == old(self).connected_at,
    {
        if self.state != SessionState::Connecting {
            return None;
        }
        self.state = SessionState::Active;
        self.welcomed = true;
        self.needs_full_sync = true;
        let id = self.player_id;
        let mut updates: Vec<EntityUpdate> = Vec::new();
        updates.push(
            EntityUpdate {
                network_id: id,
                position: None,
                velocity: None,
                health_current: None,
                health_max: None,
                identity: Some(Identity { player_id: id, network_id: id }),
            },
        );
        Some(NetworkMessage { kind: MessageKind::Welcome, updates, player_id: id })
    }

    /// Records a heartbeat received at `now`.
    pub fn heartbeat(&mut self, now: u64)
        ensures
            *final(self) == (Session { last_heartbeat_at: now, ..*old(self) }),
            final(self).last_heartbeat_at == now,
            final(self).state == old(self).state,
            final(self).welcomed == old(self).welcomed,
            final(self).player_id == old(self).player_id,
            final(self).client_key == old(self).client_key,
            final(self).last_sync_at == old(self).last_sync_at,
            final(self).needs_full_sync == old(self).needs_full_sync,
            final(self).in_view@ == old(self).in_view@,
            final(self).connected_at == old(self).connected_at,
    {
        self.last_heartbeat_at = now;
    }

    /// Whether the session has been silent longer than `timeout` at `now`.
    pub fn timed_out(&self, now: u64, timeout: u64) -> (r: bool)
        ensures
            r == (now >= self.last_heartbeat_at && now - self.last_heartbeat_at > timeout),
    {
        now >= self.last_heartbeat_at && now - self.last_heartbeat_at > timeout
    }

    /// The message this session is owed at `now`, if any, with its view
    /// brought up to date: a full sync of everything in view when one is
    /// due; otherwise a delta naming newly visible entities in full and
    /// changed entities already in view with their changed attributes;
    /// otherwise nothing.
    pub fn sync(&mut self, world: &World, now: u64, reconnect_threshold: u64) -> (r: Option<NetworkMessage>)
        requires
            old(self).wf(),
            world.wf(),
            old(self).last_sync_at <= now,
        ensures
            final(self).wf(),
            r matches Some(m) ==> agrees_with_view(m, *final(self)),
            ({
                let vis = view_of(world.entities@, old(self).player_id);
                let full = full_due(*old(self), vis, now, reconnect_threshold);
                let ups = updates_for(world.entities@, vis, old(self).in_view@.to_set(), full);
                &&& final(self).in_view@.to_set() == vis
                &&& (r is Some <==> full || ups.len() > 0)
                &&& (r matches Some(m) ==> {
                    &&& m.kind == (if full {
                        MessageKind::FullSync
                    } else {
                        MessageKind::Delta
                    })
                    &&& m.updates@ == ups
                    &&& m.player_id == old(self).player_id
                })
            }),
            final(self).last_sync_at == (if r is Some {
                now
            } else {
                old(self).last_sync_at
            }),
            final(self).needs_full_sync == (r is None && old(self).needs_full_sync),
            final(self).state == old(self).state,
            final(self).welcomed == old(self).welcomed,
            final(self).player_id == old(self).player_id,
            final(self).client_key == old(self).client_key,
            final(self).last_heartbeat_at == old(self).last_heartbeat_at,
            final(self).connected_at == old(self).connected_at,
    {
        let ghost s = world.entities@;
        let ghost vis_set = view_of(s, self.player_id);
        let vis: Vec<u32> = match world.find(self.player_id) {
            Some(i) => {
                proof {
                    assert(s[i as int].wf(world.config));
                }
                match world.entities[i].view_radius {
                    Some(radius) => {
                        let v = world.visible_from(world.entities[i].position, radius);
                        proof {
                            let j = choose|j: int|
                                0 <= j < s.len() && s[j].network_id == self.player_id
                                    && s[j].view_radius is Some;
                            assert(ids_unique(s));
                            assert(j == i);
                            assert(v@.to_set() =~= vis_set);
                        }
                        v
                    },
                    None => {
                        proof {
                            assert forall|j: int|
                                0 <= j < s.len() && s[j].network_id == self.player_id implies !(
                                s[j].view_radius is Some) by {
                                assert(ids_unique(s));
                                assert(j == i);
                            }
                            assert(Seq::<u32>::empty().to_set() =~= vis_set);
                        }
                        Vec::new()
                    },
                }
            },
            None => {
                proof {
                    assert(Seq::<u32>::empty().to_set() =~= vis_set);
                }
                Vec::new()
            },
        };
        let mut entering = false;
        let mut j: usize = 0;
        while j < vis.len()
            invariant
                j <= vis@.len(),
                entering <==> exists|k: int| 0 <= k < j && !self.in_view@.contains(#[trigger] vis@[k]),
            decreases vis@.len() - j,
        {
            if !contains_id(&self.in_view, vis[j]) {
                entering = true;
            }
            j = j + 1;
        }
        proof {
            if entering {
                let k = choose|k: int| 0 <= k < j && !self.in_view@.contains(#[trigger] vis@[k]);
                assert(vis@.to_set().contains(vis@[k]));
            } else {
                assert forall|id: u32| vis_set.contains(id) implies self.in_view@.to_set().contains(
                    id,
                ) by {
                    assert(vis@.to_set().contains(id));
                    let k = choose|k: int| 0 <= k < vis@.len() && vis@[k] == id;
                }
            }
        }
        let full = self.needs_full_sync || now - self.last_sync_at > reconnect_threshold
            || entering;
        let ghost seen = self.in_view@.to_set();
        let mut ups: Vec<EntityUpdate> = Vec::new();
        let mut i: usize = 0;
        while i < world.entities.len()
            invariant
                i <= s.len(),
                s == world.entities@,
                vis@.to_set() == vis_set,
                seen == self.in_view@.to_set(),
                ups@ == updates_for(s.take(i as int), vis_set, seen, full),
            decreases s.len() - i,
        {
            proof {
                assert(s.take(i as int + 1).drop_last() =~= s.take(i as int));
                assert(s.take(i as int + 1).last() == s[i as int]);
            }
            let e = &world.entities[i];
            if contains_id(&vis, e.network_id) {
                let was = contains_id(&self.in_view, e.network_id);
                if full || !was || e.dirty.position || e.dirty.velocity || e.dirty.health_current
                    || e.dirty.health_max {
                    let all = full || !was;
                    ups.push(
                        EntityUpdate {
                            network_id: e.network_id,
                            position: if all || e.dirty.position {
                                Some(e.position)
                            } else {
                                None
                            },
                            velocity: if all || e.dirty.velocity {
                                Some(e.velocity)
                            } else {
                                None
                            },
                            health_current: match e.health {
                                Some(h) if all || e.dirty.health_current => Some(h.current),
                                _ => None,
                            },
                            health_max: match e.health {
                                Some(h) if all || e.dirty.health_max => Some(h.max),
                                _ => None,
                            },
                            identity: None,
                        },
                    );
                }
            }
            i = i + 1;
        }
        proof {
            assert(s.take(i as int) =~= s);
            lemma_updates_visible(s, vis_set, seen, full);
            if full {
                assert forall|id: u32| vis_set.contains(id) implies update_ids(ups@).contains(id) by {
                    let j = choose|j: int|
                        0 <= j < s.len() && s[j].network_id == self.player_id
                            && s[j].view_radius is Some;
                    let o = s[j].position;
                    let rad = s[j].view_radius->0 as int;
                    assert(sees(s, o, rad, id));
                    let k = choose|k: int|
                        0 <= k < s.len() && s[k].network_id == id && crate::replication::visible(
                            o,
                            rad,
                            s[k].position,
                        );
                    lemma_full_names_all(s, vis_set, seen, k);
                }
                assert(update_ids(ups@) =~= vis_set);
            }
        }
        self.in_view = vis;
        if full || ups.len() > 0 {
            self.last_sync_at = now;
            self.needs_full_sync = false;
            let kind = if full {
                MessageKind::FullSync
            } else {
                MessageKind::Delta
            };
            Some(NetworkMessage { kind, updates: ups, player_id: self.player_id })
        } else {
            None
        }
    }
}

} // verus!
