//! Replication: which entities each client sees, which attributes changed
//! since they were last broadcast, and what each client is told.
use vstd::prelude::*;
use crate::fixed::abs_int;
use crate::physics::{inside, Vec2, WORLD_LIMIT};
use crate::world::{Entity, Health, NetworkDirty, World};

verus! {

/// A position coordinate counts as changed once it moved by more than this
/// (0.01) since last sent.
pub const POSITION_THRESHOLD: i64 = 1;

/// A velocity component counts as changed once it moved by more than this
/// (0.01) since last sent.
pub const VELOCITY_THRESHOLD: i64 = 1;

/// A health field counts as changed once it moved by more than this (0.1)
/// since last sent.
pub const HEALTH_THRESHOLD: i64 = 10;

/// Kind of an outbound message.
#[derive(Clone, Copy, Debug, PartialEq, Eq, Structural)]
pub enum MessageKind {
    Welcome,
    FullSync,
    Delta,
}

/// The identity pair a welcome carries.
#[derive(Clone, Copy, Debug, PartialEq, Eq, Structural)]
pub struct Identity {
    pub player_id: u32,
    pub network_id: u32,
}

/// What one message says of one entity; absent attributes are unchanged.
#[derive(Clone, Copy, Debug, PartialEq, Eq, Structural)]
pub struct EntityUpdate {
    pub network_id: u32,
    pub position: Option<Vec2>,
    pub velocity: Option<Vec2>,
    pub health_current: Option<i64>,
    pub health_max: Option<i64>,
    pub identity: Option<Identity>,
}

/// One outbound message to one client.
#[derive(Clone, Debug)]
pub struct NetworkMessage {
    pub kind: MessageKind,
    pub updates: Vec<EntityUpdate>,
    pub player_id: u32,
}

/// The visibility test: Manhattan distance at most 1.4 times the radius.
pub open spec fn visible(o: Vec2, radius: int, e: Vec2) -> bool {
    10 * (abs_int(o.x - e.x) + abs_int(o.y - e.y)) <= 14 * radius
}

/// Whether some entity of `s` with id `id` is visible from `o`.
pub open spec fn sees(s: Seq<Entity>, o: Vec2, radius: int, id: u32) -> bool {
    exists|i: int| 0 <= i < s.len() && s[i].network_id == id && visible(o, radius, s[i].position)
}

/// Whether an attribute moved beyond `th` since the value last sent.
pub open spec fn moved_beyond(sent: Option<Vec2>, now: Vec2, th: int) -> bool {
    match sent {
        None => true,
        Some(o) => abs_int(now.x - o.x) > th || abs_int(now.y - o.y) > th,
    }
}

/// Which health fields moved beyond the threshold since last sent: both
/// where none was sent, neither where the entity has no health.
pub open spec fn health_moved(now: Option<Health>, sent: Option<Health>) -> (bool, bool) {
    match now {
        None => (false, false),
        Some(h) => match sent {
            None => (true, true),
            Some(o) => (
                abs_int(h.current - o.current) > HEALTH_THRESHOLD,
                abs_int(h.max - o.max) > HEALTH_THRESHOLD,
            ),
        },
    }
}

/// An entity after change detection: dirty flags for this tick, and the
/// snapshot of each attribute that changed moved to its new value.
pub open spec fn detected(e: Entity) -> Entity {
    let dp = moved_beyond(e.sent.position, e.position, POSITION_THRESHOLD as int);
    let dv = moved_beyond(e.sent.velocity, e.velocity, VELOCITY_THRESHOLD as int);
    let (dc, dm) = health_moved(e.health, e.sent.health);
    Entity {
        dirty: NetworkDirty { position: dp, velocity: dv, health_current: dc, health_max: dm },
        sent: crate::world::NetworkSnapshot {
            health: if dc || dm {
                e.health
            } else {
                e.sent.health
            },
            position: if dp {
                Some(e.position)
            } else {
                e.sent.position
            },
            velocity: if dv {
                Some(e.velocity)
            } else {
                e.sent.velocity
            },
        },
        ..e
    }
}

/// What a message carries for `e`: every attribute where `all`, else the
/// dirty ones.
pub open spec fn entity_update(e: Entity, all: bool) -> EntityUpdate {
    EntityUpdate {
        network_id: e.network_id,
        position: if all || e.dirty.position {
            Some(e.position)
        } else {
            None
        },
        velocity: if all || e.dirty.velocity {
            Some(e.velocity)
        } else {
            None
        },
        health_current: match e.health {
            Some(h) if all || e.dirty.health_current => Some(h.current),
            _ => None,
        },
        health_max: match e.health {
            Some(h) if all || e.dirty.health_max => Some(h.max),
            _ => None,
        },
        identity: None,
    }
}

/// Whether any replicated attribute of `e` is dirty.
pub open spec fn any_dirty(e: Entity) -> bool {
    e.dirty.position || e.dirty.velocity || e.dirty.health_current || e.dirty.health_max
}

/// Whether a message of this tick names `e`.
pub open spec fn included(e: Entity, vis: Set<u32>, seen: Set<u32>, full: bool) -> bool {
    &&& vis.contains(e.network_id)
    &&& (full || !seen.contains(e.network_id) || any_dirty(e))
}

/// The updates of a message, in world order: for a full sync every visible
/// entity in full; otherwise newly visible entities in full and dirty ones
/// already in view with their dirty attributes.
pub open spec fn updates_for(s: Seq<Entity>, vis: Set<u32>, seen: Set<u32>, full: bool) -> Seq<
    EntityUpdate,
>
    decreases s.len(),
{
    if s.len() == 0 {
        seq![]
    } else {
        let prev = updates_for(s.drop_last(), vis, seen, full);
        let e = s.last();
        if included(e, vis, seen, full) {
            prev.push(entity_update(e, full || !seen.contains(e.network_id)))
        } else {
            prev
        }
    }
}

pub open spec fn update_ids(u: Seq<EntityUpdate>) -> Set<u32> {
    Set::new(|id: u32| exists|k: int| 0 <= k < u.len() && u[k].network_id == id)
}

/// Every entity a message names is visible.
pub proof fn lemma_updates_visible(s: Seq<Entity>, vis: Set<u32>, seen: Set<u32>, full: bool)
    ensures
        update_ids(updates_for(s, vis, seen, full)).subset_of(vis),
    decreases s.len(),
{
    if s.len() > 0 {
        lemma_updates_visible(s.drop_last(), vis, seen, full);
        let prev = updates_for(s.drop_last(), vis, seen, full);
        let cur = updates_for(s, vis, seen, full);
        assert forall|id: u32| update_ids(cur).contains(id) implies vis.contains(id) by {
            let k = choose|k: int| 0 <= k < cur.len() && cur[k].network_id == id;
            if k < prev.len() {
                assert(update_ids(prev).contains(id));
            }
        }
    }
}

/// A full sync names every entity of `s` whose id is visible.
pub proof fn lemma_full_names_all(s: Seq<Entity>, vis: Set<u32>, seen: Set<u32>, i: int)
    requires
        0 <= i < s.len(),
        vis.contains(s[i].network_id),
    ensures
        update_ids(updates_for(s, vis, seen, true)).contains(s[i].network_id),
    decreases s.len(),
{
    let prev = updates_for(s.drop_last(), vis, seen, true);
    let cur = updates_for(s, vis, seen, true);
    if i == s.len() - 1 {
        assert(cur[prev.len() as int].network_id == s[i].network_id);
    } else {
        lemma_full_names_all(s.drop_last(), vis, seen, i);
        let k = choose|k: int| 0 <= k < prev.len() && prev[k].network_id == s[i].network_id;
        assert(cur[k] == prev[k]);
    }
}

/// Whether `v` holds `id`.
pub fn contains_id(v: &Vec<u32>, id: u32) -> (r: bool)
    ensures
        r == v@.contains(id),
{
    let mut i: usize = 0;
    while i < v.len()
        invariant
            i <= v@.len(),
            forall|k: int| 0 <= k < i ==> v@[k] != id,
        decreases v@.len() - i,
    {
        if v[i] == id {
            return true;
        }
        i = i + 1;
    }
    false
}

/// The visibility test between two points of the world.
pub fn is_visible(o: Vec2, radius: i64, e: Vec2) -> (r: bool)
    requires
        0 <= o.x <= WORLD_LIMIT,
        0 <= o.y <= WORLD_LIMIT,
        0 <= e.x <= WORLD_LIMIT,
        0 <= e.y <= WORLD_LIMIT,
        0 <= radius <= WORLD_LIMIT,
    ensures
        r == visible(o, radius as int, e),
{
    let dx = if o.x >= e.x {
        o.x - e.x
    } else {
        e.x - o.x
    };
    let dy = if o.y >= e.y {
        o.y - e.y
    } else {
        e.y - o.y
    };
    10 * (dx + dy) <= 14 * radius
}

impl World {
    /// The network ids of every entity visible from `o` within `radius`,
    /// each once.
    pub fn visible_from(&self, o: Vec2, radius: i64) -> (r: Vec<u32>)
        requires
            self.wf(),
            inside(o, self.config.bounds),
            0 <= radius <= WORLD_LIMIT,
        ensures
            r@.no_duplicates(),
            forall|id: u32| r@.contains(id) <==> sees(self.entities@, o, radius as int, id),
    {
        let mut out: Vec<u32> = Vec::new();
        let mut i: usize = 0;
        while i < self.entities.len()
            invariant
                self.wf(),
                inside(o, self.config.bounds),
                0 <= radius <= WORLD_LIMIT,
                i <= self.entities@.len(),
                out@.no_duplicates(),
                forall|id: u32|
                    out@.contains(id) <==> sees(self.entities@.take(i as int), o, radius as int, id),
            decreases self.entities@.len() - i,
        {
            let ghost s = self.entities@;
            let ghost old_out = out@;
            assert(s[i as int].wf(self.config));
            let id = self.entities[i].network_id;
            let seen_now = is_visible(o, radius, self.entities[i].position);
            if seen_now {
                proof {
                    assert forall|k: int| 0 <= k < out@.len() implies out@[k] != id by {
                        let x = out@[k];
                        assert(out@.contains(x));
                        let j = choose|j: int|
                            0 <= j < i && s.take(i as int)[j].network_id == x && visible(
                                o,
                                radius as int,
                                s.take(i as int)[j].position,
                            );
                        assert(s[j].network_id != s[i as int].network_id);
                    }
                }
                out.push(id);
            }
            proof {
                let t = s.take(i as int);
                let t1 = s.take(i as int + 1);
                assert forall|x: u32| out@.contains(x) <==> sees(t1, o, radius as int, x) by {
                    if sees(t1, o, radius as int, x) {
                        let j = choose|j: int|
                            0 <= j < t1.len() && t1[j].network_id == x && visible(
                                o,
                                radius as int,
                                t1[j].position,
                            );
                        if j < i {
                            assert(t[j] == t1[j]);
                            assert(sees(t, o, radius as int, x));
                            assert(old_out.contains(x));
                            let k = choose|k: int| 0 <= k < old_out.len() && old_out[k] == x;
                            assert(out@[k] == x);
                        } else {
                            assert(t1[j] == s[i as int]);
                            assert(out@.last() == x);
                        }
                    }
                    if out@.contains(x) {
                        let k = choose|k: int| 0 <= k < out@.len() && out@[k] == x;
                        if k < old_out.len() {
                            assert(old_out[k] == x);
                            assert(old_out.contains(x));
                            let j = choose|j: int|
                                0 <= j < t.len() && t[j].network_id == x && visible(
                                    o,
                                    radius as int,
                                    t[j].position,
                                );
                            assert(t1[j] == t[j]);
                        } else {
                            assert(x == id);
                            assert(t1[i as int] == s[i as int]);
                        }
                    }
                }
            }
            i = i + 1;
        }
        proof {
            assert(self.entities@.take(i as int) =~= self.entities@);
        }
        out
    }

    /// Change detection for one tick: marks each entity's attributes that
    /// moved beyond their threshold since last broadcast, and records the
    /// new values of those as the last broadcast.
    pub fn detect_changes(&mut self)
        requires
            old(self).wf(),
        ensures
            final(self).wf(),
            final(self).config == old(self).config,
            final(self).entities@ == old(self).entities@.map_values(|e: Entity| detected(e)),
    {
        let n = self.entities.len();
        let mut i: usize = 0;
        while i < n
            invariant
                n == self.entities@.len(),
                n == old(self).entities@.len(),
                i <= n,
                self.config == old(self).config,
                forall|k: int| 0 <= k < i ==> #[trigger] self.entities@[k] == detected(old(self).entities@[k]),
                forall|k: int| i <= k < n ==> #[trigger] self.entities@[k] == old(self).entities@[k],
            decreases n - i,
        {
            let p = self.entities[i].position;
            let v = self.entities[i].velocity;
            let dp = match self.entities[i].sent.position {
                None => true,
                Some(o) => (p.x as i128 - o.x as i128 > POSITION_THRESHOLD as i128 || o.x as i128
                    - p.x as i128 > POSITION_THRESHOLD as i128 || p.y as i128 - o.y as i128
                    > POSITION_THRESHOLD as i128 || o.y as i128 - p.y as i128
                    > POSITION_THRESHOLD as i128),
            };
            let dv = match self.entities[i].sent.velocity {
                None => true,
                Some(o) => (v.x as i128 - o.x as i128 > VELOCITY_THRESHOLD as i128 || o.x as i128
                    - v.x as i128 > VELOCITY_THRESHOLD as i128 || v.y as i128 - o.y as i128
                    > VELOCITY_THRESHOLD as i128 || o.y as i128 - v.y as i128
                    > VELOCITY_THRESHOLD as i128),
            };
            let (dc, dm) = match self.entities[i].health {
                None => (false, false),
                Some(h) => match self.entities[i].sent.health {
                    None => (true, true),
                    Some(o) => (
                        h.current as i128 - o.current as i128 > HEALTH_THRESHOLD as i128
                            || o.current as i128 - h.current as i128 > HEALTH_THRESHOLD as i128,
                        h.max as i128 - o.max as i128 > HEALTH_THRESHOLD as i128 || o.max as i128
                            - h.max as i128 > HEALTH_THRESHOLD as i128,
                    ),
                },
            };
            self.entities[i].dirty = NetworkDirty {
                position: dp,
                velocity: dv,
                health_current: dc,
                health_max: dm,
            };
            if dc || dm {
                self.entities[i].sent.health = self.entities[i].health;
            }
            if dp {
                self.entities[i].sent.position = Some(p);
            }
            if dv {
                self.entities[i].sent.velocity = Some(v);
            }
            i = i + 1;
        }
        proof {
            let s = self.entities@;
            let t = old(self).entities@;
            assert(s =~= t.map_values(|e: Entity| detected(e)));
            assert forall|a: int, b: int|
                0 <= a < s.len() && 0 <= b < s.len() && a != b implies s[a].network_id
                != s[b].network_id by {
                assert(t[a].network_id != t[b].network_id);
            }
            assert forall|k: int| 0 <= k < s.len() implies #[trigger] s[k].wf(self.config) by {
                assert(t[k].wf(self.config));
            }
        }
    }
}

} // verus!
