//! The world: every live entity with its motion state, its identity on the
//! wire and the values last sent for it.
use vstd::prelude::*;
use crate::fixed::abs_int;
use crate::physics::{
    inside, motion_step, speed_ok, step_motion, CharacterProfile, SimConfig, Vec2, SPEED_LIMIT, WORLD_LIMIT,
};

verus! {

/// What an entity is, for clients that draw it.
#[derive(Clone, Debug, PartialEq, Eq)]
pub enum NetworkedObjectType {
    Player,
    Npc,
    Projectile,
    Item,
    Environment,
    Custom(String),
}

/// Hit points, in hundredths.
#[derive(Clone, Copy, Debug, PartialEq, Eq, Structural)]
pub struct Health {
    pub current: i64,
    pub max: i64,
}

/// The values of the replicated attributes last broadcast for an entity;
/// `None` where nothing was broadcast yet.
#[derive(Clone, Copy, Debug, PartialEq, Eq, Structural)]
pub struct NetworkSnapshot {
    pub position: Option<Vec2>,
    pub velocity: Option<Vec2>,
    pub health: Option<Health>,
}

/// Which replicated attributes, and for health which fields, changed
/// beyond their threshold this tick.
#[derive(Clone, Copy, Debug, PartialEq, Eq, Structural)]
pub struct NetworkDirty {
    pub position: bool,
    pub velocity: bool,
    pub health_current: bool,
    pub health_max: bool,
}

/// One entity of the world.
#[derive(Debug)]
pub struct Entity {
    pub network_id: u32,
    pub kind: NetworkedObjectType,
    pub position: Vec2,
    pub velocity: Vec2,
    pub desired_velocity: Vec2,
    /// Present on agents that accelerate under their own control.
    pub profile: Option<CharacterProfile>,
    /// Present on entities that observe the world (players).
    pub view_radius: Option<i64>,
    /// Present on entities that can take damage.
    pub health: Option<Health>,
    pub sent: NetworkSnapshot,
    pub dirty: NetworkDirty,
}

impl Entity {
    pub open spec fn wf(&self, cfg: SimConfig) -> bool {
        &&& inside(self.position, cfg.bounds)
        &&& speed_ok(self.velocity, self.profile)
        &&& self.desired_velocity.bounded(SPEED_LIMIT as int)
        &&& (self.profile matches Some(p) ==> p.wf())
        &&& (self.view_radius matches Some(r) ==> 0 <= r <= WORLD_LIMIT)
    }

    /// A fresh entity at rest at `position`, with nothing sent yet.
    pub fn new(
        network_id: u32,
        kind: NetworkedObjectType,
        position: Vec2,
        profile: Option<CharacterProfile>,
        view_radius: Option<i64>,
    ) -> (r: Entity)
        ensures
            r.network_id == network_id,
            r.kind == kind,
            r.position == position,
            r.velocity == (Vec2 { x: 0, y: 0 }),
            r.desired_velocity == (Vec2 { x: 0, y: 0 }),
            r.profile == profile,
            r.view_radius == view_radius,
            r.health == None::<Health>,
            r.sent == (NetworkSnapshot { position: None, velocity: None, health: None }),
            r.dirty == (NetworkDirty {
                position: false,
                velocity: false,
                health_current: false,
                health_max: false,
            }),
    {
        Entity {
            network_id,
            kind,
            position,
            velocity: Vec2 { x: 0, y: 0 },
            desired_velocity: Vec2 { x: 0, y: 0 },
            profile,
            view_radius,
            health: None,
            sent: NetworkSnapshot { position: None, velocity: None, health: None },
            dirty: NetworkDirty {
                position: false,
                velocity: false,
                health_current: false,
                health_max: false,
            },
        }
    }
}

pub open spec fn ids_unique(s: Seq<Entity>) -> bool {
    forall|i: int, j: int|
        0 <= i < s.len() && 0 <= j < s.len() && i != j ==> s[i].network_id != s[j].network_id
}

pub open spec fn has_id(s: Seq<Entity>, id: u32) -> bool {
    exists|i: int| 0 <= i < s.len() && s[i].network_id == id
}

/// Unique network ids stay unique through a change that keeps each
/// entity's id.
pub proof fn lemma_same_ids(before: Seq<Entity>, after: Seq<Entity>)
    requires
        ids_unique(before),
        after.len() == before.len(),
        forall|k: int| 0 <= k < after.len() ==> (#[trigger] after[k]).network_id == before[k].network_id,
    ensures
        ids_unique(after),
{
    assert forall|a: int, b: int|
        0 <= a < after.len() && 0 <= b < after.len() && a != b implies after[a].network_id
        != after[b].network_id by {
        assert(before[a].network_id != before[b].network_id);
    }
}

/// Why an entity could not be added to the world.
#[derive(Clone, Copy, Debug, PartialEq, Eq, Structural)]
pub enum SpawnError {
    DuplicateNetworkId,
}

/// All live entities, under one simulation configuration.
#[derive(Debug)]
pub struct World {
    pub config: SimConfig,
    pub entities: Vec<Entity>,
}

impl World {
    pub open spec fn wf(&self) -> bool {
        &&& self.config.wf()
        &&& ids_unique(self.entities@)
        &&& forall|i: int| 0 <= i < self.entities@.len() ==> #[trigger] self.entities@[i].wf(self.config)
    }

    pub fn new(config: SimConfig) -> (r: World)
        requires
            config.wf(),
        ensures
            r.wf(),
            r.config == config,
            r.entities@.len() == 0,
    {
        World { config, entities: Vec::new() }
    }

    /// Index of the entity with network id `id`.
    pub fn find(&self, id: u32) -> (r: Option<usize>)
        ensures
            match r {
                Some(i) => i < self.entities@.len() && self.entities@[i as int].network_id == id,
                None => !has_id(self.entities@, id),
            },
    {
        let mut i: usize = 0;
        while i < self.entities.len()
            invariant
                i <= self.entities@.len(),
                forall|k: int| 0 <= k < i ==> self.entities@[k].network_id != id,
            decreases self.entities@.len() - i,
        {
            if self.entities[i].network_id == id {
                return Some(i);
            }
            i = i + 1;
        }
        None
    }

    pub fn contains(&self, id: u32) -> (r: bool)
        ensures
            r == has_id(self.entities@, id),
    {
        self.find(id).is_some()
    }

    /// Adds an entity, unless its network id is taken.
    pub fn spawn(&mut self, e: Entity) -> (r: Result<(), SpawnError>)
        requires
            old(self).wf(),
            e.wf(old(self).config),
        ensures
            final(self).wf(),
            final(self).config == old(self).config,
            r is Ok <==> !has_id(old(self).entities@, e.network_id),
            r is Ok ==> final(self).entities@ == old(self).entities@.push(e),
            r is Err ==> final(self).entities@ == old(self).entities@,
    {
        if self.contains(e.network_id) {
            return Err(SpawnError::DuplicateNetworkId);
        }
        self.entities.push(e);
        Ok(())
    }

    /// Removes the entity with network id `id`, in constant time.
    pub fn despawn(&mut self, id: u32) -> (r: Option<Entity>)
        requires
            old(self).wf(),
        ensures
            final(self).wf(),
            final(self).config == old(self).config,
            r is Some <==> has_id(old(self).entities@, id),
            r is None ==> final(self).entities@ == old(self).entities@,
            r matches Some(e) ==> e.network_id == id,
            forall|k: int|
                0 <= k < final(self).entities@.len() ==> old(self).entities@.contains(
                    #[trigger] final(self).entities@[k],
                ),
            !has_id(final(self).entities@, id),
            forall|x: u32|
                x != id ==> (has_id(final(self).entities@, x) <==> has_id(old(self).entities@, x)),
            final(self).entities@.len() == old(self).entities@.len() - (if r is Some {
                1int
            } else {
                0int
            }),
    {
        match self.find(id) {
            None => None,
            Some(i) => {
                let ghost before = self.entities@;
                let e = self.entities.swap_remove(i);
                proof {
                    let after = self.entities@;
                    let n = before.len();
                    assert forall|k: int| 0 <= k < after.len() implies (#[trigger] after[k]) == (if k
                        == i {
                        before[n - 1]
                    } else {
                        before[k]
                    }) by {}
                    assert forall|x: u32| x != id implies (has_id(after, x) <==> has_id(
                        before,
                        x,
                    )) by {
                        if has_id(before, x) {
                            let k = choose|k: int| 0 <= k < before.len() && before[k].network_id == x;
                            if k == n - 1 {
                                assert(after[i as int].network_id == x);
                            } else {
                                assert(after[k].network_id == x);
                            }
                        }
                        if has_id(after, x) {
                            let k = choose|k: int| 0 <= k < after.len() && after[k].network_id == x;
                            if k == i {
                                assert(before[n - 1].network_id == x);
                            } else {
                                assert(before[k].network_id == x);
                            }
                        }
                    }
                    assert forall|k: int| 0 <= k < after.len() implies before.contains(
                        #[trigger] after[k],
                    ) by {
                        if k == i {
                            assert(before[n - 1] == after[k]);
                        } else {
                            assert(before[k] == after[k]);
                        }
                    }
                    assert forall|k: int| 0 <= k < after.len() implies after[k].network_id != id by {
                        if k == i {
                            assert(before[n - 1].network_id != before[i as int].network_id);
                        } else {
                            assert(before[k].network_id != before[i as int].network_id);
                        }
                    }
                    assert forall|k: int| 0 <= k < after.len() implies #[trigger] after[k].wf(
                        self.config,
                    ) by {
                        if k == i {
                            assert(before[n - 1].wf(self.config));
                        } else {
                            assert(before[k].wf(self.config));
                        }
                    }
                }
                Some(e)
            },
        }
    }

    /// Advances every entity by one simulation step.
    pub fn step(&mut self)
        requires
            old(self).wf(),
        ensures
            final(self).wf(),
            final(self).config == old(self).config,
            final(self).entities@.len() == old(self).entities@.len(),
            forall|i: int|
                0 <= i < old(self).entities@.len() ==> {
                    let e = #[trigger] old(self).entities@[i];
                    let f = final(self).entities@[i];
                    &&& f.network_id == e.network_id
                    &&& f.kind == e.kind
                    &&& f.desired_velocity == e.desired_velocity
                    &&& f.profile == e.profile
                    &&& f.view_radius == e.view_radius
                    &&& f.health == e.health
                    &&& f.sent == e.sent
                    &&& f.dirty == e.dirty
                    &&& (f.position, f.velocity) == motion_step(
                        e.position,
                        e.velocity,
                        e.desired_velocity,
                        e.profile,
                        old(self).config,
                    )
                },
    {
        let cfg = self.config;
        let n = self.entities.len();
        let mut i: usize = 0;
        while i < n
            invariant
                n == self.entities@.len(),
                i <= n,
                self.config == cfg,
                cfg.wf(),
                n == old(self).entities@.len(),
                self.config == old(self).config,
                forall|k: int|
                    0 <= k < n ==> (#[trigger] self.entities@[k]).network_id == old(
                        self,
                    ).entities@[k].network_id,
                forall|k: int| 0 <= k < n ==> #[trigger] self.entities@[k].wf(cfg),
                forall|k: int|
                    i <= k < n ==> #[trigger] self.entities@[k] == old(self).entities@[k],
                forall|k: int|
                    0 <= k < i ==> {
                        let e = #[trigger] old(self).entities@[k];
                        let f = self.entities@[k];
                        &&& f.network_id == e.network_id
                        &&& f.kind == e.kind
                        &&& f.desired_velocity == e.desired_velocity
                        &&& f.profile == e.profile
                        &&& f.view_radius == e.view_radius
                        &&& f.health == e.health
                        &&& f.sent == e.sent
                        &&& f.dirty == e.dirty
                        &&& (f.position, f.velocity) == motion_step(
                            e.position,
                            e.velocity,
                            e.desired_velocity,
                            e.profile,
                            cfg,
                        )
                    },
            decreases n - i,
        {
            proof {
                assert(self.entities@[i as int].wf(cfg));
            }
            let (p, v) = step_motion(
                self.entities[i].position,
                self.entities[i].velocity,
                self.entities[i].desired_velocity,
                self.entities[i].profile,
                cfg,
            );
            self.entities[i].position = p;
            self.entities[i].velocity = v;
            proof {
                assert(self.entities@[i as int].wf(cfg));
            }
            i = i + 1;
        }
        proof {
            assert(ids_unique(self.entities@));
        }
    }
}

} // verus!
