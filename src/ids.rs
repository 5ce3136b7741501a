//! Network ids: players take ids in `[1, 9999]`, everything else counts up
//! from 10000.
use vstd::prelude::*;

verus! {

/// Least id a player may hold.
pub const PLAYER_ID_MIN: u32 = 1;

/// Greatest id a player may hold.
pub const PLAYER_ID_MAX: u32 = 9999;

/// First id handed to an entity that is not a player.
pub const FIRST_OBJECT_ID: u32 = 10000;

pub open spec fn is_player_id_spec(id: u32) -> bool {
    PLAYER_ID_MIN <= id <= PLAYER_ID_MAX
}

/// Why an id could not be had.
#[derive(Clone, Copy, Debug, PartialEq, Eq, Structural)]
pub enum IdError {
    /// The id lies outside the range reserved for players.
    NotAPlayerId,
    /// Every id above the player range has been handed out.
    Exhausted,
}

/// Hands out ids for entities that are not players, in increasing order.
#[derive(Clone, Copy, Debug, PartialEq, Eq, Structural)]
pub struct NetworkIdAllocator {
    pub next_id: u32,
}

impl NetworkIdAllocator {
    pub open spec fn wf(&self) -> bool {
        self.next_id >= FIRST_OBJECT_ID
    }

    pub fn new() -> (r: NetworkIdAllocator)
        ensures
            r.wf(),
            r.next_id == FIRST_OBJECT_ID,
    {
        NetworkIdAllocator { next_id: FIRST_OBJECT_ID }
    }

    /// The next unused id; fails once the id space is used up.
    pub fn allocate_id(&mut self) -> (r: Result<u32, IdError>)
        requires
            old(self).wf(),
        ensures
            final(self).wf(),
            r is Ok <==> old(self).next_id < u32::MAX,
            r matches Ok(id) ==> id == old(self).next_id && final(self).next_id == id + 1,
            r is Err ==> *final(self) == *old(self) && r == Err::<u32, IdError>(IdError::Exhausted),
    {
        if self.next_id == u32::MAX {
            return Err(IdError::Exhausted);
        }
        let id = self.next_id;
        self.next_id = id + 1;
        Ok(id)
    }

    /// Whether `id` lies in the range reserved for players.
    pub fn is_player_id(&self, id: u32) -> (r: bool)
        ensures
            r == is_player_id_spec(id),
    {
        PLAYER_ID_MIN <= id && id <= PLAYER_ID_MAX
    }

    /// `id` itself where it is a player id, else an error.
    pub fn reserve_player_id(&self, id: u32) -> (r: Result<u32, IdError>)
        ensures
            r is Ok <==> is_player_id_spec(id),
            r matches Ok(x) ==> x == id,
            r is Err ==> r == Err::<u32, IdError>(IdError::NotAPlayerId),
    {
        if self.is_player_id(id) {
            Ok(id)
        } else {
            Err(IdError::NotAPlayerId)
        }
    }
}

} // verus!
