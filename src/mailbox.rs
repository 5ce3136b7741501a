//! The input mailbox: one slot per player, where the latest command
//! replaces any command still pending.
use vstd::prelude::*;
use crate::physics::InputCommand;

verus! {

/// A command waiting for the next tick.
#[derive(Clone, Copy, Debug, PartialEq, Eq, Structural)]
pub struct Pending {
    pub player_id: u32,
    pub command: InputCommand,
}

/// The pending command of each player, one slot each.
#[derive(Debug)]
pub struct InputBuffer {
    pub slots: Vec<Pending>,
}

/// The command pending for `p` in `s`, if any.
pub open spec fn slot_of(s: Seq<Pending>, p: u32) -> Option<InputCommand> {
    if exists|i: int| 0 <= i < s.len() && s[i].player_id == p {
        Some(s[choose|i: int| 0 <= i < s.len() && s[i].player_id == p].command)
    } else {
        None
    }
}

pub open spec fn keys_unique(s: Seq<Pending>) -> bool {
    forall|i: int, j: int|
        0 <= i < s.len() && 0 <= j < s.len() && i != j ==> s[i].player_id != s[j].player_id
}

proof fn lemma_slot_at(s: Seq<Pending>, i: int)
    requires
        keys_unique(s),
        0 <= i < s.len(),
    ensures
        slot_of(s, s[i].player_id) == Some(s[i].command),
{
    let p = s[i].player_id;
    let j = choose|j: int| 0 <= j < s.len() && s[j].player_id == p;
    assert(j == i);
}

impl InputBuffer {
    pub open spec fn wf(&self) -> bool {
        &&& keys_unique(self.slots@)
        &&& forall|i: int| 0 <= i < self.slots@.len() ==> (#[trigger] self.slots@[i]).command.wf()
    }

    pub open spec fn pending(&self, p: u32) -> Option<InputCommand> {
        slot_of(self.slots@, p)
    }

    pub fn new() -> (r: InputBuffer)
        ensures
            r.wf(),
            forall|p: u32| r.pending(p) is None,
    {
        InputBuffer { slots: Vec::new() }
    }

    fn find(&self, p: u32) -> (r: Option<usize>)
        ensures
            match r {
                Some(i) => i < self.slots@.len() && self.slots@[i as int].player_id == p,
                None => forall|i: int| 0 <= i < self.slots@.len() ==> self.slots@[i].player_id != p,
            },
    {
        let mut i: usize = 0;
        while i < self.slots.len()
            invariant
                i <= self.slots@.len(),
                forall|k: int| 0 <= k < i ==> self.slots@[k].player_id != p,
            decreases self.slots@.len() - i,
        {
            if self.slots[i].player_id == p {
                return Some(i);
            }
            i = i + 1;
        }
        None
    }

    /// The command pending for `p`, left in place.
    pub fn pending_command(&self, p: u32) -> (r: Option<InputCommand>)
        requires
            self.wf(),
        ensures
            r == self.pending(p),
    {
        match self.find(p) {
            Some(i) => {
                proof {
                    lemma_slot_at(self.slots@, i as int);
                }
                Some(self.slots[i].command)
            },
            None => None,
        }
    }

    /// Leaves `cmd` for player `p`, replacing any command still pending.
    pub fn post(&mut self, p: u32, cmd: InputCommand)
        requires
            old(self).wf(),
            cmd.wf(),
        ensures
            final(self).wf(),
            final(self).pending(p) == Some(cmd),
            forall|q: u32| q != p ==> final(self).pending(q) == old(self).pending(q),
    {
        let ghost before = self.slots@;
        match self.find(p) {
            Some(i) => {
                self.slots.set(i, Pending { player_id: p, command: cmd });
                proof {
                    let after = self.slots@;
                    lemma_slot_at(after, i as int);
                    assert forall|q: u32| q != p implies slot_of(after, q) == slot_of(before, q) by {
                        if exists|k: int| 0 <= k < before.len() && before[k].player_id == q {
                            let k = choose|k: int| 0 <= k < before.len() && before[k].player_id == q;
                            lemma_slot_at(before, k);
                            lemma_slot_at(after, k);
                        } else {
                            assert forall|k: int| 0 <= k < after.len() implies after[k].player_id
                                != q by {
                                if k != i {
                                    assert(before[k] == after[k]);
                                }
                            }
                        }
                    }
                }
            },
            None => {
                self.slots.push(Pending { player_id: p, command: cmd });
                proof {
                    let after = self.slots@;
                    let n = before.len() as int;
                    lemma_slot_at(after, n);
                    assert forall|q: u32| q != p implies slot_of(after, q) == slot_of(before, q) by {
                        if exists|k: int| 0 <= k < before.len() && before[k].player_id == q {
                            let k = choose|k: int| 0 <= k < before.len() && before[k].player_id == q;
                            lemma_slot_at(before, k);
                            assert(after[k] == before[k]);
                            lemma_slot_at(after, k);
                        } else {
                            assert forall|k: int| 0 <= k < after.len() implies after[k].player_id
                                != q by {
                                if k < n {
                                    assert(before[k] == after[k]);
                                }
                            }
                        }
                    }
                }
            },
        }
    }

    /// Removes and returns the command pending for `p`.
    pub fn take(&mut self, p: u32) -> (r: Option<InputCommand>)
        requires
            old(self).wf(),
        ensures
            final(self).wf(),
            r == old(self).pending(p),
            final(self).pending(p) is None,
            forall|q: u32| q != p ==> final(self).pending(q) == old(self).pending(q),
    {
        let ghost before = self.slots@;
        match self.find(p) {
            None => {
                assert(slot_of(before, p) is None);
                None
            },
            Some(i) => {
                proof {
                    lemma_slot_at(before, i as int);
                }
                let e = self.slots.swap_remove(i);
                proof {
                    let after = self.slots@;
                    let n = before.len();
                    assert forall|k: int| 0 <= k < after.len() implies (#[trigger] after[k]) == (if k
                        == i {
                        before[n - 1]
                    } else {
                        before[k]
                    }) by {}
                    assert forall|a: int, b: int|
                        0 <= a < after.len() && 0 <= b < after.len() && a != b implies after[a].player_id
                        != after[b].player_id by {
                        let a0 = if a == i {
                            n - 1
                        } else {
                            a
                        };
                        let b0 = if b == i {
                            n - 1
                        } else {
                            b
                        };
                        assert(before[a0].player_id != before[b0].player_id);
                    }
                    assert forall|k: int| 0 <= k < after.len() implies after[k].player_id != p by {
                        let k0 = if k == i {
                            n - 1
                        } else {
                            k
                        };
                        assert(before[k0].player_id != before[i as int].player_id);
                    }
                    assert forall|k: int| 0 <= k < after.len() implies (#[trigger] after[k]).command.wf() by {
                        let k0 = if k == i {
                            n - 1
                        } else {
                            k
                        };
                        assert(before[k0].command.wf());
                    }
                    assert forall|q: u32| q != p implies slot_of(after, q) == slot_of(before, q) by {
                        if exists|k: int| 0 <= k < before.len() && before[k].player_id == q {
                            let k = choose|k: int| 0 <= k < before.len() && before[k].player_id == q;
                            lemma_slot_at(before, k);
                            let k1 = if k == n - 1 {
                                i as int
                            } else {
                                k
                            };
                            assert(after[k1] == before[k]);
                            lemma_slot_at(after, k1);
                        } else {
                            assert forall|k: int| 0 <= k < after.len() implies after[k].player_id
                                != q by {
                                let k0 = if k == i {
                                    n - 1
                                } else {
                                    k
                                };
                                assert(before[k0] == after[k]);
                            }
                        }
                    }
                }
                Some(e.command)
            },
        }
    }
}

} // verus!
