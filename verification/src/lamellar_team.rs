//! The PEs that work together.

use vstd::prelude::*;

verus! {

/// A PE that is not a member of the team was asked for its place in it.
#[derive(Clone, Copy, Debug, PartialEq, Eq, Structural)]
pub struct IdError {
    pub parent_pe: usize,
}

/// A team as one PE sees it: that PE's place in the world, the size of the
/// world, and the members, by their places in the world and in the team's
/// order.
#[derive(Debug)]
pub struct LamellarTeamRT {
    pub world_pe: usize,
    pub num_world_pes: usize,
    pub pes: Vec<usize>,
}

impl LamellarTeamRT {
    /// Members occur once and belong to the world.
    pub open spec fn wf(self) -> bool {
        &&& self.world_pe < self.num_world_pes
        &&& self.pes@.no_duplicates()
        &&& forall|i: int| 0 <= i < self.pes@.len() ==> #[trigger] self.pes@[i] < self.num_world_pes
    }

    /// Whether a PE of the world is a member.
    pub open spec fn has_member(self, world_pe: usize) -> bool {
        self.pes@.contains(world_pe)
    }

    /// The place of a member in the team.
    pub open spec fn place_of(self, world_pe: usize) -> int {
        self.pes@.index_of(world_pe)
    }

    /// Whether the team is in order: this PE and all members are in the world,
    /// and no PE is a member twice.
    pub fn is_valid(&self) -> (r: bool)
        ensures
            r == self.wf(),
            r <==> self.world_pe < self.num_world_pes && (forall|i: int|
                0 <= i < self.pes@.len() ==> #[trigger] self.pes@[i] < self.num_world_pes) && (
            forall|i: int, j: int|
                0 <= i < j < self.pes@.len() ==> #[trigger] self.pes@[i] != #[trigger] self.pes@[j]),
    {
        if self.world_pe >= self.num_world_pes {
            return false;
        }
        let mut i: usize = 0;
        while i < self.pes.len()
            invariant
                i <= self.pes@.len(),
                self.world_pe < self.num_world_pes,
                forall|k: int| 0 <= k < i ==> #[trigger] self.pes@[k] < self.num_world_pes,
                forall|k: int, l: int| 0 <= k < l < i ==> self.pes@[k] != self.pes@[l],
            decreases self.pes@.len() - i,
        {
            if self.pes[i] >= self.num_world_pes {
                return false;
            }
            let mut k: usize = 0;
            while k < i
                invariant
                    k <= i < self.pes@.len(),
                    forall|l: int| 0 <= l < k ==> self.pes@[l] != self.pes@[i as int],
                decreases i - k,
            {
                if self.pes[k] == self.pes[i] {
                    return false;
                }
                k = k + 1;
            }
            i = i + 1;
        }
        true
    }

    /// How many PEs are members.
    pub fn num_pes(&self) -> (n: usize)
        ensures
            n == self.pes@.len(),
    {
        self.pes.len()
    }

    /// The place of a PE of the world in the team, an error if it is not a
    /// member.
    pub fn team_pe(&self, world_pe: usize) -> (r: Result<usize, IdError>)
        requires
            self.wf(),
        ensures
            match r {
                Ok(pe) => pe < self.pes@.len() && self.pes@[pe as int] == world_pe
                    && self.has_member(world_pe) && self.place_of(world_pe) == pe,
                Err(e) => !self.has_member(world_pe) && e == (IdError { parent_pe: world_pe }),
            },
            r is Err ==> forall|i: int|
                0 <= i < self.pes@.len() ==> #[trigger] self.pes@[i] != world_pe,
    {
        let mut i: usize = 0;
        while i < self.pes.len()
            invariant
                i <= self.pes@.len(),
                self.wf(),
                forall|j: int| 0 <= j < i ==> #[trigger] self.pes@[j] != world_pe,
            decreases self.pes@.len() - i,
        {
            if self.pes[i] == world_pe {
                assert(self.has_member(world_pe)) by {
                    assert(self.pes@[i as int] == world_pe);
                }
                assert(self.place_of(world_pe) == i) by {
                    let p = self.place_of(world_pe);
                    assert(self.pes@[p] == world_pe);
                }
                return Ok(i);
            }
            i = i + 1;
        }
        Err(IdError { parent_pe: world_pe })
    }

    /// This PE's place in the team, an error if it is not a member.
    pub fn team_pe_id(&self) -> (r: Result<usize, IdError>)
        requires
            self.wf(),
        ensures
            match r {
                Ok(pe) => pe < self.pes@.len() && self.pes@[pe as int] == self.world_pe
                    && self.has_member(self.world_pe) && self.place_of(self.world_pe) == pe,
                Err(e) => !self.has_member(self.world_pe) && e == (IdError {
                    parent_pe: self.world_pe,
                }),
            },
    {
        self.team_pe(self.world_pe)
    }
}

} // verus!
