//! Reductions: one value made of all elements of an array.

use vstd::prelude::*;

use crate::array::convert::{AtomicArray, LocalLockArray, ReadOnlyArray};
use crate::array::generic_atomic::GenericAtomicArray;
use crate::array::unsafe_array::UnsafeArray;
use crate::lamellar_team::LamellarTeamRT;

verus! {

/// A reduction that is known: the type of its elements, and its name.
#[derive(Debug)]
pub struct ReduceKey {
    pub id: u64,
    pub name: Vec<u8>,
}

/// Whether a reduction has this type and name.
pub open spec fn is_key(key: ReduceKey, id: u64, op: Seq<u8>) -> bool {
    key.id == id && key.name@ == op
}

/// The known reductions, in the order in which they were registered. Of several
/// with one type and name the last one counts.
#[derive(Debug)]
pub struct ReduceOps {
    pub keys: Vec<ReduceKey>,
}

fn same_bytes(a: &[u8], b: &[u8]) -> (r: bool)
    ensures
        r == (a@ == b@),
{
    let len: usize = a.len();
    if len != b.len() {
        return false;
    }
    let mut i: usize = 0;
    while i < len
        invariant
            i <= len,
            len == a@.len(),
            len == b@.len(),
            forall|j: int| 0 <= j < i ==> a@[j] == b@[j],
        decreases len - i,
    {
        if a[i] != b[i] {
            return false;
        }
        i = i + 1;
    }
    assert(a@ =~= b@);
    true
}

impl ReduceOps {
    /// Whether a reduction is known.
    pub open spec fn knows(self, id: u64, op: Seq<u8>) -> bool {
        exists|i: int| 0 <= i < self.keys@.len() && is_key(#[trigger] self.keys@[i], id, op)
    }

    /// The reduction of a type and name, none if it is not known.
    pub fn get(&self, id: u64, op: &[u8]) -> (r: Option<usize>)
        ensures
            match r {
                Some(at) => at < self.keys@.len() && is_key(self.keys@[at as int], id, op@)
                    && forall|i: int|
                    at < i < self.keys@.len() ==> !is_key(#[trigger] self.keys@[i], id, op@),
                None => !self.knows(id, op@),
            },
            r matches Some(at) ==> self.keys@[at as int].id == id && self.keys@[at as int].name@
                == op@,
            r is Some <==> exists|i: int|
                0 <= i < self.keys@.len() && (#[trigger] self.keys@[i]).id == id
                    && self.keys@[i].name@ == op@,
    {
        let mut i: usize = self.keys.len();
        while i > 0
            invariant
                i <= self.keys@.len(),
                forall|j: int|
                    i <= j < self.keys@.len() ==> !is_key(#[trigger] self.keys@[j], id, op@),
            decreases i,
        {
            i = i - 1;
            if self.keys[i].id == id && same_bytes(self.keys[i].name.as_slice(), op) {
                return Some(i);
            }
        }
        None
    }
}

/// A reduction that is to run.
#[derive(Clone, Copy, Debug, PartialEq, Eq, Structural)]
pub struct ReduceRequest {
    /// Which of the known reductions.
    pub op: usize,
    /// Over how many PEs.
    pub num_pes: usize,
    /// Where it starts.
    pub pe: usize,
}

/// The name of the sum of all elements.
pub open spec fn sum_name() -> Seq<u8> {
    seq![115, 117, 109]
}

/// The name of the product of all elements.
pub open spec fn prod_name() -> Seq<u8> {
    seq![112, 114, 111, 100]
}

/// The name of the largest element.
pub open spec fn max_name() -> Seq<u8> {
    seq![109, 97, 120]
}

/// The name of the smallest element.
pub open spec fn min_name() -> Seq<u8> {
    seq![109, 105, 110]
}

/// Whether a request asks for the reduction of this name: the last one known
/// with it, over all members of the team, from this PE on, or from the first
/// member if this PE is no member.
pub open spec fn asks_for(
    req: ReduceRequest,
    ops: ReduceOps,
    team: LamellarTeamRT,
    id: u64,
    op: Seq<u8>,
) -> bool {
    &&& req.op < ops.keys@.len()
    &&& is_key(ops.keys@[req.op as int], id, op)
    &&& forall|i: int| req.op < i < ops.keys@.len() ==> !is_key(#[trigger] ops.keys@[i], id, op)
    &&& req.num_pes == team.pes@.len()
    &&& req.pe == (if team.has_member(team.world_pe) {
        team.place_of(team.world_pe)
    } else {
        0
    })
}

/// A request that asks for a name runs the reduction that was registered last under
/// that name for that type, on every member of the team, and starts on this PE if it
/// is a member.
pub proof fn request_is_for_its_name(
    req: ReduceRequest,
    ops: ReduceOps,
    team: LamellarTeamRT,
    id: u64,
    op: Seq<u8>,
)
    requires
        team.wf(),
        asks_for(req, ops, team, id, op),
    ensures
        req.op < ops.keys@.len(),
        ops.keys@[req.op as int].id == id,
        ops.keys@[req.op as int].name@ == op,
        forall|i: int|
            req.op < i < ops.keys@.len() ==> (#[trigger] ops.keys@[i]).id != id
                || ops.keys@[i].name@ != op,
        req.num_pes == team.pes@.len(),
        team.pes@.contains(team.world_pe) ==> req.pe < team.pes@.len()
            && team.pes@[req.pe as int] == team.world_pe,
        !team.pes@.contains(team.world_pe) ==> req.pe == 0,
{
    assert forall|i: int| req.op < i < ops.keys@.len() implies (#[trigger] ops.keys@[i]).id != id
        || ops.keys@[i].name@ != op by {
        assert(!is_key(ops.keys@[i], id, op));
    }
}

/// The reductions that arrays offer by themselves have the names that they are
/// called by.
pub proof fn reductions_are_called_by_name()
    ensures
        sum_name().map_values(|b: u8| b as char) == "sum"@,
        prod_name().map_values(|b: u8| b as char) == "prod"@,
        max_name().map_values(|b: u8| b as char) == "max"@,
        min_name().map_values(|b: u8| b as char) == "min"@,
{
    reveal_strlit("sum");
    reveal_strlit("prod");
    reveal_strlit("max");
    reveal_strlit("min");
    assert(sum_name().map_values(|b: u8| b as char) =~= "sum"@);
    assert(prod_name().map_values(|b: u8| b as char) =~= "prod"@);
    assert(max_name().map_values(|b: u8| b as char) =~= "max"@);
    assert(min_name().map_values(|b: u8| b as char) =~= "min"@);
}

/// The request for the reduction of a name over all elements of an array. It has
/// to be known for the type of the elements.
pub fn reduce_data(ops: &ReduceOps, team: &LamellarTeamRT, id: u64, op: &[u8]) -> (r:
    ReduceRequest)
    requires
        team.wf(),
        ops.knows(id, op@),
    ensures
        asks_for(r, *ops, *team, id, op@),
{
    let at: usize = match ops.get(id, op) {
        Some(at) => at,
        None => 0,
    };
    let pe: usize = match team.team_pe_id() {
        Ok(my_pe) => my_pe,
        Err(_) => 0,
    };
    ReduceRequest { op: at, num_pes: team.num_pes(), pe }
}

impl<T> UnsafeArray<T> {
    /// The reduction of a name over all elements. It has to be known for this
    /// type of elements.
    pub fn reduce(&self, ops: &ReduceOps, team: &LamellarTeamRT, id: u64, op: &[u8]) -> (r:
        ReduceRequest)
        requires
            team.wf(),
            ops.knows(id, op@),
        ensures
            asks_for(r, *ops, *team, id, op@),
    {
        reduce_data(ops, team, id, op)
    }

    /// The sum of all elements.
    pub fn sum(&self, ops: &ReduceOps, team: &LamellarTeamRT, id: u64) -> (r: ReduceRequest)
        requires
            team.wf(),
            ops.knows(id, sum_name()),
        ensures
            asks_for(r, *ops, *team, id, sum_name()),
    {
        let name: Vec<u8> = vec![115, 117, 109];
        assert(name@ =~= sum_name());
        self.reduce(ops, team, id, name.as_slice())
    }

    /// The product of all elements.
    pub fn prod(&self, ops: &ReduceOps, team: &LamellarTeamRT, id: u64) -> (r: ReduceRequest)
        requires
            team.wf(),
            ops.knows(id, prod_name()),
        ensures
            asks_for(r, *ops, *team, id, prod_name()),
    {
        let name: Vec<u8> = vec![112, 114, 111, 100];
        assert(name@ =~= prod_name());
        self.reduce(ops, team, id, name.as_slice())
    }

    /// The largest element.
    pub fn max(&self, ops: &ReduceOps, team: &LamellarTeamRT, id: u64) -> (r: ReduceRequest)
        requires
            team.wf(),
            ops.knows(id, max_name()),
        ensures
            asks_for(r, *ops, *team, id, max_name()),
    {
        let name: Vec<u8> = vec![109, 97, 120];
        assert(name@ =~= max_name());
        self.reduce(ops, team, id, name.as_slice())
    }

    /// The smallest element.
    pub fn min(&self, ops: &ReduceOps, team: &LamellarTeamRT, id: u64) -> (r: ReduceRequest)
        requires
            team.wf(),
            ops.knows(id, min_name()),
        ensures
            asks_for(r, *ops, *team, id, min_name()),
    {
        let name: Vec<u8> = vec![109, 105, 110];
        assert(name@ =~= min_name());
        self.reduce(ops, team, id, name.as_slice())
    }
}

impl<T> GenericAtomicArray<T> {
    /// The reduction of a name over all elements. It has to be known for this
    /// type of elements.
    pub fn reduce(&self, ops: &ReduceOps, team: &LamellarTeamRT, id: u64, op: &[u8]) -> (r:
        ReduceRequest)
        requires
            team.wf(),
            ops.knows(id, op@),
        ensures
            asks_for(r, *ops, *team, id, op@),
    {
        reduce_data(ops, team, id, op)
    }

    /// The sum of all elements.
    pub fn sum(&self, ops: &ReduceOps, team: &LamellarTeamRT, id: u64) -> (r: ReduceRequest)
        requires
            team.wf(),
            ops.knows(id, sum_name()),
        ensures
            asks_for(r, *ops, *team, id, sum_name()),
    {
        let name: Vec<u8> = vec![115, 117, 109];
        assert(name@ =~= sum_name());
        self.reduce(ops, team, id, name.as_slice())
    }

    /// The product of all elements.
    pub fn prod(&self, ops: &ReduceOps, team: &LamellarTeamRT, id: u64) -> (r: ReduceRequest)
        requires
            team.wf(),
            ops.knows(id, prod_name()),
        ensures
            asks_for(r, *ops, *team, id, prod_name()),
    {
        let name: Vec<u8> = vec![112, 114, 111, 100];
        assert(name@ =~= prod_name());
        self.reduce(ops, team, id, name.as_slice())
    }

    /// The largest element.
    pub fn max(&self, ops: &ReduceOps, team: &LamellarTeamRT, id: u64) -> (r: ReduceRequest)
        requires
            team.wf(),
            ops.knows(id, max_name()),
        ensures
            asks_for(r, *ops, *team, id, max_name()),
    {
        let name: Vec<u8> = vec![109, 97, 120];
        assert(name@ =~= max_name());
        self.reduce(ops, team, id, name.as_slice())
    }
}

impl<T> ReadOnlyArray<T> {
    /// The reduction of a name over all elements. It has to be known for this
    /// type of elements.
    pub fn reduce(&self, ops: &ReduceOps, team: &LamellarTeamRT, id: u64, op: &[u8]) -> (r:
        ReduceRequest)
        requires
            team.wf(),
            ops.knows(id, op@),
        ensures
            asks_for(r, *ops, *team, id, op@),
    {
        self.array.reduce(ops, team, id, op)
    }

    /// The sum of all elements.
    pub fn sum(&self, ops: &ReduceOps, team: &LamellarTeamRT, id: u64) -> (r: ReduceRequest)
        requires
            team.wf(),
            ops.knows(id, sum_name()),
        ensures
            asks_for(r, *ops, *team, id, sum_name()),
    {
        self.array.sum(ops, team, id)
    }

    /// The product of all elements.
    pub fn prod(&self, ops: &ReduceOps, team: &LamellarTeamRT, id: u64) -> (r: ReduceRequest)
        requires
            team.wf(),
            ops.knows(id, prod_name()),
        ensures
            asks_for(r, *ops, *team, id, prod_name()),
    {
        self.array.prod(ops, team, id)
    }

    /// The largest element.
    pub fn max(&self, ops: &ReduceOps, team: &LamellarTeamRT, id: u64) -> (r: ReduceRequest)
        requires
            team.wf(),
            ops.knows(id, max_name()),
        ensures
            asks_for(r, *ops, *team, id, max_name()),
    {
        self.array.max(ops, team, id)
    }
}

impl<T> LocalLockArray<T> {
    /// The reduction of a name over all elements. It has to be known for this
    /// type of elements.
    pub fn reduce(&self, ops: &ReduceOps, team: &LamellarTeamRT, id: u64, op: &[u8]) -> (r:
        ReduceRequest)
        requires
            team.wf(),
            ops.knows(id, op@),
        ensures
            asks_for(r, *ops, *team, id, op@),
    {
        self.array.reduce(ops, team, id, op)
    }

    /// The sum of all elements.
    pub fn sum(&self, ops: &ReduceOps, team: &LamellarTeamRT, id: u64) -> (r: ReduceRequest)
        requires
            team.wf(),
            ops.knows(id, sum_name()),
        ensures
            asks_for(r, *ops, *team, id, sum_name()),
    {
        self.array.sum(ops, team, id)
    }

    /// The product of all elements.
    pub fn prod(&self, ops: &ReduceOps, team: &LamellarTeamRT, id: u64) -> (r: ReduceRequest)
        requires
            team.wf(),
            ops.knows(id, prod_name()),
        ensures
            asks_for(r, *ops, *team, id, prod_name()),
    {
        self.array.prod(ops, team, id)
    }

    /// The largest element.
    pub fn max(&self, ops: &ReduceOps, team: &LamellarTeamRT, id: u64) -> (r: ReduceRequest)
        requires
            team.wf(),
            ops.knows(id, max_name()),
        ensures
            asks_for(r, *ops, *team, id, max_name()),
    {
        self.array.max(ops, team, id)
    }
}

impl<T> AtomicArray<T> {
    /// The reduction of a name over all elements. It has to be known for this
    /// type of elements.
    pub fn reduce(&self, ops: &ReduceOps, team: &LamellarTeamRT, id: u64, op: &[u8]) -> (r:
        ReduceRequest)
        requires
            team.wf(),
            ops.knows(id, op@),
        ensures
            asks_for(r, *ops, *team, id, op@),
    {
        match self {
            AtomicArray::NativeAtomicArray(array) => array.reduce(ops, team, id, op),
            AtomicArray::GenericAtomicArray(array, _) => array.reduce(ops, team, id, op),
        }
    }

    /// The sum of all elements.
    pub fn sum(&self, ops: &ReduceOps, team: &LamellarTeamRT, id: u64) -> (r: ReduceRequest)
        requires
            team.wf(),
            ops.knows(id, sum_name()),
        ensures
            asks_for(r, *ops, *team, id, sum_name()),
    {
        match self {
            AtomicArray::NativeAtomicArray(array) => array.sum(ops, team, id),
            AtomicArray::GenericAtomicArray(array, _) => array.sum(ops, team, id),
        }
    }

    /// The product of all elements.
    pub fn prod(&self, ops: &ReduceOps, team: &LamellarTeamRT, id: u64) -> (r: ReduceRequest)
        requires
            team.wf(),
            ops.knows(id, prod_name()),
        ensures
            asks_for(r, *ops, *team, id, prod_name()),
    {
        match self {
            AtomicArray::NativeAtomicArray(array) => array.prod(ops, team, id),
            AtomicArray::GenericAtomicArray(array, _) => array.prod(ops, team, id),
        }
    }

    /// The largest element.
    pub fn max(&self, ops: &ReduceOps, team: &LamellarTeamRT, id: u64) -> (r: ReduceRequest)
        requires
            team.wf(),
            ops.knows(id, max_name()),
        ensures
            asks_for(r, *ops, *team, id, max_name()),
    {
        match self {
            AtomicArray::NativeAtomicArray(array) => array.max(ops, team, id),
            AtomicArray::GenericAtomicArray(array, _) => array.max(ops, team, id),
        }
    }
}

/// The kinds of arrays that can be read.
pub enum LamellarReadArray<T> {
    UnsafeArray(UnsafeArray<T>),
    ReadOnlyArray(ReadOnlyArray<T>),
    AtomicArray(AtomicArray<T>),
    LocalLockArray(LocalLockArray<T>),
}

/// The kinds of arrays that can be written.
pub enum LamellarWriteArray<T> {
    UnsafeArray(UnsafeArray<T>),
    AtomicArray(AtomicArray<T>),
    LocalLockArray(LocalLockArray<T>),
}

impl<T> LamellarReadArray<T> {
    /// The reduction of a name over all elements. It has to be known for this
    /// type of elements.
    pub fn reduce(&self, ops: &ReduceOps, team: &LamellarTeamRT, id: u64, op: &[u8]) -> (r:
        ReduceRequest)
        requires
            team.wf(),
            ops.knows(id, op@),
        ensures
            asks_for(r, *ops, *team, id, op@),
    {
        match self {
            LamellarReadArray::UnsafeArray(array) => array.reduce(ops, team, id, op),
            LamellarReadArray::ReadOnlyArray(array) => array.reduce(ops, team, id, op),
            LamellarReadArray::AtomicArray(array) => array.reduce(ops, team, id, op),
            LamellarReadArray::LocalLockArray(array) => array.reduce(ops, team, id, op),
        }
    }

    /// The sum of all elements.
    pub fn sum(&self, ops: &ReduceOps, team: &LamellarTeamRT, id: u64) -> (r: ReduceRequest)
        requires
            team.wf(),
            ops.knows(id, sum_name()),
        ensures
            asks_for(r, *ops, *team, id, sum_name()),
    {
        match self {
            LamellarReadArray::UnsafeArray(array) => array.sum(ops, team, id),
            LamellarReadArray::ReadOnlyArray(array) => array.sum(ops, team, id),
            LamellarReadArray::AtomicArray(array) => array.sum(ops, team, id),
            LamellarReadArray::LocalLockArray(array) => array.sum(ops, team, id),
        }
    }

    /// The product of all elements.
    pub fn prod(&self, ops: &ReduceOps, team: &LamellarTeamRT, id: u64) -> (r: ReduceRequest)
        requires
            team.wf(),
            ops.knows(id, prod_name()),
        ensures
            asks_for(r, *ops, *team, id, prod_name()),
    {
        match self {
            LamellarReadArray::UnsafeArray(array) => array.prod(ops, team, id),
            LamellarReadArray::ReadOnlyArray(array) => array.prod(ops, team, id),
            LamellarReadArray::AtomicArray(array) => array.prod(ops, team, id),
            LamellarReadArray::LocalLockArray(array) => array.prod(ops, team, id),
        }
    }

    /// The largest element.
    pub fn max(&self, ops: &ReduceOps, team: &LamellarTeamRT, id: u64) -> (r: ReduceRequest)
        requires
            team.wf(),
            ops.knows(id, max_name()),
        ensures
            asks_for(r, *ops, *team, id, max_name()),
    {
        match self {
            LamellarReadArray::UnsafeArray(array) => array.max(ops, team, id),
            LamellarReadArray::ReadOnlyArray(array) => array.max(ops, team, id),
            LamellarReadArray::AtomicArray(array) => array.max(ops, team, id),
            LamellarReadArray::LocalLockArray(array) => array.max(ops, team, id),
        }
    }
}

impl<T> LamellarWriteArray<T> {
    /// The reduction of a name over all elements. It has to be known for this
    /// type of elements.
    pub fn reduce(&self, ops: &ReduceOps, team: &LamellarTeamRT, id: u64, op: &[u8]) -> (r:
        ReduceRequest)
        requires
            team.wf(),
            ops.knows(id, op@),
        ensures
            asks_for(r, *ops, *team, id, op@),
    {
        match self {
            LamellarWriteArray::UnsafeArray(array) => array.reduce(ops, team, id, op),
            LamellarWriteArray::AtomicArray(array) => array.reduce(ops, team, id, op),
            LamellarWriteArray::LocalLockArray(array) => array.reduce(ops, team, id, op),
        }
    }

    /// The sum of all elements.
    pub fn sum(&self, ops: &ReduceOps, team: &LamellarTeamRT, id: u64) -> (r: ReduceRequest)
        requires
            team.wf(),
            ops.knows(id, sum_name()),
        ensures
            asks_for(r, *ops, *team, id, sum_name()),
    {
        match self {
            LamellarWriteArray::UnsafeArray(array) => array.sum(ops, team, id),
            LamellarWriteArray::AtomicArray(array) => array.sum(ops, team, id),
            LamellarWriteArray::LocalLockArray(array) => array.sum(ops, team, id),
        }
    }

    /// The product of all elements.
    pub fn prod(&self, ops: &ReduceOps, team: &LamellarTeamRT, id: u64) -> (r: ReduceRequest)
        requires
            team.wf(),
            ops.knows(id, prod_name()),
        ensures
            asks_for(r, *ops, *team, id, prod_name()),
    {
        match self {
            LamellarWriteArray::UnsafeArray(array) => array.prod(ops, team, id),
            LamellarWriteArray::AtomicArray(array) => array.prod(ops, team, id),
            LamellarWriteArray::LocalLockArray(array) => array.prod(ops, team, id),
        }
    }

    /// The largest element.
    pub fn max(&self, ops: &ReduceOps, team: &LamellarTeamRT, id: u64) -> (r: ReduceRequest)
        requires
            team.wf(),
            ops.knows(id, max_name()),
        ensures
            asks_for(r, *ops, *team, id, max_name()),
    {
        match self {
            LamellarWriteArray::UnsafeArray(array) => array.max(ops, team, id),
            LamellarWriteArray::AtomicArray(array) => array.max(ops, team, id),
            LamellarWriteArray::LocalLockArray(array) => array.max(ops, team, id),
        }
    }
}

} // verus!
