//! Requests that wait to be sent, grouped by destination, team, function and
//! batch, with the number of bytes that each group will take on the wire.

use vstd::prelude::*;

use crate::active_messaging::{
    AmId, LamellarFunc, BATCHED_REMOTE_DATA_ID, BATCHED_UNIT_ID, REMOTE_DATA_ID, UNIT_ID,
};
use crate::math;

verus! {

/// Bytes of the header of a team's group: its size and the team's hash.
pub const TEAM_HEADER_LEN: usize = 16;

/// Bytes of the header of a function's group: its size and the function's id.
pub const FUNC_HEADER_LEN: usize = 12;

/// Bytes of the header of a batch: its size and the batch's id.
pub const BATCH_HEADER_LEN: usize = 16;

/// Bytes in front of a returned value: the request's id and the value's size.
pub const RESULT_HEADER_LEN: usize = 16;

/// The requests of one batch.
pub struct BatchEntry {
    pub batch_id: Option<usize>,
    pub reqs: Vec<(usize, LamellarFunc)>,
    pub size: usize,
}

/// The batches of one function.
pub struct FuncEntry {
    pub func_id: AmId,
    pub batches: Vec<BatchEntry>,
    pub size: usize,
}

/// The functions of one team.
pub struct TeamEntry {
    pub team_hash: u64,
    pub funcs: Vec<FuncEntry>,
    pub size: usize,
}

/// The teams with requests for one destination. No destination means every PE
/// of the team.
pub struct PeEntry {
    pub dst: Option<usize>,
    pub teams: Vec<TeamEntry>,
    pub size: usize,
}

/// All requests that wait to be sent.
pub struct SubmittedAms {
    pub pes: Vec<PeEntry>,
}

/// The bytes that a request takes behind its batch's header.
pub open spec fn request_len(func_id: AmId, func: LamellarFunc) -> int {
    if func_id == BATCHED_UNIT_ID {
        0
    } else if func_id == UNIT_ID {
        8
    } else if func_id == REMOTE_DATA_ID || func_id == BATCHED_REMOTE_DATA_ID {
        16 + func->Result_0@.len() as int
    } else if func_id > 0 {
        func->Am_0.data@.len() as int
    } else {
        8 + func->Am_0.data@.len() as int
    }
}

impl BatchEntry {
    /// The size is the number of bytes that the requests take.
    pub open spec fn exact(self, func_id: AmId) -> bool {
        self.size == math::total(
            Seq::new(self.reqs@.len(), |i: int| request_len(func_id, self.reqs@[i].1)),
        )
    }

    /// Adds a request of `func_size` bytes.
    fn insert(&mut self, req_id: usize, func: LamellarFunc, func_size: usize)
        requires
            old(self).size + func_size <= usize::MAX,
        ensures
            final(self).batch_id == old(self).batch_id,
            final(self).reqs@ == old(self).reqs@.push((req_id, func)),
            final(self).size == old(self).size + func_size,
            forall|func_id: AmId|
                old(self).exact(func_id) && func_size == request_len(func_id, func)
                    ==> #[trigger] final(self).exact(func_id),
    {
        self.reqs.push((req_id, func));
        self.size = self.size + func_size;
        proof {
            assert forall|func_id: AmId|
                old(self).exact(func_id) && func_size == request_len(
                    func_id,
                    func,
                ) implies #[trigger] self.exact(func_id) by {
                let before = Seq::new(
                    old(self).reqs@.len(),
                    |i: int| request_len(func_id, old(self).reqs@[i].1),
                );
                let after = Seq::new(
                    self.reqs@.len(),
                    |i: int| request_len(func_id, self.reqs@[i].1),
                );
                assert(after == before.push(request_len(func_id, func)));
                math::total_push(before, request_len(func_id, func));
            }
        }
    }
}

impl FuncEntry {
    pub open spec fn has(self, batch_id: Option<usize>) -> bool {
        exists|i: int| 0 <= i < self.batches@.len() && #[trigger] self.batches@[i].batch_id == batch_id
    }

    /// Where the batch with this id stands.
    pub open spec fn position(self, batch_id: Option<usize>) -> int {
        choose|i: int| 0 <= i < self.batches@.len() && #[trigger] self.batches@[i].batch_id == batch_id
    }

    /// The requests of a batch, oldest first; none where there is no batch.
    pub open spec fn requests(self, batch_id: Option<usize>) -> Seq<(usize, LamellarFunc)> {
        if self.has(batch_id) {
            self.batches@[self.position(batch_id)].reqs@
        } else {
            Seq::empty()
        }
    }

    /// The bytes of a batch; none where there is no batch.
    pub open spec fn batch_size(self, batch_id: Option<usize>) -> int {
        if self.has(batch_id) {
            self.batches@[self.position(batch_id)].size as int
        } else {
            0
        }
    }

    pub open spec fn parts(self) -> Seq<int> {
        Seq::new(self.batches@.len(), |i: int| BATCH_HEADER_LEN + self.batches@[i].size)
    }

    /// Every batch stands here once, none is empty, and the size is that of all
    /// of them with their headers.
    pub open spec fn wf(self) -> bool {
        &&& forall|i: int|
            0 <= i < self.batches@.len() ==> (#[trigger] self.batches@[i]).reqs@.len() > 0
        &&& forall|i: int, j: int|
            0 <= i < j < self.batches@.len() ==> (#[trigger] self.batches@[i]).batch_id != (
            #[trigger] self.batches@[j]).batch_id
        &&& self.size == math::total(self.parts())
    }

    /// The size is the number of bytes that the batches take.
    pub open spec fn exact(self) -> bool {
        &&& self.size == math::total(self.parts())
        &&& forall|i: int|
            0 <= i < self.batches@.len() ==> (#[trigger] self.batches@[i]).exact(self.func_id)
    }

    /// By how much a request of `func_size` bytes makes the group grow.
    pub open spec fn growth(self, batch_id: Option<usize>, func_size: int) -> int {
        func_size + if self.has(batch_id) {
            0
        } else {
            BATCH_HEADER_LEN as int
        }
    }

    proof fn position_of(self, i: int)
        requires
            self.wf(),
            0 <= i < self.batches@.len(),
        ensures
            self.has(self.batches@[i].batch_id),
            self.position(self.batches@[i].batch_id) == i,
    {
        let b = self.batches@[i].batch_id;
        let p = self.position(b);
        assert(self.batches@[p].batch_id == b);
    }

    /// Adds a request of `func_size` bytes to a batch and says by how much the
    /// group grew.
    fn insert(
        &mut self,
        batch_id: Option<usize>,
        req_id: usize,
        func: LamellarFunc,
        func_size: usize,
    ) -> (growth: usize)
        requires
            old(self).wf(),
            old(self).size + func_size + BATCH_HEADER_LEN <= usize::MAX,
        ensures
            final(self).wf(),
            final(self).func_id == old(self).func_id,
            growth == old(self).growth(batch_id, func_size as int),
            final(self).size == old(self).size + growth,
            final(self).requests(batch_id) == old(self).requests(batch_id).push((req_id, func)),
            final(self).batch_size(batch_id) == old(self).batch_size(batch_id) + func_size,
            final(self).has(batch_id),
            forall|b: Option<usize>|
                b != batch_id ==> #[trigger] final(self).requests(b) == old(self).requests(b)
                    && final(self).batch_size(b) == old(self).batch_size(b) && final(self).has(b)
                    == old(self).has(b),
            old(self).exact() && func_size == request_len(old(self).func_id, func) ==> final(self).exact(),
    {
        let mut at: usize = 0;
        while at < self.batches.len() && self.batches[at].batch_id != batch_id
            invariant
                at <= self.batches@.len(),
                forall|i: int| 0 <= i < at ==> (#[trigger] self.batches@[i]).batch_id != batch_id,
            decreases self.batches@.len() - at,
        {
            at = at + 1;
        }
        let ghost before = *self;
        let is_new = at == self.batches.len();
        if is_new {
            self.batches.push(BatchEntry { batch_id, reqs: Vec::new(), size: 0 });
            proof {
                assert(!before.has(batch_id));
                assert(math::total(Seq::<int>::empty()) == 0);
                assert(self.batches@[at as int].exact(self.func_id)) by {
                    assert(Seq::new(
                        0,
                        |i: int| request_len(self.func_id, self.batches@[at as int].reqs@[i].1),
                    ) == Seq::<int>::empty());
                }
            }
        } else {
            proof {
                assert(before.batches@[at as int].batch_id == batch_id);
                assert(before.position(batch_id) == at);
            }
        }
        let growth: usize = if is_new {
            func_size + BATCH_HEADER_LEN
        } else {
            func_size
        };
        proof {
            if at < before.batches@.len() {
                math::total_at_least(before.parts(), at as int);
                assert(before.parts()[at as int] == BATCH_HEADER_LEN + before.batches@[at as int].size);
            }
        }
        self.batches[at].insert(req_id, func, func_size);
        self.size = self.size + growth;
        proof {
            let x = BATCH_HEADER_LEN + self.batches@[at as int].size;
            if at < before.batches@.len() {
                math::total_update(before.parts(), at as int, x);
                assert(self.parts() == before.parts().update(at as int, x));
            } else {
                math::total_push(before.parts(), x);
                assert(self.parts() == before.parts().push(x));
            }
            self.position_of(at as int);
            assert forall|b: Option<usize>| b != batch_id implies #[trigger] self.has(b)
                == before.has(b) && (self.has(b) ==> self.batches@[self.position(b)]
                == before.batches@[before.position(b)]) by {
                if before.has(b) {
                    let p = before.position(b);
                    assert(self.batches@[p] == before.batches@[p]);
                    self.position_of(p);
                } else if self.has(b) {
                    let p = self.position(b);
                    assert(p != at);
                    assert(before.batches@[p].batch_id == b);
                }
            }
            assert forall|b: Option<usize>| b != batch_id implies #[trigger] self.requests(b)
                == before.requests(b) && self.batch_size(b) == before.batch_size(b) && self.has(b)
                == before.has(b) by {
                let same = self.has(b) == before.has(b);
            }
        }
        growth
    }
}

impl TeamEntry {
    /// Whether the team has requests for this function.
    pub open spec fn has(self, func_id: AmId) -> bool {
        exists|i: int| 0 <= i < self.funcs@.len() && #[trigger] self.funcs@[i].func_id == func_id
    }

    /// Where the group with this key stands.
    pub open spec fn position(self, func_id: AmId) -> int {
        choose|i: int| 0 <= i < self.funcs@.len() && #[trigger] self.funcs@[i].func_id == func_id
    }

    /// The requests of a batch, oldest first; none where there is no batch.
    pub open spec fn requests(self, func_id: AmId, batch_id: Option<usize>) -> Seq<
        (usize, LamellarFunc),
    > {
        if self.has(func_id) {
            self.funcs@[self.position(func_id)].requests(batch_id)
        } else {
            Seq::empty()
        }
    }

    /// The bytes of a batch; none where there is no batch.
    pub open spec fn batch_size(self, func_id: AmId, batch_id: Option<usize>) -> int {
        if self.has(func_id) {
            self.funcs@[self.position(func_id)].batch_size(batch_id)
        } else {
            0
        }
    }

    /// Whether there is such a batch.
    pub open spec fn has_batch(self, func_id: AmId, batch_id: Option<usize>) -> bool {
        self.has(func_id) && self.funcs@[self.position(func_id)].has(batch_id)
    }

    pub open spec fn parts(self) -> Seq<int> {
        Seq::new(self.funcs@.len(), |i: int| FUNC_HEADER_LEN + self.funcs@[i].size)
    }

    /// Every group stands here once, none is empty, and the size is that of all
    /// of them with their headers.
    pub open spec fn wf(self) -> bool {
        &&& forall|i: int, j: int|
            0 <= i < j < self.funcs@.len() ==> (#[trigger] self.funcs@[i]).func_id != (
            #[trigger] self.funcs@[j]).func_id
        &&& forall|i: int|
            0 <= i < self.funcs@.len() ==> (#[trigger] self.funcs@[i]).wf()
                && self.funcs@[i].batches@.len() > 0
        &&& self.size == math::total(self.parts())
    }

    /// The size is the number of bytes that the groups take.
    pub open spec fn exact(self) -> bool {
        &&& self.size == math::total(self.parts())
        &&& forall|i: int| 0 <= i < self.funcs@.len() ==> (#[trigger] self.funcs@[i]).exact()
    }

    /// By how much a request of `func_size` bytes makes the group grow.
    pub open spec fn growth(self, func_id: AmId, batch_id: Option<usize>, func_size: int) -> int {
        if self.has(func_id) {
            self.funcs@[self.position(func_id)].growth(batch_id, func_size)
        } else {
            func_size + BATCH_HEADER_LEN + FUNC_HEADER_LEN
        }
    }

    proof fn position_of(self, i: int)
        requires
            self.wf(),
            0 <= i < self.funcs@.len(),
        ensures
            self.has(self.funcs@[i].func_id),
            self.position(self.funcs@[i].func_id) == i,
    {
        let p = self.position(self.funcs@[i].func_id);
        assert(self.funcs@[p].func_id == self.funcs@[i].func_id);
    }

    /// Adds a request of `func_size` bytes and says by how much the group grew.
    fn insert(
        &mut self,
        func_id: AmId,
        batch_id: Option<usize>,
        req_id: usize,
        func: LamellarFunc,
        func_size: usize,
    ) -> (growth: usize)
        requires
            old(self).wf(),
            old(self).size + func_size + BATCH_HEADER_LEN + FUNC_HEADER_LEN <= usize::MAX,
        ensures
            final(self).wf(),
            growth == old(self).growth(func_id, batch_id, func_size as int),
            final(self).size == old(self).size + growth,
            final(self).team_hash == old(self).team_hash,
            final(self).funcs@.len() > 0,
            final(self).has_batch(func_id, batch_id),
            final(self).requests(func_id, batch_id) == old(self).requests(func_id, batch_id).push((req_id, func)),
            final(self).batch_size(func_id, batch_id) == old(self).batch_size(func_id, batch_id) + func_size,
            forall|f: AmId, b: Option<usize>|
                f != func_id || b != batch_id ==> #[trigger] final(self).requests(f, b) == old(self).requests(f, b)
                    && final(self).batch_size(f, b) == old(self).batch_size(f, b)
                    && final(self).has_batch(f, b) == old(self).has_batch(f, b),
            old(self).exact() && func_size == request_len(func_id, func) ==> final(self).exact(),
    {
        let mut at: usize = 0;
        while at < self.funcs.len() && self.funcs[at].func_id != func_id
            invariant
                at <= self.funcs@.len(),
                forall|i: int| 0 <= i < at ==> (#[trigger] self.funcs@[i]).func_id != func_id,
            decreases self.funcs@.len() - at,
        {
            at = at + 1;
        }
        let ghost before = *self;
        if at == self.funcs.len() {
            self.funcs.push(FuncEntry { func_id, batches: Vec::new(), size: 0 });
            proof {
                assert(!before.has(func_id));
                assert(self.funcs@[at as int].parts() == Seq::<int>::empty());
                assert(math::total(Seq::<int>::empty()) == 0);
                assert(!self.funcs@[at as int].has(batch_id));
            }
        } else {
            proof {
                before.position_of(at as int);
                let parts = before.funcs@[at as int].parts();
                math::total_at_least(parts, 0);
            }
        }
        proof {
            if at < before.funcs@.len() {
                math::total_at_least(before.parts(), at as int);
                assert(before.parts()[at as int] == FUNC_HEADER_LEN + before.funcs@[at as int].size);
            } else {
                math::total_nonnegative(before.parts());
            }
        }
        let header: usize = if self.funcs[at].size == 0 {
            FUNC_HEADER_LEN
        } else {
            0
        };
        let growth: usize = header + self.funcs[at].insert(batch_id, req_id, func, func_size);
        self.size = self.size + growth;
        proof {
            let x = FUNC_HEADER_LEN + self.funcs@[at as int].size;
            if at < before.funcs@.len() {
                math::total_update(before.parts(), at as int, x);
                assert(self.parts() == before.parts().update(at as int, x));
            } else {
                math::total_push(before.parts(), x);
                assert(self.parts() == before.parts().push(x));
            }
            self.position_of(at as int);
            assert forall|f: AmId| f != func_id implies #[trigger] self.has(f) == before.has(f) && (
            self.has(f) ==> self.funcs@[self.position(f)] == before.funcs@[before.position(f)]) by {
                if before.has(f) {
                    let p = before.position(f);
                    assert(self.funcs@[p] == before.funcs@[p]);
                    self.position_of(p);
                } else if self.has(f) {
                    let p = self.position(f);
                    assert(p != at);
                    assert(before.funcs@[p].func_id == f);
                }
            }
            assert forall|f: AmId, b: Option<usize>| f != func_id || b != batch_id implies #[trigger] self.requests(f, b) == before.requests(f, b)
                && self.batch_size(f, b) == before.batch_size(f, b) && self.has_batch(f, b)
                == before.has_batch(f, b) by {
                let same = self.has(f) == before.has(f);
                if f == func_id {
                    let inner = self.funcs@[at as int].requests(b);
                }
            }
        }
        growth
    }
}

impl PeEntry {
    /// Whether there are requests of this team.
    pub open spec fn has(self, team_hash: u64) -> bool {
        exists|i: int| 0 <= i < self.teams@.len() && #[trigger] self.teams@[i].team_hash == team_hash
    }

    /// Where the group with this key stands.
    pub open spec fn position(self, team_hash: u64) -> int {
        choose|i: int| 0 <= i < self.teams@.len() && #[trigger] self.teams@[i].team_hash == team_hash
    }

    /// The requests of a batch, oldest first; none where there is no batch.
    pub open spec fn requests(self, team_hash: u64, func_id: AmId, batch_id: Option<usize>) -> Seq<
        (usize, LamellarFunc),
    > {
        if self.has(team_hash) {
            self.teams@[self.position(team_hash)].requests(func_id, batch_id)
        } else {
            Seq::empty()
        }
    }

    /// The bytes of a batch; none where there is no batch.
    pub open spec fn batch_size(self, team_hash: u64, func_id: AmId, batch_id: Option<usize>) -> int {
        if self.has(team_hash) {
            self.teams@[self.position(team_hash)].batch_size(func_id, batch_id)
        } else {
            0
        }
    }

    /// Whether there is such a batch.
    pub open spec fn has_batch(self, team_hash: u64, func_id: AmId, batch_id: Option<usize>) -> bool {
        self.has(team_hash) && self.teams@[self.position(team_hash)].has_batch(func_id, batch_id)
    }

    pub open spec fn parts(self) -> Seq<int> {
        Seq::new(self.teams@.len(), |i: int| TEAM_HEADER_LEN + self.teams@[i].size)
    }

    /// Every group stands here once, none is empty, and the size is that of all
    /// of them with their headers.
    pub open spec fn wf(self) -> bool {
        &&& forall|i: int, j: int|
            0 <= i < j < self.teams@.len() ==> (#[trigger] self.teams@[i]).team_hash != (
            #[trigger] self.teams@[j]).team_hash
        &&& forall|i: int|
            0 <= i < self.teams@.len() ==> (#[trigger] self.teams@[i]).wf()
                && self.teams@[i].funcs@.len() > 0
        &&& self.size == math::total(self.parts())
    }

    /// The size is the number of bytes that the groups take.
    pub open spec fn exact(self) -> bool {
        &&& self.size == math::total(self.parts())
        &&& forall|i: int| 0 <= i < self.teams@.len() ==> (#[trigger] self.teams@[i]).exact()
    }

    /// By how much a request of `func_size` bytes makes the group grow.
    pub open spec fn growth(self, team_hash: u64, func_id: AmId, batch_id: Option<usize>, func_size: int) -> int {
        if self.has(team_hash) {
            self.teams@[self.position(team_hash)].growth(func_id, batch_id, func_size)
        } else {
            func_size + BATCH_HEADER_LEN + FUNC_HEADER_LEN + TEAM_HEADER_LEN
        }
    }

    proof fn position_of(self, i: int)
        requires
            self.wf(),
            0 <= i < self.teams@.len(),
        ensures
            self.has(self.teams@[i].team_hash),
            self.position(self.teams@[i].team_hash) == i,
    {
        let p = self.position(self.teams@[i].team_hash);
        assert(self.teams@[p].team_hash == self.teams@[i].team_hash);
    }

    /// Adds a request of `func_size` bytes and says by how much the group grew.
    fn insert(
        &mut self,
        team_hash: u64,
        func_id: AmId,
        batch_id: Option<usize>,
        req_id: usize,
        func: LamellarFunc,
        func_size: usize,
    ) -> (growth: usize)
        requires
            old(self).wf(),
            old(self).size + func_size + BATCH_HEADER_LEN + FUNC_HEADER_LEN + TEAM_HEADER_LEN <= usize::MAX,
        ensures
            final(self).wf(),
            growth == old(self).growth(team_hash, func_id, batch_id, func_size as int),
            final(self).size == old(self).size + growth,
            final(self).dst == old(self).dst,
            final(self).teams@.len() > 0,
            final(self).has_batch(team_hash, func_id, batch_id),
            final(self).requests(team_hash, func_id, batch_id) == old(self).requests(team_hash, func_id, batch_id).push((req_id, func)),
            final(self).batch_size(team_hash, func_id, batch_id) == old(self).batch_size(team_hash, func_id, batch_id) + func_size,
            forall|t: u64, f: AmId, b: Option<usize>|
                t != team_hash || f != func_id || b != batch_id ==> #[trigger] final(self).requests(t, f, b) == old(self).requests(t, f, b)
                    && final(self).batch_size(t, f, b) == old(self).batch_size(t, f, b)
                    && final(self).has_batch(t, f, b) == old(self).has_batch(t, f, b),
            old(self).exact() && func_size == request_len(func_id, func) ==> final(self).exact(),
    {
        let mut at: usize = 0;
        while at < self.teams.len() && self.teams[at].team_hash != team_hash
            invariant
                at <= self.teams@.len(),
                forall|i: int| 0 <= i < at ==> (#[trigger] self.teams@[i]).team_hash != team_hash,
            decreases self.teams@.len() - at,
        {
            at = at + 1;
        }
        let ghost before = *self;
        if at == self.teams.len() {
            self.teams.push(TeamEntry { team_hash, funcs: Vec::new(), size: 0 });
            proof {
                assert(!before.has(team_hash));
                assert(self.teams@[at as int].parts() == Seq::<int>::empty());
                assert(math::total(Seq::<int>::empty()) == 0);
                assert(!self.teams@[at as int].has(func_id));
            }
        } else {
            proof {
                before.position_of(at as int);
                let parts = before.teams@[at as int].parts();
                math::total_at_least(parts, 0);
            }
        }
        proof {
            if at < before.teams@.len() {
                math::total_at_least(before.parts(), at as int);
                assert(before.parts()[at as int] == TEAM_HEADER_LEN + before.teams@[at as int].size);
            } else {
                math::total_nonnegative(before.parts());
            }
        }
        let header: usize = if self.teams[at].size == 0 {
            TEAM_HEADER_LEN
        } else {
            0
        };
        let growth: usize = header + self.teams[at].insert(func_id, batch_id, req_id, func, func_size);
        self.size = self.size + growth;
        proof {
            let x = TEAM_HEADER_LEN + self.teams@[at as int].size;
            if at < before.teams@.len() {
                math::total_update(before.parts(), at as int, x);
                assert(self.parts() == before.parts().update(at as int, x));
            } else {
                math::total_push(before.parts(), x);
                assert(self.parts() == before.parts().push(x));
            }
            self.position_of(at as int);
            assert forall|t: u64| t != team_hash implies #[trigger] self.has(t) == before.has(t) && (
            self.has(t) ==> self.teams@[self.position(t)] == before.teams@[before.position(t)]) by {
                if before.has(t) {
                    let p = before.position(t);
                    assert(self.teams@[p] == before.teams@[p]);
                    self.position_of(p);
                } else if self.has(t) {
                    let p = self.position(t);
                    assert(p != at);
                    assert(before.teams@[p].team_hash == t);
                }
            }
            assert forall|t: u64, f: AmId, b: Option<usize>| t != team_hash || f != func_id || b != batch_id implies #[trigger] self.requests(t, f, b) == before.requests(t, f, b)
                && self.batch_size(t, f, b) == before.batch_size(t, f, b) && self.has_batch(t, f, b)
                == before.has_batch(t, f, b) by {
                let same = self.has(t) == before.has(t);
                if t == team_hash {
                    let inner = self.teams@[at as int].requests(f, b);
                }
            }
        }
        growth
    }
}

/// A request, where it belongs, and how many bytes it takes.
pub struct Request {
    pub team_hash: u64,
    pub func_id: AmId,
    pub batch_id: Option<usize>,
    pub id: usize,
    pub func: LamellarFunc,
    pub size: int,
}

/// Whether a request was added to those that wait for a destination, at the end
/// of its batch, and nothing else changed.
pub open spec fn added(
    before: SubmittedAms,
    after: SubmittedAms,
    dst: Option<usize>,
    r: Request,
) -> bool {
    &&& after.wf()
    &&& before.exact() && r.size == request_len(r.func_id, r.func) ==> after.exact()
    &&& forall|d: Option<usize>| #[trigger] after.has(d) <==> before.has(d) || d == dst
    &&& after.total_size(dst) == before.total_size(dst) + before.growth(
        dst,
        r.team_hash,
        r.func_id,
        r.batch_id,
        r.size,
    )
    &&& forall|d: Option<usize>|
        d != dst ==> #[trigger] after.total_size(d) == before.total_size(d)
    &&& after.has_batch(dst, r.team_hash, r.func_id, r.batch_id)
    &&& after.requests(dst, r.team_hash, r.func_id, r.batch_id) == before.requests(
        dst,
        r.team_hash,
        r.func_id,
        r.batch_id,
    ).push((r.id, r.func))
    &&& after.batch_size(dst, r.team_hash, r.func_id, r.batch_id) == before.batch_size(
        dst,
        r.team_hash,
        r.func_id,
        r.batch_id,
    ) + r.size
    &&& forall|d: Option<usize>, t: u64, f: AmId, b: Option<usize>|
        d != dst || t != r.team_hash || f != r.func_id || b != r.batch_id
            ==> #[trigger] after.requests(d, t, f, b) == before.requests(d, t, f, b)
            && after.batch_size(d, t, f, b) == before.batch_size(d, t, f, b) && after.has_batch(
            d,
            t,
            f,
            b,
        ) == before.has_batch(d, t, f, b)
}

impl SubmittedAms {
    /// Whether requests wait for this destination.
    pub open spec fn has(self, dst: Option<usize>) -> bool {
        exists|i: int| 0 <= i < self.pes@.len() && #[trigger] self.pes@[i].dst == dst
    }

    /// Where the group with this key stands.
    pub open spec fn position(self, dst: Option<usize>) -> int {
        choose|i: int| 0 <= i < self.pes@.len() && #[trigger] self.pes@[i].dst == dst
    }

    /// The requests of a batch, oldest first; none where there is no batch.
    pub open spec fn requests(self, dst: Option<usize>, team_hash: u64, func_id: AmId, batch_id: Option<usize>) -> Seq<
        (usize, LamellarFunc),
    > {
        if self.has(dst) {
            self.pes@[self.position(dst)].requests(team_hash, func_id, batch_id)
        } else {
            Seq::empty()
        }
    }

    /// The bytes of a batch; none where there is no batch.
    pub open spec fn batch_size(self, dst: Option<usize>, team_hash: u64, func_id: AmId, batch_id: Option<usize>) -> int {
        if self.has(dst) {
            self.pes@[self.position(dst)].batch_size(team_hash, func_id, batch_id)
        } else {
            0
        }
    }

    /// Whether there is such a batch.
    pub open spec fn has_batch(self, dst: Option<usize>, team_hash: u64, func_id: AmId, batch_id: Option<usize>) -> bool {
        self.has(dst) && self.pes@[self.position(dst)].has_batch(team_hash, func_id, batch_id)
    }

    /// Whether requests of a team wait for a destination.
    pub open spec fn has_team(self, dst: Option<usize>, team_hash: u64) -> bool {
        self.has(dst) && self.pes@[self.position(dst)].has(team_hash)
    }

    /// Whether requests for a function of a team wait for a destination.
    pub open spec fn has_func(self, dst: Option<usize>, team_hash: u64, func_id: AmId) -> bool {
        self.has_team(dst, team_hash) && ({
            let pe = self.pes@[self.position(dst)];
            pe.teams@[pe.position(team_hash)].has(func_id)
        })
    }

    /// Every group stands here once, none is empty.
    pub open spec fn wf(self) -> bool {
        &&& forall|i: int, j: int|
            0 <= i < j < self.pes@.len() ==> (#[trigger] self.pes@[i]).dst != (
            #[trigger] self.pes@[j]).dst
        &&& forall|i: int|
            0 <= i < self.pes@.len() ==> (#[trigger] self.pes@[i]).wf()
                && self.pes@[i].teams@.len() > 0
    }

    /// Each size is the number of bytes that its group takes.
    pub open spec fn exact(self) -> bool {
        forall|i: int| 0 <= i < self.pes@.len() ==> (#[trigger] self.pes@[i]).exact()
    }

    /// The bytes of all requests for a destination.
    pub open spec fn total_size(self, dst: Option<usize>) -> int {
        if self.has(dst) {
            self.pes@[self.position(dst)].size as int
        } else {
            0
        }
    }

    /// By how much a request of `func_size` bytes makes its destination's
    /// message grow: by a header for each group that it opens.
    pub open spec fn growth(
        self,
        dst: Option<usize>,
        team_hash: u64,
        func_id: AmId,
        batch_id: Option<usize>,
        func_size: int,
    ) -> int {
        func_size + (if self.has_batch(dst, team_hash, func_id, batch_id) {
            0
        } else {
            BATCH_HEADER_LEN as int
        }) + (if self.has_func(dst, team_hash, func_id) {
            0
        } else {
            FUNC_HEADER_LEN as int
        }) + (if self.has_team(dst, team_hash) {
            0
        } else {
            TEAM_HEADER_LEN as int
        })
    }

    /// Nothing waits.
    pub fn new() -> (s: Self)
        ensures
            s.wf(),
            s.exact(),
            s.pes@.len() == 0,
            forall|dst: Option<usize>| !#[trigger] s.has(dst),
    {
        SubmittedAms { pes: Vec::new() }
    }

    proof fn position_of(self, i: int)
        requires
            self.wf(),
            0 <= i < self.pes@.len(),
        ensures
            self.has(self.pes@[i].dst),
            self.position(self.pes@[i].dst) == i,
    {
        let p = self.position(self.pes@[i].dst);
        assert(self.pes@[p].dst == self.pes@[i].dst);
    }

    /// Adds a request of `func_size` bytes to its batch. Answers whether it is the
    /// first for its destination: then a message to that destination has to be
    /// put together.
    pub fn insert(
        &mut self,
        dst: Option<usize>,
        team_hash: u64,
        func_id: AmId,
        batch_id: Option<usize>,
        req_id: usize,
        func: LamellarFunc,
        func_size: usize,
    ) -> (first: bool)
        requires
            old(self).wf(),
            old(self).total_size(dst) + func_size + BATCH_HEADER_LEN + FUNC_HEADER_LEN + TEAM_HEADER_LEN <= usize::MAX,
        ensures
            first == !old(self).has(dst),
            added(
                *old(self),
                *final(self),
                dst,
                Request {
                    team_hash,
                    func_id,
                    batch_id,
                    id: req_id,
                    func,
                    size: func_size as int,
                },
            ),
            final(self).requests(dst, team_hash, func_id, batch_id) == old(self).requests(
                dst,
                team_hash,
                func_id,
                batch_id,
            ).push((req_id, func)),
            final(self).total_size(dst) == old(self).total_size(dst) + func_size + (if old(
                self,
            ).has_batch(dst, team_hash, func_id, batch_id) {
                0int
            } else {
                16
            }) + (if old(self).has_func(dst, team_hash, func_id) {
                0int
            } else {
                12
            }) + (if old(self).has_team(dst, team_hash) {
                0int
            } else {
                16
            }),
    {
        let mut at: usize = 0;
        while at < self.pes.len() && self.pes[at].dst != dst
            invariant
                at <= self.pes@.len(),
                forall|i: int| 0 <= i < at ==> (#[trigger] self.pes@[i]).dst != dst,
            decreases self.pes@.len() - at,
        {
            at = at + 1;
        }
        let ghost before = *self;
        if at == self.pes.len() {
            self.pes.push(PeEntry { dst, teams: Vec::new(), size: 0 });
            proof {
                assert(!before.has(dst));
                assert(self.pes@[at as int].parts() == Seq::<int>::empty());
                assert(math::total(Seq::<int>::empty()) == 0);
                assert(!self.pes@[at as int].has(team_hash));
            }
        } else {
            proof {
                before.position_of(at as int);
                let parts = before.pes@[at as int].parts();
                math::total_at_least(parts, 0);
            }
        }
        let first = self.pes[at].size == 0;
        self.pes[at].insert(team_hash, func_id, batch_id, req_id, func, func_size);
        proof {
            self.position_of(at as int);
            assert forall|d: Option<usize>| d != dst implies #[trigger] self.has(d) == before.has(d) && (
            self.has(d) ==> self.pes@[self.position(d)] == before.pes@[before.position(d)]) by {
                if before.has(d) {
                    let p = before.position(d);
                    assert(self.pes@[p] == before.pes@[p]);
                    self.position_of(p);
                } else if self.has(d) {
                    let p = self.position(d);
                    assert(p != at);
                    assert(before.pes@[p].dst == d);
                }
            }
            assert forall|d: Option<usize>, t: u64, f: AmId, b: Option<usize>| d != dst || t != team_hash || f != func_id || b != batch_id implies #[trigger] self.requests(d, t, f, b) == before.requests(d, t, f, b)
                && self.batch_size(d, t, f, b) == before.batch_size(d, t, f, b) && self.has_batch(d, t, f, b)
                == before.has_batch(d, t, f, b) by {
                let same = self.has(d) == before.has(d);
                if d == dst {
                    let inner = self.pes@[at as int].requests(t, f, b);
                }
            }
        }
        first
    }

    proof fn others_stay(self, after: SubmittedAms, at: int)
        requires
            self.wf(),
            0 <= at < self.pes@.len(),
            after.pes@ == self.pes@.remove(at),
        ensures
            after.wf(),
            self.exact() ==> after.exact(),
            !after.has(self.pes@[at].dst),
            forall|d: Option<usize>|
                d != self.pes@[at].dst ==> #[trigger] after.has(d) == self.has(d) && (self.has(d)
                    ==> after.pes@[after.position(d)] == self.pes@[self.position(d)]),
    {
        assert forall|i: int| 0 <= i < after.pes@.len() implies #[trigger] after.pes@[i]
            == self.pes@[if i < at {
            i
        } else {
            i + 1
        }] by {}
        assert forall|d: Option<usize>| d != self.pes@[at].dst implies #[trigger] after.has(d)
            == self.has(d) && (self.has(d) ==> after.pes@[after.position(d)]
            == self.pes@[self.position(d)]) by {
            if self.has(d) {
                let p = self.position(d);
                let q = if p < at {
                    p
                } else {
                    p - 1
                };
                assert(after.pes@[q] == self.pes@[p]);
                after.position_of(q);
            } else if after.has(d) {
                let p = after.position(d);
                let q = if p < at {
                    p
                } else {
                    p + 1
                };
                assert(self.pes@[q].dst == d);
            }
        }
    }

    /// Takes out everything that waits for a destination.
    pub fn take(&mut self, dst: Option<usize>) -> (entry: Option<PeEntry>)
        requires
            old(self).wf(),
        ensures
            final(self).wf(),
            old(self).exact() ==> final(self).exact(),
            entry == (if old(self).has(dst) {
                Some(old(self).pes@[old(self).position(dst)])
            } else {
                None
            }),
            !final(self).has(dst),
            entry matches Some(e) ==> e.dst == dst && old(self).pes@.contains(e),
            entry is None ==> final(self).pes@ == old(self).pes@ && forall|i: int|
                0 <= i < old(self).pes@.len() ==> (#[trigger] old(self).pes@[i]).dst != dst,
            entry is Some ==> final(self).pes@.len() == old(self).pes@.len() - 1,
            forall|i: int|
                0 <= i < final(self).pes@.len() ==> (#[trigger] final(self).pes@[i]).dst != dst
                    && old(self).pes@.contains(final(self).pes@[i]),
            forall|d: Option<usize>|
                d != dst ==> #[trigger] final(self).has(d) == old(self).has(d) && (old(self).has(d)
                    ==> final(self).pes@[final(self).position(d)] == old(self).pes@[old(
                    self,
                ).position(d)]),
    {
        let mut at: usize = 0;
        while at < self.pes.len() && self.pes[at].dst != dst
            invariant
                at <= self.pes@.len(),
                forall|i: int| 0 <= i < at ==> (#[trigger] self.pes@[i]).dst != dst,
            decreases self.pes@.len() - at,
        {
            at = at + 1;
        }
        if at == self.pes.len() {
            return None;
        }
        let ghost before = *self;
        let entry = self.pes.remove(at);
        proof {
            before.position_of(at as int);
            before.others_stay(*self, at as int);
            assert(before.pes@[at as int] == entry);
            assert forall|i: int| 0 <= i < self.pes@.len() implies (#[trigger] self.pes@[i]).dst
                != dst && before.pes@.contains(self.pes@[i]) by {
                let j = if i < at {
                    i
                } else {
                    i + 1
                };
                assert(self.pes@[i] == before.pes@[j]);
                assert(before.pes@[at as int].dst == dst);
            }
        }
        Some(entry)
    }
}

/// Looking a batch up by its keys finds the batch that stands under them.
pub proof fn requests_by_index(s: SubmittedAms, i: int, j: int, k: int, l: int)
    requires
        s.wf(),
        0 <= i < s.pes@.len(),
        0 <= j < s.pes@[i].teams@.len(),
        0 <= k < s.pes@[i].teams@[j].funcs@.len(),
        0 <= l < s.pes@[i].teams@[j].funcs@[k].batches@.len(),
    ensures
        s.requests(
            s.pes@[i].dst,
            s.pes@[i].teams@[j].team_hash,
            s.pes@[i].teams@[j].funcs@[k].func_id,
            s.pes@[i].teams@[j].funcs@[k].batches@[l].batch_id,
        ) == s.pes@[i].teams@[j].funcs@[k].batches@[l].reqs@,
{
    s.position_of(i);
    s.pes@[i].position_of(j);
    s.pes@[i].teams@[j].position_of(k);
    s.pes@[i].teams@[j].funcs@[k].position_of(l);
}

/// There is a team, or a function of it, where there is a batch of it.
pub proof fn groups_have_batches(s: SubmittedAms, dst: Option<usize>, t: u64, f: AmId)
    requires
        s.wf(),
    ensures
        s.has_team(dst, t) <==> exists|g: AmId, b: Option<usize>|
            #[trigger] s.has_batch(dst, t, g, b),
        s.has_func(dst, t, f) <==> exists|b: Option<usize>| #[trigger] s.has_batch(dst, t, f, b),
{
    if s.has_team(dst, t) {
        let pe = s.pes@[s.position(dst)];
        let team = pe.teams@[pe.position(t)];
        assert(pe.wf());
        assert(team.wf() && team.funcs@.len() > 0);
        let func = team.funcs@[0];
        assert(func.wf() && func.batches@.len() > 0);
        team.position_of(0);
        func.position_of(0);
        assert(s.has_batch(dst, t, func.func_id, func.batches@[0].batch_id));
        if s.has_func(dst, t, f) {
            let func = team.funcs@[team.position(f)];
            assert(func.wf() && func.batches@.len() > 0);
            func.position_of(0);
            assert(s.has_batch(dst, t, f, func.batches@[0].batch_id));
        }
    }
}

} // verus!
