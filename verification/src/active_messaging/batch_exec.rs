//! Executing the active messages of a batch and answering them together.
//!
//! Each active message runs in a task of its own. A task notes its result, then
//! counts itself as done. The task that counts last answers for all of them,
//! as soon as the whole batch has been read.

use vstd::prelude::*;

use crate::active_messaging::message;
use crate::active_messaging::{AmId, Cmd, ExecType, LamellarFunc, LamellarReturn, ReqMeta};
use crate::active_messaging::txed;

verus! {

/// How far the execution of a batch is.
pub struct BatchExec {
    /// Bytes of the batch.
    pub len: usize,
    /// Bytes that were read.
    pub index: usize,
    /// Active messages that were read.
    pub req_cnt: usize,
    /// Tasks that are done.
    pub exec_cnt: usize,
    /// Whether the whole batch has been read.
    pub processed: bool,
    /// The results so far, each with the number of its request in the batch.
    pub results: Vec<(usize, LamellarReturn)>,
    /// How many of the results are empty.
    pub units: usize,
}

/// How many of the results are empty.
pub open spec fn unit_count(results: Seq<(usize, LamellarReturn)>) -> nat
    decreases results.len(),
{
    if results.len() == 0 {
        0
    } else {
        unit_count(results.drop_last()) + if results.last().1 is Unit {
            1nat
        } else {
            0
        }
    }
}

/// What a task does next once it is done.
#[derive(Clone, Copy, Debug, PartialEq, Eq, Structural)]
pub enum Turn {
    /// Another task will answer.
    Leave,
    /// Look again later.
    Wait,
    /// Answer for the whole batch.
    Answer,
}

/// What one task learns when it notes its result: how many results there are,
/// and how many of them are empty.
#[derive(Clone, Copy, Debug, PartialEq, Eq, Structural)]
pub struct Noted {
    pub num_rets: usize,
    pub num_unit_rets: usize,
}

/// Where answers go: the PE that answers and the PE that asked, in which team,
/// for which batch.
#[derive(Clone, Copy, Debug, PartialEq, Eq, Structural)]
pub struct BatchOrigin {
    pub world_pe: usize,
    pub src: usize,
    pub team_hash: u64,
    pub batch_id: usize,
}

/// The one answer for a batch whose results are all empty.
pub open spec fn unit_answer(origin: BatchOrigin) -> ReqMeta {
    ReqMeta {
        src: origin.world_pe,
        dst: Some(origin.src),
        cmd: ExecType::Am(Cmd::BatchedUnitReturn),
        id: origin.batch_id,
        batch_id: Some(origin.batch_id),
        team_hash: origin.team_hash,
    }
}

/// The answer for one request of a batch.
pub open spec fn result_answer(
    origin: BatchOrigin,
    result: (usize, LamellarReturn),
) -> (ReqMeta, LamellarFunc) {
    let cmd = if result.1 is RemoteAm {
        Cmd::BatchedAmReturn
    } else {
        Cmd::BatchedDataReturn
    };
    (
        ReqMeta {
            src: origin.world_pe,
            dst: Some(origin.src),
            cmd: ExecType::Am(cmd),
            id: result.0,
            batch_id: Some(origin.batch_id),
            team_hash: origin.team_hash,
        },
        match result.1 {
            LamellarReturn::RemoteAm(am) => LamellarFunc::Am(am),
            LamellarReturn::RemoteData(data) => LamellarFunc::Result(data),
            _ => LamellarFunc::Empty,
        },
    )
}

impl BatchExec {
    pub open spec fn wf(self) -> bool {
        &&& self.index <= self.len
        &&& self.exec_cnt <= self.results@.len() <= self.req_cnt
        &&& self.units == unit_count(self.results@)
        &&& self.req_cnt <= self.index
        &&& self.processed ==> self.index == self.len
        &&& forall|i: int|
            0 <= i < self.results@.len() ==> (#[trigger] self.results@[i]).0 < self.req_cnt
        &&& forall|i: int, j: int|
            0 <= i < j < self.results@.len() ==> (#[trigger] self.results@[i]).0 != (
            #[trigger] self.results@[j]).0
    }

    /// Whether a request's result was noted.
    pub open spec fn has_result(self, req_id: usize) -> bool {
        exists|i: int| 0 <= i < self.results@.len() && (#[trigger] self.results@[i]).0 == req_id
    }

    /// A batch of `len` bytes, of which nothing was read.
    pub fn new(len: usize) -> (s: Self)
        ensures
            s.wf(),
            s.len == len,
            s.index == 0,
            s.req_cnt == 0,
            s.exec_cnt == 0,
            !s.processed,
            s.results@.len() == 0,
            s.units == 0,
    {
        BatchExec {
            len,
            index: 0,
            req_cnt: 0,
            exec_cnt: 0,
            processed: false,
            results: Vec::new(),
            units: 0,
        }
    }

    /// Where the next active message starts. Behind the last one there is none,
    /// and the batch counts as read.
    pub fn next_start(&mut self) -> (r: Option<usize>)
        requires
            old(self).wf(),
        ensures
            final(self).wf(),
            r == (if old(self).index < old(self).len {
                Some(old(self).index)
            } else {
                None::<usize>
            }),
            *final(self) == (BatchExec {
                processed: old(self).processed || old(self).index == old(self).len,
                ..*old(self)
            }),
    {
        if self.index < self.len {
            Some(self.index)
        } else {
            self.processed = true;
            None
        }
    }

    /// Counts an active message that took `size` bytes, and gives the number of
    /// its request in the batch.
    pub fn submit(&mut self, size: usize) -> (req_id: usize)
        requires
            old(self).wf(),
            0 < size <= old(self).len - old(self).index,
        ensures
            final(self).wf(),
            req_id == old(self).req_cnt,
            *final(self) == (BatchExec {
                req_cnt: (old(self).req_cnt + 1) as usize,
                index: (old(self).index + size) as usize,
                ..*old(self)
            }),
    {
        let req_id: usize = self.req_cnt;
        self.req_cnt = self.req_cnt + 1;
        self.index = self.index + size;
        req_id
    }

    /// Notes the result of a request.
    pub fn record(&mut self, req_id: usize, ret: LamellarReturn) -> (noted: Noted)
        requires
            old(self).wf(),
            req_id < old(self).req_cnt,
            !old(self).has_result(req_id),
            old(self).results@.len() < old(self).req_cnt,
        ensures
            final(self).wf(),
            final(self).results@ == old(self).results@.push((req_id, ret)),
            noted.num_rets == final(self).results@.len(),
            noted.num_unit_rets == unit_count(final(self).results@),
            noted.num_unit_rets == old(self).units + (if ret is Unit {
                1int
            } else {
                0
            }),
            final(self).units == noted.num_unit_rets,
            final(self).len == old(self).len,
            final(self).index == old(self).index,
            final(self).req_cnt == old(self).req_cnt,
            final(self).exec_cnt == old(self).exec_cnt,
            final(self).processed == old(self).processed,
    {
        proof {
            unit_count_bound(old(self).results@);
            assert(old(self).results@.push((req_id, ret)).drop_last() == old(self).results@);
        }
        if let LamellarReturn::Unit = &ret {
            self.units = self.units + 1;
        }
        self.results.push((req_id, ret));
        Noted { num_rets: self.results.len(), num_unit_rets: self.units }
    }

    /// Counts a task that is done and gives its place in the order of being
    /// done.
    pub fn complete(&mut self) -> (my_cnt: usize)
        requires
            old(self).wf(),
            old(self).exec_cnt < old(self).results@.len(),
        ensures
            final(self).wf(),
            my_cnt == old(self).exec_cnt + 1,
            *final(self) == (BatchExec { exec_cnt: my_cnt, ..*old(self) }),
    {
        self.exec_cnt = self.exec_cnt + 1;
        self.exec_cnt
    }

    /// What the task that was done as number `my_cnt` does next.
    pub open spec fn turn_of(self, my_cnt: usize) -> Turn {
        if my_cnt != self.req_cnt {
            Turn::Leave
        } else if self.processed {
            Turn::Answer
        } else {
            Turn::Wait
        }
    }

    /// Decides what the task that was done as number `my_cnt` does next.
    pub fn turn(&self, my_cnt: usize) -> (r: Turn)
        ensures
            r == self.turn_of(my_cnt),
            r == Turn::Answer <==> my_cnt == self.req_cnt && self.processed,
            r == Turn::Wait <==> my_cnt == self.req_cnt && !self.processed,
            r == Turn::Leave <==> my_cnt != self.req_cnt,
    {
        if my_cnt != self.req_cnt {
            Turn::Leave
        } else if self.processed {
            Turn::Answer
        } else {
            Turn::Wait
        }
    }

    /// The answers for the whole batch: one if the answering task saw only
    /// empty results, else one for each result.
    pub fn answers(self, noted: Noted, origin: BatchOrigin) -> (r: Vec<(ReqMeta, LamellarFunc)>)
        requires
            noted.num_rets != noted.num_unit_rets ==> forall|i: int|
                0 <= i < self.results@.len() ==> (#[trigger] self.results@[i]).1 is RemoteData
                    || self.results@[i].1 is RemoteAm,
        ensures
            noted.num_rets == noted.num_unit_rets ==> r@ == seq![
                (unit_answer(origin), LamellarFunc::Empty),
            ],
            noted.num_rets != noted.num_unit_rets ==> r@ == Seq::new(
                self.results@.len(),
                |i: int| result_answer(origin, self.results@[i]),
            ),
            // Every answer goes from the PE that executed to the PE that asked, and
            // names the batch.
            forall|i: int|
                0 <= i < r@.len() ==> (#[trigger] r@[i]).0.dst == Some(origin.src) && r@[i].0.src
                    == origin.world_pe && r@[i].0.batch_id == Some(origin.batch_id)
                    && r@[i].0.team_hash == origin.team_hash,
            // Each result goes under the number of its own request.
            noted.num_rets != noted.num_unit_rets ==> r@.len() == self.results@.len() && forall|
                i: int,
            |
                0 <= i < r@.len() ==> {
                    &&& (#[trigger] r@[i]).0.id == self.results@[i].0
                    &&& self.results@[i].1 matches LamellarReturn::RemoteData(data) ==> r@[i].1
                        == LamellarFunc::Result(data) && r@[i].0.cmd == ExecType::Am(
                        Cmd::BatchedDataReturn,
                    )
                    &&& self.results@[i].1 matches LamellarReturn::RemoteAm(am) ==> r@[i].1
                        == LamellarFunc::Am(am) && r@[i].0.cmd == ExecType::Am(
                        Cmd::BatchedAmReturn,
                    )
                },
            noted.num_rets == noted.num_unit_rets ==> r@.len() == 1 && r@[0].0.id
                == origin.batch_id && r@[0].0.cmd == ExecType::Am(Cmd::BatchedUnitReturn)
                && r@[0].1 == LamellarFunc::Empty,
    {
        let mut out: Vec<(ReqMeta, LamellarFunc)> = Vec::new();
        if noted.num_rets == noted.num_unit_rets {
            out.push(
                (
                    ReqMeta {
                        src: origin.world_pe,
                        dst: Some(origin.src),
                        cmd: ExecType::Am(Cmd::BatchedUnitReturn),
                        id: origin.batch_id,
                        batch_id: Some(origin.batch_id),
                        team_hash: origin.team_hash,
                    },
                    LamellarFunc::Empty,
                ),
            );
            return out;
        }
        let mut results = self.results;
        let ghost all = results@;
        let mut rev: Vec<(ReqMeta, LamellarFunc)> = Vec::new();
        while results.len() > 0
            invariant
                results@.len() <= all.len(),
                results@ == all.take(results@.len() as int),
                forall|i: int|
                    0 <= i < all.len() ==> (#[trigger] all[i]).1 is RemoteData || all[i].1 is RemoteAm,
                rev@.len() == all.len() - results@.len(),
                forall|i: int|
                    0 <= i < rev@.len() ==> #[trigger] rev@[i] == result_answer(
                        origin,
                        all[all.len() - 1 - i],
                    ),
            decreases results@.len(),
        {
            let ghost n = results@.len() as int;
            let last = results.pop();
            match last {
                Some((id, ret)) => {
                    assert((id, ret) == all[n - 1]);
                    let (cmd, func) = match ret {
                        LamellarReturn::RemoteAm(am) => (Cmd::BatchedAmReturn, LamellarFunc::Am(am)),
                        LamellarReturn::RemoteData(data) => (
                            Cmd::BatchedDataReturn,
                            LamellarFunc::Result(data),
                        ),
                        _ => (Cmd::BatchedDataReturn, LamellarFunc::Empty),
                    };
                    rev.push(
                        (
                            ReqMeta {
                                src: origin.world_pe,
                                dst: Some(origin.src),
                                cmd: ExecType::Am(cmd),
                                id,
                                batch_id: Some(origin.batch_id),
                                team_hash: origin.team_hash,
                            },
                            func,
                        ),
                    );
                },
                None => {},
            }
        }
        while rev.len() > 0
            invariant
                rev@.len() + out@.len() == all.len(),
                forall|i: int|
                    0 <= i < rev@.len() ==> #[trigger] rev@[i] == result_answer(
                        origin,
                        all[all.len() - 1 - i],
                    ),
                forall|i: int|
                    0 <= i < out@.len() ==> #[trigger] out@[i] == result_answer(origin, all[i]),
            decreases rev@.len(),
        {
            let last = rev.pop();
            match last {
                Some(x) => {
                    out.push(x);
                },
                None => {},
            }
        }
        assert(out@ == Seq::new(all.len(), |i: int| result_answer(origin, all[i])));
        out
    }
}

proof fn unit_count_bound(results: Seq<(usize, LamellarReturn)>)
    ensures
        unit_count(results) <= results.len(),
    decreases results.len(),
{
    if results.len() > 0 {
        unit_count_bound(results.drop_last());
    }
}

/// At most one task answers for a batch, and at that time every request has
/// its result.
pub proof fn one_task_answers(s: BatchExec, a: usize, b: usize)
    requires
        s.wf(),
        a <= s.exec_cnt,
        s.turn_of(a) == Turn::Answer,
        s.turn_of(b) == Turn::Answer,
    ensures
        a == b,
        s.results@.len() == s.req_cnt,
{
}

/// Once the batch has been read and every task is done, the last one answers.
pub proof fn last_task_answers(s: BatchExec)
    requires
        s.wf(),
        s.processed,
        s.exec_cnt == s.req_cnt,
    ensures
        s.turn_of(s.exec_cnt) == Turn::Answer,
{
}

/// The count of empty results is that of all results exactly when all are empty,
/// and is zero exactly when none is.
pub proof fn count_tells_emptiness(results: Seq<(usize, LamellarReturn)>)
    ensures
        unit_count(results) == results.len() <==> (forall|i: int|
            0 <= i < results.len() ==> (#[trigger] results[i]).1 is Unit),
        unit_count(results) == 0 <==> (forall|i: int|
            0 <= i < results.len() ==> !((#[trigger] results[i]).1 is Unit)),
    decreases results.len(),
{
    unit_count_bound(results);
    if results.len() > 0 {
        let front = results.drop_last();
        let last = results.last();
        count_tells_emptiness(front);
        unit_count_bound(front);
        assert(last == results[results.len() - 1]);
        assert forall|i: int| 0 <= i < front.len() implies #[trigger] front[i] == results[i] by {}
        if forall|i: int| 0 <= i < results.len() ==> (#[trigger] results[i]).1 is Unit {
            assert forall|i: int| 0 <= i < front.len() implies (#[trigger] front[i]).1 is Unit by {
                assert(results[i].1 is Unit);
            }
        }
        if unit_count(results) == results.len() {
            assert forall|i: int| 0 <= i < results.len() implies (
            #[trigger] results[i]).1 is Unit by {
                if i < front.len() {
                    assert(front[i].1 is Unit);
                }
            }
        }
        if forall|i: int| 0 <= i < results.len() ==> !((#[trigger] results[i]).1 is Unit) {
            assert forall|i: int| 0 <= i < front.len() implies !((
            #[trigger] front[i]).1 is Unit) by {
                assert(!(results[i].1 is Unit));
            }
        }
        if unit_count(results) == 0 {
            assert forall|i: int| 0 <= i < results.len() implies !((
            #[trigger] results[i]).1 is Unit) by {
                if i < front.len() {
                    assert(!(front[i].1 is Unit));
                }
            }
        }
    }
}

/// Where no batch mixes empty results with others, what any task saw when it
/// noted its own result tells whether all results are empty.
pub proof fn any_task_knows(results: Seq<(usize, LamellarReturn)>, k: int)
    requires
        0 < k <= results.len(),
        (forall|i: int| 0 <= i < results.len() ==> (#[trigger] results[i]).1 is Unit) || (forall|
            i: int,
        | 0 <= i < results.len() ==> !((#[trigger] results[i]).1 is Unit)),
    ensures
        unit_count(results.take(k)) == k <==> unit_count(results) == results.len(),
    decreases k,
{
    if forall|i: int| 0 <= i < results.len() ==> (#[trigger] results[i]).1 is Unit {
        all_units(results);
        assert forall|i: int| 0 <= i < k implies (#[trigger] results.take(k)[i]).1 is Unit by {
            assert(results[i].1 is Unit);
        }
        all_units(results.take(k));
    } else {
        no_units(results);
        assert forall|i: int| 0 <= i < k implies !((#[trigger] results.take(k)[i]).1 is Unit) by {
            assert(!(results[i].1 is Unit));
        }
        no_units(results.take(k));
    }
}

proof fn all_units(results: Seq<(usize, LamellarReturn)>)
    requires
        forall|i: int| 0 <= i < results.len() ==> (#[trigger] results[i]).1 is Unit,
    ensures
        unit_count(results) == results.len(),
    decreases results.len(),
{
    if results.len() > 0 {
        assert(results.last() == results[results.len() - 1]);
        assert forall|i: int| 0 <= i < results.drop_last().len() implies (
        #[trigger] results.drop_last()[i]).1 is Unit by {
            assert(results[i].1 is Unit);
        }
        all_units(results.drop_last());
    }
}

proof fn no_units(results: Seq<(usize, LamellarReturn)>)
    requires
        forall|i: int| 0 <= i < results.len() ==> !((#[trigger] results[i]).1 is Unit),
    ensures
        unit_count(results) == 0,
    decreases results.len(),
{
    if results.len() > 0 {
        assert(results.last() == results[results.len() - 1]);
        assert forall|i: int| 0 <= i < results.drop_last().len() implies !((
        #[trigger] results.drop_last()[i]).1 is Unit) by {
            assert(!(results[i].1 is Unit));
        }
        no_units(results.drop_last());
    }
}

/// The numbers of the requests whose results were noted.
pub open spec fn result_numbers(s: BatchExec) -> Seq<usize> {
    Seq::new(s.results@.len(), |i: int| s.results@[i].0)
}

/// When a task answers for a batch, its answers close every request of the
/// batch that the asking PE has open, and none twice.
pub proof fn batch_is_answered(s: BatchExec, my_cnt: usize, open: Seq<(usize, usize)>)
    requires
        s.wf(),
        my_cnt <= s.exec_cnt,
        s.turn_of(my_cnt) == Turn::Answer,
        open.len() == s.req_cnt,
        forall|i: int| 0 <= i < open.len() ==> (#[trigger] open[i]).0 == i,
    ensures
        txed::answered(open, result_numbers(s)) is Some,
        (txed::answered(open, result_numbers(s))->0).1.len() == 0,
        (txed::answered(open, result_numbers(s))->0).0.to_multiset() == txed::ids_of(
            open,
        ).to_multiset(),
{
    let numbers = result_numbers(s);
    assert forall|i: int, j: int| 0 <= i < numbers.len() && 0 <= j < numbers.len() && i
        != j implies numbers[i] != numbers[j] by {
        if i < j {
            assert(s.results@[i].0 != s.results@[j].0);
        } else {
            assert(s.results@[j].0 != s.results@[i].0);
        }
    }
    assert forall|i: int| 0 <= i < numbers.len() implies txed::is_open(
        open,
        #[trigger] numbers[i],
    ) by {
        assert(s.results@[i].0 < s.req_cnt);
        assert(open[numbers[i] as int].0 == numbers[i]);
    }
    txed::distinct_answers_answer(open, numbers);
    txed::answers_conserve_requests(open, numbers);
    let (ids, rest) = txed::answered(open, numbers)->0;
    assert(txed::ids_of(rest) == Seq::<usize>::empty());
    assert(ids.to_multiset().add(Seq::<usize>::empty().to_multiset()) == ids.to_multiset()) by {
        broadcast use vstd::seq_lib::group_to_multiset_ensures;

    }
}

/// Where the active message of the `k`-th request of a batch starts.
pub open spec fn start_of(func_id: AmId, reqs: Seq<(usize, LamellarFunc)>, k: int) -> int {
    message::requests_bytes(func_id, reqs.take(k)).len() as int
}

/// Reading a batch finds its active messages one after the other: the first
/// starts at zero, each next one where the last one ends, each is what was
/// sent, and behind the last one the batch ends.
pub proof fn batch_is_read_in_order(func_id: AmId, reqs: Seq<(usize, LamellarFunc)>, k: int)
    requires
        message::expects_answers(func_id),
        0 <= k < reqs.len(),
    ensures
        start_of(func_id, reqs, 0) == 0,
        start_of(func_id, reqs, k + 1) == start_of(func_id, reqs, k) + reqs[k].1->Am_0.data@.len(),
        start_of(func_id, reqs, reqs.len() as int) == message::requests_bytes(func_id, reqs).len(),
        start_of(func_id, reqs, k + 1) <= message::requests_bytes(func_id, reqs).len(),
        message::requests_bytes(func_id, reqs).subrange(
            start_of(func_id, reqs, k),
            start_of(func_id, reqs, k + 1),
        ) == reqs[k].1->Am_0.data@,
    decreases reqs.len(),
{
    let n = reqs.len() as int;
    let bytes = message::requests_bytes(func_id, reqs);
    assert(reqs.take(n) == reqs);
    assert(reqs.take(0) == Seq::<(usize, LamellarFunc)>::empty());
    assert(reqs.take(k + 1).drop_last() == reqs.take(k));
    assert(reqs.take(k + 1).last() == reqs[k]);
    let front = message::requests_bytes(func_id, reqs.drop_last());
    assert(bytes == front + reqs.last().1->Am_0.data@);
    if k == n - 1 {
        assert(reqs.take(k) == reqs.drop_last());
        assert(bytes.subrange(front.len() as int, bytes.len() as int) == reqs[k].1->Am_0.data@);
    } else {
        batch_is_read_in_order(func_id, reqs.drop_last(), k);
        assert(reqs.drop_last().take(k) == reqs.take(k));
        assert(reqs.drop_last().take(k + 1) == reqs.take(k + 1));
        let a = start_of(func_id, reqs, k);
        let b = start_of(func_id, reqs, k + 1);
        assert(bytes.subrange(a, b) == front.subrange(a, b));
    }
}

} // verus!
