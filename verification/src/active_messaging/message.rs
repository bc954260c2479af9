//! The wire form of a message that carries many requests.
//!
//! A message is a sequence of teams. A team is its size and hash, then its
//! functions. A function is its size and id, then its batches. A batch is its
//! size and id, then its requests.

use vstd::prelude::*;

use crate::active_messaging::submitted::{BatchEntry, FuncEntry, PeEntry, TeamEntry};
use crate::active_messaging::txed::TxedAms;
use crate::active_messaging::{
    AmId, LamellarFunc, BATCHED_REMOTE_DATA_ID, BATCHED_UNIT_ID, REMOTE_AM_ID, REMOTE_DATA_ID,
    UNIT_ID,
};
use crate::wire;
use crate::wire::{push_half_word, push_usize, push_word};

verus! {

/// Whether a request of a function can be written down: the function's id says
/// what its requests carry.
pub open spec fn sendable(func_id: AmId, func: LamellarFunc) -> bool {
    if func_id == BATCHED_UNIT_ID || func_id == UNIT_ID {
        true
    } else if func_id == REMOTE_DATA_ID || func_id == BATCHED_REMOTE_DATA_ID {
        func is Result
    } else {
        func is Am
    }
}

/// The bytes of one request.
pub open spec fn request_bytes(func_id: AmId, req: (usize, LamellarFunc)) -> Seq<u8> {
    if func_id == BATCHED_UNIT_ID {
        Seq::empty()
    } else if func_id == UNIT_ID {
        wire::word_bytes(req.0 as u64)
    } else if func_id == REMOTE_DATA_ID || func_id == BATCHED_REMOTE_DATA_ID {
        wire::word_bytes(req.0 as u64) + wire::word_bytes(req.1->Result_0@.len() as u64)
            + req.1->Result_0@
    } else if func_id > 0 {
        req.1->Am_0.data@
    } else {
        wire::word_bytes(req.0 as u64) + req.1->Am_0.data@
    }
}

/// The bytes of the requests of a batch.
pub open spec fn requests_bytes(func_id: AmId, reqs: Seq<(usize, LamellarFunc)>) -> Seq<u8>
    decreases reqs.len(),
{
    if reqs.len() == 0 {
        Seq::empty()
    } else {
        requests_bytes(func_id, reqs.drop_last()) + request_bytes(func_id, reqs.last())
    }
}

/// Whether a batch gets its id when it is sent: it is a batch of requests, not
/// of answers, and has none yet.
pub open spec fn needs_id(func_id: AmId, batch: BatchEntry) -> bool {
    batch.batch_id is None && func_id > 0
}

/// The id that a batch is sent under if `next` is the next id to be given.
pub open spec fn sent_id(func_id: AmId, batch: BatchEntry, next: int) -> usize {
    if needs_id(func_id, batch) {
        next as usize
    } else {
        match batch.batch_id {
            Some(id) => id,
            None => 0,
        }
    }
}

/// How many ids a function's batches take.
pub open spec fn ids_taken(func_id: AmId, batches: Seq<BatchEntry>) -> int
    decreases batches.len(),
{
    if batches.len() == 0 {
        0
    } else {
        ids_taken(func_id, batches.drop_last()) + if needs_id(func_id, batches.last()) {
            1int
        } else {
            0
        }
    }
}

/// How many ids a team's batches take.
pub open spec fn ids_taken_by_funcs(funcs: Seq<FuncEntry>) -> int
    decreases funcs.len(),
{
    if funcs.len() == 0 {
        0
    } else {
        ids_taken_by_funcs(funcs.drop_last()) + ids_taken(
            funcs.last().func_id,
            funcs.last().batches@,
        )
    }
}

/// How many ids the batches of all teams take.
pub open spec fn ids_taken_by_teams(teams: Seq<TeamEntry>) -> int
    decreases teams.len(),
{
    if teams.len() == 0 {
        0
    } else {
        ids_taken_by_teams(teams.drop_last()) + ids_taken_by_funcs(teams.last().funcs@)
    }
}

/// The bytes of a function's batches.
pub open spec fn batches_bytes(func_id: AmId, batches: Seq<BatchEntry>, next: int) -> Seq<u8>
    decreases batches.len(),
{
    if batches.len() == 0 {
        Seq::empty()
    } else {
        let id = sent_id(func_id, batches.last(), next + ids_taken(func_id, batches.drop_last()));
        batches_bytes(func_id, batches.drop_last(), next) + wire::word_bytes(
            batches.last().size as u64,
        ) + wire::word_bytes(id as u64) + requests_bytes(func_id, batches.last().reqs@)
    }
}

/// The bytes of a team's functions.
pub open spec fn funcs_bytes(funcs: Seq<FuncEntry>, next: int) -> Seq<u8>
    decreases funcs.len(),
{
    if funcs.len() == 0 {
        Seq::empty()
    } else {
        let f = funcs.last();
        funcs_bytes(funcs.drop_last(), next) + wire::word_bytes(f.size as u64)
            + wire::half_word_bytes(f.func_id) + batches_bytes(
            f.func_id,
            f.batches@,
            next + ids_taken_by_funcs(funcs.drop_last()),
        )
    }
}

/// The bytes of a message.
pub open spec fn teams_bytes(teams: Seq<TeamEntry>, next: int) -> Seq<u8>
    decreases teams.len(),
{
    if teams.len() == 0 {
        Seq::empty()
    } else {
        let t = teams.last();
        teams_bytes(teams.drop_last(), next) + wire::word_bytes(t.size as u64) + wire::word_bytes(
            t.team_hash,
        ) + funcs_bytes(t.funcs@, next + ids_taken_by_teams(teams.drop_last()))
    }
}

/// The requests of a batch by their numbers in it.
pub open spec fn numbered(reqs: Seq<(usize, LamellarFunc)>) -> Seq<(usize, usize)> {
    Seq::new(reqs.len(), |i: int| (i as usize, reqs[i].0))
}

/// Whether the requests of a function are answered by their numbers in the
/// batch: they are active messages to be executed.
pub open spec fn expects_answers(func_id: AmId) -> bool {
    func_id >= REMOTE_AM_ID
}

/// What is open after a function's batches were sent.
pub open spec fn open_after_batches(
    open: Map<usize, Seq<(usize, usize)>>,
    func_id: AmId,
    batches: Seq<BatchEntry>,
    next: int,
) -> Map<usize, Seq<(usize, usize)>>
    decreases batches.len(),
{
    if batches.len() == 0 {
        open
    } else {
        let b = batches.last();
        let before = open_after_batches(open, func_id, batches.drop_last(), next);
        if expects_answers(func_id) && b.reqs@.len() > 0 {
            let id = sent_id(func_id, b, next + ids_taken(func_id, batches.drop_last()));
            before.insert(id, numbered(b.reqs@))
        } else {
            before
        }
    }
}

/// What is open after a team's functions were sent.
pub open spec fn open_after_funcs(
    open: Map<usize, Seq<(usize, usize)>>,
    funcs: Seq<FuncEntry>,
    next: int,
) -> Map<usize, Seq<(usize, usize)>>
    decreases funcs.len(),
{
    if funcs.len() == 0 {
        open
    } else {
        open_after_batches(
            open_after_funcs(open, funcs.drop_last(), next),
            funcs.last().func_id,
            funcs.last().batches@,
            next + ids_taken_by_funcs(funcs.drop_last()),
        )
    }
}

/// What is open after a message was sent.
pub open spec fn open_after_teams(
    open: Map<usize, Seq<(usize, usize)>>,
    teams: Seq<TeamEntry>,
    next: int,
) -> Map<usize, Seq<(usize, usize)>>
    decreases teams.len(),
{
    if teams.len() == 0 {
        open
    } else {
        open_after_funcs(
            open_after_teams(open, teams.drop_last(), next),
            teams.last().funcs@,
            next + ids_taken_by_teams(teams.drop_last()),
        )
    }
}

/// All requests of a function can be written down.
pub open spec fn func_sendable(f: FuncEntry) -> bool {
    forall|i: int, j: int|
        0 <= i < f.batches@.len() && 0 <= j < f.batches@[i].reqs@.len() ==> sendable(
            f.func_id,
            (#[trigger] f.batches@[i].reqs@[j]).1,
        )
}

/// All requests of a message can be written down.
pub open spec fn teams_sendable(teams: Seq<TeamEntry>) -> bool {
    forall|i: int, j: int|
        0 <= i < teams.len() && 0 <= j < teams[i].funcs@.len() ==> func_sendable(
            #[trigger] teams[i].funcs@[j],
        )
}

/// Appends the bytes of one request.
fn push_request(buf: &mut Vec<u8>, func_id: AmId, req: &(usize, LamellarFunc))
    requires
        sendable(func_id, req.1),
    ensures
        final(buf)@ == old(buf)@ + request_bytes(func_id, *req),
{
    if func_id == BATCHED_UNIT_ID {
        assert(buf@ + Seq::<u8>::empty() == buf@);
    } else if func_id == UNIT_ID {
        push_usize(buf, req.0);
    } else {
        match &req.1 {
            LamellarFunc::Result(data) => {
                push_usize(buf, req.0);
                push_usize(buf, data.len());
                buf.extend_from_slice(data.as_slice());
            },
            LamellarFunc::Am(am) => {
                if func_id < 0 {
                    push_usize(buf, req.0);
                }
                buf.extend_from_slice(am.data.as_slice());
            },
            LamellarFunc::Empty => {},
        }
        assert(buf@ == old(buf)@ + request_bytes(func_id, *req));
    }
}

/// Appends the requests of a batch.
fn push_requests(buf: &mut Vec<u8>, func_id: AmId, reqs: &Vec<(usize, LamellarFunc)>)
    requires
        forall|j: int| 0 <= j < reqs@.len() ==> sendable(func_id, (#[trigger] reqs@[j]).1),
    ensures
        final(buf)@ == old(buf)@ + requests_bytes(func_id, reqs@),
{
    let mut k: usize = 0;
    assert(reqs@.take(0) == Seq::<(usize, LamellarFunc)>::empty());
    assert(buf@ + Seq::<u8>::empty() == buf@);
    while k < reqs.len()
        invariant
            k <= reqs@.len(),
            forall|j: int| 0 <= j < reqs@.len() ==> sendable(func_id, (#[trigger] reqs@[j]).1),
            buf@ == old(buf)@ + requests_bytes(func_id, reqs@.take(k as int)),
        decreases reqs@.len() - k,
    {
        push_request(buf, func_id, &reqs[k]);
        k = k + 1;
        proof {
            assert(reqs@.take(k as int).drop_last() == reqs@.take(k - 1));
            assert(reqs@.take(k as int).last() == reqs@[k - 1]);
        }
    }
    assert(reqs@.take(k as int) == reqs@);
}

/// The requests of a batch by their numbers in it.
fn number_requests(reqs: &Vec<(usize, LamellarFunc)>) -> (r: Vec<(usize, usize)>)
    ensures
        r@ == numbered(reqs@),
{
    let mut r: Vec<(usize, usize)> = Vec::new();
    let mut k: usize = 0;
    while k < reqs.len()
        invariant
            k <= reqs@.len(),
            r@ == numbered(reqs@.take(k as int)),
        decreases reqs@.len() - k,
    {
        r.push((k, reqs[k].0));
        k = k + 1;
        proof {
            assert(r@ =~= numbered(reqs@.take(k as int)));
        }
    }
    assert(reqs@.take(k as int) == reqs@);
    r
}

/// Appends the batches of a function, gives ids to those that need one, and
/// notes those whose requests are to be answered.
fn push_batches(buf: &mut Vec<u8>, f: &FuncEntry, next: &mut usize, open: &mut TxedAms)
    requires
        func_sendable(*f),
        *old(next) + ids_taken(f.func_id, f.batches@) <= usize::MAX,
    ensures
        final(buf)@ == old(buf)@ + batches_bytes(f.func_id, f.batches@, *old(next) as int),
        *final(next) == *old(next) + ids_taken(f.func_id, f.batches@),
        final(open)@ == open_after_batches(old(open)@, f.func_id, f.batches@, *old(next) as int),
{
    let func_id: AmId = f.func_id;
    let batches = &f.batches;
    let mut k: usize = 0;
    assert(batches@.take(0) == Seq::<BatchEntry>::empty());
    assert(buf@ + Seq::<u8>::empty() == buf@);
    while k < batches.len()
        invariant
            k <= batches@.len(),
            func_sendable(*f),
            batches@ == f.batches@,
            func_id == f.func_id,
            *old(next) + ids_taken(func_id, batches@) <= usize::MAX,
            *next == *old(next) + ids_taken(func_id, batches@.take(k as int)),
            buf@ == old(buf)@ + batches_bytes(
                func_id,
                batches@.take(k as int),
                *old(next) as int,
            ),
            open@ == open_after_batches(
                old(open)@,
                func_id,
                batches@.take(k as int),
                *old(next) as int,
            ),
        decreases batches@.len() - k,
    {
        let batch = &batches[k];
        proof {
            assert(batches@.take(k + 1).drop_last() == batches@.take(k as int));
            assert(batches@.take(k + 1).last() == *batch);
            ids_taken_grows(func_id, batches@, k + 1);
            assert forall|j: int| 0 <= j < batch.reqs@.len() implies sendable(
                func_id,
                (#[trigger] batch.reqs@[j]).1,
            ) by {
                assert(f.batches@[k as int].reqs@[j] == batch.reqs@[j]);
            }
        }
        let id: usize = match batch.batch_id {
            Some(id) => id,
            None => if func_id > 0 {
                let id = *next;
                *next = *next + 1;
                id
            } else {
                0
            },
        };
        let ghost start = buf@;
        push_usize(buf, batch.size);
        push_usize(buf, id);
        push_requests(buf, func_id, &batch.reqs);
        if func_id >= REMOTE_AM_ID && batch.reqs.len() > 0 {
            open.insert(id, number_requests(&batch.reqs));
        }
        k = k + 1;
        proof {
            let ghost_next = *old(next) as int;
            assert(buf@ == old(buf)@ + batches_bytes(func_id, batches@.take(k as int), ghost_next));
        }
    }
    assert(batches@.take(k as int) == batches@);
}

proof fn ids_taken_grows(func_id: AmId, batches: Seq<BatchEntry>, k: int)
    requires
        0 <= k <= batches.len(),
    ensures
        0 <= ids_taken(func_id, batches.take(k)) <= ids_taken(func_id, batches),
    decreases batches.len(),
{
    if k == batches.len() {
        assert(batches.take(k) == batches);
        if k > 0 {
            ids_taken_grows(func_id, batches.drop_last(), k - 1);
            assert(batches.drop_last().take(k - 1) == batches.drop_last());
        }
    } else {
        ids_taken_grows(func_id, batches.drop_last(), k);
        assert(batches.drop_last().take(k) == batches.take(k));
    }
}

proof fn ids_taken_by_funcs_grows(funcs: Seq<FuncEntry>, k: int)
    requires
        0 <= k <= funcs.len(),
    ensures
        0 <= ids_taken_by_funcs(funcs.take(k)) <= ids_taken_by_funcs(funcs),
    decreases funcs.len(),
{
    if funcs.len() > 0 {
        let f = funcs.last();
        ids_taken_grows(f.func_id, f.batches@, f.batches@.len() as int);
        assert(f.batches@.take(f.batches@.len() as int) == f.batches@);
    }
    if k == funcs.len() {
        assert(funcs.take(k) == funcs);
        if k > 0 {
            ids_taken_by_funcs_grows(funcs.drop_last(), k - 1);
            assert(funcs.drop_last().take(k - 1) == funcs.drop_last());
        }
    } else {
        ids_taken_by_funcs_grows(funcs.drop_last(), k);
        assert(funcs.drop_last().take(k) == funcs.take(k));
    }
}

proof fn ids_taken_by_teams_grows(teams: Seq<TeamEntry>, k: int)
    requires
        0 <= k <= teams.len(),
    ensures
        0 <= ids_taken_by_teams(teams.take(k)) <= ids_taken_by_teams(teams),
    decreases teams.len(),
{
    if teams.len() > 0 {
        let t = teams.last();
        ids_taken_by_funcs_grows(t.funcs@, t.funcs@.len() as int);
        assert(t.funcs@.take(t.funcs@.len() as int) == t.funcs@);
    }
    if k == teams.len() {
        assert(teams.take(k) == teams);
        if k > 0 {
            ids_taken_by_teams_grows(teams.drop_last(), k - 1);
            assert(teams.drop_last().take(k - 1) == teams.drop_last());
        }
    } else {
        ids_taken_by_teams_grows(teams.drop_last(), k);
        assert(teams.drop_last().take(k) == teams.take(k));
    }
}

/// Appends the functions of a team.
fn push_funcs(buf: &mut Vec<u8>, funcs: &Vec<FuncEntry>, next: &mut usize, open: &mut TxedAms)
    requires
        forall|j: int| 0 <= j < funcs@.len() ==> func_sendable(#[trigger] funcs@[j]),
        *old(next) + ids_taken_by_funcs(funcs@) <= usize::MAX,
    ensures
        final(buf)@ == old(buf)@ + funcs_bytes(funcs@, *old(next) as int),
        *final(next) == *old(next) + ids_taken_by_funcs(funcs@),
        final(open)@ == open_after_funcs(old(open)@, funcs@, *old(next) as int),
{
    let mut k: usize = 0;
    assert(funcs@.take(0) == Seq::<FuncEntry>::empty());
    assert(buf@ + Seq::<u8>::empty() == buf@);
    while k < funcs.len()
        invariant
            k <= funcs@.len(),
            forall|j: int| 0 <= j < funcs@.len() ==> func_sendable(#[trigger] funcs@[j]),
            *old(next) + ids_taken_by_funcs(funcs@) <= usize::MAX,
            *next == *old(next) + ids_taken_by_funcs(funcs@.take(k as int)),
            buf@ == old(buf)@ + funcs_bytes(funcs@.take(k as int), *old(next) as int),
            open@ == open_after_funcs(old(open)@, funcs@.take(k as int), *old(next) as int),
        decreases funcs@.len() - k,
    {
        proof {
            assert(funcs@.take(k + 1).drop_last() == funcs@.take(k as int));
            assert(funcs@.take(k + 1).last() == funcs@[k as int]);
            ids_taken_by_funcs_grows(funcs@, k + 1);
        }
        push_usize(buf, funcs[k].size);
        push_half_word(buf, funcs[k].func_id);
        push_batches(buf, &funcs[k], next, open);
        k = k + 1;
        proof {
            let first = *old(next) as int;
            assert(buf@ == old(buf)@ + funcs_bytes(funcs@.take(k as int), first));
        }
    }
    assert(funcs@.take(k as int) == funcs@);
}

/// Writes down everything that waits for one destination. Batches of requests
/// that have no id yet get one, counted up from `next`, and every batch of
/// requests is noted as open.
pub fn encode(entry: &PeEntry, next: &mut usize, open: &mut TxedAms) -> (data: Vec<u8>)
    requires
        teams_sendable(entry.teams@),
        *old(next) + ids_taken_by_teams(entry.teams@) <= usize::MAX,
    ensures
        data@ == teams_bytes(entry.teams@, *old(next) as int),
        *final(next) == *old(next) + ids_taken_by_teams(entry.teams@),
        final(open)@ == open_after_teams(old(open)@, entry.teams@, *old(next) as int),
{
    let mut buf: Vec<u8> = Vec::new();
    let teams = &entry.teams;
    let mut k: usize = 0;
    assert(teams@.take(0) == Seq::<TeamEntry>::empty());
    while k < teams.len()
        invariant
            k <= teams@.len(),
            teams_sendable(teams@),
            *old(next) + ids_taken_by_teams(teams@) <= usize::MAX,
            *next == *old(next) + ids_taken_by_teams(teams@.take(k as int)),
            buf@ == teams_bytes(teams@.take(k as int), *old(next) as int),
            open@ == open_after_teams(old(open)@, teams@.take(k as int), *old(next) as int),
        decreases teams@.len() - k,
    {
        proof {
            assert(teams@.take(k + 1).drop_last() == teams@.take(k as int));
            assert(teams@.take(k + 1).last() == teams@[k as int]);
            ids_taken_by_teams_grows(teams@, k + 1);
            assert forall|j: int| 0 <= j < teams@[k as int].funcs@.len() implies func_sendable(
                #[trigger] teams@[k as int].funcs@[j],
            ) by {}
        }
        push_usize(&mut buf, teams[k].size);
        push_word(&mut buf, teams[k].team_hash);
        push_funcs(&mut buf, &teams[k].funcs, next, open);
        k = k + 1;
        proof {
            let first = *old(next) as int;
            assert(buf@ == teams_bytes(teams@.take(k as int), first));
        }
    }
    assert(teams@.take(k as int) == teams@);
    buf
}

/// No batch of requests has its id before it is sent, and none is empty.
pub open spec fn func_unsent(f: FuncEntry) -> bool {
    forall|k: int|
        0 <= k < f.batches@.len() ==> (#[trigger] f.batches@[k]).reqs@.len() > 0 && (
        expects_answers(f.func_id) ==> f.batches@[k].batch_id is None)
}

proof fn batches_become_open(
    open: Map<usize, Seq<(usize, usize)>>,
    func_id: AmId,
    batches: Seq<BatchEntry>,
    next: int,
)
    requires
        forall|k: int|
            0 <= k < batches.len() ==> (#[trigger] batches[k]).reqs@.len() > 0 && (expects_answers(
                func_id,
            ) ==> batches[k].batch_id is None),
        0 <= next,
        next + ids_taken(func_id, batches) <= usize::MAX,
    ensures
        ids_taken(func_id, batches) >= 0,
        expects_answers(func_id) ==> ids_taken(func_id, batches) == batches.len(),
        forall|id: usize|
            !(next <= id < next + ids_taken(func_id, batches)) ==> #[trigger] open_after_batches(
                open,
                func_id,
                batches,
                next,
            ).contains_key(id) == open.contains_key(id) && open_after_batches(
                open,
                func_id,
                batches,
                next,
            )[id] == open[id],
        expects_answers(func_id) ==> forall|k: int|
            0 <= k < batches.len() ==> open_after_batches(
                open,
                func_id,
                batches,
                next,
            ).contains_key((next + k) as usize) && open_after_batches(
                open,
                func_id,
                batches,
                next,
            )[(next + k) as usize] == numbered((#[trigger] batches[k]).reqs@),
    decreases batches.len(),
{
    if batches.len() > 0 {
        let front = batches.drop_last();
        ids_taken_grows(func_id, batches, batches.len() - 1);
        assert(batches.take(batches.len() - 1) == front);
        assert forall|k: int| 0 <= k < front.len() implies (#[trigger] front[k]).reqs@.len() > 0
            && (expects_answers(func_id) ==> front[k].batch_id is None) by {
            assert(batches[k].reqs@.len() > 0);
        }
        batches_become_open(open, func_id, front, next);
        let last = batches.last();
        assert(last == batches[batches.len() - 1]);
        let before = open_after_batches(open, func_id, front, next);
        let after = open_after_batches(open, func_id, batches, next);
        if expects_answers(func_id) {
            let id = sent_id(func_id, last, next + ids_taken(func_id, front));
            assert(id == next + front.len());
            assert(after == before.insert(id, numbered(last.reqs@)));
            assert forall|k: int| 0 <= k < batches.len() implies after.contains_key(
                (next + k) as usize,
            ) && after[(next + k) as usize] == numbered((#[trigger] batches[k]).reqs@) by {
                if k < front.len() {
                    assert(front[k] == batches[k]);
                }
            }
        }
    }
}

proof fn funcs_become_open(
    open: Map<usize, Seq<(usize, usize)>>,
    funcs: Seq<FuncEntry>,
    next: int,
)
    requires
        forall|j: int| 0 <= j < funcs.len() ==> func_unsent(#[trigger] funcs[j]),
        0 <= next,
        next + ids_taken_by_funcs(funcs) <= usize::MAX,
    ensures
        ids_taken_by_funcs(funcs) >= 0,
        forall|id: usize|
            !(next <= id < next + ids_taken_by_funcs(funcs)) ==> #[trigger] open_after_funcs(
                open,
                funcs,
                next,
            ).contains_key(id) == open.contains_key(id) && open_after_funcs(open, funcs, next)[id]
                == open[id],
        forall|j: int, k: int|
            0 <= j < funcs.len() && 0 <= k < funcs[j].batches@.len() && expects_answers(
                funcs[j].func_id,
            ) ==> {
                let id = (next + ids_taken_by_funcs(funcs.take(j)) + k) as usize;
                &&& open_after_funcs(open, funcs, next).contains_key(id)
                &&& open_after_funcs(open, funcs, next)[id] == numbered(
                    (#[trigger] funcs[j].batches@[k]).reqs@,
                )
            },
    decreases funcs.len(),
{
    if funcs.len() > 0 {
        let n = funcs.len() - 1;
        let front = funcs.drop_last();
        let last = funcs.last();
        assert(last == funcs[n]);
        ids_taken_by_funcs_grows(funcs, n);
        assert(funcs.take(n) == front);
        assert forall|j: int| 0 <= j < front.len() implies func_unsent(#[trigger] front[j]) by {
            assert(func_unsent(funcs[j]));
        }
        funcs_become_open(open, front, next);
        let before = open_after_funcs(open, front, next);
        let first = next + ids_taken_by_funcs(front);
        batches_become_open(before, last.func_id, last.batches@, first);
        let after = open_after_funcs(open, funcs, next);
        assert forall|id: usize| !(next <= id < next + ids_taken_by_funcs(funcs)) implies 
        #[trigger] after.contains_key(id) == open.contains_key(id) && after[id] == open[id] by {
            assert(before.contains_key(id) == open.contains_key(id));
        }
        assert forall|j: int, k: int|
            0 <= j < funcs.len() && 0 <= k < funcs[j].batches@.len() && expects_answers(
                funcs[j].func_id,
            ) implies {
            let id = (next + ids_taken_by_funcs(funcs.take(j)) + k) as usize;
            &&& after.contains_key(id)
            &&& after[id] == numbered((#[trigger] funcs[j].batches@[k]).reqs@)
        } by {
            if j < n {
                assert(front[j] == funcs[j]);
                assert(front.take(j) == funcs.take(j));
                let id = next + ids_taken_by_funcs(funcs.take(j)) + k;
                assert(before[id as usize] == numbered(front[j].batches@[k].reqs@));
                ids_taken_by_funcs_grows(front, j);
                ids_taken_by_funcs_grows(front, j + 1);
                assert(front.take(j + 1).drop_last() == front.take(j));
                assert(front.take(j + 1).last() == front[j]);
                all_need_ids(front[j].func_id, front[j].batches@);
                assert(id < first);
                assert(before.contains_key(id as usize));
                assert(after.contains_key(id as usize) == before.contains_key(id as usize));
            } else {
                let id = (first + k) as usize;
                assert(after.contains_key(id) && after[id] == numbered(last.batches@[k].reqs@));
            }
        }
    }
}

proof fn all_need_ids(func_id: AmId, batches: Seq<BatchEntry>)
    requires
        expects_answers(func_id),
        forall|k: int| 0 <= k < batches.len() ==> (#[trigger] batches[k]).batch_id is None,
    ensures
        ids_taken(func_id, batches) == batches.len(),
    decreases batches.len(),
{
    if batches.len() > 0 {
        assert(batches.last() == batches[batches.len() - 1]);
        assert forall|k: int| 0 <= k < batches.drop_last().len() implies (
        #[trigger] batches.drop_last()[k]).batch_id is None by {
            assert(batches[k].batch_id is None);
        }
        all_need_ids(func_id, batches.drop_last());
    }
}

/// The id under which a batch of requests in a message is sent.
pub open spec fn batch_id_at(teams: Seq<TeamEntry>, next: int, i: int, j: int, k: int) -> int {
    next + ids_taken_by_teams(teams.take(i)) + ids_taken_by_funcs(teams[i].funcs@.take(j)) + k
}

/// Sending a message opens every batch of requests in it under an id of its
/// own, with all of its requests, and touches no batch that was open before.
pub proof fn sent_batches_become_open(
    open: Map<usize, Seq<(usize, usize)>>,
    teams: Seq<TeamEntry>,
    next: int,
)
    requires
        forall|i: int, j: int|
            0 <= i < teams.len() && 0 <= j < teams[i].funcs@.len() ==> func_unsent(
                #[trigger] teams[i].funcs@[j],
            ),
        0 <= next,
        next + ids_taken_by_teams(teams) <= usize::MAX,
    ensures
        ids_taken_by_teams(teams) >= 0,
        forall|id: usize|
            !(next <= id < next + ids_taken_by_teams(teams)) ==> #[trigger] open_after_teams(
                open,
                teams,
                next,
            ).contains_key(id) == open.contains_key(id) && open_after_teams(open, teams, next)[id]
                == open[id],
        forall|i: int, j: int, k: int|
            0 <= i < teams.len() && 0 <= j < teams[i].funcs@.len() && 0 <= k
                < teams[i].funcs@[j].batches@.len() && expects_answers(teams[i].funcs@[j].func_id)
                ==> {
                let id = batch_id_at(teams, next, i, j, k) as usize;
                &&& next <= batch_id_at(teams, next, i, j, k) < next + ids_taken_by_teams(teams)
                &&& open_after_teams(open, teams, next).contains_key(id)
                &&& open_after_teams(open, teams, next)[id] == numbered(
                    (#[trigger] teams[i].funcs@[j].batches@[k]).reqs@,
                )
            },
    decreases teams.len(),
{
    if teams.len() > 0 {
        let n = teams.len() - 1;
        let front = teams.drop_last();
        let last = teams.last();
        assert(last == teams[n]);
        ids_taken_by_teams_grows(teams, n);
        assert(teams.take(n) == front);
        assert forall|i: int, j: int|
            0 <= i < front.len() && 0 <= j < front[i].funcs@.len() implies func_unsent(
            #[trigger] front[i].funcs@[j],
        ) by {
            assert(func_unsent(teams[i].funcs@[j]));
        }
        sent_batches_become_open(open, front, next);
        let before = open_after_teams(open, front, next);
        let first = next + ids_taken_by_teams(front);
        assert forall|j: int| 0 <= j < last.funcs@.len() implies func_unsent(
            #[trigger] last.funcs@[j],
        ) by {
            assert(func_unsent(teams[n].funcs@[j]));
        }
        funcs_become_open(before, last.funcs@, first);
        let after = open_after_teams(open, teams, next);
        assert forall|id: usize| !(next <= id < next + ids_taken_by_teams(teams)) implies 
        #[trigger] after.contains_key(id) == open.contains_key(id) && after[id] == open[id] by {
            assert(before.contains_key(id) == open.contains_key(id));
        }
        assert forall|i: int, j: int, k: int|
            0 <= i < teams.len() && 0 <= j < teams[i].funcs@.len() && 0 <= k
                < teams[i].funcs@[j].batches@.len() && expects_answers(
                teams[i].funcs@[j].func_id,
            ) implies {
            let id = batch_id_at(teams, next, i, j, k) as usize;
            &&& next <= batch_id_at(teams, next, i, j, k) < next + ids_taken_by_teams(teams)
            &&& after.contains_key(id)
            &&& after[id] == numbered((#[trigger] teams[i].funcs@[j].batches@[k]).reqs@)
        } by {
            let id = batch_id_at(teams, next, i, j, k);
            if i < n {
                assert(front[i] == teams[i]);
                assert(front.take(i) == teams.take(i));
                assert(batch_id_at(front, next, i, j, k) == id);
                assert(before[id as usize] == numbered(front[i].funcs@[j].batches@[k].reqs@));
                assert(before.contains_key(id as usize));
                assert(after.contains_key(id as usize) == before.contains_key(id as usize));
            } else {
                let f = last.funcs@[j];
                assert(id == first + ids_taken_by_funcs(last.funcs@.take(j)) + k);
                ids_taken_by_funcs_grows(last.funcs@, j);
                ids_taken_by_funcs_grows(last.funcs@, j + 1);
                assert(last.funcs@.take(j + 1).drop_last() == last.funcs@.take(j));
                assert(last.funcs@.take(j + 1).last() == f);
                assert(func_unsent(f));
                all_need_ids(f.func_id, f.batches@);
                assert(after[id as usize] == numbered(f.batches@[k].reqs@));
            }
        }
    }
}

/// The requests of a batch are numbered from zero on, in their order.
pub proof fn requests_are_numbered(reqs: Seq<(usize, LamellarFunc)>, i: int)
    requires
        reqs.len() <= usize::MAX,
        0 <= i < reqs.len(),
    ensures
        numbered(reqs).len() == reqs.len(),
        numbered(reqs)[i] == (i as usize, reqs[i].0),
{
}

/// A batch that has its id keeps it when it is sent, so that its answers find the
/// batch that they are for. A batch of requests without one gets the next id, which
/// is then taken.
pub proof fn batches_keep_their_ids(func_id: AmId, batch: BatchEntry, next: int)
    requires
        0 <= next <= usize::MAX,
    ensures
        batch.batch_id matches Some(id) ==> sent_id(func_id, batch, next) == id,
        batch.batch_id is None && func_id > 0 ==> sent_id(func_id, batch, next) == next,
        batch.batch_id is None && func_id <= 0 ==> sent_id(func_id, batch, next) == 0,
        ids_taken(func_id, seq![batch]) == (if batch.batch_id is None && func_id > 0 {
            1int
        } else {
            0
        }),
{
    assert(seq![batch].drop_last() =~= Seq::<BatchEntry>::empty());
    assert(ids_taken(func_id, seq![batch].drop_last()) == 0);
}

/// What stands in the bytes of one request: of an active message that is to be
/// executed its own bytes, of a returned one the id of the request that it answers
/// and its own bytes, of a value that id, its size and its bytes, and of an empty
/// answer that id alone, or nothing if it is for a whole batch.
pub proof fn requests_hold_their_bytes(func_id: AmId, id: usize, func: LamellarFunc)
    requires
        sendable(func_id, func),
    ensures
        func matches LamellarFunc::Am(am) ==> {
            &&& func_id >= 4 ==> request_bytes(func_id, (id, func)) == am.data@
            &&& func_id < 0 ==> request_bytes(func_id, (id, func)) == wire::word_bytes(id as u64)
                + am.data@
        },
        func matches LamellarFunc::Result(data) ==> (func_id == REMOTE_DATA_ID || func_id
            == BATCHED_REMOTE_DATA_ID ==> request_bytes(func_id, (id, func)) == wire::word_bytes(
            id as u64,
        ) + wire::word_bytes(data@.len() as u64) + data@),
        func_id == UNIT_ID ==> request_bytes(func_id, (id, func)) == wire::word_bytes(id as u64),
        func_id == BATCHED_UNIT_ID ==> request_bytes(func_id, (id, func)).len() == 0,
{
}

/// A batch of active messages that are to be executed is open once it is sent, and no
/// other batch is: answers are not answered.
pub proof fn only_requests_become_open(
    open: Map<usize, Seq<(usize, usize)>>,
    func_id: AmId,
    batch: BatchEntry,
    next: usize,
)
    ensures
        func_id >= 4 && batch.reqs@.len() > 0 ==> {
            let id = match batch.batch_id {
                Some(id) => id,
                None => next,
            };
            let after = open_after_batches(open, func_id, seq![batch], next as int);
            &&& after.dom() == open.dom().insert(id)
            &&& after[id].len() == batch.reqs@.len()
            &&& forall|other: usize|
                other != id && open.contains_key(other) ==> #[trigger] after[other] == open[other]
            &&& forall|i: int|
                0 <= i < batch.reqs@.len() ==> (#[trigger] after[id][i]).1 == batch.reqs@[i].0
        },
        func_id < 4 || batch.reqs@.len() == 0 ==> open_after_batches(
            open,
            func_id,
            seq![batch],
            next as int,
        ) == open,
{
    let one = seq![batch];
    assert(one.drop_last() =~= Seq::<BatchEntry>::empty());
    assert(open_after_batches(open, func_id, one.drop_last(), next as int) == open);
    assert(ids_taken(func_id, one.drop_last()) == 0);
    if func_id >= 4 && batch.reqs@.len() > 0 {
        let id = match batch.batch_id {
            Some(id) => id,
            None => next,
        };
        let after = open_after_batches(open, func_id, one, next as int);
        assert(after == open.insert(id, numbered(batch.reqs@)));
        assert(after.dom() =~= open.dom().insert(id));
    }
}

} // verus!
