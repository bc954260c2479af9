//! Reading a message that carries many requests back into its batches.

use vstd::prelude::*;
use vstd::slice::slice_subrange;

use crate::active_messaging::message;
use crate::active_messaging::submitted;
use crate::active_messaging::submitted::{
    BatchEntry, FuncEntry, PeEntry, TeamEntry, BATCH_HEADER_LEN, FUNC_HEADER_LEN,
    TEAM_HEADER_LEN,
};
use crate::active_messaging::{
    AmId, LamellarFunc, BATCHED_REMOTE_DATA_ID, BATCHED_UNIT_ID, REMOTE_AM_ID, REMOTE_DATA_ID,
    UNIT_ID,
};
use crate::math;
use crate::wire;
use crate::wire::{read_half_word, read_usize, read_word, WORD_LEN};

verus! {

/// What is to be done with a batch.
#[derive(Clone, Copy, Debug, PartialEq, Eq, Structural)]
pub enum Handler {
    BatchedUnitReturn,
    UnitReturn,
    DataReturn,
    BatchedDataReturn,
    /// Execute the active messages with this id.
    ExecAm(AmId),
    /// Execute the returned active messages with this id.
    ExecReturnAm(AmId),
}

/// What the function's id in a message asks for. The reserved id asks for
/// nothing, nor does the one id that has no negative.
pub open spec fn handler_of(func_id: AmId) -> Option<Handler> {
    if func_id == BATCHED_UNIT_ID {
        Some(Handler::BatchedUnitReturn)
    } else if func_id == UNIT_ID {
        Some(Handler::UnitReturn)
    } else if func_id == REMOTE_DATA_ID {
        Some(Handler::DataReturn)
    } else if func_id == BATCHED_REMOTE_DATA_ID {
        Some(Handler::BatchedDataReturn)
    } else if func_id == REMOTE_AM_ID || func_id == i32::MIN {
        None
    } else if func_id > 0 {
        Some(Handler::ExecAm(func_id))
    } else {
        Some(Handler::ExecReturnAm((-func_id) as i32))
    }
}

/// Decides what the function's id in a message asks for.
pub fn handler(func_id: AmId) -> (r: Option<Handler>)
    ensures
        r == handler_of(func_id),
        r == Some(Handler::UnitReturn) <==> func_id == 0,
        r == Some(Handler::BatchedUnitReturn) <==> func_id == 1,
        r == Some(Handler::DataReturn) <==> func_id == 2,
        r == Some(Handler::BatchedDataReturn) <==> func_id == 3,
        r is None <==> func_id == 4 || func_id == i32::MIN,
        func_id >= 5 ==> r == Some(Handler::ExecAm(func_id)),
        func_id < 0 && func_id != i32::MIN ==> (r matches Some(Handler::ExecReturnAm(id)) && id
            == -func_id),
{
    if func_id == BATCHED_UNIT_ID {
        Some(Handler::BatchedUnitReturn)
    } else if func_id == UNIT_ID {
        Some(Handler::UnitReturn)
    } else if func_id == REMOTE_DATA_ID {
        Some(Handler::DataReturn)
    } else if func_id == BATCHED_REMOTE_DATA_ID {
        Some(Handler::BatchedDataReturn)
    } else if func_id == REMOTE_AM_ID || func_id == i32::MIN {
        None
    } else if func_id > 0 {
        Some(Handler::ExecAm(func_id))
    } else {
        Some(Handler::ExecReturnAm(-func_id))
    }
}

/// One batch of a message.
pub struct BatchPart {
    pub team_hash: u64,
    pub func_id: AmId,
    pub batch_id: usize,
    pub data: Vec<u8>,
}

/// What a batch of a message says.
#[verifier::ext_equal]
pub struct Part {
    pub team_hash: u64,
    pub func_id: AmId,
    pub batch_id: usize,
    pub data: Seq<u8>,
}

impl View for BatchPart {
    type V = Part;

    open spec fn view(&self) -> Part {
        Part {
            team_hash: self.team_hash,
            func_id: self.func_id,
            batch_id: self.batch_id,
            data: self.data@,
        }
    }
}

/// The views of a list of batches.
pub open spec fn part_views(parts: Seq<BatchPart>) -> Seq<Part> {
    Seq::new(parts.len(), |i: int| parts[i]@)
}

/// Batches, and the position behind them.
pub type Parsed = Option<(Seq<Part>, int)>;

/// Puts batches in front of what was read behind them.
pub open spec fn in_front(parts: Seq<Part>, rest: Parsed) -> Parsed {
    match rest {
        Some((more, at)) => Some((parts + more, at)),
        None => None,
    }
}

/// The batches that start before `end`, from position `at` on.
pub open spec fn batches_at(
    data: Seq<u8>,
    at: int,
    end: int,
    team_hash: u64,
    func_id: AmId,
) -> Parsed
    decreases data.len() - at,
{
    if at >= end {
        Some((Seq::empty(), at))
    } else {
        match (wire::usize_at(data, at), wire::usize_at(data, at + 8)) {
            (Some(size), Some(batch_id)) => {
                let start = at + BATCH_HEADER_LEN;
                if start + size <= data.len() && handler_of(func_id) is Some {
                    in_front(
                        seq![
                            Part {
                                team_hash,
                                func_id,
                                batch_id,
                                data: data.subrange(start, start + size),
                            },
                        ],
                        batches_at(data, start + size, end, team_hash, func_id),
                    )
                } else {
                    None
                }
            },
            _ => None,
        }
    }
}

/// Reading batches never moves back, and stops behind `end`.
pub proof fn batches_at_moves_on(data: Seq<u8>, at: int, end: int, team_hash: u64, func_id: AmId)
    ensures
        batches_at(data, at, end, team_hash, func_id) matches Some((_, behind)) ==> behind >= at
            && behind >= end && (at <= data.len() ==> behind <= data.len()),
    decreases data.len() - at,
{
    if at < end {
        if let (Some(size), Some(_)) = (wire::usize_at(data, at), wire::usize_at(data, at + 8)) {
            if at + BATCH_HEADER_LEN + size <= data.len() {
                batches_at_moves_on(data, at + BATCH_HEADER_LEN + size, end, team_hash, func_id);
            }
        }
    }
}

/// The batches of the functions that start before `end`, from position `at`
/// on.
pub open spec fn funcs_at(data: Seq<u8>, at: int, end: int, team_hash: u64) -> Parsed
    decreases data.len() - at,
{
    if at >= end {
        Some((Seq::empty(), at))
    } else {
        match (wire::usize_at(data, at), wire::half_word_at(data, at + 8)) {
            (Some(size), Some(func_id)) => {
                let start = at + FUNC_HEADER_LEN;
                match batches_at(data, start, start + size, team_hash, func_id) {
                    Some((parts, behind)) => {
                        proof {
                            batches_at_moves_on(data, start, start + size, team_hash, func_id);
                        }
                        in_front(parts, funcs_at(data, behind, end, team_hash))
                    },
                    None => None,
                }
            },
            _ => None,
        }
    }
}

/// Reading functions never moves back, and stops behind `end`.
pub proof fn funcs_at_moves_on(data: Seq<u8>, at: int, end: int, team_hash: u64)
    ensures
        funcs_at(data, at, end, team_hash) matches Some((_, behind)) ==> behind >= at && behind
            >= end && (at <= data.len() ==> behind <= data.len()),
    decreases data.len() - at,
{
    if at < end {
        if let (Some(size), Some(func_id)) = (
            wire::usize_at(data, at),
            wire::half_word_at(data, at + 8),
        ) {
            let start = at + FUNC_HEADER_LEN;
            batches_at_moves_on(data, start, start + size, team_hash, func_id);
            if let Some((_, behind)) = batches_at(data, start, start + size, team_hash, func_id) {
                funcs_at_moves_on(data, behind, end, team_hash);
            }
        }
    }
}

/// The batches of a message from position `at` on.
pub open spec fn teams_at(data: Seq<u8>, at: int) -> Option<Seq<Part>>
    decreases data.len() - at,
{
    if at >= data.len() {
        Some(Seq::empty())
    } else {
        match (wire::usize_at(data, at), wire::word_at(data, at + 8)) {
            (Some(size), Some(team_hash)) => {
                let start = at + TEAM_HEADER_LEN;
                match funcs_at(data, start, start + size, team_hash) {
                    Some((parts, behind)) => {
                        proof {
                            funcs_at_moves_on(data, start, start + size, team_hash);
                        }
                        match teams_at(data, behind) {
                            Some(more) => Some(parts + more),
                            None => None,
                        }
                    },
                    None => None,
                }
            },
            _ => None,
        }
    }
}

fn read_batches(
    data: &[u8],
    start: usize,
    size: usize,
    team_hash: u64,
    func_id: AmId,
    out: &mut Vec<BatchPart>,
) -> (r: Option<usize>)
    requires
        start <= data@.len(),
    ensures
        match r {
            Some(behind) => {
                &&& behind <= data@.len()
                &&& batches_at(data@, start as int, start + size, team_hash, func_id) matches Some(
                    (parts, at),
                )
                &&& at == behind
                &&& part_views(final(out)@) == part_views(old(out)@) + parts
            },
            None => batches_at(data@, start as int, start + size, team_hash, func_id) is None,
        },
{
    let len: usize = data.len();
    let mut at: usize = start;
    let ghost end = start + size;
    let ghost whole = batches_at(data@, start as int, end, team_hash, func_id);
    let ghost mut seen: Seq<Part> = Seq::empty();
    proof {
        if whole is Some {
            assert(seen + (whole->0).0 == (whole->0).0);
        }
        assert(part_views(out@) + seen == part_views(out@));
    }
    while at - start < size
        invariant
            start <= at <= len,
            len == data@.len(),
            end == start + size,
            whole == batches_at(data@, start as int, end, team_hash, func_id),
            whole == in_front(seen, batches_at(data@, at as int, end, team_hash, func_id)),
            part_views(out@) == part_views(old(out)@) + seen,
        decreases data@.len() - at,
    {
        let batch_size: usize = match read_usize(data, at) {
            Some(x) => x,
            None => {
                return None;
            },
        };
        let batch_id: usize = match read_usize(data, at + WORD_LEN) {
            Some(x) => x,
            None => {
                return None;
            },
        };
        let from: usize = at + BATCH_HEADER_LEN;
        if batch_size > len - from || handler(func_id).is_none() {
            return None;
        }
        let to: usize = from + batch_size;
        let mut bytes: Vec<u8> = Vec::new();
        bytes.extend_from_slice(slice_subrange(data, from, to));
        let part = BatchPart { team_hash, func_id, batch_id, data: bytes };
        proof {
            assert(bytes@ == data@.subrange(from as int, to as int));
            let rest = batches_at(data@, to as int, end, team_hash, func_id);
            let next = seen.push(part@);
            if rest is Some {
                assert(seen + (seq![part@] + (rest->0).0) == next + (rest->0).0);
            }
            seen = next;
        }
        let ghost before = out@;
        out.push(part);
        proof {
            assert(part_views(out@) == part_views(before).push(part@));
        }
        at = to;
    }
    proof {
        assert(batches_at(data@, at as int, end, team_hash, func_id) == Some(
            (Seq::<Part>::empty(), at as int),
        ));
        assert(seen + Seq::<Part>::empty() == seen);
    }
    Some(at)
}

fn read_funcs(
    data: &[u8],
    start: usize,
    size: usize,
    team_hash: u64,
    out: &mut Vec<BatchPart>,
) -> (r: Option<usize>)
    requires
        start <= data@.len(),
    ensures
        match r {
            Some(behind) => {
                &&& behind <= data@.len()
                &&& funcs_at(data@, start as int, start + size, team_hash) matches Some((parts, at))
                &&& at == behind
                &&& part_views(final(out)@) == part_views(old(out)@) + parts
            },
            None => funcs_at(data@, start as int, start + size, team_hash) is None,
        },
{
    let len: usize = data.len();
    let mut at: usize = start;
    let ghost end = start + size;
    let ghost whole = funcs_at(data@, start as int, end, team_hash);
    let ghost mut seen: Seq<Part> = Seq::empty();
    proof {
        if whole is Some {
            assert(seen + (whole->0).0 == (whole->0).0);
        }
        assert(part_views(out@) + seen == part_views(out@));
    }
    while at - start < size
        invariant
            start <= at <= len,
            len == data@.len(),
            end == start + size,
            whole == funcs_at(data@, start as int, end, team_hash),
            whole == in_front(seen, funcs_at(data@, at as int, end, team_hash)),
            part_views(out@) == part_views(old(out)@) + seen,
        decreases data@.len() - at,
    {
        let func_size: usize = match read_usize(data, at) {
            Some(x) => x,
            None => {
                return None;
            },
        };
        let func_id: AmId = match read_half_word(data, at + WORD_LEN) {
            Some(x) => x,
            None => {
                return None;
            },
        };
        let from: usize = at + FUNC_HEADER_LEN;
        proof {
            batches_at_moves_on(data@, from as int, from + func_size, team_hash, func_id);
        }
        let behind: usize = match read_batches(data, from, func_size, team_hash, func_id, out) {
            Some(x) => x,
            None => {
                return None;
            },
        };
        proof {
            let parts = (batches_at(
                data@,
                from as int,
                from + func_size,
                team_hash,
                func_id,
            )->0).0;
            let rest = funcs_at(data@, behind as int, end, team_hash);
            if rest is Some {
                assert(seen + (parts + (rest->0).0) == seen + parts + (rest->0).0);
            }
            assert(part_views(old(out)@) + seen + parts == part_views(old(out)@) + (seen + parts));
            seen = seen + parts;
        }
        at = behind;
    }
    proof {
        assert(funcs_at(data@, at as int, end, team_hash) == Some((Seq::<Part>::empty(), at as int)));
        assert(seen + Seq::<Part>::empty() == seen);
    }
    Some(at)
}

/// Splits a message into its batches. There is no result if the message is
/// malformed or asks for something that no handler does.
pub fn decode(data: &[u8]) -> (r: Option<Vec<BatchPart>>)
    ensures
        match r {
            Some(parts) => teams_at(data@, 0) == Some(part_views(parts@)),
            None => teams_at(data@, 0) is None,
        },
        r matches Some(parts) ==> (teams_at(data@, 0) matches Some(said) && said.len()
            == parts@.len() && forall|i: int|
            0 <= i < said.len() ==> (#[trigger] parts@[i]).team_hash == said[i].team_hash
                && parts@[i].func_id == said[i].func_id && parts@[i].batch_id == said[i].batch_id
                && parts@[i].data@ == said[i].data),
{
    let mut out: Vec<BatchPart> = Vec::new();
    let mut at: usize = 0;
    proof {
        let whole = teams_at(data@, 0);
        if whole is Some {
            assert(part_views(out@) + whole->0 == whole->0);
        }
    }
    while at < data.len()
        invariant
            at <= data@.len(),
            teams_at(data@, 0) == (match teams_at(data@, at as int) {
                Some(more) => Some(part_views(out@) + more),
                None => None,
            }),
        decreases data@.len() - at,
    {
        let team_size: usize = match read_usize(data, at) {
            Some(x) => x,
            None => {
                return None;
            },
        };
        let team_hash: u64 = match read_word(data, at + WORD_LEN) {
            Some(x) => x,
            None => {
                return None;
            },
        };
        let from: usize = at + TEAM_HEADER_LEN;
        proof {
            funcs_at_moves_on(data@, from as int, from + team_size, team_hash);
        }
        let ghost before = part_views(out@);
        let behind: usize = match read_funcs(data, from, team_size, team_hash, &mut out) {
            Some(x) => x,
            None => {
                return None;
            },
        };
        proof {
            let parts = (funcs_at(data@, from as int, from + team_size, team_hash)->0).0;
            let rest = teams_at(data@, behind as int);
            if rest is Some {
                assert(before + (parts + rest->0) == before + parts + rest->0);
            }
        }
        at = behind;
    }
    proof {
        assert(part_views(out@) + Seq::<Part>::empty() == part_views(out@));
    }
    Some(out)
}

/// The batches that a function's part of a message says.
pub open spec fn batches_sent(
    team_hash: u64,
    func_id: AmId,
    batches: Seq<BatchEntry>,
    next: int,
) -> Seq<Part>
    decreases batches.len(),
{
    if batches.len() == 0 {
        Seq::empty()
    } else {
        batches_sent(team_hash, func_id, batches.drop_last(), next).push(
            Part {
                team_hash,
                func_id,
                batch_id: message::sent_id(
                    func_id,
                    batches.last(),
                    next + message::ids_taken(func_id, batches.drop_last()),
                ),
                data: message::requests_bytes(func_id, batches.last().reqs@),
            },
        )
    }
}

/// The batches that a team's part of a message says.
pub open spec fn funcs_sent(team_hash: u64, funcs: Seq<FuncEntry>, next: int) -> Seq<Part>
    decreases funcs.len(),
{
    if funcs.len() == 0 {
        Seq::empty()
    } else {
        funcs_sent(team_hash, funcs.drop_last(), next) + batches_sent(
            team_hash,
            funcs.last().func_id,
            funcs.last().batches@,
            next + message::ids_taken_by_funcs(funcs.drop_last()),
        )
    }
}

/// The batches that a message says.
pub open spec fn teams_sent(teams: Seq<TeamEntry>, next: int) -> Seq<Part>
    decreases teams.len(),
{
    if teams.len() == 0 {
        Seq::empty()
    } else {
        teams_sent(teams.drop_last(), next) + funcs_sent(
            teams.last().team_hash,
            teams.last().funcs@,
            next + message::ids_taken_by_teams(teams.drop_last()),
        )
    }
}

proof fn request_len_is_exact(func_id: AmId, req: (usize, LamellarFunc))
    ensures
        message::request_bytes(func_id, req).len() == submitted::request_len(func_id, req.1),
{
    wire::word_len(req.0 as u64);
    wire::word_len(req.1->Result_0@.len() as u64);
}

proof fn requests_len_is_exact(func_id: AmId, reqs: Seq<(usize, LamellarFunc)>)
    ensures
        message::requests_bytes(func_id, reqs).len() == math::total(
            Seq::new(reqs.len(), |i: int| submitted::request_len(func_id, reqs[i].1)),
        ),
    decreases reqs.len(),
{
    if reqs.len() > 0 {
        requests_len_is_exact(func_id, reqs.drop_last());
        request_len_is_exact(func_id, reqs.last());
        let lens = Seq::new(reqs.len(), |i: int| submitted::request_len(func_id, reqs[i].1));
        assert(lens.drop_last() == Seq::new(
            reqs.drop_last().len(),
            |i: int| submitted::request_len(func_id, reqs.drop_last()[i].1),
        ));
    }
}

/// A function's part of a message takes the bytes that were counted for it,
/// and is read back as what it says.
proof fn batches_read_back(
    data: Seq<u8>,
    at: int,
    end: int,
    team_hash: u64,
    func_id: AmId,
    batches: Seq<BatchEntry>,
    next: int,
)
    requires
        handler_of(func_id) is Some,
        forall|i: int| 0 <= i < batches.len() ==> (#[trigger] batches[i]).exact(func_id),
        0 <= at,
        at + message::batches_bytes(func_id, batches, next).len() <= data.len(),
        at + message::batches_bytes(func_id, batches, next).len() <= end,
        data.subrange(at, at + message::batches_bytes(func_id, batches, next).len())
            == message::batches_bytes(func_id, batches, next),
    ensures
        message::batches_bytes(func_id, batches, next).len() == math::total(
            Seq::new(batches.len(), |i: int| BATCH_HEADER_LEN + batches[i].size),
        ),
        batches_at(data, at, end, team_hash, func_id) == in_front(
            batches_sent(team_hash, func_id, batches, next),
            batches_at(
                data,
                at + message::batches_bytes(func_id, batches, next).len(),
                end,
                team_hash,
                func_id,
            ),
        ),
    decreases batches.len(),
{
    let bytes = message::batches_bytes(func_id, batches, next);
    let sizes = Seq::new(batches.len(), |i: int| BATCH_HEADER_LEN + batches[i].size);
    if batches.len() == 0 {
        let rest = batches_at(data, at, end, team_hash, func_id);
        if rest is Some {
            assert(Seq::<Part>::empty() + (rest->0).0 == (rest->0).0);
        }
    } else {
        let b = batches.last();
        let front = message::batches_bytes(func_id, batches.drop_last(), next);
        let id = message::sent_id(
            func_id,
            b,
            next + message::ids_taken(func_id, batches.drop_last()),
        );
        let reqs = message::requests_bytes(func_id, b.reqs@);
        assert(bytes == front + wire::word_bytes(b.size as u64) + wire::word_bytes(id as u64)
            + reqs);
        wire::word_len(b.size as u64);
        wire::word_len(id as u64);
        assert(b.exact(func_id)) by {
            assert(batches[batches.len() - 1].exact(func_id));
        }
        requests_len_is_exact(func_id, b.reqs@);
        assert(reqs.len() == b.size);
        let mid = at + front.len();
        let written = data.subrange(at, at + bytes.len());
        assert(data.subrange(at, mid) == front) by {
            assert(data.subrange(at, mid) == written.subrange(0, front.len() as int));
            assert(bytes.subrange(0, front.len() as int) == front);
        }
        assert forall|i: int| 0 <= i < batches.drop_last().len() implies (
        #[trigger] batches.drop_last()[i]).exact(func_id) by {
            assert(batches[i].exact(func_id));
        }
        batches_read_back(data, at, end, team_hash, func_id, batches.drop_last(), next);
        assert(sizes.drop_last() == Seq::new(
            batches.drop_last().len(),
            |i: int| BATCH_HEADER_LEN + batches.drop_last()[i].size,
        ));
        let n = front.len() as int;
        assert(data.subrange(mid, mid + 8) == wire::word_bytes(b.size as u64)) by {
            assert(data.subrange(mid, mid + 8) == written.subrange(n, n + 8));
            assert(bytes.subrange(n, n + 8) == wire::word_bytes(b.size as u64));
        }
        assert(data.subrange(mid + 8, mid + 16) == wire::word_bytes(id as u64)) by {
            assert(data.subrange(mid + 8, mid + 16) == written.subrange(n + 8, n + 16));
            assert(bytes.subrange(n + 8, n + 16) == wire::word_bytes(id as u64));
        }
        assert(data.subrange(mid + 16, mid + 16 + b.size) == reqs) by {
            assert(data.subrange(mid + 16, mid + 16 + b.size) == written.subrange(
                n + 16,
                n + 16 + b.size,
            ));
            assert(bytes.subrange(n + 16, n + 16 + b.size) == reqs);
        }
        wire::usize_read_back(data, mid, b.size);
        wire::usize_read_back(data, mid + 8, id);
        let behind = mid + 16 + b.size;
        assert(behind == at + bytes.len());
        let part = Part { team_hash, func_id, batch_id: id, data: reqs };
        let rest = batches_at(data, behind, end, team_hash, func_id);
        let sent = batches_sent(team_hash, func_id, batches.drop_last(), next);
        assert(batches_at(data, mid, end, team_hash, func_id) == in_front(seq![part], rest));
        if rest is Some {
            assert(sent + (seq![part] + (rest->0).0) == sent.push(part) + (rest->0).0);
        }
    }
}

/// A team's part of a message takes the bytes that were counted for it, and is
/// read back as what it says.
proof fn funcs_read_back(
    data: Seq<u8>,
    at: int,
    end: int,
    team_hash: u64,
    funcs: Seq<FuncEntry>,
    next: int,
)
    requires
        forall|i: int|
            0 <= i < funcs.len() ==> (#[trigger] funcs[i]).exact() && handler_of(
                funcs[i].func_id,
            ) is Some,
        0 <= at,
        at + message::funcs_bytes(funcs, next).len() <= data.len(),
        at + message::funcs_bytes(funcs, next).len() <= end,
        data.subrange(at, at + message::funcs_bytes(funcs, next).len()) == message::funcs_bytes(
            funcs,
            next,
        ),
    ensures
        message::funcs_bytes(funcs, next).len() == math::total(
            Seq::new(funcs.len(), |i: int| FUNC_HEADER_LEN + funcs[i].size),
        ),
        funcs_at(data, at, end, team_hash) == in_front(
            funcs_sent(team_hash, funcs, next),
            funcs_at(data, at + message::funcs_bytes(funcs, next).len(), end, team_hash),
        ),
    decreases funcs.len(),
{
    let bytes = message::funcs_bytes(funcs, next);
    let sizes = Seq::new(funcs.len(), |i: int| FUNC_HEADER_LEN + funcs[i].size);
    if funcs.len() == 0 {
        let rest = funcs_at(data, at, end, team_hash);
        if rest is Some {
            assert(Seq::<Part>::empty() + (rest->0).0 == (rest->0).0);
        }
    } else {
        let f = funcs.last();
        assert(f == funcs[funcs.len() - 1]);
        let front = message::funcs_bytes(funcs.drop_last(), next);
        let first = next + message::ids_taken_by_funcs(funcs.drop_last());
        let inner = message::batches_bytes(f.func_id, f.batches@, first);
        assert(bytes == front + wire::word_bytes(f.size as u64) + wire::half_word_bytes(f.func_id)
            + inner);
        wire::word_len(f.size as u64);
        wire::half_word_len(f.func_id);
        let mid = at + front.len();
        let n = front.len() as int;
        let start = mid + 12;
        let behind = at + bytes.len();
        let written = data.subrange(at, behind);
        assert(data.subrange(at, mid) == front) by {
            assert(data.subrange(at, mid) == written.subrange(0, n));
            assert(bytes.subrange(0, n) == front);
        }
        assert(data.subrange(mid, mid + 8) == wire::word_bytes(f.size as u64)) by {
            assert(data.subrange(mid, mid + 8) == written.subrange(n, n + 8));
            assert(bytes.subrange(n, n + 8) == wire::word_bytes(f.size as u64));
        }
        assert(data.subrange(mid + 8, mid + 12) == wire::half_word_bytes(f.func_id)) by {
            assert(data.subrange(mid + 8, mid + 12) == written.subrange(n + 8, n + 12));
            assert(bytes.subrange(n + 8, n + 12) == wire::half_word_bytes(f.func_id));
        }
        assert(data.subrange(start, behind) == inner) by {
            assert(data.subrange(start, behind) == written.subrange(n + 12, bytes.len() as int));
            assert(bytes.subrange(n + 12, bytes.len() as int) == inner);
        }
        assert forall|i: int| 0 <= i < funcs.drop_last().len() implies (
        #[trigger] funcs.drop_last()[i]).exact() && handler_of(
            funcs.drop_last()[i].func_id,
        ) is Some by {
            assert(funcs[i].exact());
        }
        funcs_read_back(data, at, end, team_hash, funcs.drop_last(), next);
        assert(sizes.drop_last() == Seq::new(
            funcs.drop_last().len(),
            |i: int| FUNC_HEADER_LEN + funcs.drop_last()[i].size,
        ));
        assert(start + inner.len() == behind);
        batches_read_back(data, start, behind, team_hash, f.func_id, f.batches@, first);
        assert(f.parts() == Seq::new(
            f.batches@.len(),
            |i: int| BATCH_HEADER_LEN + f.batches@[i].size,
        ));
        assert(inner.len() == f.size);
        wire::usize_read_back(data, mid, f.size);
        wire::half_word_read_back(data, mid + 8, f.func_id);
        let parts = batches_sent(team_hash, f.func_id, f.batches@, first);
        assert(parts + Seq::<Part>::empty() == parts);
        assert(batches_at(data, start, start + f.size, team_hash, f.func_id) == Some(
            (parts, behind),
        ));
        let rest = funcs_at(data, behind, end, team_hash);
        let sent = funcs_sent(team_hash, funcs.drop_last(), next);
        assert(funcs_at(data, mid, end, team_hash) == in_front(parts, rest));
        if rest is Some {
            assert(sent + (parts + (rest->0).0) == sent + parts + (rest->0).0);
        }
    }
}

proof fn teams_read_back(data: Seq<u8>, teams: Seq<TeamEntry>, next: int)
    requires
        forall|i: int| 0 <= i < teams.len() ==> (#[trigger] teams[i]).exact(),
        forall|i: int, j: int|
            0 <= i < teams.len() && 0 <= j < teams[i].funcs@.len() ==> handler_of(
                (#[trigger] teams[i].funcs@[j]).func_id,
            ) is Some,
        message::teams_bytes(teams, next).len() <= data.len(),
        data.subrange(0, message::teams_bytes(teams, next).len() as int) == message::teams_bytes(
            teams,
            next,
        ),
    ensures
        message::teams_bytes(teams, next).len() == math::total(
            Seq::new(teams.len(), |i: int| TEAM_HEADER_LEN + teams[i].size),
        ),
        teams_at(data, 0) == (match teams_at(
            data,
            message::teams_bytes(teams, next).len() as int,
        ) {
            Some(more) => Some(teams_sent(teams, next) + more),
            None => None,
        }),
    decreases teams.len(),
{
    let bytes = message::teams_bytes(teams, next);
    let sizes = Seq::new(teams.len(), |i: int| TEAM_HEADER_LEN + teams[i].size);
    if teams.len() == 0 {
        let rest = teams_at(data, 0);
        if rest is Some {
            assert(Seq::<Part>::empty() + rest->0 == rest->0);
        }
    } else {
        let t = teams.last();
        assert(t == teams[teams.len() - 1]);
        let front = message::teams_bytes(teams.drop_last(), next);
        let first = next + message::ids_taken_by_teams(teams.drop_last());
        let inner = message::funcs_bytes(t.funcs@, first);
        assert(bytes == front + wire::word_bytes(t.size as u64) + wire::word_bytes(t.team_hash)
            + inner);
        wire::word_len(t.size as u64);
        wire::word_len(t.team_hash);
        let mid = front.len() as int;
        let start = mid + 16;
        let behind = bytes.len() as int;
        let written = data.subrange(0, behind);
        assert(data.subrange(0, mid) == front) by {
            assert(data.subrange(0, mid) == written.subrange(0, mid));
            assert(bytes.subrange(0, mid) == front);
        }
        assert(data.subrange(mid, mid + 8) == wire::word_bytes(t.size as u64)) by {
            assert(data.subrange(mid, mid + 8) == written.subrange(mid, mid + 8));
            assert(bytes.subrange(mid, mid + 8) == wire::word_bytes(t.size as u64));
        }
        assert(data.subrange(mid + 8, mid + 16) == wire::word_bytes(t.team_hash)) by {
            assert(data.subrange(mid + 8, mid + 16) == written.subrange(mid + 8, mid + 16));
            assert(bytes.subrange(mid + 8, mid + 16) == wire::word_bytes(t.team_hash));
        }
        assert(data.subrange(start, behind) == inner) by {
            assert(data.subrange(start, behind) == written.subrange(start, behind));
            assert(bytes.subrange(start, behind) == inner);
        }
        assert forall|i: int| 0 <= i < teams.drop_last().len() implies (
        #[trigger] teams.drop_last()[i]).exact() by {
            assert(teams[i].exact());
        }
        assert forall|i: int, j: int|
            0 <= i < teams.drop_last().len() && 0 <= j < teams.drop_last()[i].funcs@.len() implies handler_of(
        (#[trigger] teams.drop_last()[i].funcs@[j]).func_id) is Some by {
            assert(handler_of(teams[i].funcs@[j].func_id) is Some);
        }
        teams_read_back(data, teams.drop_last(), next);
        assert(sizes.drop_last() == Seq::new(
            teams.drop_last().len(),
            |i: int| TEAM_HEADER_LEN + teams.drop_last()[i].size,
        ));
        assert forall|i: int| 0 <= i < t.funcs@.len() implies (#[trigger] t.funcs@[i]).exact()
            && handler_of(t.funcs@[i].func_id) is Some by {
            assert(handler_of(teams[teams.len() - 1].funcs@[i].func_id) is Some);
        }
        funcs_read_back(data, start, behind, t.team_hash, t.funcs@, first);
        assert(t.parts() == Seq::new(
            t.funcs@.len(),
            |i: int| FUNC_HEADER_LEN + t.funcs@[i].size,
        ));
        assert(inner.len() == t.size);
        wire::usize_read_back(data, mid, t.size);
        wire::word_read_back(data, mid + 8, t.team_hash);
        let parts = funcs_sent(t.team_hash, t.funcs@, first);
        assert(parts + Seq::<Part>::empty() == parts);
        assert(funcs_at(data, start, start + t.size, t.team_hash) == Some((parts, behind)));
        let rest = teams_at(data, behind);
        let sent = teams_sent(teams.drop_last(), next);
        if rest is Some {
            assert(sent + (parts + rest->0) == sent + parts + rest->0);
        }
    }
}

/// Whether every function of a message is one that a receiver handles.
pub open spec fn all_handled(teams: Seq<TeamEntry>) -> bool {
    forall|i: int, j: int|
        0 <= i < teams.len() && 0 <= j < teams[i].funcs@.len() ==> handler_of(
            (#[trigger] teams[i].funcs@[j]).func_id,
        ) is Some
}

/// A message takes exactly the bytes that were counted for it, and a receiver
/// reads back exactly the batches that were put into it.
pub proof fn message_read_back(entry: PeEntry, next: int)
    requires
        entry.exact(),
        all_handled(entry.teams@),
    ensures
        message::teams_bytes(entry.teams@, next).len() == entry.size,
        teams_at(message::teams_bytes(entry.teams@, next), 0) == Some(
            teams_sent(entry.teams@, next),
        ),
{
    let data = message::teams_bytes(entry.teams@, next);
    assert(data.subrange(0, data.len() as int) == data);
    teams_read_back(data, entry.teams@, next);
    assert(entry.parts() == Seq::new(
        entry.teams@.len(),
        |i: int| TEAM_HEADER_LEN + entry.teams@[i].size,
    ));
    assert(teams_sent(entry.teams@, next) + Seq::<Part>::empty() == teams_sent(entry.teams@, next));
}

/// What a receiver gets of a batch: its team, its function, the bytes of all its
/// requests, and its id, if it had one when it was sent.
spec fn says(part: Part, team_hash: u64, func_id: AmId, batch: BatchEntry) -> bool {
    &&& part.team_hash == team_hash
    &&& part.func_id == func_id
    &&& part.data == message::requests_bytes(func_id, batch.reqs@)
    &&& batch.batch_id matches Some(id) ==> part.batch_id == id
}

proof fn batch_is_there(
    team_hash: u64,
    func_id: AmId,
    batches: Seq<BatchEntry>,
    next: int,
    k: int,
)
    requires
        0 <= k < batches.len(),
    ensures
        batches_sent(team_hash, func_id, batches, next).len() == batches.len(),
        says(
            batches_sent(team_hash, func_id, batches, next)[k],
            team_hash,
            func_id,
            batches[k],
        ),
    decreases batches.len(),
{
    let front = batches.drop_last();
    if k < front.len() {
        batch_is_there(team_hash, func_id, front, next, k);
        assert(front[k] == batches[k]);
    } else if front.len() > 0 {
        batch_is_there(team_hash, func_id, front, next, 0);
    } else {
        assert(batches_sent(team_hash, func_id, front, next).len() == 0);
    }
}

proof fn func_is_there(team_hash: u64, funcs: Seq<FuncEntry>, next: int, j: int, k: int)
    requires
        0 <= j < funcs.len(),
        0 <= k < funcs[j].batches@.len(),
    ensures
        exists|m: int|
            0 <= m < funcs_sent(team_hash, funcs, next).len() && says(
                #[trigger] funcs_sent(team_hash, funcs, next)[m],
                team_hash,
                funcs[j].func_id,
                funcs[j].batches@[k],
            ),
    decreases funcs.len(),
{
    let front = funcs.drop_last();
    let all = funcs_sent(team_hash, funcs, next);
    let before = funcs_sent(team_hash, front, next);
    if j < front.len() {
        func_is_there(team_hash, front, next, j, k);
        let m = choose|m: int|
            0 <= m < before.len() && says(
                #[trigger] before[m],
                team_hash,
                front[j].func_id,
                front[j].batches@[k],
            );
        assert(all[m] == before[m]);
    } else {
        let first = next + message::ids_taken_by_funcs(front);
        batch_is_there(team_hash, funcs[j].func_id, funcs[j].batches@, first, k);
        let last = batches_sent(team_hash, funcs[j].func_id, funcs[j].batches@, first);
        assert(all[before.len() + k] == last[k]);
    }
}

/// Every batch that was put into a message is among those that a receiver reads out
/// of it: with its own team, function and requests, and under its own id, if it had
/// one.
pub proof fn every_batch_arrives(teams: Seq<TeamEntry>, next: int, i: int, j: int, k: int)
    requires
        0 <= i < teams.len(),
        0 <= j < teams[i].funcs@.len(),
        0 <= k < teams[i].funcs@[j].batches@.len(),
    ensures
        exists|m: int|
            0 <= m < teams_sent(teams, next).len() && ({
                let part = #[trigger] teams_sent(teams, next)[m];
                let func = teams[i].funcs@[j];
                &&& part.team_hash == teams[i].team_hash
                &&& part.func_id == func.func_id
                &&& part.data == message::requests_bytes(func.func_id, func.batches@[k].reqs@)
                &&& func.batches@[k].batch_id matches Some(id) ==> part.batch_id == id
            }),
    decreases teams.len(),
{
    let front = teams.drop_last();
    let all = teams_sent(teams, next);
    let before = teams_sent(front, next);
    let func = teams[i].funcs@[j];
    if i < front.len() {
        every_batch_arrives(front, next, i, j, k);
        assert(front[i] == teams[i]);
        let m = choose|m: int|
            0 <= m < before.len() && says(
                #[trigger] before[m],
                teams[i].team_hash,
                func.func_id,
                func.batches@[k],
            );
        assert(all[m] == before[m]);
        assert(says(all[m], teams[i].team_hash, func.func_id, func.batches@[k]));
    } else {
        let first = next + message::ids_taken_by_teams(front);
        let hash = teams[i].team_hash;
        func_is_there(hash, teams[i].funcs@, first, j, k);
        let last = funcs_sent(hash, teams[i].funcs@, first);
        let m = choose|m: int|
            0 <= m < last.len() && says(
                #[trigger] last[m],
                hash,
                func.func_id,
                func.batches@[k],
            );
        assert(all[before.len() + m] == last[m]);
        assert(says(all[before.len() + m], hash, func.func_id, func.batches@[k]));
    }
}

/// A receiver takes a batch only whole: it has all the bytes that stand in front of
/// it as its size, from behind its id on, and a message that ends before is refused.
pub proof fn batches_are_taken_whole(
    data: Seq<u8>,
    at: int,
    end: int,
    team_hash: u64,
    func_id: AmId,
)
    requires
        0 <= at < end,
    ensures
        at + 16 > data.len() ==> batches_at(data, at, end, team_hash, func_id) is None,
        (wire::usize_at(data, at) matches Some(size) && at + 16 + size > data.len()) ==> batches_at(
            data,
            at,
            end,
            team_hash,
            func_id,
        ) is None,
        batches_at(data, at, end, team_hash, func_id) matches Some((parts, behind)) ==> {
            &&& wire::usize_at(data, at) matches Some(size)
            &&& wire::usize_at(data, at + 8) matches Some(id)
            &&& parts.len() > 0
            &&& parts[0].team_hash == team_hash
            &&& parts[0].func_id == func_id
            &&& parts[0].batch_id == id
            &&& parts[0].data.len() == size
            &&& parts[0].data == data.subrange(at + 16, at + 16 + size)
        },
{
}

/// Where a receiver finds what: the size of a function's part, its id behind that, and
/// its batches behind that.
pub proof fn functions_have_headers(data: Seq<u8>, at: int, end: int, team_hash: u64)
    requires
        0 <= at < end,
    ensures
        at + 12 > data.len() ==> funcs_at(data, at, end, team_hash) is None,
        funcs_at(data, at, end, team_hash) matches Some((parts, behind)) ==> {
            &&& wire::usize_at(data, at) matches Some(size)
            &&& wire::half_word_at(data, at + 8) matches Some(func_id)
            &&& batches_at(data, at + 12, at + 12 + size, team_hash, func_id) matches Some(
                (first, mid),
            )
            &&& first.len() <= parts.len()
            &&& parts.take(first.len() as int) == first
            &&& funcs_at(data, mid, end, team_hash) matches Some((more, last))
            &&& more == parts.skip(first.len() as int)
            &&& last == behind
        },
{
    if let Some((parts, behind)) = funcs_at(data, at, end, team_hash) {
        let size = wire::usize_at(data, at)->0;
        let func_id = wire::half_word_at(data, at + 8)->0;
        let (first, mid) = batches_at(data, at + 12, at + 12 + size, team_hash, func_id)->0;
        batches_at_moves_on(data, at + 12, at + 12 + size, team_hash, func_id);
        let (more, last) = funcs_at(data, mid, end, team_hash)->0;
        assert(parts == first + more);
        assert(parts.take(first.len() as int) =~= first);
        assert(parts.skip(first.len() as int) =~= more);
    }
}

/// Where a receiver finds what: the size of a team's part, its hash behind that, and
/// its functions behind that.
pub proof fn teams_have_headers(data: Seq<u8>, at: int)
    requires
        0 <= at < data.len(),
    ensures
        at + 16 > data.len() ==> teams_at(data, at) is None,
        teams_at(data, at) matches Some(parts) ==> {
            &&& wire::usize_at(data, at) matches Some(size)
            &&& wire::word_at(data, at + 8) matches Some(team_hash)
            &&& funcs_at(data, at + 16, at + 16 + size, team_hash) matches Some((first, mid))
            &&& first.len() <= parts.len()
            &&& parts.take(first.len() as int) == first
            &&& teams_at(data, mid) == Some(parts.skip(first.len() as int))
        },
{
    if let Some(parts) = teams_at(data, at) {
        let size = wire::usize_at(data, at)->0;
        let team_hash = wire::word_at(data, at + 8)->0;
        let (first, mid) = funcs_at(data, at + 16, at + 16 + size, team_hash)->0;
        funcs_at_moves_on(data, at + 16, at + 16 + size, team_hash);
        let more = teams_at(data, mid)->0;
        assert(parts == first + more);
        assert(parts.take(first.len() as int) =~= first);
        assert(parts.skip(first.len() as int) =~= more);
    }
}

} // verus!
