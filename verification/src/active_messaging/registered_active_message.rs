//! What one PE does with active messages: which requests it batches and which
//! it sends at once, what it sends, and how it treats what comes in.

use vstd::prelude::*;

use crate::active_messaging::am_ids::AmIds;
use crate::active_messaging::am_ids;
use crate::active_messaging::answers;
use crate::active_messaging::answers::{read_ams, read_ids, read_results, Answer};
use crate::active_messaging::batch_exec;
use crate::active_messaging::batch_exec::BatchOrigin;
use crate::active_messaging::message;
use crate::active_messaging::message::encode;
use crate::active_messaging::parse;
use crate::active_messaging::parse::{decode, BatchPart, Handler};
use crate::active_messaging::submitted;
use crate::active_messaging::submitted::{Request, SubmittedAms, RESULT_HEADER_LEN};
use crate::active_messaging::txed;
use crate::active_messaging::txed::{answer, TxedAms};
use crate::active_messaging::{
    AmId, Cmd, ExecType, LamellarAm, LamellarFunc, LamellarReturn, Msg, ReqMeta, SerializeHeader,
    AM_ID_START, BATCHED_REMOTE_DATA_ID, BATCHED_UNIT_ID, REMOTE_DATA_ID, UNIT_ID,
};
use crate::lamellar_team::LamellarTeamRT;
use crate::wire;
use crate::wire::{push_usize, WORD_LEN};

verus! {

/// Requests up to this size wait for others to the same destination.
pub const MAX_BATCHED_LEN: usize = 10000;

/// Bytes of the headers that a request can add to a message.
pub const MAX_HEADERS_LEN: usize = 44;

/// The requests that wait, the batches that are open, and the next batch id.
pub struct RegisteredActiveMessages {
    pub submitted_ams: SubmittedAms,
    pub txed_ams: TxedAms,
    pub cur_batch_id: usize,
}

/// A message to be sent. `ser_count` is how many copies of each active message
/// in it leave this PE.
pub struct TxMessage {
    pub dst: Option<usize>,
    pub header: SerializeHeader,
    pub data: Vec<u8>,
    pub ser_count: usize,
}

/// How many PEs get a message for `dst` from a member of a team of `num_pes`.
pub open spec fn copies(dst: Option<usize>, num_pes: int) -> int {
    if dst is None {
        num_pes - 1
    } else {
        1
    }
}

/// Whether a command returns an active message.
pub open spec fn returns_am(cmd: ExecType) -> bool {
    cmd == ExecType::Am(Cmd::BatchedAmReturn) || cmd == ExecType::Am(Cmd::AmReturn)
}

/// Whether a request can be sent under a command: what it carries is what the
/// command says, and an active message is registered.
pub open spec fn acceptable(ids: Seq<Seq<u8>>, cmd: ExecType, func: LamellarFunc) -> bool {
    match func {
        LamellarFunc::Am(am) => ids.contains(am.name@),
        LamellarFunc::Result(_) => cmd == ExecType::Am(Cmd::BatchedDataReturn) || cmd
            == ExecType::Am(Cmd::DataReturn),
        LamellarFunc::Empty => cmd == ExecType::Am(Cmd::UnitReturn) || cmd == ExecType::Am(
            Cmd::BatchedUnitReturn,
        ),
    }
}

/// The id under which a request travels.
pub open spec fn travels_as(ids: Seq<Seq<u8>>, cmd: ExecType, func: LamellarFunc) -> AmId {
    match func {
        LamellarFunc::Am(am) => if returns_am(cmd) {
            (-am_ids::id_of(ids, am.name@)) as AmId
        } else {
            am_ids::id_of(ids, am.name@) as AmId
        },
        LamellarFunc::Result(_) => if cmd == ExecType::Am(Cmd::BatchedDataReturn) {
            BATCHED_REMOTE_DATA_ID
        } else {
            REMOTE_DATA_ID
        },
        LamellarFunc::Empty => if cmd == ExecType::Am(Cmd::UnitReturn) {
            UNIT_ID
        } else {
            BATCHED_UNIT_ID
        },
    }
}

/// The command under which a request is batched.
pub open spec fn batched_cmd(cmd: ExecType, func: LamellarFunc) -> ExecType {
    if func is Am {
        ExecType::Am(Cmd::BatchedMsg)
    } else {
        cmd
    }
}

/// How a request travels: its id, its size in bytes, its command.
pub struct Travel {
    pub func_id: AmId,
    pub func_size: usize,
    pub cmd: ExecType,
}

/// Decides how a request travels.
pub fn classify(ids: &AmIds, cmd: ExecType, func: &LamellarFunc) -> (r: Travel)
    requires
        ids.wf(),
        acceptable(ids@, cmd, *func),
        submitted::request_len(travels_as(ids@, cmd, *func), *func) <= usize::MAX,
    ensures
        r.func_id == travels_as(ids@, cmd, *func),
        r.func_size == submitted::request_len(r.func_id, *func),
        r.cmd == batched_cmd(cmd, *func),
        message::sendable(r.func_id, *func),
        parse::handler_of(r.func_id) is Some,
        func is Am ==> r.func_id != UNIT_ID && r.func_id != BATCHED_UNIT_ID,
        func matches LamellarFunc::Am(am) ==> {
            &&& r.cmd == ExecType::Am(Cmd::BatchedMsg)
            &&& if cmd == ExecType::Am(Cmd::BatchedAmReturn) || cmd == ExecType::Am(Cmd::AmReturn) {
                r.func_id == -am_ids::id_of(ids@, am.name@) && r.func_size == am.data@.len() + 8
            } else {
                r.func_id == am_ids::id_of(ids@, am.name@) && r.func_size == am.data@.len()
            }
        },
        func matches LamellarFunc::Result(data) ==> {
            &&& r.cmd == cmd
            &&& r.func_size == data@.len() + 16
            &&& cmd == ExecType::Am(Cmd::BatchedDataReturn) ==> r.func_id == 3
            &&& cmd == ExecType::Am(Cmd::DataReturn) ==> r.func_id == 2
        },
        func is Empty ==> {
            &&& r.cmd == cmd
            &&& cmd == ExecType::Am(Cmd::UnitReturn) ==> r.func_id == 0 && r.func_size == 8
            &&& cmd == ExecType::Am(Cmd::BatchedUnitReturn) ==> r.func_id == 1 && r.func_size == 0
        },
{
    match func {
        LamellarFunc::Am(am) => {
            let id: AmId = match ids.get(&am.name) {
                Some(id) => id,
                None => 0,
            };
            if cmd == ExecType::Am(Cmd::BatchedAmReturn) || cmd == ExecType::Am(Cmd::AmReturn) {
                Travel {
                    func_id: -id,
                    func_size: am.data.len() + WORD_LEN,
                    cmd: ExecType::Am(Cmd::BatchedMsg),
                }
            } else {
                Travel {
                    func_id: id,
                    func_size: am.data.len(),
                    cmd: ExecType::Am(Cmd::BatchedMsg),
                }
            }
        },
        LamellarFunc::Result(data) => {
            let func_size: usize = data.len() + RESULT_HEADER_LEN;
            if cmd == ExecType::Am(Cmd::BatchedDataReturn) {
                Travel { func_id: BATCHED_REMOTE_DATA_ID, func_size, cmd }
            } else {
                Travel { func_id: REMOTE_DATA_ID, func_size, cmd }
            }
        },
        LamellarFunc::Empty => {
            if cmd == ExecType::Am(Cmd::UnitReturn) {
                Travel { func_id: UNIT_ID, func_size: WORD_LEN, cmd }
            } else {
                Travel { func_id: BATCHED_UNIT_ID, func_size: 0, cmd }
            }
        },
    }
}

/// The header of a message with many requests.
pub open spec fn batched_header(team: LamellarTeamRT) -> SerializeHeader {
    SerializeHeader {
        msg: Msg {
            src: team.world_pe as u16,
            req_id: 0,
            cmd: ExecType::Am(Cmd::BatchedMsg),
        },
        team_hash: 0,
        id: 0,
    }
}

/// The header of a message with one request.
pub open spec fn single_header(
    team: LamellarTeamRT,
    meta: ReqMeta,
    func_id: AmId,
) -> SerializeHeader {
    SerializeHeader {
        msg: Msg {
            src: team.world_pe as u16,
            req_id: match meta.batch_id {
                Some(id) => id,
                None => meta.id,
            },
            cmd: meta.cmd,
        },
        team_hash: meta.team_hash,
        id: func_id,
    }
}

/// Every request that waits can be written down and read by its receiver.
pub open spec fn all_sendable(s: SubmittedAms) -> bool {
    forall|d: Option<usize>, t: u64, f: AmId, b: Option<usize>, i: int|
        0 <= i < s.requests(d, t, f, b).len() ==> message::sendable(
            f,
            (#[trigger] s.requests(d, t, f, b)[i]).1,
        ) && parse::handler_of(f) is Some
}

/// A request under the id that it travels under.
pub open spec fn as_request(meta: ReqMeta, func_id: AmId, func: LamellarFunc) -> Request {
    Request {
        team_hash: meta.team_hash,
        func_id,
        batch_id: meta.batch_id,
        id: meta.id,
        func,
        size: submitted::request_len(func_id, func),
    }
}

proof fn place_is_position(team: LamellarTeamRT, meta: ReqMeta)
    requires
        team.wf(),
    ensures
        RegisteredActiveMessages::is_local(team, meta) <==> (meta.dst matches Some(d) && d
            < team.pes@.len() && team.pes@[d as int] == meta.src),
        team.has_member(meta.src) <==> exists|i: int|
            0 <= i < team.pes@.len() && #[trigger] team.pes@[i] == meta.src,
{
    if team.has_member(meta.src) {
        let p = team.place_of(meta.src);
        assert(team.pes@[p] == meta.src);
        let len = team.pes.len();
        assert(p == p as usize);
    }
}

/// What becomes of a request.
pub enum Outcome {
    /// It is for this PE: execute it here.
    ExecLocal(LamellarFunc),
    /// It waits in a batch. If it is the first for its destination, a message
    /// has to be put together later.
    Batched { first: bool },
    /// It is sent by itself.
    Single(TxMessage),
}

/// Whether a request waits in a batch: one that is not too large, unless it is an
/// active message without bytes.
pub open spec fn shares_message(func_id: AmId, func: LamellarFunc) -> bool {
    let len = submitted::request_len(func_id, func);
    len <= MAX_BATCHED_LEN && !(func is Am && len == 0)
}

impl RegisteredActiveMessages {
    pub open spec fn wf(self) -> bool {
        &&& self.submitted_ams.wf()
        &&& self.submitted_ams.exact()
        &&& all_sendable(self.submitted_ams)
    }

    /// Nothing waits, nothing is open.
    pub fn new() -> (s: Self)
        ensures
            s.wf(),
            s.submitted_ams.pes@.len() == 0,
            s.txed_ams@ == Map::<usize, Seq<(usize, usize)>>::empty(),
            s.cur_batch_id == 1,
    {
        RegisteredActiveMessages {
            submitted_ams: SubmittedAms::new(),
            txed_ams: TxedAms::new(),
            cur_batch_id: 1,
        }
    }

    /// Puts a request into the batch it belongs to. Answers whether it is the
    /// first for its destination: then a message has to be put together.
    pub fn add_req_to_batch(
        &mut self,
        func: LamellarFunc,
        func_size: usize,
        func_id: AmId,
        meta: &ReqMeta,
    ) -> (first: bool)
        requires
            old(self).wf(),
            message::sendable(func_id, func),
            parse::handler_of(func_id) is Some,
            func_size == submitted::request_len(func_id, func),
            old(self).submitted_ams.total_size(meta.dst) + func_size + MAX_HEADERS_LEN
                <= usize::MAX,
        ensures
            final(self).wf(),
            final(self).txed_ams == old(self).txed_ams,
            final(self).cur_batch_id == old(self).cur_batch_id,
            first == !old(self).submitted_ams.has(meta.dst),
            submitted::added(
                old(self).submitted_ams,
                final(self).submitted_ams,
                meta.dst,
                as_request(*meta, func_id, func),
            ),
            final(self).submitted_ams.requests(meta.dst, meta.team_hash, func_id, meta.batch_id)
                == old(self).submitted_ams.requests(
                meta.dst,
                meta.team_hash,
                func_id,
                meta.batch_id,
            ).push((meta.id, func)),
            forall|d: Option<usize>, t: u64, f: AmId, b: Option<usize>|
                d != meta.dst || t != meta.team_hash || f != func_id || b != meta.batch_id
                    ==> #[trigger] final(self).submitted_ams.requests(d, t, f, b) == old(
                    self,
                ).submitted_ams.requests(d, t, f, b),
    {
        let first = self.submitted_ams.insert(
            meta.dst,
            meta.team_hash,
            func_id,
            meta.batch_id,
            meta.id,
            func,
            func_size,
        );
        proof {
            let before = old(self).submitted_ams;
            let after = self.submitted_ams;
            assert forall|d: Option<usize>, t: u64, f: AmId, b: Option<usize>, i: int|
                0 <= i < after.requests(d, t, f, b).len() implies message::sendable(
                f,
                (#[trigger] after.requests(d, t, f, b)[i]).1,
            ) && parse::handler_of(f) is Some by {
                if i < before.requests(d, t, f, b).len() {
                    assert(before.requests(d, t, f, b)[i] == after.requests(d, t, f, b)[i]);
                }
            }
        }
        first
    }

    /// Puts everything that waits for a destination into one message. There is
    /// none if nothing waits.
    pub fn tx_batch(&mut self, dst: Option<usize>, team: &LamellarTeamRT) -> (r: Option<TxMessage>)
        requires
            old(self).wf(),
            dst is None ==> team.pes@.len() > 0,
            old(self).submitted_ams.has(dst) ==> old(self).cur_batch_id
                + message::ids_taken_by_teams(
                old(self).submitted_ams.pes@[old(self).submitted_ams.position(dst)].teams@,
            ) <= usize::MAX,
        ensures
            final(self).wf(),
            !final(self).submitted_ams.has(dst),
            forall|d: Option<usize>, t: u64, f: AmId, b: Option<usize>|
                d != dst ==> #[trigger] final(self).submitted_ams.requests(d, t, f, b) == old(
                    self,
                ).submitted_ams.requests(d, t, f, b),
            match r {
                Some(msg) => {
                    let s = old(self).submitted_ams;
                    let entry = s.pes@[s.position(dst)];
                    let next = old(self).cur_batch_id as int;
                    &&& s.has(dst)
                    &&& msg.dst == dst
                    &&& msg.header == batched_header(*team)
                    &&& msg.header.msg.src == team.world_pe as u16
                    &&& msg.header.msg.cmd == ExecType::Am(Cmd::BatchedMsg)
                    &&& msg.header.msg.req_id == 0
                    &&& msg.header.team_hash == 0
                    &&& msg.header.id == 0
                    &&& dst is Some ==> msg.ser_count == 1
                    &&& dst is None ==> msg.ser_count == team.pes@.len() - 1
                    &&& msg.data@ == message::teams_bytes(entry.teams@, next)
                    &&& msg.data@.len() == s.total_size(dst)
                    &&& parse::teams_at(msg.data@, 0) == Some(
                        parse::teams_sent(entry.teams@, next),
                    )
                    &&& msg.ser_count == copies(dst, team.pes@.len() as int)
                    &&& final(self).cur_batch_id == next + message::ids_taken_by_teams(entry.teams@)
                    &&& final(self).txed_ams@ == message::open_after_teams(
                        old(self).txed_ams@,
                        entry.teams@,
                        next,
                    )
                },
                None => !old(self).submitted_ams.has(dst) && final(self).txed_ams == old(
                    self,
                ).txed_ams && final(self).cur_batch_id == old(self).cur_batch_id,
            },
    {
        let ghost before = self.submitted_ams;
        let taken = self.submitted_ams.take(dst);
        proof {
            let after = self.submitted_ams;
            assert forall|d: Option<usize>, t: u64, f: AmId, b: Option<usize>|
                d != dst implies #[trigger] after.requests(d, t, f, b) == before.requests(
                d,
                t,
                f,
                b,
            ) by {
                assert(after.has(d) == before.has(d));
            }
            assert forall|d: Option<usize>, t: u64, f: AmId, b: Option<usize>, i: int|
                0 <= i < after.requests(d, t, f, b).len() implies message::sendable(
                f,
                (#[trigger] after.requests(d, t, f, b)[i]).1,
            ) && parse::handler_of(f) is Some by {
                assert(after.has(d));
                assert(d != dst);
                assert(before.requests(d, t, f, b)[i] == after.requests(d, t, f, b)[i]);
            }
        }
        match taken {
            Some(entry) => {
                proof {
                    let p = before.position(dst);
                    assert(before.pes@[p] == entry);
                    assert forall|j: int, k: int|
                        0 <= j < entry.teams@.len() && 0 <= k
                            < entry.teams@[j].funcs@.len() implies message::func_sendable(
                        #[trigger] entry.teams@[j].funcs@[k],
                    ) && parse::handler_of(entry.teams@[j].funcs@[k].func_id) is Some by {
                        let f = entry.teams@[j].funcs@[k];
                        assert(entry.teams@[j].wf());
                        assert(f.wf() && f.batches@.len() > 0);
                        assert forall|l: int, i: int|
                            0 <= l < f.batches@.len() && 0 <= i
                                < f.batches@[l].reqs@.len() implies message::sendable(
                            f.func_id,
                            (#[trigger] f.batches@[l].reqs@[i]).1,
                        ) by {
                            submitted::requests_by_index(before, p, j, k, l);
                            assert(before.requests(
                                dst,
                                entry.teams@[j].team_hash,
                                f.func_id,
                                f.batches@[l].batch_id,
                            )[i] == f.batches@[l].reqs@[i]);
                        }
                        submitted::requests_by_index(before, p, j, k, 0);
                        let first = f.batches@[0];
                        assert(before.requests(
                            dst,
                            entry.teams@[j].team_hash,
                            f.func_id,
                            first.batch_id,
                        )[0] == first.reqs@[0]);
                    }
                    parse::message_read_back(entry, self.cur_batch_id as int);
                }
                let data = encode(&entry, &mut self.cur_batch_id, &mut self.txed_ams);
                let ser_count: usize = match dst {
                    None => team.num_pes() - 1,
                    Some(_) => 1,
                };
                let header = SerializeHeader {
                    msg: Msg {
                        src: team.world_pe as u16,
                        req_id: 0,
                        cmd: ExecType::Am(Cmd::BatchedMsg),
                    },
                    team_hash: 0,
                    id: 0,
                };
                Some(TxMessage { dst, header, data, ser_count })
            },
            None => None,
        }
    }

    /// The message that carries one request by itself.
    pub fn send_req(
        func: &LamellarFunc,
        func_id: AmId,
        meta: &ReqMeta,
        team: &LamellarTeamRT,
    ) -> (msg: TxMessage)
        requires
            message::sendable(func_id, *func),
            func is Am || func is Result,
            func_id != UNIT_ID,
            func_id != BATCHED_UNIT_ID,
            meta.dst is None ==> team.pes@.len() > 0,
        ensures
            msg.dst == meta.dst,
            msg.header == single_header(*team, *meta, func_id),
            msg.data@ == message::request_bytes(func_id, (meta.id, *func)),
            msg.ser_count == copies(meta.dst, team.pes@.len() as int),
            msg.header.msg.src == team.world_pe as u16,
            msg.header.msg.cmd == meta.cmd,
            msg.header.msg.req_id == (match meta.batch_id {
                Some(id) => id,
                None => meta.id,
            }),
            msg.header.team_hash == meta.team_hash,
            msg.header.id == func_id,
            meta.dst is Some ==> msg.ser_count == 1,
            meta.dst is None ==> msg.ser_count == team.pes@.len() - 1,
            // A returned active message and a value stand behind the id of the request
            // that they answer, a value behind its size as well.
            func matches LamellarFunc::Am(am) ==> msg.data@ == (if func_id < 0 {
                wire::word_bytes(meta.id as u64) + am.data@
            } else {
                am.data@
            }),
            func matches LamellarFunc::Result(value) ==> msg.data@ == wire::word_bytes(
                meta.id as u64,
            ) + wire::word_bytes(value@.len() as u64) + value@,
    {
        let batch_id: usize = match meta.batch_id {
            Some(id) => id,
            None => meta.id,
        };
        let header = SerializeHeader {
            msg: Msg { src: team.world_pe as u16, req_id: batch_id, cmd: meta.cmd },
            team_hash: meta.team_hash,
            id: func_id,
        };
        let mut data: Vec<u8> = Vec::new();
        match func {
            LamellarFunc::Am(am) => {
                if func_id < 0 {
                    push_usize(&mut data, meta.id);
                }
                data.extend_from_slice(am.data.as_slice());
            },
            LamellarFunc::Result(value) => {
                push_usize(&mut data, meta.id);
                push_usize(&mut data, value.len());
                data.extend_from_slice(value.as_slice());
            },
            LamellarFunc::Empty => {},
        }
        assert(data@ == message::request_bytes(func_id, (meta.id, *func)));
        let ser_count: usize = match meta.dst {
            None => team.num_pes() - 1,
            Some(_) => 1,
        };
        TxMessage { dst: meta.dst, header, data, ser_count }
    }

    /// Whether a request is for the PE that makes it.
    pub open spec fn is_local(team: LamellarTeamRT, meta: ReqMeta) -> bool {
        team.has_member(meta.src) && meta.dst == Some(team.place_of(meta.src) as usize)
    }

    /// Decides what becomes of a request. One for this PE is executed here; a
    /// small one waits in a batch; a large one is sent by itself, and so is an
    /// active message without bytes, which could not be found in a batch. Answers
    /// also whether a request that goes to the whole team has to be executed here
    /// too.
    pub fn process_am_req(
        &mut self,
        ids: &AmIds,
        team: &LamellarTeamRT,
        meta: &ReqMeta,
        func: LamellarFunc,
    ) -> (r: (Outcome, bool))
        requires
            old(self).wf(),
            team.wf(),
            meta.dst is None ==> team.pes@.len() > 0,
            !Self::is_local(*team, *meta) ==> {
                &&& ids.wf()
                &&& acceptable(ids@, meta.cmd, func)
                &&& submitted::request_len(travels_as(ids@, meta.cmd, func), func) <= usize::MAX
                &&& old(self).submitted_ams.total_size(meta.dst) + MAX_BATCHED_LEN + MAX_HEADERS_LEN
                    <= usize::MAX
            },
        ensures
            final(self).wf(),
            final(self).txed_ams == old(self).txed_ams,
            final(self).cur_batch_id == old(self).cur_batch_id,
            r.1 == (meta.dst is None && team.has_member(meta.src)),
            ({
                let id = travels_as(ids@, meta.cmd, func);
                let before = old(self).submitted_ams;
                let after = final(self).submitted_ams;
                if Self::is_local(*team, *meta) {
                    r.0 == Outcome::ExecLocal(func) && after == before
                } else if shares_message(id, func) {
                    &&& r.0 == (Outcome::Batched { first: !before.has(meta.dst) })
                    &&& submitted::added(before, after, meta.dst, as_request(*meta, id, func))
                } else {
                    &&& after == before
                    &&& r.0 matches Outcome::Single(msg)
                    &&& msg.dst == meta.dst
                    &&& msg.header == single_header(*team, *meta, id)
                    &&& msg.data@ == message::request_bytes(id, (meta.id, func))
                    &&& msg.ser_count == copies(meta.dst, team.pes@.len() as int)
                }
            }),
            // A request is executed here exactly when its destination is the place of
            // the PE that makes it.
            r.0 is ExecLocal <==> (meta.dst matches Some(d) && d < team.pes@.len()
                && team.pes@[d as int] == meta.src),
            r.0 is ExecLocal ==> r.0 == Outcome::ExecLocal(func),
            r.1 <==> meta.dst is None && (exists|i: int|
                0 <= i < team.pes@.len() && #[trigger] team.pes@[i] == meta.src),
            r.0 matches Outcome::Single(msg) ==> {
                &&& msg.dst == meta.dst
                &&& msg.header.msg.src == team.world_pe as u16
                &&& msg.header.msg.cmd == meta.cmd
                &&& msg.header.msg.req_id == (match meta.batch_id {
                    Some(id) => id,
                    None => meta.id,
                })
                &&& msg.header.team_hash == meta.team_hash
                &&& msg.header.id == travels_as(ids@, meta.cmd, func)
                &&& meta.dst is Some ==> msg.ser_count == 1
                &&& meta.dst is None ==> msg.ser_count == team.pes@.len() - 1
            },
            r.0 matches Outcome::Batched { first } ==> {
                let id = travels_as(ids@, meta.cmd, func);
                &&& first == !old(self).submitted_ams.has(meta.dst)
                &&& final(self).submitted_ams.requests(
                    meta.dst,
                    meta.team_hash,
                    id,
                    meta.batch_id,
                ) == old(self).submitted_ams.requests(
                    meta.dst,
                    meta.team_hash,
                    id,
                    meta.batch_id,
                ).push((meta.id, func))
            },
    {
        proof {
            place_is_position(*team, *meta);
        }
        let my_pe: Option<usize> = match team.team_pe(meta.src) {
            Ok(pe) => Some(pe),
            Err(_) => None,
        };
        if meta.dst == my_pe && my_pe.is_some() {
            return (Outcome::ExecLocal(func), false);
        }
        let also_local = meta.dst.is_none() && my_pe.is_some();
        let travel = classify(ids, meta.cmd, &func);
        let empty_am = matches!(func, LamellarFunc::Am(_)) && travel.func_size == 0;
        if travel.func_size <= MAX_BATCHED_LEN && !empty_am {
            let batched = ReqMeta { cmd: travel.cmd, ..*meta };
            let first = self.add_req_to_batch(func, travel.func_size, travel.func_id, &batched);
            (Outcome::Batched { first }, also_local)
        } else {
            let msg = Self::send_req(&func, travel.func_id, meta, team);
            (Outcome::Single(msg), also_local)
        }
    }
}

/// Why answers cannot be taken.
#[derive(Clone, Copy, Debug, PartialEq, Eq, Structural)]
pub enum AnswerError {
    /// The data does not have the form of answers.
    Malformed,
    /// An answer is for a request that its batch does not have open.
    UnknownRequest,
}

/// What is open in batches after a batch's requests are down to `rest`: a batch
/// with no open request is forgotten.
pub open spec fn open_after_answers(
    open: Map<usize, Seq<(usize, usize)>>,
    batch_id: usize,
    rest: Seq<(usize, usize)>,
) -> Map<usize, Seq<(usize, usize)>> {
    if rest.len() == 0 {
        open.remove(batch_id)
    } else {
        open.insert(batch_id, rest)
    }
}

/// Answers with the ids of the requests that they answer.
pub open spec fn with_ids(answers: Seq<(usize, Seq<u8>)>, ids: Seq<usize>) -> Seq<
    (usize, Seq<u8>),
> {
    Seq::new(answers.len(), |i: int| (ids[i], answers[i].1))
}

proof fn sum_stays(reqs: Seq<(usize, usize)>, numbers: Seq<usize>)
    ensures
        txed::answered(reqs, numbers) matches Some((ids, rest)) ==> ids.len() == numbers.len()
            && rest.len() == reqs.len() - numbers.len(),
    decreases numbers.len(),
{
    if numbers.len() > 0 {
        sum_stays(reqs, numbers.drop_last());
        if let Some((ids, rest)) = txed::answered(reqs, numbers.drop_last()) {
            if txed::is_open(rest, numbers.last()) {
                txed::place_exists(rest, numbers.last());
            }
        }
    }
}

/// Answers touch their own batch alone, which stays open for as long as one of its
/// requests is.
pub proof fn answers_touch_their_batch(
    open: Map<usize, Seq<(usize, usize)>>,
    batch_id: usize,
    rest: Seq<(usize, usize)>,
    other: usize,
)
    requires
        other != batch_id,
    ensures
        open_after_answers(open, batch_id, rest).contains_key(batch_id) <==> rest.len() > 0,
        rest.len() > 0 ==> open_after_answers(open, batch_id, rest)[batch_id] == rest,
        open_after_answers(open, batch_id, rest).contains_key(other) <==> open.contains_key(other),
        open.contains_key(other) ==> open_after_answers(open, batch_id, rest)[other] == open[other],
{
}

/// If a request is open under a number, and no other is, then a value that comes
/// in under that number is given out for that request.
pub proof fn answers_reach_their_requests(
    open: Seq<(usize, usize)>,
    came: Seq<(usize, Seq<u8>)>,
    number: usize,
    id: usize,
    value: Seq<u8>,
)
    requires
        txed::answered(open, answers::answer_ids(came)) is Some,
        forall|i: int, j: int|
            0 <= i < j < open.len() ==> (#[trigger] open[i]).0 != (#[trigger] open[j]).0,
        open.contains((number, id)),
        came.contains((number, value)),
    ensures
        with_ids(came, (txed::answered(open, answers::answer_ids(came))->0).0).len() == came.len(),
        with_ids(came, (txed::answered(open, answers::answer_ids(came))->0).0).contains(
            (id, value),
        ),
{
    let numbers = answers::answer_ids(came);
    let (ids, rest) = txed::answered(open, numbers)->0;
    txed::answers_take_their_requests(open, numbers);
    let k = came.index_of((number, value));
    assert(came[k] == (number, value));
    assert(numbers[k] == number);
    assert(open.contains((numbers[k], ids[k])));
    let i = open.index_of((number, id));
    let j = open.index_of((numbers[k], ids[k]));
    assert(open[i] == (number, id));
    assert(open[j] == (number, ids[k]));
    assert(with_ids(came, ids)[k] == (id, value));
}

/// What comes back for the requests of a batch goes to the right ones: a value
/// under number `n` is given out for the request that stood `n`-th in the batch.
pub proof fn numbered_answers_reach_their_requests(
    reqs: Seq<(usize, LamellarFunc)>,
    came: Seq<(usize, Seq<u8>)>,
    i: int,
)
    requires
        reqs.len() <= usize::MAX,
        txed::answered(message::numbered(reqs), answers::answer_ids(came)) is Some,
        0 <= i < came.len(),
    ensures
        came[i].0 < reqs.len(),
        with_ids(
            came,
            (txed::answered(message::numbered(reqs), answers::answer_ids(came))->0).0,
        )[i] == (reqs[came[i].0 as int].0, came[i].1),
{
    let open = message::numbered(reqs);
    let numbers = answers::answer_ids(came);
    let (ids, rest) = txed::answered(open, numbers)->0;
    txed::answers_take_their_requests(open, numbers);
    assert(numbers[i] == came[i].0);
    assert(open.contains((numbers[i], ids[i])));
    let j = open.index_of((numbers[i], ids[i]));
    assert(open[j] == (numbers[i], ids[i]));
}

/// Replaces the numbers that answers carry by the ids of their requests.
fn put_ids(answers: &mut Vec<Answer>, ids: &Vec<usize>)
    requires
        old(answers)@.len() == ids@.len(),
    ensures
        answers::answer_views(final(answers)@) == with_ids(
            answers::answer_views(old(answers)@),
            ids@,
        ),
        final(answers)@.len() == old(answers)@.len(),
        forall|i: int|
            0 <= i < ids@.len() ==> (#[trigger] final(answers)@[i]).id == ids@[i] && final(
                answers
            )@[i].data == old(answers)@[i].data,
{
    let mut k: usize = 0;
    while k < answers.len()
        invariant
            k <= answers@.len(),
            answers@.len() == old(answers)@.len(),
            answers@.len() == ids@.len(),
            forall|i: int|
                0 <= i < answers@.len() ==> #[trigger] answers@[i].data == old(answers)@[i].data,
            forall|i: int| 0 <= i < k ==> #[trigger] answers@[i].id == ids@[i],
        decreases answers@.len() - k,
    {
        answers[k].id = ids[k];
        k = k + 1;
    }
    assert(answers::answer_views(answers@) =~= with_ids(
        answers::answer_views(old(answers)@),
        ids@,
    ));
}

/// The numbers that answers carry.
fn numbers_of(list: &Vec<Answer>) -> (r: Vec<usize>)
    ensures
        r@ == answers::answer_ids(answers::answer_views(list@)),
{
    let mut r: Vec<usize> = Vec::new();
    let mut k: usize = 0;
    while k < list.len()
        invariant
            k <= list@.len(),
            r@.len() == k,
            forall|i: int| 0 <= i < k ==> #[trigger] r@[i] == list@[i].id,
        decreases list@.len() - k,
    {
        r.push(list[k].id);
        k = k + 1;
    }
    assert(r@ =~= answers::answer_ids(answers::answer_views(list@)));
    r
}

impl RegisteredActiveMessages {
    /// Takes answers for requests of a batch that is open. If one cannot be
    /// taken, nothing changes.
    fn take_answers(&mut self, batch_id: usize, list: Vec<Answer>) -> (r: Result<
        Vec<Answer>,
        AnswerError,
    >)
        requires
            old(self).txed_ams@.contains_key(batch_id),
        ensures
            final(self).submitted_ams == old(self).submitted_ams,
            final(self).cur_batch_id == old(self).cur_batch_id,
            ({
                let views = answers::answer_views(list@);
                match txed::answered(
                    old(self).txed_ams@[batch_id],
                    answers::answer_ids(views),
                ) {
                    Some((ids, rest)) => {
                        &&& r matches Ok(out)
                        &&& answers::answer_views(out@) == with_ids(views, ids)
                        &&& final(self).txed_ams@ == open_after_answers(
                            old(self).txed_ams@,
                            batch_id,
                            rest,
                        )
                    },
                    None => r == Err::<Vec<Answer>, AnswerError>(AnswerError::UnknownRequest)
                        && final(self).txed_ams@ == old(self).txed_ams@,
                }
            }),
            r matches Ok(out) ==> out@.len() == list@.len() && forall|i: int|
                0 <= i < list@.len() ==> (#[trigger] out@[i]).data@ == list@[i].data@ && old(
                    self,
                ).txed_ams@[batch_id].contains((list@[i].id, out@[i].id)),
    {
        let ghost given = list@;
        let mut list = list;
        let numbers = numbers_of(&list);
        let ghost before = self.txed_ams@;
        match self.txed_ams.remove(batch_id) {
            Some(reqs) => {
                match answer(&reqs, &numbers) {
                    Some((ids, rest)) => {
                        proof {
                            txed::answers_conserve_requests(before[batch_id], numbers@);
                        }
                        put_ids(&mut list, &ids);
                        proof {
                            assert forall|i: int| 0 <= i < given.len() implies (
                            #[trigger] list@[i]).data@ == given[i].data@
                                && before[batch_id].contains((given[i].id, list@[i].id)) by {
                                assert(numbers@[i] == given[i].id);
                            }
                        }
                        if rest.len() > 0 {
                            self.txed_ams.insert(batch_id, rest);
                            assert(self.txed_ams@ =~= before.insert(batch_id, rest@));
                        }
                        Ok(list)
                    },
                    None => {
                        self.txed_ams.insert(batch_id, reqs);
                        assert(self.txed_ams@ =~= before);
                        Err(AnswerError::UnknownRequest)
                    },
                }
            },
            None => Err(AnswerError::UnknownRequest),
        }
    }

    /// Splits a message with many requests into its batches. There is no result
    /// if it is malformed.
    pub fn exec_batched_msg(data: &[u8]) -> (r: Option<Vec<BatchPart>>)
        ensures
            match r {
                Some(parts) => parse::teams_at(data@, 0) == Some(parse::part_views(parts@)),
                None => parse::teams_at(data@, 0) is None,
            },
            r matches Some(parts) ==> (parse::teams_at(data@, 0) matches Some(said) && said.len()
                == parts@.len() && forall|i: int|
                0 <= i < said.len() ==> (#[trigger] parts@[i]).team_hash == said[i].team_hash
                    && parts@[i].func_id == said[i].func_id && parts@[i].batch_id == said[i].batch_id
                    && parts@[i].data@ == said[i].data),
    {
        decode(data)
    }

    /// The requests of a batch that are answered with nothing when the whole
    /// batch is. There is no result if the batch is not open.
    pub fn process_batched_unit_return(&mut self, batch_id: usize) -> (r: Option<Vec<usize>>)
        ensures
            final(self).submitted_ams == old(self).submitted_ams,
            final(self).cur_batch_id == old(self).cur_batch_id,
            final(self).txed_ams@ == old(self).txed_ams@.remove(batch_id),
            match r {
                Some(ids) => old(self).txed_ams@.contains_key(batch_id) && ids@ == txed::ids_of(
                    old(self).txed_ams@[batch_id],
                ),
                None => !old(self).txed_ams@.contains_key(batch_id),
            },
            r matches Some(ids) ==> ids@.len() == old(self).txed_ams@[batch_id].len() && forall|
                i: int,
            | 0 <= i < ids@.len() ==> #[trigger] ids@[i] == old(self).txed_ams@[batch_id][i].1,
    {
        match self.txed_ams.remove(batch_id) {
            Some(reqs) => {
                let mut ids: Vec<usize> = Vec::new();
                let mut k: usize = 0;
                while k < reqs.len()
                    invariant
                        k <= reqs@.len(),
                        ids@.len() == k,
                        forall|i: int| 0 <= i < k ==> #[trigger] ids@[i] == reqs@[i].1,
                    decreases reqs@.len() - k,
                {
                    ids.push(reqs[k].1);
                    k = k + 1;
                }
                assert(ids@ =~= txed::ids_of(reqs@));
                Some(ids)
            },
            None => None,
        }
    }

    /// The single requests that are answered with nothing. There is no result
    /// if the data is malformed.
    pub fn process_unit_return(data: &[u8]) -> (r: Option<Vec<usize>>)
        ensures
            match r {
                Some(ids) => answers::ids_at(data@, 0) == Some(ids@),
                None => answers::ids_at(data@, 0) is None,
            },
    {
        read_ids(data)
    }

    /// The single requests that are answered with values. There is no result if
    /// the data is malformed.
    pub fn process_data_return(data: &[u8]) -> (r: Option<Vec<Answer>>)
        ensures
            match r {
                Some(list) => answers::results_at(data@, 0) == Some(answers::answer_views(list@)),
                None => answers::results_at(data@, 0) is None,
            },
            r matches Some(list) ==> (answers::results_at(data@, 0) matches Some(said) && said.len()
                == list@.len() && forall|i: int|
                0 <= i < said.len() ==> (#[trigger] list@[i]).id == said[i].0 && list@[i].data@
                    == said[i].1),
    {
        read_results(data)
    }

    /// The requests of a batch that are answered with values. For a batch that
    /// is not open there are none, whatever the data. If an answer cannot be
    /// taken, nothing changes.
    pub fn process_batched_data_return(&mut self, batch_id: usize, data: &[u8]) -> (r: Result<
        Vec<Answer>,
        AnswerError,
    >)
        ensures
            final(self).submitted_ams == old(self).submitted_ams,
            final(self).cur_batch_id == old(self).cur_batch_id,
            ({
                let open = old(self).txed_ams@;
                let after = final(self).txed_ams@;
                if !open.contains_key(batch_id) {
                    r matches Ok(out) && out@.len() == 0 && after == open
                } else {
                    match answers::results_at(data@, 0) {
                        None => r == Err::<Vec<Answer>, AnswerError>(AnswerError::Malformed)
                            && after == open,
                        Some(results) => match txed::answered(
                            open[batch_id],
                            answers::answer_ids(results),
                        ) {
                            Some((ids, rest)) => {
                                &&& r matches Ok(out)
                                &&& answers::answer_views(out@) == with_ids(results, ids)
                                &&& after == open_after_answers(open, batch_id, rest)
                            },
                            None => r == Err::<Vec<Answer>, AnswerError>(
                                AnswerError::UnknownRequest,
                            ) && after == open,
                        },
                    }
                }
            }),
            // Each value goes to the request that was open under the number that it
            // came with.
            r matches Ok(out) ==> (old(self).txed_ams@.contains_key(batch_id) ==> (answers::results_at(data@, 0)
                matches Some(came) && out@.len() == came.len() && forall|i: int|
                0 <= i < came.len() ==> (#[trigger] out@[i]).data@ == came[i].1 && old(
                    self,
                ).txed_ams@[batch_id].contains((came[i].0, out@[i].id)))),
            // No other batch is touched, and one with no open request is forgotten.
            final(self).txed_ams@.remove(batch_id) == old(self).txed_ams@.remove(batch_id),
            final(self).txed_ams@.contains_key(batch_id) ==> old(self).txed_ams@.contains_key(
                batch_id,
            ) && (r is Ok ==> (answers::results_at(data@, 0) matches Some(came)
                && final(self).txed_ams@[batch_id].len() == old(self).txed_ams@[batch_id].len()
                - came.len())),
            r is Ok && old(self).txed_ams@.contains_key(batch_id) ==> (answers::results_at(data@, 0) matches Some(came) && (
            final(self).txed_ams@.contains_key(batch_id) <==> old(self).txed_ams@[batch_id].len()
                > came.len())),
            // What stays open was open before.
            final(self).txed_ams@.contains_key(batch_id) ==> forall|i: int|
                0 <= i < final(self).txed_ams@[batch_id].len() ==> old(
                    self,
                ).txed_ams@[batch_id].contains(#[trigger] final(self).txed_ams@[batch_id][i]),
            r is Err ==> final(self).txed_ams@ == old(self).txed_ams@,
    {
        proof {
            if let Some(came) = answers::results_at(data@, 0) {
                if self.txed_ams@.contains_key(batch_id) {
                    sum_stays(self.txed_ams@[batch_id], answers::answer_ids(came));
                    if txed::answered(
                        self.txed_ams@[batch_id],
                        answers::answer_ids(came),
                    ) is Some {
                        txed::answers_take_their_requests(
                            self.txed_ams@[batch_id],
                            answers::answer_ids(came),
                        );
                    }
                }
            }
        }
        if !self.txed_ams.contains(batch_id) {
            return Ok(Vec::new());
        }
        match read_results(data) {
            Some(list) => self.take_answers(batch_id, list),
            None => Err(AnswerError::Malformed),
        }
    }

    /// The active messages that requests of a batch are answered with, each to
    /// be executed here in place of the request. `sizes` are the bytes that
    /// unpacking each of them took. Batch zero means that the requests were not
    /// part of a batch. For another batch that is not open there are none,
    /// whatever the data. If an answer cannot be taken, nothing changes.
    pub fn exec_batched_return_am(
        &mut self,
        batch_id: usize,
        data: &[u8],
        sizes: &Vec<usize>,
    ) -> (r: Result<Vec<Answer>, AnswerError>)
        ensures
            final(self).submitted_ams == old(self).submitted_ams,
            final(self).cur_batch_id == old(self).cur_batch_id,
            ({
                let open = old(self).txed_ams@;
                let after = final(self).txed_ams@;
                if !open.contains_key(batch_id) && batch_id != 0 {
                    r matches Ok(out) && out@.len() == 0 && after == open
                } else {
                    match answers::ams_at(data@, 0, sizes@) {
                        None => r == Err::<Vec<Answer>, AnswerError>(AnswerError::Malformed)
                            && after == open,
                        Some(ams) => if !open.contains_key(batch_id) {
                            r matches Ok(out) && answers::answer_views(out@) == ams && after == open
                        } else {
                            match txed::answered(open[batch_id], answers::answer_ids(ams)) {
                                Some((ids, rest)) => {
                                    &&& r matches Ok(out)
                                    &&& answers::answer_views(out@) == with_ids(ams, ids)
                                    &&& after == open_after_answers(open, batch_id, rest)
                                },
                                None => r == Err::<Vec<Answer>, AnswerError>(
                                    AnswerError::UnknownRequest,
                                ) && after == open,
                            }
                        },
                    }
                }
            }),
            !old(self).txed_ams@.contains_key(batch_id) && batch_id == 0 ==> (r matches Ok(out)
                ==> answers::ams_at(data@, 0, sizes@) == Some(answers::answer_views(out@))),
            // Each value goes to the request that was open under the number that it
            // came with.
            r matches Ok(out) ==> (old(self).txed_ams@.contains_key(batch_id) ==> (answers::ams_at(data@, 0, sizes@)
                matches Some(came) && out@.len() == came.len() && forall|i: int|
                0 <= i < came.len() ==> (#[trigger] out@[i]).data@ == came[i].1 && old(
                    self,
                ).txed_ams@[batch_id].contains((came[i].0, out@[i].id)))),
            // No other batch is touched, and one with no open request is forgotten.
            final(self).txed_ams@.remove(batch_id) == old(self).txed_ams@.remove(batch_id),
            final(self).txed_ams@.contains_key(batch_id) ==> old(self).txed_ams@.contains_key(
                batch_id,
            ) && (r is Ok ==> (answers::ams_at(data@, 0, sizes@) matches Some(came)
                && final(self).txed_ams@[batch_id].len() == old(self).txed_ams@[batch_id].len()
                - came.len())),
            r is Ok && old(self).txed_ams@.contains_key(batch_id) ==> (answers::ams_at(data@, 0, sizes@) matches Some(came) && (
            final(self).txed_ams@.contains_key(batch_id) <==> old(self).txed_ams@[batch_id].len()
                > came.len())),
            // What stays open was open before.
            final(self).txed_ams@.contains_key(batch_id) ==> forall|i: int|
                0 <= i < final(self).txed_ams@[batch_id].len() ==> old(
                    self,
                ).txed_ams@[batch_id].contains(#[trigger] final(self).txed_ams@[batch_id][i]),
            r is Err ==> final(self).txed_ams@ == old(self).txed_ams@,
    {
        proof {
            if let Some(came) = answers::ams_at(data@, 0, sizes@) {
                if self.txed_ams@.contains_key(batch_id) {
                    sum_stays(self.txed_ams@[batch_id], answers::answer_ids(came));
                    if txed::answered(
                        self.txed_ams@[batch_id],
                        answers::answer_ids(came),
                    ) is Some {
                        txed::answers_take_their_requests(
                            self.txed_ams@[batch_id],
                            answers::answer_ids(came),
                        );
                    }
                }
            }
        }
        let known = self.txed_ams.contains(batch_id);
        if !known && batch_id != 0 {
            return Ok(Vec::new());
        }
        match read_ams(data, sizes) {
            Some(list) => if known {
                self.take_answers(batch_id, list)
            } else {
                Ok(list)
            },
            None => Err(AnswerError::Malformed),
        }
    }
}

/// The request under which a returned active message is executed on the PE that
/// asked.
pub fn return_am_request(origin: &BatchOrigin, req_id: usize) -> (r: ReqMeta)
    ensures
        r == (ReqMeta {
            src: origin.src,
            dst: Some(origin.world_pe),
            cmd: ExecType::Am(Cmd::Exec),
            id: req_id,
            batch_id: Some(origin.batch_id),
            team_hash: origin.team_hash,
        }),
{
    ReqMeta {
        src: origin.src,
        dst: Some(origin.world_pe),
        cmd: ExecType::Am(Cmd::Exec),
        id: req_id,
        batch_id: Some(origin.batch_id),
        team_hash: origin.team_hash,
    }
}

/// What becomes of the result of an active message that was executed on the PE
/// that asked for it.
pub enum LocalOutcome {
    /// The request is answered with this value.
    Data(Vec<u8>),
    /// Another active message is to be executed in its place.
    ExecAgain(LamellarAm),
    /// The request is answered with nothing.
    Unit,
}

/// Treats the result of an active message that was executed on the PE that
/// asked for it. Such an active message returns no remote values.
pub fn exec_local(ret: LamellarReturn) -> (r: LocalOutcome)
    requires
        !(ret is RemoteData),
        !(ret is RemoteAm),
    ensures
        r == (match ret {
            LamellarReturn::LocalData(data) => LocalOutcome::Data(data),
            LamellarReturn::LocalAm(am) => LocalOutcome::ExecAgain(am),
            _ => LocalOutcome::Unit,
        }),
{
    match ret {
        LamellarReturn::LocalData(data) => LocalOutcome::Data(data),
        LamellarReturn::LocalAm(am) => LocalOutcome::ExecAgain(am),
        _ => LocalOutcome::Unit,
    }
}

/// The request that answers a single request, by what its execution gave. An
/// active message that came from another PE returns no local values.
pub fn exec_single_msg(
    world_pe: usize,
    msg: &Msg,
    team_hash: u64,
    ret: LamellarReturn,
) -> (r: (ReqMeta, LamellarFunc))
    requires
        !(ret is LocalData),
        !(ret is LocalAm),
    ensures
        r.0 == (ReqMeta {
            src: world_pe,
            dst: Some(msg.src as usize),
            cmd: ExecType::Am(
                match ret {
                    LamellarReturn::RemoteData(_) => Cmd::DataReturn,
                    LamellarReturn::RemoteAm(_) => Cmd::AmReturn,
                    _ => Cmd::UnitReturn,
                },
            ),
            id: msg.req_id,
            batch_id: None,
            team_hash,
        }),
        r.1 == (match ret {
            LamellarReturn::RemoteData(data) => LamellarFunc::Result(data),
            LamellarReturn::RemoteAm(am) => LamellarFunc::Am(am),
            _ => LamellarFunc::Empty,
        }),
{
    let (cmd, func) = match ret {
        LamellarReturn::RemoteData(data) => (Cmd::DataReturn, LamellarFunc::Result(data)),
        LamellarReturn::RemoteAm(am) => (Cmd::AmReturn, LamellarFunc::Am(am)),
        _ => (Cmd::UnitReturn, LamellarFunc::Empty),
    };
    (
        ReqMeta {
            src: world_pe,
            dst: Some(msg.src as usize),
            cmd: ExecType::Am(cmd),
            id: msg.req_id,
            batch_id: None,
            team_hash,
        },
        func,
    )
}

/// What an incoming message asks for.
#[derive(Clone, Copy, Debug, PartialEq, Eq, Structural)]
pub enum Incoming {
    /// Split it into batches.
    BatchedMsg,
    /// Execute the one active message in it and answer it.
    Single,
    /// Values for requests of this batch.
    BatchedDataReturn { batch_id: usize },
    /// Values for single requests.
    DataReturn,
    /// Returned active messages for requests of this batch.
    ReturnAm { func_id: AmId, batch_id: usize },
    Unhandled,
}

/// What an incoming message asks for.
pub open spec fn incoming_of(cmd: Cmd, msg: Msg, header_id: AmId) -> Incoming {
    match cmd {
        Cmd::BatchedMsg => Incoming::BatchedMsg,
        Cmd::Exec => Incoming::Single,
        Cmd::BatchedDataReturn => Incoming::BatchedDataReturn { batch_id: msg.req_id },
        Cmd::DataReturn => Incoming::DataReturn,
        Cmd::BatchedAmReturn => Incoming::ReturnAm {
            func_id: (-header_id) as AmId,
            batch_id: msg.req_id,
        },
        Cmd::AmReturn => Incoming::ReturnAm { func_id: (-header_id) as AmId, batch_id: 0 },
        _ => Incoming::Unhandled,
    }
}

/// Decides what an incoming message asks for.
pub fn process_batched_am(cmd: Cmd, msg: &Msg, header_id: AmId) -> (r: Incoming)
    requires
        cmd == Cmd::BatchedAmReturn || cmd == Cmd::AmReturn ==> header_id > i32::MIN,
    ensures
        r == incoming_of(cmd, *msg, header_id),
        cmd == Cmd::BatchedMsg <==> r == Incoming::BatchedMsg,
        cmd == Cmd::Exec <==> r == Incoming::Single,
        cmd == Cmd::BatchedDataReturn <==> r is BatchedDataReturn,
        cmd == Cmd::BatchedDataReturn ==> r == (Incoming::BatchedDataReturn {
            batch_id: msg.req_id,
        }),
        cmd == Cmd::DataReturn <==> r == Incoming::DataReturn,
        cmd == Cmd::BatchedAmReturn || cmd == Cmd::AmReturn <==> r is ReturnAm,
        cmd == Cmd::BatchedAmReturn ==> r->func_id == -header_id && r->ReturnAm_batch_id
            == msg.req_id,
        cmd == Cmd::AmReturn ==> r->func_id == -header_id && r->ReturnAm_batch_id == 0,
        cmd == Cmd::UnitReturn || cmd == Cmd::BatchedUnitReturn <==> r == Incoming::Unhandled,
{
    match cmd {
        Cmd::BatchedMsg => Incoming::BatchedMsg,
        Cmd::Exec => Incoming::Single,
        Cmd::BatchedDataReturn => Incoming::BatchedDataReturn { batch_id: msg.req_id },
        Cmd::DataReturn => Incoming::DataReturn,
        Cmd::BatchedAmReturn => Incoming::ReturnAm { func_id: -header_id, batch_id: msg.req_id },
        Cmd::AmReturn => Incoming::ReturnAm { func_id: -header_id, batch_id: 0 },
        _ => Incoming::Unhandled,
    }
}

/// Answers go back to the PE that asked: whichever message a PE sends, batched or
/// single, its header names that PE, and the answers that the receiver makes of
/// it have that PE as their destination.
pub proof fn answers_go_to_sender(
    team: LamellarTeamRT,
    meta: ReqMeta,
    func_id: AmId,
    origin: BatchOrigin,
    result: (usize, LamellarReturn),
)
    requires
        team.world_pe <= u16::MAX,
    ensures
        batched_header(team).msg.src == team.world_pe,
        single_header(team, meta, func_id).msg.src == team.world_pe,
        origin.src == batched_header(team).msg.src ==> batch_exec::unit_answer(origin).dst == Some(
            team.world_pe,
        ) && batch_exec::result_answer(origin, result).0.dst == Some(team.world_pe),
        origin.src == single_header(team, meta, func_id).msg.src ==> batch_exec::unit_answer(
            origin,
        ).dst == Some(team.world_pe) && batch_exec::result_answer(origin, result).0.dst == Some(
            team.world_pe,
        ),
{
}

/// What a request travels as tells its receiver what it is: a registered active
/// message is executed, a returned one is executed in place of its request, and
/// values and empty answers go to the requests that they answer.
pub proof fn receiver_knows_what_came(ids: Seq<Seq<u8>>, cmd: ExecType, func: LamellarFunc)
    requires
        acceptable(ids, cmd, func),
        ids.len() + AM_ID_START <= i32::MAX,
    ensures
        func matches LamellarFunc::Am(am) ==> {
            let id = am_ids::id_of(ids, am.name@);
            if cmd == ExecType::Am(Cmd::AmReturn) || cmd == ExecType::Am(Cmd::BatchedAmReturn) {
                parse::handler_of(travels_as(ids, cmd, func)) == Some(
                    Handler::ExecReturnAm(id as AmId),
                ) && !message::expects_answers(travels_as(ids, cmd, func))
            } else {
                parse::handler_of(travels_as(ids, cmd, func)) == Some(
                    Handler::ExecAm(id as AmId),
                ) && message::expects_answers(travels_as(ids, cmd, func))
            }
        },
        func is Result && cmd == ExecType::Am(Cmd::DataReturn) ==> parse::handler_of(
            travels_as(ids, cmd, func),
        ) == Some(Handler::DataReturn),
        func is Result && cmd == ExecType::Am(Cmd::BatchedDataReturn) ==> parse::handler_of(
            travels_as(ids, cmd, func),
        ) == Some(Handler::BatchedDataReturn),
        func is Empty && cmd == ExecType::Am(Cmd::UnitReturn) ==> parse::handler_of(
            travels_as(ids, cmd, func),
        ) == Some(Handler::UnitReturn),
        func is Empty && cmd == ExecType::Am(Cmd::BatchedUnitReturn) ==> parse::handler_of(
            travels_as(ids, cmd, func),
        ) == Some(Handler::BatchedUnitReturn),
        !(func is Am) ==> !message::expects_answers(travels_as(ids, cmd, func)),
{
    if let LamellarFunc::Am(am) = func {
        am_ids::registered_has_id(ids, am.name@);
    }
}

/// An active message that a PE returns by itself is executed by its receiver as
/// the one that it is, in place of the request of the batch that it names.
pub proof fn returned_am_is_found(
    ids: Seq<Seq<u8>>,
    team: LamellarTeamRT,
    meta: ReqMeta,
    am: LamellarAm,
)
    requires
        ids.contains(am.name@),
        ids.len() + AM_ID_START <= i32::MAX,
        meta.cmd == ExecType::Am(Cmd::AmReturn) || meta.cmd == ExecType::Am(Cmd::BatchedAmReturn),
    ensures
        ({
            let header = single_header(
                team,
                meta,
                travels_as(ids, meta.cmd, LamellarFunc::Am(am)),
            );
            let came = incoming_of(meta.cmd->Am_0, header.msg, header.id);
            &&& came is ReturnAm
            &&& came->func_id == am_ids::id_of(ids, am.name@)
            &&& meta.cmd == ExecType::Am(Cmd::AmReturn) ==> came->ReturnAm_batch_id == 0
            &&& meta.cmd == ExecType::Am(Cmd::BatchedAmReturn) && meta.batch_id is Some ==> Some(
                came->ReturnAm_batch_id,
            ) == meta.batch_id
        }),
{
    am_ids::registered_has_id(ids, am.name@);
}

/// Which requests share a message: those of up to ten thousand bytes, with what
/// stands in front of them, but no active message without bytes.
pub proof fn small_requests_share_messages(func_id: AmId, func: LamellarFunc)
    requires
        message::sendable(func_id, func),
    ensures
        func matches LamellarFunc::Am(am) ==> {
            &&& func_id >= AM_ID_START ==> (shares_message(func_id, func) <==> 0 < am.data@.len()
                <= 10000)
            &&& func_id < 0 ==> (shares_message(func_id, func) <==> am.data@.len() + 8 <= 10000)
        },
        func matches LamellarFunc::Result(data) ==> (func_id == REMOTE_DATA_ID || func_id
            == BATCHED_REMOTE_DATA_ID ==> (shares_message(func_id, func) <==> data@.len() + 16
            <= 10000)),
        func is Empty ==> shares_message(func_id, func),
{
}

} // verus!
