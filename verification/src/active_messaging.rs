//! Active messages: what is sent, under which command, and who answers it.

use vstd::prelude::*;

pub mod am_ids;
pub mod answers;
pub mod batch_exec;
pub mod batching;
pub mod message;
pub mod parse;

pub mod registered_active_message;
pub mod submitted;
pub mod txed;

verus! {

/// The number by which every PE knows a registered active message.
pub type AmId = i32;

/// Answers to single requests that returned nothing.
pub const UNIT_ID: AmId = 0;

/// The answer to a whole batch of requests that all returned nothing.
pub const BATCHED_UNIT_ID: AmId = 1;

/// Answers to single requests that returned data.
pub const REMOTE_DATA_ID: AmId = 2;

/// Answers to requests of a batch that returned data.
pub const BATCHED_REMOTE_DATA_ID: AmId = 3;

/// Reserved. An active message that is returned as a result travels under the
/// negative of its own id.
pub const REMOTE_AM_ID: AmId = 4;

/// The first id that a registered active message gets.
pub const AM_ID_START: AmId = 5;

/// What a message asks for.
#[derive(Clone, Copy, Debug, PartialEq, Eq, Structural)]
pub enum Cmd {
    Exec,
    BatchedMsg,
    UnitReturn,
    BatchedUnitReturn,
    DataReturn,
    BatchedDataReturn,
    AmReturn,
    BatchedAmReturn,
}

/// Which part of the runtime a command is for.
#[derive(Clone, Copy, Debug, PartialEq, Eq, Structural)]
pub enum ExecType {
    Am(Cmd),
    Runtime(Cmd),
}

/// The fixed part of every message.
#[derive(Clone, Copy, Debug, PartialEq, Eq, Structural)]
pub struct Msg {
    pub src: u16,
    pub req_id: usize,
    pub cmd: ExecType,
}

/// What stands in front of the data of a message.
#[derive(Clone, Copy, Debug, PartialEq, Eq, Structural)]
pub struct SerializeHeader {
    pub msg: Msg,
    pub team_hash: u64,
    pub id: AmId,
}

/// An active message: the name it was registered under and its serialized
/// state.
#[derive(Debug)]
pub struct LamellarAm {
    pub name: Vec<u8>,
    pub data: Vec<u8>,
}

/// What a request carries.
#[derive(Debug)]
pub enum LamellarFunc {
    Am(LamellarAm),
    Result(Vec<u8>),
    Empty,
}

/// What a request says besides what it carries: who asks (`src`), who is asked
/// (`dst`, no one meaning every PE of the team), under which command, which
/// request this is, which batch it belongs to, and in which team.
#[derive(Clone, Copy, Debug, PartialEq, Eq, Structural)]
pub struct ReqMeta {
    pub src: usize,
    pub dst: Option<usize>,
    pub cmd: ExecType,
    pub id: usize,
    pub batch_id: Option<usize>,
    pub team_hash: u64,
}

/// What the execution of an active message gave.
#[derive(Debug)]
pub enum LamellarReturn {
    LocalData(Vec<u8>),
    LocalAm(LamellarAm),
    RemoteData(Vec<u8>),
    RemoteAm(LamellarAm),
    Unit,
}

} // verus!
