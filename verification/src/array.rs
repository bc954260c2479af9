//! Distributed arrays: elements that live on several PEs and are addressed by
//! one index.

use vstd::prelude::*;
use vstd::std_specs::convert::*;

use crate::lamellar_team::LamellarTeamRT;
use crate::memregion::shared::SharedMemoryRegion;
use crate::memregion::{Dist, LamellarMemoryRegion, OneSidedMemoryRegion};

pub mod buffered_operations;
pub mod convert;
pub mod generic_atomic;
pub mod iteration;
pub mod iterator;
pub mod local_lock_atomic;
pub mod local_memory;
pub mod reduce;
pub mod schedules;
pub mod system;
pub mod unsafe_array;

verus! {

/// How the elements of an array are spread over the PEs.
#[derive(Clone, Copy, Debug, PartialEq, Eq, Structural)]
pub enum Distribution {
    /// Each PE has one contiguous run of elements.
    Block,
    /// Elements go round the PEs one by one.
    Cyclic,
}

/// How elements of an array on another PE are moved.
#[derive(Clone, Copy, Debug, PartialEq, Eq, Hash, Structural)]
pub enum ArrayRdmaCmd {
    Put,
    PutAm,
    /// Whether the elements are there when the call returns.
    Get(bool),
    GetAm,
}

/// What can be written to.
pub trait LamellarWrite {

}

/// What can be read from.
pub trait LamellarRead {

}

impl<T: Dist> LamellarRead for &T {

}

impl<T: Dist> LamellarRead for Vec<T> {

}

impl<T: Dist> LamellarRead for &Vec<T> {

}

impl<T> LamellarWrite for SharedMemoryRegion<T> {

}

impl<T> LamellarRead for SharedMemoryRegion<T> {

}

impl<T> LamellarWrite for LamellarMemoryRegion<T> {

}

impl<T> LamellarRead for LamellarMemoryRegion<T> {

}

/// Where elements that go into an array come from.
pub enum LamellarArrayRdmaInput<T> {
    LamellarMemRegion(LamellarMemoryRegion<T>),
    SharedMemRegion(SharedMemoryRegion<T>),
    LocalMemRegion(OneSidedMemoryRegion<T>),
}

/// Where elements that come from an array go.
pub enum LamellarArrayRdmaOutput<T> {
    LamellarMemRegion(LamellarMemoryRegion<T>),
    SharedMemRegion(SharedMemoryRegion<T>),
    LocalMemRegion(OneSidedMemoryRegion<T>),
}

impl<T> LamellarWrite for LamellarArrayRdmaOutput<T> {

}

impl<T> LamellarRead for LamellarArrayRdmaOutput<T> {

}

impl<T> From<LamellarArrayRdmaInput<T>> for LamellarMemoryRegion<T> {
    fn from(input: LamellarArrayRdmaInput<T>) -> (r: Self) {
        match input {
            LamellarArrayRdmaInput::LamellarMemRegion(mr) => mr,
            LamellarArrayRdmaInput::SharedMemRegion(mr) => LamellarMemoryRegion::Shared(mr),
            LamellarArrayRdmaInput::LocalMemRegion(mr) => LamellarMemoryRegion::Local(mr),
        }
    }
}

impl<T> FromSpecImpl<LamellarArrayRdmaInput<T>> for LamellarMemoryRegion<T> {
    open spec fn obeys_from_spec() -> bool {
        true
    }

    open spec fn from_spec(input: LamellarArrayRdmaInput<T>) -> Self {
        match input {
            LamellarArrayRdmaInput::LamellarMemRegion(mr) => mr,
            LamellarArrayRdmaInput::SharedMemRegion(mr) => LamellarMemoryRegion::Shared(mr),
            LamellarArrayRdmaInput::LocalMemRegion(mr) => LamellarMemoryRegion::Local(mr),
        }
    }
}

impl<T> From<LamellarArrayRdmaOutput<T>> for LamellarMemoryRegion<T> {
    fn from(output: LamellarArrayRdmaOutput<T>) -> (r: Self) {
        match output {
            LamellarArrayRdmaOutput::LamellarMemRegion(mr) => mr,
            LamellarArrayRdmaOutput::SharedMemRegion(mr) => LamellarMemoryRegion::Shared(mr),
            LamellarArrayRdmaOutput::LocalMemRegion(mr) => LamellarMemoryRegion::Local(mr),
        }
    }
}

impl<T> FromSpecImpl<LamellarArrayRdmaOutput<T>> for LamellarMemoryRegion<T> {
    open spec fn obeys_from_spec() -> bool {
        true
    }

    open spec fn from_spec(output: LamellarArrayRdmaOutput<T>) -> Self {
        match output {
            LamellarArrayRdmaOutput::LamellarMemRegion(mr) => mr,
            LamellarArrayRdmaOutput::SharedMemRegion(mr) => LamellarMemoryRegion::Shared(mr),
            LamellarArrayRdmaOutput::LocalMemRegion(mr) => LamellarMemoryRegion::Local(mr),
        }
    }
}

/// What can be made of a value on a member of a team.
pub trait TeamFrom<V>: Sized {
    /// Of which values it can be made.
    spec fn can_team_from(val: V) -> bool;

    /// What is made of a value.
    spec fn is_team_from(val: V, team: LamellarTeamRT, made: Self) -> bool;

    fn team_from(val: V, team: &LamellarTeamRT) -> (made: Self)
        requires
            Self::can_team_from(val),
        ensures
            Self::is_team_from(val, *team, made),
    ;
}

/// What a value can be made into on a member of a team.
pub trait TeamInto<U>: Sized {
    /// Whether it can be made into one.
    spec fn can_team_into(self) -> bool;

    /// What it is made into.
    spec fn is_team_into(self, team: LamellarTeamRT, made: U) -> bool;

    fn team_into(self, team: &LamellarTeamRT) -> (made: U)
        requires
            self.can_team_into(),
        ensures
            self.is_team_into(*team, made),
    ;
}

impl<V, U: TeamFrom<V>> TeamInto<U> for V {
    open spec fn can_team_into(self) -> bool {
        U::can_team_from(self)
    }

    open spec fn is_team_into(self, team: LamellarTeamRT, made: U) -> bool {
        U::is_team_from(self, team, made)
    }

    fn team_into(self, team: &LamellarTeamRT) -> (made: U) {
        U::team_from(self, team)
    }
}

/// Whether an input is a buffer on this PE that holds these values.
pub open spec fn is_local_buffer<T>(
    input: LamellarArrayRdmaInput<T>,
    team: LamellarTeamRT,
    vals: Seq<T>,
) -> bool {
    input matches LamellarArrayRdmaInput::LocalMemRegion(buf) && buf.pe == team.world_pe
        && buf.data@ == vals
}

impl<T: Dist> TeamFrom<&T> for LamellarArrayRdmaInput<T> {
    open spec fn can_team_from(val: &T) -> bool {
        true
    }

    /// A buffer of one element.
    open spec fn is_team_from(val: &T, team: LamellarTeamRT, made: Self) -> bool {
        is_local_buffer(made, team, seq![*val])
    }

    fn team_from(val: &T, team: &LamellarTeamRT) -> (made: Self)
        ensures
            made matches LamellarArrayRdmaInput::LocalMemRegion(buf) && buf.pe == team.world_pe
                && buf.data@ == seq![*val],
    {
        let mut data: Vec<T> = Vec::new();
        data.push(*val);
        LamellarArrayRdmaInput::LocalMemRegion(OneSidedMemoryRegion { pe: team.world_pe, data })
    }
}

impl<T: Dist> TeamFrom<T> for LamellarArrayRdmaInput<T> {
    open spec fn can_team_from(val: T) -> bool {
        true
    }

    /// A buffer of one element.
    open spec fn is_team_from(val: T, team: LamellarTeamRT, made: Self) -> bool {
        is_local_buffer(made, team, seq![val])
    }

    fn team_from(val: T, team: &LamellarTeamRT) -> (made: Self)
        ensures
            made matches LamellarArrayRdmaInput::LocalMemRegion(buf) && buf.pe == team.world_pe
                && buf.data@ == seq![val],
    {
        let mut data: Vec<T> = Vec::new();
        data.push(val);
        LamellarArrayRdmaInput::LocalMemRegion(OneSidedMemoryRegion { pe: team.world_pe, data })
    }
}

impl<T: Dist> TeamFrom<Vec<T>> for LamellarArrayRdmaInput<T> {
    /// There is no buffer without elements.
    open spec fn can_team_from(vals: Vec<T>) -> bool {
        vals@.len() > 0
    }

    /// A buffer of all elements.
    open spec fn is_team_from(vals: Vec<T>, team: LamellarTeamRT, made: Self) -> bool {
        is_local_buffer(made, team, vals@)
    }

    fn team_from(vals: Vec<T>, team: &LamellarTeamRT) -> (made: Self)
        ensures
            made matches LamellarArrayRdmaInput::LocalMemRegion(buf) && buf.pe == team.world_pe
                && buf.data@ == vals@,
    {
        LamellarArrayRdmaInput::LocalMemRegion(
            OneSidedMemoryRegion { pe: team.world_pe, data: vals },
        )
    }
}

impl<T: Dist> TeamFrom<&Vec<T>> for LamellarArrayRdmaInput<T> {
    /// There is no buffer without elements.
    open spec fn can_team_from(vals: &Vec<T>) -> bool {
        vals@.len() > 0
    }

    /// A buffer of all elements.
    open spec fn is_team_from(vals: &Vec<T>, team: LamellarTeamRT, made: Self) -> bool {
        is_local_buffer(made, team, vals@)
    }

    fn team_from(vals: &Vec<T>, team: &LamellarTeamRT) -> (made: Self)
        ensures
            made matches LamellarArrayRdmaInput::LocalMemRegion(buf) && buf.pe == team.world_pe
                && buf.data@ == vals@,
    {
        let mut data: Vec<T> = Vec::new();
        let mut i: usize = 0;
        while i < vals.len()
            invariant
                i <= vals@.len(),
                data@ == vals@.take(i as int),
            decreases vals@.len() - i,
        {
            data.push(vals[i]);
            assert(vals@.take(i + 1) == vals@.take(i as int).push(vals@[i as int]));
            i = i + 1;
        }
        assert(vals@.take(vals@.len() as int) == vals@);
        LamellarArrayRdmaInput::LocalMemRegion(OneSidedMemoryRegion { pe: team.world_pe, data })
    }
}

impl<T: Dist> TeamFrom<LamellarMemoryRegion<T>> for LamellarArrayRdmaInput<T> {
    open spec fn can_team_from(mr: LamellarMemoryRegion<T>) -> bool {
        true
    }

    /// The region itself.
    open spec fn is_team_from(
        mr: LamellarMemoryRegion<T>,
        team: LamellarTeamRT,
        made: Self,
    ) -> bool {
        made == LamellarArrayRdmaInput::LamellarMemRegion(mr)
    }

    fn team_from(mr: LamellarMemoryRegion<T>, team: &LamellarTeamRT) -> (made: Self)
        ensures
            made == LamellarArrayRdmaInput::<T>::LamellarMemRegion(mr),
    {
        LamellarArrayRdmaInput::LamellarMemRegion(mr)
    }
}

impl<T: Dist> TeamFrom<LamellarMemoryRegion<T>> for LamellarArrayRdmaOutput<T> {
    open spec fn can_team_from(mr: LamellarMemoryRegion<T>) -> bool {
        true
    }

    /// The region itself.
    open spec fn is_team_from(
        mr: LamellarMemoryRegion<T>,
        team: LamellarTeamRT,
        made: Self,
    ) -> bool {
        made == LamellarArrayRdmaOutput::LamellarMemRegion(mr)
    }

    fn team_from(mr: LamellarMemoryRegion<T>, team: &LamellarTeamRT) -> (made: Self)
        ensures
            made == LamellarArrayRdmaOutput::<T>::LamellarMemRegion(mr),
    {
        LamellarArrayRdmaOutput::LamellarMemRegion(mr)
    }
}

/// An operation on an array that may still be under way.
pub trait LamellarArrayRequest: Sized {
    /// What comes out of it.
    type Output;

    /// How many parts of it are under way.
    spec fn spec_pending(&self) -> int;

    /// What there has to be before it starts.
    spec fn request_wf(&self) -> bool;

    /// What comes out of it.
    spec fn outcome(&self) -> Self::Output;

    /// Whether parts of it are under way.
    fn pending(&self) -> (r: bool)
        ensures
            r == (self.spec_pending() > 0),
    ;

    /// Notes that a part of it is done.
    fn part_done(&mut self)
        requires
            old(self).spec_pending() > 0,
        ensures
            final(self).spec_pending() == old(self).spec_pending() - 1,
            final(self).request_wf() == old(self).request_wf(),
            final(self).outcome() == old(self).outcome(),
    ;

    /// Ends it when all parts are done.
    fn wait(self) -> (r: Self::Output)
        requires
            self.request_wf(),
            self.spec_pending() == 0,
        ensures
            r == self.outcome(),
    ;
}

/// A transfer of elements.
pub struct ArrayRdmaHandle {
    pub reqs: usize,
}

impl LamellarArrayRequest for ArrayRdmaHandle {
    type Output = ();

    open spec fn spec_pending(&self) -> int {
        self.reqs as int
    }

    open spec fn request_wf(&self) -> bool {
        true
    }

    open spec fn outcome(&self) -> () {
        ()
    }

    fn pending(&self) -> (r: bool)
        ensures
            r == (self.reqs > 0),
    {
        self.reqs > 0
    }

    fn part_done(&mut self)
        ensures
            final(self).reqs == old(self).reqs - 1,
    {
        self.reqs = self.reqs - 1;
    }

    fn wait(self) -> (r: ()) {
    }
}

/// A transfer of one element into a buffer.
pub struct ArrayRdmaAtHandle<T: Dist> {
    pub reqs: usize,
    pub buf: OneSidedMemoryRegion<T>,
}

impl<T: Dist> LamellarArrayRequest for ArrayRdmaAtHandle<T> {
    type Output = T;

    open spec fn spec_pending(&self) -> int {
        self.reqs as int
    }

    open spec fn request_wf(&self) -> bool {
        self.buf.data@.len() > 0
    }

    /// The first element of the buffer.
    open spec fn outcome(&self) -> T {
        self.buf.data@[0]
    }

    fn pending(&self) -> (r: bool)
        ensures
            r == (self.reqs > 0),
    {
        self.reqs > 0
    }

    fn part_done(&mut self)
        ensures
            final(self).reqs == old(self).reqs - 1,
            final(self).buf == old(self).buf,
    {
        self.reqs = self.reqs - 1;
    }

    fn wait(self) -> (r: T)
        ensures
            r == self.buf.data@[0],
    {
        self.buf.data[0]
    }
}

/// After this long a wait is reported.
pub const REPORT_AFTER_NANOS: u128 = 600_000_000_000;

/// What to do while waiting for what this PE has asked of others.
#[derive(Clone, Copy, Debug, PartialEq, Eq, Structural)]
pub enum WaitStep {
    /// Nothing is left to wait for.
    Done,
    /// Do other work, then look again.
    Work,
    /// The same, and report the wait.
    WorkAndReport,
}

/// What to do next while waiting: there is something to wait for as long as
/// requests are outstanding or operations are.
pub fn wait_all(outstanding_reqs: usize, req_cnt: usize, waited_nanos: u128) -> (r: WaitStep)
    ensures
        r == (if outstanding_reqs == 0 && req_cnt == 0 {
            WaitStep::Done
        } else if waited_nanos > REPORT_AFTER_NANOS {
            WaitStep::WorkAndReport
        } else {
            WaitStep::Work
        }),
        r == WaitStep::Done <==> outstanding_reqs == 0 && req_cnt == 0,
        r == WaitStep::WorkAndReport <==> (outstanding_reqs > 0 || req_cnt > 0) && waited_nanos
            > 600_000_000_000,
{
    if outstanding_reqs > 0 || req_cnt > 0 {
        if waited_nanos > REPORT_AFTER_NANOS {
            WaitStep::WorkAndReport
        } else {
            WaitStep::Work
        }
    } else {
        WaitStep::Done
    }
}

/// Whatever memory is named for elements that go into an array, or that come out of
/// it, that memory is used.
pub proof fn named_memory_is_used<T>(
    any: LamellarMemoryRegion<T>,
    shared: SharedMemoryRegion<T>,
    own: OneSidedMemoryRegion<T>,
)
    ensures
        <LamellarMemoryRegion<T> as FromSpec<LamellarArrayRdmaInput<T>>>::from_spec(
            LamellarArrayRdmaInput::LamellarMemRegion(any)) == any,
        <LamellarMemoryRegion<T> as FromSpec<LamellarArrayRdmaInput<T>>>::from_spec(
            LamellarArrayRdmaInput::SharedMemRegion(shared))
            == LamellarMemoryRegion::<T>::Shared(shared),
        <LamellarMemoryRegion<T> as FromSpec<LamellarArrayRdmaInput<T>>>::from_spec(
            LamellarArrayRdmaInput::LocalMemRegion(own))
            == LamellarMemoryRegion::<T>::Local(own),
        <LamellarMemoryRegion<T> as FromSpec<LamellarArrayRdmaOutput<T>>>::from_spec(
            LamellarArrayRdmaOutput::LamellarMemRegion(any)) == any,
        <LamellarMemoryRegion<T> as FromSpec<LamellarArrayRdmaOutput<T>>>::from_spec(
            LamellarArrayRdmaOutput::SharedMemRegion(shared))
            == LamellarMemoryRegion::<T>::Shared(shared),
        <LamellarMemoryRegion<T> as FromSpec<LamellarArrayRdmaOutput<T>>>::from_spec(
            LamellarArrayRdmaOutput::LocalMemRegion(own))
            == LamellarMemoryRegion::<T>::Local(own),
{
}

} // verus!
