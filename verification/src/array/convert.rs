//! Arrays of other kinds, and the wait before an array becomes one: until no
//! operation on it is under way, and each PE has one reference to it alone.

use core::marker::PhantomData;
use vstd::prelude::*;

use crate::array::buffered_operations::OpCounters;
use crate::array::generic_atomic::GenericAtomicArray;
use crate::array::unsafe_array::UnsafeArray;
use crate::darc::wait;
use crate::darc::wait::Phase;
use crate::darc::{DarcInner, DarcMode};

verus! {

/// An array that is only read.
pub struct ReadOnlyArray<T> {
    pub array: UnsafeArray<T>,
}

/// An array whose elements are changed by their own PE alone.
pub struct LocalOnlyArray<T> {
    pub array: UnsafeArray<T>,
}

/// An array whose elements on one PE share one lock.
pub struct LocalLockArray<T> {
    pub array: UnsafeArray<T>,
}

/// An array whose elements change atomically.
pub enum AtomicArray<T> {
    /// The machine does so.
    NativeAtomicArray(UnsafeArray<T>),
    /// Every element has a lock of its own; this PE has this many locks.
    GenericAtomicArray(UnsafeArray<T>, usize),
}

/// How far the wait is.
#[derive(Clone, Copy, Debug, PartialEq, Eq, Structural)]
pub enum ConvertPhase {
    /// Operations on the array may be under way.
    Ops,
    /// References to the array's data have to go.
    Refs(Phase),
    /// The wait is over.
    Done,
}

/// What a step of the wait asks for.
#[derive(Debug)]
pub enum ConvertAction {
    /// Look again later.
    WaitOps,
    /// Go on at once.
    Continue,
    /// What the wait for references asks for.
    Refs(wait::Action),
    /// Meet all PEs of the team, then throw the buffers of operations away.
    ClearBuffers,
}

/// What a step of the wait makes of the counts of references, which phase
/// follows, and what the step asks for.
pub open spec fn converted<D>(
    before: DarcInner<D>,
    after: DarcInner<D>,
    counters: OpCounters,
    phase: ConvertPhase,
    outstanding_reqs: usize,
    mode: DarcMode,
    to: ConvertPhase,
    action: ConvertAction,
) -> bool {
    match phase {
        ConvertPhase::Ops => {
            &&& after == before
            &&& if counters.outstanding_reqs == 0 && counters.req_cnt == 0 {
                to == ConvertPhase::Refs(Phase::Requests) && action is Continue
            } else {
                to == phase && action is WaitOps
            }
        },
        ConvertPhase::Refs(p) => exists|q: Phase, step: wait::Action|
            {
                &&& #[trigger] wait::stepped(
                    before,
                    after,
                    p,
                    outstanding_reqs,
                    wait::change_goal(mode, 0),
                    q,
                    step,
                )
                &&& if step is Finish {
                    to == ConvertPhase::Done && action is ClearBuffers
                } else {
                    to == ConvertPhase::Refs(q) && action == ConvertAction::Refs(step)
                }
            },
        ConvertPhase::Done => after == before && to == phase && action is Continue,
    }
}

/// One step of waiting until an array can become one of another kind. `data`
/// counts the references to the array's data, and `counters` what is under way
/// on the array.
pub fn block_on_outstanding<D>(
    data: &mut DarcInner<D>,
    counters: &OpCounters,
    phase: ConvertPhase,
    outstanding_reqs: usize,
    mode: DarcMode,
) -> (r: (ConvertPhase, ConvertAction))
    requires
        old(data).wf(),
        old(data).local_cnt > 0,
        mode != DarcMode::Dropped,
    ensures
        final(data).wf(),
        converted(
            *old(data),
            *final(data),
            *counters,
            phase,
            outstanding_reqs,
            mode,
            r.0,
            r.1,
        ),
        // The wait for references does not begin while operations are under way.
        phase == ConvertPhase::Ops ==> *final(data) == *old(data) && (r.0 == ConvertPhase::Refs(
            Phase::Requests,
        ) <==> counters.req_cnt == 0 && counters.outstanding_reqs == 0) && (r.1 is WaitOps
            <==> counters.req_cnt > 0 || counters.outstanding_reqs > 0),
        r.1 is ClearBuffers ==> r.0 == ConvertPhase::Done && (phase is Refs),
        // This PE says that the array is of the kind that was asked for, and no other.
        (r.1 matches ConvertAction::Refs(step) && step is PutMode) ==> final(data).modes@ == old(
            data,
        ).modes@.update(old(data).my_pe as int, mode),
        !(r.1 matches ConvertAction::Refs(step) && step is PutMode) ==> final(data).modes@ == old(
            data,
        ).modes@,
        final(data).local_cnt == old(data).local_cnt,
{
    match phase {
        ConvertPhase::Ops => if counters.idle() {
            (ConvertPhase::Refs(Phase::Requests), ConvertAction::Continue)
        } else {
            (ConvertPhase::Ops, ConvertAction::WaitOps)
        },
        ConvertPhase::Refs(p) => {
            let (q, step) = wait::block_on_outstanding(data, p, outstanding_reqs, mode, 0);
            match step {
                wait::Action::Finish => {
                    assert(wait::stepped(
                        *old(data),
                        *data,
                        p,
                        outstanding_reqs,
                        wait::change_goal(mode, 0),
                        q,
                        step,
                    ));
                    (ConvertPhase::Done, ConvertAction::ClearBuffers)
                },
                _ => (ConvertPhase::Refs(q), ConvertAction::Refs(step)),
            }
        },
        ConvertPhase::Done => (ConvertPhase::Done, ConvertAction::Continue),
    }
}

/// When a step says that the wait is over, this PE has one reference to the
/// array's data and no more, and knows of none that it has sent or that came
/// from elsewhere.
pub proof fn one_handle_is_left<D>(
    before: DarcInner<D>,
    after: DarcInner<D>,
    counters: OpCounters,
    phase: ConvertPhase,
    outstanding_reqs: usize,
    mode: DarcMode,
    to: ConvertPhase,
    action: ConvertAction,
)
    requires
        before.wf(),
        converted(before, after, counters, phase, outstanding_reqs, mode, to, action),
        phase != ConvertPhase::Refs(Phase::Done),
        action is ClearBuffers,
    ensures
        after.local_cnt <= 1,
        after.dist_cnt == 0,
        forall|q: int| 0 <= q < after.ref_cnts@.len() ==> #[trigger] after.ref_cnts@[q] == 0,
{
    match phase {
        ConvertPhase::Refs(p) => {
            let (q, step) = choose|q: Phase, step: wait::Action|
                {
                    &&& #[trigger] wait::stepped(
                        before,
                        after,
                        p,
                        outstanding_reqs,
                        wait::change_goal(mode, 0),
                        q,
                        step,
                    )
                    &&& if step is Finish {
                        to == ConvertPhase::Done && action is ClearBuffers
                    } else {
                        to == ConvertPhase::Refs(q) && action == ConvertAction::Refs(step)
                    }
                };
            assert(p == Phase::SettleAgain);
            wait::change_is_safe(before, outstanding_reqs, mode, 0);
            assert(after.counts().local == after.local_cnt);
            assert(after.counts().dist == after.dist_cnt);
            assert forall|i: int| 0 <= i < after.ref_cnts@.len() implies 
            #[trigger] after.ref_cnts@[i] == 0 by {
                assert(after.counts().refs[i] == before.counts().refs[i]);
                assert(before.ref_cnts@[i] == 0);
            }
        },
        _ => {},
    }
}

impl<T> UnsafeArray<T> {
    /// Turns the array into one that is only read. The wait for that has to be
    /// over.
    pub fn into_read_only<D>(self, data: &DarcInner<D>) -> (r: ReadOnlyArray<T>)
        requires
            data.wf(),
            data.counts().mode == DarcMode::ReadOnlyArray,
        ensures
            r.array == self,
    {
        ReadOnlyArray { array: self }
    }

    /// Turns the array into one whose elements on one PE share one lock. The
    /// wait for that has to be over.
    pub fn into_local_lock<D>(self, data: &DarcInner<D>) -> (r: LocalLockArray<T>)
        requires
            data.wf(),
            data.counts().mode == DarcMode::LocalLockAtomicArray,
        ensures
            r.array == self,
    {
        LocalLockArray { array: self }
    }

    /// Turns the array into one whose elements change atomically: by the
    /// machine, or else under locks, one for each of this PE's elements. The
    /// wait for that has to be over.
    pub fn into_atomic<D>(self, data: &DarcInner<D>, native: bool) -> (r: AtomicArray<T>)
        requires
            self.inner.wf(),
            data.wf(),
            data.counts().mode == (if native {
                DarcMode::NativeAtomicArray
            } else {
                DarcMode::GenericAtomicArray
            }),
        ensures
            native ==> r == AtomicArray::NativeAtomicArray(self),
            !native ==> r == AtomicArray::GenericAtomicArray(
                self,
                self.inner.count_on(self.inner.my_pe as int) as usize,
            ),
    {
        if native {
            AtomicArray::NativeAtomicArray(self)
        } else {
            let num_locks: usize = self.num_elems_local();
            AtomicArray::GenericAtomicArray(self, num_locks)
        }
    }
}

impl<T> GenericAtomicArray<T> {
    /// The array without its locks.
    pub fn into_unsafe(self) -> (r: UnsafeArray<T>)
        ensures
            r.inner == self.array.inner,
    {
        UnsafeArray { inner: self.array.inner, phantom: PhantomData }
    }

    /// Turns the array into one whose elements are changed by their own PE
    /// alone. The wait for that has to be over.
    pub fn into_local_only<D>(self, data: &DarcInner<D>) -> (r: LocalOnlyArray<T>)
        requires
            data.wf(),
            data.counts().mode == DarcMode::LocalOnlyArray,
        ensures
            r.array.inner == self.array.inner,
    {
        LocalOnlyArray { array: self.into_unsafe() }
    }

    /// Turns the array into one that is only read. The wait for that has to be
    /// over.
    pub fn into_read_only<D>(self, data: &DarcInner<D>) -> (r: ReadOnlyArray<T>)
        requires
            data.wf(),
            data.counts().mode == DarcMode::ReadOnlyArray,
        ensures
            r.array.inner == self.array.inner,
    {
        ReadOnlyArray { array: self.into_unsafe() }
    }

    /// Gives every element of this PE's a new lock. The wait for that has to be
    /// over.
    pub fn into_atomic<D>(self, data: &DarcInner<D>) -> (r: GenericAtomicArray<T>)
        requires
            self.wf(),
            data.wf(),
            data.counts().mode == DarcMode::GenericAtomicArray,
        ensures
            r.wf(),
            r.array == self.array,
            r.num_locks == self.array.count(),
    {
        GenericAtomicArray::new(self.array)
    }
}

impl<T> ReadOnlyArray<T> {
    /// Turns an array that is only read back into one without such a rule. The
    /// wait for that has to be over.
    pub fn into_unsafe<D>(self, data: &DarcInner<D>) -> (r: UnsafeArray<T>)
        requires
            data.wf(),
            data.counts().mode == DarcMode::UnsafeArray,
        ensures
            r == self.array,
    {
        self.array
    }
}

impl<T> LocalLockArray<T> {
    /// Turns an array whose elements on one PE share one lock back into one
    /// without such a rule. The wait for that has to be over.
    pub fn into_unsafe<D>(self, data: &DarcInner<D>) -> (r: UnsafeArray<T>)
        requires
            data.wf(),
            data.counts().mode == DarcMode::UnsafeArray,
        ensures
            r == self.array,
    {
        self.array
    }
}

impl<T> AtomicArray<T> {
    /// Turns an array whose elements change atomically back into one without
    /// such a rule. The wait for that has to be over.
    pub fn into_unsafe<D>(self, data: &DarcInner<D>) -> (r: UnsafeArray<T>)
        requires
            data.wf(),
            data.counts().mode == DarcMode::UnsafeArray,
        ensures
            self matches AtomicArray::NativeAtomicArray(array) ==> r == array,
            self matches AtomicArray::GenericAtomicArray(array, _) ==> r == array,
    {
        match self {
            AtomicArray::NativeAtomicArray(array) => array,
            AtomicArray::GenericAtomicArray(array, _) => array,
        }
    }
}

} // verus!
