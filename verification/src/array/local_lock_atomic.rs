//! Arrays whose elements on one PE share one lock.
//!
//! An operation on an element of this PE's is done at once, under the lock; one
//! on another PE's element is sent there.

use vstd::prelude::*;
use vstd::std_specs::ops::*;

use crate::array::buffered_operations::ArrayOpCmd;
use crate::array::local_memory::LocalMemory;
use crate::array::system;
use crate::array::unsafe_array;
use crate::array::unsafe_array::UnsafeArrayInner;

verus! {

/// An operation that has to be done on another PE, on the element at a place
/// among that PE's elements.
pub struct RemoteOp<T> {
    pub pe: usize,
    pub local_index: usize,
    pub val: Option<T>,
    pub op: ArrayOpCmd,
}

/// What an operation that gives a value back comes to.
pub enum OpResult<T> {
    /// It is done, with this value.
    Local(T),
    /// It has to be done on another PE.
    Remote(RemoteOp<T>),
}

/// An array whose elements on one PE share one lock.
pub struct LocalLockAtomicArray<T> {
    pub array: LocalMemory<T>,
}

/// The operation on an element, as it has to be done on the element's PE.
pub open spec fn remote_op<T>(
    a: UnsafeArrayInner,
    index: usize,
    val: Option<T>,
    op: ArrayOpCmd,
) -> RemoteOp<T> {
    let pe = a.pe_for(index as int)->0;
    RemoteOp { pe, local_index: a.offset_on(pe as int, index as int)->0, val, op }
}

impl<T> LocalLockAtomicArray<T> {
    pub open spec fn wf(self) -> bool {
        self.array.wf()
    }

    /// Whether an element lives on this PE.
    pub open spec fn is_here(self, index: usize) -> bool {
        self.array.inner.pe_for(index as int) == Some(self.array.inner.my_pe)
    }

    /// The place of an element among this PE's.
    pub open spec fn here(self, index: usize) -> int {
        self.array.inner.offset_on(self.array.inner.my_pe as int, index as int)->0 as int
    }
}

impl<T: Copy> LocalLockAtomicArray<T> {
    /// Hands an operation over to the PE where its element lives, at a place
    /// among that PE's elements.
    pub fn initiate_op(
        &self,
        index: usize,
        val: Option<T>,
        local_index: usize,
        op: ArrayOpCmd,
    ) -> (r: Option<RemoteOp<T>>)
        requires
            self.wf(),
            index < self.array.inner.size,
        ensures
            r == Some(
                RemoteOp {
                    pe: self.array.inner.pe_for(index as int)->0,
                    local_index,
                    val,
                    op,
                },
            ),
            r matches Some(sent) && self.array.inner.pe_for(index as int) == Some(sent.pe),
    {
        let (pe, _) = self.array.inner.calc_pe_and_offset(index);
        Some(RemoteOp { pe, local_index, val, op })
    }

    /// Hands an operation that gives a value back over to the PE where its
    /// element lives, at a place among that PE's elements.
    pub fn initiate_fetch_op(
        &self,
        index: usize,
        val: Option<T>,
        local_index: usize,
        op: ArrayOpCmd,
    ) -> (r: OpResult<T>)
        requires
            self.wf(),
            index < self.array.inner.size,
        ensures
            r == OpResult::Remote(
                RemoteOp {
                    pe: self.array.inner.pe_for(index as int)->0,
                    local_index,
                    val,
                    op,
                },
            ),
            r matches OpResult::Remote(sent) && self.array.inner.pe_for(index as int) == Some(
                sent.pe,
            ),
    {
        let (pe, _) = self.array.inner.calc_pe_and_offset(index);
        OpResult::Remote(RemoteOp { pe, local_index, val, op })
    }

    /// Reads an element of this PE's.
    pub fn local_load(&self, index: usize) -> (x: T)
        requires
            self.wf(),
            index < self.array.count(),
        ensures
            x == self.array.at(index as int),
            x == self.array.data@[self.array.inner.window_start() + index],
    {
        self.array.load(index)
    }

    /// Writes an element of this PE's.
    pub fn local_store(&mut self, index: usize, val: T)
        requires
            old(self).wf(),
            index < old(self).array.count(),
        ensures
            final(self).wf(),
            final(self).array.holds(old(self).array, index as int, val),
            final(self).array.inner == old(self).array.inner,
            final(self).array.data@ == old(self).array.data@.update(
                old(self).array.inner.window_start() + index,
                val,
            ),
    {
        self.array.store(index, val);
    }

    /// Writes an element of this PE's, and gives what it was.
    pub fn local_swap(&mut self, index: usize, val: T) -> (before: T)
        requires
            old(self).wf(),
            index < old(self).array.count(),
        ensures
            final(self).wf(),
            before == old(self).array.at(index as int),
            final(self).array.holds(old(self).array, index as int, val),
            final(self).array.inner == old(self).array.inner,
            final(self).array.data@ == old(self).array.data@.update(
                old(self).array.inner.window_start() + index,
                val,
            ),
    {
        self.array.swap(index, val)
    }

    /// Writes an element. One of this PE's is written at once.
    pub fn store(&mut self, index: usize, val: T) -> (r: Option<RemoteOp<T>>)
        requires
            old(self).wf(),
            index < old(self).array.inner.size,
        ensures
            final(self).wf(),
            old(self).is_here(index) ==> r is None && final(self).array.holds(
                old(self).array,
                old(self).here(index),
                val,
            ),
            !old(self).is_here(index) ==> *final(self) == *old(self) && r == Some(
                remote_op(old(self).array.inner, index, Some(val), ArrayOpCmd::Store),
            ),
            r is None <==> old(self).array.inner.pe_for(index as int) == Some(
                old(self).array.inner.my_pe,
            ),
            r is None ==> final(self).array.inner == old(self).array.inner
                && final(self).array.data@ == old(self).array.data@.update(
                old(self).array.inner.window_start() + (old(self).array.inner.offset_on(
                    old(self).array.inner.my_pe as int,
                    index as int,
                )->0),
                val,
            ),
            r matches Some(sent) ==> {
                &&& sent.op == ArrayOpCmd::Store
                &&& sent.val == Some(val)
                &&& old(self).array.inner.pe_for(index as int) == Some(sent.pe)
                &&& old(self).array.inner.offset_on(sent.pe as int, index as int) == Some(
                    sent.local_index,
                )
            },
    {
        let (pe, local_index) = self.array.inner.calc_pe_and_offset(index);
        if pe == self.array.inner.my_pe {
            self.local_store(local_index, val);
            None
        } else {
            self.initiate_op(index, Some(val), local_index, ArrayOpCmd::Store)
        }
    }

    /// Reads an element. One of this PE's is read at once.
    pub fn load(&self, index: usize) -> (r: OpResult<T>)
        requires
            self.wf(),
            index < self.array.inner.size,
        ensures
            r == (if self.is_here(index) {
                OpResult::Local(self.array.at(self.here(index)))
            } else {
                OpResult::Remote(
                    remote_op(self.array.inner, index, None::<T>, ArrayOpCmd::Load),
                )
            }),
            r is Local <==> self.array.inner.pe_for(index as int) == Some(self.array.inner.my_pe),
            r matches OpResult::Local(x) ==> x == self.array.data@[self.array.inner.window_start() + (
            self.array.inner.offset_on(self.array.inner.my_pe as int, index as int)->0)],
            r matches OpResult::Remote(sent) ==> {
                &&& sent.op == ArrayOpCmd::Load
                &&& sent.val is None
                &&& self.array.inner.pe_for(index as int) == Some(sent.pe)
                &&& self.array.inner.offset_on(sent.pe as int, index as int) == Some(
                    sent.local_index,
                )
            },
    {
        let (pe, local_index) = self.array.inner.calc_pe_and_offset(index);
        if pe == self.array.inner.my_pe {
            OpResult::Local(self.local_load(local_index))
        } else {
            self.initiate_fetch_op(index, None, local_index, ArrayOpCmd::Load)
        }
    }

    /// Writes an element, and gives what it was. One of this PE's is written at
    /// once.
    pub fn swap(&mut self, index: usize, val: T) -> (r: OpResult<T>)
        requires
            old(self).wf(),
            index < old(self).array.inner.size,
        ensures
            final(self).wf(),
            old(self).is_here(index) ==> r == OpResult::Local(
                old(self).array.at(old(self).here(index)),
            ) && final(self).array.holds(old(self).array, old(self).here(index), val),
            !old(self).is_here(index) ==> *final(self) == *old(self) && r == OpResult::Remote(
                remote_op(old(self).array.inner, index, Some(val), ArrayOpCmd::Swap),
            ),
            r is Local <==> old(self).array.inner.pe_for(index as int) == Some(
                old(self).array.inner.my_pe,
            ),
            r matches OpResult::Local(before) ==> {
                let at = old(self).array.inner.window_start() + (old(self).array.inner.offset_on(
                    old(self).array.inner.my_pe as int,
                    index as int,
                )->0);
                &&& before == old(self).array.data@[at]
                &&& final(self).array.inner == old(self).array.inner
                &&& final(self).array.data@ == old(self).array.data@.update(at, val)
            },
            r matches OpResult::Remote(sent) ==> {
                &&& sent.op == ArrayOpCmd::Swap
                &&& sent.val == Some(val)
                &&& old(self).array.inner.pe_for(index as int) == Some(sent.pe)
                &&& old(self).array.inner.offset_on(sent.pe as int, index as int) == Some(
                    sent.local_index,
                )
            },
    {
        let (pe, local_index) = self.array.inner.calc_pe_and_offset(index);
        if pe == self.array.inner.my_pe {
            OpResult::Local(self.local_swap(local_index, val))
        } else {
            self.initiate_fetch_op(index, Some(val), local_index, ArrayOpCmd::Swap)
        }
    }
}

impl<T: Copy + core::ops::Add<Output = T>> LocalLockAtomicArray<T> {
    /// Adds a value to an element of this PE's, and gives what it was.
    pub fn local_fetch_add(&mut self, index: usize, val: T) -> (before: T)
        requires
            old(self).wf(),
            index < old(self).array.count(),
            old(self).array.at(index as int).add_req(val),
        ensures
            final(self).wf(),
            before == old(self).array.at(index as int),
            final(self).array.holds(
                old(self).array,
                index as int,
                final(self).array.at(index as int),
            ),
            T::obeys_add_spec() ==> final(self).array.at(index as int) == old(self).array.at(
                index as int,
            ).add_spec(val),
            final(self).array.inner == old(self).array.inner,
            forall|i: int|
                0 <= i < old(self).array.data@.len() && i != old(self).array.inner.window_start()
                    + index ==> #[trigger] final(self).array.data@[i] == old(self).array.data@[i],
            T::obeys_add_spec() ==> final(self).array.data@[old(self).array.inner.window_start()
                + index] == old(self).array.data@[old(self).array.inner.window_start()
                + index].add_spec(val),
            before == old(self).array.data@[old(self).array.inner.window_start() + index],
    {
        self.array.fetch_add(index, val)
    }

    /// Adds a value to an element. One of this PE's is changed at once.
    pub fn add(&mut self, index: usize, val: T) -> (r: Option<RemoteOp<T>>)
        requires
            old(self).wf(),
            index < old(self).array.inner.size,
            old(self).is_here(index) ==> old(self).array.at(old(self).here(index)).add_req(val),
        ensures
            final(self).wf(),
            old(self).is_here(index) ==> {
                let k = old(self).here(index);
                &&& r is None
                &&& final(self).array.holds(old(self).array, k, final(self).array.at(k))
                &&& T::obeys_add_spec() ==> final(self).array.at(k) == old(self).array.at(
                    k,
                ).add_spec(val)
            },
            !old(self).is_here(index) ==> *final(self) == *old(self) && r == Some(
                remote_op(old(self).array.inner, index, Some(val), ArrayOpCmd::Add),
            ),
            r is None <==> old(self).array.inner.pe_for(index as int) == Some(
                old(self).array.inner.my_pe,
            ),
            r is None ==> {
                let at = old(self).array.inner.window_start() + (old(self).array.inner.offset_on(
                    old(self).array.inner.my_pe as int,
                    index as int,
                )->0);
                &&& final(self).array.inner == old(self).array.inner
                &&& forall|i: int|
                    0 <= i < old(self).array.data@.len() && i != at
                        ==> #[trigger] final(self).array.data@[i] == old(self).array.data@[i]
                &&& T::obeys_add_spec() ==> final(self).array.data@[at] == old(
                    self,
                ).array.data@[at].add_spec(val)
            },
            r matches Some(sent) ==> {
                &&& sent.op == ArrayOpCmd::Add
                &&& sent.val == Some(val)
                &&& old(self).array.inner.pe_for(index as int) == Some(sent.pe)
                &&& old(self).array.inner.offset_on(sent.pe as int, index as int) == Some(
                    sent.local_index,
                )
            },
    {
        let (pe, local_index) = self.array.inner.calc_pe_and_offset(index);
        if pe == self.array.inner.my_pe {
            self.local_fetch_add(local_index, val);
            None
        } else {
            self.initiate_op(index, Some(val), local_index, ArrayOpCmd::Add)
        }
    }

    /// Adds a value to an element, and gives what it was. One of this PE's is changed at
    /// once.
    pub fn fetch_add(&mut self, index: usize, val: T) -> (r: OpResult<T>)
        requires
            old(self).wf(),
            index < old(self).array.inner.size,
            old(self).is_here(index) ==> old(self).array.at(old(self).here(index)).add_req(val),
        ensures
            final(self).wf(),
            old(self).is_here(index) ==> {
                let k = old(self).here(index);
                &&& r == OpResult::Local(old(self).array.at(k))
                &&& final(self).array.holds(old(self).array, k, final(self).array.at(k))
                &&& T::obeys_add_spec() ==> final(self).array.at(k) == old(self).array.at(
                    k,
                ).add_spec(val)
            },
            !old(self).is_here(index) ==> *final(self) == *old(self) && r == OpResult::Remote(
                remote_op(old(self).array.inner, index, Some(val), ArrayOpCmd::FetchAdd),
            ),
            r is Local <==> old(self).array.inner.pe_for(index as int) == Some(
                old(self).array.inner.my_pe,
            ),
            r matches OpResult::Local(before) ==> {
                let at = old(self).array.inner.window_start() + (old(self).array.inner.offset_on(
                    old(self).array.inner.my_pe as int,
                    index as int,
                )->0);
                &&& final(self).array.inner == old(self).array.inner
                &&& forall|i: int|
                    0 <= i < old(self).array.data@.len() && i != at
                        ==> #[trigger] final(self).array.data@[i] == old(self).array.data@[i]
                &&& T::obeys_add_spec() ==> final(self).array.data@[at] == old(
                    self,
                ).array.data@[at].add_spec(val)
                &&& before == old(self).array.data@[at]
            },
            r matches OpResult::Remote(sent) ==> {
                &&& sent.op == ArrayOpCmd::FetchAdd
                &&& sent.val == Some(val)
                &&& old(self).array.inner.pe_for(index as int) == Some(sent.pe)
                &&& old(self).array.inner.offset_on(sent.pe as int, index as int) == Some(
                    sent.local_index,
                )
            },
    {
        let (pe, local_index) = self.array.inner.calc_pe_and_offset(index);
        if pe == self.array.inner.my_pe {
            OpResult::Local(self.local_fetch_add(local_index, val))
        } else {
            self.initiate_fetch_op(index, Some(val), local_index, ArrayOpCmd::FetchAdd)
        }
    }
}

impl<T: Copy + core::ops::Sub<Output = T>> LocalLockAtomicArray<T> {
    /// Subtracts a value from an element of this PE's, and gives what it was.
    pub fn local_fetch_sub(&mut self, index: usize, val: T) -> (before: T)
        requires
            old(self).wf(),
            index < old(self).array.count(),
            old(self).array.at(index as int).sub_req(val),
        ensures
            final(self).wf(),
            before == old(self).array.at(index as int),
            final(self).array.holds(
                old(self).array,
                index as int,
                final(self).array.at(index as int),
            ),
            T::obeys_sub_spec() ==> final(self).array.at(index as int) == old(self).array.at(
                index as int,
            ).sub_spec(val),
            final(self).array.inner == old(self).array.inner,
            forall|i: int|
                0 <= i < old(self).array.data@.len() && i != old(self).array.inner.window_start()
                    + index ==> #[trigger] final(self).array.data@[i] == old(self).array.data@[i],
            T::obeys_sub_spec() ==> final(self).array.data@[old(self).array.inner.window_start()
                + index] == old(self).array.data@[old(self).array.inner.window_start()
                + index].sub_spec(val),
            before == old(self).array.data@[old(self).array.inner.window_start() + index],
    {
        self.array.fetch_sub(index, val)
    }

    /// Subtracts a value from an element. One of this PE's is changed at once.
    pub fn sub(&mut self, index: usize, val: T) -> (r: Option<RemoteOp<T>>)
        requires
            old(self).wf(),
            index < old(self).array.inner.size,
            old(self).is_here(index) ==> old(self).array.at(old(self).here(index)).sub_req(val),
        ensures
            final(self).wf(),
            old(self).is_here(index) ==> {
                let k = old(self).here(index);
                &&& r is None
                &&& final(self).array.holds(old(self).array, k, final(self).array.at(k))
                &&& T::obeys_sub_spec() ==> final(self).array.at(k) == old(self).array.at(
                    k,
                ).sub_spec(val)
            },
            !old(self).is_here(index) ==> *final(self) == *old(self) && r == Some(
                remote_op(old(self).array.inner, index, Some(val), ArrayOpCmd::Sub),
            ),
            r is None <==> old(self).array.inner.pe_for(index as int) == Some(
                old(self).array.inner.my_pe,
            ),
            r is None ==> {
                let at = old(self).array.inner.window_start() + (old(self).array.inner.offset_on(
                    old(self).array.inner.my_pe as int,
                    index as int,
                )->0);
                &&& final(self).array.inner == old(self).array.inner
                &&& forall|i: int|
                    0 <= i < old(self).array.data@.len() && i != at
                        ==> #[trigger] final(self).array.data@[i] == old(self).array.data@[i]
                &&& T::obeys_sub_spec() ==> final(self).array.data@[at] == old(
                    self,
                ).array.data@[at].sub_spec(val)
            },
            r matches Some(sent) ==> {
                &&& sent.op == ArrayOpCmd::Sub
                &&& sent.val == Some(val)
                &&& old(self).array.inner.pe_for(index as int) == Some(sent.pe)
                &&& old(self).array.inner.offset_on(sent.pe as int, index as int) == Some(
                    sent.local_index,
                )
            },
    {
        let (pe, local_index) = self.array.inner.calc_pe_and_offset(index);
        if pe == self.array.inner.my_pe {
            self.local_fetch_sub(local_index, val);
            None
        } else {
            self.initiate_op(index, Some(val), local_index, ArrayOpCmd::Sub)
        }
    }

    /// Subtracts a value from an element, and gives what it was. One of this PE's is changed at
    /// once.
    pub fn fetch_sub(&mut self, index: usize, val: T) -> (r: OpResult<T>)
        requires
            old(self).wf(),
            index < old(self).array.inner.size,
            old(self).is_here(index) ==> old(self).array.at(old(self).here(index)).sub_req(val),
        ensures
            final(self).wf(),
            old(self).is_here(index) ==> {
                let k = old(self).here(index);
                &&& r == OpResult::Local(old(self).array.at(k))
                &&& final(self).array.holds(old(self).array, k, final(self).array.at(k))
                &&& T::obeys_sub_spec() ==> final(self).array.at(k) == old(self).array.at(
                    k,
                ).sub_spec(val)
            },
            !old(self).is_here(index) ==> *final(self) == *old(self) && r == OpResult::Remote(
                remote_op(old(self).array.inner, index, Some(val), ArrayOpCmd::FetchSub),
            ),
            r is Local <==> old(self).array.inner.pe_for(index as int) == Some(
                old(self).array.inner.my_pe,
            ),
            r matches OpResult::Local(before) ==> {
                let at = old(self).array.inner.window_start() + (old(self).array.inner.offset_on(
                    old(self).array.inner.my_pe as int,
                    index as int,
                )->0);
                &&& final(self).array.inner == old(self).array.inner
                &&& forall|i: int|
                    0 <= i < old(self).array.data@.len() && i != at
                        ==> #[trigger] final(self).array.data@[i] == old(self).array.data@[i]
                &&& T::obeys_sub_spec() ==> final(self).array.data@[at] == old(
                    self,
                ).array.data@[at].sub_spec(val)
                &&& before == old(self).array.data@[at]
            },
            r matches OpResult::Remote(sent) ==> {
                &&& sent.op == ArrayOpCmd::FetchSub
                &&& sent.val == Some(val)
                &&& old(self).array.inner.pe_for(index as int) == Some(sent.pe)
                &&& old(self).array.inner.offset_on(sent.pe as int, index as int) == Some(
                    sent.local_index,
                )
            },
    {
        let (pe, local_index) = self.array.inner.calc_pe_and_offset(index);
        if pe == self.array.inner.my_pe {
            OpResult::Local(self.local_fetch_sub(local_index, val))
        } else {
            self.initiate_fetch_op(index, Some(val), local_index, ArrayOpCmd::FetchSub)
        }
    }
}

impl<T: Copy + core::ops::Mul<Output = T>> LocalLockAtomicArray<T> {
    /// Multiplies an element by a value of this PE's, and gives what it was.
    pub fn local_fetch_mul(&mut self, index: usize, val: T) -> (before: T)
        requires
            old(self).wf(),
            index < old(self).array.count(),
            old(self).array.at(index as int).mul_req(val),
        ensures
            final(self).wf(),
            before == old(self).array.at(index as int),
            final(self).array.holds(
                old(self).array,
                index as int,
                final(self).array.at(index as int),
            ),
            T::obeys_mul_spec() ==> final(self).array.at(index as int) == old(self).array.at(
                index as int,
            ).mul_spec(val),
            final(self).array.inner == old(self).array.inner,
            forall|i: int|
                0 <= i < old(self).array.data@.len() && i != old(self).array.inner.window_start()
                    + index ==> #[trigger] final(self).array.data@[i] == old(self).array.data@[i],
            T::obeys_mul_spec() ==> final(self).array.data@[old(self).array.inner.window_start()
                + index] == old(self).array.data@[old(self).array.inner.window_start()
                + index].mul_spec(val),
            before == old(self).array.data@[old(self).array.inner.window_start() + index],
    {
        self.array.fetch_mul(index, val)
    }

    /// Multiplies an element by a value. One of this PE's is changed at once.
    pub fn mul(&mut self, index: usize, val: T) -> (r: Option<RemoteOp<T>>)
        requires
            old(self).wf(),
            index < old(self).array.inner.size,
            old(self).is_here(index) ==> old(self).array.at(old(self).here(index)).mul_req(val),
        ensures
            final(self).wf(),
            old(self).is_here(index) ==> {
                let k = old(self).here(index);
                &&& r is None
                &&& final(self).array.holds(old(self).array, k, final(self).array.at(k))
                &&& T::obeys_mul_spec() ==> final(self).array.at(k) == old(self).array.at(
                    k,
                ).mul_spec(val)
            },
            !old(self).is_here(index) ==> *final(self) == *old(self) && r == Some(
                remote_op(old(self).array.inner, index, Some(val), ArrayOpCmd::Mul),
            ),
            r is None <==> old(self).array.inner.pe_for(index as int) == Some(
                old(self).array.inner.my_pe,
            ),
            r is None ==> {
                let at = old(self).array.inner.window_start() + (old(self).array.inner.offset_on(
                    old(self).array.inner.my_pe as int,
                    index as int,
                )->0);
                &&& final(self).array.inner == old(self).array.inner
                &&& forall|i: int|
                    0 <= i < old(self).array.data@.len() && i != at
                        ==> #[trigger] final(self).array.data@[i] == old(self).array.data@[i]
                &&& T::obeys_mul_spec() ==> final(self).array.data@[at] == old(
                    self,
                ).array.data@[at].mul_spec(val)
            },
            r matches Some(sent) ==> {
                &&& sent.op == ArrayOpCmd::Mul
                &&& sent.val == Some(val)
                &&& old(self).array.inner.pe_for(index as int) == Some(sent.pe)
                &&& old(self).array.inner.offset_on(sent.pe as int, index as int) == Some(
                    sent.local_index,
                )
            },
    {
        let (pe, local_index) = self.array.inner.calc_pe_and_offset(index);
        if pe == self.array.inner.my_pe {
            self.local_fetch_mul(local_index, val);
            None
        } else {
            self.initiate_op(index, Some(val), local_index, ArrayOpCmd::Mul)
        }
    }

    /// Multiplies an element by a value, and gives what it was. One of this PE's is changed at
    /// once.
    pub fn fetch_mul(&mut self, index: usize, val: T) -> (r: OpResult<T>)
        requires
            old(self).wf(),
            index < old(self).array.inner.size,
            old(self).is_here(index) ==> old(self).array.at(old(self).here(index)).mul_req(val),
        ensures
            final(self).wf(),
            old(self).is_here(index) ==> {
                let k = old(self).here(index);
                &&& r == OpResult::Local(old(self).array.at(k))
                &&& final(self).array.holds(old(self).array, k, final(self).array.at(k))
                &&& T::obeys_mul_spec() ==> final(self).array.at(k) == old(self).array.at(
                    k,
                ).mul_spec(val)
            },
            !old(self).is_here(index) ==> *final(self) == *old(self) && r == OpResult::Remote(
                remote_op(old(self).array.inner, index, Some(val), ArrayOpCmd::FetchMul),
            ),
            r is Local <==> old(self).array.inner.pe_for(index as int) == Some(
                old(self).array.inner.my_pe,
            ),
            r matches OpResult::Local(before) ==> {
                let at = old(self).array.inner.window_start() + (old(self).array.inner.offset_on(
                    old(self).array.inner.my_pe as int,
                    index as int,
                )->0);
                &&& final(self).array.inner == old(self).array.inner
                &&& forall|i: int|
                    0 <= i < old(self).array.data@.len() && i != at
                        ==> #[trigger] final(self).array.data@[i] == old(self).array.data@[i]
                &&& T::obeys_mul_spec() ==> final(self).array.data@[at] == old(
                    self,
                ).array.data@[at].mul_spec(val)
                &&& before == old(self).array.data@[at]
            },
            r matches OpResult::Remote(sent) ==> {
                &&& sent.op == ArrayOpCmd::FetchMul
                &&& sent.val == Some(val)
                &&& old(self).array.inner.pe_for(index as int) == Some(sent.pe)
                &&& old(self).array.inner.offset_on(sent.pe as int, index as int) == Some(
                    sent.local_index,
                )
            },
    {
        let (pe, local_index) = self.array.inner.calc_pe_and_offset(index);
        if pe == self.array.inner.my_pe {
            OpResult::Local(self.local_fetch_mul(local_index, val))
        } else {
            self.initiate_fetch_op(index, Some(val), local_index, ArrayOpCmd::FetchMul)
        }
    }
}

impl<T: Copy + core::ops::Div<Output = T>> LocalLockAtomicArray<T> {
    /// Divides an element by a value of this PE's, and gives what it was.
    pub fn local_fetch_div(&mut self, index: usize, val: T) -> (before: T)
        requires
            old(self).wf(),
            index < old(self).array.count(),
            old(self).array.at(index as int).div_req(val),
        ensures
            final(self).wf(),
            before == old(self).array.at(index as int),
            final(self).array.holds(
                old(self).array,
                index as int,
                final(self).array.at(index as int),
            ),
            T::obeys_div_spec() ==> final(self).array.at(index as int) == old(self).array.at(
                index as int,
            ).div_spec(val),
            final(self).array.inner == old(self).array.inner,
            forall|i: int|
                0 <= i < old(self).array.data@.len() && i != old(self).array.inner.window_start()
                    + index ==> #[trigger] final(self).array.data@[i] == old(self).array.data@[i],
            T::obeys_div_spec() ==> final(self).array.data@[old(self).array.inner.window_start()
                + index] == old(self).array.data@[old(self).array.inner.window_start()
                + index].div_spec(val),
            before == old(self).array.data@[old(self).array.inner.window_start() + index],
    {
        self.array.fetch_div(index, val)
    }

    /// Divides an element by a value. One of this PE's is changed at once.
    pub fn div(&mut self, index: usize, val: T) -> (r: Option<RemoteOp<T>>)
        requires
            old(self).wf(),
            index < old(self).array.inner.size,
            old(self).is_here(index) ==> old(self).array.at(old(self).here(index)).div_req(val),
        ensures
            final(self).wf(),
            old(self).is_here(index) ==> {
                let k = old(self).here(index);
                &&& r is None
                &&& final(self).array.holds(old(self).array, k, final(self).array.at(k))
                &&& T::obeys_div_spec() ==> final(self).array.at(k) == old(self).array.at(
                    k,
                ).div_spec(val)
            },
            !old(self).is_here(index) ==> *final(self) == *old(self) && r == Some(
                remote_op(old(self).array.inner, index, Some(val), ArrayOpCmd::Div),
            ),
            r is None <==> old(self).array.inner.pe_for(index as int) == Some(
                old(self).array.inner.my_pe,
            ),
            r is None ==> {
                let at = old(self).array.inner.window_start() + (old(self).array.inner.offset_on(
                    old(self).array.inner.my_pe as int,
                    index as int,
                )->0);
                &&& final(self).array.inner == old(self).array.inner
                &&& forall|i: int|
                    0 <= i < old(self).array.data@.len() && i != at
                        ==> #[trigger] final(self).array.data@[i] == old(self).array.data@[i]
                &&& T::obeys_div_spec() ==> final(self).array.data@[at] == old(
                    self,
                ).array.data@[at].div_spec(val)
            },
            r matches Some(sent) ==> {
                &&& sent.op == ArrayOpCmd::Div
                &&& sent.val == Some(val)
                &&& old(self).array.inner.pe_for(index as int) == Some(sent.pe)
                &&& old(self).array.inner.offset_on(sent.pe as int, index as int) == Some(
                    sent.local_index,
                )
            },
    {
        let (pe, local_index) = self.array.inner.calc_pe_and_offset(index);
        if pe == self.array.inner.my_pe {
            self.local_fetch_div(local_index, val);
            None
        } else {
            self.initiate_op(index, Some(val), local_index, ArrayOpCmd::Div)
        }
    }

    /// Divides an element by a value, and gives what it was. One of this PE's is changed at
    /// once.
    pub fn fetch_div(&mut self, index: usize, val: T) -> (r: OpResult<T>)
        requires
            old(self).wf(),
            index < old(self).array.inner.size,
            old(self).is_here(index) ==> old(self).array.at(old(self).here(index)).div_req(val),
        ensures
            final(self).wf(),
            old(self).is_here(index) ==> {
                let k = old(self).here(index);
                &&& r == OpResult::Local(old(self).array.at(k))
                &&& final(self).array.holds(old(self).array, k, final(self).array.at(k))
                &&& T::obeys_div_spec() ==> final(self).array.at(k) == old(self).array.at(
                    k,
                ).div_spec(val)
            },
            !old(self).is_here(index) ==> *final(self) == *old(self) && r == OpResult::Remote(
                remote_op(old(self).array.inner, index, Some(val), ArrayOpCmd::FetchDiv),
            ),
            r is Local <==> old(self).array.inner.pe_for(index as int) == Some(
                old(self).array.inner.my_pe,
            ),
            r matches OpResult::Local(before) ==> {
                let at = old(self).array.inner.window_start() + (old(self).array.inner.offset_on(
                    old(self).array.inner.my_pe as int,
                    index as int,
                )->0);
                &&& final(self).array.inner == old(self).array.inner
                &&& forall|i: int|
                    0 <= i < old(self).array.data@.len() && i != at
                        ==> #[trigger] final(self).array.data@[i] == old(self).array.data@[i]
                &&& T::obeys_div_spec() ==> final(self).array.data@[at] == old(
                    self,
                ).array.data@[at].div_spec(val)
                &&& before == old(self).array.data@[at]
            },
            r matches OpResult::Remote(sent) ==> {
                &&& sent.op == ArrayOpCmd::FetchDiv
                &&& sent.val == Some(val)
                &&& old(self).array.inner.pe_for(index as int) == Some(sent.pe)
                &&& old(self).array.inner.offset_on(sent.pe as int, index as int) == Some(
                    sent.local_index,
                )
            },
    {
        let (pe, local_index) = self.array.inner.calc_pe_and_offset(index);
        if pe == self.array.inner.my_pe {
            OpResult::Local(self.local_fetch_div(local_index, val))
        } else {
            self.initiate_fetch_op(index, Some(val), local_index, ArrayOpCmd::FetchDiv)
        }
    }
}

impl<T: Copy + core::ops::BitAnd<Output = T>> LocalLockAtomicArray<T> {
    /// Keeps the bits of an element that a value has of this PE's, and gives what it was.
    pub fn local_fetch_bit_and(&mut self, index: usize, val: T) -> (before: T)
        requires
            old(self).wf(),
            index < old(self).array.count(),
            old(self).array.at(index as int).bitand_req(val),
        ensures
            final(self).wf(),
            before == old(self).array.at(index as int),
            final(self).array.holds(
                old(self).array,
                index as int,
                final(self).array.at(index as int),
            ),
            T::obeys_bitand_spec() ==> final(self).array.at(index as int) == old(self).array.at(
                index as int,
            ).bitand_spec(val),
            final(self).array.inner == old(self).array.inner,
            forall|i: int|
                0 <= i < old(self).array.data@.len() && i != old(self).array.inner.window_start()
                    + index ==> #[trigger] final(self).array.data@[i] == old(self).array.data@[i],
            T::obeys_bitand_spec() ==> final(self).array.data@[old(self).array.inner.window_start()
                + index] == old(self).array.data@[old(self).array.inner.window_start()
                + index].bitand_spec(val),
            before == old(self).array.data@[old(self).array.inner.window_start() + index],
    {
        self.array.fetch_bit_and(index, val)
    }

    /// Keeps the bits of an element that a value has. One of this PE's is changed at once.
    pub fn bit_and(&mut self, index: usize, val: T) -> (r: Option<RemoteOp<T>>)
        requires
            old(self).wf(),
            index < old(self).array.inner.size,
            old(self).is_here(index) ==> old(self).array.at(old(self).here(index)).bitand_req(val),
        ensures
            final(self).wf(),
            old(self).is_here(index) ==> {
                let k = old(self).here(index);
                &&& r is None
                &&& final(self).array.holds(old(self).array, k, final(self).array.at(k))
                &&& T::obeys_bitand_spec() ==> final(self).array.at(k) == old(self).array.at(
                    k,
                ).bitand_spec(val)
            },
            !old(self).is_here(index) ==> *final(self) == *old(self) && r == Some(
                remote_op(old(self).array.inner, index, Some(val), ArrayOpCmd::And),
            ),
            r is None <==> old(self).array.inner.pe_for(index as int) == Some(
                old(self).array.inner.my_pe,
            ),
            r is None ==> {
                let at = old(self).array.inner.window_start() + (old(self).array.inner.offset_on(
                    old(self).array.inner.my_pe as int,
                    index as int,
                )->0);
                &&& final(self).array.inner == old(self).array.inner
                &&& forall|i: int|
                    0 <= i < old(self).array.data@.len() && i != at
                        ==> #[trigger] final(self).array.data@[i] == old(self).array.data@[i]
                &&& T::obeys_bitand_spec() ==> final(self).array.data@[at] == old(
                    self,
                ).array.data@[at].bitand_spec(val)
            },
            r matches Some(sent) ==> {
                &&& sent.op == ArrayOpCmd::And
                &&& sent.val == Some(val)
                &&& old(self).array.inner.pe_for(index as int) == Some(sent.pe)
                &&& old(self).array.inner.offset_on(sent.pe as int, index as int) == Some(
                    sent.local_index,
                )
            },
    {
        let (pe, local_index) = self.array.inner.calc_pe_and_offset(index);
        if pe == self.array.inner.my_pe {
            self.local_fetch_bit_and(local_index, val);
            None
        } else {
            self.initiate_op(index, Some(val), local_index, ArrayOpCmd::And)
        }
    }

    /// Keeps the bits of an element that a value has, and gives what it was. One of this PE's is changed at
    /// once.
    pub fn fetch_bit_and(&mut self, index: usize, val: T) -> (r: OpResult<T>)
        requires
            old(self).wf(),
            index < old(self).array.inner.size,
            old(self).is_here(index) ==> old(self).array.at(old(self).here(index)).bitand_req(val),
        ensures
            final(self).wf(),
            old(self).is_here(index) ==> {
                let k = old(self).here(index);
                &&& r == OpResult::Local(old(self).array.at(k))
                &&& final(self).array.holds(old(self).array, k, final(self).array.at(k))
                &&& T::obeys_bitand_spec() ==> final(self).array.at(k) == old(self).array.at(
                    k,
                ).bitand_spec(val)
            },
            !old(self).is_here(index) ==> *final(self) == *old(self) && r == OpResult::Remote(
                remote_op(old(self).array.inner, index, Some(val), ArrayOpCmd::FetchAnd),
            ),
            r is Local <==> old(self).array.inner.pe_for(index as int) == Some(
                old(self).array.inner.my_pe,
            ),
            r matches OpResult::Local(before) ==> {
                let at = old(self).array.inner.window_start() + (old(self).array.inner.offset_on(
                    old(self).array.inner.my_pe as int,
                    index as int,
                )->0);
                &&& final(self).array.inner == old(self).array.inner
                &&& forall|i: int|
                    0 <= i < old(self).array.data@.len() && i != at
                        ==> #[trigger] final(self).array.data@[i] == old(self).array.data@[i]
                &&& T::obeys_bitand_spec() ==> final(self).array.data@[at] == old(
                    self,
                ).array.data@[at].bitand_spec(val)
                &&& before == old(self).array.data@[at]
            },
            r matches OpResult::Remote(sent) ==> {
                &&& sent.op == ArrayOpCmd::FetchAnd
                &&& sent.val == Some(val)
                &&& old(self).array.inner.pe_for(index as int) == Some(sent.pe)
                &&& old(self).array.inner.offset_on(sent.pe as int, index as int) == Some(
                    sent.local_index,
                )
            },
    {
        let (pe, local_index) = self.array.inner.calc_pe_and_offset(index);
        if pe == self.array.inner.my_pe {
            OpResult::Local(self.local_fetch_bit_and(local_index, val))
        } else {
            self.initiate_fetch_op(index, Some(val), local_index, ArrayOpCmd::FetchAnd)
        }
    }
}

impl<T: Copy + core::ops::BitOr<Output = T>> LocalLockAtomicArray<T> {
    /// Sets the bits of an element that a value has of this PE's, and gives what it was.
    pub fn local_fetch_bit_or(&mut self, index: usize, val: T) -> (before: T)
        requires
            old(self).wf(),
            index < old(self).array.count(),
            old(self).array.at(index as int).bitor_req(val),
        ensures
            final(self).wf(),
            before == old(self).array.at(index as int),
            final(self).array.holds(
                old(self).array,
                index as int,
                final(self).array.at(index as int),
            ),
            T::obeys_bitor_spec() ==> final(self).array.at(index as int) == old(self).array.at(
                index as int,
            ).bitor_spec(val),
            final(self).array.inner == old(self).array.inner,
            forall|i: int|
                0 <= i < old(self).array.data@.len() && i != old(self).array.inner.window_start()
                    + index ==> #[trigger] final(self).array.data@[i] == old(self).array.data@[i],
            T::obeys_bitor_spec() ==> final(self).array.data@[old(self).array.inner.window_start()
                + index] == old(self).array.data@[old(self).array.inner.window_start()
                + index].bitor_spec(val),
            before == old(self).array.data@[old(self).array.inner.window_start() + index],
    {
        self.array.fetch_bit_or(index, val)
    }

    /// Sets the bits of an element that a value has. One of this PE's is changed at once.
    pub fn bit_or(&mut self, index: usize, val: T) -> (r: Option<RemoteOp<T>>)
        requires
            old(self).wf(),
            index < old(self).array.inner.size,
            old(self).is_here(index) ==> old(self).array.at(old(self).here(index)).bitor_req(val),
        ensures
            final(self).wf(),
            old(self).is_here(index) ==> {
                let k = old(self).here(index);
                &&& r is None
                &&& final(self).array.holds(old(self).array, k, final(self).array.at(k))
                &&& T::obeys_bitor_spec() ==> final(self).array.at(k) == old(self).array.at(
                    k,
                ).bitor_spec(val)
            },
            !old(self).is_here(index) ==> *final(self) == *old(self) && r == Some(
                remote_op(old(self).array.inner, index, Some(val), ArrayOpCmd::Or),
            ),
            r is None <==> old(self).array.inner.pe_for(index as int) == Some(
                old(self).array.inner.my_pe,
            ),
            r is None ==> {
                let at = old(self).array.inner.window_start() + (old(self).array.inner.offset_on(
                    old(self).array.inner.my_pe as int,
                    index as int,
                )->0);
                &&& final(self).array.inner == old(self).array.inner
                &&& forall|i: int|
                    0 <= i < old(self).array.data@.len() && i != at
                        ==> #[trigger] final(self).array.data@[i] == old(self).array.data@[i]
                &&& T::obeys_bitor_spec() ==> final(self).array.data@[at] == old(
                    self,
                ).array.data@[at].bitor_spec(val)
            },
            r matches Some(sent) ==> {
                &&& sent.op == ArrayOpCmd::Or
                &&& sent.val == Some(val)
                &&& old(self).array.inner.pe_for(index as int) == Some(sent.pe)
                &&& old(self).array.inner.offset_on(sent.pe as int, index as int) == Some(
                    sent.local_index,
                )
            },
    {
        let (pe, local_index) = self.array.inner.calc_pe_and_offset(index);
        if pe == self.array.inner.my_pe {
            self.local_fetch_bit_or(local_index, val);
            None
        } else {
            self.initiate_op(index, Some(val), local_index, ArrayOpCmd::Or)
        }
    }

    /// Sets the bits of an element that a value has, and gives what it was. One of this PE's is changed at
    /// once.
    pub fn fetch_bit_or(&mut self, index: usize, val: T) -> (r: OpResult<T>)
        requires
            old(self).wf(),
            index < old(self).array.inner.size,
            old(self).is_here(index) ==> old(self).array.at(old(self).here(index)).bitor_req(val),
        ensures
            final(self).wf(),
            old(self).is_here(index) ==> {
                let k = old(self).here(index);
                &&& r == OpResult::Local(old(self).array.at(k))
                &&& final(self).array.holds(old(self).array, k, final(self).array.at(k))
                &&& T::obeys_bitor_spec() ==> final(self).array.at(k) == old(self).array.at(
                    k,
                ).bitor_spec(val)
            },
            !old(self).is_here(index) ==> *final(self) == *old(self) && r == OpResult::Remote(
                remote_op(old(self).array.inner, index, Some(val), ArrayOpCmd::FetchOr),
            ),
            r is Local <==> old(self).array.inner.pe_for(index as int) == Some(
                old(self).array.inner.my_pe,
            ),
            r matches OpResult::Local(before) ==> {
                let at = old(self).array.inner.window_start() + (old(self).array.inner.offset_on(
                    old(self).array.inner.my_pe as int,
                    index as int,
                )->0);
                &&& final(self).array.inner == old(self).array.inner
                &&& forall|i: int|
                    0 <= i < old(self).array.data@.len() && i != at
                        ==> #[trigger] final(self).array.data@[i] == old(self).array.data@[i]
                &&& T::obeys_bitor_spec() ==> final(self).array.data@[at] == old(
                    self,
                ).array.data@[at].bitor_spec(val)
                &&& before == old(self).array.data@[at]
            },
            r matches OpResult::Remote(sent) ==> {
                &&& sent.op == ArrayOpCmd::FetchOr
                &&& sent.val == Some(val)
                &&& old(self).array.inner.pe_for(index as int) == Some(sent.pe)
                &&& old(self).array.inner.offset_on(sent.pe as int, index as int) == Some(
                    sent.local_index,
                )
            },
    {
        let (pe, local_index) = self.array.inner.calc_pe_and_offset(index);
        if pe == self.array.inner.my_pe {
            OpResult::Local(self.local_fetch_bit_or(local_index, val))
        } else {
            self.initiate_fetch_op(index, Some(val), local_index, ArrayOpCmd::FetchOr)
        }
    }
}

/// What a command that was sent makes of the element that it is done on.
pub open spec fn done_on<
    T: core::ops::Add<Output = T> + core::ops::Sub<Output = T> + core::ops::Mul<
    Output = T,
> + core::ops::Div<Output = T> + core::ops::BitAnd<Output = T> + core::ops::BitOr<Output = T>,
>(op: ArrayOpCmd, x: T, val: Option<T>) -> T {
    match op {
        ArrayOpCmd::Add | ArrayOpCmd::FetchAdd => x.add_spec(val->0),
        ArrayOpCmd::Sub | ArrayOpCmd::FetchSub => x.sub_spec(val->0),
        ArrayOpCmd::Mul | ArrayOpCmd::FetchMul => x.mul_spec(val->0),
        ArrayOpCmd::Div | ArrayOpCmd::FetchDiv => x.div_spec(val->0),
        ArrayOpCmd::And | ArrayOpCmd::FetchAnd => x.bitand_spec(val->0),
        ArrayOpCmd::Or | ArrayOpCmd::FetchOr => x.bitor_spec(val->0),
        ArrayOpCmd::Store | ArrayOpCmd::Swap | ArrayOpCmd::Put => val->0,
        ArrayOpCmd::Load | ArrayOpCmd::Get => x,
    }
}

/// An operation on another PE's element does there what it does on an element
/// here: when the command that one PE sent is done on the PE and at the place that
/// it names, the element at the index has become what the operation makes of it,
/// and no other element has changed.
pub proof fn sent_operation_is_done_at_home<
    T: core::ops::Add<Output = T> + core::ops::Sub<Output = T> + core::ops::Mul<
    Output = T,
> + core::ops::Div<Output = T> + core::ops::BitAnd<Output = T> + core::ops::BitOr<Output = T>,
>(
    mems: Seq<LocalMemory<T>>,
    after: Seq<LocalMemory<T>>,
    p: int,
    index: usize,
    val: Option<T>,
    cmd: ArrayOpCmd,
)
    requires
        system::is_array(mems),
        0 <= p < mems.len(),
        index < mems[0].inner.size,
        after.len() == mems.len(),
        ({
            let sent = remote_op(mems[p].inner, index, val, cmd);
            let home = sent.pe as int;
            &&& after[home].holds(
                mems[home],
                sent.local_index as int,
                done_on(sent.op, mems[home].at(sent.local_index as int), sent.val),
            )
            &&& forall|q: int| 0 <= q < mems.len() && q != home ==> #[trigger] after[q] == mems[q]
        }),
    ensures
        system::is_array(after),
        remote_op(mems[p].inner, index, val, cmd).op == cmd,
        remote_op(mems[p].inner, index, val, cmd).val == val,
        cmd == ArrayOpCmd::Add || cmd == ArrayOpCmd::FetchAdd ==> system::element(
            after,
            index as int,
        ) == system::element(mems, index as int).add_spec(val->0),
        cmd == ArrayOpCmd::Sub || cmd == ArrayOpCmd::FetchSub ==> system::element(
            after,
            index as int,
        ) == system::element(mems, index as int).sub_spec(val->0),
        cmd == ArrayOpCmd::Mul || cmd == ArrayOpCmd::FetchMul ==> system::element(
            after,
            index as int,
        ) == system::element(mems, index as int).mul_spec(val->0),
        cmd == ArrayOpCmd::Div || cmd == ArrayOpCmd::FetchDiv ==> system::element(
            after,
            index as int,
        ) == system::element(mems, index as int).div_spec(val->0),
        cmd == ArrayOpCmd::And || cmd == ArrayOpCmd::FetchAnd ==> system::element(
            after,
            index as int,
        ) == system::element(mems, index as int).bitand_spec(val->0),
        cmd == ArrayOpCmd::Or || cmd == ArrayOpCmd::FetchOr ==> system::element(
            after,
            index as int,
        ) == system::element(mems, index as int).bitor_spec(val->0),
        cmd == ArrayOpCmd::Store || cmd == ArrayOpCmd::Swap || cmd == ArrayOpCmd::Put
            ==> system::element(after, index as int) == val->0,
        cmd == ArrayOpCmd::Load || cmd == ArrayOpCmd::Get ==> system::element(after, index as int)
            == system::element(mems, index as int),
        forall|other: int|
            0 <= other < mems[0].inner.size && other != index ==> #[trigger] system::element(
                after,
                other,
            ) == system::element(mems, other),
{
    let sent = remote_op(mems[p].inner, index, val, cmd);
    let i = index as int;
    assert(mems[0].wf() && mems[p].wf());
    system::pes_agree(mems[0].inner, mems[p].inner, i);
    unsafe_array::element_has_place(mems[0].inner, i);
    let home = system::home(mems, i);
    assert(mems[home].wf());
    system::pes_agree(mems[0].inner, mems[home].inner, i);
    assert(sent.pe == home);
    assert(sent.local_index == system::place_at_home(mems, i));
    let x = done_on(cmd, system::element(mems, i), val);
    assert(system::changed(mems, after, i, x));
    system::written_element_is_read(mems, after, i, i, x);
    assert forall|other: int| 0 <= other < mems[0].inner.size && other != index implies 
    #[trigger] system::element(after, other) == system::element(mems, other) by {
        system::written_element_is_read(mems, after, i, other, x);
    }
}

/// Any PE sends an operation to the one PE where the element lives.
pub proof fn all_pes_send_alike<T>(
    a: UnsafeArrayInner,
    b: UnsafeArrayInner,
    index: usize,
    val: Option<T>,
    op: ArrayOpCmd,
)
    requires
        a.wf(),
        b.wf(),
        system::same_part(a, b),
        index < a.size,
    ensures
        remote_op(a, index, val, op) == remote_op(b, index, val, op),
        a.lives_on(remote_op(a, index, val, op).pe as int, index as int),
        a.offset_on(remote_op(a, index, val, op).pe as int, index as int) == Some(
            remote_op(a, index, val, op).local_index,
        ),
{
    system::pes_agree(a, b, index as int);
    unsafe_array::element_has_place(a, index as int);
}

/// An operation that a PE does at once, on an element of its own, is done where the
/// element is: at the place of the element in the array as a whole.
pub proof fn own_operation_is_done_at_home<T>(
    mems: Seq<LocalMemory<T>>,
    p: int,
    index: usize,
)
    requires
        system::is_array(mems),
        0 <= p < mems.len(),
        index < mems[0].inner.size,
    ensures
        ({
            let a = LocalLockAtomicArray { array: mems[p] };
            &&& a.is_here(index) <==> system::home(mems, index as int) == p
            &&& a.is_here(index) ==> a.here(index) == system::place_at_home(mems, index as int)
                && mems[p].at(a.here(index)) == system::element(mems, index as int)
        }),
{
    let i = index as int;
    assert(mems[0].wf() && mems[p].wf());
    system::pes_agree(mems[0].inner, mems[p].inner, i);
    unsafe_array::element_has_place(mems[0].inner, i);
}

} // verus!
