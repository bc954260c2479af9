//! Arrays in which every element has a lock of its own.

use vstd::prelude::*;
use vstd::std_specs::ops::*;

use crate::array::buffered_operations::OpCounters;
use crate::array::local_memory::LocalMemory;
use crate::array::unsafe_array;
use crate::array::unsafe_array::{RangeBound, UnsafeArrayInner};
use crate::array::{wait_all, Distribution, WaitStep, REPORT_AFTER_NANOS};
use crate::barrier::{Barrier, Progress};

verus! {

/// An array in which every element has a lock of its own. The locks of this PE
/// are numbered.
pub struct GenericAtomicArray<T> {
    pub num_locks: usize,
    pub array: LocalMemory<T>,
}

/// One of this PE's elements, by its place among them.
#[derive(Clone, Copy, Debug, PartialEq, Eq, Structural)]
pub struct GenericAtomicElement {
    pub local_index: usize,
}

/// A range of this PE's elements.
#[derive(Clone, Copy, Debug, PartialEq, Eq, Structural)]
pub struct GenericAtomicLocalData {
    pub start_index: usize,
    pub end_index: usize,
}

/// Goes through a range of this PE's elements.
#[derive(Clone, Copy, Debug, PartialEq, Eq, Structural)]
pub struct GenericAtomicLocalDataIter {
    pub index: usize,
    pub end_index: usize,
}

impl<T> GenericAtomicArray<T> {
    pub open spec fn wf(self) -> bool {
        self.array.wf()
    }

    /// Whether the element at a place among this PE's has a lock.
    pub open spec fn has_lock(self, index: int) -> bool {
        &&& 0 <= index < self.array.count()
        &&& self.array.place(index) < self.num_locks
    }

    /// Gives every element of this PE's a lock.
    pub fn new(array: LocalMemory<T>) -> (r: GenericAtomicArray<T>)
        requires
            array.wf(),
        ensures
            r.wf(),
            r.array == array,
            r.num_locks == array.count(),
    {
        let num_locks: usize = array.inner.num_elems_local();
        GenericAtomicArray { num_locks, array }
    }

    /// The number of the lock of an element of this PE's.
    pub fn lock_index(&self, index: usize) -> (lock: usize)
        requires
            self.wf(),
            self.has_lock(index as int),
            self.array.inner.blocks.len() + index <= usize::MAX,
        ensures
            lock == self.array.place(index as int),
            lock < self.num_locks,
            lock == self.array.inner.window_start() + index,
    {
        proof {
            unsafe_array::place_has_element(self.array.inner, index as int);
            unsafe_array::window_is_in_memory(self.array.inner);
        }
        match self.array.inner.pe_full_offset_for_local_index(self.array.inner.my_pe, index) {
            Some(lock) => lock,
            None => 0,
        }
    }

    /// What to do next while waiting for what this PE has asked of others.
    pub fn wait_all(&self, counters: &OpCounters, waited_nanos: u128) -> (r: WaitStep)
        ensures
            r == (if counters.outstanding_reqs == 0 && counters.req_cnt == 0 {
                WaitStep::Done
            } else if waited_nanos > REPORT_AFTER_NANOS {
                WaitStep::WorkAndReport
            } else {
                WaitStep::Work
            }),
    {
        wait_all(counters.outstanding_reqs, counters.req_cnt, waited_nanos)
    }

    /// Enters the barrier of the array's team.
    pub fn barrier(&self, part: &mut Barrier, panicked: bool) -> (r: Option<Progress>)
        requires
            old(part).wf(),
            old(part).barrier_cnt < usize::MAX,
        ensures
            final(part).wf(),
            old(part).entered(*final(part), panicked, r),
            r is Some <==> !panicked && old(part).my_index is Some,
            r matches Some(at) ==> at.id == old(part).barrier_cnt && at.round == 0 && !at.sent
                && final(part).barrier_cnt == old(part).barrier_cnt + 1,
            r is None ==> *final(part) == *old(part),
    {
        part.enter(panicked)
    }

    /// How many of the elements live on this PE.
    pub fn num_elems_local(&self) -> (n: usize)
        requires
            self.wf(),
        ensures
            n == self.array.count(),
    {
        self.array.inner.num_elems_local()
    }

    /// How many PEs have elements of the array.
    pub fn num_pes(&self) -> (n: usize)
        ensures
            n == self.array.inner.num_pes,
    {
        self.array.inner.num_pes
    }

    /// How many elements there are.
    pub fn len(&self) -> (n: usize)
        ensures
            n == self.array.inner.size,
    {
        self.array.inner.size
    }

    /// The PE on which an element lives; none if there is no such element.
    pub fn pe_for_dist_index(&self, index: usize) -> (r: Option<usize>)
        requires
            self.wf(),
        ensures
            r == self.array.inner.pe_for(index as int),
            r is Some <==> index < self.array.inner.size,
            r matches Some(pe) ==> match self.array.inner.distribution {
                Distribution::Block => self.array.inner.blocks@[pe as int]
                    <= self.array.inner.offset + index < self.array.inner.blocks@[pe + 1],
                Distribution::Cyclic => pe == (self.array.inner.offset + index)
                    % self.array.inner.num_pes as int,
            },
    {
        self.array.inner.pe_for_dist_index(index)
    }

    /// At which place among a PE's elements an element stands; none if the
    /// element does not live on the PE.
    pub fn pe_offset_for_dist_index(&self, pe: usize, index: usize) -> (r: Option<usize>)
        requires
            self.wf(),
            self.array.inner.offset + index <= usize::MAX,
        ensures
            r == self.array.inner.offset_on(pe as int, index as int),
    {
        self.array.inner.pe_offset_for_dist_index(pe, index)
    }

    /// The same elements and locks, addressed as if the elements were
    /// distributed another way.
    pub fn use_distribution(self, distribution: Distribution) -> (r: Self)
        requires
            self.wf(),
        ensures
            r.wf(),
            r.num_locks == self.num_locks,
            r.array.data == self.array.data,
            r.array.inner == (UnsafeArrayInner { distribution, ..self.array.inner }),
    {
        GenericAtomicArray {
            num_locks: self.num_locks,
            array: LocalMemory {
                inner: self.array.inner.use_distribution(distribution),
                data: self.array.data,
            },
        }
    }

    /// The part that a range of indices covers, with the same locks.
    pub fn sub_array(self, start: RangeBound, end: RangeBound) -> (r: Self)
        requires
            self.wf(),
            unsafe_array::range_end(end, self.array.inner.size as int) <= self.array.inner.size,
            unsafe_array::range_start(start) <= unsafe_array::range_end(
                end,
                self.array.inner.size as int,
            ),
        ensures
            r.wf(),
            r.num_locks == self.num_locks,
            r.array.data == self.array.data,
            r.array.inner == self.array.inner.sub(
                unsafe_array::range_start(start),
                unsafe_array::range_end(end, self.array.inner.size as int),
            ),
            r.array.inner.offset == self.array.inner.offset + (match start {
                RangeBound::Included(first) => first as int,
                RangeBound::Excluded(before) => before + 1,
                RangeBound::Unbounded => 0,
            }),
            r.array.inner.offset + r.array.inner.size == self.array.inner.offset + (match end {
                RangeBound::Included(last) => last + 1,
                RangeBound::Excluded(behind) => behind as int,
                RangeBound::Unbounded => self.array.inner.size as int,
            }),
    {
        GenericAtomicArray {
            num_locks: self.num_locks,
            array: LocalMemory {
                inner: self.array.inner.sub_array(start, end),
                data: self.array.data,
            },
        }
    }

    /// All of this PE's elements.
    pub fn local_data(&self) -> (r: GenericAtomicLocalData)
        requires
            self.wf(),
        ensures
            r.start_index == 0,
            r.end_index == self.array.count(),
    {
        GenericAtomicLocalData { start_index: 0, end_index: self.array.inner.num_elems_local() }
    }

    /// All of this PE's elements.
    pub fn mut_local_data(&self) -> (r: GenericAtomicLocalData)
        requires
            self.wf(),
        ensures
            r.start_index == 0,
            r.end_index == self.array.count(),
    {
        self.local_data()
    }

    /// One of this PE's elements.
    pub fn get_element(&self, index: usize) -> (r: GenericAtomicElement)
        ensures
            r.local_index == index,
    {
        GenericAtomicElement { local_index: index }
    }
}

impl GenericAtomicLocalData {
    /// An element, by its place among this PE's.
    pub fn at(&self, index: usize) -> (r: GenericAtomicElement)
        ensures
            r.local_index == index,
    {
        GenericAtomicElement { local_index: index }
    }

    /// An element, by its place among this PE's.
    pub fn get_mut(&self, index: usize) -> (r: Option<GenericAtomicElement>)
        ensures
            r == Some(GenericAtomicElement { local_index: index }),
    {
        Some(GenericAtomicElement { local_index: index })
    }

    /// How many elements this PE has, of the whole range or not.
    pub fn len<T>(&self, array: &GenericAtomicArray<T>) -> (n: usize)
        requires
            array.wf(),
        ensures
            n == array.array.count(),
    {
        array.array.inner.num_elems_local()
    }

    /// Goes through the range.
    pub fn iter(&self) -> (r: GenericAtomicLocalDataIter)
        ensures
            r.index == self.start_index,
            r.end_index == self.end_index,
    {
        GenericAtomicLocalDataIter { index: self.start_index, end_index: self.end_index }
    }

    /// Another range of this PE's elements, which ends at the last of them at
    /// most.
    pub fn sub_data<T>(
        &self,
        array: &GenericAtomicArray<T>,
        start_index: usize,
        end_index: usize,
    ) -> (r: GenericAtomicLocalData)
        requires
            array.wf(),
        ensures
            r.start_index == start_index,
            r.end_index == (if end_index < array.array.count() {
                end_index as int
            } else {
                array.array.count()
            }),
    {
        let n: usize = array.array.inner.num_elems_local();
        GenericAtomicLocalData {
            start_index,
            end_index: if end_index < n {
                end_index
            } else {
                n
            },
        }
    }
}

impl GenericAtomicLocalDataIter {
    /// The elements that are still to come.
    pub open spec fn rest(self) -> Seq<GenericAtomicElement> {
        Seq::new(
            if self.index < self.end_index {
                (self.end_index - self.index) as nat
            } else {
                0
            },
            |k: int| GenericAtomicElement { local_index: (self.index + k) as usize },
        )
    }

    /// The next element; none behind the last.
    pub fn next_element(&mut self) -> (r: Option<GenericAtomicElement>)
        ensures
            r == (if old(self).rest().len() > 0 {
                Some(old(self).rest()[0])
            } else {
                None::<GenericAtomicElement>
            }),
            old(self).rest().len() > 0 ==> final(self).rest() == old(self).rest().drop_first(),
            old(self).rest().len() == 0 ==> *final(self) == *old(self),
            old(self).index < old(self).end_index ==> r == Some(
                GenericAtomicElement { local_index: old(self).index },
            ) && final(self).index == old(self).index + 1,
            old(self).index >= old(self).end_index ==> r is None && *final(self) == *old(self),
            final(self).end_index == old(self).end_index,
    {
        if self.index < self.end_index {
            let index: usize = self.index;
            self.index = self.index + 1;
            assert(self.rest() =~= old(self).rest().drop_first());
            Some(GenericAtomicElement { local_index: index })
        } else {
            None
        }
    }
}

impl GenericAtomicElement {
    /// Reads the element, while its lock is held.
    pub fn load<T: Copy>(&self, array: &GenericAtomicArray<T>) -> (x: T)
        requires
            array.wf(),
            self.local_index < array.array.count(),
        ensures
            x == array.array.at(self.local_index as int),
    {
        array.array.load(self.local_index)
    }

    /// Writes the element, while its lock is held.
    pub fn store<T: Copy>(&self, array: &mut GenericAtomicArray<T>, val: T)
        requires
            old(array).wf(),
            self.local_index < old(array).array.count(),
        ensures
            final(array).wf(),
            final(array).num_locks == old(array).num_locks,
            final(array).array.holds(old(array).array, self.local_index as int, val),
    {
        array.array.store(self.local_index, val);
    }

    /// Adds a value to the element, while its lock is held.
    pub fn add_assign<T: Copy + core::ops::Add<Output = T>>(
        &self,
        array: &mut GenericAtomicArray<T>,
        val: T,
    )
        requires
            old(array).wf(),
            self.local_index < old(array).array.count(),
            old(array).array.at(self.local_index as int).add_req(val),
        ensures
            final(array).wf(),
            final(array).num_locks == old(array).num_locks,
            final(array).array.holds(
                old(array).array,
                self.local_index as int,
                final(array).array.at(self.local_index as int),
            ),
            T::obeys_add_spec() ==> final(array).array.at(self.local_index as int) == old(
                array,
            ).array.at(self.local_index as int).add_spec(val),
    {
        array.array.fetch_add(self.local_index, val);
    }

    /// Subtracts a value from the element, while its lock is held.
    pub fn sub_assign<T: Copy + core::ops::Sub<Output = T>>(
        &self,
        array: &mut GenericAtomicArray<T>,
        val: T,
    )
        requires
            old(array).wf(),
            self.local_index < old(array).array.count(),
            old(array).array.at(self.local_index as int).sub_req(val),
        ensures
            final(array).wf(),
            final(array).num_locks == old(array).num_locks,
            final(array).array.holds(
                old(array).array,
                self.local_index as int,
                final(array).array.at(self.local_index as int),
            ),
            T::obeys_sub_spec() ==> final(array).array.at(self.local_index as int) == old(
                array,
            ).array.at(self.local_index as int).sub_spec(val),
    {
        array.array.fetch_sub(self.local_index, val);
    }

    /// Multiplies the element by a value, while its lock is held.
    pub fn mul_assign<T: Copy + core::ops::Mul<Output = T>>(
        &self,
        array: &mut GenericAtomicArray<T>,
        val: T,
    )
        requires
            old(array).wf(),
            self.local_index < old(array).array.count(),
            old(array).array.at(self.local_index as int).mul_req(val),
        ensures
            final(array).wf(),
            final(array).num_locks == old(array).num_locks,
            final(array).array.holds(
                old(array).array,
                self.local_index as int,
                final(array).array.at(self.local_index as int),
            ),
            T::obeys_mul_spec() ==> final(array).array.at(self.local_index as int) == old(
                array,
            ).array.at(self.local_index as int).mul_spec(val),
    {
        array.array.fetch_mul(self.local_index, val);
    }

    /// Divides the element by a value, while its lock is held.
    pub fn div_assign<T: Copy + core::ops::Div<Output = T>>(
        &self,
        array: &mut GenericAtomicArray<T>,
        val: T,
    )
        requires
            old(array).wf(),
            self.local_index < old(array).array.count(),
            old(array).array.at(self.local_index as int).div_req(val),
        ensures
            final(array).wf(),
            final(array).num_locks == old(array).num_locks,
            final(array).array.holds(
                old(array).array,
                self.local_index as int,
                final(array).array.at(self.local_index as int),
            ),
            T::obeys_div_spec() ==> final(array).array.at(self.local_index as int) == old(
                array,
            ).array.at(self.local_index as int).div_spec(val),
    {
        array.array.fetch_div(self.local_index, val);
    }

    /// Keeps the bits of the element that a value has, while its lock is held.
    pub fn bitand_assign<T: Copy + core::ops::BitAnd<Output = T>>(
        &self,
        array: &mut GenericAtomicArray<T>,
        val: T,
    )
        requires
            old(array).wf(),
            self.local_index < old(array).array.count(),
            old(array).array.at(self.local_index as int).bitand_req(val),
        ensures
            final(array).wf(),
            final(array).num_locks == old(array).num_locks,
            final(array).array.holds(
                old(array).array,
                self.local_index as int,
                final(array).array.at(self.local_index as int),
            ),
            T::obeys_bitand_spec() ==> final(array).array.at(self.local_index as int) == old(
                array,
            ).array.at(self.local_index as int).bitand_spec(val),
    {
        array.array.fetch_bit_and(self.local_index, val);
    }

    /// Sets the bits of the element that a value has, while its lock is held.
    pub fn bitor_assign<T: Copy + core::ops::BitOr<Output = T>>(
        &self,
        array: &mut GenericAtomicArray<T>,
        val: T,
    )
        requires
            old(array).wf(),
            self.local_index < old(array).array.count(),
            old(array).array.at(self.local_index as int).bitor_req(val),
        ensures
            final(array).wf(),
            final(array).num_locks == old(array).num_locks,
            final(array).array.holds(
                old(array).array,
                self.local_index as int,
                final(array).array.at(self.local_index as int),
            ),
            T::obeys_bitor_spec() ==> final(array).array.at(self.local_index as int) == old(
                array,
            ).array.at(self.local_index as int).bitor_spec(val),
    {
        array.array.fetch_bit_or(self.local_index, val);
    }
}

/// The lock of an element depends on the element alone: through whatever part of
/// an array a PE addresses it, it is the same lock, and the locks of different
/// elements differ.
pub proof fn locks_belong_to_elements(
    a: UnsafeArrayInner,
    b: UnsafeArrayInner,
    j: int,
    k: int,
)
    requires
        a.wf(),
        b.wf(),
        a.same_array(b),
        a.blocks == b.blocks,
        0 <= j < a.count_on(a.my_pe as int),
        0 <= k < b.count_on(b.my_pe as int),
    ensures
        a.window_start() + j == b.window_start() + k <==> a.global_from_local(j)
            == b.global_from_local(k),
{
    unsafe_array::place_has_element(a, j);
    unsafe_array::place_has_element(b, k);
    let g = (a.global_from_local(j)->0) as int;
    let h = (b.global_from_local(k)->0) as int;
    if a.window_start() + j == b.window_start() + k {
        assert(a.full_offset(h) == b.full_offset(h));
        assert(a.owner(h) == b.owner(h));
        unsafe_array::places_are_distinct(a, g, h);
    }
}

/// If the locks were made for a whole array, every element of every part of it
/// has one.
pub proof fn every_element_has_a_lock<T>(
    whole: GenericAtomicArray<T>,
    part: GenericAtomicArray<T>,
    k: int,
)
    requires
        whole.wf(),
        part.wf(),
        whole.array.inner.offset == 0,
        whole.array.inner.size == whole.array.inner.blocks.len(),
        whole.num_locks == whole.array.count(),
        part.num_locks == whole.num_locks,
        part.array.inner.same_array(whole.array.inner),
        part.array.inner.blocks == whole.array.inner.blocks,
        0 <= k < part.array.count(),
    ensures
        part.has_lock(k),
{
    let a = whole.array.inner;
    let b = part.array.inner;
    unsafe_array::place_has_element(b, k);
    let g = (b.global_from_local(k)->0) as int;
    assert(a.owner(g) == b.owner(g));
    unsafe_array::element_has_place(a, g);
    unsafe_array::place_leads_back(a, g);
    let j = (a.offset_on(a.my_pe as int, g)->0) as int;
    unsafe_array::place_has_element(a, j);
    assert(a.full_offset(g) == b.full_offset(g));
    unsafe_array::whole_starts_at_zero(a);
}

} // verus!
