//! The memory of one PE that holds elements of an array.

use vstd::prelude::*;
use vstd::std_specs::ops::*;

use crate::array::unsafe_array;
use crate::array::unsafe_array::UnsafeArrayInner;

verus! {

/// An array, or a part of it, and the memory in which this PE keeps its
/// elements of the whole array.
pub struct LocalMemory<T> {
    pub inner: UnsafeArrayInner,
    pub data: Vec<T>,
}

impl<T> LocalMemory<T> {
    pub open spec fn wf(self) -> bool {
        &&& self.inner.wf()
        &&& self.data@.len() == unsafe_array::per_pe_size(
            self.inner.blocks.len(),
            self.inner.num_pes as int,
        )
    }

    /// How many elements of this part live on this PE.
    pub open spec fn count(self) -> int {
        self.inner.count_on(self.inner.my_pe as int)
    }

    /// Where in the memory the element stands that has place `k` among this
    /// PE's elements of this part.
    pub open spec fn place(self, k: int) -> int {
        self.inner.window_start() + k
    }

    /// The element at place `k` among this PE's elements of this part.
    pub open spec fn at(self, k: int) -> T {
        self.data@[self.place(k)]
    }

    /// The same memory with another element at place `k`.
    pub open spec fn holds(self, before: Self, k: int, x: T) -> bool {
        &&& self.inner == before.inner
        &&& self.data@ == before.data@.update(before.place(k), x)
    }
}

impl<T: Copy> LocalMemory<T> {
    /// Reads an element of this PE's.
    pub fn load(&self, k: usize) -> (x: T)
        requires
            self.wf(),
            k < self.count(),
        ensures
            x == self.at(k as int),
            x == self.data@[self.inner.window_start() + k],
    {
        let w = self.inner.local_window();
        self.data[w.start + k]
    }

    /// Writes an element of this PE's.
    pub fn store(&mut self, k: usize, x: T)
        requires
            old(self).wf(),
            k < old(self).count(),
        ensures
            final(self).wf(),
            final(self).holds(*old(self), k as int, x),
            final(self).at(k as int) == x,
            final(self).inner == old(self).inner,
            final(self).data@ == old(self).data@.update(old(self).inner.window_start() + k, x),
            0 <= old(self).inner.window_start() + k < old(self).data@.len(),
    {
        let w = self.inner.local_window();
        self.data.set(w.start + k, x);
    }

    /// Writes an element of this PE's, and gives what it was.
    pub fn swap(&mut self, k: usize, x: T) -> (before: T)
        requires
            old(self).wf(),
            k < old(self).count(),
        ensures
            final(self).wf(),
            before == old(self).at(k as int),
            final(self).holds(*old(self), k as int, x),
            final(self).at(k as int) == x,
            final(self).inner == old(self).inner,
            final(self).data@ == old(self).data@.update(old(self).inner.window_start() + k, x),
            0 <= old(self).inner.window_start() + k < old(self).data@.len(),
    {
        let before = self.load(k);
        self.store(k, x);
        before
    }
}

impl<T: Copy + core::ops::Add<Output = T>> LocalMemory<T> {
    /// Replaces an element of this PE's by the sum of the two of it and a value, and gives
    /// what it was.
    pub fn fetch_add(&mut self, k: usize, val: T) -> (before: T)
        requires
            old(self).wf(),
            k < old(self).count(),
            old(self).at(k as int).add_req(val),
        ensures
            final(self).wf(),
            before == old(self).at(k as int),
            final(self).holds(*old(self), k as int, final(self).at(k as int)),
            before == old(self).data@[old(self).inner.window_start() + k],
            final(self).inner == old(self).inner,
            forall|i: int|
                0 <= i < old(self).data@.len() && i != old(self).inner.window_start() + k
                    ==> #[trigger] final(self).data@[i] == old(self).data@[i],
            T::obeys_add_spec() ==> final(self).at(k as int) == old(self).at(k as int).add_spec(val),
    {
        let before = self.load(k);
        self.store(k, before + val);
        before
    }
}

impl<T: Copy + core::ops::Sub<Output = T>> LocalMemory<T> {
    /// Replaces an element of this PE's by the difference of it and a value, and gives
    /// what it was.
    pub fn fetch_sub(&mut self, k: usize, val: T) -> (before: T)
        requires
            old(self).wf(),
            k < old(self).count(),
            old(self).at(k as int).sub_req(val),
        ensures
            final(self).wf(),
            before == old(self).at(k as int),
            final(self).holds(*old(self), k as int, final(self).at(k as int)),
            before == old(self).data@[old(self).inner.window_start() + k],
            final(self).inner == old(self).inner,
            forall|i: int|
                0 <= i < old(self).data@.len() && i != old(self).inner.window_start() + k
                    ==> #[trigger] final(self).data@[i] == old(self).data@[i],
            T::obeys_sub_spec() ==> final(self).at(k as int) == old(self).at(k as int).sub_spec(val),
    {
        let before = self.load(k);
        self.store(k, before - val);
        before
    }
}

impl<T: Copy + core::ops::Mul<Output = T>> LocalMemory<T> {
    /// Replaces an element of this PE's by the product of it and a value, and gives
    /// what it was.
    pub fn fetch_mul(&mut self, k: usize, val: T) -> (before: T)
        requires
            old(self).wf(),
            k < old(self).count(),
            old(self).at(k as int).mul_req(val),
        ensures
            final(self).wf(),
            before == old(self).at(k as int),
            final(self).holds(*old(self), k as int, final(self).at(k as int)),
            before == old(self).data@[old(self).inner.window_start() + k],
            final(self).inner == old(self).inner,
            forall|i: int|
                0 <= i < old(self).data@.len() && i != old(self).inner.window_start() + k
                    ==> #[trigger] final(self).data@[i] == old(self).data@[i],
            T::obeys_mul_spec() ==> final(self).at(k as int) == old(self).at(k as int).mul_spec(val),
    {
        let before = self.load(k);
        self.store(k, before * val);
        before
    }
}

impl<T: Copy + core::ops::Div<Output = T>> LocalMemory<T> {
    /// Replaces an element of this PE's by the quotient of it and a value, and gives
    /// what it was.
    pub fn fetch_div(&mut self, k: usize, val: T) -> (before: T)
        requires
            old(self).wf(),
            k < old(self).count(),
            old(self).at(k as int).div_req(val),
        ensures
            final(self).wf(),
            before == old(self).at(k as int),
            final(self).holds(*old(self), k as int, final(self).at(k as int)),
            before == old(self).data@[old(self).inner.window_start() + k],
            final(self).inner == old(self).inner,
            forall|i: int|
                0 <= i < old(self).data@.len() && i != old(self).inner.window_start() + k
                    ==> #[trigger] final(self).data@[i] == old(self).data@[i],
            T::obeys_div_spec() ==> final(self).at(k as int) == old(self).at(k as int).div_spec(val),
    {
        let before = self.load(k);
        self.store(k, before / val);
        before
    }
}

impl<T: Copy + core::ops::BitAnd<Output = T>> LocalMemory<T> {
    /// Replaces an element of this PE's by the bits of both of it and a value, and gives
    /// what it was.
    pub fn fetch_bit_and(&mut self, k: usize, val: T) -> (before: T)
        requires
            old(self).wf(),
            k < old(self).count(),
            old(self).at(k as int).bitand_req(val),
        ensures
            final(self).wf(),
            before == old(self).at(k as int),
            final(self).holds(*old(self), k as int, final(self).at(k as int)),
            before == old(self).data@[old(self).inner.window_start() + k],
            final(self).inner == old(self).inner,
            forall|i: int|
                0 <= i < old(self).data@.len() && i != old(self).inner.window_start() + k
                    ==> #[trigger] final(self).data@[i] == old(self).data@[i],
            T::obeys_bitand_spec() ==> final(self).at(k as int) == old(self).at(k as int).bitand_spec(val),
    {
        let before = self.load(k);
        self.store(k, before & val);
        before
    }
}

impl<T: Copy + core::ops::BitOr<Output = T>> LocalMemory<T> {
    /// Replaces an element of this PE's by the bits of either of it and a value, and gives
    /// what it was.
    pub fn fetch_bit_or(&mut self, k: usize, val: T) -> (before: T)
        requires
            old(self).wf(),
            k < old(self).count(),
            old(self).at(k as int).bitor_req(val),
        ensures
            final(self).wf(),
            before == old(self).at(k as int),
            final(self).holds(*old(self), k as int, final(self).at(k as int)),
            before == old(self).data@[old(self).inner.window_start() + k],
            final(self).inner == old(self).inner,
            forall|i: int|
                0 <= i < old(self).data@.len() && i != old(self).inner.window_start() + k
                    ==> #[trigger] final(self).data@[i] == old(self).data@[i],
            T::obeys_bitor_spec() ==> final(self).at(k as int) == old(self).at(k as int).bitor_spec(val),
    {
        let before = self.load(k);
        self.store(k, before | val);
        before
    }
}

/// An element that was written is read back, and no other element of this PE's
/// changes.
pub proof fn store_then_load<T>(
    before: LocalMemory<T>,
    after: LocalMemory<T>,
    k: int,
    j: int,
    x: T,
)
    requires
        before.wf(),
        0 <= k < before.count(),
        0 <= j < before.count(),
        after.holds(before, k, x),
    ensures
        after.at(j) == if j == k {
            x
        } else {
            before.at(j)
        },
{
    unsafe_array::place_has_element(before.inner, k);
    unsafe_array::place_has_element(before.inner, j);
    unsafe_array::window_is_in_memory(before.inner);
}

} // verus!
