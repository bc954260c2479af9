//! Memory that all members of a team have allocated, and parts of it.

use core::marker::PhantomData;
use vstd::arithmetic::div_mod::*;
use vstd::layout;
use vstd::prelude::*;

use crate::array::unsafe_array;
use crate::array::unsafe_array::RangeBound;
use crate::lamellae::AllocationType;
use crate::memregion;
use crate::memregion::{
    MemNotLocalError, MemResult, MemoryRegion, Mode, RegionError, RegionPlan, RegisteredMemoryRegion,
    Span, Transfer,
};

verus! {

/// A part of memory that all members of a team have allocated.
pub struct SharedMemoryRegion<T> {
    pub mr: MemoryRegion<u8>,
    pub sub_region_offset: usize,
    pub sub_region_size: usize,
    pub phantom: PhantomData<T>,
}

impl<T> SharedMemoryRegion<T> {
    pub open spec fn wf(self) -> bool {
        &&& self.mr.wf()
        &&& 0 < layout::size_of::<T>() <= usize::MAX
        &&& (self.sub_region_offset + self.sub_region_size) * layout::size_of::<T>()
            <= self.mr.num_bytes
    }

    /// Plans a region of `size` elements. There is none without elements.
    pub fn try_new(size: usize, alloc: &AllocationType) -> (r: Result<RegionPlan, RegionError>)
        requires
            size * layout::size_of::<T>() <= usize::MAX,
            0 < layout::size_of::<T>(),
        ensures
            match r {
                Ok(plan) => size > 0 && plan.num_bytes == size * layout::size_of::<T>() && plan.size
                    == plan.num_bytes && plan.mode == (if alloc is Local {
                    Mode::Local
                } else {
                    Mode::Shared
                }),
                Err(e) => size == 0 && e == RegionError::Empty,
            },
    {
        let bytes: usize = size * core::mem::size_of::<T>();
        proof {
            broadcast use layout::layout_of_primitives;

            assert(size == 0 <==> bytes == 0) by (nonlinear_arith)
                requires
                    bytes == size * layout::size_of::<T>(),
                    layout::size_of::<T>() > 0,
                    size >= 0,
            ;
        }
        MemoryRegion::<u8>::try_new(bytes, alloc)
    }

    /// All of a region's memory as `size` elements.
    pub fn whole(mr: MemoryRegion<u8>, size: usize) -> (r: SharedMemoryRegion<T>)
        requires
            mr.wf(),
            0 < layout::size_of::<T>() <= usize::MAX,
            mr.num_bytes == size * layout::size_of::<T>(),
        ensures
            r.wf(),
            r.mr == mr,
            r.sub_region_offset == 0,
            r.sub_region_size == size,
    {
        proof {
            broadcast use layout::layout_of_primitives;
            lemma_mod_multiples_basic(size as int, layout::size_of::<T>() as int);
        }
        SharedMemoryRegion {
            mr,
            sub_region_offset: 0,
            sub_region_size: size,
            phantom: PhantomData,
        }
    }

    /// The part of this part that a range of indices covers. The range may not
    /// go beyond this part.
    pub fn sub_region(self, start: RangeBound, end: RangeBound) -> (r: SharedMemoryRegion<T>)
        requires
            self.wf(),
            unsafe_array::range_end(end, self.sub_region_size as int) <= self.sub_region_size,
            unsafe_array::range_start(start) <= unsafe_array::range_end(
                end,
                self.sub_region_size as int,
            ),
        ensures
            r.wf(),
            r.mr == self.mr,
            r.sub_region_offset == self.sub_region_offset + unsafe_array::range_start(start),
            r.sub_region_size == unsafe_array::range_end(end, self.sub_region_size as int)
                - unsafe_array::range_start(start),
            r.sub_region_offset == self.sub_region_offset + (match start {
                RangeBound::Included(first) => first as int,
                RangeBound::Excluded(before) => before + 1,
                RangeBound::Unbounded => 0,
            }),
            r.sub_region_offset + r.sub_region_size == self.sub_region_offset + (match end {
                RangeBound::Included(last) => last + 1,
                RangeBound::Excluded(behind) => behind as int,
                RangeBound::Unbounded => self.sub_region_size as int,
            }),
    {
        let first: usize = match start {
            RangeBound::Included(i) => i,
            RangeBound::Excluded(i) => i + 1,
            RangeBound::Unbounded => 0,
        };
        let behind: usize = match end {
            RangeBound::Included(i) => i + 1,
            RangeBound::Excluded(i) => i,
            RangeBound::Unbounded => self.sub_region_size,
        };
        proof {
            let elem = layout::size_of::<T>();
            let o = self.sub_region_offset;
            let s = self.sub_region_size;
            assert(o + s <= (o + s) * elem && (o + behind) * elem <= (o + s) * elem)
                by (nonlinear_arith)
                requires
                    0 <= o,
                    0 <= behind <= s,
                    elem >= 1,
            ;
        }
        SharedMemoryRegion {
            mr: self.mr,
            sub_region_offset: self.sub_region_offset + first,
            sub_region_size: behind - first,
            phantom: PhantomData,
        }
    }

    /// The same bytes as elements of another type, as far as they make whole
    /// elements.
    pub fn to_base<B>(self) -> (r: SharedMemoryRegion<B>)
        requires
            self.wf(),
            0 < layout::size_of::<B>() <= usize::MAX,
        ensures
            r.wf(),
            r.mr == self.mr,
            r.sub_region_offset == (self.sub_region_offset * layout::size_of::<T>())
                / layout::size_of::<B>() as int,
            r.sub_region_size == (self.sub_region_size * layout::size_of::<T>())
                / layout::size_of::<B>() as int,
            (self.sub_region_offset * layout::size_of::<T>()) % layout::size_of::<B>() as int == 0
                ==> r.spec_addr() == self.spec_addr(),
            (self.sub_region_size * layout::size_of::<T>()) % layout::size_of::<B>() as int == 0
                ==> r.sub_region_size * layout::size_of::<B>() == self.sub_region_size
                * layout::size_of::<T>(),
    {
        let elem: usize = core::mem::size_of::<T>();
        let base: usize = core::mem::size_of::<B>();
        proof {
            assert(self.sub_region_offset * elem + self.sub_region_size * elem == (
            self.sub_region_offset + self.sub_region_size) * elem && self.sub_region_offset * elem
                >= 0 && self.sub_region_size * elem >= 0) by (nonlinear_arith)
                requires
                    self.sub_region_offset >= 0,
                    self.sub_region_size >= 0,
                    elem >= 0,
            ;
        }
        let u8_offset: usize = self.sub_region_offset * elem;
        let u8_size: usize = self.sub_region_size * elem;
        proof {
            let a = u8_offset as int;
            let b = u8_size as int;
            let c = base as int;
            lemma_fundamental_div_mod(a, c);
            lemma_fundamental_div_mod(b, c);
            lemma_mod_bound(a, c);
            lemma_mod_bound(b, c);
            assert((a / c) * c == c * (a / c) && (b / c) * c == c * (b / c)) by (nonlinear_arith);
            assert((a / c + b / c) * c <= a + b) by (nonlinear_arith)
                requires
                    a == c * (a / c) + a % c,
                    b == c * (b / c) + b % c,
                    a % c >= 0,
                    b % c >= 0,
            ;
        }
        SharedMemoryRegion {
            mr: self.mr,
            sub_region_offset: u8_offset / base,
            sub_region_size: u8_size / base,
            phantom: PhantomData,
        }
    }

    /// Copies `len` elements to another PE's memory, from `index` of this part on.
    /// The limit is the whole memory.
    pub fn put(&self, pe: usize, index: usize, data_addr: usize, len: usize) -> (r: Transfer)
        requires
            self.wf(),
            self.sub_region_offset + index <= usize::MAX,
            memregion::fits::<T>(
                self.sub_region_offset + index,
                len as int,
                self.mr.num_bytes as int,
            ),
        ensures
            r == self.mr.transfer::<T>(
                Some(pe),
                (self.sub_region_offset + index) as usize,
                data_addr,
                len,
            ),
            self.mr.addr <= r.region_addr,
            r.region_addr + r.num_bytes <= self.mr.addr + self.mr.num_bytes,
            r.pe == Some(pe),
            r.region_addr == self.mr.addr + (self.sub_region_offset + index) * layout::size_of::<T>(),
            r.data_addr == data_addr,
            r.num_bytes == len * layout::size_of::<T>(),
    {
        self.mr.put::<T>(pe, self.sub_region_offset + index, data_addr, len)
    }

    /// Copies `len` elements to another PE's memory, from `index` of this part on,
    /// and waits for it.
    /// The limit is the whole memory.
    pub fn iput(&self, pe: usize, index: usize, data_addr: usize, len: usize) -> (r: Transfer)
        requires
            self.wf(),
            self.sub_region_offset + index <= usize::MAX,
            memregion::fits::<T>(
                self.sub_region_offset + index,
                len as int,
                self.mr.num_bytes as int,
            ),
        ensures
            r == self.mr.transfer::<T>(
                Some(pe),
                (self.sub_region_offset + index) as usize,
                data_addr,
                len,
            ),
            self.mr.addr <= r.region_addr,
            r.region_addr + r.num_bytes <= self.mr.addr + self.mr.num_bytes,
            r.pe == Some(pe),
            r.region_addr == self.mr.addr + (self.sub_region_offset + index) * layout::size_of::<T>(),
            r.data_addr == data_addr,
            r.num_bytes == len * layout::size_of::<T>(),
    {
        self.mr.blocking_put::<T>(pe, self.sub_region_offset + index, data_addr, len)
    }

    /// Copies `len` elements to every PE's memory, from `index` of this part on.
    /// The limit is the whole memory.
    pub fn put_all(&self, index: usize, data_addr: usize, len: usize) -> (r: Transfer)
        requires
            self.wf(),
            self.sub_region_offset + index <= usize::MAX,
            memregion::fits::<T>(
                self.sub_region_offset + index,
                len as int,
                self.mr.num_bytes as int,
            ),
        ensures
            r == self.mr.transfer::<T>(
                None::<usize>,
                (self.sub_region_offset + index) as usize,
                data_addr,
                len,
            ),
            self.mr.addr <= r.region_addr,
            r.region_addr + r.num_bytes <= self.mr.addr + self.mr.num_bytes,
            r.pe == None::<usize>,
            r.region_addr == self.mr.addr + (self.sub_region_offset + index) * layout::size_of::<T>(),
            r.data_addr == data_addr,
            r.num_bytes == len * layout::size_of::<T>(),
    {
        self.mr.put_all::<T>(self.sub_region_offset + index, data_addr, len)
    }

    /// Copies `len` elements from another PE's memory, from `index` of this part
    /// on.
    /// The limit is the whole memory.
    pub fn get_unchecked(&self, pe: usize, index: usize, data_addr: usize, len: usize) -> (r: Transfer)
        requires
            self.wf(),
            self.sub_region_offset + index <= usize::MAX,
            memregion::fits::<T>(
                self.sub_region_offset + index,
                len as int,
                self.mr.num_bytes as int,
            ),
        ensures
            r == self.mr.transfer::<T>(
                Some(pe),
                (self.sub_region_offset + index) as usize,
                data_addr,
                len,
            ),
            self.mr.addr <= r.region_addr,
            r.region_addr + r.num_bytes <= self.mr.addr + self.mr.num_bytes,
            r.pe == Some(pe),
            r.region_addr == self.mr.addr + (self.sub_region_offset + index) * layout::size_of::<T>(),
            r.data_addr == data_addr,
            r.num_bytes == len * layout::size_of::<T>(),
    {
        self.mr.get_unchecked::<T>(pe, self.sub_region_offset + index, data_addr, len)
    }

    /// Copies `len` elements from another PE's memory, from `index` of this part
    /// on, and waits for them.
    /// The limit is the whole memory.
    pub fn iget(&self, pe: usize, index: usize, data_addr: usize, len: usize) -> (r: Transfer)
        requires
            self.wf(),
            self.sub_region_offset + index <= usize::MAX,
            memregion::fits::<T>(
                self.sub_region_offset + index,
                len as int,
                self.mr.num_bytes as int,
            ),
        ensures
            r == self.mr.transfer::<T>(
                Some(pe),
                (self.sub_region_offset + index) as usize,
                data_addr,
                len,
            ),
            self.mr.addr <= r.region_addr,
            r.region_addr + r.num_bytes <= self.mr.addr + self.mr.num_bytes,
            r.pe == Some(pe),
            r.region_addr == self.mr.addr + (self.sub_region_offset + index) * layout::size_of::<T>(),
            r.data_addr == data_addr,
            r.num_bytes == len * layout::size_of::<T>(),
    {
        self.mr.blocking_get::<T>(pe, self.sub_region_offset + index, data_addr, len)
    }

    /// Copies a slice of `len` elements to another PE's memory, from `index` of this
    /// part on.
    /// The limit is the whole memory.
    pub fn put_slice(&self, pe: usize, index: usize, data_addr: usize, len: usize) -> (r: Transfer)
        requires
            self.wf(),
            self.sub_region_offset + index <= usize::MAX,
            memregion::fits::<T>(
                self.sub_region_offset + index,
                len as int,
                self.mr.num_bytes as int,
            ),
        ensures
            r == self.mr.transfer::<T>(
                Some(pe),
                (self.sub_region_offset + index) as usize,
                data_addr,
                len,
            ),
            self.mr.addr <= r.region_addr,
            r.region_addr + r.num_bytes <= self.mr.addr + self.mr.num_bytes,
            r.pe == Some(pe),
            r.region_addr == self.mr.addr + (self.sub_region_offset + index) * layout::size_of::<T>(),
            r.data_addr == data_addr,
            r.num_bytes == len * layout::size_of::<T>(),
    {
        self.mr.put_slice::<T>(pe, self.sub_region_offset + index, data_addr, len)
    }

    /// Copies elements from another PE's memory, from `index` of this part on, into a
    /// slice of `len`, and waits for them.
    /// The limit is the whole memory.
    pub fn iget_slice(&self, pe: usize, index: usize, data_addr: usize, len: usize) -> (r: Transfer)
        requires
            self.wf(),
            self.sub_region_offset + index <= usize::MAX,
            memregion::fits::<T>(
                self.sub_region_offset + index,
                len as int,
                self.mr.num_bytes as int,
            ),
        ensures
            r == self.mr.transfer::<T>(
                Some(pe),
                (self.sub_region_offset + index) as usize,
                data_addr,
                len,
            ),
            self.mr.addr <= r.region_addr,
            r.region_addr + r.num_bytes <= self.mr.addr + self.mr.num_bytes,
            r.pe == Some(pe),
            r.region_addr == self.mr.addr + (self.sub_region_offset + index) * layout::size_of::<T>(),
            r.data_addr == data_addr,
            r.num_bytes == len * layout::size_of::<T>(),
    {
        self.mr.blocking_get_slice::<T>(pe, self.sub_region_offset + index, data_addr, len)
    }

    /// What tells regions apart: parts of one region have the same.
    pub fn id(&self) -> (r: usize)
        ensures
            r == self.mr.addr,
    {
        self.mr.id()
    }
}

impl<T> RegisteredMemoryRegion<T> for SharedMemoryRegion<T> {
    open spec fn region_wf(&self) -> bool {
        self.wf()
    }

    open spec fn divides(&self) -> bool {
        self.mr.addr != 0 ==> self.mr.num_bytes as int % layout::size_of::<T>() as int == 0
    }

    open spec fn spec_len(&self) -> int {
        self.sub_region_size as int
    }

    open spec fn spec_addr(&self) -> int {
        self.mr.addr + self.sub_region_offset * layout::size_of::<T>()
    }

    open spec fn is_local(&self) -> bool {
        self.mr.addr != 0
    }

    open spec fn spec_at(&self, index: int) -> Option<int> {
        if self.mr.addr != 0 && 0 <= index < self.spec_len() {
            Some(self.spec_addr() + index * layout::size_of::<T>())
        } else {
            None
        }
    }

    fn len(&self) -> (n: usize)
        ensures
            n == self.sub_region_size,
    {
        self.sub_region_size
    }

    fn addr(&self) -> (r: MemResult<usize>)
        ensures
            r matches Ok(a) && a == self.mr.addr + self.sub_region_offset * layout::size_of::<T>(),
    {
        let elem: usize = core::mem::size_of::<T>();
        proof {
            assert(0 <= self.sub_region_offset * elem <= (self.sub_region_offset
                + self.sub_region_size) * elem) by (nonlinear_arith)
                requires
                    self.sub_region_offset >= 0,
                    self.sub_region_size >= 0,
                    elem >= 0,
            ;
        }
        match self.mr.addr() {
            Ok(addr) => Ok(addr + self.sub_region_offset * elem),
            Err(e) => Err(e),
        }
    }

    fn at(&self, index: usize) -> (r: MemResult<usize>)
        ensures
            r is Ok <==> self.mr.addr != 0 && index < self.sub_region_size,
            r matches Ok(a) ==> a == self.mr.addr + (self.sub_region_offset + index)
                * layout::size_of::<T>(),
    {
        if index >= self.sub_region_size {
            return Err(MemNotLocalError);
        }
        let elem: usize = core::mem::size_of::<T>();
        proof {
            let o = self.sub_region_offset as int;
            let n = self.sub_region_size as int;
            let e = elem as int;
            assert((o + index) * e == o * e + index * e) by (nonlinear_arith);
            assert(o + index < o + n && o + n <= (o + n) * e && (o + index + 1) * e <= (o + n) * e)
                by (nonlinear_arith)
                requires
                    0 <= index < n,
                    0 <= o,
                    e >= 1,
            ;
            lemma_fundamental_div_mod(self.mr.num_bytes as int, e);
            lemma_mod_bound(self.mr.num_bytes as int, e);
            let whole = self.mr.num_bytes as int / e;
            assert(o + index < whole) by (nonlinear_arith)
                requires
                    (o + index + 1) * e < e * whole + e,
                    e >= 1,
            ;
        }
        self.mr.casted_at::<T>(self.sub_region_offset + index)
    }

    fn as_slice(&self) -> (r: MemResult<Span>)
        ensures
            r is Ok <==> self.mr.addr != 0,
            r matches Ok(s) ==> s.addr == self.mr.addr + self.sub_region_offset
                * layout::size_of::<T>() && s.len == self.sub_region_size,
    {
        match self.as_ptr() {
            Ok(addr) => Ok(Span { addr, len: self.sub_region_size }),
            Err(e) => Err(e),
        }
    }

    fn as_mut_slice(&self) -> (r: MemResult<Span>)
        ensures
            r is Ok <==> self.mr.addr != 0,
            r matches Ok(s) ==> s.addr == self.mr.addr + self.sub_region_offset
                * layout::size_of::<T>() && s.len == self.sub_region_size,
    {
        self.as_slice()
    }

    fn as_ptr(&self) -> (r: MemResult<usize>)
        ensures
            r is Ok <==> self.mr.addr != 0,
            r matches Ok(a) ==> a == self.mr.addr + self.sub_region_offset
                * layout::size_of::<T>(),
    {
        if self.mr.addr == 0 {
            return Err(MemNotLocalError);
        }
        self.addr()
    }

    fn as_mut_ptr(&self) -> (r: MemResult<usize>)
        ensures
            r is Ok <==> self.mr.addr != 0,
            r matches Ok(a) ==> a == self.mr.addr + self.sub_region_offset
                * layout::size_of::<T>(),
    {
        self.as_ptr()
    }
}

/// An element of a part of a part is the same element of the part: a transfer
/// goes to the same bytes.
pub proof fn sub_region_keeps_elements<T>(
    whole: SharedMemoryRegion<T>,
    part: SharedMemoryRegion<T>,
    start: usize,
    pe: usize,
    index: usize,
    data: usize,
    len: usize,
)
    requires
        part.mr == whole.mr,
        part.sub_region_offset == whole.sub_region_offset + start,
    ensures
        part.mr.transfer::<T>(
            Some(pe),
            (part.sub_region_offset + index) as usize,
            data,
            len,
        ) == whole.mr.transfer::<T>(
            Some(pe),
            (whole.sub_region_offset + (start + index)) as usize,
            data,
            len,
        ),
{
}

} // verus!
