//! Memory that other PEs can reach, and transfers into and out of it.

use core::marker::PhantomData;
use vstd::arithmetic::div_mod::*;
use vstd::layout;
use vstd::prelude::*;

use crate::array::unsafe_array;
use crate::array::unsafe_array::RangeBound;
use crate::lamellae::{AllocationType, Backend};
use crate::memregion::shared::SharedMemoryRegion;

pub mod shared;

verus! {

/// The memory of a region is not on this PE.
#[derive(Clone, Copy, Debug, PartialEq, Eq, Structural)]
pub struct MemNotLocalError;

/// A result that only the PE with the memory can give.
pub type MemResult<T> = Result<T, MemNotLocalError>;

/// What can be an element of memory that PEs share.
pub trait Dist: Copy {

}

impl Dist for u8 {

}

impl Dist for u16 {

}

impl Dist for u32 {

}

impl Dist for u64 {

}

impl Dist for u128 {

}

impl Dist for usize {

}

impl Dist for i8 {

}

impl Dist for i16 {

}

impl Dist for i32 {

}

impl Dist for i64 {

}

impl Dist for i128 {

}

impl Dist for isize {

}

impl Dist for bool {

}

/// Whose memory a region is.
#[derive(Clone, Copy, Debug, PartialEq, Eq, Structural)]
pub enum Mode {
    Local,
    Remote,
    Shared,
}

/// Why there is no region.
#[derive(Clone, Copy, Debug, PartialEq, Eq, Structural)]
pub enum RegionError {
    /// A region has at least one element.
    Empty,
    OutOfMemory,
}

/// What a new region takes.
#[derive(Clone, Copy, Debug, PartialEq, Eq, Structural)]
pub struct RegionPlan {
    pub size: usize,
    pub num_bytes: usize,
    /// Whether only this PE allocates the memory.
    pub mode: Mode,
}

/// Memory that other PEs can reach.
pub struct MemoryRegion<T> {
    pub addr: usize,
    pub pe: usize,
    pub size: usize,
    pub num_bytes: usize,
    pub backend: Backend,
    pub mode: Mode,
    pub phantom: PhantomData<T>,
}

/// Consecutive elements in this PE's memory.
#[derive(Clone, Copy, Debug, PartialEq, Eq, Structural)]
pub struct Span {
    pub addr: usize,
    pub len: usize,
}

/// A copy between this PE's memory and a region on another PE. No PE means all
/// PEs.
#[derive(Clone, Copy, Debug, PartialEq, Eq, Structural)]
pub struct Transfer {
    pub pe: Option<usize>,
    /// The address of the region's bytes.
    pub region_addr: usize,
    /// The address of the other bytes.
    pub data_addr: usize,
    pub num_bytes: usize,
}

/// What becomes of a region's memory.
#[derive(Clone, Copy, Debug, PartialEq, Eq, Structural)]
pub enum Release {
    /// It is given back by this PE alone.
    RtFree(usize),
    /// It is given back by all PEs that allocated it.
    Free(usize),
    Nothing,
}

/// Whether `len` elements of type `R` from `index` on lie in `num_bytes` bytes.
pub open spec fn fits<R>(index: int, len: int, num_bytes: int) -> bool {
    (index + len) * layout::size_of::<R>() <= num_bytes
}

fn fits_in<R>(index: usize, len: usize, num_bytes: usize) -> (r: bool)
    ensures
        r == fits::<R>(index as int, len as int, num_bytes as int),
{
    let elem: usize = core::mem::size_of::<R>();
    let total: u128 = index as u128 + len as u128;
    if elem == 0 {
        assert((index + len) * 0 == 0);
        return true;
    }
    if total > num_bytes as u128 {
        assert((index + len) * elem >= index + len) by (nonlinear_arith)
            requires
                elem >= 1,
                index + len >= 0,
        ;
        return false;
    }
    assert(0 <= total * elem <= 0xffff_ffff_ffff_ffff * 0xffff_ffff_ffff_ffff) by (nonlinear_arith)
        requires
            0 <= total <= 0xffff_ffff_ffff_ffff,
            0 <= elem <= 0xffff_ffff_ffff_ffff,
    ;
    total * (elem as u128) <= num_bytes as u128
}

impl<T> MemoryRegion<T> {
    /// The bytes are those of the elements, and the region ends before memory
    /// does.
    pub open spec fn wf(self) -> bool {
        &&& self.num_bytes == self.size * layout::size_of::<T>()
        &&& self.addr + self.num_bytes <= usize::MAX
    }

    /// Plans a region of `size` elements. There is none without elements.
    pub fn try_new(size: usize, alloc: &AllocationType) -> (r: Result<RegionPlan, RegionError>)
        requires
            size * layout::size_of::<T>() <= usize::MAX,
        ensures
            match r {
                Ok(plan) => size > 0 && plan.size == size && plan.num_bytes == size
                    * layout::size_of::<T>() && plan.mode == (if alloc is Local {
                    Mode::Local
                } else {
                    Mode::Shared
                }),
                Err(e) => size == 0 && e == RegionError::Empty,
            },
    {
        if size == 0 {
            return Err(RegionError::Empty);
        }
        let mode = match alloc {
            AllocationType::Local => Mode::Local,
            _ => Mode::Shared,
        };
        Ok(RegionPlan { size, num_bytes: size * core::mem::size_of::<T>(), mode })
    }

    /// The region of a plan, if its memory could be had.
    pub fn from_plan(plan: &RegionPlan, addr: Option<usize>, pe: usize, backend: Backend) -> (r:
        Result<MemoryRegion<T>, RegionError>)
        ensures
            match addr {
                Some(addr) => r matches Ok(m) && m.addr == addr && m.pe == pe && m.size == plan.size
                    && m.num_bytes == plan.num_bytes && m.backend == backend && m.mode == plan.mode,
                None => r matches Err(e) && e == RegionError::OutOfMemory,
            },
    {
        match addr {
            Some(addr) => Ok(
                MemoryRegion {
                    addr,
                    pe,
                    size: plan.size,
                    num_bytes: plan.num_bytes,
                    backend,
                    mode: plan.mode,
                    phantom: PhantomData,
                },
            ),
            None => Err(RegionError::OutOfMemory),
        }
    }

    /// A region of `size` elements on another PE.
    pub fn from_remote_addr(addr: usize, pe: usize, size: usize, backend: Backend) -> (m:
        MemoryRegion<T>)
        requires
            addr + size * layout::size_of::<T>() <= usize::MAX,
        ensures
            m.wf(),
            m.addr == addr,
            m.pe == pe,
            m.size == size,
            m.backend == backend,
            m.mode == Mode::Remote,
    {
        MemoryRegion {
            addr,
            pe,
            size,
            num_bytes: size * core::mem::size_of::<T>(),
            backend,
            mode: Mode::Remote,
            phantom: PhantomData,
        }
    }

    /// The same memory as elements of another type, whose size has to divide
    /// it.
    pub fn to_base<B>(self) -> (m: MemoryRegion<B>)
        requires
            self.wf(),
            0 < layout::size_of::<B>() <= usize::MAX,
            self.num_bytes as int % layout::size_of::<B>() as int == 0,
        ensures
            m.wf(),
            m.addr == self.addr,
            m.pe == self.pe,
            m.num_bytes == self.num_bytes,
            m.size == self.num_bytes as int / layout::size_of::<B>() as int,
            m.backend == self.backend,
            m.mode == self.mode,
    {
        let elem: usize = core::mem::size_of::<B>();
        proof {
            lemma_fundamental_div_mod(self.num_bytes as int, elem as int);
            let q = self.num_bytes as int / elem as int;
            assert(q * elem == elem * q) by (nonlinear_arith);
        }
        MemoryRegion {
            addr: self.addr,
            pe: self.pe,
            size: self.num_bytes / elem,
            num_bytes: self.num_bytes,
            backend: self.backend,
            mode: self.mode,
            phantom: PhantomData,
        }
    }

    /// Where in the region a transfer of elements of type `R` goes.
    pub open spec fn transfer<R>(
        self,
        pe: Option<usize>,
        index: usize,
        data_addr: usize,
        len: usize,
    ) -> Transfer {
        Transfer {
            pe,
            region_addr: (self.addr + index * layout::size_of::<R>()) as usize,
            data_addr,
            num_bytes: (len * layout::size_of::<R>()) as usize,
        }
    }

    fn make_transfer<R>(
        &self,
        pe: Option<usize>,
        index: usize,
        data_addr: usize,
        len: usize,
    ) -> (r: Transfer)
        requires
            self.wf(),
            fits::<R>(index as int, len as int, self.num_bytes as int),
        ensures
            r == self.transfer::<R>(pe, index, data_addr, len),
            self.addr <= r.region_addr,
            r.region_addr + r.num_bytes <= self.addr + self.num_bytes,
            r.pe == pe,
            r.region_addr == self.addr + index * layout::size_of::<R>(),
            r.data_addr == data_addr,
            r.num_bytes == len * layout::size_of::<R>(),
    {
        let elem: usize = core::mem::size_of::<R>();
        assert(index * elem + len * elem == (index + len) * elem && index * elem >= 0 && len * elem
            >= 0) by (nonlinear_arith)
            requires
                index >= 0,
                len >= 0,
                elem >= 0,
        ;
        Transfer {
            pe,
            region_addr: self.addr + index * elem,
            data_addr,
            num_bytes: len * elem,
        }
    }

    /// Copies `len` elements to another PE's region, from `index` on.
    pub fn put<R>(&self, pe: usize, index: usize, data_addr: usize, len: usize) -> (r: Transfer)
        requires
            self.wf(),
            fits::<R>(index as int, len as int, self.num_bytes as int),
        ensures
            r == self.transfer::<R>(Some(pe), index, data_addr, len),
            self.addr <= r.region_addr,
            r.region_addr + r.num_bytes <= self.addr + self.num_bytes,
            r.pe == Some(pe),
            r.region_addr == self.addr + index * layout::size_of::<R>(),
            r.data_addr == data_addr,
            r.num_bytes == len * layout::size_of::<R>(),
    {
        self.make_transfer::<R>(Some(pe), index, data_addr, len)
    }

    /// Copies `len` elements to another PE's region, from `index` on, and waits for
    /// it.
    pub fn blocking_put<R>(&self, pe: usize, index: usize, data_addr: usize, len: usize) -> (r: Transfer)
        requires
            self.wf(),
            fits::<R>(index as int, len as int, self.num_bytes as int),
        ensures
            r == self.transfer::<R>(Some(pe), index, data_addr, len),
            self.addr <= r.region_addr,
            r.region_addr + r.num_bytes <= self.addr + self.num_bytes,
            r.pe == Some(pe),
            r.region_addr == self.addr + index * layout::size_of::<R>(),
            r.data_addr == data_addr,
            r.num_bytes == len * layout::size_of::<R>(),
    {
        self.make_transfer::<R>(Some(pe), index, data_addr, len)
    }

    /// Copies `len` elements to every PE's region, from `index` on.
    pub fn put_all<R>(&self, index: usize, data_addr: usize, len: usize) -> (r: Transfer)
        requires
            self.wf(),
            fits::<R>(index as int, len as int, self.num_bytes as int),
        ensures
            r == self.transfer::<R>(None::<usize>, index, data_addr, len),
            self.addr <= r.region_addr,
            r.region_addr + r.num_bytes <= self.addr + self.num_bytes,
            r.pe == None::<usize>,
            r.region_addr == self.addr + index * layout::size_of::<R>(),
            r.data_addr == data_addr,
            r.num_bytes == len * layout::size_of::<R>(),
    {
        self.make_transfer::<R>(None, index, data_addr, len)
    }

    /// Copies `len` elements from another PE's region, from `index` on.
    pub fn get_unchecked<R>(&self, pe: usize, index: usize, data_addr: usize, len: usize) -> (r: Transfer)
        requires
            self.wf(),
            fits::<R>(index as int, len as int, self.num_bytes as int),
        ensures
            r == self.transfer::<R>(Some(pe), index, data_addr, len),
            self.addr <= r.region_addr,
            r.region_addr + r.num_bytes <= self.addr + self.num_bytes,
            r.pe == Some(pe),
            r.region_addr == self.addr + index * layout::size_of::<R>(),
            r.data_addr == data_addr,
            r.num_bytes == len * layout::size_of::<R>(),
    {
        self.make_transfer::<R>(Some(pe), index, data_addr, len)
    }

    /// Copies `len` elements from another PE's region, from `index` on, and waits
    /// for them.
    pub fn blocking_get<R>(&self, pe: usize, index: usize, data_addr: usize, len: usize) -> (r: Transfer)
        requires
            self.wf(),
            fits::<R>(index as int, len as int, self.num_bytes as int),
        ensures
            r == self.transfer::<R>(Some(pe), index, data_addr, len),
            self.addr <= r.region_addr,
            r.region_addr + r.num_bytes <= self.addr + self.num_bytes,
            r.pe == Some(pe),
            r.region_addr == self.addr + index * layout::size_of::<R>(),
            r.data_addr == data_addr,
            r.num_bytes == len * layout::size_of::<R>(),
    {
        self.make_transfer::<R>(Some(pe), index, data_addr, len)
    }

    /// Copies a slice of `len` elements to another PE's region, from `index` on.
    pub fn put_slice<R>(&self, pe: usize, index: usize, data_addr: usize, len: usize) -> (r: Transfer)
        requires
            self.wf(),
            fits::<R>(index as int, len as int, self.num_bytes as int),
        ensures
            r == self.transfer::<R>(Some(pe), index, data_addr, len),
            self.addr <= r.region_addr,
            r.region_addr + r.num_bytes <= self.addr + self.num_bytes,
            r.pe == Some(pe),
            r.region_addr == self.addr + index * layout::size_of::<R>(),
            r.data_addr == data_addr,
            r.num_bytes == len * layout::size_of::<R>(),
    {
        self.make_transfer::<R>(Some(pe), index, data_addr, len)
    }

    /// Copies elements from another PE's region, from `index` on, into a slice of
    /// `len`, and waits for them.
    pub fn blocking_get_slice<R>(&self, pe: usize, index: usize, data_addr: usize, len: usize) -> (r: Transfer)
        requires
            self.wf(),
            fits::<R>(index as int, len as int, self.num_bytes as int),
        ensures
            r == self.transfer::<R>(Some(pe), index, data_addr, len),
            self.addr <= r.region_addr,
            r.region_addr + r.num_bytes <= self.addr + self.num_bytes,
            r.pe == Some(pe),
            r.region_addr == self.addr + index * layout::size_of::<R>(),
            r.data_addr == data_addr,
            r.num_bytes == len * layout::size_of::<R>(),
    {
        self.make_transfer::<R>(Some(pe), index, data_addr, len)
    }

    /// Copies `len` elements from an address on another PE into this region,
    /// from `my_index` on, and waits for them.
    pub fn fill_from_remote_addr<R>(
        &self,
        my_index: usize,
        pe: usize,
        local_addr: usize,
        len: usize,
    ) -> (r: Transfer)
        requires
            self.wf(),
            fits::<R>(my_index as int, len as int, self.num_bytes as int),
        ensures
            r == self.transfer::<R>(Some(pe), my_index, local_addr, len),
            self.addr <= r.region_addr,
            r.region_addr + r.num_bytes <= self.addr + self.num_bytes,
            r.pe == Some(pe),
            r.region_addr == self.addr + my_index * layout::size_of::<R>(),
            r.data_addr == local_addr,
            r.num_bytes == len * layout::size_of::<R>(),
    {
        self.make_transfer::<R>(Some(pe), my_index, local_addr, len)
    }

    /// Whether a transfer of `len` elements of type `R` from `index` on stays in
    /// the region.
    pub fn in_bounds<R>(&self, index: usize, len: usize) -> (r: bool)
        ensures
            r == fits::<R>(index as int, len as int, self.num_bytes as int),
            r == ((index + len) * layout::size_of::<R>() <= self.num_bytes),
    {
        fits_in::<R>(index, len, self.num_bytes)
    }

    /// How many elements there are.
    pub fn len(&self) -> (n: usize)
        ensures
            n == self.size,
    {
        self.size
    }

    /// Where the region starts.
    pub fn addr(&self) -> (r: MemResult<usize>)
        ensures
            r == Ok::<usize, MemNotLocalError>(self.addr),
    {
        Ok(self.addr)
    }

    /// What tells regions apart.
    pub fn id(&self) -> (r: usize)
        ensures
            r == self.addr,
    {
        self.addr
    }

    /// Where an element stands, if the region's memory is here and holds it. The
    /// size of the element has to divide memory that is here.
    pub fn casted_at<R>(&self, index: usize) -> (r: MemResult<usize>)
        requires
            self.wf(),
            self.addr != 0 ==> 0 < layout::size_of::<R>() <= usize::MAX && self.num_bytes as int
                % layout::size_of::<R>() as int == 0,
        ensures
            match r {
                Ok(a) => self.addr != 0 && index < self.num_bytes as int
                    / layout::size_of::<R>() as int && a == self.addr + index
                    * layout::size_of::<R>() && a + layout::size_of::<R>() <= self.addr
                    + self.num_bytes,
                Err(_) => self.addr == 0 || index >= self.num_bytes as int
                    / layout::size_of::<R>() as int,
            },
    {
        if self.addr == 0 {
            return Err(MemNotLocalError);
        }
        let elem: usize = core::mem::size_of::<R>();
        let n: usize = self.num_bytes / elem;
        if index >= n {
            return Err(MemNotLocalError);
        }
        proof {
            lemma_fundamental_div_mod(self.num_bytes as int, elem as int);
            assert(0 <= index * elem && index * elem + elem <= elem * n) by (nonlinear_arith)
                requires
                    0 <= index < n,
                    elem > 0,
            ;
        }
        Ok(self.addr + index * elem)
    }

    /// The elements, none if the region's memory is not here.
    pub fn as_slice(&self) -> (r: MemResult<Span>)
        ensures
            r == Ok::<Span, MemNotLocalError>(
                if self.addr != 0 {
                    Span { addr: self.addr, len: self.size }
                } else {
                    Span { addr: 0, len: 0 }
                },
            ),
    {
        if self.addr != 0 {
            Ok(Span { addr: self.addr, len: self.size })
        } else {
            Ok(Span { addr: 0, len: 0 })
        }
    }

    /// The elements as elements of another type, whose size has to divide the
    /// memory; none if the region's memory is not here.
    pub fn as_casted_slice<R>(&self) -> (r: MemResult<Span>)
        requires
            self.wf(),
            self.addr != 0 ==> 0 < layout::size_of::<R>() <= usize::MAX && self.num_bytes as int
                % layout::size_of::<R>() as int == 0,
        ensures
            r matches Ok(span) && (if self.addr != 0 {
                span.addr == self.addr && span.len == self.num_bytes as int
                    / layout::size_of::<R>() as int
            } else {
                span.addr == 0 && span.len == 0
            }),
    {
        if self.addr != 0 {
            Ok(Span { addr: self.addr, len: self.num_bytes / core::mem::size_of::<R>() })
        } else {
            Ok(Span { addr: 0, len: 0 })
        }
    }

    /// What becomes of the region's memory when the region is gone.
    pub fn release(&self) -> (r: Release)
        ensures
            r == (if self.addr == 0 {
                Release::Nothing
            } else {
                match self.mode {
                    Mode::Local => Release::RtFree(self.addr),
                    Mode::Shared => Release::Free(self.addr),
                    Mode::Remote => Release::Nothing,
                }
            }),
    {
        if self.addr != 0 {
            match self.mode {
                Mode::Local => Release::RtFree(self.addr),
                Mode::Shared => Release::Free(self.addr),
                Mode::Remote => Release::Nothing,
            }
        } else {
            Release::Nothing
        }
    }
}

/// What every handle to memory that other PEs can reach offers.
pub trait RegisteredMemoryRegion<T> {
    spec fn region_wf(&self) -> bool;

    /// Whether all memory of the region that is here divides into elements.
    spec fn divides(&self) -> bool;

    /// How many elements there are.
    spec fn spec_len(&self) -> int;

    /// Where the elements start.
    spec fn spec_addr(&self) -> int;

    /// Whether this PE has the memory.
    spec fn is_local(&self) -> bool;

    /// Where an element that is fetched by its index stands.
    spec fn spec_at(&self, index: int) -> Option<int>;

    /// How many elements there are.
    fn len(&self) -> (n: usize)
        requires
            self.region_wf(),
        ensures
            n == self.spec_len(),
    ;

    /// Where the elements start.
    fn addr(&self) -> (r: MemResult<usize>)
        requires
            self.region_wf(),
        ensures
            r matches Ok(a) && a == self.spec_addr(),
    ;

    /// Where an element stands.
    fn at(&self, index: usize) -> (r: MemResult<usize>)
        requires
            self.region_wf(),
            self.divides(),
        ensures
            match r {
                Ok(a) => self.spec_at(index as int) == Some(a as int),
                Err(_) => self.spec_at(index as int) is None,
            },
    ;

    /// The elements, if this PE has the memory.
    fn as_slice(&self) -> (r: MemResult<Span>)
        requires
            self.region_wf(),
            self.divides(),
        ensures
            match r {
                Ok(s) => self.is_local() && s.addr == self.spec_addr() && s.len == self.spec_len(),
                Err(_) => !self.is_local(),
            },
    ;

    /// The elements, to be changed, if this PE has the memory.
    fn as_mut_slice(&self) -> (r: MemResult<Span>)
        requires
            self.region_wf(),
            self.divides(),
        ensures
            match r {
                Ok(s) => self.is_local() && s.addr == self.spec_addr() && s.len == self.spec_len(),
                Err(_) => !self.is_local(),
            },
    ;

    /// Where the elements start, if this PE has the memory.
    fn as_ptr(&self) -> (r: MemResult<usize>)
        requires
            self.region_wf(),
        ensures
            match r {
                Ok(a) => self.is_local() && a == self.spec_addr(),
                Err(_) => !self.is_local(),
            },
    ;

    /// Where the elements that are to be changed start, if this PE has the
    /// memory.
    fn as_mut_ptr(&self) -> (r: MemResult<usize>)
        requires
            self.region_wf(),
        ensures
            match r {
                Ok(a) => self.is_local() && a == self.spec_addr(),
                Err(_) => !self.is_local(),
            },
    ;
}

/// A buffer in the memory of one PE, by what it holds.
#[derive(Debug)]
pub struct OneSidedMemoryRegion<T> {
    pub pe: usize,
    pub data: Vec<T>,
}

/// Memory that other PEs can reach, whoever allocated it.
pub enum LamellarMemoryRegion<T> {
    Shared(SharedMemoryRegion<T>),
    Local(OneSidedMemoryRegion<T>),
}

impl<T> LamellarMemoryRegion<T> {
    /// How many elements there are.
    pub open spec fn spec_len(self) -> int {
        match self {
            LamellarMemoryRegion::Shared(mr) => mr.sub_region_size as int,
            LamellarMemoryRegion::Local(mr) => mr.data@.len() as int,
        }
    }

    /// How many elements there are.
    pub fn len(&self) -> (n: usize)
        ensures
            n == self.spec_len(),
            self matches LamellarMemoryRegion::Shared(mr) ==> n == mr.sub_region_size,
            self matches LamellarMemoryRegion::Local(mr) ==> n == mr.data@.len(),
    {
        match self {
            LamellarMemoryRegion::Shared(mr) => mr.sub_region_size,
            LamellarMemoryRegion::Local(mr) => mr.data.len(),
        }
    }
}

impl<T: Copy> OneSidedMemoryRegion<T> {
    /// The part that a range of indices covers. The range may not go beyond the
    /// buffer.
    pub fn sub_region(&self, start: RangeBound, end: RangeBound) -> (r: OneSidedMemoryRegion<T>)
        requires
            unsafe_array::range_start(start) <= unsafe_array::range_end(
                end,
                self.data@.len() as int,
            ) <= self.data@.len(),
        ensures
            r.pe == self.pe,
            r.data@ == self.data@.subrange(
                unsafe_array::range_start(start),
                unsafe_array::range_end(end, self.data@.len() as int),
            ),
            forall|i: int|
                0 <= i < r.data@.len() ==> #[trigger] r.data@[i] == self.data@[i + (match start {
                    RangeBound::Included(first) => first as int,
                    RangeBound::Excluded(before) => before + 1,
                    RangeBound::Unbounded => 0,
                })],
            r.data@.len() == (match end {
                RangeBound::Included(last) => last + 1,
                RangeBound::Excluded(behind) => behind as int,
                RangeBound::Unbounded => self.data@.len() as int,
            }) - (match start {
                RangeBound::Included(first) => first as int,
                RangeBound::Excluded(before) => before + 1,
                RangeBound::Unbounded => 0,
            }),
    {
        let len: usize = self.data.len();
        let first: usize = match start {
            RangeBound::Included(i) => i,
            RangeBound::Excluded(i) => i + 1,
            RangeBound::Unbounded => 0,
        };
        let behind: usize = match end {
            RangeBound::Included(i) => i + 1,
            RangeBound::Excluded(i) => i,
            RangeBound::Unbounded => len,
        };
        let mut data: Vec<T> = Vec::new();
        let mut i: usize = first;
        while i < behind
            invariant
                first <= i <= behind <= self.data@.len(),
                data@ == self.data@.subrange(first as int, i as int),
            decreases behind - i,
        {
            data.push(self.data[i]);
            i = i + 1;
            assert(data@ =~= self.data@.subrange(first as int, i as int));
        }
        OneSidedMemoryRegion { pe: self.pe, data }
    }
}

impl<T: Copy> LamellarMemoryRegion<T> {
    /// The part that a range of indices covers. The range may not go beyond the
    /// memory.
    pub fn sub_region(self, start: RangeBound, end: RangeBound) -> (r: LamellarMemoryRegion<T>)
        requires
            self matches LamellarMemoryRegion::Shared(mr) ==> mr.wf(),
            unsafe_array::range_start(start) <= unsafe_array::range_end(end, self.spec_len())
                <= self.spec_len(),
        ensures
            match self {
                LamellarMemoryRegion::Shared(mr) => r matches LamellarMemoryRegion::Shared(part)
                    && part.wf() && part.mr == mr.mr && part.sub_region_offset
                    == mr.sub_region_offset + unsafe_array::range_start(start),
                LamellarMemoryRegion::Local(mr) => r matches LamellarMemoryRegion::Local(part)
                    && part.pe == mr.pe && part.data@ == mr.data@.subrange(
                    unsafe_array::range_start(start),
                    unsafe_array::range_end(end, self.spec_len()),
                ),
            },
            r.spec_len() == unsafe_array::range_end(end, self.spec_len())
                - unsafe_array::range_start(start),
            self matches LamellarMemoryRegion::Shared(mr) ==> (r matches LamellarMemoryRegion::Shared(
                part,
            ) && part.sub_region_offset == mr.sub_region_offset + (match start {
                RangeBound::Included(first) => first as int,
                RangeBound::Excluded(before) => before + 1,
                RangeBound::Unbounded => 0,
            }) && part.sub_region_offset + part.sub_region_size == mr.sub_region_offset + (match end {
                RangeBound::Included(last) => last + 1,
                RangeBound::Excluded(behind) => behind as int,
                RangeBound::Unbounded => mr.sub_region_size as int,
            })),
    {
        match self {
            LamellarMemoryRegion::Shared(mr) => LamellarMemoryRegion::Shared(
                mr.sub_region(start, end),
            ),
            LamellarMemoryRegion::Local(mr) => LamellarMemoryRegion::Local(
                mr.sub_region(start, end),
            ),
        }
    }
}

/// The bytes of a PE's memory after a put has arrived there.
pub open spec fn after_put(mem: spec_fn(int) -> u8, put: Transfer, data: Seq<u8>) -> spec_fn(
    int,
) -> u8 {
    |a: int|
        if put.region_addr <= a < put.region_addr + put.num_bytes {
            data[a - put.region_addr]
        } else {
            mem(a)
        }
}

/// The bytes that a get brings from a PE's memory.
pub open spec fn got(mem: spec_fn(int) -> u8, get: Transfer) -> Seq<u8> {
    Seq::new(get.num_bytes as nat, |i: int| mem(get.region_addr + i))
}

/// A get brings what a put to the same elements has written.
pub proof fn get_brings_what_put_wrote<T, R>(
    m: MemoryRegion<T>,
    mem: spec_fn(int) -> u8,
    pe: usize,
    index: usize,
    len: usize,
    src: usize,
    dst: usize,
    data: Seq<u8>,
)
    requires
        data.len() == m.transfer::<R>(Some(pe), index, src, len).num_bytes,
    ensures
        got(
            after_put(mem, m.transfer::<R>(Some(pe), index, src, len), data),
            m.transfer::<R>(Some(pe), index, dst, len),
        ) == data,
{
    assert(got(
        after_put(mem, m.transfer::<R>(Some(pe), index, src, len), data),
        m.transfer::<R>(Some(pe), index, dst, len),
    ) =~= data);
}

/// A put leaves the elements before and behind those that it writes as they are.
pub proof fn put_leaves_other_elements<T, R>(
    m: MemoryRegion<T>,
    mem: spec_fn(int) -> u8,
    pe: usize,
    index: usize,
    len: usize,
    other: usize,
    other_len: usize,
    src: usize,
    dst: usize,
    data: Seq<u8>,
)
    requires
        m.wf(),
        fits::<R>(index as int, len as int, m.num_bytes as int),
        fits::<R>(other as int, other_len as int, m.num_bytes as int),
        index + len <= other || other + other_len <= index,
    ensures
        got(
            after_put(mem, m.transfer::<R>(Some(pe), index, src, len), data),
            m.transfer::<R>(Some(pe), other, dst, other_len),
        ) == got(mem, m.transfer::<R>(Some(pe), other, dst, other_len)),
{
    let elem = layout::size_of::<R>() as int;
    let (a, n) = (index as int, len as int);
    let (b, k) = (other as int, other_len as int);
    assert((a + n) * elem == a * elem + n * elem && (b + k) * elem == b * elem + k * elem && 0 <= a
        * elem && 0 <= n * elem && 0 <= b * elem && 0 <= k * elem) by (nonlinear_arith)
        requires
            a >= 0,
            n >= 0,
            b >= 0,
            k >= 0,
            elem >= 0,
    ;
    if a + n <= b {
        assert((a + n) * elem <= b * elem) by (nonlinear_arith)
            requires
                a + n <= b,
                elem >= 0,
        ;
    } else {
        assert((b + k) * elem <= a * elem) by (nonlinear_arith)
            requires
                b + k <= a,
                elem >= 0,
        ;
    }
    assert(got(
        after_put(mem, m.transfer::<R>(Some(pe), index, src, len), data),
        m.transfer::<R>(Some(pe), other, dst, other_len),
    ) =~= got(mem, m.transfer::<R>(Some(pe), other, dst, other_len)));
}

/// The memory of every PE after a put: it arrives at the PE that it goes to, or at
/// all of them if it goes to none in particular.
pub open spec fn world_after_put(
    world: spec_fn(int) -> spec_fn(int) -> u8,
    put: Transfer,
    data: Seq<u8>,
) -> spec_fn(int) -> spec_fn(int) -> u8 {
    |p: int|
        if put.pe is None || put.pe->0 == p {
            after_put(world(p), put, data)
        } else {
            world(p)
        }
}

/// A put to one PE leaves the memory of every other PE as it is, and on the PE
/// that the caller names it writes the elements from the index on that the caller
/// names, and nothing else.
pub proof fn put_changes_only_its_pe<T, R>(
    m: MemoryRegion<T>,
    world: spec_fn(int) -> spec_fn(int) -> u8,
    pe: usize,
    index: usize,
    len: usize,
    src: usize,
    data: Seq<u8>,
)
    requires
        m.wf(),
        fits::<R>(index as int, len as int, m.num_bytes as int),
        data.len() == len * layout::size_of::<R>(),
    ensures
        forall|p: int|
            p != pe ==> #[trigger] world_after_put(
                world,
                m.transfer::<R>(Some(pe), index, src, len),
                data,
            )(p) == world(p),
        forall|k: int|
            0 <= k < data.len() ==> world_after_put(
                world,
                m.transfer::<R>(Some(pe), index, src, len),
                data,
            )(pe as int)(m.addr + index * layout::size_of::<R>() + k) == #[trigger] data[k],
        forall|a: int|
            a < m.addr + index * layout::size_of::<R>() || a >= m.addr + (index + len)
                * layout::size_of::<R>() ==> #[trigger] world_after_put(
                world,
                m.transfer::<R>(Some(pe), index, src, len),
                data,
            )(pe as int)(a) == world(pe as int)(a),
{
    parts_of_product(index as int, len as int, layout::size_of::<R>() as int);
}

/// A put to all PEs writes the same elements on each of them.
pub proof fn put_all_reaches_every_pe<T, R>(
    m: MemoryRegion<T>,
    world: spec_fn(int) -> spec_fn(int) -> u8,
    p: int,
    index: usize,
    len: usize,
    src: usize,
    data: Seq<u8>,
)
    requires
        m.wf(),
        fits::<R>(index as int, len as int, m.num_bytes as int),
        data.len() == len * layout::size_of::<R>(),
    ensures
        forall|k: int|
            0 <= k < data.len() ==> world_after_put(
                world,
                m.transfer::<R>(None::<usize>, index, src, len),
                data,
            )(p)(m.addr + index * layout::size_of::<R>() + k) == #[trigger] data[k],
{
    parts_of_product(index as int, len as int, layout::size_of::<R>() as int);
}

/// A get brings the elements of the PE that the caller names, from the index on
/// that the caller names, to the address that the caller names.
pub proof fn get_reads_what_is_named<T, R>(
    m: MemoryRegion<T>,
    world: spec_fn(int) -> spec_fn(int) -> u8,
    pe: usize,
    index: usize,
    len: usize,
    dst: usize,
)
    requires
        m.wf(),
        fits::<R>(index as int, len as int, m.num_bytes as int),
    ensures
        ({
            let get = m.transfer::<R>(Some(pe), index, dst, len);
            &&& get.data_addr == dst
            &&& get.pe == Some(pe)
            &&& got(world(get.pe->0 as int), get) == Seq::new(
                (len * layout::size_of::<R>()) as nat,
                |k: int| world(pe as int)(m.addr + index * layout::size_of::<R>() + k),
            )
        }),
{
    parts_of_product(index as int, len as int, layout::size_of::<R>() as int);
    let get = m.transfer::<R>(Some(pe), index, dst, len);
    assert(got(world(get.pe->0 as int), get) =~= Seq::new(
        (len * layout::size_of::<R>()) as nat,
        |k: int| world(pe as int)(m.addr + index * layout::size_of::<R>() + k),
    ));
}

proof fn parts_of_product(index: int, len: int, elem: int)
    requires
        index >= 0,
        len >= 0,
        elem >= 0,
    ensures
        index * elem + len * elem == (index + len) * elem,
        index * elem >= 0,
        len * elem >= 0,
{
    assert(index * elem + len * elem == (index + len) * elem && index * elem >= 0 && len * elem
        >= 0) by (nonlinear_arith)
        requires
            index >= 0,
            len >= 0,
            elem >= 0,
    ;
}

} // verus!
