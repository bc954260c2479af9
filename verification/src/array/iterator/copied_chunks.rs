//! Fetching an array chunk by chunk to one PE.

use core::marker::PhantomData;
use vstd::layout;
use vstd::prelude::*;

use crate::array::iteration;
use crate::array::iteration::ElemRange;

verus! {

/// An iterator that brings the elements of an array to this PE.
pub trait OneSidedIterator {
    /// What the array holds.
    type ElemType;

    /// How many elements the array has.
    spec fn spec_array_len(&self) -> int;

    /// How many elements the array has.
    fn array_len(&self) -> (n: usize)
        ensures
            n == self.spec_array_len(),
    ;
}

/// Goes through an array element by element.
pub struct OneSidedIter<T> {
    pub len: usize,
    pub phantom: PhantomData<T>,
}

impl<T> OneSidedIterator for OneSidedIter<T> {
    type ElemType = T;

    open spec fn spec_array_len(&self) -> int {
        self.len as int
    }

    fn array_len(&self) -> (n: usize)
        ensures
            n == self.len,
    {
        self.len
    }
}

/// Goes through an array chunk by chunk. All chunks but the last have one size.
pub struct CopiedChunks<I: OneSidedIterator> {
    pub iter: I,
    pub index: usize,
    pub chunk_size: usize,
}

/// The chunk that starts at an index.
pub open spec fn chunk_at(index: int, len: int, chunk_size: int) -> ElemRange {
    ElemRange {
        start: index as usize,
        end: (if index + chunk_size <= len {
            index + chunk_size
        } else {
            len
        }) as usize,
    }
}

/// The chunks from an index on.
pub open spec fn chunks_from(index: int, len: int, chunk_size: int) -> Seq<ElemRange>
    decreases (if index < len {
        len - index
    } else {
        0
    }),
{
    if index >= len || chunk_size <= 0 {
        Seq::empty()
    } else {
        seq![chunk_at(index, len, chunk_size)] + chunks_from(index + chunk_size, len, chunk_size)
    }
}

impl<I: OneSidedIterator> CopiedChunks<I> {
    /// The chunks that are still to come.
    pub open spec fn remaining(self) -> Seq<ElemRange> {
        chunks_from(self.index as int, self.iter.spec_array_len(), self.chunk_size as int)
    }

    /// Starts with the first element.
    pub fn new(iter: I, chunk_size: usize) -> (r: CopiedChunks<I>)
        ensures
            r.iter == iter,
            r.index == 0,
            r.chunk_size == chunk_size,
    {
        CopiedChunks { iter, index: 0, chunk_size }
    }

    /// Which elements a buffer of `size` elements is filled with.
    pub fn get_buffer(&self, size: usize) -> (r: ElemRange)
        requires
            self.index + size <= usize::MAX,
        ensures
            r.start == self.index,
            r.end == self.index + size,
    {
        ElemRange { start: self.index, end: self.index + size }
    }

    /// The elements of the next chunk, none when the array is through.
    pub fn next(&mut self) -> (r: Option<ElemRange>)
        requires
            old(self).chunk_size > 0,
        ensures
            final(self).iter == old(self).iter,
            final(self).chunk_size == old(self).chunk_size,
            match r {
                Some(chunk) => old(self).index < old(self).iter.spec_array_len() && chunk
                    == chunk_at(
                    old(self).index as int,
                    old(self).iter.spec_array_len(),
                    old(self).chunk_size as int,
                ) && final(self).index == chunk.end && old(self).remaining() == seq![chunk]
                    + final(self).remaining(),
                None => old(self).index >= old(self).iter.spec_array_len() && final(self).index
                    == old(self).index && old(self).remaining().len() == 0,
            },
            r matches Some(chunk) ==> chunk.start == old(self).index && chunk.end == (if old(
                self,
            ).index + old(self).chunk_size <= old(self).iter.spec_array_len() {
                old(self).index + old(self).chunk_size
            } else {
                old(self).iter.spec_array_len()
            }),
    {
        let len: usize = self.iter.array_len();
        if self.index < len {
            let rest: usize = len - self.index;
            let size: usize = if self.chunk_size <= rest {
                self.chunk_size
            } else {
                rest
            };
            let chunk = self.get_buffer(size);
            self.index = self.index + size;
            assert(self.remaining() =~= chunks_from(
                old(self).index + old(self).chunk_size,
                len as int,
                self.chunk_size as int,
            ));
            Some(chunk)
        } else {
            None
        }
    }

    /// Leaves out `count` chunks.
    pub fn advance_index(&mut self, count: usize)
        requires
            old(self).index + count * old(self).chunk_size <= usize::MAX,
        ensures
            final(self).iter == old(self).iter,
            final(self).chunk_size == old(self).chunk_size,
            final(self).index == old(self).index + count * old(self).chunk_size,
    {
        assert(count * self.chunk_size >= 0) by (nonlinear_arith)
            requires
                count >= 0,
                self.chunk_size >= 0,
        ;
        self.index = self.index + count * self.chunk_size;
    }

    /// How many bytes a chunk takes.
    pub fn item_size(&self) -> (r: usize)
        requires
            self.chunk_size * layout::size_of::<I::ElemType>() <= usize::MAX,
        ensures
            r == self.chunk_size * layout::size_of::<I::ElemType>(),
    {
        self.chunk_size * core::mem::size_of::<I::ElemType>()
    }

    /// Which elements to fetch into a buffer of this many bytes, none when the
    /// array is through. The buffer is filled.
    pub fn buffered_next(&mut self, num_bytes: usize) -> (r: Option<ElemRange>)
        requires
            0 < layout::size_of::<I::ElemType>() <= usize::MAX,
            old(self).index + num_bytes as int / layout::size_of::<I::ElemType>() as int
                <= usize::MAX,
        ensures
            final(self).iter == old(self).iter,
            final(self).chunk_size == old(self).chunk_size,
            match r {
                Some(range) => old(self).index < old(self).iter.spec_array_len() && range.start
                    == old(self).index && range.end == old(self).index + num_bytes as int
                    / layout::size_of::<I::ElemType>() as int && final(self).index == range.end,
                None => old(self).index >= old(self).iter.spec_array_len() && final(self).index
                    == old(self).index,
            },
    {
        if self.index < self.iter.array_len() {
            let n: usize = num_bytes / core::mem::size_of::<I::ElemType>();
            let range = self.get_buffer(n);
            self.index = self.index + n;
            Some(range)
        } else {
            None
        }
    }

    /// How many elements a buffer of this many bytes holds.
    pub fn from_mem_region(&self, num_bytes: usize) -> (r: Option<usize>)
        requires
            0 < layout::size_of::<I::ElemType>() <= usize::MAX,
        ensures
            r matches Some(n) && n == num_bytes as int / layout::size_of::<I::ElemType>() as int,
    {
        Some(num_bytes / core::mem::size_of::<I::ElemType>())
    }
}

impl<I: OneSidedIterator> OneSidedIterator for CopiedChunks<I> {
    type ElemType = I::ElemType;

    open spec fn spec_array_len(&self) -> int {
        self.iter.spec_array_len()
    }

    fn array_len(&self) -> (n: usize) {
        self.iter.array_len()
    }
}

/// The chunks hold every element of the array once, in order, and nothing else.
pub proof fn chunks_tile(len: int, chunk_size: int)
    requires
        0 <= len <= usize::MAX,
        0 < chunk_size,
    ensures
        iteration::tiles(chunks_from(0, len, chunk_size), len),
        len > 0 ==> chunks_from(0, len, chunk_size).last().end == len,
{
    chunks_follow(0, len, chunk_size);
}

proof fn chunks_follow(index: int, len: int, c: int)
    requires
        0 <= index,
        0 <= len <= usize::MAX,
        0 < c,
    ensures
        ({
            let s = chunks_from(index, len, c);
            &&& index >= len ==> s.len() == 0
            &&& index < len ==> s.len() > 0 && s[0].start == index && s.last().end == len
            &&& forall|k: int|
                0 <= k < s.len() ==> (#[trigger] s[k]).start < s[k].end && s[k].start < len
            &&& forall|k: int|
                0 <= k < s.len() - 1 ==> (#[trigger] s[k]).end == s[k + 1].start
        }),
    decreases (if index < len {
        len - index
    } else {
        0
    }),
{
    if index < len {
        let s = chunks_from(index, len, c);
        let rest = chunks_from(index + c, len, c);
        chunks_follow(index + c, len, c);
        assert forall|k: int| 0 <= k < s.len() implies (#[trigger] s[k]).start < s[k].end
            && s[k].start < len by {
            if k > 0 {
                assert(s[k] == rest[k - 1]);
            }
        }
        assert forall|k: int| 0 <= k < s.len() - 1 implies (#[trigger] s[k]).end
            == s[k + 1].start by {
            assert(s[k + 1] == rest[k]);
            if k > 0 {
                assert(s[k] == rest[k - 1]);
            }
        }
        if rest.len() > 0 {
            assert(s.last() == rest.last());
        }
    }
}

/// Leaving chunks out gives the chunks behind them.
pub proof fn advance_leaves_out_chunks(index: int, len: int, chunk_size: int, count: nat)
    requires
        0 <= index,
        0 <= len <= usize::MAX,
        0 < chunk_size,
        count <= chunks_from(index, len, chunk_size).len(),
    ensures
        chunks_from(index + count * chunk_size, len, chunk_size) == chunks_from(
            index,
            len,
            chunk_size,
        ).skip(count as int),
    decreases count,
{
    let s = chunks_from(index, len, chunk_size);
    if count == 0 {
        assert(s.skip(0) == s);
        assert(0 * chunk_size == 0);
    } else {
        let rest = chunks_from(index + chunk_size, len, chunk_size);
        let fewer = (count - 1) as nat;
        advance_leaves_out_chunks(index + chunk_size, len, chunk_size, fewer);
        assert(s.skip(count as int) == rest.skip(fewer as int));
        assert(index + chunk_size + fewer * chunk_size == index + count * chunk_size)
            by (nonlinear_arith)
            requires
                fewer == count - 1,
        ;
    }
}

} // verus!
