//! Where the elements of an array, and of parts of it, live.

use core::marker::PhantomData;
use vstd::arithmetic::div_mod::*;
use vstd::layout;
use vstd::prelude::*;
use vstd::std_specs::convert::*;

use crate::array::Distribution;
use crate::lamellar_team::LamellarTeamRT;
use crate::math;

verus! {

/// The number of elements that each PE has room for.
pub open spec fn per_pe_size(len: int, num_pes: int) -> int {
    (len + num_pes - 1) / num_pes
}

/// Where the blocks of an array start: for each PE the first index of its
/// block, and behind the last one the length of the array. Blocks follow each
/// other, and each is an even share, rounded down or up.
pub open spec fn are_block_starts(starts: Seq<usize>, num_pes: int, len: int) -> bool {
    &&& num_pes > 0
    &&& starts.len() == num_pes + 1
    &&& starts[0] == 0
    &&& starts[num_pes] == len
    &&& forall|p: int, q: int| 0 <= p <= q <= num_pes ==> starts[p] <= starts[q]
    &&& forall|p: int|
        0 <= p < num_pes ==> len / num_pes <= #[trigger] starts[p + 1] - starts[p] <= per_pe_size(
            len,
            num_pes,
        )
}

/// Where the blocks of an array start. How an uneven share is rounded is up to
/// whoever makes the table.
#[derive(Debug)]
pub struct BlockStarts {
    starts: Vec<usize>,
}

impl View for BlockStarts {
    type V = Seq<usize>;

    closed spec fn view(&self) -> Seq<usize> {
        self.starts@
    }
}

impl BlockStarts {
    pub open spec fn num_pes(self) -> int {
        self@.len() - 1
    }

    /// The length of the array.
    pub open spec fn len(self) -> int {
        self@[self.num_pes()] as int
    }

    pub open spec fn wf(self) -> bool {
        are_block_starts(self@, self.num_pes(), self.len())
    }

    /// Takes a table, if it is one for an array of this length on this many
    /// PEs.
    pub fn new(starts: Vec<usize>, num_pes: usize, len: usize) -> (r: Option<BlockStarts>)
        ensures
            r is Some <==> are_block_starts(starts@, num_pes as int, len as int),
            r is Some ==> starts@.len() == num_pes + 1 && starts@[0] == 0 && starts@[num_pes as int]
                == len && (forall|p: int|
                0 <= p < num_pes ==> #[trigger] starts@[p] <= starts@[p + 1] && starts@[p + 1]
                    - starts@[p] <= len as int / num_pes as int + 1 && starts@[p + 1] - starts@[p]
                    >= len as int / num_pes as int),
            r matches Some(b) ==> b.wf() && b@ == starts@ && b.num_pes() == num_pes && b.len()
                == len,
    {
        if num_pes == 0 || num_pes == usize::MAX || starts.len() != num_pes + 1 || starts[0] != 0
            || starts[num_pes] != len {
            return None;
        }
        let share: usize = even_share(len, num_pes);
        let least: usize = len / num_pes;
        let mut p: usize = 0;
        while p < num_pes
            invariant
                p <= num_pes,
                num_pes > 0,
                starts@.len() == num_pes + 1,
                share == per_pe_size(len as int, num_pes as int),
                least == len as int / num_pes as int,
                forall|i: int, j: int| 0 <= i <= j <= p ==> starts@[i] <= starts@[j],
                forall|i: int|
                    0 <= i < p ==> least <= #[trigger] starts@[i + 1] - starts@[i] <= share,
            decreases num_pes - p,
        {
            if starts[p + 1] < starts[p] || starts[p + 1] - starts[p] > share || starts[p + 1]
                - starts[p] < least {
                assert(starts@[p as int] > starts@[p + 1] || !(least <= starts@[p + 1]
                    - starts@[p as int] <= share));
                return None;
            }
            p = p + 1;
        }
        proof {
            share_is_rounded_up(len as int, num_pes as int);
            assert forall|q: int| 0 <= q < num_pes implies #[trigger] starts@[q] <= starts@[q + 1]
                && starts@[q + 1] - starts@[q] <= len as int / num_pes as int + 1 && starts@[q + 1]
                - starts@[q] >= len as int / num_pes as int by {
                assert(starts@[q + 1] - starts@[q] <= share);
            }
        }
        Some(BlockStarts { starts })
    }

    /// The first index of a PE's block; the length of the array for PEs that do
    /// not exist.
    pub open spec fn start(self, pe: int) -> int {
        if 0 <= pe <= self.num_pes() {
            self@[pe] as int
        } else {
            self.len()
        }
    }

    fn start_of(&self, pe: usize) -> (r: usize)
        requires
            self.wf(),
        ensures
            r == self.start(pe as int),
    {
        if pe < self.starts.len() {
            self.starts[pe]
        } else {
            self.starts[self.starts.len() - 1]
        }
    }

    /// Whether an index lies in a PE's block.
    pub open spec fn owns(self, pe: int, index: int) -> bool {
        0 <= pe < self.num_pes() && self@[pe] <= index < self@[pe + 1]
    }

    /// The PE in whose block an index lies.
    pub open spec fn owner(self, index: int) -> int {
        choose|pe: int| #[trigger] self.owns(pe, index)
    }

    /// An index lies in one PE's block alone.
    pub proof fn owner_is(self, pe: int, index: int)
        requires
            self.wf(),
            self.owns(pe, index),
        ensures
            self.owner(index) == pe,
    {
        let o = self.owner(index);
        assert(self.owns(o, index));
        if o < pe {
            assert(self@[o + 1] <= self@[pe]);
        } else if pe < o {
            assert(self@[pe + 1] <= self@[o]);
        }
    }

    /// Every index of the array lies in some PE's block.
    pub proof fn owner_exists(self, index: int)
        requires
            self.wf(),
            0 <= index < self.len(),
        ensures
            self.owns(self.owner(index), index),
    {
        let pe = self.find(index, self.num_pes());
        assert(self.owns(pe, index));
    }

    proof fn find(self, index: int, upto: int) -> (pe: int)
        requires
            self.wf(),
            0 < upto <= self.num_pes(),
            0 <= index < self@[upto],
        ensures
            self.owns(pe, index),
        decreases upto,
    {
        if self@[upto - 1] <= index {
            upto - 1
        } else {
            self.find(index, upto - 1)
        }
    }

    /// With an element for each PE no block is empty.
    pub proof fn no_block_is_empty(self, pe: int)
        requires
            self.wf(),
            0 <= pe < self.num_pes(),
            self.len() >= self.num_pes(),
        ensures
            self@[pe] < self@[pe + 1],
    {
        let n = self.num_pes();
        lemma_div_is_ordered(n, self.len(), n);
        lemma_div_by_self(n);
        assert(self@[pe + 1] - self@[pe] >= self.len() / n);
    }

    /// Finds the PE in whose block an index lies. The search begins where the
    /// block would be if all were equally large.
    fn owner_of(&self, index: usize) -> (pe: usize)
        requires
            self.wf(),
            index < self.len(),
        ensures
            self.owns(pe as int, index as int),
            pe == self.owner(index as int),
    {
        let n: usize = self.starts.len() - 1;
        let len: usize = self.starts[n];
        let guess: usize = match index.checked_mul(n) {
            Some(x) => x / len,
            None => 0,
        };
        let mut pe: usize = if guess < n {
            guess
        } else {
            n - 1
        };
        while self.starts[pe] > index
            invariant
                self.wf(),
                pe < n,
                n == self.num_pes(),
                self.starts@ == self@,
            decreases pe,
        {
            assert(pe > 0);
            pe = pe - 1;
        }
        while self.starts[pe + 1] <= index
            invariant
                self.wf(),
                pe < n,
                n == self.num_pes(),
                self.starts@ == self@,
                self@[pe as int] <= index < self.len(),
            decreases n - pe,
        {
            pe = pe + 1;
        }
        proof {
            self.owner_is(pe as int, index as int);
        }
        pe
    }
}

/// The number of elements that each PE has room for.
fn even_share(len: usize, num_pes: usize) -> (r: usize)
    requires
        num_pes > 0,
    ensures
        r == per_pe_size(len as int, num_pes as int),
{
    proof {
        share_is_rounded_up(len as int, num_pes as int);
        lemma_fundamental_div_mod(len as int, num_pes as int);
        let q = len as int / num_pes as int;
        let r = len as int % num_pes as int;
        if r != 0 {
            assert(q + 1 <= len) by (nonlinear_arith)
                requires
                    len == num_pes * q + r,
                    r >= 1,
                    num_pes >= 1,
                    q >= 0,
            ;
        }
    }
    if len % num_pes == 0 {
        len / num_pes
    } else {
        len / num_pes + 1
    }
}

proof fn share_is_rounded_up(len: int, n: int)
    requires
        len >= 0,
        n > 0,
    ensures
        per_pe_size(len, n) == if len % n == 0 {
            len / n
        } else {
            len / n + 1
        },
{
    let q = len / n;
    let r = len % n;
    lemma_fundamental_div_mod(len, n);
    lemma_mod_bound(len, n);
    if r == 0 {
        assert((len + n - 1) / n == q) by (nonlinear_arith)
            requires
                len == n * q,
                n > 0,
        ;
    } else {
        assert((len + n - 1) / n == q + 1) by (nonlinear_arith)
            requires
                len == n * q + r,
                0 < r < n,
        ;
    }
}

/// A handle to an array or to a part of it, on one PE: the part that starts at
/// `offset` and has `size` elements.
#[derive(Debug)]
pub struct UnsafeArrayInner {
    pub my_pe: usize,
    pub num_pes: usize,
    pub distribution: Distribution,
    pub blocks: BlockStarts,
    /// Bytes of an element.
    pub elem_size: usize,
    pub offset: usize,
    pub size: usize,
}

/// The remainder that counts how far a PE is behind another, going round.
pub open spec fn steps_behind(pe: int, start: int, n: int) -> int {
    (pe - start) % n
}

impl UnsafeArrayInner {
    pub open spec fn wf(self) -> bool {
        &&& self.blocks.wf()
        &&& self.blocks.num_pes() == self.num_pes
        &&& self.my_pe < self.num_pes
        &&& self.offset + self.size <= self.blocks.len()
    }

    /// The same array, distributed the same way.
    pub open spec fn same_array(self, other: Self) -> bool {
        &&& self.my_pe == other.my_pe
        &&& self.num_pes == other.num_pes
        &&& self.distribution == other.distribution
        &&& self.blocks@ == other.blocks@
        &&& self.elem_size == other.elem_size
    }

    /// The PE on which an element of the whole array lives.
    pub open spec fn owner(self, global_index: int) -> int {
        match self.distribution {
            Distribution::Block => self.blocks.owner(global_index),
            Distribution::Cyclic => global_index % self.num_pes as int,
        }
    }

    /// At which place on its PE an element of the whole array lives.
    pub open spec fn full_offset(self, global_index: int) -> int {
        match self.distribution {
            Distribution::Block => global_index - self.blocks@[self.blocks.owner(global_index)],
            Distribution::Cyclic => global_index / self.num_pes as int,
        }
    }

    /// Whether an element of this part lives on a PE.
    pub open spec fn lives_on(self, pe: int, index: int) -> bool {
        0 <= index < self.size && self.owner(self.offset + index) == pe
    }

    /// The PE on which an element of this part lives.
    pub open spec fn pe_for(self, index: int) -> Option<usize> {
        if 0 <= index < self.size {
            Some(self.owner(self.offset + index) as usize)
        } else {
            None
        }
    }

    proof fn owner_in_range(self, global_index: int)
        requires
            self.wf(),
            0 <= global_index < self.blocks.len(),
        ensures
            0 <= self.owner(global_index) < self.num_pes,
    {
        match self.distribution {
            Distribution::Block => {
                self.blocks.owner_exists(global_index);
            },
            Distribution::Cyclic => {
                lemma_mod_bound(global_index, self.num_pes as int);
            },
        }
    }

    /// The PE on which an element of this part lives; none if there is no such
    /// element.
    pub fn pe_for_dist_index(&self, index: usize) -> (r: Option<usize>)
        requires
            self.wf(),
        ensures
            r == self.pe_for(index as int),
            r matches Some(pe) ==> pe < self.num_pes && self.lives_on(pe as int, index as int) && (
            self.distribution == Distribution::Block ==> self.blocks.owns(
                pe as int,
                self.offset + index,
            )),
            r is Some <==> index < self.size,
            r matches Some(pe) ==> match self.distribution {
                Distribution::Block => self.blocks@[pe as int] <= self.offset + index
                    < self.blocks@[pe + 1],
                Distribution::Cyclic => pe == (self.offset + index) % self.num_pes as int,
            },
    {
        if self.size > index {
            let global_index: usize = index + self.offset;
            proof {
                self.owner_in_range(global_index as int);
            }
            match self.distribution {
                Distribution::Block => Some(self.blocks.owner_of(global_index)),
                Distribution::Cyclic => Some(global_index % self.num_pes),
            }
        } else {
            None
        }
    }

    /// The index in this part at which a PE's elements start.
    pub open spec fn start_index(self, pe: int) -> Option<usize> {
        match self.distribution {
            Distribution::Block => {
                let start = self.blocks.start(pe);
                if start >= self.offset {
                    if start - self.offset < self.size {
                        Some((start - self.offset) as usize)
                    } else {
                        None
                    }
                } else if self.offset < self.blocks.start(pe + 1) {
                    Some(0)
                } else {
                    None
                }
            },
            Distribution::Cyclic => {
                let d = steps_behind(pe, self.offset as int, self.num_pes as int);
                if 0 <= pe < self.num_pes && d < self.size {
                    Some(d as usize)
                } else {
                    None
                }
            },
        }
    }

    proof fn steps_found(self, pe: int, i: int)
        requires
            self.wf(),
            0 <= pe < self.num_pes,
            0 <= i < self.num_pes,
        ensures
            (i + self.offset % self.num_pes) % self.num_pes as int == pe <==> i == steps_behind(
                pe,
                self.offset as int,
                self.num_pes as int,
            ),
    {
        let n = self.num_pes as int;
        let o = self.offset as int;
        lemma_add_mod_noop_right(i, o, n);
        lemma_small_mod(i as nat, n as nat);
        lemma_small_mod(pe as nat, n as nat);
        lemma_mod_equivalence(i + o, pe, n);
        lemma_mod_equivalence(i, pe - o, n);
        assert(i + o - pe == i - (pe - o));
    }

    /// The index in this part at which a PE's elements start; none if this part
    /// does not reach the PE.
    pub fn start_index_for_pe(&self, pe: usize) -> (r: Option<usize>)
        requires
            self.wf(),
        ensures
            r == self.start_index(pe as int),
    {
        match self.distribution {
            Distribution::Block => {
                let global_start: usize = self.blocks.start_of(pe);
                if global_start >= self.offset {
                    if global_start - self.offset < self.size {
                        Some(global_start - self.offset)
                    } else {
                        None
                    }
                } else {
                    let global_end: usize = if pe < self.num_pes {
                        self.blocks.start_of(pe + 1)
                    } else {
                        self.blocks.start_of(pe)
                    };
                    if self.offset < global_end {
                        Some(0)
                    } else {
                        None
                    }
                }
            },
            Distribution::Cyclic => {
                let num_pes: usize = self.num_pes;
                if let Some(start_pe) = self.pe_for_dist_index(0) {
                    let temp_len: usize = if self.size < num_pes {
                        self.size
                    } else {
                        num_pes
                    };
                    proof {
                        lemma_mod_bound(pe - self.offset, num_pes as int);
                    }
                    let mut i: usize = 0;
                    let mut place: usize = start_pe;
                    proof {
                        lemma_mod_twice(self.offset as int, num_pes as int);
                    }
                    while i < temp_len
                        invariant
                            self.wf(),
                            self.distribution == Distribution::Cyclic,
                            i <= temp_len <= num_pes,
                            temp_len <= self.size,
                            num_pes == self.num_pes,
                            place < num_pes,
                            place == (i + self.offset % num_pes) % num_pes as int,
                            pe < num_pes ==> !(steps_behind(
                                pe as int,
                                self.offset as int,
                                num_pes as int,
                            ) < i),
                            0 <= steps_behind(pe as int, self.offset as int, num_pes as int),
                        decreases temp_len - i,
                    {
                        if place == pe {
                            proof {
                                self.steps_found(pe as int, i as int);
                            }
                            return Some(i);
                        }
                        proof {
                            if pe < num_pes {
                                self.steps_found(pe as int, i as int);
                            }
                            let n = num_pes as int;
                            lemma_add_mod_noop(i + self.offset % num_pes, 1, n);
                            lemma_add_mod_noop(place as int, 1, n);
                            lemma_small_mod(place as nat, n as nat);
                            if place + 1 < n {
                                lemma_small_mod((place + 1) as nat, n as nat);
                            } else {
                                lemma_mod_self_0(n);
                            }
                        }
                        place = if place + 1 < num_pes {
                            place + 1
                        } else {
                            0
                        };
                        i = i + 1;
                    }
                    proof {
                        lemma_mod_bound(pe - self.offset, num_pes as int);
                    }
                }
                None
            },
        }
    }

    /// How many elements of this part live on a PE.
    pub open spec fn count_on(self, pe: int) -> int {
        match self.distribution {
            Distribution::Block => {
                let first = if self.blocks.start(pe) > self.offset {
                    self.blocks.start(pe)
                } else {
                    self.offset as int
                };
                let behind = if self.blocks.start(pe + 1) < self.offset + self.size {
                    self.blocks.start(pe + 1)
                } else {
                    self.offset + self.size
                };
                if first < behind {
                    behind - first
                } else {
                    0
                }
            },
            Distribution::Cyclic => {
                let d = steps_behind(pe, self.offset as int, self.num_pes as int);
                if d < self.size {
                    (self.size - 1 - d) / (self.num_pes as int) + 1
                } else {
                    0
                }
            },
        }
    }

    /// How many elements of this part live on a PE.
    pub fn num_elems_pe(&self, pe: usize) -> (r: usize)
        requires
            self.wf(),
            self.distribution == Distribution::Cyclic ==> pe < self.num_pes,
            pe < usize::MAX,
        ensures
            r == self.count_on(pe as int),
            r <= self.size,
    {
        match self.distribution {
            Distribution::Block => {
                if let Some(start_i) = self.start_index_for_pe(pe) {
                    let end_i: usize = if let Some(end_i) = self.start_index_for_pe(pe + 1) {
                        end_i
                    } else {
                        self.size
                    };
                    end_i - start_i
                } else {
                    0
                }
            },
            Distribution::Cyclic => {
                let num_pes: usize = self.num_pes;
                proof {
                    cyclic_count(
                        self.size as int,
                        self.offset as int,
                        num_pes as int,
                        pe as int,
                    );
                    lemma_mod_bound(pe - self.offset, num_pes as int);
                }
                if let Some(start_pe) = self.pe_for_dist_index(0) {
                    let end_pe: usize = match self.pe_for_dist_index(self.size - 1) {
                        Some(end_pe) => end_pe,
                        None => start_pe,
                    };
                    let mut num_elems: usize = self.size / num_pes;
                    if self.size % num_pes != 0 {
                        if start_pe <= end_pe {
                            if pe >= start_pe && pe <= end_pe {
                                num_elems = num_elems + 1;
                            }
                        } else {
                            if pe >= start_pe || pe <= end_pe {
                                num_elems = num_elems + 1;
                            }
                        }
                    }
                    num_elems
                } else {
                    0
                }
            },
        }
    }

    /// How many elements of this part live on this PE.
    pub fn num_elems_local(&self) -> (r: usize)
        requires
            self.wf(),
        ensures
            r == self.count_on(self.my_pe as int),
            r <= self.size,
    {
        self.num_elems_pe(self.my_pe)
    }

    /// The index in this part of the last element on a PE.
    pub open spec fn end_index(self, pe: int) -> Option<usize> {
        match self.start_index(pe) {
            None => None,
            Some(start) => match self.distribution {
                Distribution::Block => if self.owner(self.offset + self.size - 1) == pe {
                    Some((self.size - 1) as usize)
                } else {
                    match self.start_index(pe + 1) {
                        Some(next) => Some((next - 1) as usize),
                        None => None,
                    }
                },
                Distribution::Cyclic => Some(
                    (start + (self.count_on(pe) - 1) * self.num_pes) as usize,
                ),
            },
        }
    }

    /// The index in this part of the last element on a PE; none if this part
    /// does not reach the PE. A PE whose block is empty cannot be asked for if
    /// this part starts right there; with an element for each PE no block is.
    pub fn end_index_for_pe(&self, pe: usize) -> (r: Option<usize>)
        requires
            self.wf(),
            self.size > 0,
            self.distribution == Distribution::Block && self.blocks.len() < self.num_pes
                && self.start_index(pe as int) is Some && self.owner(self.offset + self.size - 1)
                != pe ==> self.start_index(pe + 1) != Some(0usize),
        ensures
            r == self.end_index(pe as int),
    {
        let start_i: usize = match self.start_index_for_pe(pe) {
            Some(i) => i,
            None => {
                return None;
            },
        };
        match self.distribution {
            Distribution::Block => {
                let last_pe: Option<usize> = self.pe_for_dist_index(self.size - 1);
                if last_pe == Some(pe) {
                    Some(self.size - 1)
                } else {
                    proof {
                        self.owner_in_range(self.offset + self.size - 1);
                        if pe >= self.num_pes {
                            assert(self.blocks.start(pe as int) == self.blocks.len());
                        } else if self.blocks.len() >= self.num_pes {
                            self.blocks.no_block_is_empty(pe as int);
                        }
                    }
                    match self.start_index_for_pe(pe + 1) {
                        Some(next) => Some(next - 1),
                        None => None,
                    }
                }
            },
            Distribution::Cyclic => {
                let num_elems: usize = self.num_elems_pe(pe);
                proof {
                    let n = self.num_pes as int;
                    let d = steps_behind(pe as int, self.offset as int, n);
                    lemma_mod_bound(pe - self.offset, n);
                    self.last_cyclic(pe as int);
                    assert((num_elems - 1) * n >= 0) by (nonlinear_arith)
                        requires
                            num_elems >= 1,
                            n > 0,
                    ;
                }
                Some(start_i + (num_elems - 1) * self.num_pes)
            },
        }
    }

    proof fn last_cyclic(self, pe: int)
        requires
            self.wf(),
            self.distribution == Distribution::Cyclic,
            0 <= pe < self.num_pes,
            self.count_on(pe) > 0,
        ensures
            steps_behind(pe, self.offset as int, self.num_pes as int) + (self.count_on(pe) - 1)
                * self.num_pes < self.size,
    {
        let n = self.num_pes as int;
        let d = steps_behind(pe, self.offset as int, n);
        let x = self.size - 1 - d;
        lemma_fundamental_div_mod(x, n);
        lemma_mod_bound(x, n);
        assert((x / n) * n <= x) by (nonlinear_arith)
            requires
                x == n * (x / n) + x % n,
                x % n >= 0,
        ;
    }

    /// The index in the whole array of an element that lives on this PE, by its
    /// place among the elements of this part there.
    pub open spec fn global_from_local(self, index: int) -> Option<usize> {
        match self.distribution {
            Distribution::Block => {
                let start = self.blocks.start(self.my_pe as int);
                if start >= self.offset {
                    if start - self.offset < self.size {
                        Some((start + index) as usize)
                    } else {
                        None
                    }
                } else if self.offset < self.blocks.start(self.my_pe + 1) {
                    Some((self.offset + index) as usize)
                } else {
                    None
                }
            },
            Distribution::Cyclic => {
                let d = steps_behind(self.my_pe as int, self.offset as int, self.num_pes as int);
                if index < self.count_on(self.my_pe as int) {
                    Some((self.offset + d + self.num_pes * index) as usize)
                } else {
                    None
                }
            },
        }
    }

    /// The index in the whole array of an element that lives on this PE, by its
    /// place among the elements of this part there. There is none if this part
    /// does not reach the PE.
    pub fn global_index_from_local(&self, index: usize) -> (r: Option<usize>)
        requires
            self.wf(),
            self.distribution == Distribution::Cyclic ==> self.size > 0,
            self.blocks.len() + index <= usize::MAX,
        ensures
            r == self.global_from_local(index as int),
    {
        let my_pe: usize = self.my_pe;
        match self.distribution {
            Distribution::Block => {
                let global_start: usize = self.blocks.start_of(my_pe);
                if global_start >= self.offset {
                    if global_start - self.offset < self.size {
                        Some(global_start + index)
                    } else {
                        None
                    }
                } else {
                    let global_end: usize = self.blocks.start_of(my_pe + 1);
                    if self.offset < global_end {
                        Some(self.offset + index)
                    } else {
                        None
                    }
                }
            },
            Distribution::Cyclic => {
                let num_pes: usize = self.num_pes;
                let start_pe: usize = self.offset % num_pes;
                let num_elems: usize = self.num_elems_local();
                if index < num_elems {
                    let behind: usize = if start_pe <= my_pe {
                        my_pe - start_pe
                    } else {
                        (num_pes - start_pe) + my_pe
                    };
                    proof {
                        steps_are(my_pe as int, self.offset as int, num_pes as int);
                        self.last_cyclic(my_pe as int);
                        let c = self.count_on(my_pe as int);
                        assert(0 <= num_pes * index <= (c - 1) * num_pes) by (nonlinear_arith)
                            requires
                                0 <= index <= c - 1,
                                num_pes > 0,
                        ;
                    }
                    Some(num_pes * index + self.offset + behind)
                } else {
                    None
                }
            },
        }
    }
}

/// A range of places on one PE.
#[derive(Clone, Copy, Debug, PartialEq, Eq, Structural)]
pub struct Window {
    pub start: usize,
    pub end: usize,
}

/// One end of a range of indices.
#[derive(Clone, Copy, Debug, PartialEq, Eq, Structural)]
pub enum RangeBound {
    Included(usize),
    Excluded(usize),
    Unbounded,
}

/// The first index of a range.
pub open spec fn range_start(start: RangeBound) -> int {
    match start {
        RangeBound::Included(i) => i as int,
        RangeBound::Excluded(i) => i + 1,
        RangeBound::Unbounded => 0,
    }
}

/// The index behind a range of a part of `size` elements.
pub open spec fn range_end(end: RangeBound, size: int) -> int {
    match end {
        RangeBound::Included(i) => i + 1,
        RangeBound::Excluded(i) => i as int,
        RangeBound::Unbounded => size,
    }
}

impl UnsafeArrayInner {
    /// At which place among a PE's elements of this part an element stands.
    pub open spec fn offset_on(self, pe: int, index: int) -> Option<usize> {
        match self.distribution {
            Distribution::Block => match self.start_index(pe) {
                Some(start) => if start <= index < start + self.count_on(pe) {
                    Some((index - start) as usize)
                } else {
                    None
                },
                None => None,
            },
            Distribution::Cyclic => if (self.offset + index) % (self.num_pes as int) == pe {
                Some((index / self.num_pes as int) as usize)
            } else {
                None
            },
        }
    }

    /// At which place among a PE's elements of this part an element stands;
    /// none if the element does not live on the PE.
    pub fn pe_offset_for_dist_index(&self, pe: usize, index: usize) -> (r: Option<usize>)
        requires
            self.wf(),
            self.offset + index <= usize::MAX,
        ensures
            r == self.offset_on(pe as int, index as int),
    {
        match self.distribution {
            Distribution::Block => {
                if pe >= self.num_pes {
                    assert(self.start_index(pe as int) is None);
                    return None;
                }
                let num_elems_local: usize = self.num_elems_pe(pe);
                match self.start_index_for_pe(pe) {
                    Some(pe_start_index) => if pe_start_index <= index && index - pe_start_index
                        < num_elems_local {
                        Some(index - pe_start_index)
                    } else {
                        None
                    },
                    None => None,
                }
            },
            Distribution::Cyclic => {
                let global_index: usize = self.offset + index;
                if global_index % self.num_pes == pe {
                    Some(index / self.num_pes)
                } else {
                    None
                }
            },
        }
    }

    /// At which place on a PE, counted over the whole array, an element of this
    /// PE's lives.
    pub open spec fn full_offset_from_local(self, pe: int, index: int) -> Option<usize> {
        match self.global_from_local(index) {
            None => None,
            Some(global_index) => match self.distribution {
                Distribution::Block => if self.blocks.start(pe) <= global_index
                    < self.blocks.start(pe + 1) {
                    Some((global_index - self.blocks.start(pe)) as usize)
                } else {
                    None
                },
                Distribution::Cyclic => if global_index % self.num_pes == pe {
                    Some((global_index / self.num_pes) as usize)
                } else {
                    None
                },
            },
        }
    }

    /// At which place on a PE, counted over the whole array, the element lives
    /// that stands at place `index` among this PE's elements of this part; none
    /// if it does not live on that PE.
    pub fn pe_full_offset_for_local_index(&self, pe: usize, index: usize) -> (r: Option<usize>)
        requires
            self.wf(),
            pe < usize::MAX,
            self.distribution == Distribution::Cyclic ==> self.size > 0,
            self.blocks.len() + index <= usize::MAX,
        ensures
            r == self.full_offset_from_local(pe as int, index as int),
    {
        let global_index: usize = match self.global_index_from_local(index) {
            Some(g) => g,
            None => {
                return None;
            },
        };
        match self.distribution {
            Distribution::Block => {
                let pe_start_index: usize = self.blocks.start_of(pe);
                let pe_end_index: usize = self.blocks.start_of(pe + 1);
                if pe_start_index <= global_index && global_index < pe_end_index {
                    Some(global_index - pe_start_index)
                } else {
                    None
                }
            },
            Distribution::Cyclic => {
                if global_index % self.num_pes == pe {
                    Some(global_index / self.num_pes)
                } else {
                    None
                }
            },
        }
    }

    /// The index in this part of an element that lives on this PE, by its place
    /// among the elements of this part there.
    pub open spec fn index_from_local(self, index: int) -> Option<usize> {
        match self.start_index(self.my_pe as int) {
            None => None,
            Some(start) => match self.distribution {
                Distribution::Block => if start + index < self.size {
                    Some((start + index) as usize)
                } else {
                    None
                },
                Distribution::Cyclic => if index < self.count_on(self.my_pe as int) {
                    Some((start + self.num_pes * index) as usize)
                } else {
                    None
                },
            },
        }
    }

    /// The index in this part of an element that lives on this PE, by its place
    /// among the elements of this part there; none if this part ends before.
    pub fn subarray_index_from_local(&self, index: usize) -> (r: Option<usize>)
        requires
            self.wf(),
            self.size + index <= usize::MAX,
        ensures
            r == self.index_from_local(index as int),
    {
        let my_start_index: usize = match self.start_index_for_pe(self.my_pe) {
            Some(i) => i,
            None => {
                return None;
            },
        };
        match self.distribution {
            Distribution::Block => {
                if my_start_index + index < self.size {
                    Some(my_start_index + index)
                } else {
                    None
                }
            },
            Distribution::Cyclic => {
                let num_elems_local: usize = self.num_elems_local();
                if index < num_elems_local {
                    proof {
                        lemma_mod_bound(self.my_pe - self.offset, self.num_pes as int);
                        self.last_cyclic(self.my_pe as int);
                        let c = self.count_on(self.my_pe as int);
                        assert(0 <= self.num_pes * index <= (c - 1) * self.num_pes)
                            by (nonlinear_arith)
                            requires
                                0 <= index <= c - 1,
                                self.num_pes > 0,
                        ;
                    }
                    Some(my_start_index + self.num_pes * index)
                } else {
                    None
                }
            },
        }
    }

    /// At which place on this PE, counted over the whole array, the elements of
    /// this part start.
    pub open spec fn window_start(self) -> int {
        match self.distribution {
            Distribution::Block => if self.owner(self.offset as int) == self.my_pe {
                self.offset - self.blocks.start(self.my_pe as int)
            } else {
                0
            },
            Distribution::Cyclic => self.offset as int / self.num_pes as int + if self.my_pe
                >= self.offset % self.num_pes {
                0int
            } else {
                1
            },
        }
    }

    proof fn window_fits(self)
        requires
            self.wf(),
            self.distribution == Distribution::Block ==> self.size > 0,
        ensures
            0 <= self.window_start(),
            self.window_start() + self.count_on(self.my_pe as int) <= per_pe_size(
                self.blocks.len(),
                self.num_pes as int,
            ),
    {
        let n = self.num_pes as int;
        let pe = self.my_pe as int;
        let len = self.blocks.len();
        match self.distribution {
            Distribution::Block => {
                self.blocks.owner_exists(self.offset as int);
                let o = self.blocks.owner(self.offset as int);
                assert(self.blocks@[pe + 1] - self.blocks@[pe] <= per_pe_size(len, n));
                if o != pe {
                    if o < pe {
                        assert(self.blocks@[o + 1] <= self.blocks@[pe]);
                    } else {
                        assert(self.blocks@[pe + 1] <= self.blocks@[o]);
                    }
                }
            },
            Distribution::Cyclic => {
                let o = self.offset as int;
                let a = o % n;
                let q = o / n;
                let d = steps_behind(pe, o, n);
                steps_are(pe, o, n);
                lemma_fundamental_div_mod(o, n);
                lemma_mod_bound(o, n);
                assert(q >= 0) by (nonlinear_arith)
                    requires
                        o == n * q + a,
                        a < n,
                        o >= 0,
                        n > 0,
                ;
                let c = self.count_on(pe);
                let w = self.window_start();
                let share = per_pe_size(len, n);
                lemma_fundamental_div_mod(len + n - 1, n);
                lemma_mod_bound(len + n - 1, n);
                assert(o + d == n * w + pe) by {
                    assert(n * (q + 1) == n * q + n) by (nonlinear_arith);
                }
                if c > 0 {
                    self.last_cyclic(pe);
                    // The last element is an element of the array.
                    assert(n * (w + c - 1) == n * w + (c - 1) * n) by (nonlinear_arith);
                    assert(w + c <= share) by (nonlinear_arith)
                        requires
                            n * (w + c - 1) + pe < len,
                            len + n - 1 == n * share + (len + n - 1) % n,
                            0 <= (len + n - 1) % n < n,
                            0 <= pe,
                            n > 0,
                    ;
                } else {
                    assert(d >= 0);
                    assert(n * w + pe == o + d);
                    assert(w <= share) by (nonlinear_arith)
                        requires
                            n * w + pe <= len + n - 1,
                            len + n - 1 == n * share + (len + n - 1) % n,
                            0 <= (len + n - 1) % n < n,
                            0 <= pe,
                            n > 0,
                    ;
                }
            },
        }
    }

    /// Which places on this PE, counted over the whole array, hold the elements
    /// of this part.
    pub fn local_window(&self) -> (r: Window)
        requires
            self.wf(),
            self.distribution == Distribution::Block ==> self.size > 0,
        ensures
            r.start == self.window_start(),
            r.end == r.start + self.count_on(self.my_pe as int),
            r.end <= per_pe_size(self.blocks.len(), self.num_pes as int),
    {
        let num_elems_local: usize = self.num_elems_local();
        proof {
            self.window_fits();
            let n = self.num_pes as int;
            let len = self.blocks.len();
            share_is_rounded_up(len, n);
            lemma_fundamental_div_mod(len, n);
            lemma_mod_bound(len, n);
            assert(per_pe_size(len, n) <= len) by (nonlinear_arith)
                requires
                    len == n * (len / n) + len % n,
                    0 <= len % n < n,
                    n >= 1,
                    len >= 0,
                    per_pe_size(len, n) == (if len % n == 0 {
                        len / n
                    } else {
                        len / n + 1
                    }),
            ;
        }
        let start: usize = match self.distribution {
            Distribution::Block => {
                let start_pe: Option<usize> = self.pe_for_dist_index(0);
                if start_pe == Some(self.my_pe) {
                    self.offset - self.blocks.start_of(self.my_pe)
                } else {
                    0
                }
            },
            Distribution::Cyclic => {
                self.offset / self.num_pes + if self.my_pe >= self.offset % self.num_pes {
                    0usize
                } else {
                    1
                }
            },
        };
        Window { start, end: start + num_elems_local }
    }
}

impl UnsafeArrayInner {
    /// The array has room in memory.
    pub open spec fn fits_memory(self) -> bool {
        per_pe_size(self.blocks.len(), self.num_pes as int) * self.elem_size <= usize::MAX
    }

    /// Which bytes of this PE's memory hold the elements of this part.
    pub fn local_as_mut_slice(&self) -> (r: Window)
        requires
            self.wf(),
            self.fits_memory(),
            self.distribution == Distribution::Block ==> self.size > 0,
        ensures
            r.start == self.window_start() * self.elem_size,
            r.end == (self.window_start() + self.count_on(self.my_pe as int)) * self.elem_size,
            r.start <= r.end <= per_pe_size(self.blocks.len(), self.num_pes as int)
                * self.elem_size,
    {
        let w = self.local_window();
        let ghost share = per_pe_size(self.blocks.len(), self.num_pes as int);
        assert(0 <= w.start * self.elem_size <= w.end * self.elem_size <= share * self.elem_size)
            by (nonlinear_arith)
            requires
                0 <= w.start <= w.end <= share,
                self.elem_size >= 0,
        ;
        Window { start: w.start * self.elem_size, end: w.end * self.elem_size }
    }

    /// The byte of this PE's memory at which the elements of this part start.
    pub fn local_as_mut_ptr(&self) -> (r: usize)
        requires
            self.wf(),
            self.fits_memory(),
            self.distribution == Distribution::Block ==> self.size > 0,
        ensures
            r == self.window_start() * self.elem_size,
    {
        let w = self.local_as_mut_slice();
        w.start
    }

    /// The part of this part that a range of indices covers.
    pub open spec fn sub(self, start: int, end: int) -> UnsafeArrayInner {
        UnsafeArrayInner {
            offset: (self.offset + start) as usize,
            size: (end - start) as usize,
            ..self
        }
    }

    /// Takes the part of this part that a range of indices covers. The range
    /// may not go beyond this part.
    pub fn sub_array(self, start: RangeBound, end: RangeBound) -> (r: UnsafeArrayInner)
        requires
            self.wf(),
            range_end(end, self.size as int) <= self.size,
            range_start(start) <= range_end(end, self.size as int),
        ensures
            r.wf(),
            r == self.sub(range_start(start), range_end(end, self.size as int)),
            r.offset == self.offset + (match start {
                RangeBound::Included(first) => first as int,
                RangeBound::Excluded(before) => before + 1,
                RangeBound::Unbounded => 0,
            }),
            r.offset + r.size == self.offset + (match end {
                RangeBound::Included(last) => last + 1,
                RangeBound::Excluded(behind) => behind as int,
                RangeBound::Unbounded => self.size as int,
            }),
            r == (UnsafeArrayInner { offset: r.offset, size: r.size, ..self }),
    {
        let first: usize = match start {
            RangeBound::Included(i) => i,
            RangeBound::Excluded(i) => i + 1,
            RangeBound::Unbounded => 0,
        };
        let behind: usize = match end {
            RangeBound::Included(i) => i + 1,
            RangeBound::Excluded(i) => i,
            RangeBound::Unbounded => self.size,
        };
        let mut inner = self;
        inner.offset = inner.offset + first;
        inner.size = behind - first;
        inner
    }

    /// The index in the whole array of an element of this part.
    pub fn global_index(&self, sub_index: usize) -> (r: usize)
        requires
            self.offset + sub_index <= usize::MAX,
        ensures
            r == self.offset + sub_index,
    {
        self.offset + sub_index
    }

    /// The indices of the whole array that this part covers.
    pub fn sub_array_range(&self) -> (r: Window)
        requires
            self.wf(),
        ensures
            r.start == self.offset,
            r.end == self.offset + self.size,
    {
        Window { start: self.offset, end: self.offset + self.size }
    }

    /// The same elements, addressed as if they were distributed another way.
    pub fn use_distribution(self, distribution: Distribution) -> (r: UnsafeArrayInner)
        requires
            self.wf(),
        ensures
            r.wf(),
            r == (UnsafeArrayInner { distribution, ..self }),
    {
        UnsafeArrayInner { distribution, ..self }
    }

    /// The PE and the place among its elements where an element of this part
    /// lives; none if there is no such element.
    pub fn pe_and_offset_for_global_index(&self, index: usize) -> (r: Option<(usize, usize)>)
        requires
            self.wf(),
        ensures
            r is Some <==> index < self.size,
            r matches Some((pe, offset)) ==> self.pe_for(index as int) == Some(pe)
                && self.offset_on(pe as int, index as int) == Some(offset) && offset
                < self.count_on(pe as int) && pe < self.num_pes && match self.distribution {
                Distribution::Block => self.blocks@[pe as int] <= self.offset + index
                    < self.blocks@[pe + 1],
                Distribution::Cyclic => pe == (self.offset + index) % self.num_pes as int,
            },
    {
        match self.pe_for_dist_index(index) {
            Some(pe) => {
                proof {
                    element_has_place(*self, index as int);
                }
                match self.pe_offset_for_dist_index(pe, index) {
                    Some(offset) => Some((pe, offset)),
                    None => None,
                }
            },
            None => None,
        }
    }
}

impl UnsafeArrayInner {
    /// The PE and the place among its elements where an element of this part
    /// lives.
    pub fn calc_pe_and_offset(&self, index: usize) -> (r: (usize, usize))
        requires
            self.wf(),
            index < self.size,
        ensures
            self.pe_for(index as int) == Some(r.0),
            self.offset_on(r.0 as int, index as int) == Some(r.1),
            r.1 < self.count_on(r.0 as int),
            r.0 < self.num_pes,
            match self.distribution {
                Distribution::Block => self.blocks@[r.0 as int] <= self.offset + index
                    < self.blocks@[r.0 + 1],
                Distribution::Cyclic => r.0 == (self.offset + index) % self.num_pes as int,
            },
    {
        match self.pe_and_offset_for_global_index(index) {
            Some(x) => x,
            None => (0, 0),
        }
    }
}

/// Every element of a part has a place among the elements of the PE on which it
/// lives.
pub proof fn element_has_place(a: UnsafeArrayInner, index: int)
    requires
        a.wf(),
        0 <= index < a.size,
    ensures
        0 <= a.owner(a.offset + index) < a.num_pes,
        a.offset_on(a.owner(a.offset + index), index) matches Some(k) && k < a.count_on(
            a.owner(a.offset + index),
        ),
{
    let g = a.offset + index;
    let pe = a.owner(g);
    a.owner_in_range(g);
    match a.distribution {
        Distribution::Block => {
            a.blocks.owner_exists(g);
        },
        Distribution::Cyclic => {
            cyclic_place(a, index);
        },
    }
}

proof fn cyclic_place(a: UnsafeArrayInner, index: int)
    requires
        a.wf(),
        a.distribution == Distribution::Cyclic,
        0 <= index < a.size,
    ensures
        ({
            let n = a.num_pes as int;
            let pe = a.owner(a.offset + index);
            let d = steps_behind(pe, a.offset as int, n);
            &&& 0 <= d < n
            &&& index == d + n * (index / n)
            &&& 0 <= index / n < a.count_on(pe)
        }),
{
    let n = a.num_pes as int;
    let o = a.offset as int;
    let g = o + index;
    let pe = g % n;
    let d = steps_behind(pe, o, n);
    let k = index / n;
    lemma_mod_bound(g, n);
    lemma_mod_bound(pe - o, n);
    lemma_sub_mod_noop(g, o, n);
    lemma_sub_mod_noop(pe, o, n);
    lemma_mod_twice(g, n);
    assert(d == index % n);
    lemma_fundamental_div_mod(index, n);
    let y = a.size - 1 - d;
    lemma_fundamental_div_mod(y, n);
    lemma_mod_bound(y, n);
    assert(0 <= k <= y / n) by (nonlinear_arith)
        requires
            index == n * k + d,
            0 <= d < n,
            index >= 0,
            y >= index - d,
            y == n * (y / n) + y % n,
            0 <= y % n < n,
            n > 0,
    ;
}

/// An element is found back from its place: the place of an element among this
/// PE's elements leads back to the element.
pub proof fn place_leads_back(a: UnsafeArrayInner, index: int)
    requires
        a.wf(),
        0 <= index < a.size,
        a.owner(a.offset + index) == a.my_pe,
    ensures
        a.offset_on(a.my_pe as int, index) matches Some(k) && a.global_from_local(k as int) == Some(
            (a.offset + index) as usize,
        ) && a.index_from_local(k as int) == Some(index as usize),
{
    element_has_place(a, index);
    match a.distribution {
        Distribution::Block => {
            a.blocks.owner_exists(a.offset + index);
        },
        Distribution::Cyclic => {
            cyclic_place(a, index);
            let n = a.num_pes as int;
            let pe = a.my_pe as int;
            lemma_mod_bound(pe - a.offset, n);
        },
    }
}

/// Every place among this PE's elements of a part belongs to an element of the
/// part that lives here and stands at that place.
pub proof fn place_has_element(a: UnsafeArrayInner, k: int)
    requires
        a.wf(),
        0 <= k < a.count_on(a.my_pe as int),
    ensures
        a.global_from_local(k) matches Some(g) && a.offset <= g < a.offset + a.size && a.owner(
            g as int,
        ) == a.my_pe && a.offset_on(a.my_pe as int, g - a.offset) == Some(k as usize)
            && a.index_from_local(k) == Some((g - a.offset) as usize) && a.full_offset(g as int)
            == a.window_start() + k && a.full_offset_from_local(a.my_pe as int, k) == Some(
            (a.window_start() + k) as usize,
        ),
{
    let pe = a.my_pe as int;
    match a.distribution {
        Distribution::Block => {
            let g = (a.global_from_local(k)->0) as int;
            assert(a.blocks.owns(pe, g));
            a.blocks.owner_is(pe, g);
            a.blocks.owner_exists(a.offset as int);
            let o = a.blocks.owner(a.offset as int);
            if o != pe {
                if o < pe {
                    assert(a.blocks@[o + 1] <= a.blocks@[pe]);
                } else {
                    assert(a.blocks@[pe + 1] <= a.blocks@[o]);
                }
            }
        },
        Distribution::Cyclic => {
            let n = a.num_pes as int;
            let o = a.offset as int;
            let d = steps_behind(pe, o, n);
            lemma_mod_bound(pe - o, n);
            a.last_cyclic(pe);
            let c = a.count_on(pe);
            assert(0 <= n * k <= (c - 1) * n) by (nonlinear_arith)
                requires
                    0 <= k <= c - 1,
                    n > 0,
            ;
            let g = o + d + n * k;
            let w = a.window_start();
            steps_are(pe, o, n);
            lemma_fundamental_div_mod(o, n);
            assert(o + d == n * w + pe) by {
                assert(n * (o / n + 1) == n * (o / n) + n) by (nonlinear_arith);
            }
            assert(g == n * (w + k) + pe) by {
                assert(n * (w + k) == n * w + n * k) by (nonlinear_arith);
            }
            lemma_mod_multiples_vanish(w + k, pe, n);
            lemma_small_mod(pe as nat, n as nat);
            assert(g == (w + k) * n + pe) by (nonlinear_arith)
                requires
                    g == n * (w + k) + pe,
            ;
            lemma_fundamental_div_mod_converse(g, n, w + k, pe);
            let index = d + n * k;
            assert(index == k * n + d) by (nonlinear_arith)
                requires
                    index == d + n * k,
            ;
            lemma_fundamental_div_mod_converse(index, n, k, d);
        },
    }
}

/// Behind this PE's elements of a part places are counted on if the elements are in one
/// block, in the part as far as the part reaches. If they are dealt out in turn, there
/// are no further places.
pub proof fn places_behind_elements(a: UnsafeArrayInner, k: int)
    requires
        a.wf(),
        0 < a.count_on(a.my_pe as int) <= k,
        a.blocks.len() + a.size + k <= usize::MAX,
    ensures
        a.distribution == Distribution::Block ==> {
            &&& a.global_from_local(0) matches Some(g)
            &&& a.global_from_local(k) == Some((g + k) as usize)
            &&& g + k < a.offset + a.size ==> a.index_from_local(k) == Some(
                (g + k - a.offset) as usize,
            )
            &&& g + k >= a.offset + a.size ==> a.index_from_local(k) is None
        },
        a.distribution == Distribution::Cyclic ==> a.global_from_local(k) is None
            && a.index_from_local(k) is None,
{
    place_has_element(a, 0);
    if a.distribution == Distribution::Cyclic {
        lemma_mod_bound(a.my_pe - a.offset, a.num_pes as int);
    }
}

/// The places that hold a part's elements lie in this PE's memory.
pub proof fn window_is_in_memory(a: UnsafeArrayInner)
    requires
        a.wf(),
        a.distribution == Distribution::Block ==> a.size > 0,
    ensures
        0 <= a.window_start(),
        a.window_start() + a.count_on(a.my_pe as int) <= per_pe_size(
            a.blocks.len(),
            a.num_pes as int,
        ),
{
    a.window_fits();
}

/// A whole array's elements start at the beginning of a PE's memory.
pub proof fn whole_starts_at_zero(a: UnsafeArrayInner)
    requires
        a.wf(),
        a.offset == 0,
        a.size > 0,
    ensures
        a.window_start() == 0,
{
    match a.distribution {
        Distribution::Block => {
            a.blocks.owner_exists(0);
            let o = a.blocks.owner(0);
            assert(a.blocks@[0] <= a.blocks@[o]);
        },
        Distribution::Cyclic => {
            lemma_small_mod(0, a.num_pes as nat);
            assert(0int / a.num_pes as int == 0) by (nonlinear_arith)
                requires
                    a.num_pes > 0,
            ;
        },
    }
}

/// Equal tables of blocks give every index to the same PE.
pub proof fn blocks_agree(a: BlockStarts, b: BlockStarts, index: int)
    requires
        a.wf(),
        b.wf(),
        a@ == b@,
        0 <= index < a.len(),
    ensures
        a.owner(index) == b.owner(index),
{
    a.owner_exists(index);
    b.owner_exists(index);
    a.owner_is(b.owner(index), index);
}

/// The room on each PE is enough for all elements together, and with one place less
/// on each PE it would not be.
pub proof fn room_is_enough(len: int, num_pes: int)
    requires
        0 < len,
        0 < num_pes,
    ensures
        per_pe_size(len, num_pes) * num_pes >= len,
        (per_pe_size(len, num_pes) - 1) * num_pes < len,
{
    share_is_rounded_up(len, num_pes);
    lemma_fundamental_div_mod(len, num_pes);
    lemma_mod_bound(len, num_pes);
    let q = len / num_pes;
    let r = len % num_pes;
    assert(q * num_pes + r == len && (q + 1) * num_pes >= len && (q - 1) * num_pes < len)
        by (nonlinear_arith)
        requires
            len == num_pes * q + r,
            0 <= r < num_pes,
            num_pes > 0,
    ;
}

/// How elements are distributed. Under a cyclic distribution neighbours go round the
/// PEs, and each round stands one place further on; under a block distribution
/// neighbours stand next to each other on one PE, until the next PE's block starts.
pub proof fn neighbours_follow_distribution(a: UnsafeArrayInner, g: int)
    requires
        a.wf(),
        0 <= g,
        g + 1 < a.blocks.len(),
    ensures
        a.distribution == Distribution::Cyclic ==> {
            &&& a.owner(0) == 0 && a.full_offset(0) == 0
            &&& if a.owner(g) + 1 < a.num_pes {
                a.owner(g + 1) == a.owner(g) + 1 && a.full_offset(g + 1) == a.full_offset(g)
            } else {
                a.owner(g + 1) == 0 && a.full_offset(g + 1) == a.full_offset(g) + 1
            }
        },
        a.distribution == Distribution::Block ==> {
            &&& a.owner(g) <= a.owner(g + 1)
            &&& a.owner(g + 1) == a.owner(g) ==> a.full_offset(g + 1) == a.full_offset(g) + 1
            &&& a.owner(g + 1) != a.owner(g) ==> a.full_offset(g + 1) == 0
        },
{
    let n = a.num_pes as int;
    match a.distribution {
        Distribution::Cyclic => {
            lemma_fundamental_div_mod(g, n);
            lemma_mod_bound(g, n);
            let (q, r) = (g / n, g % n);
            lemma_small_mod(0, n as nat);
            lemma_basic_div(0, n);
            if r + 1 < n {
                assert(g + 1 == q * n + (r + 1)) by (nonlinear_arith)
                    requires
                        g == n * q + r,
                ;
                lemma_fundamental_div_mod_converse(g + 1, n, q, r + 1);
            } else {
                assert(g + 1 == (q + 1) * n + 0) by (nonlinear_arith)
                    requires
                        g == n * q + r,
                        r + 1 == n,
                ;
                lemma_fundamental_div_mod_converse(g + 1, n, q + 1, 0);
            }
        },
        Distribution::Block => {
            a.blocks.owner_exists(g);
            a.blocks.owner_exists(g + 1);
            let p = a.blocks.owner(g);
            let q = a.blocks.owner(g + 1);
            if q < p {
                assert(a.blocks@[q + 1] <= a.blocks@[p]);
            }
            if p < q {
                assert(a.blocks@[p + 1] <= a.blocks@[q]);
            }
        },
    }
}

/// An element has no place on a PE on which it does not live.
pub proof fn no_place_elsewhere(a: UnsafeArrayInner, pe: int, index: int)
    requires
        a.wf(),
        0 <= index < a.size,
        0 <= pe < a.num_pes,
        pe != a.owner(a.offset + index),
    ensures
        a.offset_on(pe, index) is None,
{
    if a.distribution == Distribution::Block {
        if let Some(k) = a.offset_on(pe, index) {
            a.blocks.owner_is(pe, a.offset + index);
        }
    }
}

/// An element of this PE's has no place in another PE's memory.
pub proof fn own_elements_are_here(a: UnsafeArrayInner, pe: int, k: int)
    requires
        a.wf(),
        0 <= k < a.count_on(a.my_pe as int),
        0 <= pe < a.num_pes,
        pe != a.my_pe,
    ensures
        a.full_offset_from_local(pe, k) is None,
{
    place_has_element(a, k);
    let g = (a.global_from_local(k)->0) as int;
    match a.distribution {
        Distribution::Block => {
            a.blocks.owner_exists(g);
            if a.blocks.owns(pe, g) {
                a.blocks.owner_is(pe, g);
            }
        },
        Distribution::Cyclic => {},
    }
}

/// A PE has as many elements of a part as there are indices whose elements live
/// there: its places and those indices belong to each other, one to one.
pub proof fn places_count_elements(a: UnsafeArrayInner, i: int, j: int)
    requires
        a.wf(),
        0 <= i < j < a.size,
        a.owner(a.offset + i) == a.my_pe,
        a.owner(a.offset + j) == a.my_pe,
    ensures
        a.offset_on(a.my_pe as int, i) is Some,
        a.offset_on(a.my_pe as int, j) is Some,
        a.offset_on(a.my_pe as int, i)->0 < a.offset_on(a.my_pe as int, j)->0,
        a.offset_on(a.my_pe as int, j)->0 < a.count_on(a.my_pe as int),
{
    element_has_place(a, i);
    element_has_place(a, j);
    place_leads_back(a, i);
    place_leads_back(a, j);
    if a.distribution == Distribution::Cyclic {
        cyclic_place(a, i);
        cyclic_place(a, j);
        let n = a.num_pes as int;
        let (x, y) = (i / n, j / n);
        assert(x < y) by (nonlinear_arith)
            requires
                n * x < n * y,
                n > 0,
        ;
    }
}

/// Different elements live at different places: an array never stores two
/// elements in one place.
pub proof fn places_are_distinct(a: UnsafeArrayInner, g: int, h: int)
    requires
        a.wf(),
        0 <= g < a.blocks.len(),
        0 <= h < a.blocks.len(),
        a.owner(g) == a.owner(h),
        a.full_offset(g) == a.full_offset(h),
    ensures
        g == h,
{
    match a.distribution {
        Distribution::Block => {},
        Distribution::Cyclic => {
            lemma_fundamental_div_mod(g, a.num_pes as int);
            lemma_fundamental_div_mod(h, a.num_pes as int);
        },
    }
}

/// An element of a part of a part is the same element of the part: it lives on
/// the same PE at the same place.
pub proof fn sub_array_keeps_elements(a: UnsafeArrayInner, start: int, end: int, index: int)
    requires
        a.wf(),
        0 <= start <= end <= a.size,
        0 <= index < end - start,
    ensures
        a.sub(start, end).wf(),
        a.sub(start, end).offset + index == a.offset + (start + index),
        a.sub(start, end).pe_for(index) == a.pe_for(start + index),
        a.sub(start, end).full_offset(a.sub(start, end).offset + index) == a.full_offset(
            a.offset + (start + index),
        ),
{
}

/// The first and the last index of a PE's elements are indices of elements that
/// live there, and all others lie between them.
pub proof fn ends_enclose_elements(a: UnsafeArrayInner, pe: int, index: int)
    requires
        a.wf(),
        0 <= pe < a.num_pes,
        a.lives_on(pe, index),
    ensures
        a.start_index(pe) matches Some(first) && first <= index && a.lives_on(pe, first as int),
        a.end_index(pe) matches Some(last) && index <= last && a.lives_on(pe, last as int),
{
    match a.distribution {
        Distribution::Block => {
            let g = a.offset + index;
            a.blocks.owner_exists(g);
            let s = a.start_index(pe)->0;
            a.blocks.owner_is(pe, a.offset + s);
            let last = a.offset + a.size - 1;
            a.blocks.owner_exists(last);
            let o = a.blocks.owner(last);
            if o != pe {
                if o < pe {
                    assert(a.blocks@[o + 1] <= a.blocks@[pe]);
                }
                assert(a.blocks@[pe + 1] <= a.blocks@[o]);
                let e = a.end_index(pe)->0;
                a.blocks.owner_is(pe, a.offset + e);
            }
        },
        Distribution::Cyclic => {
            let there = UnsafeArrayInner { my_pe: pe as usize, ..a };
            let n = a.num_pes as int;
            let c = a.count_on(pe);
            cyclic_place(a, index);
            lemma_mod_bound(pe - a.offset, n);
            a.last_cyclic(pe);
            place_has_element(there, 0);
            place_has_element(there, c - 1);
            let k = index / n;
            assert(n * k <= (c - 1) * n) by (nonlinear_arith)
                requires
                    k <= c - 1,
                    n > 0,
            ;
            assert(n * (c - 1) == (c - 1) * n) by (nonlinear_arith);
        },
    }
}

/// A PE on which no element of a part lives has no first and no last index, if
/// elements go round the PEs or the array has an element for each PE.
pub proof fn no_elements_no_indices(a: UnsafeArrayInner, pe: int)
    requires
        a.wf(),
        0 <= pe < a.num_pes,
        a.size > 0,
        a.distribution == Distribution::Block ==> a.blocks.len() >= a.num_pes,
        forall|index: int| !#[trigger] a.lives_on(pe, index),
    ensures
        a.start_index(pe) is None,
        a.end_index(pe) is None,
{
    match a.distribution {
        Distribution::Block => {
            a.blocks.no_block_is_empty(pe);
            if let Some(first) = a.start_index(pe) {
                assert(a.blocks.owns(pe, a.offset + first));
                a.blocks.owner_is(pe, a.offset + first);
                assert(a.lives_on(pe, first as int));
            }
        },
        Distribution::Cyclic => {
            if let Some(first) = a.start_index(pe) {
                let n = a.num_pes as int;
                lemma_mod_bound(pe - a.offset, n);
                let there = UnsafeArrayInner { my_pe: pe as usize, ..a };
                lemma_div_pos_is_pos(a.size - 1 - first, n);
                place_has_element(there, 0);
                assert(a.lives_on(pe, first as int));
            }
        },
    }
}

/// PEs have the same number of elements of a whole array, but for one.
pub proof fn shares_are_even(a: UnsafeArrayInner, p: int, q: int)
    requires
        a.wf(),
        a.offset == 0,
        a.size == a.blocks.len(),
        0 <= p < a.num_pes,
        0 <= q < a.num_pes,
    ensures
        a.count_on(p) - a.count_on(q) <= 1,
{
    let n = a.num_pes as int;
    share_is_rounded_up(a.size as int, n);
    assert(a.size as int / n <= a.count_on(p) <= per_pe_size(a.size as int, n)) by {
        share_of(a, p);
    }
    assert(a.size as int / n <= a.count_on(q) <= per_pe_size(a.size as int, n)) by {
        share_of(a, q);
    }
}

proof fn share_of(a: UnsafeArrayInner, pe: int)
    requires
        a.wf(),
        a.offset == 0,
        a.size == a.blocks.len(),
        0 <= pe < a.num_pes,
    ensures
        a.size as int / a.num_pes as int <= a.count_on(pe) <= per_pe_size(
            a.size as int,
            a.num_pes as int,
        ),
{
    let n = a.num_pes as int;
    let size = a.size as int;
    match a.distribution {
        Distribution::Block => {
            assert(a.blocks@[pe] <= a.blocks@[pe + 1]);
            assert(a.blocks@[pe + 1] <= a.blocks@[n]);
            lemma_div_pos_is_pos(size, n);
        },
        Distribution::Cyclic => {
            lemma_small_mod(pe as nat, n as nat);
            assert(steps_behind(pe, 0, n) == pe);
            lemma_div_pos_is_pos(size, n);
            let x = size - 1 - pe;
            let top = size + n - 1;
            lemma_fundamental_div_mod(top, n);
            lemma_mod_bound(top, n);
            lemma_fundamental_div_mod(size, n);
            lemma_mod_bound(size, n);
            if pe < size {
                lemma_fundamental_div_mod(x, n);
                lemma_mod_bound(x, n);
                let (c, f, t) = (x / n + 1, size / n, top / n);
                assert(f <= c <= t) by (nonlinear_arith)
                    requires
                        x == n * (x / n) + x % n,
                        0 <= x % n < n,
                        size == n * f + size % n,
                        0 <= size % n < n,
                        top == n * t + top % n,
                        0 <= top % n < n,
                        c == x / n + 1,
                        x == size - 1 - pe,
                        top == size + n - 1,
                        0 <= pe < n,
                ;
            } else {
                lemma_small_div_is_zero(size, n);
                lemma_div_pos_is_pos(top, n);
            }
        },
    }
}

proof fn lemma_small_div_is_zero(x: int, n: int)
    requires
        0 <= x < n,
    ensures
        x / n == 0,
{
    lemma_basic_div(x, n);
}

/// How many elements each PE has.
pub open spec fn counts(a: UnsafeArrayInner) -> Seq<int> {
    Seq::new(a.num_pes as nat, |pe: int| a.count_on(pe))
}

/// The elements of a part are on the PEs, each on one: the PEs' counts add up
/// to the size of the part.
pub proof fn counts_add_up(a: UnsafeArrayInner)
    requires
        a.wf(),
    ensures
        math::total(counts(a)) == a.size,
{
    match a.distribution {
        Distribution::Block => {
            block_counts(a, a.num_pes as int);
            assert(counts(a).take(a.num_pes as int) == counts(a));
        },
        Distribution::Cyclic => {
            cyclic_counts(a.size as int, a.offset as int, a.num_pes as int);
            assert(counts(a) =~= Seq::new(
                a.num_pes as nat,
                |pe: int| cyclic_share(a.size as int, a.offset as int, a.num_pes as int, pe),
            ));
        },
    }
}

spec fn clip(a: UnsafeArrayInner, x: int) -> int {
    if x < a.offset {
        a.offset as int
    } else if x > a.offset + a.size {
        a.offset + a.size
    } else {
        x
    }
}

proof fn block_counts(a: UnsafeArrayInner, upto: int)
    requires
        a.wf(),
        a.distribution == Distribution::Block,
        0 <= upto <= a.num_pes,
    ensures
        math::total(counts(a).take(upto)) == clip(a, a.blocks@[upto] as int) - a.offset,
    decreases upto,
{
    if upto > 0 {
        block_counts(a, upto - 1);
        assert(counts(a).take(upto).drop_last() == counts(a).take(upto - 1));
        assert(counts(a).take(upto).last() == a.count_on(upto - 1));
        assert(a.blocks@[upto - 1] <= a.blocks@[upto]);
    }
}

spec fn cyclic_share(size: int, offset: int, n: int, pe: int) -> int {
    let d = steps_behind(pe, offset, n);
    if d < size {
        (size - 1 - d) / n + 1
    } else {
        0
    }
}

proof fn cyclic_counts(size: int, offset: int, n: int)
    requires
        0 <= size,
        0 <= offset,
        0 < n,
    ensures
        math::total(Seq::new(n as nat, |pe: int| cyclic_share(size, offset, n, pe))) == size,
    decreases size,
{
    let after = Seq::new(n as nat, |pe: int| cyclic_share(size, offset, n, pe));
    if size == 0 {
        assert forall|pe: int| 0 <= pe < n implies after[pe] == 0 by {
            lemma_mod_bound(pe - offset, n);
        }
        all_zero(after);
    } else {
        cyclic_counts(size - 1, offset, n);
        let before = Seq::new(n as nat, |pe: int| cyclic_share(size - 1, offset, n, pe));
        // The last element goes to one PE.
        let last = (offset + size - 1) % n;
        lemma_mod_bound(offset + size - 1, n);
        assert forall|pe: int| 0 <= pe < n implies after[pe] == before[pe] + if pe == last {
            1int
        } else {
            0
        } by {
            one_more(size, offset, n, pe);
        }
        assert(after =~= before.update(last, before[last] + 1));
        math::total_update(before, last, before[last] + 1);
    }
}

proof fn one_more(size: int, offset: int, n: int, pe: int)
    requires
        0 < size,
        0 <= offset,
        0 <= pe < n,
    ensures
        cyclic_share(size, offset, n, pe) == cyclic_share(size - 1, offset, n, pe) + if pe == (
        offset + size - 1) % n {
            1int
        } else {
            0
        },
{
    let d = steps_behind(pe, offset, n);
    lemma_mod_bound(pe - offset, n);
    let last = (offset + size - 1) % n;
    // The PE gets the last element if it is as far behind as the last index.
    assert(pe == last <==> d == (size - 1) % n) by {
        lemma_mod_bound(offset + size - 1, n);
        lemma_small_mod(pe as nat, n as nat);
        lemma_mod_equivalence(offset + size - 1, pe, n);
        lemma_mod_equivalence(size - 1, pe - offset, n);
        assert(offset + size - 1 - pe == size - 1 - (pe - offset));
    }
    let y = size - 1 - d;
    if y >= 0 {
        let q = y / n;
        let r = y % n;
        lemma_fundamental_div_mod(y, n);
        lemma_mod_bound(y, n);
        assert(r == 0 <==> d == (size - 1) % n) by {
            lemma_mod_equivalence(size - 1, d, n);
            lemma_small_mod(d as nat, n as nat);
        }
        if y == 0 {
            assert(q == 0) by (nonlinear_arith)
                requires
                    y == n * q + r,
                    y == 0,
                    0 <= r < n,
                    n > 0,
            ;
        } else if r == 0 {
            assert(n * (q - 1) == n * q - n) by (nonlinear_arith);
            assert((y - 1) / n == q - 1) by (nonlinear_arith)
                requires
                    y - 1 == n * (q - 1) + (n - 1),
                    n > 0,
            ;
        } else {
            assert((y - 1) / n == q) by (nonlinear_arith)
                requires
                    y - 1 == n * q + (r - 1),
                    0 <= r - 1 < n,
            ;
        }
    } else {
        assert((size - 1) % n < d) by {
            lemma_small_mod((size - 1) as nat, n as nat);
        }
    }
}

proof fn all_zero(s: Seq<int>)
    requires
        forall|i: int| 0 <= i < s.len() ==> s[i] == 0,
    ensures
        math::total(s) == 0,
    decreases s.len(),
{
    if s.len() > 0 {
        all_zero(s.drop_last());
    }
}

/// How far a PE is behind the PE where an offset lies.
proof fn steps_are(pe: int, offset: int, n: int)
    requires
        0 <= pe < n,
        0 <= offset,
    ensures
        steps_behind(pe, offset, n) == if offset % n <= pe {
            pe - offset % n
        } else {
            n - offset % n + pe
        },
{
    let a = offset % n;
    lemma_mod_bound(offset, n);
    lemma_sub_mod_noop_right(pe, offset, n);
    if a <= pe {
        lemma_small_mod((pe - a) as nat, n as nat);
    } else {
        lemma_mod_multiples_vanish(1, pe - a, n);
        lemma_small_mod((pe - a + n) as nat, n as nat);
    }
}

/// Counting whole rounds and what is left over counts a PE's share.
proof fn cyclic_count(size: int, offset: int, n: int, pe: int)
    requires
        0 <= size,
        0 <= offset,
        0 <= pe < n,
    ensures
        size > 0 ==> {
            let a = offset % n;
            let b = (offset + size - 1) % n;
            let d = steps_behind(pe, offset, n);
            let extra = size % n != 0 && (if a <= b {
                a <= pe <= b
            } else {
                a <= pe || pe <= b
            });
            (if d < size {
                (size - 1 - d) / n + 1
            } else {
                0
            }) == size / n + if extra {
                1int
            } else {
                0
            }
        },
        size / n <= size,
        size % n != 0 ==> size / n + 1 <= size,
{
    let q = size / n;
    let r = size % n;
    lemma_fundamental_div_mod(size, n);
    lemma_mod_bound(size, n);
    assert(q <= size && (r != 0 ==> q + 1 <= size) && q >= 0) by (nonlinear_arith)
        requires
            size == n * q + r,
            0 <= r < n,
            n >= 1,
            size >= 0,
    ;
    if size > 0 {
        let a = offset % n;
        let b = (offset + size - 1) % n;
        let d = steps_behind(pe, offset, n);
        lemma_mod_bound(offset, n);
        lemma_mod_bound(offset + size - 1, n);
        steps_are(pe, offset, n);
        // Where the last element lies depends only on what is left over.
        assert(offset + size - 1 == n * q + (offset + r - 1));
        lemma_mod_multiples_vanish(q, offset + r - 1, n);
        lemma_add_mod_noop(offset, r - 1, n);
        if r > 0 {
            lemma_small_mod((r - 1) as nat, n as nat);
            if a + r - 1 < n {
                lemma_small_mod((a + r - 1) as nat, n as nat);
            } else {
                lemma_mod_multiples_vanish(-1, a + r - 1, n);
                lemma_small_mod((a + r - 1 - n) as nat, n as nat);
            }
        }
        let y = size - 1 - d;
        if d < size {
            if d < r {
                assert(y / n == q) by (nonlinear_arith)
                    requires
                        y == n * q + (r - 1 - d),
                        0 <= r - 1 - d < n,
                ;
            } else {
                assert(n * (q - 1) == n * q - n) by (nonlinear_arith);
                assert(y / n == q - 1) by (nonlinear_arith)
                    requires
                        y == n * (q - 1) + (n + r - 1 - d),
                        0 <= n + r - 1 - d < n,
                ;
            }
        } else {
            assert(q == 0) by (nonlinear_arith)
                requires
                    size == n * q + r,
                    size < n,
                    r >= 0,
                    q >= 0,
                    n >= 1,
            ;
        }
    }
}

/// An array of elements of one type, without any protection of its own.
pub struct UnsafeArray<T> {
    pub inner: UnsafeArrayInner,
    pub phantom: PhantomData<T>,
}

/// What memory a new array needs on each PE.
#[derive(Clone, Copy, Debug, PartialEq, Eq, Structural)]
pub struct ArrayMemory {
    /// Bytes on each PE.
    pub bytes: usize,
    /// What each of the bytes holds at first.
    pub fill: u8,
}

impl<T> UnsafeArray<T> {
    /// Describes a new array of `array_size` elements, and what memory it takes.
    /// Only a member of the team can make one, and there is none without
    /// elements or with elements that take no memory.
    pub fn new(
        team: &LamellarTeamRT,
        array_size: usize,
        distribution: Distribution,
        blocks: BlockStarts,
    ) -> (r: (UnsafeArray<T>, ArrayMemory))
        requires
            team.wf(),
            team.has_member(team.world_pe),
            blocks.wf(),
            blocks.num_pes() == team.pes@.len(),
            blocks.len() == array_size,
            array_size > 0,
            0 < layout::size_of::<T>(),
            per_pe_size(array_size as int, team.pes@.len() as int) * layout::size_of::<T>()
                <= usize::MAX,
        ensures
            r.0.inner.wf(),
            r.0.inner.fits_memory(),
            r.0.inner == (UnsafeArrayInner {
                my_pe: team.place_of(team.world_pe) as usize,
                num_pes: team.pes@.len() as usize,
                distribution,
                blocks,
                elem_size: layout::size_of::<T>() as usize,
                offset: 0,
                size: array_size,
            }),
            r.1.bytes == per_pe_size(array_size as int, team.pes@.len() as int)
                * layout::size_of::<T>(),
            r.1.fill == 0,
            team.pes@[r.0.inner.my_pe as int] == team.world_pe,
            r.1.bytes * team.pes@.len() >= array_size * layout::size_of::<T>(),
    {
        let num_pes: usize = team.num_pes();
        let my_pe: usize = match team.team_pe_id() {
            Ok(pe) => pe,
            Err(_) => 0,
        };
        let elem_size: usize = core::mem::size_of::<T>();
        let share: usize = even_share(array_size, num_pes);
        proof {
            room_is_enough(array_size as int, num_pes as int);
            assert((share * elem_size) * num_pes >= array_size * elem_size) by (nonlinear_arith)
                requires
                    share * num_pes >= array_size,
                    elem_size >= 0,
            ;
        }
        let inner = UnsafeArrayInner {
            my_pe,
            num_pes,
            distribution,
            blocks,
            elem_size,
            offset: 0,
            size: array_size,
        };
        (UnsafeArray { inner, phantom: PhantomData }, ArrayMemory {
            bytes: share * elem_size,
            fill: 0,
        })
    }

    /// This PE's place in the team.
    pub fn my_pe(&self) -> (r: usize)
        ensures
            r == self.inner.my_pe,
    {
        self.inner.my_pe
    }

    /// How many PEs have elements of the array.
    pub fn num_pes(&self) -> (r: usize)
        ensures
            r == self.inner.num_pes,
    {
        self.inner.num_pes
    }

    /// How many elements there are.
    pub fn len(&self) -> (r: usize)
        ensures
            r == self.inner.size,
    {
        self.inner.size
    }

    /// How many elements live on this PE.
    pub fn num_elems_local(&self) -> (r: usize)
        requires
            self.inner.wf(),
        ensures
            r == self.inner.count_on(self.inner.my_pe as int),
    {
        self.inner.num_elems_local()
    }

    /// The same elements under another distribution.
    pub fn use_distribution(self, distribution: Distribution) -> (r: UnsafeArray<T>)
        requires
            self.inner.wf(),
        ensures
            r.inner == (UnsafeArrayInner { distribution, ..self.inner }),
            r.inner.wf(),
    {
        UnsafeArray {
            inner: self.inner.use_distribution(distribution),
            phantom: PhantomData,
        }
    }

    /// The elements of a range of indices. The range may not go beyond the
    /// array.
    pub fn sub_array(self, start: RangeBound, end: RangeBound) -> (r: UnsafeArray<T>)
        requires
            self.inner.wf(),
            range_end(end, self.inner.size as int) <= self.inner.size,
            range_start(start) <= range_end(end, self.inner.size as int),
        ensures
            r.inner == self.inner.sub(
                range_start(start),
                range_end(end, self.inner.size as int),
            ),
            r.inner.wf(),
            r.inner.offset == self.inner.offset + (match start {
                RangeBound::Included(first) => first as int,
                RangeBound::Excluded(before) => before + 1,
                RangeBound::Unbounded => 0,
            }),
            r.inner.offset + r.inner.size == self.inner.offset + (match end {
                RangeBound::Included(last) => last + 1,
                RangeBound::Excluded(behind) => behind as int,
                RangeBound::Unbounded => self.inner.size as int,
            }),
    {
        UnsafeArray { inner: self.inner.sub_array(start, end), phantom: PhantomData }
    }

    /// The index in the whole array of an element of a part.
    pub fn global_index(&self, sub_index: usize) -> (r: usize)
        requires
            self.inner.offset + sub_index <= usize::MAX,
        ensures
            r == self.inner.offset + sub_index,
    {
        self.inner.global_index(sub_index)
    }
}

/// An array whose elements are taken as bytes.
pub struct UnsafeByteArray {
    pub inner: UnsafeArrayInner,
}

/// What is left of an array that is not kept alive.
pub struct UnsafeArrayInnerWeak {
    pub inner: UnsafeArrayInner,
}

/// What is left of an array of bytes that is not kept alive.
pub struct UnsafeByteArrayWeak {
    pub inner: UnsafeArrayInnerWeak,
}

impl UnsafeArrayInner {
    /// Another description of the same array.
    pub fn duplicate(&self) -> (r: UnsafeArrayInner)
        ensures
            r.same_array(*self),
            r.offset == self.offset,
            r.size == self.size,
            self.wf() ==> r.wf(),
            r.my_pe == self.my_pe,
            r.num_pes == self.num_pes,
            r.distribution == self.distribution,
            r.blocks@ == self.blocks@,
            r.elem_size == self.elem_size,
    {
        UnsafeArrayInner {
            my_pe: self.my_pe,
            num_pes: self.num_pes,
            distribution: self.distribution,
            blocks: BlockStarts { starts: self.blocks.starts.clone() },
            elem_size: self.elem_size,
            offset: self.offset,
            size: self.size,
        }
    }

    /// Describes the array without keeping it alive.
    pub fn downgrade(array: &UnsafeArrayInner) -> (r: UnsafeArrayInnerWeak)
        ensures
            r.inner.same_array(*array),
            r.inner.offset == array.offset,
            r.inner.size == array.size,
            r.inner.my_pe == array.my_pe,
            r.inner.num_pes == array.num_pes,
            r.inner.distribution == array.distribution,
            r.inner.blocks@ == array.blocks@,
            r.inner.elem_size == array.elem_size,
    {
        UnsafeArrayInnerWeak { inner: array.duplicate() }
    }
}

impl UnsafeArrayInnerWeak {
    /// The array, if something else has kept it alive.
    pub fn upgrade(&self, alive: bool) -> (r: Option<UnsafeArrayInner>)
        ensures
            r is Some <==> alive,
            r matches Some(array) ==> array.same_array(self.inner) && array.offset
                == self.inner.offset && array.size == self.inner.size && array.my_pe
                == self.inner.my_pe && array.num_pes == self.inner.num_pes && array.distribution
                == self.inner.distribution && array.blocks@ == self.inner.blocks@
                && array.elem_size == self.inner.elem_size,
    {
        if alive {
            Some(self.inner.duplicate())
        } else {
            None
        }
    }
}

impl UnsafeByteArray {
    /// Describes the array without keeping it alive.
    pub fn downgrade(array: &UnsafeByteArray) -> (r: UnsafeByteArrayWeak)
        ensures
            r.inner.inner.same_array(array.inner),
            r.inner.inner.offset == array.inner.offset,
            r.inner.inner.size == array.inner.size,
    {
        UnsafeByteArrayWeak { inner: UnsafeArrayInner::downgrade(&array.inner) }
    }
}

impl UnsafeByteArrayWeak {
    /// The array, if something else has kept it alive.
    pub fn upgrade(&self, alive: bool) -> (r: Option<UnsafeByteArray>)
        ensures
            r is Some <==> alive,
            r matches Some(array) ==> array.inner.same_array(self.inner.inner)
                && array.inner.offset == self.inner.inner.offset && array.inner.size
                == self.inner.inner.size,
    {
        match self.inner.upgrade(alive) {
            Some(inner) => Some(UnsafeByteArray { inner }),
            None => None,
        }
    }
}

impl<T> From<UnsafeArray<T>> for UnsafeByteArray {
    fn from(array: UnsafeArray<T>) -> (r: Self) {
        UnsafeByteArray { inner: array.inner }
    }
}

impl<T> FromSpecImpl<UnsafeArray<T>> for UnsafeByteArray {
    open spec fn obeys_from_spec() -> bool {
        true
    }

    open spec fn from_spec(array: UnsafeArray<T>) -> Self {
        UnsafeByteArray { inner: array.inner }
    }
}

impl<T> From<UnsafeByteArray> for UnsafeArray<T> {
    fn from(array: UnsafeByteArray) -> (r: Self) {
        UnsafeArray { inner: array.inner, phantom: PhantomData }
    }
}

impl<T> FromSpecImpl<UnsafeByteArray> for UnsafeArray<T> {
    open spec fn obeys_from_spec() -> bool {
        true
    }

    open spec fn from_spec(array: UnsafeByteArray) -> Self {
        UnsafeArray { inner: array.inner, phantom: PhantomData }
    }
}

/// An array of bytes is the same array.
pub proof fn bytes_are_the_same_array<T>(array: UnsafeArray<T>, bytes: UnsafeByteArray)
    ensures
        <UnsafeByteArray as FromSpec<UnsafeArray<T>>>::from_spec(array).inner == array.inner,
        <UnsafeArray<T> as FromSpec<UnsafeByteArray>>::from_spec(bytes).inner == bytes.inner,
{
}

} // verus!
