//! An array as a whole: the memories of all its PEs.

use vstd::prelude::*;

use crate::array::local_memory;
use crate::array::local_memory::LocalMemory;
use crate::array::unsafe_array;
use crate::array::unsafe_array::UnsafeArrayInner;
use crate::array::Distribution;

verus! {

/// Whether two PEs describe the same part of the same array.
pub open spec fn same_part(a: UnsafeArrayInner, b: UnsafeArrayInner) -> bool {
    &&& a.num_pes == b.num_pes
    &&& a.distribution == b.distribution
    &&& a.blocks@ == b.blocks@
    &&& a.offset == b.offset
    &&& a.size == b.size
}

/// All PEs agree where an element lives: on which PE, and at which place there.
pub proof fn pes_agree(a: UnsafeArrayInner, b: UnsafeArrayInner, index: int)
    requires
        a.wf(),
        b.wf(),
        same_part(a, b),
        0 <= index < a.size,
    ensures
        a.pe_for(index) == b.pe_for(index),
        a.owner(a.offset + index) == b.owner(b.offset + index),
        a.offset_on(a.owner(a.offset + index), index) == b.offset_on(
            a.owner(a.offset + index),
            index,
        ),
        a.count_on(a.owner(a.offset + index)) == b.count_on(a.owner(a.offset + index)),
{
    if a.distribution == Distribution::Block {
        unsafe_array::blocks_agree(a.blocks, b.blocks, a.offset + index);
    }
}

/// Whether memories are those of all PEs of one array.
pub open spec fn is_array<T>(mems: Seq<LocalMemory<T>>) -> bool {
    &&& mems.len() > 0
    &&& forall|pe: int|
        0 <= pe < mems.len() ==> {
            &&& (#[trigger] mems[pe]).wf()
            &&& mems[pe].inner.my_pe == pe
            &&& mems[pe].inner.num_pes == mems.len()
            &&& same_part(mems[0].inner, mems[pe].inner)
        }
}

/// The PE on which an element of an array lives.
pub open spec fn home<T>(mems: Seq<LocalMemory<T>>, index: int) -> int {
    mems[0].inner.owner(mems[0].inner.offset + index)
}

/// The place of an element among those of its PE.
pub open spec fn place_at_home<T>(mems: Seq<LocalMemory<T>>, index: int) -> int {
    let pe = home(mems, index);
    mems[pe].inner.offset_on(pe, index)->0 as int
}

/// An element of an array.
pub open spec fn element<T>(mems: Seq<LocalMemory<T>>, index: int) -> T {
    mems[home(mems, index)].at(place_at_home(mems, index))
}

/// Whether an array has another element at an index, as an operation on the PE
/// where it lives leaves it.
pub open spec fn changed<T>(
    before: Seq<LocalMemory<T>>,
    after: Seq<LocalMemory<T>>,
    index: int,
    x: T,
) -> bool {
    let pe = home(before, index);
    &&& after.len() == before.len()
    &&& after[pe].holds(before[pe], place_at_home(before, index), x)
    &&& forall|q: int| 0 <= q < before.len() && q != pe ==> #[trigger] after[q] == before[q]
}

/// What an operation leaves at an index of an array is read there afterwards,
/// from whichever PE, and no other element changes.
pub proof fn written_element_is_read<T>(
    before: Seq<LocalMemory<T>>,
    after: Seq<LocalMemory<T>>,
    index: int,
    other: int,
    x: T,
)
    requires
        is_array(before),
        0 <= index < before[0].inner.size,
        0 <= other < before[0].inner.size,
        changed(before, after, index, x),
    ensures
        is_array(after),
        after[0].inner == before[0].inner,
        element(after, other) == if other == index {
            x
        } else {
            element(before, other)
        },
{
    let p = home(before, index);
    let q = home(before, other);
    unsafe_array::element_has_place(before[0].inner, index);
    unsafe_array::element_has_place(before[0].inner, other);
    pes_agree(before[0].inner, before[p].inner, index);
    pes_agree(before[0].inner, before[q].inner, other);
    unsafe_array::place_leads_back(before[p].inner, index);
    unsafe_array::place_leads_back(before[q].inner, other);
    unsafe_array::place_has_element(before[p].inner, place_at_home(before, index));
    unsafe_array::window_is_in_memory(before[p].inner);
    assert forall|r: int| 0 <= r < after.len() implies (#[trigger] after[r]).wf()
        && after[r].inner == before[r].inner by {
        assert(before[r].wf());
        if r != p {
            assert(after[r] == before[r]);
        }
    }
    assert(home(after, other) == q);
    assert(place_at_home(after, other) == place_at_home(before, other));
    if p == q {
        local_memory::store_then_load(
            before[p],
            after[p],
            place_at_home(before, index),
            place_at_home(before, other),
            x,
        );
    } else {
        assert(after[q] == before[q]);
    }
}

/// What becomes of an element when operations, each at an index and with a value,
/// are done one after the other.
pub open spec fn updated<T>(
    op: spec_fn(T, T) -> T,
    x: T,
    updates: Seq<(int, T)>,
    index: int,
) -> T
    decreases updates.len(),
{
    if updates.len() == 0 {
        x
    } else {
        let y = updated(op, x, updates.drop_last(), index);
        if updates.last().0 == index {
            op(y, updates.last().1)
        } else {
            y
        }
    }
}

/// Whether an array goes through these states when operations are done one after
/// the other, each on the PE where its element lives.
pub open spec fn goes_through<T>(
    op: spec_fn(T, T) -> T,
    states: Seq<Seq<LocalMemory<T>>>,
    updates: Seq<(int, T)>,
) -> bool {
    &&& states.len() == updates.len() + 1
    &&& is_array(states[0])
    &&& forall|k: int|
        0 <= k < updates.len() ==> {
            &&& 0 <= (#[trigger] updates[k]).0 < states[0][0].inner.size
            &&& changed(
                states[k],
                states[k + 1],
                updates[k].0,
                op(element(states[k], updates[k].0), updates[k].1),
            )
        }
}

/// No update is lost: every element ends as all the operations at its index, in
/// their order, leave it.
pub proof fn all_updates_are_kept<T>(
    op: spec_fn(T, T) -> T,
    states: Seq<Seq<LocalMemory<T>>>,
    updates: Seq<(int, T)>,
    index: int,
)
    requires
        goes_through(op, states, updates),
        0 <= index < states[0][0].inner.size,
    ensures
        is_array(states.last()),
        states.last()[0].inner == states[0][0].inner,
        element(states.last(), index) == updated(op, element(states[0], index), updates, index),
    decreases updates.len(),
{
    if updates.len() > 0 {
        let n = updates.len() - 1;
        let last = updates[n];
        let front = states.drop_last();
        assert forall|k: int| 0 <= k < n implies {
            &&& 0 <= (#[trigger] updates.drop_last()[k]).0 < front[0][0].inner.size
            &&& changed(
                front[k],
                front[k + 1],
                updates.drop_last()[k].0,
                op(
                    element(front[k], updates.drop_last()[k].0),
                    updates.drop_last()[k].1,
                ),
            )
        } by {
            assert(updates[k] == updates.drop_last()[k]);
        }
        all_updates_are_kept(op, front, updates.drop_last(), index);
        all_updates_are_kept(op, front, updates.drop_last(), last.0);
        assert(front.last() == states[n]);
        written_element_is_read(
            states[n],
            states[n + 1],
            last.0,
            index,
            op(element(states[n], last.0), last.1),
        );
    }
}

} // verus!
