//! What the tasks of a schedule go over: every element of their PE once,
//! whichever schedule is used and in whichever order the tasks take what there
//! is to take.

use vstd::prelude::*;

use crate::array::iteration;
use crate::array::iteration::{ElemRange, IterPlan, Schedule, ShareTables};
use crate::array::iterator::count;
use crate::array::iterator::count::{DistIter, DistributedIterator};

verus! {

/// The elements of a range on a PE with `n` elements, by their places there.
pub open spec fn range_elems(r: ElemRange, n: int) -> Seq<usize> {
    count::numbers(
        r.start as int,
        if r.end <= n {
            r.end as int
        } else {
            n
        },
    )
}

/// The elements of a range are the items that this PE's iterator gives for it.
pub proof fn elems_are_items(iter: DistIter, r: ElemRange)
    requires
        r.start <= r.end,
    ensures
        range_elems(r, iter.num_elems_local as int) == iter.items_of(
            r.start as int,
            r.end - r.start,
        ),
{
    assert(range_elems(r, iter.num_elems_local as int) =~= iter.items_of(
        r.start as int,
        r.end - r.start,
    ));
}

/// The elements of one range after the other.
pub open spec fn elems(ranges: Seq<ElemRange>, n: int) -> Seq<usize>
    decreases ranges.len(),
{
    if ranges.len() == 0 {
        Seq::empty()
    } else {
        elems(ranges.drop_last(), n) + range_elems(ranges.last(), n)
    }
}

/// What the tasks of a plan take piece by piece. Without tasks nothing is taken.
pub open spec fn pieces(plan: IterPlan) -> Seq<ElemRange> {
    match plan {
        IterPlan::Static(ranges) => ranges@,
        IterPlan::WorkStealing(ranges) => ranges@,
        IterPlan::Chunk { ranges, tasks } => if tasks > 0 {
            ranges@
        } else {
            Seq::empty()
        },
        IterPlan::Dynamic { tasks, max_i } => if tasks > 0 {
            Seq::new(
                max_i as nat,
                |i: int| ElemRange { start: i as usize, end: (i + 1) as usize },
            )
        } else {
            Seq::empty()
        },
    }
}

/// Whatever the schedule, the pieces of its plan hold the elements of the PE in
/// their order, each once. A PE that is not a member goes over nothing.
pub proof fn plans_hold_each_element(
    plan: IterPlan,
    sched: Schedule,
    member: bool,
    num_workers: usize,
    n: usize,
    tables: ShareTables,
    waits: bool,
)
    requires
        iteration::is_plan(plan, sched, member, num_workers, n, tables, waits),
        iteration::tables_ok(tables, num_workers as int, n as int),
        sched matches Schedule::Chunk(size) ==> size > 0 && iteration::chunks_fit(
            n as int,
            size as int,
        ),
        num_workers > 0,
    ensures
        elems(pieces(plan), n as int) == (if member {
            count::numbers(0, n as int)
        } else {
            Seq::empty()
        }),
{
    let ranges = pieces(plan);
    if member {
        match sched {
            Schedule::Static | Schedule::WorkStealing => {
                iteration::static_ranges_tile(tables.even, n as int);
            },
            Schedule::Chunk(size) => {
                iteration::chunk_ranges_tile(n as int, size as int);
                few_chunks(n as int, size as int);
            },
            Schedule::Guided => {
                iteration::guided_ranges_tile(tables.rounds@, tables.tail, n as int);
            },
            Schedule::Dynamic => {},
        }
        assert(iteration::tiles(ranges, n as int));
        tiled(ranges, n as int, ranges.len() as int);
        assert(ranges.take(ranges.len() as int) =~= ranges);
        if ranges.len() == 0 {
            assert(count::numbers(0, n as int) =~= Seq::<usize>::empty());
        } else {
            assert(elems(ranges, n as int) =~= count::numbers(0, n as int));
        }
    }
}

proof fn few_chunks(n: int, size: int)
    requires
        0 <= n,
        0 < size,
    ensures
        0 <= iteration::chunk_count(n, size) <= n,
{
    let q = iteration::chunk_count(n, size);
    let x = n + size - 1;
    vstd::arithmetic::div_mod::lemma_fundamental_div_mod(x, size);
    vstd::arithmetic::div_mod::lemma_mod_bound(x, size);
    assert(0 <= q <= n) by (nonlinear_arith)
        requires
            x == size * q + x % size,
            0 <= x % size < size,
            x == n + size - 1,
            n >= 0,
            size > 0,
    ;
}

proof fn tiled(ranges: Seq<ElemRange>, n: int, k: int)
    requires
        iteration::tiles(ranges, n),
        0 <= n <= usize::MAX,
        0 <= k <= ranges.len(),
    ensures
        elems(ranges.take(k), n) == (if k == 0 {
            Seq::empty()
        } else {
            count::numbers(
                0,
                if ranges[k - 1].end <= n {
                    ranges[k - 1].end as int
                } else {
                    n
                },
            )
        }),
    decreases k,
{
    if k > 0 {
        tiled(ranges, n, k - 1);
        let front = ranges.take(k);
        assert(front.drop_last() =~= ranges.take(k - 1));
        assert(front.last() == ranges[k - 1]);
        assert(ranges[k - 1].start < ranges[k - 1].end);
        if k > 1 {
            assert(ranges[k - 2].end == ranges[(k - 2) + 1].start);
        }
        assert(elems(front, n) =~= count::numbers(
            0,
            if ranges[k - 1].end <= n {
                ranges[k - 1].end as int
            } else {
                n
            },
        ));
    }
}

/// The order in which ranges are taken does not matter to which elements are
/// gone over how often.
pub proof fn any_order_holds_same(a: Seq<ElemRange>, b: Seq<ElemRange>, n: int)
    requires
        a.to_multiset() == b.to_multiset(),
    ensures
        elems(a, n).to_multiset() == elems(b, n).to_multiset(),
    decreases a.len(),
{
    broadcast use vstd::seq_lib::group_to_multiset_ensures;

    assert(a.to_multiset().len() == a.len() && b.to_multiset().len() == b.len());
    if a.len() > 0 {
        let x = a.last();
        assert(a[a.len() - 1] == x);
        assert(a.contains(x));
        assert(b.to_multiset().count(x) > 0);
        assert(b.contains(x));
        let j = b.index_of(x);
        assert(a.drop_last() =~= a.remove(a.len() - 1));
        any_order_holds_same(a.drop_last(), b.remove(j), n);
        without_one(b, j, n);
        vstd::seq_lib::lemma_multiset_commutative(elems(a.drop_last(), n), range_elems(x, n));
    }
}

proof fn without_one(s: Seq<ElemRange>, i: int, n: int)
    requires
        0 <= i < s.len(),
    ensures
        elems(s, n).to_multiset() == elems(s.remove(i), n).to_multiset().add(
            range_elems(s[i], n).to_multiset(),
        ),
    decreases s.len(),
{
    let front = s.drop_last();
    vstd::seq_lib::lemma_multiset_commutative(elems(front, n), range_elems(s.last(), n));
    if i == s.len() - 1 {
        assert(s.remove(i) =~= front);
    } else {
        without_one(front, i, n);
        let rest = s.remove(i);
        assert(rest.drop_last() =~= front.remove(i));
        assert(rest.last() == s.last());
        vstd::seq_lib::lemma_multiset_commutative(
            elems(rest.drop_last(), n),
            range_elems(s.last(), n),
        );
        assert(elems(s, n).to_multiset() =~= elems(rest, n).to_multiset().add(
            range_elems(s[i], n).to_multiset(),
        ));
    }
}

/// A worker that takes the last part of another's range changes nothing for the
/// elements: both parts hold what the range held.
pub proof fn parts_of_range(r: ElemRange, middle: usize, n: int)
    requires
        r.start <= middle <= r.end,
        0 <= n <= usize::MAX,
    ensures
        range_elems(r, n) == range_elems(ElemRange { start: r.start, end: middle }, n)
            + range_elems(ElemRange { start: middle, end: r.end }, n),
{
    assert(range_elems(r, n) =~= range_elems(ElemRange { start: r.start, end: middle }, n)
        + range_elems(ElemRange { start: middle, end: r.end }, n));
}

/// Two schedules go over the same elements, each once, in whichever order their
/// tasks take the pieces.
pub proof fn schedules_agree(
    p: IterPlan,
    q: IterPlan,
    sched_p: Schedule,
    sched_q: Schedule,
    member: bool,
    num_workers: usize,
    n: usize,
    tables: ShareTables,
    waits: bool,
    taken_p: Seq<ElemRange>,
    taken_q: Seq<ElemRange>,
)
    requires
        iteration::is_plan(p, sched_p, member, num_workers, n, tables, waits),
        iteration::is_plan(q, sched_q, member, num_workers, n, tables, waits),
        iteration::tables_ok(tables, num_workers as int, n as int),
        sched_p matches Schedule::Chunk(size) ==> size > 0 && iteration::chunks_fit(
            n as int,
            size as int,
        ),
        sched_q matches Schedule::Chunk(size) ==> size > 0 && iteration::chunks_fit(
            n as int,
            size as int,
        ),
        num_workers > 0,
        taken_p.to_multiset() == pieces(p).to_multiset(),
        taken_q.to_multiset() == pieces(q).to_multiset(),
    ensures
        elems(taken_p, n as int).to_multiset() == elems(taken_q, n as int).to_multiset(),
        forall|i: usize| #[trigger]
            elems(taken_p, n as int).to_multiset().count(i) == (if member && i < n {
                1nat
            } else {
                0
            }),
{
    plans_hold_each_element(p, sched_p, member, num_workers, n, tables, waits);
    plans_hold_each_element(q, sched_q, member, num_workers, n, tables, waits);
    any_order_holds_same(taken_p, pieces(p), n as int);
    any_order_holds_same(taken_q, pieces(q), n as int);
    let all = elems(pieces(p), n as int);
    assert(all.no_duplicates());
    all.lemma_multiset_has_no_duplicates();
    broadcast use vstd::seq_lib::group_to_multiset_ensures;

    assert forall|i: usize| #[trigger]
        elems(taken_p, n as int).to_multiset().count(i) == (if member && i < n {
            1nat
        } else {
            0
        }) by {
        if member && i < n {
            assert(all[i as int] == i);
            assert(all.contains(i));
            assert(all.to_multiset().contains(i));
        } else {
            assert(!all.contains(i));
        }
    }
}

} // verus!
