//! Counting the items that a distributed iterator gives.

use vstd::prelude::*;

use crate::array::iteration;
use crate::array::iteration::ElemRange;
use crate::array::unsafe_array;
use crate::array::unsafe_array::UnsafeArrayInner;
use crate::math;

verus! {

/// An iterator that gives, on each PE, items made of the elements there.
pub trait DistributedIterator: Sized {
    /// The items that are still to come.
    spec fn items(&self) -> Seq<usize>;

    /// The items made of `cnt` elements from `start` on.
    spec fn items_of(&self, start: int, cnt: int) -> Seq<usize>;

    /// How many items `in_elems` elements make at most.
    spec fn spec_elems(&self, in_elems: int) -> int;

    /// An iterator over the items made of `cnt` elements from `start` on.
    fn init(&self, start: usize, cnt: usize) -> (r: Self)
        requires
            start + cnt <= usize::MAX,
        ensures
            r.items() == self.items_of(start as int, cnt as int),
    ;

    /// The next item.
    fn next_item(&mut self) -> (r: Option<usize>)
        ensures
            match r {
                Some(item) => old(self).items().len() > 0 && item == old(self).items()[0]
                    && final(self).items() == old(self).items().drop_first(),
                None => old(self).items().len() == 0 && final(self).items().len() == 0,
            },
    ;

    /// How many items `in_elems` elements make at most.
    fn elems(&self, in_elems: usize) -> (n: usize)
        ensures
            n == self.spec_elems(in_elems as int),
    ;
}

/// Gives the elements on this PE, by their places here.
pub struct DistIter {
    pub num_elems_local: usize,
    pub cur_i: usize,
    pub end_i: usize,
}

spec fn least(a: int, b: int) -> int {
    if a <= b {
        a
    } else {
        b
    }
}

/// Numbers from `start` on, without `end`.
pub open spec fn numbers(start: int, end: int) -> Seq<usize> {
    Seq::new(
        (if start <= end {
            end - start
        } else {
            0
        }) as nat,
        |i: int| (start + i) as usize,
    )
}

/// How many elements of a range there are on a PE with `n` elements.
pub open spec fn range_count(start: int, end: int, n: int) -> int {
    let last = if end <= n {
        end
    } else {
        n
    };
    if start <= last {
        last - start
    } else {
        0
    }
}

impl DistributedIterator for DistIter {
    open spec fn items(&self) -> Seq<usize> {
        numbers(self.cur_i as int, self.end_i as int)
    }

    /// Elements behind the last one on this PE are left out.
    open spec fn items_of(&self, start: int, cnt: int) -> Seq<usize> {
        Seq::new(
            range_count(start, start + cnt, self.num_elems_local as int) as nat,
            |i: int| (start + i) as usize,
        )
    }

    open spec fn spec_elems(&self, in_elems: int) -> int {
        in_elems
    }

    fn init(&self, start: usize, cnt: usize) -> (r: Self)
        ensures
            r.num_elems_local == self.num_elems_local,
            start <= self.num_elems_local ==> r.cur_i == start,
            start > self.num_elems_local ==> r.cur_i == self.num_elems_local,
            start + cnt <= self.num_elems_local ==> r.end_i == start + cnt,
            start + cnt > self.num_elems_local ==> r.end_i == self.num_elems_local,
    {
        let max_i: usize = self.num_elems_local;
        let cur_i: usize = if start <= max_i {
            start
        } else {
            max_i
        };
        let end_i: usize = if start + cnt <= max_i {
            start + cnt
        } else {
            max_i
        };
        let r = DistIter { num_elems_local: max_i, cur_i, end_i };
        assert(r.items() =~= self.items_of(start as int, cnt as int));
        r
    }

    fn next_item(&mut self) -> (r: Option<usize>)
        ensures
            old(self).cur_i < old(self).end_i ==> r == Some(old(self).cur_i) && final(self).cur_i
                == old(self).cur_i + 1,
            old(self).cur_i >= old(self).end_i ==> r is None && *final(self) == *old(self),
            final(self).end_i == old(self).end_i,
            final(self).num_elems_local == old(self).num_elems_local,
    {
        if self.cur_i < self.end_i {
            let item: usize = self.cur_i;
            self.cur_i = self.cur_i + 1;
            assert(self.items() =~= old(self).items().drop_first());
            Some(item)
        } else {
            None
        }
    }

    fn elems(&self, in_elems: usize) -> (n: usize)
        ensures
            n == in_elems,
    {
        in_elems
    }
}

/// Counts the items of an iterator.
#[derive(Clone, Debug)]
pub struct Count<I> {
    pub iter: I,
}

impl<I: DistributedIterator> Count<I> {
    /// Counts the items made of `cnt` elements from `start` on.
    pub fn init(&self, start: usize, cnt: usize) -> (r: Count<I>)
        requires
            start + cnt <= usize::MAX,
        ensures
            r.iter.items() == self.iter.items_of(start as int, cnt as int),
    {
        Count { iter: self.iter.init(start, cnt) }
    }

    /// The next item.
    pub fn next(&mut self) -> (r: Option<usize>)
        ensures
            match r {
                Some(item) => old(self).iter.items().len() > 0 && item == old(self).iter.items()[0]
                    && final(self).iter.items() == old(self).iter.items().drop_first(),
                None => old(self).iter.items().len() == 0 && final(self).iter.items().len() == 0,
            },
    {
        self.iter.next_item()
    }

    /// How many items `in_elems` elements make at most.
    pub fn max_elems(&self, in_elems: usize) -> (n: usize)
        ensures
            n == self.iter.spec_elems(in_elems as int),
    {
        self.iter.elems(in_elems)
    }
}

/// Counts the items that one worker's elements make.
pub struct CountAm<I> {
    pub iter: Count<I>,
    pub range: ElemRange,
}

impl<I: DistributedIterator> CountAm<I> {
    /// Goes through the items and counts them.
    pub fn exec(&self) -> (count: usize)
        requires
            self.range.start <= self.range.end,
            self.iter.iter.items_of(
                self.range.start as int,
                self.range.end - self.range.start,
            ).len() <= usize::MAX,
        ensures
            count == self.iter.iter.items_of(
                self.range.start as int,
                self.range.end - self.range.start,
            ).len(),
    {
        let mut iter = self.iter.init(self.range.start, self.range.end - self.range.start);
        let ghost all = iter.iter.items().len();
        let mut count: usize = 0;
        let mut more: bool = true;
        while more
            invariant
                all <= usize::MAX,
                count + iter.iter.items().len() == all,
                !more ==> iter.iter.items().len() == 0,
            decreases iter.iter.items().len() + (if more {
                1int
            } else {
                0
            }),
        {
            match iter.next() {
                Some(_) => {
                    count = count + 1;
                },
                None => {
                    more = false;
                },
            }
        }
        count
    }
}

/// The counts of a PE's workers.
#[derive(Clone, Debug)]
pub struct RemoteIterCountHandle {
    pub reqs: Vec<usize>,
}

/// How far a PE is with finding out how many items there are on all PEs.
#[derive(Clone, Copy, Debug, PartialEq, Eq, Structural)]
pub enum CountPhase {
    /// It has not begun.
    Idle,
    /// All PEs have begun, and there is a counter on each.
    Ready,
    /// This PE's count has been added to the counter of every PE.
    Sent,
    /// That is so for the counts of all PEs.
    Complete,
}

/// What a PE has to do next to find out how many items there are on all PEs.
#[derive(Clone, Copy, Debug, PartialEq, Eq, Structural)]
pub enum CountStep {
    /// Enter the team's barrier, then make a counter at zero.
    Start,
    /// Send this PE's count to every PE and wait until it has been added there.
    SendAll(usize),
    /// Enter the team's barrier.
    Barrier,
    /// There are this many items on all PEs.
    Done(usize),
}

/// Counts as numbers.
pub open spec fn as_ints(counts: Seq<usize>) -> Seq<int> {
    counts.map_values(|c: usize| c as int)
}

/// What another PE's count makes of the count here. It starts again at zero
/// behind the largest number.
pub fn update_cnt(cnt: usize, remote_cnt: usize) -> (r: usize)
    ensures
        r == (if cnt + remote_cnt <= usize::MAX {
            cnt + remote_cnt
        } else {
            cnt + remote_cnt - usize::MAX - 1
        }),
{
    cnt.wrapping_add(remote_cnt)
}

/// What a counter holds, from zero on, when counts have come in.
pub open spec fn counter_after(received: Seq<usize>) -> int
    decreases received.len(),
{
    if received.len() == 0 {
        0
    } else {
        let sum = counter_after(received.drop_last()) + received.last();
        if sum <= usize::MAX {
            sum
        } else {
            sum - usize::MAX - 1
        }
    }
}

fn sum_up(counts: &Vec<usize>) -> (r: usize)
    requires
        math::total(as_ints(counts@)) <= usize::MAX,
    ensures
        r == math::total(as_ints(counts@)),
{
    let ghost all = as_ints(counts@);
    let mut sum: usize = 0;
    let mut i: usize = 0;
    while i < counts.len()
        invariant
            i <= counts@.len(),
            all == as_ints(counts@),
            math::total(all) <= usize::MAX,
            sum == math::total(all.take(i as int)),
        decreases counts@.len() - i,
    {
        proof {
            let next = all.take(i + 1);
            assert(next.drop_last() =~= all.take(i as int));
            part_at_most(all, i + 1);
        }
        sum = update_cnt(sum, counts[i]);
        i = i + 1;
    }
    assert(all.take(counts@.len() as int) =~= all);
    sum
}

proof fn part_at_most(s: Seq<int>, k: int)
    requires
        0 <= k <= s.len(),
        forall|j: int| 0 <= j < s.len() ==> s[j] >= 0,
    ensures
        math::total(s.take(k)) <= math::total(s),
    decreases s.len() - k,
{
    if k < s.len() {
        part_at_most(s, k + 1);
        assert(s.take(k + 1).drop_last() =~= s.take(k));
    } else {
        assert(s.take(k) =~= s);
    }
}

impl RemoteIterCountHandle {
    /// How many items there are on this PE.
    pub fn local_count(&self) -> (r: usize)
        requires
            math::total(as_ints(self.reqs@)) <= usize::MAX,
        ensures
            r == math::total(as_ints(self.reqs@)),
    {
        sum_up(&self.reqs)
    }

    /// What to do next, from the phase that has been reached and what the counter
    /// here holds.
    pub fn wait(&self, phase: CountPhase, cnt: usize) -> (r: (CountPhase, CountStep))
        requires
            math::total(as_ints(self.reqs@)) <= usize::MAX,
        ensures
            r == (match phase {
                CountPhase::Idle => (CountPhase::Ready, CountStep::Start),
                CountPhase::Ready => (
                    CountPhase::Sent,
                    CountStep::SendAll(math::total(as_ints(self.reqs@)) as usize),
                ),
                CountPhase::Sent => (CountPhase::Complete, CountStep::Barrier),
                CountPhase::Complete => (CountPhase::Complete, CountStep::Done(cnt)),
            }),
    {
        match phase {
            CountPhase::Idle => (CountPhase::Ready, CountStep::Start),
            CountPhase::Ready => (CountPhase::Sent, CountStep::SendAll(self.local_count())),
            CountPhase::Sent => (CountPhase::Complete, CountStep::Barrier),
            CountPhase::Complete => (CountPhase::Complete, CountStep::Done(cnt)),
        }
    }

    /// How many items there are on all PEs, once every PE has sent its count to
    /// every PE: what the counter holds after all of them.
    pub fn reduce_remote_counts(local_cnts: &Vec<usize>) -> (r: usize)
        ensures
            r == counter_after(local_cnts@),
    {
        let mut cnt: usize = 0;
        let mut i: usize = 0;
        while i < local_cnts.len()
            invariant
                i <= local_cnts@.len(),
                cnt == counter_after(local_cnts@.take(i as int)),
            decreases local_cnts@.len() - i,
        {
            assert(local_cnts@.take(i + 1).drop_last() =~= local_cnts@.take(i as int));
            cnt = update_cnt(cnt, local_cnts[i]);
            i = i + 1;
        }
        assert(local_cnts@.take(i as int) =~= local_cnts@);
        cnt
    }
}

proof fn counter_is_total(received: Seq<usize>)
    requires
        math::total(as_ints(received)) <= usize::MAX,
    ensures
        counter_after(received) == math::total(as_ints(received)),
    decreases received.len(),
{
    if received.len() > 0 {
        let all = as_ints(received);
        assert(as_ints(received.drop_last()) =~= all.drop_last());
        math::total_nonnegative(all.drop_last());
        counter_is_total(received.drop_last());
    }
}

/// The counts that the PEs send.
pub open spec fn sent_counts(handles: Seq<RemoteIterCountHandle>) -> Seq<int> {
    handles.map_values(|h: RemoteIterCountHandle| math::total(as_ints(h.reqs@)))
}

/// A PE to which every PE has sent its count, in whichever order they came in,
/// finds out the sum of the counts of all workers of all PEs.
pub proof fn every_pe_finds_sum(handles: Seq<RemoteIterCountHandle>, received: Seq<usize>)
    requires
        math::total(sent_counts(handles)) <= usize::MAX,
        as_ints(received).to_multiset() == sent_counts(handles).to_multiset(),
    ensures
        counter_after(received) == math::total(sent_counts(handles)),
{
    math::total_any_order(as_ints(received), sent_counts(handles));
    counter_is_total(received);
}

/// The counts that the workers of a PE with `n` elements come to.
pub open spec fn range_counts(ranges: Seq<ElemRange>, n: int) -> Seq<int> {
    ranges.map_values(|r: ElemRange| range_count(r.start as int, r.end as int, n))
}

/// Workers whose ranges follow each other count every element of their PE once.
pub proof fn workers_count_all(ranges: Seq<ElemRange>, n: int)
    requires
        iteration::tiles(ranges, n),
        n >= 0,
    ensures
        math::total(range_counts(ranges, n)) == n,
{
    let counts = range_counts(ranges, n);
    counted_up_to(ranges, n, ranges.len() as int);
    assert(counts.take(ranges.len() as int) =~= counts);
}

proof fn counted_up_to(ranges: Seq<ElemRange>, n: int, k: int)
    requires
        iteration::tiles(ranges, n),
        n >= 0,
        0 <= k <= ranges.len(),
    ensures
        math::total(range_counts(ranges, n).take(k)) == (if k == 0 {
            0
        } else {
            least(ranges[k - 1].end as int, n)
        }),
    decreases k,
{
    let counts = range_counts(ranges, n);
    if k > 0 {
        counted_up_to(ranges, n, k - 1);
        assert(counts.take(k).drop_last() =~= counts.take(k - 1));
        assert(ranges[k - 1].start <= ranges[k - 1].end);
        if k > 1 {
            assert(ranges[k - 2].end == ranges[(k - 2) + 1].start);
        }
    }
}

/// What the PEs come to when each counts the elements that it has.
pub open spec fn pe_counts(a: UnsafeArrayInner, ranges: Seq<Seq<ElemRange>>) -> Seq<int> {
    Seq::new(a.num_pes as nat, |pe: int| math::total(range_counts(ranges[pe], a.count_on(pe))))
}

/// However the elements of each PE are divided among its workers, the counts of
/// all workers of all PEs add up to the length of the array.
pub proof fn count_is_array_len(a: UnsafeArrayInner, ranges: Seq<Seq<ElemRange>>)
    requires
        a.wf(),
        ranges.len() == a.num_pes,
        forall|pe: int|
            0 <= pe < a.num_pes ==> iteration::tiles(#[trigger] ranges[pe], a.count_on(pe)),
    ensures
        math::total(pe_counts(a, ranges)) == a.size,
{
    unsafe_array::counts_add_up(a);
    assert forall|pe: int| 0 <= pe < a.num_pes implies pe_counts(a, ranges)[pe]
        == unsafe_array::counts(a)[pe] by {
        workers_count_all(ranges[pe], a.count_on(pe));
    }
    assert(pe_counts(a, ranges) =~= unsafe_array::counts(a));
}

/// However the elements of an array are divided among the workers of each PE, and
/// in whichever order the PEs' counts come in, every PE finds out the length of
/// the array.
pub proof fn every_pe_finds_array_len(
    a: UnsafeArrayInner,
    ranges: Seq<Seq<ElemRange>>,
    handles: Seq<RemoteIterCountHandle>,
    received: Seq<usize>,
)
    requires
        a.wf(),
        ranges.len() == a.num_pes,
        forall|pe: int|
            0 <= pe < a.num_pes ==> iteration::tiles(#[trigger] ranges[pe], a.count_on(pe)),
        handles.len() == a.num_pes,
        forall|pe: int|
            0 <= pe < a.num_pes ==> as_ints((#[trigger] handles[pe]).reqs@) == range_counts(
                ranges[pe],
                a.count_on(pe),
            ),
        as_ints(received).to_multiset() == sent_counts(handles).to_multiset(),
    ensures
        counter_after(received) == a.size,
{
    count_is_array_len(a, ranges);
    assert(sent_counts(handles) =~= pe_counts(a, ranges));
    every_pe_finds_sum(handles, received);
}

/// Over a range of places a PE's iterator gives the elements that the PE has there,
/// each once and in order, and none that it does not have.
pub proof fn items_are_local_elements(iter: DistIter, start: int, cnt: int, place: usize)
    requires
        0 <= start,
        0 <= cnt,
        start + cnt <= usize::MAX,
    ensures
        iter.items_of(start, cnt).contains(place) <==> start <= place < start + cnt && place
            < iter.num_elems_local,
        iter.items_of(start, cnt).no_duplicates(),
        forall|i: int|
            0 <= i < iter.items_of(start, cnt).len() ==> #[trigger] iter.items_of(start, cnt)[i]
                == start + i,
{
    let s = iter.items_of(start, cnt);
    if start <= place < start + cnt && place < iter.num_elems_local {
        assert(s[place - start] == place);
    }
}

/// However counts come in, and however large they are, a counter holds what they add
/// up to, but for whole turns through all numbers.
pub proof fn counter_holds_sum(received: Seq<usize>)
    ensures
        0 <= counter_after(received) <= usize::MAX,
        exists|turns: int|
            0 <= turns && math::total(as_ints(received)) == counter_after(received) + #[trigger] (
            turns * (usize::MAX + 1)),
    decreases received.len(),
{
    let all = as_ints(received);
    if received.len() > 0 {
        let front = received.drop_last();
        counter_holds_sum(front);
        assert(as_ints(front) =~= all.drop_last());
        let turns = choose|turns: int|
            0 <= turns && math::total(as_ints(front)) == counter_after(front) + #[trigger] (turns
                * (usize::MAX + 1));
        let more = if counter_after(front) + received.last() <= usize::MAX {
            turns
        } else {
            turns + 1
        };
        let m = usize::MAX + 1;
        assert((turns + 1) * m == turns * m + m) by (nonlinear_arith);
        assert(math::total(all) == counter_after(received) + more * (usize::MAX + 1));
    } else {
        let none = 0int;
        assert(none * (usize::MAX + 1) == 0);
        assert(math::total(all) == counter_after(received) + none * (usize::MAX + 1));
    }
}

} // verus!
