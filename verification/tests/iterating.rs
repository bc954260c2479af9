use core::marker::PhantomData;
use lamellar::array::iteration::{
    local_for_each_async_chunk, local_for_each_async_dynamic, local_for_each_async_guided,
    local_for_each_async_static, local_for_each_async_with_schedule,
    local_for_each_async_work_stealing, local_for_each_with_schedule,
    local_sched_chunk, local_sched_dynamic, local_sched_guided, local_sched_static,
    local_sched_work_stealing, Cuts, ElemRange, GuidedRound, IterPlan, Schedule, ShareTables,
};
use lamellar::array::iterator::copied_chunks::{CopiedChunks, OneSidedIter, OneSidedIterator};
use lamellar::array::iterator::count::{
    update_cnt, Count, CountAm, CountPhase, CountStep, DistIter, DistributedIterator,
    RemoteIterCountHandle,
};
use lamellar::array::unsafe_array::{BlockStarts, UnsafeArrayInner};
use lamellar::array::Distribution;

fn range(start: usize, end: usize) -> ElemRange {
    ElemRange { start, end }
}

fn even(n: usize, workers: usize) -> Cuts {
    let share = (n as f64 / workers as f64).max(1.0);
    let mut table = vec![0];
    let mut w = 0;
    while *table.last().unwrap() < n {
        w += 1;
        table.push((w as f64 * share).round() as usize);
    }
    Cuts::new(table, n).unwrap()
}

fn tables(n: usize, workers: usize) -> ShareTables {
    ShareTables { even: even(n, workers), rounds: vec![], tail: even(n, n.max(1)) }
}

#[test]
fn tables_that_are_no_cuts_are_refused() {
    assert!(Cuts::new(vec![0, 3, 5], 5).is_some());
    assert!(Cuts::new(vec![], 0).is_none());
    assert!(Cuts::new(vec![1, 5], 5).is_none());
    assert!(Cuts::new(vec![0, 3, 2, 5], 5).is_none());
    assert!(Cuts::new(vec![0, 4], 5).is_none());
    assert!(Cuts::new(vec![0, 3, 3, 5], 5).is_none());
    assert_eq!(Cuts::new(vec![0, 7], 5).unwrap().span(), 5);
}

#[test]
fn each_worker_gets_a_range() {
    let cuts = even(10, 4);
    assert_eq!(
        local_sched_static(true, 4, 10, &cuts),
        vec![range(0, 3), range(3, 5), range(5, 8), range(8, 10)]
    );
    assert_eq!(local_sched_work_stealing(true, 4, 10, &cuts), local_sched_static(true, 4, 10, &cuts));
    assert!(local_sched_static(false, 4, 10, &cuts).is_empty());
    assert_eq!(local_sched_static(true, 4, 2, &even(2, 4)), vec![range(0, 1), range(1, 2)]);
}

#[test]
fn ranges_hold_every_element_once() {
    for n in 0..40 {
        for workers in 1..9 {
            let plans = vec![
                local_sched_static(true, workers, n, &even(n, workers)),
                local_sched_chunk(true, workers, n, workers).0,
            ];
            for ranges in plans {
                for i in 0..n {
                    let hits = ranges.iter().filter(|r| r.start <= i && i < r.end).count();
                    assert_eq!(hits, 1);
                }
            }
        }
    }
}

#[test]
fn chunks_for_workers() {
    assert_eq!(
        local_sched_chunk(true, 3, 10, 4),
        (vec![range(0, 4), range(4, 8), range(8, 12)], 3)
    );
    assert_eq!(local_for_each_async_chunk(true, 2, 3, 4), (vec![range(0, 4)], 2));
    assert_eq!(local_sched_chunk(false, 3, 10, 4), (vec![], 0));
    assert_eq!(local_sched_chunk(true, 3, 10, usize::MAX), (vec![range(0, usize::MAX)], 1));
    assert_eq!(
        local_sched_chunk(true, 3, usize::MAX, usize::MAX),
        (vec![range(0, usize::MAX)], 1)
    );
    assert_eq!(local_for_each_async_chunk(true, 3, 0, usize::MAX), (vec![], 0));
    assert_eq!(local_sched_dynamic(true, 8, 3), 3);
    assert_eq!(local_sched_dynamic(true, 2, 30), 2);
    assert_eq!(local_sched_dynamic(false, 2, 30), 0);
}

#[test]
fn guided_ranges_become_shorter() {
    let rounds = vec![GuidedRound { cuts: Cuts::new(vec![0, 4, 8], 8).unwrap() }];
    let tail = even(12, 12);
    let (ranges, tasks) = local_sched_guided(true, 2, 12, &rounds, &tail);
    assert_eq!(tasks, 2);
    for i in 0..12 {
        assert_eq!(ranges.iter().filter(|r| r.start <= i && i < r.end).count(), 1);
    }
    assert_eq!(ranges[0..3], [range(0, 4), range(4, 8), range(8, 9)]);
    assert_eq!(local_for_each_async_guided(true, 2, 12, &rounds, &tail), (ranges, tasks));
    assert_eq!(local_sched_guided(false, 2, 12, &rounds, &tail).0.len(), 0);
}

#[test]
fn schedules_choose_plans() {
    let t = tables(10, 4);
    let plan = |s: Schedule| local_for_each_with_schedule(s, true, 4, 10, &t);
    assert!(matches!(plan(Schedule::Static), IterPlan::Static(r) if r.len() == 4));
    assert!(matches!(plan(Schedule::Dynamic), IterPlan::Dynamic { tasks: 4, max_i: 10 }));
    assert!(matches!(plan(Schedule::WorkStealing), IterPlan::WorkStealing(r) if r.len() == 4));
    assert!(matches!(
        plan(Schedule::Chunk(5)),
        IterPlan::Chunk { ranges, tasks: 2 } if ranges == vec![range(0, 5), range(5, 10)]
    ));
    let plan = |s: Schedule| local_for_each_async_with_schedule(s, true, 4, 10, &t);
    assert!(matches!(plan(Schedule::Static), IterPlan::Static(r) if r.len() == 4));
    assert!(matches!(plan(Schedule::Guided), IterPlan::Chunk { .. }));
}

#[test]
fn indices_of_local_chunks() {
    let a = UnsafeArrayInner {
        my_pe: 1,
        num_pes: 2,
        distribution: Distribution::Block,
        blocks: BlockStarts::new(vec![0, 6, 12], 2, 12).unwrap(),
        elem_size: 4,
        offset: 0,
        size: 12,
    };
    assert_eq!(a.local_global_index_from_local(1, 2), Some(4));
    assert_eq!(a.local_subarray_index_from_local(2, 2), Some(5));
}

#[test]
fn copied_chunks_come_in_order() {
    let iter = OneSidedIter::<u32> { len: 10, phantom: PhantomData };
    let mut c = CopiedChunks::new(iter, 4);
    assert_eq!((c.array_len(), c.item_size()), (10, 16));
    assert_eq!(c.next(), Some(range(0, 4)));
    assert_eq!(c.get_buffer(2), range(4, 6));
    assert_eq!(c.next(), Some(range(4, 8)));
    assert_eq!(c.next(), Some(range(8, 10)));
    assert_eq!(c.next(), None);
    assert_eq!(c.next(), None);
}

#[test]
fn copied_chunks_can_be_left_out() {
    for count in 0..3 {
        let iter = OneSidedIter::<u32> { len: 10, phantom: PhantomData };
        let mut left_out = CopiedChunks::new(iter, 4);
        left_out.advance_index(count);
        let iter = OneSidedIter::<u32> { len: 10, phantom: PhantomData };
        let mut taken = CopiedChunks::new(iter, 4);
        for _ in 0..count {
            taken.next();
        }
        assert_eq!(left_out.next(), taken.next());
    }
}

#[test]
fn buffers_are_filled_with_chunks() {
    let iter = OneSidedIter::<u32> { len: 6, phantom: PhantomData };
    let mut c = CopiedChunks::new(iter, 4);
    assert_eq!(c.from_mem_region(18), Some(4));
    assert_eq!(c.buffered_next(16), Some(range(0, 4)));
    assert_eq!(c.buffered_next(16), Some(range(4, 8)));
    assert_eq!(c.buffered_next(16), None);
}

#[test]
fn items_of_a_pe() {
    let d = DistIter { num_elems_local: 5, cur_i: 0, end_i: 0 };
    assert_eq!(d.elems(7), 7);
    let mut it = d.init(3, 4);
    assert_eq!((it.next_item(), it.next_item(), it.next_item()), (Some(3), Some(4), None));
    let mut none = d.init(9, 4);
    assert_eq!(none.next_item(), None);
}

#[test]
fn counts_are_the_length_of_the_array() {
    for distribution in [Distribution::Block, Distribution::Cyclic] {
        let mut sums = Vec::new();
        for pe in 0..3 {
            let a = UnsafeArrayInner {
                my_pe: pe,
                num_pes: 3,
                distribution,
                blocks: BlockStarts::new(vec![0, 4, 7, 11], 3, 11).unwrap(),
                elem_size: 4,
                offset: 0,
                size: 11,
            };
            let n = a.num_elems_local();
            let d = DistIter { num_elems_local: n, cur_i: 0, end_i: 0 };
            let count = Count { iter: d };
            assert_eq!(count.max_elems(n), n);
            let mut reqs = Vec::new();
            for r in local_sched_chunk(true, 2, n, 3).0 {
                let c = Count { iter: count.iter.init(0, 0) };
                reqs.push(CountAm { iter: c, range: r }.exec());
            }
            sums.push(RemoteIterCountHandle { reqs }.local_count());
        }
        assert_eq!(sums.iter().sum::<usize>(), 11);
        assert_eq!(RemoteIterCountHandle::reduce_remote_counts(&sums), 11);
    }
}

#[test]
fn counting_item_by_item() {
    let c = Count { iter: DistIter { num_elems_local: 5, cur_i: 0, end_i: 0 } };
    let mut it = c.init(1, 2);
    assert_eq!((it.next(), it.next(), it.next()), (Some(1), Some(2), None));
    assert_eq!(update_cnt(3, 4), 7);
    assert_eq!(update_cnt(usize::MAX, 2), 1);
}

#[test]
fn every_schedule_goes_over_every_element_once() {
    for n in 0..30 {
        let t = tables(n, 4);
        let schedules = [
            Schedule::Static,
            Schedule::Dynamic,
            Schedule::Chunk(7),
            Schedule::Guided,
            Schedule::WorkStealing,
        ];
        for s in schedules {
            let pieces = match local_for_each_with_schedule(s, true, 4, n, &t) {
                IterPlan::Static(r) | IterPlan::WorkStealing(r) => r,
                IterPlan::Chunk { ranges, tasks } => {
                    assert_eq!(tasks > 0, n > 0);
                    ranges
                }
                IterPlan::Dynamic { tasks, max_i } => {
                    assert_eq!(tasks > 0, n > 0);
                    (0..max_i).map(|i| range(i, i + 1)).collect()
                }
            };
            assert!(pieces.iter().all(|r| r.start < r.end));
            let elems: Vec<usize> =
                pieces.iter().flat_map(|r| r.start..r.end.min(n)).collect();
            assert_eq!(elems, (0..n).collect::<Vec<usize>>());
        }
    }
}

#[test]
fn counts_of_all_pes_come_in_between_two_barriers() {
    let handles: Vec<RemoteIterCountHandle> = vec![
        RemoteIterCountHandle { reqs: vec![3, 4] },
        RemoteIterCountHandle { reqs: vec![] },
        RemoteIterCountHandle { reqs: vec![5] },
    ];
    let mut sent = Vec::new();
    for h in &handles {
        let (p, s) = h.wait(CountPhase::Idle, 0);
        assert_eq!((p, s), (CountPhase::Ready, CountStep::Start));
        match h.wait(p, 0) {
            (CountPhase::Sent, CountStep::SendAll(count)) => sent.push(count),
            _ => panic!("nothing is sent"),
        }
        assert_eq!(h.wait(CountPhase::Sent, 0), (CountPhase::Complete, CountStep::Barrier));
    }
    assert_eq!(sent, vec![7, 0, 5]);
    for order in [vec![7, 0, 5], vec![5, 7, 0]] {
        let cnt = RemoteIterCountHandle::reduce_remote_counts(&order);
        for h in &handles {
            let done = h.wait(CountPhase::Complete, cnt);
            assert_eq!(done, (CountPhase::Complete, CountStep::Done(12)));
        }
    }
    assert_eq!(RemoteIterCountHandle::reduce_remote_counts(&vec![usize::MAX, 3]), 2);
}

#[test]
fn shares_of_workers_are_even() {
    for n in 0..60 {
        for workers in 1..9 {
            let cuts = even(n, workers);
            assert!(cuts.even_for(workers));
            let ranges = local_for_each_async_static(true, workers, n, &cuts);
            assert!(ranges.len() <= workers);
            let lens: Vec<usize> = ranges.iter().map(|r| r.end - r.start).collect();
            assert!(lens.iter().all(|l| lens.iter().all(|m| *l <= m + 1)));
            assert_eq!(local_for_each_async_work_stealing(true, workers, n, &cuts), ranges);
        }
    }
    assert!(!Cuts::new(vec![0, 10], 10).unwrap().even_for(4));
    assert!(!Cuts::new(vec![0, 1, 4, 7, 10], 10).unwrap().even_for(4));
    assert!(!Cuts::new(vec![0, 2, 4, 6, 8, 10], 10).unwrap().even_for(4));
    assert_eq!(local_for_each_async_dynamic(true, 2, 30), 2);
}

fn guided(n: usize, workers: usize) -> ShareTables {
    let cuts = |share: f64, span: usize| {
        let mut table = vec![0];
        while *table.last().unwrap() < span {
            table.push((table.len() as f64 * share).round() as usize);
        }
        Cuts::new(table, span).unwrap()
    };
    let mut left = n as f64;
    let mut share = left / workers as f64;
    let mut rounds = Vec::new();
    while share > 100.0 {
        left /= 1.61;
        rounds.push(GuidedRound { cuts: cuts(share, left.round() as usize) });
        share = left / workers as f64;
    }
    ShareTables { even: even(n, workers), rounds, tail: cuts(share.max(1.0), n) }
}

#[test]
fn shares_that_shrink_fit() {
    for n in [0, 1, 7, 500, 1234, 10_000, 54_321] {
        for workers in [1, 3, 4, 7] {
            let t = guided(n, workers);
            assert!(t.fits(workers, n));
            assert!(!t.fits(workers, n + 1));
            let (ranges, _) = local_sched_guided(true, workers, n, &t.rounds, &t.tail);
            let lens: Vec<usize> = ranges.iter().map(|r| r.end - r.start).collect();
            for i in 0..lens.len() {
                assert!(lens[i] > 0 && lens[i..].iter().all(|l| *l <= lens[i] + 1));
            }
            let elems: Vec<usize> = ranges.iter().flat_map(|r| r.start..r.end.min(n)).collect();
            assert_eq!(elems, (0..n).collect::<Vec<usize>>());
        }
    }
    let mut t = guided(500, 1);
    t.tail = Cuts::new(vec![0, 500], 500).unwrap();
    assert!(t.rounds.len() > 1 && !t.fits(1, 500));
    t.tail = Cuts::new(vec![0, 1, 3, 6, 600], 500).unwrap();
    assert!(!t.fits(1, 500));
}
