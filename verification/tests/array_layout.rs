use lamellar::array::convert::{AtomicArray, LocalLockArray, ReadOnlyArray};
use lamellar::array::generic_atomic::GenericAtomicArray;
use lamellar::array::buffered_operations::OpCounters;
use lamellar::array::local_memory::LocalMemory;
use lamellar::array::reduce::{
    LamellarReadArray, LamellarWriteArray, ReduceKey, ReduceOps, ReduceRequest,
};
use lamellar::array::unsafe_array::{
    BlockStarts, RangeBound, UnsafeArray, UnsafeArrayInner, UnsafeByteArray, Window,
};
use lamellar::array::{wait_all, Distribution, WaitStep};
use lamellar::barrier::Barrier;
use lamellar::lamellar_team::LamellarTeamRT;

fn block_array(starts: Vec<usize>, num_pes: usize, len: usize) -> UnsafeArrayInner {
    let blocks = BlockStarts::new(starts, num_pes, len).expect("not a table of blocks");
    UnsafeArrayInner {
        my_pe: 0,
        num_pes,
        distribution: Distribution::Block,
        blocks,
        elem_size: 1,
        offset: 0,
        size: len,
    }
}

#[test]
fn pe_for_dist_index() {
    let mut num_pes: usize = 2;
    while num_pes < 200 {
        let mut len: usize = num_pes;
        while len < 2000 {
            let epp = len as f32 / num_pes as f32;
            let mut starts: Vec<usize> = Vec::with_capacity(num_pes + 1);
            let mut elems_per_pe: Vec<usize> = Vec::with_capacity(num_pes);
            let mut pe = 0;
            while pe < num_pes {
                starts.push((pe as f32 * epp).round() as usize);
                elems_per_pe
                    .push((((pe + 1) as f32 * epp).round() - (pe as f32 * epp).round()) as usize);
                pe += 1;
            }
            starts.push((num_pes as f32 * epp).round() as usize);
            let array = block_array(starts, num_pes, len);
            let mut cur_elem: usize = 0;
            pe = 0;
            while pe < num_pes {
                let end = cur_elem + elems_per_pe[pe];
                while cur_elem < end {
                    if array.pe_for_dist_index(cur_elem) != Some(pe) {
                        panic!("npe: {} len {} e: {} eep: {}", num_pes, len, cur_elem, epp);
                    }
                    cur_elem += 1;
                }
                pe += 1;
            }
            assert_eq!(cur_elem, len);
            assert_eq!(array.pe_for_dist_index(len), None);
            len += 1;
        }
        num_pes += 1;
    }
}

fn even_starts(num_pes: usize, len: usize) -> Vec<usize> {
    let share = len as f64 / num_pes as f64;
    (0..num_pes + 1)
        .map(|pe| (pe as f64 * share).round() as usize)
        .collect()
}

fn array_on(my_pe: usize, num_pes: usize, len: usize, distribution: Distribution) -> UnsafeArrayInner {
    let mut a = block_array(even_starts(num_pes, len), num_pes, len);
    a.my_pe = my_pe;
    a.distribution = distribution;
    a.elem_size = 8;
    a
}

#[test]
fn tables_that_are_no_blocks_are_refused() {
    assert!(BlockStarts::new(vec![0, 2, 4], 2, 4).is_some());
    assert!(BlockStarts::new(vec![1, 2, 4], 2, 4).is_none());
    assert!(BlockStarts::new(vec![0, 3, 2, 4], 3, 4).is_none());
    assert!(BlockStarts::new(vec![0, 2, 5], 2, 4).is_none());
    assert!(BlockStarts::new(vec![0, 4], 2, 4).is_none());
    assert!(BlockStarts::new(vec![0, 2, 2, 4], 3, 4).is_none());
    assert!(BlockStarts::new(vec![0, 1, 3, 4], 3, 4).is_some());
    assert!(BlockStarts::new(vec![0, 1, 1, 2], 3, 2).is_some());
    assert!(BlockStarts::new(vec![0], 0, 0).is_none());
}

#[test]
fn block_index_six_is_the_third_on_the_second_pe() {
    let a = array_on(0, 4, 16, Distribution::Block);
    assert_eq!(a.pe_and_offset_for_global_index(6), Some((1, 2)));
    assert_eq!(a.calc_pe_and_offset(6), (1, 2));
    assert_eq!(a.pe_and_offset_for_global_index(15), Some((3, 3)));
    assert_eq!(a.pe_and_offset_for_global_index(16), None);
}

#[test]
fn cyclic_index_six_is_the_second_on_the_third_pe() {
    let a = array_on(0, 4, 16, Distribution::Cyclic);
    assert_eq!(a.pe_and_offset_for_global_index(6), Some((2, 1)));
    assert_eq!(a.pe_for_dist_index(6), Some(2));
    assert_eq!(a.pe_offset_for_dist_index(2, 6), Some(1));
    assert_eq!(a.pe_offset_for_dist_index(1, 6), None);
    assert_eq!(a.pe_and_offset_for_global_index(16), None);
}

#[test]
fn a_hundred_elements_on_four_pes_are_twenty_five_each() {
    for pe in 0..4 {
        let a = array_on(pe, 4, 100, Distribution::Cyclic);
        assert_eq!(a.num_elems_local(), 25);
        let a = array_on(pe, 4, 100, Distribution::Block);
        assert_eq!(a.num_elems_local(), 25);
    }
}

#[test]
fn counts_of_all_pes_add_up() {
    for distribution in [Distribution::Block, Distribution::Cyclic] {
        for num_pes in 1..9 {
            for start in 0..10 {
                for end in start..24 {
                    let a = array_on(0, num_pes, 23, distribution).sub_array(
                        RangeBound::Included(start),
                        RangeBound::Excluded(if end < 23 { end } else { 23 }),
                    );
                    let sum: usize = (0..num_pes).map(|pe| a.num_elems_pe(pe)).sum();
                    assert_eq!(sum, a.size);
                }
            }
        }
    }
}

#[test]
fn a_part_knows_its_indices_in_the_whole() {
    let a = array_on(0, 4, 100, Distribution::Block)
        .sub_array(RangeBound::Included(25), RangeBound::Excluded(75));
    assert_eq!(a.global_index(0), 25);
    assert_eq!(a.size, 50);
    assert_eq!(a.sub_array_range(), Window { start: 25, end: 75 });
    let b = a.sub_array(RangeBound::Excluded(4), RangeBound::Included(9));
    assert_eq!(b.sub_array_range(), Window { start: 30, end: 35 });
}

#[test]
fn parts_keep_the_owners_of_elements() {
    for distribution in [Distribution::Block, Distribution::Cyclic] {
        let whole = array_on(0, 5, 37, distribution);
        let part = array_on(0, 5, 37, distribution)
            .sub_array(RangeBound::Included(11), RangeBound::Unbounded);
        for i in 0..part.size {
            assert_eq!(part.pe_for_dist_index(i), whole.pe_for_dist_index(i + 11));
        }
        assert_eq!(part.pe_for_dist_index(part.size), None);
    }
}

#[test]
fn places_lead_back_to_elements() {
    for distribution in [Distribution::Block, Distribution::Cyclic] {
        for pe in 0..3 {
            let a = array_on(pe, 3, 20, distribution)
                .sub_array(RangeBound::Included(4), RangeBound::Excluded(17));
            for k in 0..a.num_elems_local() {
                let i = a.subarray_index_from_local(k).unwrap();
                assert_eq!(a.pe_and_offset_for_global_index(i), Some((pe, k)));
            }
        }
    }
}

#[test]
fn no_two_elements_share_a_place() {
    for distribution in [Distribution::Block, Distribution::Cyclic] {
        let a = array_on(0, 6, 50, distribution)
            .sub_array(RangeBound::Included(7), RangeBound::Excluded(49));
        let mut places: Vec<(usize, usize)> = Vec::new();
        for i in 0..a.size {
            let place = a.pe_and_offset_for_global_index(i).unwrap();
            assert!(place.1 < a.num_elems_pe(place.0));
            assert!(!places.contains(&place));
            places.push(place);
        }
    }
}

#[test]
fn whole_array_indices_from_local_places() {
    let a = array_on(2, 4, 16, Distribution::Cyclic);
    assert_eq!(a.global_index_from_local(0), Some(2));
    assert_eq!(a.global_index_from_local(3), Some(14));
    assert_eq!(a.global_index_from_local(4), None);
    let b = array_on(2, 4, 16, Distribution::Block);
    assert_eq!(b.global_index_from_local(0), Some(8));
    assert_eq!(b.global_index_from_local(3), Some(11));
}

#[test]
fn places_in_memory_count_the_whole_array() {
    let a = array_on(1, 4, 16, Distribution::Block)
        .sub_array(RangeBound::Included(6), RangeBound::Excluded(10));
    assert_eq!(a.pe_full_offset_for_local_index(1, 0), Some(2));
    let c = array_on(2, 4, 16, Distribution::Cyclic)
        .sub_array(RangeBound::Included(6), RangeBound::Excluded(15));
    assert_eq!(c.pe_full_offset_for_local_index(2, 0), Some(1));
}

#[test]
fn first_and_last_elements_of_pes() {
    let a = array_on(0, 4, 16, Distribution::Block);
    assert_eq!(a.start_index_for_pe(1), Some(4));
    assert_eq!(a.end_index_for_pe(1), Some(7));
    assert_eq!(a.end_index_for_pe(3), Some(15));
    let c = array_on(0, 4, 16, Distribution::Cyclic);
    assert_eq!(c.start_index_for_pe(3), Some(3));
    let part = array_on(0, 4, 16, Distribution::Block)
        .sub_array(RangeBound::Included(5), RangeBound::Excluded(7));
    assert_eq!(part.start_index_for_pe(0), None);
    assert_eq!(part.start_index_for_pe(1), Some(0));
}

#[test]
fn windows_stay_in_memory() {
    for distribution in [Distribution::Block, Distribution::Cyclic] {
        for pe in 0..4 {
            let a = array_on(pe, 4, 18, distribution)
                .sub_array(RangeBound::Included(3), RangeBound::Excluded(16));
            let w = a.local_window();
            assert_eq!(w.end - w.start, a.num_elems_local());
            assert!(w.end <= 5);
            let bytes = a.local_as_mut_slice();
            assert_eq!(bytes, Window { start: w.start * 8, end: w.end * 8 });
            assert_eq!(a.local_as_mut_ptr(), w.start * 8);
        }
    }
}

#[test]
fn another_distribution_moves_no_element() {
    let a = array_on(0, 4, 16, Distribution::Block).use_distribution(Distribution::Cyclic);
    assert_eq!(a.distribution, Distribution::Cyclic);
    assert_eq!(a.size, 16);
    assert_eq!(a.pe_for_dist_index(6), Some(2));
}

#[test]
fn new_arrays_take_equal_shares_of_memory() {
    let team = LamellarTeamRT { world_pe: 5, num_world_pes: 8, pes: vec![1, 5, 6] };
    let blocks = BlockStarts::new(even_starts(3, 10), 3, 10).unwrap();
    let (a, memory) = UnsafeArray::<u64>::new(&team, 10, Distribution::Block, blocks);
    assert_eq!((memory.bytes, memory.fill), (32, 0));
    assert_eq!(a.my_pe(), 1);
    assert_eq!(a.num_pes(), 3);
    assert_eq!(a.len(), 10);
    assert_eq!(a.num_elems_local(), 4);
    let part = a.sub_array(RangeBound::Included(2), RangeBound::Unbounded);
    assert_eq!(part.len(), 8);
    assert_eq!(part.global_index(3), 5);
    let other = part.use_distribution(Distribution::Cyclic);
    assert_eq!(other.inner.distribution, Distribution::Cyclic);
}

#[test]
fn arrays_that_are_gone_do_not_come_back() {
    let a = UnsafeByteArray { inner: array_on(1, 4, 16, Distribution::Cyclic) };
    let weak = UnsafeByteArray::downgrade(&a);
    assert!(weak.upgrade(false).is_none());
    let back = weak.upgrade(true).unwrap();
    assert_eq!(back.inner.my_pe, 1);
    assert_eq!(back.inner.size, 16);
    assert_eq!(back.inner.pe_for_dist_index(6), a.inner.pe_for_dist_index(6));
    let typed: UnsafeArray<u64> = back.into();
    assert_eq!(typed.len(), 16);
    let bytes: UnsafeByteArray = typed.into();
    assert_eq!(bytes.inner.num_pes, 4);
}

fn known_reductions() -> ReduceOps {
    ReduceOps {
        keys: vec![
            ReduceKey { id: 7, name: b"sum".to_vec() },
            ReduceKey { id: 7, name: b"prod".to_vec() },
            ReduceKey { id: 9, name: b"sum".to_vec() },
            ReduceKey { id: 7, name: b"max".to_vec() },
            ReduceKey { id: 7, name: b"sum".to_vec() },
            ReduceKey { id: 7, name: b"min".to_vec() },
        ],
    }
}

#[test]
fn reductions_start_on_this_pe() {
    let ops = known_reductions();
    let team = LamellarTeamRT { world_pe: 5, num_world_pes: 8, pes: vec![1, 5, 6] };
    let blocks = BlockStarts::new(even_starts(3, 10), 3, 10).unwrap();
    let (a, _) = UnsafeArray::<u64>::new(&team, 10, Distribution::Block, blocks);
    assert_eq!(a.sum(&ops, &team, 7), ReduceRequest { op: 4, num_pes: 3, pe: 1 });
    assert_eq!(a.prod(&ops, &team, 7), ReduceRequest { op: 1, num_pes: 3, pe: 1 });
    assert_eq!(a.max(&ops, &team, 7).op, 3);
    assert_eq!(a.min(&ops, &team, 7).op, 5);
    assert_eq!(a.reduce(&ops, &team, 9, b"sum").op, 2);
    let outsider = LamellarTeamRT { world_pe: 2, num_world_pes: 8, pes: vec![1, 5, 6] };
    assert_eq!(a.sum(&ops, &outsider, 7), ReduceRequest { op: 4, num_pes: 3, pe: 0 });
    assert_eq!(ops.get(9, b"max"), None);
    assert_eq!(ops.get(7, b"su"), None);
}

#[test]
fn waiting_ends_when_nothing_is_outstanding() {
    assert_eq!(wait_all(0, 0, 0), WaitStep::Done);
    assert_eq!(wait_all(1, 0, 0), WaitStep::Work);
    assert_eq!(wait_all(0, 3, 600_000_000_000), WaitStep::Work);
    assert_eq!(wait_all(0, 3, 600_000_000_001), WaitStep::WorkAndReport);
    assert_eq!(wait_all(0, 0, 700_000_000_000), WaitStep::Done);
}

#[test]
fn shares_of_pes_differ_by_one_at_most() {
    for num_pes in 1..9 {
        for len in 1..60 {
            for distribution in [Distribution::Block, Distribution::Cyclic] {
                let a = array_on(0, num_pes, len, distribution);
                let counts: Vec<usize> = (0..num_pes).map(|pe| a.num_elems_pe(pe)).collect();
                let (most, least) = (counts.iter().max().unwrap(), counts.iter().min().unwrap());
                assert!(most - least <= 1);
            }
        }
    }
}

#[test]
fn pes_without_elements_have_no_indices() {
    for distribution in [Distribution::Block, Distribution::Cyclic] {
        let whole = array_on(0, 4, 16, distribution);
        for offset in 0..16 {
            for size in 1..16 - offset + 1 {
                let a = UnsafeArrayInner { offset, size, ..array_on(0, 4, 16, distribution) };
                for pe in 0..4 {
                    let own: Vec<usize> =
                        (0..size).filter(|i| whole.pe_for_dist_index(offset + i) == Some(pe)).collect();
                    assert_eq!(a.start_index_for_pe(pe), own.first().copied());
                    assert_eq!(a.end_index_for_pe(pe), own.last().copied());
                }
            }
        }
    }
    let a = array_on(0, 4, 16, Distribution::Block);
    assert_eq!(a.num_elems_pe(7), 0);
    assert_eq!(a.pe_full_offset_for_local_index(7, 0), None);
}

#[test]
fn arrays_of_every_kind_are_reduced_alike() {
    let ops = known_reductions();
    let team = LamellarTeamRT { world_pe: 5, num_world_pes: 8, pes: vec![1, 5, 6] };
    let array = || {
        let blocks = BlockStarts::new(even_starts(3, 10), 3, 10).unwrap();
        UnsafeArray::<u64>::new(&team, 10, Distribution::Block, blocks).0
    };
    let sum = ReduceRequest { op: 4, num_pes: 3, pe: 1 };
    let read = vec![
        LamellarReadArray::UnsafeArray(array()),
        LamellarReadArray::ReadOnlyArray(ReadOnlyArray { array: array() }),
        LamellarReadArray::AtomicArray(AtomicArray::NativeAtomicArray(array())),
        LamellarReadArray::LocalLockArray(LocalLockArray { array: array() }),
    ];
    for a in read {
        assert_eq!(a.sum(&ops, &team, 7), sum);
        assert_eq!((a.prod(&ops, &team, 7).op, a.max(&ops, &team, 7).op), (1, 3));
        assert_eq!(a.reduce(&ops, &team, 9, b"sum").op, 2);
    }
    let written = vec![
        LamellarWriteArray::UnsafeArray(array()),
        LamellarWriteArray::AtomicArray(AtomicArray::GenericAtomicArray(array(), 3)),
        LamellarWriteArray::LocalLockArray(LocalLockArray { array: array() }),
    ];
    for a in written {
        assert_eq!(a.sum(&ops, &team, 7), sum);
        assert_eq!((a.prod(&ops, &team, 7).op, a.max(&ops, &team, 7).op), (1, 3));
        assert_eq!(a.reduce(&ops, &team, 9, b"sum").op, 2);
    }
    let memory = LocalMemory { inner: array().inner, data: vec![1u64, 2, 3, 4] };
    let a = GenericAtomicArray::new(memory);
    assert_eq!(a.sum(&ops, &team, 7), sum);
    assert_eq!((a.prod(&ops, &team, 7).op, a.max(&ops, &team, 7).op), (1, 3));
    assert_eq!(a.reduce(&ops, &team, 9, b"sum").op, 2);
    let idle = OpCounters { req_cnt: 0, outstanding_reqs: 0 };
    let busy = OpCounters { req_cnt: 0, outstanding_reqs: 2 };
    assert_eq!(a.wait_all(&idle, 0), WaitStep::Done);
    assert_eq!(a.wait_all(&busy, 0), WaitStep::Work);
    let (mut part, _) = Barrier::new(5, 8, 2, &team);
    assert_eq!(a.barrier(&mut part, false).map(|at| at.id), Some(1));
    assert_eq!(part.barrier_cnt, 2);
}
