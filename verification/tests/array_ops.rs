use lamellar::array::buffered_operations::{
    initiate_op_task, place_fetched, ArrayOpCmd, InputToValue, OpAmInputToValue, OpCounters,
    OpInputEnum, OpSubmission, PeGroup, Stall, StallStep,
};
use lamellar::array::convert::{self, AtomicArray, ConvertAction, ConvertPhase};
use lamellar::array::generic_atomic::{GenericAtomicArray, GenericAtomicElement};
use lamellar::array::local_lock_atomic::{LocalLockAtomicArray, OpResult};
use lamellar::array::local_memory::LocalMemory;
use lamellar::array::unsafe_array::{BlockStarts, RangeBound, UnsafeArray, UnsafeArrayInner};
use lamellar::array::Distribution;
use lamellar::darc::wait::{Action, Phase};
use lamellar::darc::{Darc, DarcInner, DarcMode, Finished};
use lamellar::lamellar_team::LamellarTeamRT;
use std::marker::PhantomData;

fn array_on(my_pe: usize, distribution: Distribution) -> UnsafeArrayInner {
    UnsafeArrayInner {
        my_pe,
        num_pes: 3,
        distribution,
        blocks: BlockStarts::new(vec![0, 4, 8, 12], 3, 12).unwrap(),
        elem_size: 8,
        offset: 0,
        size: 12,
    }
}

fn memory_on(my_pe: usize, distribution: Distribution) -> LocalMemory<u64> {
    LocalMemory { inner: array_on(my_pe, distribution), data: vec![10, 20, 30, 40] }
}

fn listed(input: &OpAmInputToValue<u64>) -> Vec<(usize, u64)> {
    match input {
        OpAmInputToValue::OneToOne(i, v) => vec![(*i, *v)],
        OpAmInputToValue::OneToMany(i, vs) => vs.iter().map(|v| (*i, *v)).collect(),
        OpAmInputToValue::ManyToOne(is, v) => is.iter().map(|i| (*i, *v)).collect(),
        OpAmInputToValue::ManyToMany(is, vs) => {
            is.iter().zip(vs.iter()).map(|(i, v)| (*i, *v)).collect()
        }
    }
}

fn group_of(groups: &Vec<PeGroup<u64>>, pe: usize) -> (Vec<(usize, u64)>, Vec<usize>) {
    let found: Vec<&PeGroup<u64>> = groups.iter().filter(|g| g.pe == pe).collect();
    assert_eq!(found.len(), 1);
    (listed(&found[0].input.as_op_am_input()), found[0].req_ids.clone())
}

#[test]
fn inputs_of_operations() {
    let slice = [1u64, 2, 3];
    let a = OpInputEnum::Slice(&slice);
    assert_eq!((a.len(), a.get(2), a.first(), a.to_list()), (3, 3, 1, vec![1, 2, 3]));
    let b = OpInputEnum::Val(9u64);
    assert_eq!((b.len(), b.get(0), b.to_list()), (1, 9, vec![9]));
    let c: OpInputEnum<u64> = OpInputEnum::Owned(vec![]);
    assert_eq!(c.len(), 0);
}

#[test]
fn operations_take_bytes() {
    let i = std::mem::size_of::<usize>();
    let one = OpAmInputToValue::OneToOne(3, 5u64);
    assert_eq!((one.len(), one.num_bytes()), (1, i + 8));
    let many = OpAmInputToValue::OneToMany(3, vec![5u64, 6]);
    assert_eq!((many.len(), many.num_bytes()), (2, i + 16));
    let many = OpAmInputToValue::ManyToOne(vec![1, 2, 3], 5u64);
    assert_eq!((many.len(), many.num_bytes()), (3, 3 * i + 8));
    let many = OpAmInputToValue::ManyToMany(vec![1, 2], vec![5u64, 6]);
    assert_eq!((many.len(), many.num_bytes()), (2, 2 * i + 16));
}

#[test]
fn operations_go_to_the_pes_of_their_elements() {
    let a = array_on(0, Distribution::Cyclic);
    let indices = [0usize, 4, 3, 11, 1, 0];
    let values = [1u64, 2, 3, 4, 5, 6];
    let input =
        InputToValue::ManyToMany(OpInputEnum::Slice(&indices), OpInputEnum::Slice(&values));
    let (groups, n) = input.to_pe_offsets(&a);
    assert_eq!((groups.len(), n), (3, 6));
    assert_eq!(group_of(&groups, 0), (vec![(0, 1), (1, 3), (0, 6)], vec![0, 2, 5]));
    assert_eq!(group_of(&groups, 1), (vec![(1, 2), (0, 5)], vec![1, 4]));
    assert_eq!(group_of(&groups, 2), (vec![(3, 4)], vec![3]));
}

#[test]
fn one_value_goes_to_all_indices() {
    let a = array_on(0, Distribution::Block);
    let input = InputToValue::ManyToOne(OpInputEnum::Owned(vec![5, 6, 11]), 7u64);
    let (groups, n) = input.to_pe_offsets(&a);
    assert_eq!((groups.len(), n), (2, 3));
    assert_eq!(group_of(&groups, 1), (vec![(1, 7), (2, 7)], vec![0, 1]));
    assert_eq!(group_of(&groups, 2), (vec![(3, 7)], vec![2]));
}

#[test]
fn all_values_go_to_one_index() {
    let a = array_on(0, Distribution::Block);
    let input = InputToValue::OneToMany(6, OpInputEnum::Owned(vec![7u64, 8, 9]));
    let (groups, n) = input.to_pe_offsets(&a);
    assert_eq!((groups.len(), n), (1, 3));
    assert_eq!(group_of(&groups, 1), (vec![(2, 7), (2, 8), (2, 9)], vec![0, 1, 2]));
    let (groups, n) = InputToValue::OneToOne(8, 1u64).to_pe_offsets(&a);
    assert_eq!((groups.len(), n), (1, 1));
    assert_eq!(group_of(&groups, 2), (vec![(0, 1)], vec![0]));
}

#[test]
fn portions_pair_indices_with_values() {
    let mut s = OpSubmission::initiate_op(
        vec![OpInputEnum::Val(5u64)],
        1,
        vec![OpInputEnum::Owned(vec![1, 2]), OpInputEnum::Owned(vec![3])],
        3,
        ArrayOpCmd::Add,
    );
    assert!(!s.fetch);
    assert_eq!((s.op, s.submit_cnt), (ArrayOpCmd::Add, 2));
    let (input, own_task) = s.next_portion().unwrap();
    assert!(own_task);
    assert_eq!(listed(&input.as_op_am_input()), vec![(3, 5)]);
    s.portion_done();
    assert!(!s.all_handed_over());
    let (input, own_task) = s.next_portion().unwrap();
    assert!(!own_task);
    assert_eq!(listed(&input.as_op_am_input()), vec![(1, 5), (2, 5)]);
    s.portion_done();
    assert!(s.all_handed_over());
    assert!(s.next_portion().is_none());
}

#[test]
fn many_values_for_one_index_and_pairs() {
    let mut s = OpSubmission::initiate_fetch_op(
        vec![OpInputEnum::Owned(vec![5u64, 6])],
        2,
        vec![OpInputEnum::Val(4)],
        1,
        ArrayOpCmd::FetchAdd,
    );
    assert!(s.fetch);
    let (input, _) = s.next_portion().unwrap();
    assert_eq!(listed(&input.as_op_am_input()), vec![(4, 5), (4, 6)]);
    let mut s = OpSubmission::initiate_op(
        vec![OpInputEnum::Owned(vec![5u64, 6])],
        2,
        vec![OpInputEnum::Owned(vec![4, 7])],
        2,
        ArrayOpCmd::Store,
    );
    let (input, _) = s.next_portion().unwrap();
    assert_eq!(listed(&input.as_op_am_input()), vec![(4, 5), (7, 6)]);
    let mut s = OpSubmission::initiate_op(
        vec![OpInputEnum::Val(9u64)],
        1,
        vec![OpInputEnum::Val(2)],
        1,
        ArrayOpCmd::Store,
    );
    let (input, _) = s.next_portion().unwrap();
    assert_eq!(listed(&input.as_op_am_input()), vec![(2, 9)]);
    let none: OpSubmission<u64> =
        OpSubmission::initiate_op(vec![], 0, vec![OpInputEnum::Val(2)], 1, ArrayOpCmd::Store);
    assert_eq!(none.submit_cnt, 0);
}

#[test]
fn operations_are_counted_until_they_are_done() {
    let a = array_on(0, Distribution::Cyclic);
    let mut c = OpCounters { req_cnt: 2, outstanding_reqs: 1 };
    let input = InputToValue::ManyToOne(OpInputEnum::Owned(vec![0, 3, 1]), 7u64);
    let (groups, marks, n) = initiate_op_task(input, &a, &mut c);
    assert_eq!((n, c.req_cnt), (3, 5));
    assert_eq!(marks[0], 2);
    assert_eq!(marks[1], 2 + groups[0].req_ids.len());
    assert!(c.launch(true));
    assert!(!c.launch(false));
    assert_eq!(c.outstanding_reqs, 2);
    c.complete(3);
    assert_eq!((c.req_cnt, c.outstanding_reqs), (2, 1));
    assert!(!c.idle());
    c.complete(2);
    assert!(c.idle());
}

#[test]
fn held_operations_are_sent_in_the_end() {
    let mut s = Stall::new(5);
    assert_eq!(s.look(5, 8), StallStep::Continue);
    assert_eq!(s.look(6, 8), StallStep::Yield);
    assert_eq!((s.stall_mark, s.wait_cnt), (6, 0));
    assert_eq!(s.look(6, 8), StallStep::Yield);
    assert_eq!(s.wait_cnt, 1);
    let mut looks = 0;
    while s.look(6, 8) != StallStep::Flush {
        looks += 1;
    }
    assert_eq!((s.wait_cnt, looks), (1000, 1998));
    let mut full = Stall::new(0);
    assert_eq!(full.look(12_500_000, 8), StallStep::Flush);
    assert_eq!(full.look(12_499_999, 8), StallStep::Continue);
}

#[test]
fn memory_of_a_pe() {
    let mut m = memory_on(1, Distribution::Block);
    m.store(2, 7);
    assert_eq!(m.load(2), 7);
    assert_eq!(m.load(3), 40);
    assert_eq!(m.swap(3, 1), 40);
    assert_eq!(m.fetch_add(0, 5), 10);
    assert_eq!(m.fetch_sub(0, 1), 15);
    assert_eq!(m.fetch_mul(0, 3), 14);
    assert_eq!(m.fetch_div(0, 4), 42);
    assert_eq!(m.fetch_bit_or(0, 5), 10);
    assert_eq!(m.fetch_bit_and(0, 6), 15);
    assert_eq!(m.load(0), 6);
    assert_eq!(m.data, vec![6, 20, 7, 1]);
    let inner = array_on(1, Distribution::Block)
        .sub_array(RangeBound::Included(5), RangeBound::Unbounded);
    let part = LocalMemory { inner, data: vec![10u64, 20, 30, 40] };
    assert_eq!(part.load(0), 20);
}

#[test]
fn operations_here_are_done_at_once() {
    let mut a = LocalLockAtomicArray { array: memory_on(1, Distribution::Cyclic) };
    assert!(a.store(4, 7).is_none());
    assert!(matches!(a.load(4), OpResult::Local(7)));
    assert!(matches!(a.swap(4, 8), OpResult::Local(7)));
    assert!(a.add(4, 2).is_none());
    assert!(matches!(a.fetch_add(4, 2), OpResult::Local(10)));
    assert!(a.sub(4, 2).is_none());
    assert!(matches!(a.fetch_sub(4, 4), OpResult::Local(10)));
    assert!(a.mul(4, 2).is_none());
    assert!(matches!(a.fetch_mul(4, 3), OpResult::Local(12)));
    assert!(a.div(4, 2).is_none());
    assert!(matches!(a.fetch_div(4, 3), OpResult::Local(18)));
    assert!(a.bit_or(4, 9).is_none());
    assert!(matches!(a.fetch_bit_or(4, 16), OpResult::Local(15)));
    assert!(a.bit_and(4, 30).is_none());
    assert!(matches!(a.fetch_bit_and(4, 6), OpResult::Local(30)));
    assert_eq!(a.local_load(1), 6);
    a.local_store(1, 3);
    assert_eq!(a.local_swap(1, 4), 3);
    assert_eq!(a.local_fetch_add(1, 4), 4);
    assert_eq!(a.array.data, vec![10, 8, 30, 40]);
}

#[test]
fn operations_elsewhere_are_sent() {
    let mut a = LocalLockAtomicArray { array: memory_on(1, Distribution::Cyclic) };
    let sent = a.store(5, 7).unwrap();
    assert_eq!((sent.pe, sent.local_index, sent.val, sent.op), (2, 1, Some(7), ArrayOpCmd::Store));
    match a.load(3) {
        OpResult::Remote(r) => {
            assert_eq!((r.pe, r.local_index, r.op), (0, 1, ArrayOpCmd::Load));
        }
        OpResult::Local(_) => panic!("not here"),
    }
    match a.fetch_mul(11, 2) {
        OpResult::Remote(r) => {
            assert_eq!((r.pe, r.local_index, r.val, r.op), (2, 3, Some(2), ArrayOpCmd::FetchMul));
        }
        OpResult::Local(_) => panic!("not here"),
    }
    assert_eq!(a.div(0, 2).unwrap().op, ArrayOpCmd::Div);
    assert_eq!(a.array.data, vec![10, 20, 30, 40]);
}

#[test]
fn every_element_has_a_lock() {
    let a = GenericAtomicArray::new(memory_on(1, Distribution::Block));
    assert_eq!((a.num_locks, a.num_elems_local()), (4, 4));
    for k in 0..4 {
        assert_eq!(a.lock_index(k), k);
    }
    let part = a.sub_array(RangeBound::Included(6), RangeBound::Excluded(12));
    assert_eq!((part.num_elems_local(), part.lock_index(0), part.lock_index(1)), (2, 2, 3));
    let c = GenericAtomicArray::new(memory_on(1, Distribution::Cyclic))
        .sub_array(RangeBound::Included(2), RangeBound::Unbounded);
    assert_eq!((c.num_elems_local(), c.lock_index(0)), (3, 1));
}

#[test]
fn elements_change_under_their_locks() {
    let mut a = GenericAtomicArray::new(memory_on(1, Distribution::Block));
    let e = a.get_element(2);
    assert_eq!(e.load(&a), 30);
    e.store(&mut a, 31);
    e.add_assign(&mut a, 3);
    e.sub_assign(&mut a, 4);
    e.mul_assign(&mut a, 4);
    e.div_assign(&mut a, 8);
    assert_eq!(e.load(&a), 15);
    e.bitand_assign(&mut a, 6);
    e.bitor_assign(&mut a, 8);
    assert_eq!(e.load(&a), 14);
    assert_eq!(a.array.data, vec![10, 20, 14, 40]);
    let other = a.use_distribution(Distribution::Cyclic);
    assert_eq!(other.array.data, vec![10, 20, 14, 40]);
}

#[test]
fn local_elements_in_order() {
    let a = GenericAtomicArray::new(memory_on(1, Distribution::Block));
    let data = a.local_data();
    assert_eq!((data.start_index, data.end_index, data.len(&a)), (0, 4, 4));
    assert_eq!(a.mut_local_data(), data);
    let part = data.sub_data(&a, 1, 9);
    assert_eq!((part.start_index, part.end_index), (1, 4));
    let mut iter = data.sub_data(&a, 1, 3).iter();
    assert_eq!(iter.next_element(), Some(GenericAtomicElement { local_index: 1 }));
    assert_eq!(iter.next_element(), Some(GenericAtomicElement { local_index: 2 }));
    assert_eq!(iter.next_element(), None);
    assert_eq!(data.at(3), GenericAtomicElement { local_index: 3 });
}

#[test]
fn what_is_written_is_read_from_every_pe() {
    for distribution in [Distribution::Block, Distribution::Cyclic] {
        let mut pes: Vec<LocalLockAtomicArray<u64>> = (0..3)
            .map(|pe| LocalLockAtomicArray { array: memory_on(pe, distribution) })
            .collect();
        for from in 0..3 {
            for index in 0..12 {
                let value = (100 * from + index) as u64;
                if let Some(op) = pes[from].store(index, value) {
                    pes[op.pe].local_store(op.local_index, op.val.unwrap());
                }
            }
            for reader in 0..3 {
                for index in 0..12 {
                    let read = match pes[reader].load(index) {
                        OpResult::Local(x) => x,
                        OpResult::Remote(op) => pes[op.pe].local_load(op.local_index),
                    };
                    assert_eq!(read, (100 * from + index) as u64);
                }
            }
        }
    }
}

#[test]
fn pes_agree_where_elements_live() {
    for distribution in [Distribution::Block, Distribution::Cyclic] {
        for index in 0..12 {
            let place = array_on(0, distribution).pe_and_offset_for_global_index(index);
            for pe in 1..3 {
                assert_eq!(array_on(pe, distribution).pe_and_offset_for_global_index(index), place);
            }
        }
    }
    let a = GenericAtomicArray::new(memory_on(1, Distribution::Cyclic));
    assert_eq!((a.num_pes(), a.len(), a.pe_for_dist_index(5)), (3, 12, Some(2)));
    assert_eq!((a.pe_offset_for_dist_index(2, 5), a.pe_for_dist_index(12)), (Some(1), None));
}

#[test]
fn no_update_is_lost() {
    for distribution in [Distribution::Block, Distribution::Cyclic] {
        let mut pes: Vec<LocalLockAtomicArray<u64>> = (0..3)
            .map(|pe| LocalLockAtomicArray { array: memory_on(pe, distribution) })
            .collect();
        for index in 0..12 {
            if let Some(op) = pes[0].store(index, 1) {
                pes[op.pe].local_store(op.local_index, 1);
            }
            let mut seen = Vec::new();
            for _ in 0..5 {
                for from in 0..3 {
                    let before = match pes[from].fetch_mul(index, 2) {
                        OpResult::Local(x) => x,
                        OpResult::Remote(op) => pes[op.pe].local_fetch_mul(op.local_index, 2),
                    };
                    assert!(!seen.contains(&before));
                    seen.push(before);
                }
            }
            for _ in 0..4 {
                for from in 0..3 {
                    if let Some(op) = pes[from].div(index, 2) {
                        pes[op.pe].local_fetch_div(op.local_index, 2);
                    }
                }
            }
        }
        for pe in pes {
            assert_eq!(pe.array.data, vec![8, 8, 8, 8]);
        }
    }
}

#[test]
fn groups_keep_the_form_of_operations() {
    let a = UnsafeArrayInner {
        my_pe: 0,
        num_pes: 4,
        distribution: Distribution::Cyclic,
        blocks: BlockStarts::new(vec![0, 3, 6, 9, 12], 4, 12).unwrap(),
        elem_size: 8,
        offset: 0,
        size: 12,
    };
    let input = InputToValue::ManyToOne(OpInputEnum::Owned(vec![6, 1, 2, 5]), 9usize);
    let (groups, n) = input.to_pe_offsets(&a);
    assert_eq!((groups.len(), n), (2, 4));
    for g in &groups {
        match (&g.input, g.pe) {
            (InputToValue::ManyToOne(places, 9), 1) => {
                assert_eq!((places.to_list(), g.req_ids.clone()), (vec![0, 1], vec![1, 3]));
            }
            (InputToValue::ManyToOne(places, 9), 2) => {
                assert_eq!((places.to_list(), g.req_ids.clone()), (vec![1, 0], vec![0, 2]));
            }
            _ => panic!("not a group of these operations"),
        }
    }
    let one = InputToValue::OneToMany(6, OpInputEnum::Owned(vec![7u64, 8])).to_pe_offsets(&a).0;
    assert!(matches!(&one[0].input, InputToValue::OneToMany(1, vs) if vs.to_list() == vec![7, 8]));
    let many = InputToValue::ManyToMany(
        OpInputEnum::Owned(vec![6, 2]),
        OpInputEnum::Owned(vec![7u64, 8]),
    );
    let many = many.to_pe_offsets(&a).0;
    assert_eq!((many.len(), many[0].pe), (1, 2));
    assert!(matches!(&many[0].input, InputToValue::ManyToMany(_, vs) if vs.len() == 2));
}

#[test]
fn no_operations_make_no_groups_but_for_one_index() {
    let a = array_on(0, Distribution::Block);
    let none = InputToValue::ManyToOne(OpInputEnum::Owned(vec![]), 7u64).to_pe_offsets(&a);
    assert_eq!((none.0.len(), none.1), (0, 0));
    let none = InputToValue::OneToMany(6, OpInputEnum::Owned(Vec::<u64>::new())).to_pe_offsets(&a);
    assert_eq!((none.0.len(), none.1), (1, 0));
    assert_eq!((none.0[0].pe, none.0[0].req_ids.len()), (1, 0));
}

#[test]
fn fetched_values_go_to_the_places_of_their_operations() {
    let mut results = vec![None; 5];
    place_fetched(&mut results, &vec![1, 4], &vec![10u64, 40]);
    place_fetched(&mut results, &vec![0, 2], &vec![5, 20]);
    assert_eq!(results, vec![Some(5), Some(10), Some(20), None, Some(40)]);
}

#[test]
fn operations_are_handed_over_to_the_pe_of_their_element() {
    let a = LocalLockAtomicArray { array: memory_on(0, Distribution::Block) };
    let r = a.initiate_op(6, Some(5), 2, ArrayOpCmd::Add).unwrap();
    assert_eq!((r.pe, r.local_index, r.val, r.op), (1, 2, Some(5), ArrayOpCmd::Add));
    match a.initiate_fetch_op(11, None, 3, ArrayOpCmd::Load) {
        OpResult::Remote(r) => {
            assert_eq!((r.pe, r.local_index, r.val, r.op), (2, 3, None, ArrayOpCmd::Load));
        }
        OpResult::Local(_) => panic!("not an element of this PE's"),
    }
}

fn data_on(pe: usize, n: usize, mode: DarcMode) -> DarcInner<u8> {
    let team = LamellarTeamRT { world_pe: pe, num_world_pes: n, pes: (0..n).collect() };
    match Darc::try_new(&team, 0u8, mode) {
        Ok(d) => d.inner,
        Err(_) => panic!("not a member"),
    }
}

fn whole(my_pe: usize) -> UnsafeArray<u64> {
    UnsafeArray { inner: array_on(my_pe, Distribution::Block), phantom: PhantomData }
}

#[test]
fn arrays_change_their_kind_when_nothing_is_under_way() {
    let mode = DarcMode::ReadOnlyArray;
    let mut data: Vec<DarcInner<u8>> =
        (0..2).map(|pe| data_on(pe, 2, DarcMode::UnsafeArray)).collect();
    let busy = OpCounters { req_cnt: 1, outstanding_reqs: 0 };
    let idle = OpCounters { req_cnt: 0, outstanding_reqs: 0 };
    let (p, a) =
        convert::block_on_outstanding(&mut data[0], &busy, ConvertPhase::Ops, 0, mode);
    assert!(p == ConvertPhase::Ops && matches!(a, ConvertAction::WaitOps));
    data[0].inc_pe_ref_count(1, 2);
    let settle = ConvertPhase::Refs(Phase::Settle);
    let (p, a) = convert::block_on_outstanding(&mut data[0], &idle, settle, 0, mode);
    assert_eq!(p, settle);
    assert!(matches!(
        a,
        ConvertAction::Refs(Action::Wait(r)) if r == vec![Finished { pe: 1, cnt: 2 }]
    ));
    let mut phases = vec![ConvertPhase::Ops; 2];
    let mut cleared = 0;
    for _ in 0..20 {
        for pe in 0..2 {
            let (p, a) =
                convert::block_on_outstanding(&mut data[pe], &idle, phases[pe], 0, mode);
            phases[pe] = p;
            match a {
                ConvertAction::Refs(Action::PutMode) => data[1 - pe].note_mode(pe, mode),
                ConvertAction::ClearBuffers => cleared += 1,
                _ => {}
            }
        }
    }
    assert_eq!((phases, cleared), (vec![ConvertPhase::Done; 2], 2));
    let read_only = whole(0).into_read_only(&data[0]);
    assert_eq!(read_only.array.len(), 12);
}

#[test]
fn arrays_of_other_kinds_are_over_the_same_elements() {
    let lock = whole(1).into_local_lock(&data_on(1, 3, DarcMode::LocalLockAtomicArray));
    assert_eq!(lock.array.my_pe(), 1);
    let back = lock.into_unsafe(&data_on(1, 3, DarcMode::UnsafeArray));
    assert_eq!((back.my_pe(), back.len()), (1, 12));
    let native = whole(2).into_atomic(&data_on(2, 3, DarcMode::NativeAtomicArray), true);
    assert!(matches!(&native, AtomicArray::NativeAtomicArray(a) if a.my_pe() == 2));
    let generic = whole(2).into_atomic(&data_on(2, 3, DarcMode::GenericAtomicArray), false);
    assert!(matches!(&generic, AtomicArray::GenericAtomicArray(a, 4) if a.len() == 12));
    assert_eq!(generic.into_unsafe(&data_on(2, 3, DarcMode::UnsafeArray)).len(), 12);
    let ro = whole(0).into_read_only(&data_on(0, 3, DarcMode::ReadOnlyArray));
    assert_eq!(ro.into_unsafe(&data_on(0, 3, DarcMode::UnsafeArray)).len(), 12);
    let locks = |pe| GenericAtomicArray::new(memory_on(pe, Distribution::Cyclic));
    assert_eq!(locks(1).into_unsafe().my_pe(), 1);
    let local = locks(1).into_local_only(&data_on(1, 3, DarcMode::LocalOnlyArray));
    assert_eq!(local.array.my_pe(), 1);
    let ro = locks(2).into_read_only(&data_on(2, 3, DarcMode::ReadOnlyArray));
    assert_eq!(ro.array.my_pe(), 2);
    let again = locks(2).into_atomic(&data_on(2, 3, DarcMode::GenericAtomicArray));
    assert_eq!((again.num_locks, again.array.data), (4, vec![10, 20, 30, 40]));
}
