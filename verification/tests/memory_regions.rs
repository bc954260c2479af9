use lamellar::array::unsafe_array::RangeBound;
use lamellar::array::{
    ArrayRdmaAtHandle, ArrayRdmaHandle, LamellarArrayRdmaInput, LamellarArrayRdmaOutput,
    LamellarArrayRequest, TeamFrom, TeamInto,
};
use lamellar::lamellae::{AllocationType, Backend};
use lamellar::lamellar_team::LamellarTeamRT;
use lamellar::memregion::shared::SharedMemoryRegion;
use lamellar::memregion::{
    LamellarMemoryRegion, MemNotLocalError, MemoryRegion, Mode, OneSidedMemoryRegion, RegionError,
    RegisteredMemoryRegion, Release, Span, Transfer,
};

fn region(addr: usize, size: usize) -> MemoryRegion<u8> {
    let plan = MemoryRegion::<u8>::try_new(size, &AllocationType::Global).unwrap();
    MemoryRegion::from_plan(&plan, Some(addr), 3, Backend::Shmem).unwrap()
}

fn team() -> LamellarTeamRT {
    LamellarTeamRT { world_pe: 4, num_world_pes: 6, pes: vec![2, 4] }
}

#[test]
fn regions_have_elements() {
    let plan = MemoryRegion::<u32>::try_new(10, &AllocationType::Local).unwrap();
    assert_eq!((plan.size, plan.num_bytes, plan.mode), (10, 40, Mode::Local));
    let plan = MemoryRegion::<u32>::try_new(10, &AllocationType::Sub(vec![1])).unwrap();
    assert_eq!(plan.mode, Mode::Shared);
    assert!(matches!(
        MemoryRegion::<u32>::try_new(0, &AllocationType::Global),
        Err(RegionError::Empty)
    ));
    assert!(matches!(
        MemoryRegion::<u32>::from_plan(&plan, None, 0, Backend::Rofi),
        Err(RegionError::OutOfMemory)
    ));
    let m = MemoryRegion::<u32>::from_plan(&plan, Some(0x1000), 2, Backend::Rofi).unwrap();
    assert_eq!((m.len(), m.id(), m.pe), (10, 0x1000, 2));
    assert!(matches!(
        SharedMemoryRegion::<u32>::try_new(0, &AllocationType::Global),
        Err(RegionError::Empty)
    ));
    let plan = SharedMemoryRegion::<u32>::try_new(5, &AllocationType::Global).unwrap();
    assert_eq!((plan.size, plan.num_bytes), (20, 20));
}

#[test]
fn gets_read_what_puts_wrote() {
    let m = region(0x1000, 64);
    let put = m.put::<u32>(1, 4, 0x9000, 3);
    assert_eq!(
        put,
        Transfer { pe: Some(1), region_addr: 0x1010, data_addr: 0x9000, num_bytes: 12 }
    );
    let get = m.blocking_get::<u32>(1, 4, 0x8000, 3);
    assert_eq!((get.region_addr, get.num_bytes), (put.region_addr, put.num_bytes));
    assert_eq!(m.get_unchecked::<u32>(1, 4, 0x8000, 3), get);
    assert_eq!(m.blocking_get_slice::<u32>(1, 4, 0x8000, 3), get);
    assert_eq!(m.blocking_put::<u32>(1, 4, 0x9000, 3), put);
    assert_eq!(m.put_slice::<u32>(1, 4, 0x9000, 3), put);
    assert_eq!(m.put_all::<u32>(4, 0x9000, 3).pe, None);
    assert_eq!(m.fill_from_remote_addr::<u32>(4, 1, 0x8000, 3), get);
}

#[test]
fn elements_at_different_places_are_apart() {
    let m = region(0x1000, 64);
    for i in 0..15 {
        let a = m.put::<u32>(0, i, 0, 1);
        let b = m.put::<u32>(0, i + 1, 0, 1);
        assert!(a.region_addr + a.num_bytes <= b.region_addr);
    }
}

#[test]
fn transfers_stay_in_bounds() {
    let m = region(0x1000, 64);
    assert!(m.in_bounds::<u64>(0, 8));
    assert!(!m.in_bounds::<u64>(1, 8));
    assert!(!m.in_bounds::<u64>(usize::MAX, usize::MAX));
    assert!(m.in_bounds::<u64>(8, 0));
}

#[test]
fn regions_change_their_elements() {
    let m = region(0x1000, 64).to_base::<u64>();
    assert_eq!((m.len(), m.num_bytes, m.addr), (8, 64, 0x1000));
    assert_eq!(m.casted_at::<u16>(31), Ok(0x103e));
    assert_eq!(m.casted_at::<u16>(32), Err(MemNotLocalError));
    assert_eq!(m.as_slice(), Ok(Span { addr: 0x1000, len: 8 }));
    assert_eq!(m.as_casted_slice::<u16>(), Ok(Span { addr: 0x1000, len: 32 }));
}

#[test]
fn memory_elsewhere_is_not_read() {
    let m = MemoryRegion::<u8>::from_remote_addr(0, 2, 16, Backend::Rofi);
    assert_eq!(m.mode, Mode::Remote);
    assert_eq!(m.casted_at::<u16>(0), Err(MemNotLocalError));
    assert_eq!(m.as_slice(), Ok(Span { addr: 0, len: 0 }));
    let s = SharedMemoryRegion::<u16>::whole(m, 8);
    assert_eq!(s.as_slice(), Err(MemNotLocalError));
    assert_eq!(s.as_mut_slice(), Err(MemNotLocalError));
    assert_eq!(s.as_ptr(), Err(MemNotLocalError));
    assert_eq!(s.as_mut_ptr(), Err(MemNotLocalError));
    assert_eq!(s.at(0), Err(MemNotLocalError));
}

#[test]
fn memory_is_given_back_by_its_owners() {
    assert_eq!(region(0x1000, 8).release(), Release::Free(0x1000));
    let plan = MemoryRegion::<u8>::try_new(8, &AllocationType::Local).unwrap();
    let local = MemoryRegion::<u8>::from_plan(&plan, Some(0x2000), 0, Backend::Local).unwrap();
    assert_eq!(local.release(), Release::RtFree(0x2000));
    let gone = MemoryRegion::<u8>::from_plan(&plan, Some(0), 0, Backend::Local).unwrap();
    assert_eq!(gone.release(), Release::Nothing);
    let remote = MemoryRegion::<u8>::from_remote_addr(0x3000, 2, 16, Backend::Rofi);
    assert_eq!(remote.release(), Release::Nothing);
}

#[test]
fn parts_of_regions_keep_their_elements() {
    let whole = SharedMemoryRegion::<u32>::whole(region(0x1000, 64), 16);
    assert_eq!(whole.len(), 16);
    let expected = whole.put(1, 5, 0x9000, 2);
    let part = whole.sub_region(RangeBound::Included(3), RangeBound::Excluded(9));
    assert_eq!(part.len(), 6);
    assert_eq!(part.addr(), Ok(0x100c));
    assert_eq!(part.put(1, 2, 0x9000, 2), expected);
    assert_eq!(part.iput(1, 2, 0x9000, 2), expected);
    assert_eq!(part.put_slice(1, 2, 0x9000, 2), expected);
    assert_eq!(part.iget(1, 2, 0x9000, 2), expected);
    assert_eq!(part.iget_slice(1, 2, 0x9000, 2), expected);
    assert_eq!(part.get_unchecked(1, 2, 0x9000, 2), expected);
    assert_eq!(part.put_all(2, 0x9000, 2).region_addr, expected.region_addr);
    assert_eq!(part.as_slice(), Ok(Span { addr: 0x100c, len: 6 }));
    assert_eq!(part.as_ptr(), Ok(0x100c));
    assert_eq!(part.id(), 0x1000);
    let smaller = part.sub_region(RangeBound::Excluded(0), RangeBound::Unbounded);
    assert_eq!((smaller.addr(), smaller.len()), (Ok(0x1010), 5));
    let bytes = smaller.to_base::<u8>();
    assert_eq!((bytes.addr(), bytes.len()), (Ok(0x1010), 20));
    let shorts = bytes.to_base::<u16>();
    assert_eq!((shorts.addr(), shorts.len()), (Ok(0x1010), 10));
}

#[test]
fn elements_are_fetched_by_their_index_in_the_part() {
    let whole = SharedMemoryRegion::<u32>::whole(region(0x1000, 40), 10);
    assert_eq!(whole.at(9), Ok(0x1024));
    assert_eq!(whole.at(10), Err(MemNotLocalError));
    let part = whole.sub_region(RangeBound::Included(3), RangeBound::Excluded(6));
    assert_eq!(part.at(1), Ok(0x1000 + 4 * 4));
    assert_eq!(part.at(0), part.as_ptr());
    assert_eq!(part.at(2), Ok(0x1014));
    assert_eq!(part.at(3), Err(MemNotLocalError));
}

#[test]
fn values_become_buffers() {
    let one: LamellarArrayRdmaInput<u32> = TeamFrom::team_from(7u32, &team());
    match one {
        LamellarArrayRdmaInput::LocalMemRegion(buf) => {
            assert_eq!((buf.pe, buf.data), (4, vec![7]));
        }
        _ => panic!("not a buffer"),
    }
    let by_ref: LamellarArrayRdmaInput<u32> = (&8u32).team_into(&team());
    assert!(matches!(by_ref, LamellarArrayRdmaInput::LocalMemRegion(b) if b.data == vec![8]));
    let list = vec![1u32, 2, 3];
    let copied: LamellarArrayRdmaInput<u32> = (&list).team_into(&team());
    assert!(matches!(copied, LamellarArrayRdmaInput::LocalMemRegion(b) if b.data == vec![1, 2, 3]));
    let moved: LamellarArrayRdmaInput<u32> = list.team_into(&team());
    assert!(matches!(moved, LamellarArrayRdmaInput::LocalMemRegion(b) if b.data == vec![1, 2, 3]));
}

#[test]
fn inputs_and_outputs_are_regions() {
    let buf = OneSidedMemoryRegion { pe: 0, data: vec![1u32, 2] };
    let r: LamellarMemoryRegion<u32> = LamellarArrayRdmaInput::LocalMemRegion(buf).into();
    assert_eq!(r.len(), 2);
    let out: LamellarArrayRdmaOutput<u32> = r.team_into(&team());
    let r: LamellarMemoryRegion<u32> = out.into();
    assert!(matches!(&r, LamellarMemoryRegion::Local(b) if b.data == vec![1, 2]));
    let shared = SharedMemoryRegion::<u32>::whole(region(0x1000, 64), 16);
    let r: LamellarMemoryRegion<u32> = LamellarArrayRdmaOutput::SharedMemRegion(shared).into();
    assert_eq!(r.len(), 16);
    let input: LamellarArrayRdmaInput<u32> = r.team_into(&team());
    assert!(matches!(
        input,
        LamellarArrayRdmaInput::LamellarMemRegion(LamellarMemoryRegion::Shared(_))
    ));
}

#[test]
fn transfers_end_when_all_parts_are_done() {
    let mut h = ArrayRdmaHandle { reqs: 2 };
    assert!(h.pending());
    h.part_done();
    h.part_done();
    assert!(!h.pending());
    h.wait();
    let mut at = ArrayRdmaAtHandle {
        reqs: 1,
        buf: OneSidedMemoryRegion { pe: 0, data: vec![42u8] },
    };
    assert!(at.pending());
    at.part_done();
    assert_eq!(at.wait(), 42);
}

fn write(mem: &mut Vec<u8>, t: &Transfer, data: &[u8]) {
    assert_eq!(t.num_bytes, data.len());
    mem[t.region_addr..t.region_addr + t.num_bytes].copy_from_slice(data);
}

fn read(mem: &Vec<u8>, t: &Transfer) -> Vec<u8> {
    mem[t.region_addr..t.region_addr + t.num_bytes].to_vec()
}

#[test]
fn puts_change_no_other_elements() {
    let mut mem = vec![9u8; 40];
    let m = region(8, 32);
    write(&mut mem, &m.put::<u16>(1, 3, 0, 2), &[1, 2, 3, 4]);
    assert_eq!(read(&mem, &m.get_unchecked::<u16>(1, 3, 0, 2)), vec![1, 2, 3, 4]);
    assert_eq!(read(&mem, &m.get_unchecked::<u16>(1, 0, 0, 3)), vec![9; 6]);
    assert_eq!(read(&mem, &m.get_unchecked::<u16>(1, 5, 0, 11)), vec![9; 22]);
    assert_eq!(read(&mem, &m.get_unchecked::<u16>(1, 4, 0, 1)), vec![3, 4]);
}

#[test]
fn parts_of_memory_that_does_not_divide_evenly() {
    let bytes = SharedMemoryRegion::<u8>::whole(region(0x1000, 10), 10);
    let words = bytes.to_base::<u32>();
    assert_eq!((words.len(), words.addr()), (2, Ok(0x1000)));
    assert_eq!(words.as_ptr(), Ok(0x1000));
    let part = words.sub_region(RangeBound::Included(1), RangeBound::Unbounded);
    assert_eq!((part.len(), part.addr()), (1, Ok(0x1004)));
}

#[test]
fn parts_of_any_memory() {
    let shared = SharedMemoryRegion::<u32>::whole(region(0x1000, 40), 10);
    let part = LamellarMemoryRegion::Shared(shared)
        .sub_region(RangeBound::Included(2), RangeBound::Excluded(5));
    assert_eq!(part.len(), 3);
    assert!(matches!(&part, LamellarMemoryRegion::Shared(mr) if mr.addr() == Ok(0x1008)));
    let local = OneSidedMemoryRegion { pe: 3, data: vec![5u32, 6, 7, 8] };
    let part = LamellarMemoryRegion::Local(local)
        .sub_region(RangeBound::Excluded(0), RangeBound::Included(2));
    assert_eq!(part.len(), 2);
    assert!(matches!(
        &part,
        LamellarMemoryRegion::Local(mr) if mr.pe == 3 && mr.data == vec![6, 7]
    ));
}
