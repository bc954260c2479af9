use lamellar::barrier::{Barrier, BarrierStep, Progress};
use lamellar::lamellae::AllocationType;
use lamellar::lamellar_team::{IdError, LamellarTeamRT};

fn team(world_pe: usize, num_world_pes: usize, pes: Vec<usize>) -> LamellarTeamRT {
    LamellarTeamRT { world_pe, num_world_pes, pes }
}

fn everyone(num_pes: usize, factor: usize) -> Vec<Barrier> {
    (0..num_pes)
        .map(|pe| {
            let t = team(pe, num_pes, (0..num_pes).collect());
            Barrier::new(pe, num_pes, factor, &t).0
        })
        .collect()
}

#[test]
fn places_in_a_team() {
    let t = team(6, 8, vec![4, 6, 1]);
    assert_eq!(t.num_pes(), 3);
    assert!(t.is_valid());
    assert!(!team(6, 8, vec![4, 6, 4]).is_valid());
    assert!(!team(6, 8, vec![4, 8]).is_valid());
    assert!(!team(8, 8, vec![4]).is_valid());
    assert_eq!(t.team_pe(1), Ok(2));
    assert_eq!(t.team_pe_id(), Ok(1));
    assert_eq!(t.team_pe(0), Err(IdError { parent_pe: 0 }));
    assert_eq!(team(0, 8, vec![4]).team_pe_id(), Err(IdError { parent_pe: 0 }));
}

#[test]
fn rounds_of_barriers() {
    let rounds = |num_pes: usize, factor: usize| everyone(num_pes, factor)[0].num_rounds;
    assert_eq!(rounds(1, 2), 0);
    assert_eq!(rounds(2, 2), 1);
    assert_eq!(rounds(3, 2), 2);
    assert_eq!(rounds(8, 2), 3);
    assert_eq!(rounds(9, 2), 4);
    assert_eq!(rounds(9, 3), 2);
    assert_eq!(rounds(10, 3), 3);
    assert_eq!(rounds(8, 1), 3);
    assert_eq!(rounds(5, 1), 3);
    assert_eq!(everyone(8, 1)[0].n, 1);
    assert_eq!(everyone(8, 0)[0].n, 1);
    assert_eq!(everyone(2, 4)[0].n, 1);
    assert_eq!(everyone(8, 4)[0].n, 4);
}

#[test]
fn buffers_are_allocated_by_those_who_take_part() {
    let t = team(4, 8, vec![6, 4, 1]);
    let (b, alloc) = Barrier::new(4, 8, 2, &t);
    assert_eq!(b.my_index, Some(1));
    assert!(matches!(alloc, Some(AllocationType::Sub(p)) if p == vec![1, 4, 6]));
    let (_, alloc) = Barrier::new(4, 3, 2, &t);
    assert!(matches!(alloc, Some(AllocationType::Global)));
    let (b, alloc) = Barrier::new(0, 8, 2, &t);
    assert!(b.my_index.is_none() && alloc.is_none());
    let (b, alloc) = Barrier::new(4, 8, 2, &team(4, 8, vec![4]));
    assert!(b.my_index.is_none() && alloc.is_none());
}

#[test]
fn who_is_told_is_told_by_one() {
    for num_pes in 2..12 {
        for factor in 1..4 {
            let all = everyone(num_pes, factor);
            for round in 0..all[0].num_rounds {
                for i in 1..all[0].n + 1 {
                    for p in 0..num_pes {
                        let q = all[p].send_to(p, i, round);
                        assert_eq!(all[q].recv_from(q, i, round), p);
                    }
                }
            }
        }
    }
    let all = everyone(8, 2);
    assert_eq!(all[0].send_to(0, 1, 1), 3);
    assert_eq!(all[7].send_to(7, 2, 1), 5);
    assert_eq!(all[0].recv_from(0, 2, 1), 2);
}

fn step(all: &mut Vec<Barrier>, at: &mut Vec<Option<Progress>>, pe: usize) -> bool {
    let progress = at[pe].unwrap();
    let (next, action) = all[pe].barrier(progress);
    at[pe] = Some(next);
    match action {
        BarrierStep::Send(puts) => {
            for p in puts {
                all[p.pe].note_put(p.buf, p.slot, p.id);
            }
            false
        }
        BarrierStep::Wait => false,
        BarrierStep::Done => true,
    }
}

#[test]
fn no_one_leaves_before_the_last_one_comes() {
    for num_pes in 2..10 {
        for factor in 1..4 {
            for late in 0..num_pes {
                let mut all = everyone(num_pes, factor);
                let mut at: Vec<Option<Progress>> = vec![None; num_pes];
                for pe in 0..num_pes {
                    if pe != late {
                        at[pe] = all[pe].enter(false);
                    }
                }
                for _ in 0..200 {
                    for pe in 0..num_pes {
                        if pe != late {
                            assert!(!step(&mut all, &mut at, pe));
                        }
                    }
                }
                at[late] = all[late].enter(false);
                let mut done = vec![false; num_pes];
                for _ in 0..200 {
                    for pe in 0..num_pes {
                        done[pe] = step(&mut all, &mut at, pe);
                    }
                }
                assert!(done.iter().all(|d| *d));
            }
        }
    }
}

#[test]
fn barriers_follow_each_other() {
    let mut all = everyone(3, 2);
    for id in 1..4 {
        let mut at: Vec<Option<Progress>> = (0..3).map(|pe| all[pe].enter(false)).collect();
        assert_eq!(at[0].unwrap().id, id);
        let mut done = 0;
        for _ in 0..20 {
            done = (0..3).filter(|pe| step(&mut all, &mut at, *pe)).count();
        }
        assert_eq!(done, 3);
    }
}

#[test]
fn those_who_do_not_take_part_pass() {
    let mut all = everyone(3, 2);
    assert!(all[0].enter(true).is_none());
    assert_eq!(all[0].barrier_cnt, 1);
    let (mut alone, _) = Barrier::new(0, 1, 2, &team(0, 1, vec![0]));
    assert!(alone.enter(false).is_none());
}

#[test]
fn numbers_that_arrive_late_let_no_one_leave_early() {
    let mut all = everyone(4, 2);
    let mut at: Vec<Option<Progress>> = (0..4).map(|pe| all[pe].enter(false)).collect();
    let mut under_way = Vec::new();
    let mut left = vec![false; 4];
    let mut turn = 0;
    while left.iter().any(|l| !*l) {
        for pe in 0..4 {
            if left[pe] {
                continue;
            }
            let (next, step) = all[pe].barrier(at[pe].unwrap());
            at[pe] = Some(next);
            match step {
                BarrierStep::Send(puts) => under_way.extend(puts),
                BarrierStep::Wait => {}
                BarrierStep::Done => {
                    assert!(all.iter().all(|b| b.barrier_cnt > at[pe].unwrap().id));
                    left[pe] = true;
                }
            }
        }
        turn += 1;
        if turn % 3 == 0 && !under_way.is_empty() {
            let p = under_way.remove((turn / 3) % under_way.len());
            all[p.pe].note_put(p.buf, p.slot, p.id);
        }
        assert!(turn < 1000);
    }
}
