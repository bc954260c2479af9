use lamellar::darc::wait::{block_on_outstanding, dropped_wait, Action, Phase};
use lamellar::darc::{darc_layout, Darc, DarcMode, Finished, __NetworkDarc};
use lamellar::lamellae::{AllocationType, Backend};
use lamellar::lamellar_team::{IdError, LamellarTeamRT};

fn team(world_pe: usize, n: usize) -> LamellarTeamRT {
    LamellarTeamRT { world_pe, num_world_pes: n, pes: (0..n).collect() }
}

fn everywhere(n: usize) -> Vec<Darc<u32>> {
    (0..n)
        .map(|pe| match Darc::new(&team(pe, n), 11) {
            Ok(d) => d,
            Err(_) => panic!("not a member"),
        })
        .collect()
}

#[test]
fn only_members_make_objects() {
    let d = everywhere(3).pop().unwrap();
    assert_eq!((d.inner.my_pe, d.src_pe, d.inner.num_pes), (2, 2, 3));
    assert_eq!((d.inner.local_cnt, d.inner.dist_cnt), (1, 0));
    assert_eq!(d.inner.ref_cnts, vec![0, 0, 0]);
    assert_eq!(d.inner.modes, vec![DarcMode::Darc; 3]);
    let outside = LamellarTeamRT { world_pe: 0, num_world_pes: 4, pes: vec![1, 2] };
    assert!(matches!(Darc::new(&outside, 1u8), Err(IdError { parent_pe: 0 })));
    let d = Darc::try_new(&team(0, 2), 5u8, DarcMode::UnsafeArray);
    assert!(matches!(d, Ok(d) if d.inner.modes == vec![DarcMode::UnsafeArray; 2]));
}

#[test]
fn memory_of_objects() {
    let l = darc_layout(&team(0, 4), 100, 8);
    assert!(matches!(l.alloc, AllocationType::Global));
    assert_eq!((l.size, l.ref_cnt_offset, l.mode_offset), (136, 100, 132));
    let sub = LamellarTeamRT { world_pe: 3, num_world_pes: 4, pes: vec![3, 1] };
    let l = darc_layout(&sub, 100, 8);
    assert!(matches!(l.alloc, AllocationType::Sub(p) if p == vec![3, 1]));
    assert_eq!((l.size, l.mode_offset), (118, 116));
}

#[test]
fn references_that_are_sent_are_counted() {
    let mut all = everywhere(2);
    all[0].serialize_update_cnts(1, 0);
    assert_eq!(all[0].inner.dist_cnt, 1);
    all[1].src_pe = 0;
    all[1].deserialize_update_cnts(1);
    assert_eq!((all[1].inner.local_cnt, all[1].inner.ref_cnts[0]), (2, 1));
    assert!(all[1].drop_ref().finished.is_empty());
    let out = all[1].drop_ref();
    assert_eq!(out.finished, vec![Finished { pe: 0, cnt: 1 }]);
    assert!(out.launch);
    assert!(all[0].inner.finish(1).is_empty());
    assert_eq!(all[0].inner.dist_cnt, 0);
}

#[test]
fn sending_through_holders() {
    let mut all = everywhere(3);
    all[0].ser(2);
    assert_eq!(all[0].inner.dist_cnt, 2);
    all[1].src_pe = 2;
    all[1].des(Ok(1));
    assert_eq!(all[1].inner.ref_cnts, vec![0, 0, 1]);
    assert_eq!(all[1].clone_ref(), 2);
    assert_eq!(all[1].inner.local_cnt, 3);
}

#[test]
fn reports_name_each_pe_once() {
    let mut d = everywhere(4).remove(1);
    d.inner.inc_pe_ref_count(3, 2);
    assert_eq!(d.inner.inc_pe_ref_count(0, 5), 0);
    assert_eq!(d.inner.inc_pe_ref_count(0, 1), 5);
    assert!(d.inner.any_ref_cnt());
    assert_eq!(
        d.inner.send_finished(),
        vec![Finished { pe: 0, cnt: 6 }, Finished { pe: 3, cnt: 2 }]
    );
    assert!(!d.inner.any_ref_cnt());
    assert!(d.inner.send_finished().is_empty());
}

#[test]
fn the_last_reference_drops_the_object() {
    let mut d = everywhere(2).remove(0);
    d.clone_ref();
    assert!(!d.drop_ref().launch);
    assert_eq!(d.inner.modes[0], DarcMode::Darc);
    assert!(d.drop_ref().launch);
    assert_eq!(d.inner.modes[0], DarcMode::Dropped);
    let array = Darc::try_new(&team(0, 2), 5u8, DarcMode::UnsafeArray);
    let mut array = match array {
        Ok(d) => d,
        Err(_) => panic!("not a member"),
    };
    assert!(!array.drop_ref().launch);
    assert_eq!(array.inner.modes[0], DarcMode::UnsafeArray);
}

#[test]
fn references_on_the_wire() {
    let d = everywhere(3).remove(1);
    let sub = LamellarTeamRT { world_pe: 7, num_world_pes: 9, pes: vec![2, 7, 3] };
    let net = d.to_network(&sub, 0xabc, Backend::Rofi).unwrap();
    assert_eq!(
        net,
        __NetworkDarc { inner_addr: 0xabc, backend: Backend::Rofi, orig_world_pe: 7, orig_team_pe: 1 }
    );
    let back = Darc::from_network(everywhere(3).remove(2).inner, &net);
    assert_eq!((back.src_pe, back.inner.my_pe), (1, 2));
    let outside = LamellarTeamRT { world_pe: 0, num_world_pes: 9, pes: vec![2] };
    assert_eq!(d.to_network(&outside, 0, Backend::Local), Err(IdError { parent_pe: 0 }));
}

#[test]
fn kinds_change_when_everyone_agrees() {
    let mut all = everywhere(2);
    let mut phase = vec![Phase::Requests; 2];
    all[0].inner.dist_cnt = 1;
    let (p, a) =
        block_on_outstanding(&mut all[0].inner, Phase::Requests, 3, DarcMode::LocalRw, 0);
    assert!(matches!(p, Phase::Requests) && matches!(a, Action::Wait(r) if r.is_empty()));
    let (p, a) =
        block_on_outstanding(&mut all[0].inner, Phase::Requests, 0, DarcMode::LocalRw, 0);
    assert!(matches!(p, Phase::Settle) && matches!(a, Action::Continue));
    let (p, _) = block_on_outstanding(&mut all[0].inner, p, 0, DarcMode::LocalRw, 0);
    assert!(matches!(p, Phase::Settle));
    all[0].inner.finish(1);
    for _ in 0..20 {
        for pe in 0..2 {
            let (p, a) =
                block_on_outstanding(&mut all[pe].inner, phase[pe], 0, DarcMode::LocalRw, 0);
            phase[pe] = p;
            if matches!(a, Action::PutMode) {
                all[1 - pe].inner.note_mode(pe, DarcMode::LocalRw);
            }
        }
    }
    assert!(phase.iter().all(|p| matches!(p, Phase::Done)));
    for d in all {
        assert_eq!(d.inner.modes, vec![DarcMode::LocalRw; 2]);
        assert_eq!(d.into_localrw().darc.inner.local_cnt, 1);
    }
}

#[test]
fn no_kind_changes_while_references_are_in_use() {
    let mut d = everywhere(1).remove(0);
    d.clone_ref();
    let (p, _) = block_on_outstanding(&mut d.inner, Phase::Settle, 0, DarcMode::GlobalRw, 0);
    assert!(matches!(p, Phase::Settle));
    let (p, a) = block_on_outstanding(&mut d.inner, Phase::Settle, 0, DarcMode::GlobalRw, 1);
    assert!(matches!(p, Phase::Agree(0)) && matches!(a, Action::PutMode));
    d.drop_ref();
    assert_eq!(d.into_globalrw().darc.inner.local_cnt, 1);
}

#[test]
fn waiting_reports_references_from_others() {
    let mut d = everywhere(2).remove(0);
    d.inner.inc_pe_ref_count(1, 4);
    let (p, a) = block_on_outstanding(&mut d.inner, Phase::Settle, 0, DarcMode::LocalRw, 0);
    assert!(matches!(p, Phase::Settle));
    assert!(matches!(a, Action::Wait(r) if r == vec![Finished { pe: 1, cnt: 4 }]));
    assert_eq!(d.inner.ref_cnts, vec![0, 0]);
}

#[test]
fn objects_outlive_references_that_are_under_way() {
    let mut all = everywhere(2);
    all[0].serialize_update_cnts(1, 0);
    assert!(all[0].drop_ref().launch);
    assert!(all[1].drop_ref().launch);
    all[0].inner.note_mode(1, DarcMode::Dropped);
    let mut phase = Phase::Requests;
    for _ in 0..10 {
        phase = dropped_wait(&mut all[0].inner, phase, 0).0;
        assert!(!matches!(phase, Phase::Done));
    }
    all[1].src_pe = 0;
    all[1].deserialize_update_cnts(1);
    let out = all[1].drop_ref();
    assert_eq!(out.finished, vec![Finished { pe: 0, cnt: 1 }]);
    all[0].inner.finish(1);
    for _ in 0..10 {
        phase = dropped_wait(&mut all[0].inner, phase, 0).0;
    }
    assert!(matches!(phase, Phase::Done));
}

#[test]
fn reports_speak_of_every_reference_that_came_in() {
    let mut all = everywhere(3);
    all[0].serialize_update_cnts(2, 0);
    for pe in 1..3 {
        all[pe].src_pe = 0;
        all[pe].deserialize_update_cnts(pe);
        all[pe].drop_ref();
        let out = all[pe].drop_ref();
        assert_eq!(out.finished, vec![Finished { pe: 0, cnt: 1 }]);
        assert!(out.finished[0].cnt <= all[0].inner.dist_cnt);
        all[0].inner.finish(out.finished[0].cnt);
    }
    assert!(all[0].drop_ref().launch);
    for pe in 1..3 {
        all[0].inner.note_mode(pe, DarcMode::Dropped);
    }
    let mut phase = Phase::Requests;
    let mut told = false;
    while !matches!(phase, Phase::Done) {
        let (next, action) = dropped_wait(&mut all[0].inner, phase, 0);
        told = told || matches!(action, Action::PutMode);
        assert_eq!(matches!(action, Action::Finish), matches!(next, Phase::Done));
        phase = next;
    }
    assert!(told);
}

/// Steps a PE's wait for freeing until it has nothing more to do. Tells the other
/// PEs when it asks for that, and gives whether it is over.
fn settle(all: &mut Vec<Darc<u32>>, phases: &mut Vec<Phase>, pe: usize) -> bool {
    for _ in 0..20 {
        let (next, action) = dropped_wait(&mut all[pe].inner, phases[pe], 0);
        phases[pe] = next;
        match action {
            Action::PutMode => {
                for other in 0..all.len() {
                    if other != pe {
                        all[other].inner.note_mode(pe, DarcMode::Dropped);
                    }
                }
            }
            Action::Wait(out) => assert!(out.is_empty()),
            _ => {}
        }
    }
    matches!(phases[pe], Phase::Done)
}

#[test]
fn a_reference_that_is_passed_on_by_a_pe_that_has_told_keeps_the_object() {
    let (p, q, r) = (0, 1, 2);
    let mut all = everywhere(3);
    let mut phases = vec![Phase::Requests; 3];
    for pe in [p, q] {
        assert!(all[pe].drop_ref().launch);
        assert!(!settle(&mut all, &mut phases, pe));
        assert!(all[pe].inner.told);
    }
    all[r].serialize_update_cnts(1, r);
    all[p].src_pe = r;
    all[p].deserialize_update_cnts(p);
    assert_eq!(all[p].inner.parent, Some(r));
    all[p].serialize_update_cnts(1, p);
    let out = all[p].drop_ref();
    assert!(out.finished.is_empty() && !out.launch);
    assert_eq!((all[p].inner.ref_cnts[r], all[r].inner.dist_cnt), (1, 1));

    assert!(all[r].drop_ref().launch);
    for pe in [r, q, p] {
        assert!(!settle(&mut all, &mut phases, pe));
    }
    assert!(!all[r].inner.told);

    all[r].src_pe = p;
    all[r].deserialize_update_cnts(r);
    let out = all[r].drop_ref();
    assert_eq!(out.finished, vec![Finished { pe: p, cnt: 1 }]);
    assert!(!out.launch);
    assert_eq!(all[p].inner.finish(1), vec![Finished { pe: r, cnt: 1 }]);
    assert_eq!(all[p].inner.parent, None);
    assert!(all[r].inner.finish(1).is_empty());
    for _ in 0..2 {
        for pe in [r, q, p] {
            settle(&mut all, &mut phases, pe);
        }
    }
    assert!(phases.iter().all(|phase| matches!(phase, Phase::Done)));
}

#[test]
fn references_that_go_round_are_all_reported() {
    let mut all = everywhere(3);
    let mut phases = vec![Phase::Requests; 3];
    for pe in 0..2 {
        all[pe].drop_ref();
        settle(&mut all, &mut phases, pe);
    }
    let pass = |all: &mut Vec<Darc<u32>>, from: usize, to: usize| {
        all[from].serialize_update_cnts(1, from);
        all[to].src_pe = from;
        all[to].deserialize_update_cnts(to);
    };
    pass(&mut all, 2, 0);
    pass(&mut all, 0, 1);
    pass(&mut all, 1, 0);
    pass(&mut all, 0, 2);
    let mut under_way = Vec::new();
    for pe in 0..3 {
        while all[pe].inner.local_cnt > 0 {
            let out = all[pe].drop_ref();
            under_way.extend(out.finished);
        }
    }
    assert_eq!((all[0].inner.parent, all[1].inner.parent), (Some(2), Some(0)));
    while let Some(report) = under_way.pop() {
        let owed = all[report.pe].inner.finish(report.cnt);
        under_way.extend(owed);
    }
    for pe in 0..3 {
        assert_eq!((all[pe].inner.dist_cnt, all[pe].inner.parent), (0, None));
        assert_eq!(all[pe].inner.ref_cnts, vec![0, 0, 0]);
    }
    for _ in 0..2 {
        for pe in 0..3 {
            settle(&mut all, &mut phases, pe);
        }
    }
    assert!(phases.iter().all(|phase| matches!(phase, Phase::Done)));
}

#[test]
fn an_object_that_is_in_use_again_is_waited_for_once() {
    let mut all = everywhere(2);
    assert!(all[0].drop_ref().launch);
    all[1].serialize_update_cnts(1, 1);
    all[0].src_pe = 1;
    all[0].deserialize_update_cnts(0);
    all[0].inner.set_mode(DarcMode::LocalRw);
    let (phase, _) = dropped_wait(&mut all[0].inner, Phase::Settle, 0);
    assert!(matches!(phase, Phase::Settle));
    let out = all[0].drop_ref();
    assert!(!out.launch);
    assert_eq!(all[0].inner.modes[0], DarcMode::Dropped);
    let (phase, action) = dropped_wait(&mut all[0].inner, Phase::Settle, 0);
    assert!(matches!(phase, Phase::Agree(0)) && matches!(action, Action::PutMode));
}
