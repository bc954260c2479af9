use lamellar::active_messaging::am_ids::AmIds;
use lamellar::active_messaging::answers::{
    copy_range, payload_start, read_ams, read_ids, read_results,
};
use lamellar::active_messaging::batch_exec::{BatchExec, BatchOrigin, Noted, Turn};
use lamellar::active_messaging::parse::{decode, handler, Handler};
use lamellar::active_messaging::registered_active_message::{
    classify, exec_local, exec_single_msg, process_batched_am, return_am_request, AnswerError,
    Incoming, LocalOutcome, Outcome, RegisteredActiveMessages,
};
use lamellar::active_messaging::submitted::SubmittedAms;
use lamellar::active_messaging::txed::{answer, TxedAms};
use lamellar::active_messaging::{
    Cmd, ExecType, LamellarAm, LamellarFunc, LamellarReturn, Msg, ReqMeta,
};
use lamellar::lamellar_team::LamellarTeamRT;
use lamellar::wire::{
    push_half_word, push_usize, push_word, read_half_word, read_usize, read_word,
};

fn ids() -> AmIds {
    AmIds::new(vec![b"beta".to_vec(), b"alpha".to_vec(), b"gamma".to_vec()]).unwrap()
}

fn am(name: &[u8], data: &[u8]) -> LamellarFunc {
    LamellarFunc::Am(LamellarAm { name: name.to_vec(), data: data.to_vec() })
}

fn team() -> LamellarTeamRT {
    LamellarTeamRT { world_pe: 0, num_world_pes: 4, pes: vec![0, 1, 2, 3] }
}

fn request(dst: Option<usize>, id: usize) -> ReqMeta {
    ReqMeta {
        src: 0,
        dst,
        cmd: ExecType::Am(Cmd::Exec),
        id,
        batch_id: None,
        team_hash: 99,
    }
}

#[test]
fn numbers_are_read_back() {
    let mut buf = vec![1u8];
    push_word(&mut buf, 0x0102030405060708);
    push_half_word(&mut buf, -2);
    push_usize(&mut buf, 77);
    assert_eq!(buf.len(), 21);
    assert_eq!(buf[1], 8);
    assert_eq!(read_word(&buf, 1), Some(0x0102030405060708));
    assert_eq!(read_half_word(&buf, 9), Some(-2));
    assert_eq!(read_usize(&buf, 13), Some(77));
    assert_eq!(read_word(&buf, 14), None);
    assert_eq!(read_half_word(&buf, 18), None);
    assert_eq!(read_usize(&buf, usize::MAX), None);
}

#[test]
fn ids_go_by_names() {
    let a = ids();
    assert_eq!(a.get(&b"alpha".to_vec()), Some(5));
    assert_eq!(a.get(&b"beta".to_vec()), Some(6));
    assert_eq!(a.get(&b"gamma".to_vec()), Some(7));
    assert_eq!(a.get(&b"delta".to_vec()), None);
    let b = AmIds::new(vec![b"gamma".to_vec(), b"beta".to_vec(), b"alpha".to_vec()]).unwrap();
    for name in [b"alpha".to_vec(), b"beta".to_vec(), b"gamma".to_vec()] {
        assert_eq!(a.get(&name), b.get(&name));
    }
    let twice = AmIds::new(vec![b"x".to_vec(), b"y".to_vec(), b"x".to_vec()]).unwrap();
    assert_eq!((twice.get(&b"x".to_vec()), twice.get(&b"y".to_vec())), (Some(6), Some(7)));
    let c = AmIds::new(vec![b"ab".to_vec(), b"a".to_vec()]).unwrap();
    assert_eq!((c.get(&b"a".to_vec()), c.get(&b"ab".to_vec())), (Some(5), Some(6)));
}

#[test]
fn handlers_of_ids() {
    assert_eq!(handler(0), Some(Handler::UnitReturn));
    assert_eq!(handler(1), Some(Handler::BatchedUnitReturn));
    assert_eq!(handler(2), Some(Handler::DataReturn));
    assert_eq!(handler(3), Some(Handler::BatchedDataReturn));
    assert_eq!(handler(9), Some(Handler::ExecAm(9)));
    assert_eq!(handler(-9), Some(Handler::ExecReturnAm(9)));
}

#[test]
fn requests_travel_by_their_kind() {
    let t = classify(&ids(), ExecType::Am(Cmd::Exec), &am(b"beta", &[1, 2, 3]));
    assert_eq!((t.func_id, t.func_size, t.cmd), (6, 3, ExecType::Am(Cmd::BatchedMsg)));
    let t = classify(&ids(), ExecType::Am(Cmd::AmReturn), &am(b"beta", &[1, 2, 3]));
    assert_eq!((t.func_id, t.func_size), (-6, 11));
    let t = classify(&ids(), ExecType::Am(Cmd::DataReturn), &LamellarFunc::Result(vec![0; 5]));
    assert_eq!((t.func_id, t.func_size), (2, 21));
    let t =
        classify(&ids(), ExecType::Am(Cmd::BatchedDataReturn), &LamellarFunc::Result(vec![]));
    assert_eq!((t.func_id, t.func_size), (3, 16));
    let t = classify(&ids(), ExecType::Am(Cmd::UnitReturn), &LamellarFunc::Empty);
    assert_eq!((t.func_id, t.func_size), (0, 8));
    let t = classify(&ids(), ExecType::Am(Cmd::BatchedUnitReturn), &LamellarFunc::Empty);
    assert_eq!((t.func_id, t.func_size), (1, 0));
}

#[test]
fn requests_wait_for_others() {
    let mut s = SubmittedAms::new();
    assert!(s.insert(Some(1), 9, 5, None, 10, am(b"alpha", &[1]), 1));
    assert!(!s.insert(Some(1), 9, 5, None, 11, am(b"alpha", &[2, 3]), 2));
    assert!(!s.insert(Some(1), 9, 6, None, 12, am(b"beta", &[4]), 1));
    assert!(s.insert(Some(2), 9, 5, None, 13, am(b"alpha", &[5]), 1));
    let entry = s.take(Some(1)).unwrap();
    assert_eq!(entry.size, 16 + (12 + 16 + 3) + (12 + 16 + 1));
    assert_eq!(entry.teams[0].funcs[0].batches[0].reqs[1].0, 11);
    assert!(s.take(Some(1)).is_none());
    assert!(s.take(Some(2)).is_some());
}

#[test]
fn active_messages_without_bytes_go_alone() {
    let mut r = RegisteredActiveMessages::new();
    let (out, also) = r.process_am_req(&ids(), &team(), &request(Some(2), 10), am(b"beta", &[]));
    assert!(!also && r.tx_batch(Some(2), &team()).is_none());
    match out {
        Outcome::Single(msg) => {
            assert_eq!((msg.dst, msg.header.id, msg.header.msg.req_id), (Some(2), 6, 10));
            assert!(msg.data.is_empty());
        }
        _ => panic!("the message would not be found"),
    }
    let unit = ReqMeta {
        cmd: ExecType::Am(Cmd::BatchedUnitReturn),
        batch_id: Some(4),
        ..request(Some(2), 11)
    };
    let (out, _) = r.process_am_req(&ids(), &team(), &unit, LamellarFunc::Empty);
    assert!(matches!(out, Outcome::Batched { first: true }));
}

#[test]
fn requests_without_data_share_a_batch() {
    let mut s = SubmittedAms::new();
    assert!(s.insert(Some(1), 9, 5, None, 10, am(b"alpha", &[]), 0));
    assert!(!s.insert(Some(1), 9, 5, None, 11, am(b"alpha", &[]), 0));
    let entry = s.take(Some(1)).unwrap();
    assert_eq!(entry.size, 16 + 12 + 16);
    assert_eq!(entry.teams[0].funcs[0].batches[0].reqs.len(), 2);
}

#[test]
fn small_requests_share_a_message_that_is_read_back() {
    let mut r = RegisteredActiveMessages::new();
    let (out, also) = r.process_am_req(&ids(), &team(), &request(Some(2), 10), am(b"beta", &[1]));
    assert!(matches!(out, Outcome::Batched { first: true }) && !also);
    let (out, _) = r.process_am_req(&ids(), &team(), &request(Some(2), 11), am(b"beta", &[2, 3]));
    assert!(matches!(out, Outcome::Batched { first: false }));
    let (out, _) = r.process_am_req(&ids(), &team(), &request(Some(2), 12), am(b"alpha", &[4]));
    assert!(matches!(out, Outcome::Batched { first: false }));
    assert!(r.tx_batch(Some(1), &team()).is_none());
    let msg = r.tx_batch(Some(2), &team()).unwrap();
    assert_eq!((msg.dst, msg.ser_count), (Some(2), 1));
    assert_eq!(msg.header.msg.cmd, ExecType::Am(Cmd::BatchedMsg));
    assert_eq!(msg.data.len(), 16 + (12 + 16 + 3) + (12 + 16 + 1));
    let parts = RegisteredActiveMessages::exec_batched_msg(&msg.data).unwrap();
    assert_eq!(parts.len(), 2);
    assert_eq!((parts[0].team_hash, parts[0].func_id, parts[0].batch_id), (99, 6, 1));
    assert_eq!(parts[0].data, vec![1, 2, 3]);
    assert_eq!((parts[1].func_id, parts[1].batch_id), (5, 2));
    assert_eq!(parts[1].data, vec![4]);
    assert!(r.txed_ams.contains(1) && r.txed_ams.contains(2));
    assert_eq!(r.cur_batch_id, 3);
    assert_eq!(r.process_batched_unit_return(1), Some(vec![10, 11]));
    assert_eq!(r.process_batched_unit_return(1), None);
    assert!(r.tx_batch(Some(2), &team()).is_none());
}

#[test]
fn malformed_messages_are_not_read() {
    assert_eq!(decode(&[]).unwrap().len(), 0);
    assert!(decode(&[1, 2, 3]).is_none());
    let mut r = RegisteredActiveMessages::new();
    r.process_am_req(&ids(), &team(), &request(Some(2), 10), am(b"beta", &[1, 2]));
    let msg = r.tx_batch(Some(2), &team()).unwrap();
    assert!(decode(&msg.data[..msg.data.len() - 1]).is_none());
}

#[test]
fn requests_for_this_pe_stay_here() {
    let mut r = RegisteredActiveMessages::new();
    let (out, also) = r.process_am_req(&ids(), &team(), &request(Some(0), 10), am(b"beta", &[1]));
    assert!(matches!(out, Outcome::ExecLocal(LamellarFunc::Am(_))) && !also);
    assert!(r.tx_batch(Some(0), &team()).is_none());
}

#[test]
fn requests_for_the_team_run_here_too() {
    let mut r = RegisteredActiveMessages::new();
    let (out, also) = r.process_am_req(&ids(), &team(), &request(None, 10), am(b"beta", &[1]));
    assert!(matches!(out, Outcome::Batched { first: true }) && also);
    assert_eq!(r.tx_batch(None, &team()).unwrap().ser_count, 3);
}

#[test]
fn large_requests_go_alone() {
    let mut r = RegisteredActiveMessages::new();
    let (out, _) =
        r.process_am_req(&ids(), &team(), &request(Some(3), 10), am(b"beta", &[7; 10000]));
    assert!(matches!(out, Outcome::Batched { .. }));
    let (out, _) =
        r.process_am_req(&ids(), &team(), &request(Some(3), 11), am(b"beta", &[7; 10001]));
    match out {
        Outcome::Single(msg) => {
            assert_eq!(msg.header.id, 6);
            assert_eq!(msg.header.msg.req_id, 11);
            assert_eq!(msg.header.team_hash, 99);
            assert_eq!(msg.data, vec![7u8; 10001]);
        }
        _ => panic!("not sent alone"),
    }
}

#[test]
fn single_answers_carry_their_request() {
    let mut meta = request(Some(1), 10);
    meta.cmd = ExecType::Am(Cmd::BatchedDataReturn);
    meta.batch_id = Some(4);
    let msg = RegisteredActiveMessages::send_req(
        &LamellarFunc::Result(vec![8, 9]),
        3,
        &meta,
        &team(),
    );
    assert_eq!(msg.header.msg.req_id, 4);
    let list = read_results(&msg.data).unwrap();
    assert_eq!((list.len(), list[0].id, list[0].data.clone()), (1, 10, vec![8, 9]));
}

#[test]
fn answers_are_read_back() {
    let mut buf = Vec::new();
    for id in [3usize, 1, 4] {
        push_usize(&mut buf, id);
    }
    assert_eq!(read_ids(&buf), Some(vec![3, 1, 4]));
    assert_eq!(RegisteredActiveMessages::process_unit_return(&buf), Some(vec![3, 1, 4]));
    assert_eq!(read_ids(&buf[..20]), None);
    let mut buf = Vec::new();
    push_usize(&mut buf, 3);
    push_usize(&mut buf, 2);
    buf.extend([8, 9]);
    push_usize(&mut buf, 5);
    push_usize(&mut buf, 0);
    let list = RegisteredActiveMessages::process_data_return(&buf).unwrap();
    assert_eq!((list[0].id, list[0].data.clone()), (3, vec![8, 9]));
    assert_eq!((list[1].id, list[1].data.len()), (5, 0));
    assert!(read_results(&buf[..17]).is_none());
    let mut buf = Vec::new();
    push_usize(&mut buf, 6);
    buf.extend([1, 2, 3]);
    push_usize(&mut buf, 7);
    buf.extend([4]);
    assert_eq!(payload_start(&buf, 0), Some(8));
    let list = read_ams(&buf, &vec![3, 1]).unwrap();
    assert_eq!((list[0].id, list[0].data.clone()), (6, vec![1, 2, 3]));
    assert_eq!((list[1].id, list[1].data.clone()), (7, vec![4]));
    assert!(read_ams(&buf, &vec![3]).is_none());
    assert_eq!(copy_range(&buf, 8, 11), vec![1, 2, 3]);
}

#[test]
fn answers_find_their_requests() {
    let open = vec![(0usize, 100usize), (1, 101), (2, 102)];
    let (found, rest) = answer(&open, &vec![2, 0]).unwrap();
    assert_eq!(found, vec![102, 100]);
    assert_eq!(rest, vec![(1, 101)]);
    assert!(answer(&open, &vec![3]).is_none());
    assert!(answer(&open, &vec![1, 1]).is_none());
    let (found, rest) = answer(&rest, &vec![1]).unwrap();
    assert_eq!((found, rest.len()), (vec![101], 0));
    let mut t = TxedAms::new();
    t.insert(4, open);
    assert!(t.contains(4) && !t.contains(5));
    assert_eq!(t.remove(4).unwrap().len(), 3);
    assert!(t.remove(4).is_none());
}

fn with_open_batch() -> RegisteredActiveMessages {
    let mut r = RegisteredActiveMessages::new();
    for id in 10..13 {
        r.process_am_req(&ids(), &team(), &request(Some(2), id), am(b"beta", &[1]));
    }
    r.tx_batch(Some(2), &team()).unwrap();
    r
}

fn results(list: &[(usize, &[u8])]) -> Vec<u8> {
    let mut buf = Vec::new();
    for (id, data) in list {
        push_usize(&mut buf, *id);
        push_usize(&mut buf, data.len());
        buf.extend(data.iter());
    }
    buf
}

#[test]
fn values_for_a_batch() {
    let mut r = with_open_batch();
    let out = r.process_batched_data_return(1, &results(&[(2, &[5])])).ok().unwrap();
    assert_eq!((out.len(), out[0].id, out[0].data.clone()), (1, 12, vec![5]));
    assert!(r.txed_ams.contains(1));
    let again = r.process_batched_data_return(1, &results(&[(2, &[5])]));
    assert!(matches!(again, Err(AnswerError::UnknownRequest)));
    assert!(matches!(r.process_batched_data_return(1, &[1]), Err(AnswerError::Malformed)));
    let out = r.process_batched_data_return(1, &results(&[(1, &[6]), (0, &[])])).ok().unwrap();
    assert_eq!((out[0].id, out[1].id), (11, 10));
    assert!(!r.txed_ams.contains(1));
    assert_eq!(r.process_batched_data_return(1, &[1]).ok().unwrap().len(), 0);
}

#[test]
fn returned_active_messages_for_a_batch() {
    let mut r = with_open_batch();
    let mut buf = Vec::new();
    push_usize(&mut buf, 1);
    buf.extend([4, 4]);
    assert_eq!(r.exec_batched_return_am(7, &buf, &vec![2]).ok().unwrap().len(), 0);
    assert!(matches!(r.exec_batched_return_am(1, &buf, &vec![3]), Err(AnswerError::Malformed)));
    let out = r.exec_batched_return_am(1, &buf, &vec![2]).ok().unwrap();
    assert_eq!((out[0].id, out[0].data.clone()), (11, vec![4, 4]));
    let again = r.exec_batched_return_am(1, &buf, &vec![2]);
    assert!(matches!(again, Err(AnswerError::UnknownRequest)));
    let single = r.exec_batched_return_am(0, &buf, &vec![2]).ok().unwrap();
    assert_eq!(single[0].id, 1);
}

#[test]
fn the_last_task_answers_a_batch() {
    let mut b = BatchExec::new(5);
    assert_eq!(b.next_start(), Some(0));
    assert_eq!(b.submit(2), 0);
    assert_eq!(b.next_start(), Some(2));
    let noted = b.record(0, LamellarReturn::Unit);
    assert_eq!(noted, Noted { num_rets: 1, num_unit_rets: 1 });
    let cnt = b.complete();
    assert_eq!(b.turn(cnt), Turn::Wait);
    assert_eq!(b.submit(3), 1);
    assert_eq!(b.turn(cnt), Turn::Leave);
    assert_eq!(b.next_start(), None);
    let noted = b.record(1, LamellarReturn::Unit);
    let cnt = b.complete();
    assert_eq!(b.turn(cnt), Turn::Answer);
    let origin = BatchOrigin { world_pe: 1, src: 3, team_hash: 9, batch_id: 4 };
    let out = b.answers(noted, origin);
    assert_eq!(out.len(), 1);
    assert_eq!(
        out[0].0,
        ReqMeta {
            src: 1,
            dst: Some(3),
            cmd: ExecType::Am(Cmd::BatchedUnitReturn),
            id: 4,
            batch_id: Some(4),
            team_hash: 9,
        }
    );
}

#[test]
fn results_of_a_batch_are_answered_one_by_one() {
    let mut b = BatchExec::new(2);
    b.submit(1);
    b.submit(1);
    b.record(1, LamellarReturn::RemoteData(vec![5]));
    let am = LamellarAm { name: b"beta".to_vec(), data: vec![6] };
    let noted = b.record(0, LamellarReturn::RemoteAm(am));
    let origin = BatchOrigin { world_pe: 1, src: 3, team_hash: 9, batch_id: 4 };
    let out = b.answers(noted, origin);
    assert_eq!(out.len(), 2);
    assert_eq!((out[0].0.id, out[0].0.cmd), (1, ExecType::Am(Cmd::BatchedDataReturn)));
    assert!(matches!(&out[0].1, LamellarFunc::Result(d) if *d == vec![5]));
    assert_eq!((out[1].0.id, out[1].0.cmd), (0, ExecType::Am(Cmd::BatchedAmReturn)));
    assert_eq!(out[1].0.batch_id, Some(4));
}

#[test]
fn results_here() {
    assert!(matches!(exec_local(LamellarReturn::Unit), LocalOutcome::Unit));
    assert!(matches!(
        exec_local(LamellarReturn::LocalData(vec![1])),
        LocalOutcome::Data(d) if d == vec![1]
    ));
    let am = LamellarAm { name: vec![], data: vec![] };
    assert!(matches!(exec_local(LamellarReturn::LocalAm(am)), LocalOutcome::ExecAgain(_)));
}

#[test]
fn single_requests_are_answered() {
    let msg = Msg { src: 2, req_id: 8, cmd: ExecType::Am(Cmd::Exec) };
    let (meta, func) = exec_single_msg(1, &msg, 9, LamellarReturn::Unit);
    assert_eq!((meta.src, meta.dst, meta.id, meta.batch_id), (1, Some(2), 8, None));
    assert_eq!(meta.cmd, ExecType::Am(Cmd::UnitReturn));
    assert!(matches!(func, LamellarFunc::Empty));
    let (meta, func) = exec_single_msg(1, &msg, 9, LamellarReturn::RemoteData(vec![3]));
    assert_eq!(meta.cmd, ExecType::Am(Cmd::DataReturn));
    assert!(matches!(func, LamellarFunc::Result(d) if d == vec![3]));
    let am = LamellarAm { name: vec![], data: vec![] };
    let (meta, _) = exec_single_msg(1, &msg, 9, LamellarReturn::RemoteAm(am));
    assert_eq!(meta.cmd, ExecType::Am(Cmd::AmReturn));
}

#[test]
fn incoming_messages_are_told_apart() {
    let msg = Msg { src: 2, req_id: 8, cmd: ExecType::Am(Cmd::Exec) };
    assert_eq!(process_batched_am(Cmd::BatchedMsg, &msg, 0), Incoming::BatchedMsg);
    assert_eq!(process_batched_am(Cmd::Exec, &msg, 5), Incoming::Single);
    assert_eq!(
        process_batched_am(Cmd::BatchedDataReturn, &msg, 3),
        Incoming::BatchedDataReturn { batch_id: 8 }
    );
    assert_eq!(process_batched_am(Cmd::DataReturn, &msg, 2), Incoming::DataReturn);
    assert_eq!(
        process_batched_am(Cmd::BatchedAmReturn, &msg, -6),
        Incoming::ReturnAm { func_id: 6, batch_id: 8 }
    );
    assert_eq!(
        process_batched_am(Cmd::AmReturn, &msg, -6),
        Incoming::ReturnAm { func_id: 6, batch_id: 0 }
    );
    assert_eq!(process_batched_am(Cmd::UnitReturn, &msg, 0), Incoming::Unhandled);
    let origin = BatchOrigin { world_pe: 1, src: 3, team_hash: 9, batch_id: 4 };
    let meta = return_am_request(&origin, 7);
    assert_eq!((meta.src, meta.dst, meta.id, meta.batch_id), (3, Some(1), 7, Some(4)));
}
