use sd_core_sync::clock::{Clock, ClockError};
use sd_core_sync::ingest::{bridge_step, run_cycle, watermark_from_entries, Actor, BridgeAction, Event, IngestState, MessagesEvent, ProtocolError, Request, OPS_PER_REQUEST};
use sd_core_sync::log::StorageError;
use sd_core_sync::manager::{shared_create, shared_update, DomainError, Manager, Notification, SyncOp, WriteError};
use sd_core_sync::op::{CRDTOperation, OpData};
use sd_core_sync::watermark::Watermark;

const X: u128 = 0xAAAA;
const Y: u128 = 0xBBBB;
const LOCATION: u16 = 3;

fn fields() -> Vec<(Vec<u8>, Vec<u8>)> {
    vec![
        (b"name".to_vec(), b"Location 0".to_vec()),
        (b"path".to_vec(), b"/User/Brendan/Documents".to_vec()),
    ]
}

fn write_all(m: &mut Manager, ops: Vec<SyncOp>, first_id: u128, now: u64) -> Vec<u64> {
    let mut out = Vec::new();
    for (k, op) in ops.into_iter().enumerate() {
        out.push(m.write_op(op, first_id + k as u128, now).unwrap());
    }
    out
}

fn remote_op(id: u128, instance: u128, timestamp: u64, record: &[u8], data: OpData) -> CRDTOperation {
    CRDTOperation { id, instance, timestamp, model: LOCATION, record_id: record.to_vec(), data }
}

fn update(field: &[u8], value: &[u8]) -> OpData {
    OpData::Update { field: field.to_vec(), value: value.to_vec() }
}

#[test]
fn paired_instances_converge() {
    let mut x = Manager::new(X);
    let mut y = Manager::new(Y);
    let rid = b"loc-1".to_vec();
    let ops = shared_create(LOCATION, &rid, &fields());
    assert_eq!(ops.len(), 3);
    x.write_ops(ops, &vec![1, 2, 3], 100).unwrap();
    assert_eq!(x.take_notifications(), vec![Notification::Created]);

    let mut actor = Actor::new();
    let reqs = actor.handle(&mut y, Event::Notification).unwrap();
    let timestamps = match &reqs[..] {
        [Request::Messages { instance_id, timestamps }] => {
            assert_eq!(*instance_id, Y);
            timestamps.clone()
        }
        other => panic!("unexpected requests {:?}", other),
    };
    assert!(timestamps.is_empty());
    let batch = x.get_ops(&watermark_from_entries(&timestamps), 100);
    assert_eq!(batch.len(), 3);
    let reqs = actor
        .handle(&mut y, Event::Messages(MessagesEvent { instance_id: X, messages: batch, has_more: false }))
        .unwrap();
    assert_eq!(reqs, vec![Request::Ingested, Request::FinishedIngesting]);
    assert_eq!(actor.state(), IngestState::Idle);
    assert_eq!(y.take_notifications(), vec![Notification::Ingested]);

    assert_eq!(y.get_ops(&Watermark::new(), 100).len(), 3);
    for (f, v) in fields() {
        assert_eq!(y.table().field(LOCATION, &rid, &f), Some(v.clone()));
        assert_eq!(x.table().field(LOCATION, &rid, &f), Some(v));
    }
}

#[test]
fn get_ops_returns_every_write_in_order() {
    let mut m = Manager::new(X);
    let rid = b"r".to_vec();
    write_all(&mut m, shared_create(LOCATION, &rid, &fields()), 10, 50);
    m.write_op(shared_update(LOCATION, &rid, &b"name".to_vec(), &b"renamed".to_vec()), 20, 10).unwrap();
    let ops = m.get_ops(&Watermark::new(), usize::MAX);
    assert_eq!(ops.len(), 4);
    let ids: Vec<u128> = ops.iter().map(|o| o.id).collect();
    assert_eq!(ids, vec![10, 11, 12, 20]);
    assert_eq!(ops.iter().map(|o| o.timestamp).collect::<Vec<_>>(), vec![50, 51, 52, 53]);
    assert!(ops.windows(2).all(|w| w[0].timestamp <= w[1].timestamp));
}

#[test]
fn replay_on_empty_peer_reproduces_table() {
    let mut origin = Manager::new(X);
    let a = b"a".to_vec();
    let b = b"b".to_vec();
    write_all(&mut origin, shared_create(LOCATION, &a, &fields()), 1, 5);
    write_all(&mut origin, shared_create(LOCATION, &b, &fields()), 10, 5);
    origin.write_op(SyncOp { model: LOCATION, record_id: b.clone(), data: OpData::Delete }, 20, 5).unwrap();
    origin.write_op(shared_update(LOCATION, &a, &b"name".to_vec(), &b"x".to_vec()), 21, 5).unwrap();

    let mut peer = Manager::new(Y);
    peer.ingest_batch(&origin.get_ops(&Watermark::new(), 1000));
    assert!(!peer.table().contains(LOCATION, &b));
    assert!(peer.table().contains(LOCATION, &a));
    assert_eq!(peer.table().field(LOCATION, &a, &b"name".to_vec()), Some(b"x".to_vec()));
    assert_eq!(
        peer.table().field(LOCATION, &a, &b"path".to_vec()),
        origin.table().field(LOCATION, &a, &b"path".to_vec())
    );
}

#[test]
fn ingesting_twice_is_harmless() {
    let batch = vec![
        remote_op(1, X, 10, b"r", OpData::Create),
        remote_op(2, X, 11, b"r", update(b"name", b"one")),
        remote_op(3, X, 12, b"r", update(b"name", b"two")),
    ];
    let mut once = Manager::new(Y);
    once.ingest_batch(&batch);
    let mut twice = Manager::new(Y);
    twice.ingest_batch(&batch);
    twice.ingest_batch(&batch);
    let rid = b"r".to_vec();
    let name = b"name".to_vec();
    assert_eq!(once.table().field(LOCATION, &rid, &name), Some(b"two".to_vec()));
    assert_eq!(twice.table().field(LOCATION, &rid, &name), Some(b"two".to_vec()));
    assert_eq!(twice.watermark().get(X), once.watermark().get(X));
    assert_eq!(twice.get_ops(&Watermark::new(), 100).len(), 3);
}

#[test]
fn covered_operation_is_skipped() {
    let mut m = Manager::new(Y);
    m.ingest_batch(&vec![remote_op(1, X, 10, b"r", update(b"name", b"new"))]);
    m.ingest_batch(&vec![remote_op(2, X, 9, b"r", update(b"name", b"old"))]);
    assert_eq!(m.table().field(LOCATION, &b"r".to_vec(), &b"name".to_vec()), Some(b"new".to_vec()));
    assert_eq!(m.watermark().get(X), Some(10));
}

#[test]
fn failed_domain_mutation_stores_no_operation() {
    let mut m = Manager::new(X);
    let rid = b"missing".to_vec();
    let r = m.write_op(shared_update(LOCATION, &rid, &b"name".to_vec(), &b"v".to_vec()), 1, 5);
    assert_eq!(r, Err(WriteError::Domain(DomainError::NotFound)));
    let r = m.write_op(SyncOp { model: LOCATION, record_id: rid.clone(), data: OpData::Delete }, 2, 5);
    assert_eq!(r, Err(WriteError::Domain(DomainError::NotFound)));
    assert_eq!(m.get_ops(&Watermark::new(), 100).len(), 0);
    assert!(m.take_notifications().is_empty());

    m.write_op(SyncOp { model: LOCATION, record_id: rid.clone(), data: OpData::Create }, 3, 5).unwrap();
    let r = m.write_op(SyncOp { model: LOCATION, record_id: rid.clone(), data: OpData::Create }, 4, 6);
    assert_eq!(r, Err(WriteError::Domain(DomainError::AlreadyExists)));
    let r = m.write_op(shared_update(LOCATION, &rid, &b"name".to_vec(), &b"v".to_vec()), 3, 7);
    assert_eq!(r, Err(WriteError::Storage(StorageError::DuplicateId)));
    assert_eq!(m.get_ops(&Watermark::new(), 100).len(), 1);
    assert_eq!(m.table().field(LOCATION, &rid, &b"name".to_vec()), None);
}

#[test]
fn next_request_carries_raised_watermark() {
    let mut y = Manager::new(Y);
    let mut actor = Actor::new();
    actor.handle(&mut y, Event::Notification).unwrap();
    let batch = vec![
        remote_op(1, X, 10, b"r", OpData::Create),
        remote_op(2, 7, 4, b"s", OpData::Create),
        remote_op(3, X, 15, b"r", update(b"name", b"n")),
    ];
    let reqs = actor
        .handle(&mut y, Event::Messages(MessagesEvent { instance_id: X, messages: batch, has_more: true }))
        .unwrap();
    assert_eq!(actor.state(), IngestState::RequestingMessages);
    match &reqs[..] {
        [Request::Messages { instance_id, timestamps }] => {
            assert_eq!(*instance_id, Y);
            let mut t = timestamps.clone();
            t.sort();
            assert_eq!(t, vec![(7, 4), (X, 15)]);
        }
        other => panic!("unexpected requests {:?}", other),
    }
}

#[test]
fn batch_without_request_is_refused() {
    let mut y = Manager::new(Y);
    let mut actor = Actor::new();
    let ev = Event::Messages(MessagesEvent {
        instance_id: X,
        messages: vec![remote_op(1, X, 10, b"r", OpData::Create)],
        has_more: false,
    });
    assert_eq!(actor.handle(&mut y, ev), Err(ProtocolError::NoOutstandingRequest));
    assert_eq!(y.get_ops(&Watermark::new(), 10).len(), 0);
    assert!(!y.table().contains(LOCATION, &b"r".to_vec()));
}

#[test]
fn query_truncates_at_count() {
    let mut m = Manager::new(X);
    for k in 0..5u128 {
        m.write_op(SyncOp { model: LOCATION, record_id: vec![k as u8], data: OpData::Create }, k, 1).unwrap();
    }
    let ops = m.get_ops(&Watermark::new(), 2);
    assert_eq!(ops.len(), 2);
    assert_eq!(ops.iter().map(|o| o.id).collect::<Vec<_>>(), vec![0, 1]);
    let mut wm = Watermark::new();
    wm.advance(X, ops[1].timestamp);
    let rest = m.get_ops(&wm, 2);
    assert_eq!(rest.iter().map(|o| o.id).collect::<Vec<_>>(), vec![2, 3]);
    assert_eq!(m.get_ops(&Watermark::new(), 0).len(), 0);
}

#[test]
fn operations_merge_in_global_order() {
    let mut m = Manager::new(Y);
    m.ingest_batch(&vec![
        remote_op(1, 9, 20, b"a", OpData::Create),
        remote_op(2, 3, 20, b"b", OpData::Create),
        remote_op(3, 5, 7, b"c", OpData::Create),
    ]);
    let ops = m.get_ops(&Watermark::new(), 10);
    assert_eq!(ops.iter().map(|o| o.id).collect::<Vec<_>>(), vec![3, 2, 1]);
    let mut wm = Watermark::new();
    wm.advance(3, 20);
    assert_eq!(m.get_ops(&wm, 10).iter().map(|o| o.id).collect::<Vec<_>>(), vec![3, 1]);
}

#[test]
fn local_write_follows_observed_timestamps() {
    let mut m = Manager::new(Y);
    m.ingest_batch(&vec![remote_op(1, X, 500, b"a", OpData::Create)]);
    let t = m.write_op(SyncOp { model: LOCATION, record_id: b"b".to_vec(), data: OpData::Create }, 2, 100).unwrap();
    assert_eq!(t, 501);
}

#[test]
fn clock_advances_and_observes() {
    let mut c = Clock::new();
    assert_eq!(c.next(10), Ok(10));
    assert_eq!(c.next(5), Ok(11));
    c.observe(40);
    assert_eq!(c.last(), 40);
    c.observe(3);
    assert_eq!(c.next(0), Ok(41));
    assert_eq!(c.next(100), Ok(100));
    c.observe(u64::MAX);
    assert_eq!(c.next(7), Err(ClockError::Exhausted));
    assert_eq!(c.last(), u64::MAX);
}

#[test]
fn clock_exhaustion_refuses_write() {
    let mut m = Manager::new(X);
    m.ingest_batch(&vec![remote_op(1, 2, u64::MAX, b"a", OpData::Create)]);
    let r = m.write_op(SyncOp { model: LOCATION, record_id: b"b".to_vec(), data: OpData::Create }, 2, 5);
    assert_eq!(r, Err(WriteError::Clock(ClockError::Exhausted)));
    assert!(!m.table().contains(LOCATION, &b"b".to_vec()));
}

#[test]
fn watermark_entries_only_grow() {
    let mut wm = Watermark::new();
    assert_eq!(wm.get(1), None);
    wm.advance(1, 10);
    wm.advance(1, 4);
    wm.advance(2, 3);
    assert_eq!(wm.get(1), Some(10));
    assert!(wm.covers(1, 10));
    assert!(!wm.covers(1, 11));
    assert!(!wm.covers(3, 0));
    assert_eq!(wm.entries().len(), 2);
    let w = watermark_from_entries(&vec![(5, 1), (5, 9), (5, 2)]);
    assert_eq!(w.get(5), Some(9));
}

#[test]
fn cloud_bridge_answers_from_cloud_log() {
    let mut m = Manager::new(Y);
    for k in 0..(OPS_PER_REQUEST as u128 + 1) {
        m.mirror_cloud_op(remote_op(k, X, k as u64 + 1, b"r", OpData::Create)).unwrap();
    }
    assert_eq!(
        m.mirror_cloud_op(remote_op(0, X, 9, b"r", OpData::Create)),
        Err(StorageError::DuplicateId)
    );
    let req = Request::Messages { instance_id: Y, timestamps: vec![] };
    match bridge_step(&m, &req) {
        BridgeAction::Respond(Event::Messages(ev)) => {
            assert_eq!(ev.instance_id, Y);
            assert_eq!(ev.messages.len(), OPS_PER_REQUEST);
            assert!(ev.has_more);
        }
        other => panic!("unexpected action {:?}", other),
    }
    let req = Request::Messages { instance_id: Y, timestamps: vec![(X, OPS_PER_REQUEST as u64)] };
    match bridge_step(&m, &req) {
        BridgeAction::Respond(Event::Messages(ev)) => {
            assert_eq!(ev.messages.len(), 1);
            assert_eq!(ev.messages[0].id, OPS_PER_REQUEST as u128);
            assert!(!ev.has_more);
        }
        other => panic!("unexpected action {:?}", other),
    }
    assert_eq!(bridge_step(&m, &Request::FinishedIngesting), BridgeAction::Finish);
    assert_eq!(bridge_step(&m, &Request::Ingested), BridgeAction::Skip);
    assert_eq!(m.get_ops(&Watermark::new(), 10).len(), 0);
}

#[test]
fn batch_write_is_all_or_nothing() {
    let mut m = Manager::new(X);
    let r = b"r".to_vec();
    let other = b"other".to_vec();
    let batch = vec![
        SyncOp { model: LOCATION, record_id: r.clone(), data: OpData::Create },
        shared_update(LOCATION, &r, &b"name".to_vec(), &b"n".to_vec()),
        shared_update(LOCATION, &other, &b"name".to_vec(), &b"n".to_vec()),
    ];
    assert_eq!(m.write_ops(batch, &vec![1, 2, 3], 10), Err(WriteError::Domain(DomainError::NotFound)));
    assert_eq!(m.get_ops(&Watermark::new(), 10).len(), 0);
    assert!(!m.table().contains(LOCATION, &r));
    assert!(m.take_notifications().is_empty());

    let batch = vec![
        SyncOp { model: LOCATION, record_id: r.clone(), data: OpData::Create },
        shared_update(LOCATION, &r, &b"name".to_vec(), &b"n".to_vec()),
    ];
    assert_eq!(m.write_ops(batch, &vec![4, 4], 10), Err(WriteError::Storage(StorageError::DuplicateId)));
    assert_eq!(m.get_ops(&Watermark::new(), 10).len(), 0);

    let batch = shared_create(LOCATION, &r, &fields());
    m.write_ops(batch, &vec![5, 6, 7], 10).unwrap();
    let ops = m.get_ops(&Watermark::new(), 10);
    assert_eq!(ops.iter().map(|o| (o.id, o.timestamp)).collect::<Vec<_>>(), vec![(5, 10), (6, 11), (7, 12)]);
    assert_eq!(m.table().field(LOCATION, &r, &b"name".to_vec()), Some(b"Location 0".to_vec()));
    assert_eq!(m.take_notifications(), vec![Notification::Created]);
    assert_eq!(m.write_ops(Vec::new(), &Vec::new(), 10), Ok(()));
    assert!(m.take_notifications().is_empty());
}

#[test]
fn cloud_cycle_covers_whole_mirror() {
    let mut m = Manager::new(Y);
    let total = 2 * OPS_PER_REQUEST as u128 + 5;
    for k in 0..total {
        let rid = vec![(k % 7) as u8];
        let data = if k < 7 { OpData::Create } else { update(b"n", &[k as u8]) };
        m.mirror_cloud_op(CRDTOperation { id: k, instance: X, timestamp: k as u64 + 1, model: LOCATION, record_id: rid, data })
            .unwrap();
    }
    let mut actor = Actor::new();
    run_cycle(&mut m, &mut actor);
    assert_eq!(actor.state(), IngestState::Idle);
    assert_eq!(m.watermark().get(X), Some(total as u64));
    assert_eq!(m.get_ops(&Watermark::new(), usize::MAX).len(), total as usize);
    let last = total - 1;
    assert_eq!(
        m.table().field(LOCATION, &vec![(last % 7) as u8], &b"n".to_vec()),
        Some(vec![last as u8])
    );
    assert_eq!(m.take_notifications(), vec![Notification::Ingested; 3]);
}

#[test]
fn ingested_operations_are_served_unchanged() {
    let mut x = Manager::new(X);
    let rid = b"loc".to_vec();
    x.write_ops(shared_create(LOCATION, &rid, &fields()), &vec![1, 2, 3], 100).unwrap();
    let sent = x.get_ops(&Watermark::new(), 100);
    let mut y = Manager::new(Y);
    y.ingest_batch(&sent);
    assert_eq!(y.get_ops(&Watermark::new(), 100), sent);
}

#[test]
fn concurrent_updates_resolve_by_global_order() {
    let a = remote_op(1, 10, 10, b"r", update(b"name", b"from-a"));
    let b = remote_op(2, 20, 5, b"r", update(b"name", b"from-b"));
    let create = remote_op(3, 30, 1, b"r", OpData::Create);
    let mut p = Manager::new(Y);
    p.ingest_batch(&vec![create.clone(), a.clone(), b.clone()]);
    let mut q = Manager::new(Y);
    q.ingest_batch(&vec![b, create, a]);
    let rid = b"r".to_vec();
    let name = b"name".to_vec();
    assert_eq!(p.table().field(LOCATION, &rid, &name), Some(b"from-a".to_vec()));
    assert_eq!(q.table().field(LOCATION, &rid, &name), Some(b"from-a".to_vec()));
}

#[test]
fn equal_timestamps_break_ties_by_instance() {
    let low = remote_op(1, 3, 7, b"r", update(b"name", b"low"));
    let high = remote_op(2, 4, 7, b"r", update(b"name", b"high"));
    let mut p = Manager::new(Y);
    p.ingest_batch(&vec![high.clone(), low.clone()]);
    let mut q = Manager::new(Y);
    q.ingest_batch(&vec![low, high]);
    let rid = b"r".to_vec();
    let name = b"name".to_vec();
    assert_eq!(p.table().field(LOCATION, &rid, &name), Some(b"high".to_vec()));
    assert_eq!(q.table().field(LOCATION, &rid, &name), Some(b"high".to_vec()));
}

#[test]
fn echoed_own_operation_does_not_overwrite_later_write() {
    let mut m = Manager::new(X);
    let rid = b"r".to_vec();
    let name = b"name".to_vec();
    m.write_op(SyncOp { model: LOCATION, record_id: rid.clone(), data: OpData::Create }, 1, 5).unwrap();
    m.write_op(shared_update(LOCATION, &rid, &name, &b"old".to_vec()), 2, 5).unwrap();
    let echoed = m.get_ops(&Watermark::new(), 10);
    m.write_op(shared_update(LOCATION, &rid, &name, &b"new".to_vec()), 3, 5).unwrap();
    m.ingest_batch(&echoed);
    assert_eq!(m.table().field(LOCATION, &rid, &name), Some(b"new".to_vec()));
    assert_eq!(m.get_ops(&Watermark::new(), 10).len(), 3);
}

#[test]
fn deletion_hides_older_writes_in_any_order() {
    let rid = b"r".to_vec();
    let ops = vec![
        remote_op(1, X, 1, b"r", OpData::Create),
        remote_op(2, X, 2, b"r", update(b"a", b"1")),
        remote_op(3, 5, 10, b"r", OpData::Delete),
        remote_op(4, X, 15, b"r", update(b"b", b"2")),
    ];
    let mut p = Manager::new(Y);
    p.ingest_batch(&ops);
    let mut q = Manager::new(Y);
    q.ingest_batch(&vec![ops[3].clone(), ops[2].clone(), ops[0].clone(), ops[1].clone()]);
    for m in [&p, &q] {
        assert!(m.table().contains(LOCATION, &rid));
        assert_eq!(m.table().field(LOCATION, &rid, &b"a".to_vec()), None);
        assert_eq!(m.table().field(LOCATION, &rid, &b"b".to_vec()), Some(b"2".to_vec()));
    }
    let mut gone = Manager::new(Y);
    gone.ingest_batch(&vec![ops[2].clone(), ops[1].clone(), ops[0].clone()]);
    assert!(!gone.table().contains(LOCATION, &rid));
}
