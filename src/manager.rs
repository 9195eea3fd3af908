//! The sync manager: pairs every logical operation with its domain mutation, serves
//! range queries over the logs, and ingests remote batches.
use vstd::prelude::*;
use crate::clock::{Clock, ClockError};
use crate::log::{OpLog, StorageError, has_id, has_op, lemma_inserted_ops, ids_distinct, inserted_at, lemma_eligible_all, lemma_inserted_ids, query_spec};
use crate::op::{CRDTOperation, DataView, OpData, OpView, copy_bytes, ops_view, sorted};
use crate::table::{Table, TableState, all_applicable, applicable, apply_op, lemma_all_applicable_prefix, lemma_replay_append, replay};
use crate::watermark::{Watermark, advanced, covered};
use crate::ingest_spec::{fresh_and_ordered, ingest_spec, lemma_ingest_replays};

verus! {

/// In-process signal for subscribers of a manager.
#[derive(Debug, Clone, Copy, PartialEq, Eq, Structural)]
pub enum Notification {
    /// Local operations were written.
    Created,
    /// Remote operations were ingested.
    Ingested,
}

/// The domain mutation paired with a write cannot be applied.
#[derive(Debug, Clone, Copy, PartialEq, Eq, Structural)]
pub enum DomainError {
    /// A creation addresses a record that exists.
    AlreadyExists,
    /// An update or a deletion addresses a record that does not exist.
    NotFound,
}

/// Why a local write was refused; nothing was stored then.
#[derive(Debug, Clone, Copy, PartialEq, Eq, Structural)]
pub enum WriteError {
    Clock(ClockError),
    Storage(StorageError),
    Domain(DomainError),
}

/// A logical operation before it is stamped: the record it addresses and the payload.
#[derive(Clone, Debug, PartialEq, Eq)]
pub struct SyncOp {
    pub model: u16,
    pub record_id: Vec<u8>,
    pub data: OpData,
}

/// The operation that a sync operation becomes once stamped.
pub open spec fn stamped(op: SyncOp, id: u128, instance: u128, timestamp: u64) -> OpView {
    OpView { id, instance, timestamp, model: op.model, record_id: op.record_id@, data: op.data@ }
}

/// The sync operations that create a record with the given fields: a creation marker,
/// then one update per field, in order.
pub open spec fn shared_create_spec(model: u16, record_id: Seq<u8>, fields: Seq<(Seq<u8>, Seq<u8>)>) -> Seq<(u16, Seq<u8>, DataView)> {
    seq![(model, record_id, DataView::Create)] + fields.map_values(
        |f: (Seq<u8>, Seq<u8>)| (model, record_id, DataView::Update { field: f.0, value: f.1 }),
    )
}

/// The timestamp a clock at `last` issues first at physical time `now`.
pub open spec fn next_ts(last: u64, now: u64) -> int {
    if now > last { now as int } else { last + 1 }
}

/// A batch of sync operations stamped with their identifiers and consecutive
/// timestamps from `first`.
pub open spec fn stamped_batch(ops: Seq<SyncOp>, ids: Seq<u128>, instance: u128, first: int) -> Seq<OpView> {
    Seq::new(ops.len(), |i: int| stamped(ops[i], ids[i], instance, (first + i) as u64))
}

/// The identifiers are distinct and none is in the log.
pub open spec fn ids_fresh(log: Seq<OpView>, ids: Seq<u128>) -> bool {
    &&& forall|i: int| 0 <= i < ids.len() ==> !has_id(log, #[trigger] ids[i])
    &&& forall|i: int, j: int| 0 <= i < j < ids.len() ==> ids[i] != ids[j]
}

/// The clock can issue `n` consecutive timestamps from `next_ts(last, now)`.
pub open spec fn clock_room(last: u64, now: u64, n: nat) -> bool {
    n == 0 || next_ts(last, now) + n - 1 <= u64::MAX
}

pub open spec fn sync_op_view(op: SyncOp) -> (u16, Seq<u8>, DataView) {
    (op.model, op.record_id@, op.data@)
}

/// The sync operation that sets one field of a record.
pub fn shared_update(model: u16, record_id: &Vec<u8>, field: &Vec<u8>, value: &Vec<u8>) -> (r: SyncOp)
    ensures
        sync_op_view(r) == (model, record_id@, DataView::Update { field: field@, value: value@ }),
{
    SyncOp {
        model,
        record_id: copy_bytes(record_id),
        data: OpData::Update { field: copy_bytes(field), value: copy_bytes(value) },
    }
}

/// The sync operations that create a record with the given fields.
pub fn shared_create(model: u16, record_id: &Vec<u8>, fields: &Vec<(Vec<u8>, Vec<u8>)>) -> (r: Vec<SyncOp>)
    ensures
        r@.map_values(|o: SyncOp| sync_op_view(o)) == shared_create_spec(
            model,
            record_id@,
            fields@.map_values(|f: (Vec<u8>, Vec<u8>)| (f.0@, f.1@)),
        ),
{
    let ghost fs = fields@.map_values(|f: (Vec<u8>, Vec<u8>)| (f.0@, f.1@));
    let ghost want = shared_create_spec(model, record_id@, fs);
    let mut r: Vec<SyncOp> = Vec::new();
    r.push(SyncOp { model, record_id: copy_bytes(record_id), data: OpData::Create });
    let mut i: usize = 0;
    while i < fields.len()
        invariant
            i <= fields@.len(),
            want == shared_create_spec(model, record_id@, fs),
            fs == fields@.map_values(|f: (Vec<u8>, Vec<u8>)| (f.0@, f.1@)),
            r@.map_values(|o: SyncOp| sync_op_view(o)) == want.take(i + 1),
        decreases fields.len() - i,
    {
        let ghost before = r@;
        let u = shared_update(model, record_id, &fields[i].0, &fields[i].1);
        assert(fs[i as int] == (fields@[i as int].0@, fields@[i as int].1@));
        assert(want[i + 1] == shared_create_spec(model, record_id@, fs)[i + 1]);
        assert(want[i + 1] == (model, record_id@, DataView::Update { field: fields@[i as int].0@, value: fields@[i as int].1@ }));
        r.push(u);
        assert(r@ == before.push(u));
        assert(sync_op_view(u) == want[i + 1]);
        assert(want.take(i + 2) =~= want.take(i + 1).push(want[i + 1]));
        assert(before.push(u).map_values(|o: SyncOp| sync_op_view(o))
            =~= before.map_values(|o: SyncOp| sync_op_view(o)).push(sync_op_view(u)));
        assert(r@.map_values(|o: SyncOp| sync_op_view(o)) =~= want.take(i + 2));
        i = i + 1;
    }
    assert(want.take(i + 1) =~= want);
    r
}

/// The error a local write of the operation meets when it is not applicable.
pub open spec fn domain_error_of(o: OpView) -> DomainError {
    if o.data is Create { DomainError::AlreadyExists } else { DomainError::NotFound }
}

/// The error of the first operation of a batch that cannot be written after the
/// earlier ones.
pub open spec fn first_domain_error(s: TableState, ops: Seq<OpView>) -> DomainError
    decreases ops.len(),
{
    if ops.len() == 0 {
        DomainError::NotFound
    } else if !all_applicable(s, ops.drop_last()) {
        first_domain_error(s, ops.drop_last())
    } else {
        domain_error_of(ops.last())
    }
}

/// The first operation that cannot be written decides the batch's error.
pub proof fn lemma_first_domain_error(s: TableState, ops: Seq<OpView>, k: int)
    requires
        0 <= k < ops.len(),
        all_applicable(s, ops.take(k)),
        !applicable(replay(s, ops.take(k)), ops[k]),
    ensures
        first_domain_error(s, ops) == domain_error_of(ops[k]),
    decreases ops.len(),
{
    let d = ops.drop_last();
    if ops.len() == k + 1 {
        assert(d == ops.take(k));
    } else {
        assert(d.take(k) == ops.take(k));
        assert(d[k] == ops[k]);
        if all_applicable(s, d) {
            lemma_all_applicable_prefix(s, d, k + 1);
            assert(d.take(k + 1).drop_last() == ops.take(k));
            assert(d.take(k + 1).last() == ops[k]);
        }
        lemma_first_domain_error(s, d, k);
    }
}

/// The `i`-th operation of the batch is the first with its identifier, which the log
/// did not hold.
pub open spec fn new_in_batch(log: Seq<OpView>, ops: Seq<CRDTOperation>, i: int) -> bool {
    &&& !has_id(log, ops[i].id)
    &&& forall|j: int| 0 <= j < i ==> ops[j].id != ops[i].id
}

/// Every operation of the batch has a new identifier, and the log followed by the
/// batch is in the global order: ingesting then appends the batch as it is.
pub open spec fn appendable(log: Seq<OpView>, ops: Seq<CRDTOperation>) -> bool {
    &&& forall|i: int| 0 <= i < ops.len() ==> new_in_batch(log, ops, i)
    &&& sorted(log + ops_view(ops))
}

/// What ingesting the batch `ops` does to a manager: table and watermark follow
/// `ingest_spec`; the log keeps what it held, gains every operation of the batch whose
/// identifier was new exactly as it arrived, and nothing else (the batch itself, at
/// the end, when it is `appendable`); the clock observes
/// every timestamp; `Ingested` is published; the rest is unchanged.
pub open spec fn ingested(m0: Manager, m1: Manager, ops: Seq<CRDTOperation>) -> bool {
    &&& (m1.table_view(), m1.watermark_view()) == ingest_spec(m0.table_view(), m0.watermark_view(), ops_view(ops))
    &&& forall|x: OpView| #[trigger] has_op(m0.log_view(), x) ==> has_op(m1.log_view(), x)
    &&& forall|i: int| 0 <= i < ops.len() && new_in_batch(m0.log_view(), ops, i) ==> has_op(m1.log_view(), #[trigger] ops[i]@)
    &&& forall|x: OpView| #[trigger] has_op(m1.log_view(), x) ==> has_op(m0.log_view(), x)
        || exists|i: int| 0 <= i < ops.len() && ops[i]@ == x
    &&& appendable(m0.log_view(), ops) ==> m1.log_view() == m0.log_view() + ops_view(ops)
    &&& forall|x: u128| #[trigger] has_id(m0.log_view(), x) ==> has_id(m1.log_view(), x)
    &&& forall|i: int| 0 <= i < ops.len() ==> has_id(m1.log_view(), #[trigger] ops[i].id)
    &&& forall|i: int| 0 <= i < ops.len() ==> #[trigger] ops[i].timestamp <= m1.clock_view()
    &&& m0.clock_view() <= m1.clock_view()
    &&& m1.instance_spec() == m0.instance_spec()
    &&& !m1.local_only()
    &&& m1.cloud_log_view() == m0.cloud_log_view()
    &&& m1.notifications_view() == m0.notifications_view().push(Notification::Ingested)
}

/// The sync manager of one instance.
pub struct Manager {
    instance: u128,
    clock: Clock,
    log: OpLog,
    cloud_log: OpLog,
    table: Table,
    watermark: Watermark,
    notifications: Vec<Notification>,
    /// Whether every operation of the log was written locally.
    local_only: Ghost<bool>,
}

impl Manager {
    pub closed spec fn instance_spec(&self) -> u128 {
        self.instance
    }

    /// The local operation log.
    pub closed spec fn log_view(&self) -> Seq<OpView> {
        self.log@
    }

    /// The log mirrored from the cloud relay.
    pub closed spec fn cloud_log_view(&self) -> Seq<OpView> {
        self.cloud_log@
    }

    /// The domain records.
    pub closed spec fn table_view(&self) -> TableState {
        self.table@
    }

    /// The ingest watermark.
    pub closed spec fn watermark_view(&self) -> Map<u128, u64> {
        self.watermark@
    }

    /// The last timestamp issued or observed.
    pub closed spec fn clock_view(&self) -> u64 {
        self.clock.last_spec()
    }

    /// Notifications published and not yet taken by subscribers.
    pub closed spec fn notifications_view(&self) -> Seq<Notification> {
        self.notifications@
    }

    pub closed spec fn wf(&self) -> bool {
        &&& self.log.wf()
        &&& self.cloud_log.wf()
        &&& self.table.wf()
        &&& self.watermark.wf()
        &&& forall|i: int| 0 <= i < self.log@.len() ==> (#[trigger] self.log@[i]).timestamp <= self.clock.last_spec()
        &&& self.local_only@ ==> {
            &&& self.table@ == replay(TableState::empty(), self.log@)
            &&& forall|i: int| 0 <= i < self.log@.len() ==> (#[trigger] self.log@[i]).instance == self.instance
            &&& forall|i: int, j: int| 0 <= i < j < self.log@.len() ==> self.log@[i].timestamp < self.log@[j].timestamp
        }
    }

    /// Whether every operation in the local log was written by this manager: nothing
    /// was ingested.
    pub closed spec fn local_only(&self) -> bool {
        self.local_only@
    }

    /// Every operation in the local log is returned by a query with an empty watermark
    /// and a count at least the log's length: each exactly once, in the global order,
    /// so timestamps never decrease. (`write_op` appends each written operation.)
    pub proof fn lemma_get_ops_everything(&self, count: nat)
        requires
            self.wf(),
            count >= self.log_view().len(),
        ensures
            query_spec(self.log_view(), Map::empty(), count) == self.log_view(),
            sorted(self.log_view()),
            ids_distinct(self.log_view()),
            forall|i: int, j: int| 0 <= i < j < self.log_view().len()
                ==> self.log_view()[i].timestamp <= self.log_view()[j].timestamp,
    {
        self.log.lemma_wf();
        lemma_eligible_all(self.log@);
        let s = self.log_view();
        assert forall|i: int, j: int| 0 <= i < j < s.len() implies s[i].timestamp <= s[j].timestamp by {
            assert(crate::op::op_le(s[i], s[j]));
        }
    }

    /// Replay determinism: for a manager that has only written locally, a peer that
    /// starts empty and ingests the whole answer to an empty-watermark query ends with
    /// this manager's table.
    pub proof fn lemma_replay_determinism(&self, count: nat)
        requires
            self.wf(),
            self.local_only(),
            count >= self.log_view().len(),
        ensures
            ingest_spec(TableState::empty(), Map::empty(), query_spec(self.log_view(), Map::empty(), count)).0
                == self.table_view(),
    {
        self.lemma_get_ops_everything(count);
        assert(fresh_and_ordered(Map::empty(), self.log_view()));
        lemma_ingest_replays(TableState::empty(), Map::empty(), self.log_view());
    }

    /// The whole answer to an empty-watermark query can be appended to an empty log as
    /// it is: a peer that starts empty and ingests it serves exactly this log.
    pub proof fn lemma_log_copies_to_empty_peer(&self, count: nat, ops: Seq<CRDTOperation>)
        requires
            self.wf(),
            count >= self.log_view().len(),
            ops_view(ops) == query_spec(self.log_view(), Map::empty(), count),
        ensures
            appendable(Seq::empty(), ops),
            Seq::<OpView>::empty() + ops_view(ops) == self.log_view(),
    {
        self.lemma_get_ops_everything(count);
        let s = self.log_view();
        assert(Seq::<OpView>::empty() + ops_view(ops) =~= s);
        assert forall|i: int| 0 <= i < ops.len() implies new_in_batch(Seq::empty(), ops, i) by {
            assert forall|j: int| 0 <= j < i implies ops[j].id != ops[i].id by {
                assert(ops_view(ops)[j] == ops[j]@ && ops_view(ops)[i] == ops[i]@);
            }
        }
    }

    /// A manager for `instance` with empty logs and table.
    pub fn new(instance: u128) -> (r: Manager)
        ensures
            r.wf(),
            r.instance_spec() == instance,
            r.log_view() == Seq::<OpView>::empty(),
            r.cloud_log_view() == Seq::<OpView>::empty(),
            r.table_view() == TableState::empty(),
            r.watermark_view() == Map::<u128, u64>::empty(),
            r.clock_view() == 0,
            r.notifications_view() == Seq::<Notification>::empty(),
            r.local_only(),
    {
        Manager {
            instance,
            clock: Clock::new(),
            log: OpLog::new(),
            cloud_log: OpLog::new(),
            table: Table::new(),
            watermark: Watermark::new(),
            notifications: Vec::new(),
            local_only: Ghost(true),
        }
    }

    pub fn instance(&self) -> (r: u128)
        ensures
            r == self.instance_spec(),
    {
        self.instance
    }

    /// The domain records.
    pub fn table(&self) -> (r: &Table)
        requires
            self.wf(),
        ensures
            r.wf(),
            r@ == self.table_view(),
    {
        &self.table
    }

    /// The ingest watermark.
    pub fn watermark(&self) -> (r: &Watermark)
        requires
            self.wf(),
        ensures
            r.wf(),
            r@ == self.watermark_view(),
    {
        &self.watermark
    }

    /// Hands the pending notifications to the caller.
    pub fn take_notifications(&mut self) -> (r: Vec<Notification>)
        ensures
            r@ == old(self).notifications_view(),
            final(self).notifications_view() == Seq::<Notification>::empty(),
            final(self).wf() == old(self).wf(),
            final(self).log_view() == old(self).log_view(),
            final(self).cloud_log_view() == old(self).cloud_log_view(),
            final(self).table_view() == old(self).table_view(),
            final(self).watermark_view() == old(self).watermark_view(),
            final(self).clock_view() == old(self).clock_view(),
            final(self).instance_spec() == old(self).instance_spec(),
            final(self).local_only() == old(self).local_only(),
    {
        let mut r: Vec<Notification> = Vec::new();
        std::mem::swap(&mut r, &mut self.notifications);
        r
    }

    /// Writes one operation together with its domain mutation, stamped with a fresh
    /// timestamp taken at physical time `now`. Either both are stored and `Created` is
    /// published, or neither is and the manager is unchanged.
    pub fn write_op(&mut self, op: SyncOp, id: u128, now: u64) -> (r: Result<u64, WriteError>)
        requires
            old(self).wf(),
        ensures
            final(self).wf(),
            final(self).instance_spec() == old(self).instance_spec(),
            final(self).local_only() == old(self).local_only(),
            final(self).cloud_log_view() == old(self).cloud_log_view(),
            r is Err ==> final(self).watermark_view() == old(self).watermark_view(),
            r matches Ok(t) ==> final(self).watermark_view() == advanced(old(self).watermark_view(), old(self).instance_spec(), t),
            r is Ok <==> !has_id(old(self).log_view(), id)
                && applicable(old(self).table_view(), stamped(op, id, old(self).instance_spec(), 0))
                && !(now <= old(self).clock_view() && old(self).clock_view() == u64::MAX),
            has_id(old(self).log_view(), id) ==> r == Err::<u64, WriteError>(WriteError::Storage(StorageError::DuplicateId)),
            !has_id(old(self).log_view(), id) && !applicable(old(self).table_view(), stamped(op, id, old(self).instance_spec(), 0))
                ==> r == Err::<u64, WriteError>(WriteError::Domain(
                    if op.data is Create { DomainError::AlreadyExists } else { DomainError::NotFound },
                )),
            !has_id(old(self).log_view(), id) && applicable(old(self).table_view(), stamped(op, id, old(self).instance_spec(), 0))
                && now <= old(self).clock_view() && old(self).clock_view() == u64::MAX
                ==> r == Err::<u64, WriteError>(WriteError::Clock(ClockError::Exhausted)),
            r is Err ==> {
                &&& final(self).log_view() == old(self).log_view()
                &&& final(self).table_view() == old(self).table_view()
                &&& final(self).clock_view() == old(self).clock_view()
                &&& final(self).notifications_view() == old(self).notifications_view()
            },
            r matches Ok(t) ==> {
                &&& !has_id(old(self).log_view(), id)
                &&& applicable(old(self).table_view(), stamped(op, id, old(self).instance_spec(), t))
                &&& t > old(self).clock_view()
                &&& t == (if now > old(self).clock_view() { now } else { (old(self).clock_view() + 1) as u64 })
                &&& final(self).clock_view() == t
                &&& final(self).log_view() == old(self).log_view().push(stamped(op, id, old(self).instance_spec(), t))
                &&& final(self).table_view() == apply_op(old(self).table_view(), stamped(op, id, old(self).instance_spec(), t))
                &&& final(self).notifications_view() == old(self).notifications_view().push(Notification::Created)
            },
            old(self).table_view() == replay(TableState::empty(), old(self).log_view())
                ==> final(self).table_view() == replay(TableState::empty(), final(self).log_view()),
    {
        if self.log.contains_id(id) {
            return Err(WriteError::Storage(StorageError::DuplicateId));
        }
        let present = self.table.contains(op.model, &op.record_id);
        match op.data {
            OpData::Create => {
                if present {
                    return Err(WriteError::Domain(DomainError::AlreadyExists));
                }
            },
            _ => {
                if !present {
                    return Err(WriteError::Domain(DomainError::NotFound));
                }
            },
        }
        let ghost s = self.log@;
        let t = match self.clock.next(now) {
            Ok(t) => t,
            Err(e) => {
                return Err(WriteError::Clock(e));
            },
        };
        let ghost want = stamped(op, id, self.instance, t);
        let full = CRDTOperation {
            id,
            instance: self.instance,
            timestamp: t,
            model: op.model,
            record_id: op.record_id,
            data: op.data,
        };
        assert(full@ == want);
        self.table.apply(&full);
        match self.log.append(full) {
            Ok(p) => {
                proof {
                    if p < s.len() {
                        assert(s[p as int].timestamp <= old(self).clock.last_spec());
                    }
                    assert(self.log@ == s.push(want));
                }
            },
            Err(e) => {
                return Err(WriteError::Storage(e));
            },
        }
        assert(self.log@.drop_last() == old(self).log@);
        self.notifications.push(Notification::Created);
        self.watermark.advance(self.instance, t);
        Ok(t)
    }

    /// Writes a batch of operations with their domain mutations as one unit: the
    /// operations get the identifiers `ids` and consecutive timestamps from the one the
    /// clock issues at `now`. Either every operation and mutation is stored and
    /// `Created` is published once, or nothing is and the manager is unchanged.
    pub fn write_ops(&mut self, ops: Vec<SyncOp>, ids: &Vec<u128>, now: u64) -> (r: Result<(), WriteError>)
        requires
            old(self).wf(),
            ids@.len() == ops@.len(),
        ensures
            final(self).wf(),
            final(self).instance_spec() == old(self).instance_spec(),
            final(self).local_only() == old(self).local_only(),
            final(self).cloud_log_view() == old(self).cloud_log_view(),
            r is Err || ops@.len() == 0 ==> final(self).watermark_view() == old(self).watermark_view(),
            r is Ok && ops@.len() > 0 ==> final(self).watermark_view() == advanced(
                old(self).watermark_view(),
                old(self).instance_spec(),
                (next_ts(old(self).clock_view(), now) + ops@.len() - 1) as u64,
            ),
            ({
                let batch = stamped_batch(ops@, ids@, old(self).instance_spec(), next_ts(old(self).clock_view(), now));
                &&& r is Ok <==> ids_fresh(old(self).log_view(), ids@)
                    && clock_room(old(self).clock_view(), now, ops@.len())
                    && all_applicable(old(self).table_view(), batch)
                &&& !ids_fresh(old(self).log_view(), ids@)
                    ==> r == Err::<(), WriteError>(WriteError::Storage(StorageError::DuplicateId))
                &&& ids_fresh(old(self).log_view(), ids@) && !clock_room(old(self).clock_view(), now, ops@.len())
                    ==> r == Err::<(), WriteError>(WriteError::Clock(ClockError::Exhausted))
                &&& ids_fresh(old(self).log_view(), ids@) && clock_room(old(self).clock_view(), now, ops@.len())
                    && !all_applicable(old(self).table_view(), batch)
                    ==> r == Err::<(), WriteError>(WriteError::Domain(first_domain_error(old(self).table_view(), batch)))
                &&& r is Ok ==> {
                    &&& final(self).log_view() == old(self).log_view() + batch
                    &&& final(self).table_view() == replay(old(self).table_view(), batch)
                    &&& ops@.len() > 0 ==> final(self).clock_view() == next_ts(old(self).clock_view(), now) + ops@.len() - 1
                        && final(self).notifications_view() == old(self).notifications_view().push(Notification::Created)
                    &&& ops@.len() == 0 ==> final(self).clock_view() == old(self).clock_view()
                        && final(self).notifications_view() == old(self).notifications_view()
                }
            }),
            r is Err ==> {
                &&& final(self).log_view() == old(self).log_view()
                &&& final(self).table_view() == old(self).table_view()
                &&& final(self).clock_view() == old(self).clock_view()
                &&& final(self).notifications_view() == old(self).notifications_view()
            },
            old(self).table_view() == replay(TableState::empty(), old(self).log_view())
                ==> final(self).table_view() == replay(TableState::empty(), final(self).log_view()),
    {
        let n = ops.len();
        let ghost l0 = self.log@;
        let ghost t0 = self.table@;
        let ghost c0 = self.clock.last_spec();
        let mut i: usize = 0;
        while i < n
            invariant
                i <= n,
                n == ids@.len(),
                l0 == self.log@,
                *self == *old(self),
                self.wf(),
                forall|k: int| 0 <= k < i ==> !has_id(l0, #[trigger] ids@[k]),
                forall|a: int, b: int| 0 <= a < b < i ==> ids@[a] != ids@[b],
            decreases n - i,
        {
            if self.log.contains_id(ids[i]) {
                return Err(WriteError::Storage(StorageError::DuplicateId));
            }
            let mut j: usize = 0;
            while j < i
                invariant
                    j <= i,
                    i < n,
                    n == ids@.len(),
                    *self == *old(self),
                    self.wf(),
                    forall|k: int| 0 <= k < j ==> ids@[k] != ids@[i as int],
                decreases i - j,
            {
                if ids[j] == ids[i] {
                    return Err(WriteError::Storage(StorageError::DuplicateId));
                }
                j = j + 1;
            }
            i = i + 1;
        }
        let last = self.clock.last();
        let first: u64 = if now > last {
            now
        } else if last == u64::MAX {
            if n == 0 {
                return Ok(());
            }
            return Err(WriteError::Clock(ClockError::Exhausted));
        } else {
            last + 1
        };
        if n > 0 && u64::MAX - first < (n - 1) as u64 {
            return Err(WriteError::Clock(ClockError::Exhausted));
        }
        let ghost batch = stamped_batch(ops@, ids@, self.instance, first as int);
        let mut table = self.table.copy();
        let mut stamped_ops: Vec<CRDTOperation> = Vec::new();
        let mut k: usize = 0;
        while k < n
            invariant
                k <= n,
                n == ops@.len(),
                n == ids@.len(),
                n == 0 || first + n - 1 <= u64::MAX,
                batch == stamped_batch(ops@, ids@, self.instance, first as int),
                first as int == next_ts(c0, now),
                clock_room(c0, now, n as nat),
                ids_fresh(l0, ids@),
                l0 == old(self).log@,
                c0 == old(self).clock.last_spec(),
                *self == *old(self),
                self.wf(),
                self.table@ == t0,
                table.wf(),
                table@ == replay(t0, batch.take(k as int)),
                all_applicable(t0, batch.take(k as int)),
                ops_view(stamped_ops@) == batch.take(k as int),
            decreases n - k,
        {
            let op = &ops[k];
            let full = CRDTOperation {
                id: ids[k],
                instance: self.instance,
                timestamp: first + k as u64,
                model: op.model,
                record_id: copy_bytes(&op.record_id),
                data: op.data.copy(),
            };
            assert(full@ == batch[k as int]);
            assert(batch.take(k + 1).drop_last() == batch.take(k as int));
            let present = table.contains(full.model, &full.record_id);
            let fits = match full.data {
                OpData::Create => !present,
                _ => present,
            };
            if !fits {
                assert(!applicable(table@, full@));
                proof {
                    assert(batch.take(k + 1).last() == batch[k as int]);
                    if all_applicable(t0, batch) {
                        lemma_all_applicable_prefix(t0, batch, k + 1);
                    }
                    lemma_first_domain_error(t0, batch, k as int);
                }
                return Err(WriteError::Domain(
                    if present { DomainError::AlreadyExists } else { DomainError::NotFound },
                ));
            }
            table.apply(&full);
            let ghost before = stamped_ops@;
            stamped_ops.push(full);
            assert(ops_view(stamped_ops@) =~= ops_view(before).push(batch[k as int]));
            k = k + 1;
        }
        assert(batch.take(n as int) == batch);
        let ghost was_local = self.local_only@;
        self.local_only = Ghost(false);
        self.table = table;
        let mut k: usize = 0;
        while k < n
            invariant
                k <= n,
                n == ops@.len(),
                n == ids@.len(),
                n == 0 || first + n - 1 <= u64::MAX,
                first as int == next_ts(c0, now),
                batch == stamped_batch(ops@, ids@, self.instance, first as int),
                ops_view(stamped_ops@) == batch,
                stamped_ops@.len() == n,
                ids_fresh(l0, ids@),
                self.wf(),
                self.log@ == l0 + batch.take(k as int),
                k == 0 ==> self.clock.last_spec() == c0,
                k > 0 ==> self.clock.last_spec() == first + k - 1,
                self.instance == old(self).instance,
                self.cloud_log@ == old(self).cloud_log@,
                self.watermark@ == old(self).watermark@,
                self.notifications@ == old(self).notifications@,
                self.table@ == replay(t0, batch),
                !self.local_only@,
                was_local == old(self).local_only@,
            decreases n - k,
        {
            let ghost s = self.log@;
            let t = match self.clock.next(now) {
                Ok(t) => t,
                Err(_) => {
                    assert(false);
                    return Err(WriteError::Clock(ClockError::Exhausted));
                },
            };
            assert(t == first + k);
            let op = stamped_ops[k].copy();
            assert(op@ == batch[k as int]);
            assert(!has_id(s, op.id)) by {
                if has_id(s, op.id) {
                    let x = choose|x: int| 0 <= x < s.len() && s[x].id == op.id;
                    if x < l0.len() {
                        assert(l0[x] == s[x]);
                    } else {
                        assert(s[x] == batch[x - l0.len()]);
                        assert(ids@[x - l0.len()] != ids@[k as int]);
                    }
                }
            }
            assert(batch.take(k + 1) == batch.take(k as int).push(batch[k as int]));
            match self.log.append(op) {
                Ok(p) => {
                    proof {
                        if p < s.len() {
                            assert(s[p as int].timestamp < t);
                        }
                        assert(self.log@ == s.push(batch[k as int]));
                        assert(self.log@ == l0 + batch.take(k + 1));
                        assert forall|x: int| 0 <= x < self.log@.len() implies
                            #[trigger] self.log@[x].timestamp <= self.clock.last_spec() by {
                            if x < s.len() {
                                assert(self.log@[x] == s[x]);
                            }
                        }
                    }
                },
                Err(_) => {
                    assert(false);
                    return Err(WriteError::Storage(StorageError::DuplicateId));
                },
            }
            k = k + 1;
        }
        assert(batch.take(n as int) == batch);
        if n > 0 {
            self.notifications.push(Notification::Created);
        }
        proof {
            lemma_replay_append(TableState::empty(), l0, batch);
            if was_local {
                let s = self.log@;
                assert forall|a: int, b: int| 0 <= a < b < s.len() implies s[a].timestamp < s[b].timestamp by {
                    if b >= l0.len() {
                        assert(s[b] == batch[b - l0.len()]);
                        if a < l0.len() {
                            assert(s[a] == l0[a]);
                            assert(l0[a].timestamp <= c0);
                        } else {
                            assert(s[a] == batch[a - l0.len()]);
                        }
                    } else {
                        assert(s[a] == l0[a] && s[b] == l0[b]);
                    }
                }
                assert forall|a: int| 0 <= a < s.len() implies (#[trigger] s[a]).instance == self.instance by {
                    if a >= l0.len() {
                        assert(s[a] == batch[a - l0.len()]);
                    } else {
                        assert(s[a] == l0[a]);
                    }
                }
            }
        }
        self.local_only = Ghost(was_local);
        if n > 0 {
            self.watermark.advance(self.instance, first + (n - 1) as u64);
        }
        Ok(())
    }

    /// The local operations that `wm` does not cover, in the global order, at most
    /// `count` of them.
    pub fn get_ops(&self, wm: &Watermark, count: usize) -> (r: Vec<CRDTOperation>)
        requires
            self.wf(),
            wm.wf(),
        ensures
            ops_view(r@) == query_spec(self.log_view(), wm@, count as nat),
            sorted(ops_view(r@)),
    {
        proof {
            self.log.lemma_wf();
            crate::log::lemma_query_sorted(self.log@, wm@, count as nat);
        }
        self.log.query(wm, count)
    }

    /// The cloud-mirrored operations that `wm` does not cover, in the global order, at
    /// most `count` of them.
    pub fn get_cloud_ops(&self, wm: &Watermark, count: usize) -> (r: Vec<CRDTOperation>)
        requires
            self.wf(),
            wm.wf(),
        ensures
            ops_view(r@) == query_spec(self.cloud_log_view(), wm@, count as nat),
            sorted(ops_view(r@)),
    {
        proof {
            self.cloud_log.lemma_wf();
            crate::log::lemma_query_sorted(self.cloud_log@, wm@, count as nat);
        }
        self.cloud_log.query(wm, count)
    }

    /// Stores an operation received from the cloud relay in the mirrored log.
    pub fn mirror_cloud_op(&mut self, op: CRDTOperation) -> (r: Result<usize, StorageError>)
        requires
            old(self).wf(),
        ensures
            final(self).wf(),
            r is Err <==> has_id(old(self).cloud_log_view(), op.id),
            r is Err ==> final(self).cloud_log_view() == old(self).cloud_log_view(),
            r matches Ok(p) ==> inserted_at(old(self).cloud_log_view(), final(self).cloud_log_view(), op@, p as int),
            final(self).instance_spec() == old(self).instance_spec(),
            final(self).local_only() == old(self).local_only(),
            final(self).log_view() == old(self).log_view(),
            final(self).table_view() == old(self).table_view(),
            final(self).watermark_view() == old(self).watermark_view(),
            final(self).clock_view() == old(self).clock_view(),
            final(self).notifications_view() == old(self).notifications_view(),
    {
        self.cloud_log.append(op)
    }

    /// Ingests a batch of remote operations in one step: in order, an operation the
    /// watermark covers is skipped, any other is applied to the table and raises its
    /// origin's watermark entry. The local log gains, as it arrived, every operation of
    /// the batch whose identifier it did not hold; the clock observes every timestamp,
    /// and `Ingested` is published.
    pub fn ingest_batch(&mut self, ops: &Vec<CRDTOperation>)
        requires
            old(self).wf(),
        ensures
            final(self).wf(),
            ingested(*old(self), *final(self), ops@),
    {
        self.local_only = Ghost(false);
        let ghost opsv = ops_view(ops@);
        let ghost t0 = self.table@;
        let ghost w0 = self.watermark@;
        let ghost l0 = self.log@;
        let ghost c0 = self.clock.last_spec();
        let mut i: usize = 0;
        while i < ops.len()
            invariant
                i <= ops@.len(),
                opsv == ops_view(ops@),
                !self.local_only@,
                appendable(l0, ops@) ==> self.log@ == l0 + opsv.take(i as int),
                self.wf(),
                (self.table@, self.watermark@) == ingest_spec(t0, w0, opsv.take(i as int)),
                forall|x: u128| #[trigger] has_id(l0, x) ==> has_id(self.log@, x),
                forall|j: int| 0 <= j < i ==> has_id(self.log@, #[trigger] ops@[j].id),
                forall|x: u128| #[trigger] has_id(self.log@, x) ==> has_id(l0, x)
                    || exists|j: int| 0 <= j < i && ops@[j].id == x,
                forall|j: int| 0 <= j < i ==> #[trigger] ops@[j].timestamp <= self.clock.last_spec(),
                forall|x: OpView| #[trigger] has_op(l0, x) ==> has_op(self.log@, x),
                forall|j: int| 0 <= j < i && new_in_batch(l0, ops@, j) ==> has_op(self.log@, #[trigger] ops@[j]@),
                forall|x: OpView| #[trigger] has_op(self.log@, x) ==> has_op(l0, x)
                    || exists|j: int| 0 <= j < i && ops@[j]@ == x,
                l0 == old(self).log@,
                c0 == old(self).clock.last_spec(),
                t0 == old(self).table@,
                w0 == old(self).watermark@,
                c0 <= self.clock.last_spec(),
                self.instance == old(self).instance,
                self.cloud_log@ == old(self).cloud_log@,
                self.notifications@ == old(self).notifications@,
            decreases ops.len() - i,
        {
            let op = &ops[i];
            assert(opsv[i as int] == op@);
            assert(opsv.take(i + 1).drop_last() == opsv.take(i as int));
            if !self.watermark.covers(op.instance, op.timestamp) {
                self.table.apply(op);
                self.watermark.advance(op.instance, op.timestamp);
            }
            self.clock.observe(op.timestamp);
            proof {
                if appendable(l0, ops@) {
                    assert(new_in_batch(l0, ops@, i as int));
                    if has_id(self.log@, op.id) {
                        assert(has_id(l0, op.id) || exists|j: int| 0 <= j < i && ops@[j].id == op.id);
                    }
                }
            }
            if !self.log.contains_id(op.id) {
                let ghost s = self.log@;
                match self.log.append(op.copy()) {
                    Ok(p) => {
                        proof {
                            lemma_inserted_ids(s, self.log@, op@, p as int);
                            lemma_inserted_ops(s, self.log@, op@, p as int);
                            if appendable(l0, ops@) {
                                let all = l0 + opsv;
                                if p < s.len() {
                                    assert(s[p as int] == all[p as int]);
                                    assert(all[l0.len() + i] == op@);
                                    assert(crate::op::op_le(all[p as int], all[l0.len() + i]));
                                }
                                assert(self.log@ =~= l0 + opsv.take(i + 1));
                            }
                            assert forall|k: int| 0 <= k < self.log@.len() implies
                                #[trigger] self.log@[k].timestamp <= self.clock.last_spec() by {
                                if k < p {
                                    assert(self.log@[k] == s[k]);
                                } else if k > p {
                                    assert(self.log@[k] == s[k - 1]);
                                }
                            }
                        }
                    },
                    Err(_) => {},
                }
            }
            i = i + 1;
        }
        assert(opsv.take(ops@.len() as int) == opsv);
        self.notifications.push(Notification::Ingested);
    }
}

} // verus!
