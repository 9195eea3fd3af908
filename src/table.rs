//! The domain table: records addressed by model and stable record key. Every
//! record and every field is a last-write-wins register ordered by the operations'
//! place in the global order, so the table that a set of operations leaves does not
//! depend on the order in which they arrive.
use vstd::prelude::*;
use crate::assoc::{map_of, keys_distinct, lemma_map_of, lemma_map_of_update, lemma_map_of_remove, lemma_push_distinct};
use crate::op::{CRDTOperation, DataView, OpData, OpView, bytes_eq, copy_bytes};

verus! {

/// Address of a record: its model and its serialized stable key.
pub type RecordKey = (u16, Seq<u8>);

/// An operation's place in the global order: its timestamp, then its instance.
pub type Stamp = (u64, u128);

pub open spec fn stamp_of(o: OpView) -> Stamp {
    (o.timestamp, o.instance)
}

/// `b` comes strictly after `a` in the global order.
pub open spec fn stamp_lt(a: Stamp, b: Stamp) -> bool {
    a.0 < b.0 || (a.0 == b.0 && a.1 < b.1)
}

/// Whether `st` comes after the stamp held, if one is.
pub open spec fn later(st: Stamp, cur: Option<Stamp>) -> bool {
    match cur {
        Some(c) => stamp_lt(c, st),
        None => true,
    }
}

/// The later of the stamp held and `st`.
pub open spec fn latest(cur: Option<Stamp>, st: Stamp) -> Option<Stamp> {
    if later(st, cur) { Some(st) } else { cur }
}

/// What the table knows of one record: the stamp of the latest creation or update,
/// the stamp of the latest deletion, and for each field its latest value with the
/// stamp of the update that wrote it.
pub struct RecordState {
    pub live: Option<Stamp>,
    pub deleted: Option<Stamp>,
    pub fields: Map<Seq<u8>, (Seq<u8>, Stamp)>,
}

/// The contents of the table.
pub type TableState = Map<RecordKey, RecordState>;

/// A record that no operation has touched.
pub open spec fn no_record() -> RecordState {
    RecordState { live: None, deleted: None, fields: Map::empty() }
}

pub open spec fn record_of(s: TableState, k: RecordKey) -> RecordState {
    if s.contains_key(k) { s[k] } else { no_record() }
}

/// The stamp of the update that wrote the field, if one did.
pub open spec fn field_stamp(r: RecordState, f: Seq<u8>) -> Option<Stamp> {
    if r.fields.contains_key(f) { Some(r.fields[f].1) } else { None }
}

/// The effect of an operation on the table, last-write-wins: a creation or an update
/// raises the record's live stamp, a deletion its deletion stamp; an update writes
/// its field only when it comes after the update that wrote the field last.
pub open spec fn apply_op(s: TableState, o: OpView) -> TableState {
    let k = (o.model, o.record_id);
    let r = record_of(s, k);
    let st = stamp_of(o);
    s.insert(
        k,
        match o.data {
            DataView::Create => RecordState { live: latest(r.live, st), ..r },
            DataView::Update { field, value } => RecordState {
                live: latest(r.live, st),
                fields: if later(st, field_stamp(r, field)) { r.fields.insert(field, (value, st)) } else { r.fields },
                ..r
            },
            DataView::Delete => RecordState { deleted: latest(r.deleted, st), ..r },
        },
    )
}

/// A record exists when its latest creation or update comes after its latest deletion.
pub open spec fn visible(s: TableState, k: RecordKey) -> bool {
    &&& s.contains_key(k)
    &&& match s[k].live {
        Some(l) => later(l, s[k].deleted),
        None => false,
    }
}

/// A field of an existing record shows when the update that wrote it comes after the
/// record's latest deletion.
pub open spec fn field_visible(s: TableState, k: RecordKey, f: Seq<u8>) -> bool {
    &&& visible(s, k)
    &&& s[k].fields.contains_key(f)
    &&& later(s[k].fields[f].1, s[k].deleted)
}

/// Whether a local write of the operation is consistent with the table: a creation
/// needs the record absent, an update or a deletion needs it present.
pub open spec fn applicable(s: TableState, o: OpView) -> bool {
    match o.data {
        DataView::Create => !visible(s, (o.model, o.record_id)),
        _ => visible(s, (o.model, o.record_id)),
    }
}

/// The table after applying the operations in order.
pub open spec fn replay(s: TableState, ops: Seq<OpView>) -> TableState
    decreases ops.len(),
{
    if ops.len() == 0 {
        s
    } else {
        apply_op(replay(s, ops.drop_last()), ops.last())
    }
}

/// Whether the operations can be written locally in order, each consistent with the
/// table that the earlier ones left.
pub open spec fn all_applicable(s: TableState, ops: Seq<OpView>) -> bool
    decreases ops.len(),
{
    if ops.len() == 0 {
        true
    } else {
        all_applicable(s, ops.drop_last()) && applicable(replay(s, ops.drop_last()), ops.last())
    }
}

/// Applying an operation a second time changes nothing.
pub proof fn lemma_apply_idempotent(s: TableState, o: OpView)
    ensures
        apply_op(apply_op(s, o), o) == apply_op(s, o),
{
    let k = (o.model, o.record_id);
    let s1 = apply_op(s, o);
    assert(record_of(s1, k) == s1[k]);
    if let DataView::Update { field, value } = o.data {
        assert(s1[k].fields =~= apply_op(s1, o)[k].fields);
    }
    assert(apply_op(s1, o) =~= s1);
}

/// Two operations at different places in the global order have the same effect in
/// either order: replicas that apply the same operations converge.
pub proof fn lemma_apply_commutes(s: TableState, a: OpView, b: OpView)
    requires
        stamp_of(a) != stamp_of(b),
    ensures
        apply_op(apply_op(s, a), b) == apply_op(apply_op(s, b), a),
{
    let ka = (a.model, a.record_id);
    let kb = (b.model, b.record_id);
    let ab = apply_op(apply_op(s, a), b);
    let ba = apply_op(apply_op(s, b), a);
    if ka == kb {
        let r = record_of(s, ka);
        let x = ab[ka];
        let y = ba[ka];
        assert(x.live == y.live);
        assert(x.deleted == y.deleted);
        assert(x.fields =~= y.fields);
        assert(ab =~= ba);
    } else {
        assert(ab =~= ba);
    }
}

/// Replaying two sequences one after the other is replaying their concatenation.
pub proof fn lemma_replay_append(s: TableState, a: Seq<OpView>, b: Seq<OpView>)
    ensures
        replay(s, a + b) == replay(replay(s, a), b),
    decreases b.len(),
{
    if b.len() == 0 {
        assert(a + b == a);
    } else {
        lemma_replay_append(s, a, b.drop_last());
        assert((a + b).drop_last() == a + b.drop_last());
        assert((a + b).last() == b.last());
    }
}

/// Every prefix of a sequence that can be written is one that can be written.
pub proof fn lemma_all_applicable_prefix(s: TableState, ops: Seq<OpView>, k: int)
    requires
        0 <= k <= ops.len(),
        all_applicable(s, ops),
    ensures
        all_applicable(s, ops.take(k)),
    decreases ops.len() - k,
{
    if k < ops.len() {
        assert(ops.drop_last().take(k) == ops.take(k));
        lemma_all_applicable_prefix(s, ops.drop_last(), k);
    } else {
        assert(ops.take(k) == ops);
    }
}

fn later_exec(ts: u64, instance: u128, cur: Option<(u64, u128)>) -> (r: bool)
    ensures
        r == later((ts, instance), cur),
{
    match cur {
        Some(c) => c.0 < ts || (c.0 == ts && c.1 < instance),
        None => true,
    }
}

/// A field's value with the stamp of the update that wrote it.
pub struct FieldValue {
    pub value: Vec<u8>,
    pub timestamp: u64,
    pub instance: u128,
}

/// One stored record.
pub struct Row {
    model: u16,
    record_id: Vec<u8>,
    live: Option<(u64, u128)>,
    deleted: Option<(u64, u128)>,
    fields: Vec<(Vec<u8>, FieldValue)>,
}

pub open spec fn pair_view(p: (Vec<u8>, FieldValue)) -> (Seq<u8>, (Seq<u8>, Stamp)) {
    (p.0@, (p.1.value@, (p.1.timestamp, p.1.instance)))
}

pub open spec fn fields_view(s: Seq<(Vec<u8>, FieldValue)>) -> Seq<(Seq<u8>, (Seq<u8>, Stamp))> {
    s.map_values(|p: (Vec<u8>, FieldValue)| pair_view(p))
}

impl Row {
    pub closed spec fn fields_seq(&self) -> Seq<(Seq<u8>, (Seq<u8>, Stamp))> {
        fields_view(self.fields@)
    }

    pub closed spec fn key(&self) -> RecordKey {
        (self.model, self.record_id@)
    }

    pub closed spec fn state(&self) -> RecordState {
        RecordState { live: self.live, deleted: self.deleted, fields: map_of(self.fields_seq()) }
    }

    pub closed spec fn wf(&self) -> bool {
        keys_distinct(self.fields_seq())
    }

    fn empty(model: u16, record_id: &Vec<u8>) -> (r: Row)
        ensures
            r.wf(),
            r.key() == (model, record_id@),
            r.state() == no_record(),
    {
        let r = Row { model, record_id: copy_bytes(record_id), live: None, deleted: None, fields: Vec::new() };
        assert(r.fields_seq() =~= Seq::<(Seq<u8>, (Seq<u8>, Stamp))>::empty());
        assert(r.state().fields =~= Map::<Seq<u8>, (Seq<u8>, Stamp)>::empty());
        r
    }

    fn copy(&self) -> (r: Row)
        requires
            self.wf(),
        ensures
            r.wf(),
            row_entry(r) == row_entry(*self),
    {
        let mut fields: Vec<(Vec<u8>, FieldValue)> = Vec::new();
        let mut i: usize = 0;
        while i < self.fields.len()
            invariant
                i <= self.fields@.len(),
                fields@.len() == i,
                fields_view(fields@) == self.fields_seq().take(i as int),
            decreases self.fields.len() - i,
        {
            let ghost before = fields@;
            let f = copy_bytes(&self.fields[i].0);
            let v = FieldValue {
                value: copy_bytes(&self.fields[i].1.value),
                timestamp: self.fields[i].1.timestamp,
                instance: self.fields[i].1.instance,
            };
            assert(self.fields_seq()[i as int] == pair_view(self.fields@[i as int]));
            assert(pair_view((f, v)) == self.fields_seq()[i as int]);
            fields.push((f, v));
            assert(fields@ == before.push((f, v)));
            assert forall|j: int| 0 <= j < i + 1 implies fields_view(fields@)[j] == self.fields_seq().take(i + 1)[j] by {
                if j < i {
                    assert(fields_view(before)[j] == self.fields_seq().take(i as int)[j]);
                    assert(fields@[j] == before[j]);
                }
            }
            assert(fields_view(fields@) =~= self.fields_seq().take(i + 1));
            i = i + 1;
        }
        let r = Row { model: self.model, record_id: copy_bytes(&self.record_id), live: self.live, deleted: self.deleted, fields };
        assert(r.fields_seq() =~= self.fields_seq());
        r
    }

    fn find_field(&self, field: &Vec<u8>) -> (r: Option<usize>)
        requires
            self.wf(),
        ensures
            match r {
                Some(i) => i < self.fields@.len() && self.fields_seq()[i as int].0 == field@
                    && self.fields_seq()[i as int] == pair_view(self.fields@[i as int]),
                None => !self.state().fields.contains_key(field@),
            },
    {
        proof {
            lemma_map_of(self.fields_seq());
        }
        let mut i: usize = 0;
        while i < self.fields.len()
            invariant
                i <= self.fields@.len(),
                forall|j: int| 0 <= j < i ==> self.fields_seq()[j].0 != field@,
            decreases self.fields.len() - i,
        {
            assert(self.fields_seq()[i as int] == pair_view(self.fields@[i as int]));
            if bytes_eq(&self.fields[i].0, field) {
                return Some(i);
            }
            i = i + 1;
        }
        None
    }

    fn note_live(&mut self, ts: u64, instance: u128)
        ensures
            final(self).wf() == old(self).wf(),
            final(self).key() == old(self).key(),
            final(self).state() == (RecordState { live: latest(old(self).state().live, (ts, instance)), ..old(self).state() }),
    {
        if later_exec(ts, instance, self.live) {
            self.live = Some((ts, instance));
        }
    }

    fn note_deleted(&mut self, ts: u64, instance: u128)
        ensures
            final(self).wf() == old(self).wf(),
            final(self).key() == old(self).key(),
            final(self).state() == (RecordState { deleted: latest(old(self).state().deleted, (ts, instance)), ..old(self).state() }),
    {
        if later_exec(ts, instance, self.deleted) {
            self.deleted = Some((ts, instance));
        }
    }

    fn write_field(&mut self, field: &Vec<u8>, value: &Vec<u8>, ts: u64, instance: u128)
        requires
            old(self).wf(),
        ensures
            final(self).wf(),
            final(self).key() == old(self).key(),
            final(self).state() == (RecordState {
                fields: if later((ts, instance), field_stamp(old(self).state(), field@)) {
                    old(self).state().fields.insert(field@, (value@, (ts, instance)))
                } else {
                    old(self).state().fields
                },
                ..old(self).state()
            }),
    {
        let ghost s = self.fields_seq();
        proof {
            lemma_map_of(s);
        }
        match self.find_field(field) {
            Some(i) => {
                let cur = Some((self.fields[i].1.timestamp, self.fields[i].1.instance));
                assert(field_stamp(self.state(), field@) == cur);
                if later_exec(ts, instance, cur) {
                    proof {
                        lemma_map_of_update(s, i as int, (value@, (ts, instance)));
                    }
                    let v = FieldValue { value: copy_bytes(value), timestamp: ts, instance };
                    self.fields.set(i, (copy_bytes(field), v));
                    assert(self.fields_seq() =~= s.update(i as int, (s[i as int].0, (value@, (ts, instance)))));
                }
            },
            None => {
                proof {
                    lemma_push_distinct(s, (field@, (value@, (ts, instance))));
                }
                let v = FieldValue { value: copy_bytes(value), timestamp: ts, instance };
                self.fields.push((copy_bytes(field), v));
                assert(self.fields_seq() =~= s.push((field@, (value@, (ts, instance)))));
            },
        }
    }
}

pub open spec fn row_entry(r: Row) -> (RecordKey, RecordState) {
    (r.key(), r.state())
}

/// The domain records of one instance.
pub struct Table {
    rows: Vec<Row>,
}

impl View for Table {
    type V = TableState;

    closed spec fn view(&self) -> TableState {
        map_of(self.rows_seq())
    }
}

pub open spec fn rows_view(s: Seq<Row>) -> Seq<(RecordKey, RecordState)> {
    s.map_values(|r: Row| row_entry(r))
}

impl Table {
    pub closed spec fn rows_seq(&self) -> Seq<(RecordKey, RecordState)> {
        rows_view(self.rows@)
    }
    pub closed spec fn wf(&self) -> bool {
        &&& keys_distinct(self.rows_seq())
        &&& forall|i: int| 0 <= i < self.rows@.len() ==> (#[trigger] self.rows@[i]).wf()
    }

    /// A table with the same records.
    pub fn copy(&self) -> (r: Table)
        requires
            self.wf(),
        ensures
            r.wf(),
            r@ == self@,
    {
        let mut rows: Vec<Row> = Vec::new();
        let mut i: usize = 0;
        while i < self.rows.len()
            invariant
                i <= self.rows@.len(),
                rows@.len() == i,
                self.wf(),
                rows_view(rows@) == self.rows_seq().take(i as int),
                forall|j: int| 0 <= j < rows@.len() ==> (#[trigger] rows@[j]).wf(),
            decreases self.rows.len() - i,
        {
            assert(self.rows@[i as int].wf());
            let ghost before = rows@;
            let row = self.rows[i].copy();
            assert(self.rows_seq()[i as int] == row_entry(self.rows@[i as int]));
            rows.push(row);
            assert(rows@ == before.push(row));
            assert forall|j: int| 0 <= j < i + 1 implies rows_view(rows@)[j] == self.rows_seq().take(i + 1)[j] by {
                if j < i {
                    assert(rows_view(before)[j] == self.rows_seq().take(i as int)[j]);
                    assert(rows@[j] == before[j]);
                }
            }
            assert(rows_view(rows@) =~= self.rows_seq().take(i + 1));
            i = i + 1;
        }
        let r = Table { rows };
        assert(r.rows_seq() =~= self.rows_seq());
        r
    }

    /// A table with no records.
    pub fn new() -> (r: Table)
        ensures
            r.wf(),
            r@ == TableState::empty(),
    {
        Table { rows: Vec::new() }
    }

    fn find(&self, model: u16, record_id: &Vec<u8>) -> (r: Option<usize>)
        requires
            self.wf(),
        ensures
            match r {
                Some(i) => i < self.rows@.len() && self.rows@[i as int].key() == (model, record_id@)
                    && self.rows_seq()[i as int] == row_entry(self.rows@[i as int]),
                None => !self@.contains_key((model, record_id@)),
            },
    {
        let mut i: usize = 0;
        while i < self.rows.len()
            invariant
                i <= self.rows@.len(),
                forall|j: int| 0 <= j < i ==> self.rows_seq()[j].0 != (model, record_id@),
            decreases self.rows.len() - i,
        {
            assert(self.rows_seq()[i as int] == row_entry(self.rows@[i as int]));
            if self.rows[i].model == model && bytes_eq(&self.rows[i].record_id, record_id) {
                return Some(i);
            }
            i = i + 1;
        }
        proof {
            lemma_map_of(self.rows_seq());
        }
        None
    }

    /// Whether the record exists.
    pub fn contains(&self, model: u16, record_id: &Vec<u8>) -> (r: bool)
        requires
            self.wf(),
        ensures
            r == visible(self@, (model, record_id@)),
    {
        proof {
            lemma_map_of(self.rows_seq());
        }
        match self.find(model, record_id) {
            None => false,
            Some(i) => {
                let row = &self.rows[i];
                assert(self@[(model, record_id@)] == row.state());
                match row.live {
                    Some(l) => later_exec(l.0, l.1, row.deleted),
                    None => false,
                }
            },
        }
    }

    /// The value of one field of a record, if the record exists and the field shows.
    pub fn field(&self, model: u16, record_id: &Vec<u8>, field: &Vec<u8>) -> (r: Option<Vec<u8>>)
        requires
            self.wf(),
        ensures
            match r {
                Some(v) => field_visible(self@, (model, record_id@), field@)
                    && v@ == self@[(model, record_id@)].fields[field@].0,
                None => !field_visible(self@, (model, record_id@), field@),
            },
    {
        if !self.contains(model, record_id) {
            return None;
        }
        proof {
            lemma_map_of(self.rows_seq());
        }
        match self.find(model, record_id) {
            None => None,
            Some(i) => {
                let row = &self.rows[i];
                assert(self@[(model, record_id@)] == row.state());
                assert(row.wf());
                proof {
                    lemma_map_of(row.fields_seq());
                }
                match row.find_field(field) {
                    None => None,
                    Some(j) => {
                        assert(row.state().fields[field@] == row.fields_seq()[j as int].1);
                        let fv = &row.fields[j].1;
                        if later_exec(fv.timestamp, fv.instance, row.deleted) {
                            Some(copy_bytes(&fv.value))
                        } else {
                            None
                        }
                    },
                }
            },
        }
    }

    /// Applies the operation to the table.
    pub fn apply(&mut self, op: &CRDTOperation)
        requires
            old(self).wf(),
        ensures
            final(self).wf(),
            final(self)@ == apply_op(old(self)@, op@),
    {
        let ghost s0 = self@;
        let ghost k = (op.model, op.record_id@);
        proof {
            lemma_map_of(self.rows_seq());
        }
        let i = match self.find(op.model, &op.record_id) {
            Some(i) => i,
            None => {
                let ghost s = self.rows_seq();
                let row = Row::empty(op.model, &op.record_id);
                proof {
                    lemma_push_distinct(s, row_entry(row));
                }
                self.rows.push(row);
                assert(self.rows_seq() =~= s.push(row_entry(row)));
                self.rows.len() - 1
            },
        };
        let ghost s = self.rows_seq();
        proof {
            lemma_map_of(s);
        }
        assert(s[i as int] == row_entry(self.rows@[i as int]));
        assert(record_of(s0, k) == self.rows@[i as int].state());
        assert(self.rows@[i as int].key() == k);
        let mut row = self.rows.remove(i);
        proof {
            lemma_map_of_remove(s, i as int);
        }
        let ghost mid = s.remove(i as int);
        assert(self.rows_seq() =~= mid);
        match &op.data {
            OpData::Create => {
                row.note_live(op.timestamp, op.instance);
            },
            OpData::Update { field, value } => {
                row.note_live(op.timestamp, op.instance);
                row.write_field(field, value, op.timestamp, op.instance);
            },
            OpData::Delete => {
                row.note_deleted(op.timestamp, op.instance);
            },
        }
        proof {
            lemma_map_of(mid);
            lemma_push_distinct(mid, row_entry(row));
        }
        self.rows.push(row);
        assert(self.rows_seq() =~= mid.push(row_entry(row)));
        assert(map_of(mid).insert(k, row.state()) =~= apply_op(s0, op@));
    }
}

} // verus!
