//! CRDT operations: the entries of the operation log.
use vstd::prelude::*;

verus! {

/// What an operation does to the record it addresses.
#[derive(Clone, Debug, PartialEq, Eq)]
pub enum OpData {
    /// Creation marker: the record comes into existence with no fields.
    Create,
    /// One field of the record takes a new serialized value.
    Update { field: Vec<u8>, value: Vec<u8> },
    /// Tombstone: the record is removed.
    Delete,
}

/// One entry of the operation log.
#[derive(Clone, Debug, PartialEq, Eq)]
pub struct CRDTOperation {
    pub id: u128,
    pub instance: u128,
    pub timestamp: u64,
    pub model: u16,
    pub record_id: Vec<u8>,
    pub data: OpData,
}

pub enum DataView {
    Create,
    Update { field: Seq<u8>, value: Seq<u8> },
    Delete,
}

pub struct OpView {
    pub id: u128,
    pub instance: u128,
    pub timestamp: u64,
    pub model: u16,
    pub record_id: Seq<u8>,
    pub data: DataView,
}

impl View for OpData {
    type V = DataView;

    open spec fn view(&self) -> DataView {
        match self {
            OpData::Create => DataView::Create,
            OpData::Update { field, value } => DataView::Update { field: field@, value: value@ },
            OpData::Delete => DataView::Delete,
        }
    }
}

impl View for CRDTOperation {
    type V = OpView;

    open spec fn view(&self) -> OpView {
        OpView {
            id: self.id,
            instance: self.instance,
            timestamp: self.timestamp,
            model: self.model,
            record_id: self.record_id@,
            data: self.data@,
        }
    }
}

/// The views of a sequence of operations.
pub open spec fn ops_view(s: Seq<CRDTOperation>) -> Seq<OpView> {
    s.map_values(|o: CRDTOperation| o@)
}

/// The global total order: by timestamp, ties broken by the originating instance.
pub open spec fn op_le(a: OpView, b: OpView) -> bool {
    a.timestamp < b.timestamp || (a.timestamp == b.timestamp && a.instance <= b.instance)
}

/// A sequence of operations in the global total order.
pub open spec fn sorted(s: Seq<OpView>) -> bool {
    forall|i: int, j: int| 0 <= i < j < s.len() ==> op_le(s[i], s[j])
}

/// A byte vector with the same contents.
pub fn copy_bytes(b: &Vec<u8>) -> (r: Vec<u8>)
    ensures
        r@ == b@,
{
    let mut r: Vec<u8> = Vec::with_capacity(b.len());
    let mut i: usize = 0;
    while i < b.len()
        invariant
            i <= b.len(),
            r@ == b@.subrange(0, i as int),
        decreases b.len() - i,
    {
        r.push(b[i]);
        i = i + 1;
    }
    assert(r@ == b@);
    r
}

/// Byte-wise equality.
pub fn bytes_eq(a: &Vec<u8>, b: &Vec<u8>) -> (r: bool)
    ensures
        r == (a@ == b@),
{
    if a.len() != b.len() {
        return false;
    }
    let mut i: usize = 0;
    while i < a.len()
        invariant
            a.len() == b.len(),
            i <= a.len(),
            a@.subrange(0, i as int) == b@.subrange(0, i as int),
        decreases a.len() - i,
    {
        if a[i] != b[i] {
            assert(a@[i as int] != b@[i as int]);
            return false;
        }
        assert(a@.subrange(0, i + 1) == a@.subrange(0, i as int).push(a@[i as int]));
        assert(b@.subrange(0, i + 1) == b@.subrange(0, i as int).push(b@[i as int]));
        i = i + 1;
    }
    assert(a@ == a@.subrange(0, a.len() as int));
    assert(b@ == b@.subrange(0, b.len() as int));
    true
}

impl OpData {
    /// A copy with the same contents.
    pub fn copy(&self) -> (r: OpData)
        ensures
            r@ == self@,
    {
        match self {
            OpData::Create => OpData::Create,
            OpData::Update { field, value } => OpData::Update {
                field: copy_bytes(field),
                value: copy_bytes(value),
            },
            OpData::Delete => OpData::Delete,
        }
    }
}

impl CRDTOperation {
    /// A copy with the same contents.
    pub fn copy(&self) -> (r: CRDTOperation)
        ensures
            r@ == self@,
    {
        CRDTOperation {
            id: self.id,
            instance: self.instance,
            timestamp: self.timestamp,
            model: self.model,
            record_id: copy_bytes(&self.record_id),
            data: self.data.copy(),
        }
    }

    /// Whether `self` comes no later than `other` in the global total order.
    pub fn le(&self, other: &CRDTOperation) -> (r: bool)
        ensures
            r == op_le(self@, other@),
    {
        self.timestamp < other.timestamp || (self.timestamp == other.timestamp && self.instance <= other.instance)
    }
}

} // verus!
