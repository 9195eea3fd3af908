//! Stored rows of the operation logs, and their conversion to and from operations.
use vstd::prelude::*;
use crate::codec::{DecodeError, be_bytes, be_value, has_kind, lemma_be_bytes, pow256, decode, encodable, encode, encode_data, kind, kind_of, lemma_encode_injective};
use crate::op::{CRDTOperation, DataView, OpView, copy_bytes};

verus! {

/// Relies on uuid's `Uuid::from_slice`, which refuses any length but sixteen, and
/// `Uuid::as_u128`, which reads the sixteen bytes big-endian.
#[verifier::external_body]
fn uuid_from_slice(b: &[u8]) -> (r: Option<u128>)
    ensures
        r is Some <==> b@.len() == 16,
        r matches Some(v) ==> v as nat == be_value(b@),
{
    match uuid::Uuid::from_slice(b) {
        Ok(u) => Some(u.as_u128()),
        Err(_) => None,
    }
}

/// Relies on uuid's `Uuid::from_u128`, which keeps the value's bytes big-endian, and
/// `Uuid::as_bytes`, which hands them out.
#[verifier::external_body]
fn uuid_bytes(x: u128) -> (r: Vec<u8>)
    ensures
        r@ == be_bytes(x as nat, 16),
{
    uuid::Uuid::from_u128(x).as_bytes().to_vec()
}

/// The identifier stored in a sixteen-byte column.
pub fn identifier(b: &Vec<u8>) -> (r: Result<u128, DecodeError>)
    ensures
        r is Ok <==> b@.len() == 16,
        r matches Ok(v) ==> v as nat == be_value(b@),
        r matches Err(e) ==> e == DecodeError::BadIdentifier,
{
    match uuid_from_slice(b.as_slice()) {
        Some(v) => Ok(v),
        None => Err(DecodeError::BadIdentifier),
    }
}

/// The operation a stored row holds: identifiers read big-endian from sixteen bytes,
/// the timestamp reinterpreted as unsigned, the payload decoded and of the stored kind.
pub open spec fn row_holds(
    id: Seq<u8>,
    timestamp: i64,
    instance: Seq<u8>,
    model: u16,
    record_id: Seq<u8>,
    data: Seq<u8>,
    kind: Seq<u8>,
    op: OpView,
) -> bool {
    &&& op.id as nat == be_value(id)
    &&& op.instance as nat == be_value(instance)
    &&& op.timestamp == timestamp as u64
    &&& op.model == model
    &&& op.record_id == record_id
    &&& encodable(op.data)
    &&& encode_data(op.data) == data
    &&& kind_of(op.data) == kind
}

/// Whether the stored payload is the encoding of some payload of the stored kind.
pub open spec fn payload_valid(data: Seq<u8>, kind: Seq<u8>) -> bool {
    exists|d: DataView| encodable(d) && encode_data(d) == data && kind_of(d) == kind
}

/// The row `crdt_op_db` stores for an operation holds that operation and no other, and
/// its payload is valid, so decoding it gives the operation back.
pub proof fn lemma_row_round_trip(op: OpView, back: OpView)
    requires
        encodable(op.data),
        row_holds(
            be_bytes(op.id as nat, 16),
            op.timestamp as i64,
            be_bytes(op.instance as nat, 16),
            op.model,
            op.record_id,
            encode_data(op.data),
            kind_of(op.data),
            back,
        ),
    ensures
        back == op,
        payload_valid(encode_data(op.data), kind_of(op.data)),
        be_bytes(op.id as nat, 16).len() == 16,
        be_bytes(op.instance as nat, 16).len() == 16,
{
    reveal_with_fuel(pow256, 17);
    assert(pow256(16) == 0x1_0000_0000_0000_0000_0000_0000_0000_0000);
    lemma_be_bytes(op.id as nat, 16);
    lemma_be_bytes(op.instance as nat, 16);
    let t = op.timestamp;
    assert((t as i64) as u64 == t) by (bit_vector);
    lemma_encode_injective(back.data, op.data);
}

/// Storing a sequence of operations as rows and decoding the rows gives the same
/// sequence back: no operation is lost, added, changed or reordered.
pub proof fn lemma_rows_round_trip(ops: Seq<OpView>, back: Seq<OpView>)
    requires
        back.len() == ops.len(),
        forall|i: int| 0 <= i < ops.len() ==> encodable(#[trigger] ops[i].data),
        forall|i: int| 0 <= i < ops.len() ==> row_holds(
            be_bytes(ops[i].id as nat, 16),
            ops[i].timestamp as i64,
            be_bytes(ops[i].instance as nat, 16),
            ops[i].model,
            ops[i].record_id,
            encode_data(ops[i].data),
            kind_of(ops[i].data),
            #[trigger] back[i],
        ),
    ensures
        back == ops,
{
    assert forall|i: int| 0 <= i < ops.len() implies back[i] == ops[i] by {
        lemma_row_round_trip(ops[i], back[i]);
    }
    assert(back =~= ops);
}

/// Decodes the columns of a stored row into an operation.
pub fn decode_row(
    id: &Vec<u8>,
    timestamp: i64,
    instance: &Vec<u8>,
    model: u16,
    record_id: &Vec<u8>,
    data: &Vec<u8>,
    kind: &Vec<u8>,
) -> (r: Result<CRDTOperation, DecodeError>)
    ensures
        r is Ok <==> id@.len() == 16 && instance@.len() == 16 && payload_valid(data@, kind@),
        r matches Ok(op) ==> row_holds(id@, timestamp, instance@, model, record_id@, data@, kind@, op@),
        (id@.len() != 16 || instance@.len() != 16) ==> r == Err::<CRDTOperation, DecodeError>(DecodeError::BadIdentifier),
{
    let id = identifier(id)?;
    let instance = identifier(instance)?;
    let d = match decode(data) {
        Ok(d) => d,
        Err(e) => {
            return Err(e);
        },
    };
    if !has_kind(&d, kind) {
        proof {
            assert forall|x: DataView| encodable(x) && encode_data(x) == data@ implies kind_of(x) != kind@ by {
                lemma_encode_injective(x, d@);
            }
        }
        return Err(DecodeError::KindMismatch);
    }
    Ok(CRDTOperation {
        id,
        instance,
        timestamp: timestamp as u64,
        model,
        record_id: copy_bytes(record_id),
        data: d,
    })
}

/// The columns of the stored row that holds an operation.
pub struct RowColumns {
    pub id: Vec<u8>,
    pub timestamp: i64,
    pub instance: Vec<u8>,
    pub model: u16,
    pub record_id: Vec<u8>,
    pub data: Vec<u8>,
    pub kind: Vec<u8>,
}

/// The row that stores an operation.
pub fn crdt_op_db(op: &CRDTOperation) -> (row: RowColumns)
    ensures
        encodable(op.data@),
        row.id@ == be_bytes(op.id as nat, 16),
        row.timestamp == op.timestamp as i64,
        row.instance@ == be_bytes(op.instance as nat, 16),
        row.model == op.model,
        row.record_id@ == op.record_id@,
        row.data@ == encode_data(op.data@),
        row.kind@ == kind_of(op.data@),
{
    let data = encode(&op.data);
    RowColumns {
        id: uuid_bytes(op.id),
        timestamp: op.timestamp as i64,
        instance: uuid_bytes(op.instance),
        model: op.model,
        record_id: copy_bytes(&op.record_id),
        data,
        kind: kind(&op.data),
    }
}

} // verus!
