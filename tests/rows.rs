use sd_core_sync::codec::{decode, encode, DecodeError};
use sd_core_sync::db_operation::{crdt_op_db, identifier};
use sd_core_sync::op::{CRDTOperation, OpData};
use sd_core_sync::rename::{renamed_full_name, FromPattern, RenameError};
use sd_core_sync::{cloud_crdt_row, crdt_row};

const ID: u128 = 0x0102030405060708090a0b0c0d0e0f10;

fn op() -> CRDTOperation {
    CRDTOperation {
        id: ID,
        instance: 0xff,
        timestamp: 77,
        model: 4,
        record_id: vec![9, 9],
        data: OpData::Update { field: b"name".to_vec(), value: vec![1, 2, 3] },
    }
}

#[test]
fn payload_encoding_is_exact() {
    assert_eq!(encode(&OpData::Create), vec![1, 0]);
    assert_eq!(encode(&OpData::Delete), vec![1, 2]);
    let d = OpData::Update { field: b"ab".to_vec(), value: vec![7] };
    assert_eq!(encode(&d), vec![1, 1, 0, 0, 0, 0, 0, 0, 0, 2, b'a', b'b', 7]);
    assert_eq!(decode(&vec![1, 1, 0, 0, 0, 0, 0, 0, 0, 2, b'a', b'b', 7]), Ok(d));
    assert_eq!(decode(&vec![1, 0]), Ok(OpData::Create));
    assert_eq!(decode(&vec![1, 2]), Ok(OpData::Delete));
}

#[test]
fn payload_decoding_refuses_malformed() {
    assert_eq!(decode(&vec![]), Err(DecodeError::UnknownVersion));
    assert_eq!(decode(&vec![2, 0]), Err(DecodeError::UnknownVersion));
    assert_eq!(decode(&vec![1, 0, 0]), Err(DecodeError::Malformed));
    assert_eq!(decode(&vec![1, 3]), Err(DecodeError::Malformed));
    assert_eq!(decode(&vec![1, 1, 0, 0, 0, 0, 0, 0, 0, 5, b'a']), Err(DecodeError::Malformed));
    assert_eq!(decode(&vec![1, 1, 0, 2]), Err(DecodeError::Malformed));
    assert_eq!(decode(&vec![1, 1, 255, 255, 255, 255, 255, 255, 255, 255]), Err(DecodeError::Malformed));
}

#[test]
fn long_field_name_round_trips() {
    let d = OpData::Update { field: vec![b'x'; 70000], value: vec![3] };
    let bytes = encode(&d);
    assert_eq!(&bytes[..10], &[1, 1, 0, 0, 0, 0, 0, 1, 0x11, 0x70]);
    assert_eq!(decode(&bytes), Ok(d));
}

#[test]
fn row_columns_of_operation() {
    let row = crdt_op_db(&op());
    assert_eq!(row.id, (1u8..=16).collect::<Vec<u8>>());
    let mut inst = vec![0u8; 16];
    inst[15] = 0xff;
    assert_eq!(row.instance, inst);
    assert_eq!(row.timestamp, 77);
    assert_eq!(row.data, vec![1, 1, 0, 0, 0, 0, 0, 0, 0, 4, b'n', b'a', b'm', b'e', 1, 2, 3]);
    assert_eq!(row.kind, b"u:name".to_vec());
    let del = CRDTOperation { data: OpData::Delete, ..op() };
    assert_eq!(crdt_op_db(&del).kind, b"d".to_vec());
    let create = CRDTOperation { data: OpData::Create, ..op() };
    assert_eq!(crdt_op_db(&create).kind, b"c".to_vec());
}

#[test]
fn stored_row_round_trips() {
    let row = crdt_op_db(&op());
    let data = crdt_row::Data {
        id: row.id.clone(),
        timestamp: row.timestamp,
        instance: row.instance.clone(),
        model: row.model,
        record_id: row.record_id.clone(),
        data: row.data.clone(),
        kind: row.kind.clone(),
    };
    assert_eq!(data.id(), Ok(ID));
    assert_eq!(data.instance(), Ok(0xff));
    assert_eq!(data.timestamp(), 77);
    assert_eq!(data.into_operation(), Ok(op()));

    let cloud = cloud_crdt_row::Data {
        id: row.id,
        timestamp: row.timestamp,
        instance: row.instance,
        model: row.model,
        record_id: row.record_id,
        data: row.data,
        kind: row.kind,
    };
    assert_eq!(cloud.into_operation(), Ok(op()));
}

#[test]
fn bad_rows_are_refused() {
    assert_eq!(identifier(&vec![1, 2, 3]), Err(DecodeError::BadIdentifier));
    assert_eq!(identifier(&vec![0; 16]), Ok(0));
    let data = crdt_row::Data {
        id: vec![1; 15],
        timestamp: 1,
        instance: vec![0; 16],
        model: 1,
        record_id: vec![],
        data: vec![1, 0],
        kind: b"c".to_vec(),
    };
    assert_eq!(data.into_operation(), Err(DecodeError::BadIdentifier));
    let data = cloud_crdt_row::Data {
        id: vec![1; 16],
        timestamp: -1,
        instance: vec![0; 16],
        model: 1,
        record_id: vec![],
        data: vec![9, 0],
        kind: b"c".to_vec(),
    };
    assert_eq!(data.timestamp(), u64::MAX);
    assert_eq!(data.into_operation(), Err(DecodeError::UnknownVersion));
}

#[test]
fn pattern_rename_replaces_first_or_all() {
    let first = FromPattern { pattern: "a+".to_string(), replace_all: false };
    assert_eq!(renamed_full_name(&first, "baaca.txt", "X"), Ok("bXca.txt".to_string()));
    let all = FromPattern { pattern: "a+".to_string(), replace_all: true };
    assert_eq!(renamed_full_name(&all, "baaca.txt", "X"), Ok("bXcX.txt".to_string()));
    let groups = FromPattern { pattern: r"(\w+)\.(\w+)".to_string(), replace_all: false };
    assert_eq!(renamed_full_name(&groups, "photo.jpg", "${2}_$1"), Ok("jpg_photo".to_string()));
    let bad = FromPattern { pattern: "(".to_string(), replace_all: true };
    assert_eq!(renamed_full_name(&bad, "x", "y"), Err(RenameError::InvalidPattern));
}

#[test]
fn row_with_wrong_kind_is_refused() {
    let row = crdt_op_db(&op());
    let data = crdt_row::Data {
        id: row.id,
        timestamp: row.timestamp,
        instance: row.instance,
        model: row.model,
        record_id: row.record_id,
        data: row.data,
        kind: b"u:other".to_vec(),
    };
    assert_eq!(data.into_operation(), Err(DecodeError::KindMismatch));
}
