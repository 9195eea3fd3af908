//! Rows of the local operation log.
use vstd::prelude::*;
use crate::codec::{DecodeError, be_value};
use crate::db_operation::{decode_row, identifier, payload_valid, row_holds};
use crate::op::CRDTOperation;

verus! {

/// A row of the local, peer-facing operation log.
pub struct Data {
    pub id: Vec<u8>,
    pub timestamp: i64,
    /// Public identifier of the originating instance.
    pub instance: Vec<u8>,
    pub model: u16,
    pub record_id: Vec<u8>,
    pub data: Vec<u8>,
    /// What the payload does: `c`, `u:` and the field name, or `d`.
    pub kind: Vec<u8>,
}

impl Data {
    /// The stored timestamp, reinterpreted as unsigned.
    pub fn timestamp(&self) -> (r: u64)
        ensures
            r == self.timestamp as u64,
    {
        self.timestamp as u64
    }

    /// The operation's identifier.
    pub fn id(&self) -> (r: Result<u128, DecodeError>)
        ensures
            r is Ok <==> self.id@.len() == 16,
            r matches Ok(v) ==> v as nat == be_value(self.id@),
            r matches Err(e) ==> e == DecodeError::BadIdentifier,
    {
        identifier(&self.id)
    }

    /// The originating instance's identifier.
    pub fn instance(&self) -> (r: Result<u128, DecodeError>)
        ensures
            r is Ok <==> self.instance@.len() == 16,
            r matches Ok(v) ==> v as nat == be_value(self.instance@),
            r matches Err(e) ==> e == DecodeError::BadIdentifier,
    {
        identifier(&self.instance)
    }

    /// The operation the row holds.
    pub fn into_operation(self) -> (r: Result<CRDTOperation, DecodeError>)
        ensures
            r is Ok <==> self.id@.len() == 16 && self.instance@.len() == 16 && payload_valid(self.data@, self.kind@),
            r matches Ok(op) ==> row_holds(self.id@, self.timestamp, self.instance@, self.model, self.record_id@, self.data@, self.kind@, op@),
            (self.id@.len() != 16 || self.instance@.len() != 16) ==> r == Err::<CRDTOperation, DecodeError>(DecodeError::BadIdentifier),
    {
        decode_row(&self.id, self.timestamp, &self.instance, self.model, &self.record_id, &self.data, &self.kind)
    }
}

} // verus!
