//! Synchronization core of a multi-device catalog: a hybrid logical clock, an
//! append-only log of CRDT operations in a global total order, a manager that pairs
//! each logged operation with its domain mutation, and an ingest actor that pulls
//! and applies the operations other instances wrote.

pub mod assoc;
pub mod clock;
pub mod cloud_crdt_row;
pub mod codec;
pub mod crdt_row;
pub mod db_operation;
pub mod ingest;
pub mod ingest_spec;
pub mod log;
pub mod manager;
pub mod op;
pub mod rename;
pub mod table;
pub mod watermark;
