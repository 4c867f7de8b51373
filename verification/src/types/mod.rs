//! Ingest blocks, stored rows and query entries.

pub mod external;
pub mod external_laws;
pub mod ingest_types;
pub mod logs;
pub mod reverts;
pub mod row_laws;
pub mod shape_laws;
pub mod trace_address;
pub mod traces;
pub mod transfers;
pub mod txs;
