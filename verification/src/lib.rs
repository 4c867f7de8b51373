//! Ingest, storage and indexing core of a chain-data query store.
//!
//! The crate holds the deterministic part of the pipeline: the block and row
//! types with their codecs, the key layouts and batching rules of the storage
//! backends, and the index engine that turns block records into sealed pages,
//! directory buckets and recovery snapshots.

pub mod be;
pub mod errors;
pub mod hex;
pub mod primitives;
pub mod rlp;
pub mod store;
pub mod text;
pub mod types;
pub mod write;
