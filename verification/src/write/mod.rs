//! The ingest engine: id assignment, the index tail and its sealing, the data
//! track's packing, snapshots and recovery, and the publishable head.

pub mod artifacts;
pub mod bitmap;
pub mod burst_laws;
pub mod codec;
pub mod data_track;
pub mod dir;
pub mod dir_laws;
pub mod durable;
pub mod engine;
pub mod entries;
pub mod entry_laws;
pub mod family;
pub mod flow;
pub mod flush;
pub mod flush_laws;
pub mod index;
pub mod ingest;
pub mod mirror;
pub mod mirror_steps;
pub mod order;
pub mod pages;
pub mod probe;
pub mod producer;
pub mod publisher;
pub mod put;
pub mod record_laws;
pub mod recover;
pub mod recover_laws;
pub mod replay;
pub mod run_laws;
pub mod seal;
pub mod seal_laws;
pub mod snapshot;
pub mod snapshot_codec;
pub mod snapshot_laws;
pub mod stage;
pub mod stage_laws;
pub mod streams;
pub mod truncation;
