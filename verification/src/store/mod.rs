//! Storage layout: keys, batching, chunking and in-memory stores.

pub mod aws;
pub mod batch;
pub mod batch_laws;
pub mod blob;
pub mod cache;
pub mod cache_laws;
pub mod dynamo;
pub mod dynamo_ops;
pub mod flights;
pub mod layout_laws;
pub mod memory;
pub mod meta;
pub mod mongo;
pub mod retry;
pub mod schedule;
