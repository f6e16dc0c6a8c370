//! A log-structured key-value store: an append-only log of checksummed
//! records and an index from each key to the offset of its latest record.

pub mod record;
pub mod index;
pub mod engine;
pub mod laws;
pub mod snapshot;
