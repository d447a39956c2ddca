//! Ingestion, assembly and commit pipeline for per-slot blockchain events.
//!
//! Events for a slot arrive out of order; the library assembles them into
//! complete per-slot records, logs them durably through a write-ahead event
//! log, and commits finished ranges of slots from a mutable staging tree to
//! an immutable ready tree, compressing every stored cell with the smallest
//! of several general-purpose compressors.

pub mod bytes;
pub mod cells;
pub mod compression;
pub mod config;
pub mod datastore;
pub mod encode;
pub mod errors;
pub mod event;
pub mod keys;
pub mod plugin;
pub mod records;
pub mod storage;
pub mod strfmt;
pub mod wal;
pub mod wire;
