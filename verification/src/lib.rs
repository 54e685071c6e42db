//! Region-scoped read views over a shared key-value engine.
//!
//! Every region owns a contiguous key range `[start_key, end_key)` while all
//! regions share one physical key space. This crate exposes strictly
//! range-limited point lookups, iterators and scans over a point-in-time
//! snapshot of that key space, so that no reader can observe data belonging
//! to another region.

pub mod bytes;
pub mod errors;
pub mod region;
pub mod keys;
pub mod engine;
pub mod iterator;
pub mod snapshot;
