//! Verified core of a multi-tenant audit-log collection engine.
//!
//! The library holds the parts of the pipeline that decide and compute:
//! timestamp and duration parsing, collection-window splitting, the bounded
//! known-blob cache with TTL and LRU eviction, the run accounting and retry
//! engine, record filtering and the output cache, bookmark encoding, and the
//! record-type tables. I/O, HTTP and the async plumbing live outside, in the
//! surrounding application, which feeds this library plain values.

pub mod clock;
pub mod collector;
pub mod config;
pub mod engine;
pub mod fileout;
pub mod known_blobs;
pub mod state;
pub mod lru_store;
pub mod recordtype;
pub mod timefmt;
