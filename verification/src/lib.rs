//! An embeddable in-memory key-value cache with pluggable eviction policies
//! (FIFO, LRU, LFU, or no eviction) and an append-only-log record format for
//! durable persistence.
//!
//! The store, the eviction policies, the binary record codec, the log staging
//! logic and the replay logic are all verified. File handling, asynchronous
//! plumbing and user-type serialization live outside this crate's core and
//! hand it plain values.

pub mod aof;
pub mod cache;
pub mod common;
pub mod config;
pub mod eviction_policies;
