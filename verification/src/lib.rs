//! Core storage-engine library of a single-node analytic table engine.
//!
//! The library covers the write-ahead log (sequence allocation, key/value
//! encoding, batch splitting and replay), the memtable with its internal key
//! codec, the contiguous row codec, the byte-range cache, the SST row-group
//! pruning rules and the shard-open state machine.

use vstd::prelude::*;

pub mod bytesenc;
pub mod memkey;
pub mod walkey;
pub mod walcollect;
pub mod walsplit;
pub mod walmanager;
pub mod lrucache;
pub mod memcache;
pub mod row;
pub mod rowcodec;
pub mod memtable;
pub mod walunit;
pub mod sstprune;
pub mod engine;
pub mod partition;
pub mod shardopen;
pub mod roletable;
pub mod config;
pub mod remotemodel;
pub mod endpoint;

verus! {

/// A write-ahead-log sequence number: a region-wide monotonically increasing
/// 64-bit counter allocated on successful append.
pub type SequenceNumber = u64;

/// Smallest sequence number ever handed out.
pub const MIN_SEQUENCE_NUMBER: u64 = 0;

/// Largest representable sequence number.
pub const MAX_SEQUENCE_NUMBER: u64 = 0xffff_ffff_ffff_ffff;

} // verus!
