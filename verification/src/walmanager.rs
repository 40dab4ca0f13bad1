//! WAL read/write interface types.
//!
//! A WAL is addressed per location (region, table). Reads are bounded by a
//! pair of [`ReadBoundary`] values; a boundary converts to a concrete start
//! or end sequence number unless it denotes an empty range.

use vstd::prelude::*;
use crate::{MAX_SEQUENCE_NUMBER, MIN_SEQUENCE_NUMBER};

verus! {

/// Where a WAL region lives: one region per shard, sliced per table.
#[derive(Debug, Clone, Copy, PartialEq, Eq, Structural)]
pub struct WalLocation {
    pub region_id: u64,
    pub table_id: u64,
}

/// Context of one WAL write: a timeout for remote backends, in milliseconds.
#[derive(Debug, Clone, Copy, PartialEq, Eq, Structural)]
pub struct WriteContext {
    pub timeout_ms: u64,
}

impl Default for WriteContext {
    fn default() -> (r: Self)
        ensures
            r.timeout_ms == 1000,
    {
        WriteContext { timeout_ms: 1000 }
    }
}

/// Context of one WAL read: a timeout in milliseconds and the number of
/// entries fetched per batch.
#[derive(Debug, Clone, Copy, PartialEq, Eq, Structural)]
pub struct ReadContext {
    pub timeout_ms: u64,
    pub batch_size: usize,
}

impl Default for ReadContext {
    fn default() -> (r: Self)
        ensures
            r.timeout_ms == 5000,
            r.batch_size == 500,
    {
        ReadContext { timeout_ms: 5000, batch_size: 500 }
    }
}

/// One end of a WAL read range.
#[derive(Debug, Clone, Copy, PartialEq, Eq, Structural)]
pub enum ReadBoundary {
    Max,
    Min,
    Included(u64),
    Excluded(u64),
}

impl ReadBoundary {
    /// The first sequence number the boundary admits as a range start, or
    /// `None` for `Excluded(MAX)`, which admits nothing.
    pub open spec fn spec_start_sequence(&self) -> Option<u64> {
        match *self {
            ReadBoundary::Max => Some(MAX_SEQUENCE_NUMBER),
            ReadBoundary::Min => Some(MIN_SEQUENCE_NUMBER),
            ReadBoundary::Included(n) => Some(n),
            ReadBoundary::Excluded(n) => if n == MAX_SEQUENCE_NUMBER {
                None
            } else {
                Some((n + 1) as u64)
            },
        }
    }

    /// The last sequence number the boundary admits as a range end, or
    /// `None` for `Excluded(MIN)`, which admits nothing.
    pub open spec fn spec_end_sequence(&self) -> Option<u64> {
        match *self {
            ReadBoundary::Max => Some(MAX_SEQUENCE_NUMBER),
            ReadBoundary::Min => Some(MIN_SEQUENCE_NUMBER),
            ReadBoundary::Included(n) => Some(n),
            ReadBoundary::Excluded(n) => if n == MIN_SEQUENCE_NUMBER {
                None
            } else {
                Some((n - 1) as u64)
            },
        }
    }

    /// Convert the boundary to a concrete start sequence number.
    pub fn as_start_sequence_number(&self) -> (r: Option<u64>)
        ensures
            r == self.spec_start_sequence(),
    {
        match *self {
            ReadBoundary::Max => Some(MAX_SEQUENCE_NUMBER),
            ReadBoundary::Min => Some(MIN_SEQUENCE_NUMBER),
            ReadBoundary::Included(n) => Some(n),
            ReadBoundary::Excluded(n) => {
                if n == MAX_SEQUENCE_NUMBER {
                    None
                } else {
                    Some(n + 1)
                }
            },
        }
    }

    /// Convert the boundary to a concrete end sequence number.
    pub fn as_end_sequence_number(&self) -> (r: Option<u64>)
        ensures
            r == self.spec_end_sequence(),
    {
        match *self {
            ReadBoundary::Max => Some(MAX_SEQUENCE_NUMBER),
            ReadBoundary::Min => Some(MIN_SEQUENCE_NUMBER),
            ReadBoundary::Included(n) => Some(n),
            ReadBoundary::Excluded(n) => {
                if n == MIN_SEQUENCE_NUMBER {
                    None
                } else {
                    Some(n - 1)
                }
            },
        }
    }
}

/// A request to read a bounded slice of one table's log.
#[derive(Debug, Clone, Copy, PartialEq, Eq, Structural)]
pub struct ReadRequest {
    /// Location of the WAL to read.
    pub location: WalLocation,
    /// Start bound.
    pub start: ReadBoundary,
    /// End bound.
    pub end: ReadBoundary,
}

/// A request to scan every entry of a region.
#[derive(Debug, Clone, Copy, PartialEq, Eq, Structural)]
pub struct ScanRequest {
    /// Region id of the WALs to be scanned.
    pub region_id: u64,
}

/// One replayed log entry: the table it belongs to, its sequence number and
/// its payload bytes.
pub struct LogEntry {
    pub table_id: u64,
    pub sequence: u64,
    pub payload: Vec<u8>,
}

/// Iterator over log entries whose fetching may block the calling thread.
pub trait BlockingLogIterator: Sized {
    /// Fetch the next log entry, or `None` when the iterator is exhausted.
    fn next_log_entry(&mut self) -> Option<LogEntry>;
}

} // verus!
