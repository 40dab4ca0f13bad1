//! Table-engine interface types: table lifecycle state and the requests the
//! engine serves.

use vstd::prelude::*;

verus! {

/// How the engine layer fails.
#[derive(Debug, Clone, Copy, PartialEq, Eq, Structural)]
pub enum Error {
    /// The requested state change is not allowed from the current state.
    InvalidTableStateTransition { from: TableState, to: TableState },
    /// The named engine type is not this engine.
    UnknownEngineType,
}

/// The lifecycle state of a table. A stable table may start dropping; a
/// dropping table may finish dropping; a dropped table never comes back.
#[derive(Debug, Clone, Copy, PartialEq, Eq, Structural)]
pub enum TableState {
    Stable,
    Dropping,
    Dropped,
}

/// Which transitions the lifecycle allows.
pub open spec fn spec_valid_transition(from: TableState, to: TableState) -> bool {
    match from {
        TableState::Stable => to == TableState::Stable || to == TableState::Dropping,
        TableState::Dropping => to == TableState::Dropped,
        TableState::Dropped => false,
    }
}

impl TableState {
    /// Whether the state may transition to `to`.
    pub fn validate(&self, to: TableState) -> (r: bool)
        ensures
            r == spec_valid_transition(*self, to),
    {
        match self {
            TableState::Stable => matches!(to, TableState::Stable | TableState::Dropping),
            TableState::Dropping => matches!(to, TableState::Dropped),
            TableState::Dropped => false,
        }
    }

    /// Transition to `to`; an invalid transition fails and changes nothing.
    pub fn try_transit(&mut self, to: TableState) -> (r: Result<(), Error>)
        ensures
            spec_valid_transition(*old(self), to) ==> r == Ok::<(), Error>(()) && *final(self)
                == to,
            !spec_valid_transition(*old(self), to) ==> r == Err::<(), Error>(
                Error::InvalidTableStateTransition { from: *old(self), to },
            ) && *final(self) == *old(self),
    {
        if !self.validate(to) {
            return Err(Error::InvalidTableStateTransition { from: *self, to });
        }
        *self = to;
        Ok(())
    }
}

/// Whether a request creates or drops a table.
#[derive(Debug, Clone, Copy, PartialEq, Eq, Structural)]
pub enum TableRequestType {
    Create,
    Drop,
}

/// The parameters that shape a new table.
#[derive(Debug)]
pub struct CreateTableParams {
    pub catalog_name: Vec<u8>,
    pub schema_name: Vec<u8>,
    pub table_name: Vec<u8>,
    pub table_schema: crate::row::Schema,
    pub partition_info: Option<crate::partition::PartitionInfo>,
    pub engine: Vec<u8>,
}

/// Create table request.
#[derive(Debug)]
pub struct CreateTableRequest {
    pub params: CreateTableParams,
    /// Schema id.
    pub schema_id: u32,
    /// Table id.
    pub table_id: u64,
    /// State of the table.
    pub state: TableState,
    /// Shard the table is scheduled on.
    pub shard_id: u32,
}

/// Drop table request.
#[derive(Debug)]
pub struct DropTableRequest {
    pub catalog_name: Vec<u8>,
    pub schema_name: Vec<u8>,
    pub schema_id: u32,
    pub table_name: Vec<u8>,
    pub engine: Vec<u8>,
}

/// Open table request.
#[derive(Debug)]
pub struct OpenTableRequest {
    pub catalog_name: Vec<u8>,
    pub schema_name: Vec<u8>,
    pub schema_id: u32,
    pub table_name: Vec<u8>,
    pub table_id: u64,
    pub engine: Vec<u8>,
    pub shard_id: u32,
}

/// Close table request.
#[derive(Debug)]
pub struct CloseTableRequest {
    pub catalog_name: Vec<u8>,
    pub schema_name: Vec<u8>,
    pub schema_id: u32,
    pub table_name: Vec<u8>,
    pub table_id: u64,
    pub engine: Vec<u8>,
}

/// One table of a shard request.
#[derive(Debug)]
pub struct TableDef {
    pub catalog_name: Vec<u8>,
    pub schema_name: Vec<u8>,
    pub schema_id: u32,
    pub id: u64,
    pub name: Vec<u8>,
}

/// A request to open every table of one shard.
#[derive(Debug)]
pub struct OpenShardRequest {
    /// Shard id.
    pub shard_id: u32,
    /// The tables of the shard.
    pub table_defs: Vec<TableDef>,
    /// Table engine type.
    pub engine: Vec<u8>,
}

/// Write and read volume of one shard.
#[derive(Debug, Clone, Copy, PartialEq, Eq, Structural, Default)]
pub struct ShardStats {
    pub num_written_bytes: u64,
    pub num_fetched_bytes: u64,
}

/// Per-shard statistics of the engine.
#[derive(Debug)]
pub struct TableEngineStats {
    pub shard_stats: Vec<(u32, ShardStats)>,
}

} // verus!
