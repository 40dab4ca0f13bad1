//! The shard-open state machine.
//!
//! Opening a shard drives each of its tables from cold state to serving:
//! a table already known is a success at once; the others first recover
//! their metadata from the manifest, then replay their WAL entries. All
//! metadata recoveries finish before any replay begins, so the replayer
//! sees the latest schema. One table's failure never aborts the others.

use vstd::prelude::*;

verus! {

/// Why opening one table failed.
#[derive(Debug, Clone, Copy, PartialEq, Eq, Structural)]
pub enum OpenError {
    /// The manifest could not be recovered for the table.
    ReadMetaUpdate { table_id: u64 },
    /// WAL replay failed for the table.
    ReplayWalWithCause { table_id: u64 },
    /// A table stood in a state the phase does not expect.
    OpenTablesOfShard { table_id: u64 },
}

/// Where one table of the shard stands while opening.
#[derive(Debug, Clone, Copy, PartialEq, Eq, Structural)]
pub enum TableOpenStage {
    /// Waiting for manifest recovery.
    RecoverTableMeta,
    /// Metadata recovered; waiting for WAL replay.
    RecoverTableData,
    /// The table failed to open.
    Failed(OpenError),
    /// The table is open; `true` when a table handle exists.
    Success(bool),
}

/// What the outside world reported for one step of one table.
#[derive(Debug, Clone, Copy, PartialEq, Eq, Structural)]
pub enum StepOutcome {
    /// The step succeeded; for metadata recovery, `true` when the space now
    /// holds a table handle.
    Done(bool),
    /// The step failed.
    Failed,
}

/// The initial stage of a table: already-open tables are successes at once,
/// the rest await metadata recovery.
pub fn init_stage(already_open: bool) -> (r: TableOpenStage)
    ensures
        already_open ==> r == TableOpenStage::Success(true),
        !already_open ==> r == TableOpenStage::RecoverTableMeta,
{
    if already_open {
        TableOpenStage::Success(true)
    } else {
        TableOpenStage::RecoverTableMeta
    }
}

/// What metadata recovery does to a table's stage: only a table awaiting
/// metadata moves; success without a table handle is a success with no
/// table, and failure marks the table failed.
pub open spec fn spec_meta_step(stage: TableOpenStage, table_id: u64, outcome: StepOutcome) -> Result<
    TableOpenStage,
    OpenError,
> {
    match stage {
        TableOpenStage::RecoverTableMeta => Ok(
            match outcome {
                StepOutcome::Done(has_table) => if has_table {
                    TableOpenStage::RecoverTableData
                } else {
                    TableOpenStage::Success(false)
                },
                StepOutcome::Failed => TableOpenStage::Failed(
                    OpenError::ReadMetaUpdate { table_id },
                ),
            },
        ),
        TableOpenStage::Success(_) => Ok(stage),
        _ => Err(OpenError::OpenTablesOfShard { table_id }),
    }
}

/// Apply a metadata-recovery outcome to a table's stage.
pub fn apply_meta_step(stage: TableOpenStage, table_id: u64, outcome: StepOutcome) -> (r: Result<
    TableOpenStage,
    OpenError,
>)
    ensures
        r == spec_meta_step(stage, table_id, outcome),
{
    match stage {
        TableOpenStage::RecoverTableMeta => Ok(
            match outcome {
                StepOutcome::Done(has_table) => {
                    if has_table {
                        TableOpenStage::RecoverTableData
                    } else {
                        TableOpenStage::Success(false)
                    }
                },
                StepOutcome::Failed => TableOpenStage::Failed(
                    OpenError::ReadMetaUpdate { table_id },
                ),
            },
        ),
        TableOpenStage::Success(has_table) => Ok(TableOpenStage::Success(has_table)),
        TableOpenStage::RecoverTableData | TableOpenStage::Failed(_) => Err(
            OpenError::OpenTablesOfShard { table_id },
        ),
    }
}

/// What WAL replay does to a table's stage: only a table awaiting data
/// moves; tables already settled stay.
pub open spec fn spec_data_step(stage: TableOpenStage, table_id: u64, outcome: StepOutcome) -> Result<
    TableOpenStage,
    OpenError,
> {
    match stage {
        TableOpenStage::RecoverTableData => Ok(
            match outcome {
                StepOutcome::Done(_) => TableOpenStage::Success(true),
                StepOutcome::Failed => TableOpenStage::Failed(
                    OpenError::ReplayWalWithCause { table_id },
                ),
            },
        ),
        TableOpenStage::Success(_) => Ok(stage),
        TableOpenStage::Failed(_) => Ok(stage),
        TableOpenStage::RecoverTableMeta => Err(OpenError::OpenTablesOfShard { table_id }),
    }
}

/// Apply a WAL-replay outcome to a table's stage.
pub fn apply_data_step(stage: TableOpenStage, table_id: u64, outcome: StepOutcome) -> (r: Result<
    TableOpenStage,
    OpenError,
>)
    ensures
        r == spec_data_step(stage, table_id, outcome),
{
    match stage {
        TableOpenStage::RecoverTableData => Ok(
            match outcome {
                StepOutcome::Done(_) => TableOpenStage::Success(true),
                StepOutcome::Failed => TableOpenStage::Failed(
                    OpenError::ReplayWalWithCause { table_id },
                ),
            },
        ),
        TableOpenStage::Success(has_table) => Ok(TableOpenStage::Success(has_table)),
        TableOpenStage::Failed(e) => Ok(TableOpenStage::Failed(e)),
        TableOpenStage::RecoverTableMeta => Err(OpenError::OpenTablesOfShard { table_id }),
    }
}

/// A settled stage: the state machine finished with this table.
pub open spec fn spec_settled(stage: TableOpenStage) -> bool {
    stage is Success || stage is Failed
}

/// The per-table result of a finished shard open.
#[derive(Debug, Clone, Copy)]
pub struct TableOpenResult {
    pub table_id: u64,
    /// `Ok(true)` with a table, `Ok(false)` without one, or the failure.
    pub result: Result<bool, OpenError>,
}

/// Collate the settled stages into per-table results; an unsettled stage is
/// a programming error of the driver and fails the shard open.
pub fn collate_results(stages: &Vec<(u64, TableOpenStage)>) -> (r: Result<
    Vec<TableOpenResult>,
    OpenError,
>)
    ensures
        (forall|i: int|
            0 <= i < stages@.len() ==> spec_settled((#[trigger] stages@[i]).1)) <==> r is Ok,
        r is Ok ==> r->Ok_0@.len() == stages@.len() && forall|i: int|
            0 <= i < stages@.len() ==> (#[trigger] r->Ok_0@[i]) == (TableOpenResult {
                table_id: stages@[i].0,
                result: match stages@[i].1 {
                    TableOpenStage::Success(has_table) => Ok(has_table),
                    TableOpenStage::Failed(e) => Err(e),
                    _ => Ok(false),
                },
            }),
{
    let mut out: Vec<TableOpenResult> = Vec::new();
    let n = stages.len();
    let mut i: usize = 0;
    while i < n
        invariant
            n == stages@.len(),
            i <= n,
            out@.len() == i,
            forall|k: int| 0 <= k < i ==> spec_settled((#[trigger] stages@[k]).1),
            forall|k: int|
                0 <= k < i ==> (#[trigger] out@[k]) == (TableOpenResult {
                    table_id: stages@[k].0,
                    result: match stages@[k].1 {
                        TableOpenStage::Success(has_table) => Ok(has_table),
                        TableOpenStage::Failed(e) => Err(e),
                        _ => Ok(false),
                    },
                }),
        decreases n - i,
    {
        let (table_id, stage) = stages[i];
        match stage {
            TableOpenStage::Success(has_table) => {
                out.push(TableOpenResult { table_id, result: Ok(has_table) });
            },
            TableOpenStage::Failed(e) => {
                out.push(TableOpenResult { table_id, result: Err(e) });
            },
            TableOpenStage::RecoverTableMeta | TableOpenStage::RecoverTableData => {
                return Err(OpenError::OpenTablesOfShard { table_id });
            },
        }
        i = i + 1;
    }
    Ok(out)
}

/// Context of opening the tables of one shard.
#[derive(Debug)]
pub struct TablesOfShardContext {
    /// Shard id.
    pub shard_id: u32,
    /// The tables to open.
    pub table_ctxs: Vec<TableContext>,
}

/// One table to open: its definition and the space it belongs to.
#[derive(Debug)]
pub struct TableContext {
    pub table_def: crate::engine::TableDef,
    /// The space (schema grouping) the table belongs to.
    pub space_id: u32,
}

/// The flush-retry budget of one table during replay: a flush of an
/// overfull memtable that failed may be retried until the configured number
/// of attempts is spent.
#[derive(Debug, Clone, Copy, PartialEq, Eq, Structural)]
pub struct FlushRetryBudget {
    /// Failed attempts so far.
    pub attempts: usize,
    /// Most attempts the replay may spend on one table.
    pub max_retry_flush_limit: usize,
}

impl FlushRetryBudget {
    /// A fresh budget of `max_retry_flush_limit` attempts.
    pub fn new(max_retry_flush_limit: usize) -> (r: Self)
        ensures
            r.attempts == 0,
            r.max_retry_flush_limit == max_retry_flush_limit,
    {
        FlushRetryBudget { attempts: 0, max_retry_flush_limit }
    }

    /// Record one failed flush attempt. Returns whether the replay may try
    /// again: only while the spent attempts stay below the limit.
    pub fn register_failure(&mut self) -> (retry: bool)
        requires
            old(self).attempts < usize::MAX,
        ensures
            final(self).attempts == old(self).attempts + 1,
            final(self).max_retry_flush_limit == old(self).max_retry_flush_limit,
            retry == (final(self).attempts < final(self).max_retry_flush_limit),
    {
        self.attempts = self.attempts + 1;
        self.attempts < self.max_retry_flush_limit
    }
}

} // verus!
