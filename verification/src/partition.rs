//! Partition rules: how a partitioned table routes rows to its partitions.

use vstd::prelude::*;
use crate::row::{DatumKind, Schema};

verus! {

/// How building a partition rule fails.
#[derive(Debug, Clone, Copy, PartialEq, Eq, Structural)]
pub enum Error {
    /// The partition strategy has no rule implementation.
    UnsupportedStrategy,
    /// A partition key column does not exist in the schema.
    KeyColumnNotFound { column: usize },
}

/// How a table is partitioned: by hashed key columns, or randomly.
#[derive(Debug)]
pub enum PartitionInfo {
    /// Key partitioning: the named columns (by schema index) hash to one of
    /// the definitions.
    Key(KeyPartitionInfo),
    /// Random spreading over the definitions.
    Random(RandomPartitionInfo),
}

/// Key partitioning: which columns form the partition key and how many
/// partitions exist.
#[derive(Debug)]
pub struct KeyPartitionInfo {
    /// Schema indexes of the partition key columns.
    pub partition_key: Vec<usize>,
    /// Number of partition definitions.
    pub num_definitions: usize,
}

/// Random partitioning over a number of definitions.
#[derive(Debug, Clone, Copy, PartialEq, Eq, Structural)]
pub struct RandomPartitionInfo {
    pub num_definitions: usize,
}

/// One partition key column with its type.
#[derive(Debug, Clone, Copy, PartialEq, Eq, Structural)]
pub struct ColumnWithType {
    pub column: usize,
    pub data_type: DatumKind,
}

/// A built key rule: the typed key columns and the partition count.
#[derive(Debug)]
pub struct KeyRule {
    pub typed_columns: Vec<ColumnWithType>,
    pub partition_num: u64,
}

/// Builds partition rules from partition metadata.
pub struct PartitionRuleFactory;

/// Whether every partition key column of the info names a schema column.
pub open spec fn spec_key_columns_valid(info: KeyPartitionInfo, schema: Schema) -> bool {
    forall|i: int|
        0 <= i < info.partition_key@.len() ==> #[trigger] info.partition_key@[i]
            < schema.column_kinds@.len()
}

impl PartitionRuleFactory {
    /// Build the rule for the partition metadata. Only key partitioning has
    /// a rule; a key column missing from the schema fails with that column.
    pub fn create(partition_info: PartitionInfo, schema: &Schema) -> (r: Result<KeyRule, Error>)
        ensures
            partition_info is Random ==> r == Err::<KeyRule, Error>(Error::UnsupportedStrategy),
            ({
                match partition_info {
                    PartitionInfo::Key(info) => {
                        if spec_key_columns_valid(info, *schema) {
                            r is Ok && r->Ok_0.partition_num == info.num_definitions
                                && r->Ok_0.typed_columns@.len() == info.partition_key@.len()
                                && forall|i: int|
                                0 <= i < info.partition_key@.len()
                                    ==> (#[trigger] r->Ok_0.typed_columns@[i]) == (ColumnWithType {
                                    column: info.partition_key@[i],
                                    data_type: schema.column_kinds@[info.partition_key@[i] as int],
                                })
                        } else {
                            r is Err && r->Err_0 is KeyColumnNotFound
                        }
                    },
                    PartitionInfo::Random(_) => true,
                }
            }),
    {
        match partition_info {
            PartitionInfo::Key(key_info) => Self::create_key_rule(key_info, schema),
            PartitionInfo::Random(_) => Err(Error::UnsupportedStrategy),
        }
    }

    /// Build a key rule: resolve each key column against the schema.
    pub fn create_key_rule(key_info: KeyPartitionInfo, schema: &Schema) -> (r: Result<
        KeyRule,
        Error,
    >)
        ensures
            spec_key_columns_valid(key_info, *schema) ==> r is Ok && r->Ok_0.partition_num
                == key_info.num_definitions && r->Ok_0.typed_columns@.len()
                == key_info.partition_key@.len() && forall|i: int|
                0 <= i < key_info.partition_key@.len() ==> (#[trigger] r->Ok_0.typed_columns@[i])
                    == (ColumnWithType {
                    column: key_info.partition_key@[i],
                    data_type: schema.column_kinds@[key_info.partition_key@[i] as int],
                }),
            !spec_key_columns_valid(key_info, *schema) ==> r is Err && r->Err_0
                is KeyColumnNotFound,
    {
        let mut typed_columns: Vec<ColumnWithType> = Vec::new();
        let n = key_info.partition_key.len();
        let mut i: usize = 0;
        while i < n
            invariant
                n == key_info.partition_key@.len(),
                i <= n,
                typed_columns@.len() == i,
                forall|k: int|
                    0 <= k < i ==> #[trigger] key_info.partition_key@[k]
                        < schema.column_kinds@.len(),
                forall|k: int|
                    0 <= k < i ==> (#[trigger] typed_columns@[k]) == (ColumnWithType {
                        column: key_info.partition_key@[k],
                        data_type: schema.column_kinds@[key_info.partition_key@[k] as int],
                    }),
            decreases n - i,
        {
            let col = key_info.partition_key[i];
            if col >= schema.num_columns() {
                return Err(Error::KeyColumnNotFound { column: col });
            }
            typed_columns.push(ColumnWithType { column: col, data_type: schema.column_kinds[col] });
            i = i + 1;
        }
        Ok(KeyRule { typed_columns, partition_num: key_info.num_definitions as u64 })
    }
}

} // verus!
