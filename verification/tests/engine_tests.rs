//! Tests of the memtable, the shard-open state machine, the pruning rules,
//! the endpoint rewriting and the engine types.

use analytic_core::memtable::{MemTable, LayeredMemTable, LayeredMemtableFactory, MemTableFactory};
use analytic_core::memkey::{KeySequence, SequenceCodec};
use analytic_core::engine::TableState;
use analytic_core::shardopen::{
    TableOpenStage, StepOutcome, FlushRetryBudget, init_stage, apply_meta_step, apply_data_step,
    collate_results,
};
use analytic_core::sstprune::{BloomFilter, RowGroupMeta, Predicate, filter_row_groups};
use analytic_core::partition::{
    PartitionRuleFactory, PartitionInfo, KeyPartitionInfo, RandomPartitionInfo,
};
use analytic_core::roletable::{create_role_table, TableRole, RoleTable, LeaderTable};
use analytic_core::endpoint::normalize_endpoint;
use analytic_core::row::{Datum, DatumKind, Row, Schema, IndexInWriterSchema};
use analytic_core::rowcodec::ContiguousRowWriter;
use analytic_core::config::{
    TopicManagementConfig, ConsumerConfig, ClientConfig, WalEncodeConfig, WalEncodeFormat,
};

fn internal_key(user_key: &[u8], sequence: u64, row_index: u32) -> Vec<u8> {
    let mut key = user_key.to_vec();
    SequenceCodec.encode(&mut key, &KeySequence::new(sequence, row_index));
    key
}

#[test]
fn write_then_read_in_key_order() {
    // Write rows ("a", 1) and ("b", 2) at one sequence and read them back
    // in ascending user-key order.
    let mut table = MemTable::new();
    table.put(internal_key(b"b", 7, 1), b"2".to_vec());
    table.put(internal_key(b"a", 7, 0), b"1".to_vec());
    assert_eq!(table.num_entries(), 2);
    assert_eq!(&table.key_at(0)[..1], b"a");
    assert_eq!(table.value_at(0), &b"1".to_vec());
    assert_eq!(&table.key_at(1)[..1], b"b");
    assert_eq!(table.value_at(1), &b"2".to_vec());
}

#[test]
fn overwrite_reads_by_snapshot() {
    // Write ("a", 1) at sequence 1, then ("a", 9) at sequence 2. A read at
    // the latest snapshot sees 9; a read at the first snapshot sees 1.
    let mut table = MemTable::new();
    table.put(internal_key(b"a", 1, 0), b"1".to_vec());
    table.put(internal_key(b"a", 2, 0), b"9".to_vec());
    assert_eq!(table.point_get(b"a", u64::MAX), Some(b"9".to_vec()));
    assert_eq!(table.point_get(b"a", 1), Some(b"1".to_vec()));
    assert_eq!(table.point_get(b"a", 0), None);
    assert_eq!(table.point_get(b"b", u64::MAX), None);
}

#[test]
fn oversized_row_leaves_memtable_unchanged() {
    let schema = Schema::new(vec![DatumKind::String], vec![0]).unwrap();
    let index_in_writer = IndexInWriterSchema::for_same_schema(1);
    let writer = ContiguousRowWriter::new(&schema, &index_in_writer);
    let row = Row::from_datums(vec![Datum::String(vec![b'x'; 17 * 1024 * 1024])]);
    let mut table = MemTable::new();
    let mut buf = Vec::new();
    let result = writer.write_row(&mut buf, &row);
    assert!(matches!(
        result,
        Err(analytic_core::rowcodec::Error::StringTooLong { .. })
    ));
    // The write failed before anything reached the memtable.
    assert_eq!(table.num_entries(), 0);
    assert_eq!(table.approximate_bytes(), 0);
    table.put(internal_key(b"ok", 1, 0), b"v".to_vec());
    assert_eq!(table.num_entries(), 1);
}

#[test]
fn layered_memtable_seals_on_threshold() {
    let factory = LayeredMemtableFactory::new(MemTableFactory, 8);
    let mut layered = factory.create_memtable();
    layered.put(internal_key(b"a", 1, 0), b"old".to_vec());
    // The first put crossed the 8-byte threshold: the layer was sealed.
    assert_eq!(layered.immutables.len(), 1);
    layered.put(internal_key(b"a", 2, 0), b"new".to_vec());
    // Reads merge all layers newest first.
    assert_eq!(layered.point_get(b"a", u64::MAX), Some(b"new".to_vec()));
    assert_eq!(layered.point_get(b"a", 1), Some(b"old".to_vec()));
    let plain = LayeredMemTable::new(1024);
    assert_eq!(plain.immutables.len(), 0);
}

#[test]
fn table_state_transitions() {
    let mut state = TableState::Stable;
    assert!(state.validate(TableState::Dropping));
    assert!(!state.validate(TableState::Dropped));
    assert!(state.try_transit(TableState::Dropping).is_ok());
    assert!(state.try_transit(TableState::Dropped).is_ok());
    let result = state.try_transit(TableState::Stable);
    assert!(matches!(
        result,
        Err(analytic_core::engine::Error::InvalidTableStateTransition {
            from: TableState::Dropped,
            to: TableState::Stable,
        })
    ));
    assert_eq!(state, TableState::Dropped);
}

#[test]
fn shard_open_drives_tables_to_results() {
    // One table already open, one recovering fully, one failing in replay.
    let open = init_stage(true);
    assert_eq!(open, TableOpenStage::Success(true));

    let mut fresh = init_stage(false);
    assert_eq!(fresh, TableOpenStage::RecoverTableMeta);
    fresh = apply_meta_step(fresh, 1, StepOutcome::Done(true)).unwrap();
    assert_eq!(fresh, TableOpenStage::RecoverTableData);
    fresh = apply_data_step(fresh, 1, StepOutcome::Done(true)).unwrap();
    assert_eq!(fresh, TableOpenStage::Success(true));

    let mut failing = init_stage(false);
    failing = apply_meta_step(failing, 2, StepOutcome::Done(true)).unwrap();
    failing = apply_data_step(failing, 2, StepOutcome::Failed).unwrap();
    assert!(matches!(failing, TableOpenStage::Failed(_)));

    // A vanished table settles with no handle, and one failure does not
    // abort the others.
    let vanished = apply_meta_step(init_stage(false), 3, StepOutcome::Done(false)).unwrap();
    assert_eq!(vanished, TableOpenStage::Success(false));

    let stages = vec![(0u64, open), (1u64, fresh), (2u64, failing), (3u64, vanished)];
    let results = collate_results(&stages).unwrap();
    assert_eq!(results.len(), 4);
    assert_eq!(results[0].result, Ok(true));
    assert_eq!(results[1].result, Ok(true));
    assert!(results[2].result.is_err());
    assert_eq!(results[3].result, Ok(false));

    // An unsettled stage is a driver error.
    let bad = vec![(9u64, TableOpenStage::RecoverTableMeta)];
    assert!(collate_results(&bad).is_err());

    // Replay may only start after metadata recovery.
    assert!(apply_data_step(TableOpenStage::RecoverTableMeta, 9, StepOutcome::Done(true)).is_err());
}

#[test]
fn bloom_never_denies_inserted_keys() {
    let mut bloom = BloomFilter::new(64);
    bloom.insert(b"alpha");
    bloom.insert(b"beta");
    assert!(bloom.contains(b"alpha"));
    assert!(bloom.contains(b"beta"));
}

#[test]
fn prune_keeps_matching_groups() {
    let mut bloom_a = BloomFilter::new(64);
    bloom_a.insert(b"apple");
    let mut bloom_b = BloomFilter::new(64);
    bloom_b.insert(b"melon");
    let groups = vec![
        RowGroupMeta { min_key: b"apple".to_vec(), max_key: b"grape".to_vec(), bloom: bloom_a },
        RowGroupMeta { min_key: b"kiwi".to_vec(), max_key: b"plum".to_vec(), bloom: bloom_b },
    ];

    // A row the predicate matches is never pruned away.
    let kept = filter_row_groups(&groups, &Predicate::KeyEquals(b"apple".to_vec()));
    assert_eq!(kept, vec![0]);

    let kept = filter_row_groups(&groups, &Predicate::KeyRange(b"lemon".to_vec(), b"pear".to_vec()));
    assert_eq!(kept, vec![1]);

    let kept = filter_row_groups(&groups, &Predicate::True);
    assert_eq!(kept, vec![0, 1]);

    // A range below every group keeps nothing.
    let kept = filter_row_groups(&groups, &Predicate::KeyRange(b"a".to_vec(), b"ap".to_vec()));
    assert_eq!(kept, Vec::<usize>::new());
}

#[test]
fn partition_rules_build_or_fail() {
    let schema = Schema::new(vec![DatumKind::String, DatumKind::UInt64], vec![0]).unwrap();

    let rule = PartitionRuleFactory::create(
        PartitionInfo::Key(KeyPartitionInfo { partition_key: vec![1], num_definitions: 4 }),
        &schema,
    )
    .unwrap();
    assert_eq!(rule.partition_num, 4);
    assert_eq!(rule.typed_columns.len(), 1);
    assert_eq!(rule.typed_columns[0].column, 1);
    assert_eq!(rule.typed_columns[0].data_type, DatumKind::UInt64);

    assert!(matches!(
        PartitionRuleFactory::create(
            PartitionInfo::Random(RandomPartitionInfo { num_definitions: 4 }),
            &schema,
        ),
        Err(analytic_core::partition::Error::UnsupportedStrategy)
    ));
    assert!(matches!(
        PartitionRuleFactory::create(
            PartitionInfo::Key(KeyPartitionInfo { partition_key: vec![2], num_definitions: 4 }),
            &schema,
        ),
        Err(analytic_core::partition::Error::KeyColumnNotFound { column: 2 })
    ));
}

#[test]
fn leader_role_table_opens() {
    let table = create_role_table(42, TableRole::Leader);
    assert!(table.check_state());
    assert_eq!(RoleTable::table_id(&table), 42);
    let direct = LeaderTable::open(7);
    assert_eq!(direct.table_id, 7);
}

#[test]
fn test_normalize_endpoint() {
    let testcase = [
        (
            "https://oss.aliyun.com",
            "test",
            "https://test.oss.aliyun.com",
        ),
        (
            "http://oss.aliyun.com",
            "test",
            "http://test.oss.aliyun.com",
        ),
        ("no-scheme.com", "test", "http://test.no-scheme.com"),
    ];

    for (endpoint, bucket, expected) in testcase {
        let actual = normalize_endpoint(endpoint, bucket);
        assert_eq!(expected, actual);
    }
}

#[test]
fn default_configurations_hold_documented_values() {
    let topic = TopicManagementConfig::default();
    assert_eq!(topic.create_replication_factor, 1);
    assert_eq!(topic.create_max_wait_ms, 5000);
    assert_eq!(topic.delete_max_wait_ms, 5000);
    let consumer = ConsumerConfig::default();
    assert_eq!(consumer.max_wait_ms, None);
    let client = ClientConfig::default();
    assert_eq!(client.boost_broker, None);
    let wal_encode = WalEncodeConfig::default();
    assert_eq!(wal_encode.num_bytes_compress_threshold, 1024);
    assert_eq!(wal_encode.format, WalEncodeFormat::RowWise);
    let clean = analytic_core::walunit::CleanContext::default();
    assert_eq!(clean.batch_size, 100);
    let read_ctx = analytic_core::walmanager::ReadContext::default();
    assert_eq!(read_ctx.batch_size, 500);
    assert_eq!(read_ctx.timeout_ms, 5000);
    let write_ctx = analytic_core::walmanager::WriteContext::default();
    assert_eq!(write_ctx.timeout_ms, 1000);
}

#[test]
fn flush_retries_stop_at_the_limit() {
    let mut budget = FlushRetryBudget::new(2);
    assert!(budget.register_failure());
    assert!(!budget.register_failure());
    assert!(!budget.register_failure());
    assert_eq!(budget.attempts, 3);

    // A zero limit allows no retry at all.
    let mut none = FlushRetryBudget::new(0);
    assert!(!none.register_failure());
}
