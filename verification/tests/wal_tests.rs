//! Tests of the WAL key codec, the log collector, the split encoder and the
//! table unit.

use analytic_core::walcollect::IntegrateLogCollector;
use analytic_core::walkey::{CommonLogKey, CommonLogEncoding};
use analytic_core::walsplit::{LogBatchSplitEncoder, LogWriteEntry, KvWriteBatch};
use analytic_core::walmanager::ReadBoundary;
use analytic_core::walunit::{
    TableUnitEntry, TableUnitState, CleanContext, alloc_sequence_num, delete_entries_up_to,
    resolve_read_range, open_table_unit, load_last_sequence, collect_scanned_logs,
    clean_logs_batches, ScannedRecord,
};

#[test]
fn test_collect_normal_log() {
    let mut collector = IntegrateLogCollector::default();
    let key0 = CommonLogKey::part(0, 0, 0, None);
    collector.collect(key0, b"x");
    assert!(collector.is_integrate());
    assert_eq!((Some(key0), vec![b'x']), collector.take_log());
}

#[test]
fn test_collect_multiple_keys_logs() {
    let mut collector = IntegrateLogCollector::default();
    let key0 = CommonLogKey::part(0, 0, 0, None);
    let key1 = CommonLogKey::part(0, 0, 1, None);
    collector.collect(key0, b"0");
    assert!(collector.is_integrate());
    collector.collect(key1, b"1");
    assert!(collector.is_integrate());
    assert_eq!((Some(key0), vec![b'0']), collector.take_log());
}

#[test]
fn test_collect_multiple_part_logs() {
    let mut collector = IntegrateLogCollector::default();

    let key0 = CommonLogKey::part(0, 0, 1, Some(5));
    let key1 = CommonLogKey::part(0, 0, 1, Some(2));
    let key2 = CommonLogKey::part(0, 0, 1, Some(0));
    let key3 = CommonLogKey::part(0, 0, 2, None);
    collector.collect(key0, b"0x");
    assert!(!collector.is_integrate());
    collector.collect(key1, b"999");
    assert!(!collector.is_integrate());
    collector.collect(key2, b"22");
    assert!(collector.is_integrate());
    collector.collect(key3, b"33");

    assert_eq!((Some(key2), b"0x99922".to_vec()), collector.take_log())
}

fn check_encoded_write_batches(
    entries: &[LogWriteEntry],
    encoded_write_batches: &[KvWriteBatch],
    payload_size_limit: usize,
    write_batch_size_limit: usize,
) {
    let mut decoded_payloads: Vec<Vec<u8>> = Vec::new();
    let mut curr_payload: Vec<u8> = Vec::new();
    let mut prev_seq = None;

    let encoding = CommonLogEncoding::newest();
    for write_batch in encoded_write_batches {
        let mut write_batch_size = 0;

        for (key, val) in &write_batch.key_values {
            assert!(val.len() <= payload_size_limit);
            write_batch_size += key.len() + val.len();

            let log_key = encoding.decode_key(key).unwrap();

            match prev_seq {
                None => curr_payload.extend_from_slice(val),
                Some(prev) => {
                    if prev != log_key.sequence_num {
                        decoded_payloads.push(std::mem::take(&mut curr_payload));
                    }
                    curr_payload.extend_from_slice(val);
                }
            }

            prev_seq = Some(log_key.sequence_num);
        }

        assert!(write_batch_size <= write_batch_size_limit);
    }
    decoded_payloads.push(std::mem::take(&mut curr_payload));

    let expect_payloads: Vec<Vec<u8>> = entries.iter().map(|v| v.payload.clone()).collect();
    assert_eq!(decoded_payloads, expect_payloads);
}

fn split_encode_and_check(
    payloads: Vec<Vec<u8>>,
    log_value_size_limit: usize,
    write_batch_size_limit: usize,
) {
    let entries: Vec<LogWriteEntry> = payloads
        .into_iter()
        .map(|v| LogWriteEntry { payload: v })
        .collect();

    let encoder = LogBatchSplitEncoder {
        log_value_size_limit,
        write_batch_size_limit,
        region_id: 0,
        table_id: 0,
    };

    let next_seq = 100;
    let (write_batches, max_seq) = encoder.encode(&entries, next_seq).unwrap();

    assert_eq!(max_seq, next_seq + entries.len() as u64 - 1);
    check_encoded_write_batches(
        &entries,
        &write_batches,
        log_value_size_limit,
        write_batch_size_limit,
    );
}

#[test]
fn no_split_encode() {
    let payloads = vec![b"111000".to_vec(), b"00000".to_vec()];
    split_encode_and_check(payloads, 1000, 1000);

    // Both pairs fit one batch, and the packing is greedy: one batch.
    let entries = vec![
        LogWriteEntry { payload: b"111000".to_vec() },
        LogWriteEntry { payload: b"00000".to_vec() },
    ];
    let encoder = LogBatchSplitEncoder {
        log_value_size_limit: 1000,
        write_batch_size_limit: 1000,
        region_id: 0,
        table_id: 0,
    };
    let (write_batches, _) = encoder.encode(&entries, 100).unwrap();
    assert_eq!(write_batches.len(), 1);
    assert_eq!(write_batches[0].key_values.len(), 2);
}

#[test]
fn small_payload_is_one_chunk() {
    let encoder = LogBatchSplitEncoder {
        log_value_size_limit: 10,
        write_batch_size_limit: 1000,
        region_id: 0,
        table_id: 0,
    };
    // A payload within the per-value limit is a single chunk covering it.
    assert_eq!(encoder.compute_sub_entry_offsets(7), vec![(0, 7)]);
    assert_eq!(encoder.compute_sub_entry_offsets(10), vec![(0, 10)]);
    assert_eq!(encoder.compute_sub_entry_offsets(11), vec![(0, 10), (10, 1)]);
}

#[test]
fn split_encode_large_payload() {
    let payloads = vec![
        b"111000".to_vec(),
        b"00000".to_vec(),
        b"000000xxxxxxxxxxxxxx".to_vec(),
    ];
    split_encode_and_check(payloads, 5, 1000);
}

#[test]
fn split_encode_large_payload_and_large_write_batch() {
    let payloads = vec![
        b"111000".to_vec(),
        b"00000".to_vec(),
        b"000000xxxxxxxxxxxxxx".to_vec(),
        b"000000xxxxxxxxxxxxxx".to_vec(),
        b"000000xxxxxxxxxxxxxx".to_vec(),
        b"000000xxxxxxxxxxxxxx".to_vec(),
        b"000000xxxxxxxxxxxxxx".to_vec(),
        b"000000xxxxxxxxxxxxxx".to_vec(),
        b"000000xxxxxxxxxxxxxx".to_vec(),
    ];
    split_encode_and_check(payloads, 5, 40);
}

#[test]
fn split_encode_empty_batch_fails() {
    let encoder = LogBatchSplitEncoder {
        log_value_size_limit: 1000,
        write_batch_size_limit: 1000,
        region_id: 0,
        table_id: 0,
    };
    let entries: Vec<LogWriteEntry> = Vec::new();
    assert!(encoder.encode(&entries, 1).is_err());
}

#[test]
fn split_encode_too_small_batch_limit_fails() {
    let encoder = LogBatchSplitEncoder {
        log_value_size_limit: 1000,
        // A 24-byte key alone exceeds this batch limit.
        write_batch_size_limit: 10,
        region_id: 0,
        table_id: 0,
    };
    let entries = vec![LogWriteEntry { payload: b"abc".to_vec() }];
    assert!(matches!(
        encoder.encode(&entries, 1),
        Err(analytic_core::walsplit::Error::TooSmallSizeLimitPerBatch { limit: 10 })
    ));
}

#[test]
fn wal_key_codec_round_trip() {
    let encoding = CommonLogEncoding::newest();
    let mut buf = Vec::new();
    let key = CommonLogKey::new(7, 11, 13);
    encoding.encode_key(&mut buf, &key);
    assert_eq!(buf.len(), 24);
    assert_eq!(encoding.decode_key(&buf).unwrap(), key);

    let part = CommonLogKey::part(7, 11, 13, Some(42));
    encoding.encode_key(&mut buf, &part);
    assert_eq!(buf.len(), 28);
    assert_eq!(encoding.decode_key(&buf).unwrap(), part);

    // Parts of one sequence scan in write order: more remaining bytes first.
    let mut early = Vec::new();
    encoding.encode_key(&mut early, &CommonLogKey::part(7, 11, 13, Some(42)));
    let mut late = Vec::new();
    encoding.encode_key(&mut late, &CommonLogKey::part(7, 11, 13, Some(0)));
    assert!(early < late);
}

#[test]
fn wal_key_decode_rejects_bad_length() {
    let encoding = CommonLogEncoding::newest();
    assert!(matches!(
        encoding.decode_key(&[0u8; 23]),
        Err(analytic_core::walkey::Error::InvalidKeyLen { len: 23 })
    ));
}

#[test]
fn sequences_strictly_increase_across_writes() {
    let mut state = TableUnitState { region_id: 1, table_id: 2, start_sequence: 0, last_sequence: 0 };
    let first = alloc_sequence_num(&mut state, 3).unwrap();
    assert_eq!(first, 1);
    assert_eq!(state.last_sequence(), 3);
    let second = alloc_sequence_num(&mut state, 2).unwrap();
    // Every sequence of the first write lies below the second write's first.
    assert!(first + 3 - 1 < second);
    assert_eq!(second, 4);
    assert_eq!(state.last_sequence(), 5);
}

#[test]
fn alloc_overflow_leaves_state_unchanged() {
    let mut state = TableUnitState {
        region_id: 1,
        table_id: 2,
        start_sequence: 0,
        last_sequence: u64::MAX,
    };
    assert!(matches!(
        alloc_sequence_num(&mut state, 1),
        Err(analytic_core::walunit::Error::SequenceOverflow { table_id: 2 })
    ));
    assert_eq!(state.last_sequence(), u64::MAX);
}

#[test]
fn truncate_and_reopen_replays_only_tail() {
    // Write 10 entries.
    let mut state = TableUnitState { region_id: 1, table_id: 2, start_sequence: 0, last_sequence: 0 };
    let first = alloc_sequence_num(&mut state, 10).unwrap();
    assert_eq!(first, 1);
    assert_eq!(state.last_sequence(), 10);

    // Mark-delete up to sequence 5.
    let entry = delete_entries_up_to(&mut state, 5);
    assert_eq!(entry.start_sequence, 6);
    assert_eq!(state.start_sequence(), 6);

    // Reopen from the durable state: the entry plus the stored records.
    let encoded = entry.encode();
    let buckets = vec![Some(10u64)];
    let reopened = open_table_unit(1, 2, Some(&encoded), &buckets).unwrap().unwrap();
    assert_eq!(reopened.start_sequence(), 6);
    assert_eq!(reopened.last_sequence(), 10);

    // Replay visits exactly sequences 6..=10.
    let range = resolve_read_range(&reopened, &ReadBoundary::Min, &ReadBoundary::Max).unwrap();
    assert_eq!(range, (6, 10));
}

#[test]
fn reopen_twice_yields_same_state() {
    let entry = TableUnitEntry { table_id: 2, start_sequence: 4 };
    let encoded = entry.encode();
    let buckets = vec![None, Some(9u64)];
    let first = open_table_unit(1, 2, Some(&encoded), &buckets).unwrap().unwrap();
    let second = open_table_unit(1, 2, Some(&encoded), &buckets).unwrap().unwrap();
    assert_eq!(first, second);
    assert_eq!(first.last_sequence(), 9);
}

#[test]
fn open_without_entry_finds_no_table_unit() {
    let buckets = vec![Some(9u64)];
    assert_eq!(open_table_unit(1, 2, None, &buckets).unwrap(), None);
}

#[test]
fn open_rejects_corrupt_entry() {
    let buckets = vec![Some(9u64)];
    let bad = vec![1u8, 2, 3];
    assert!(matches!(
        open_table_unit(1, 2, Some(&bad), &buckets),
        Err(analytic_core::walunit::Error::Decode)
    ));
}

#[test]
fn stale_bucket_falls_back_to_start() {
    // The newest record lies below the durable start: a stale bucket.
    assert_eq!(load_last_sequence(&vec![Some(3u64)], 7), 6);
    // No bucket holds records.
    assert_eq!(load_last_sequence(&vec![None, None], 0), 0);
}

#[test]
fn table_unit_entry_round_trip() {
    let entry = TableUnitEntry::new(77);
    assert_eq!(entry.start_sequence, 0);
    let encoded = entry.encode();
    assert_eq!(encoded.len(), 16);
    assert_eq!(TableUnitEntry::decode(&encoded).unwrap(), entry);
}

#[test]
fn read_boundaries_convert_exactly() {
    assert_eq!(ReadBoundary::Max.as_start_sequence_number(), Some(u64::MAX));
    assert_eq!(ReadBoundary::Min.as_start_sequence_number(), Some(0));
    assert_eq!(ReadBoundary::Included(5).as_start_sequence_number(), Some(5));
    assert_eq!(ReadBoundary::Excluded(5).as_start_sequence_number(), Some(6));
    assert_eq!(ReadBoundary::Excluded(u64::MAX).as_start_sequence_number(), None);
    assert_eq!(ReadBoundary::Excluded(5).as_end_sequence_number(), Some(4));
    assert_eq!(ReadBoundary::Excluded(0).as_end_sequence_number(), None);
}

#[test]
fn scanned_parts_reassemble() {
    let records = vec![
        ScannedRecord { key: CommonLogKey::part(0, 0, 1, Some(5)), payload: b"0x".to_vec() },
        ScannedRecord { key: CommonLogKey::part(0, 0, 1, Some(2)), payload: b"999".to_vec() },
        ScannedRecord { key: CommonLogKey::part(0, 0, 1, Some(0)), payload: b"22".to_vec() },
        ScannedRecord { key: CommonLogKey::part(0, 0, 2, None), payload: b"33".to_vec() },
    ];
    let logs = collect_scanned_logs(records);
    assert_eq!(logs.len(), 2);
    assert_eq!(logs[0].sequence, 1);
    assert_eq!(logs[0].payload, b"0x99922".to_vec());
    assert_eq!(logs[1].sequence, 2);
    assert_eq!(logs[1].payload, b"33".to_vec());
}

#[test]
fn cleaner_batches_keys_in_order() {
    let keys: Vec<Vec<u8>> = (0u8..7).map(|b| vec![b]).collect();
    let ctx = CleanContext { scan_timeout_ms: 1000, batch_size: 3 };
    let batches = clean_logs_batches(&keys, &ctx);
    assert_eq!(batches.len(), 3);
    assert_eq!(batches[0], vec![vec![0u8], vec![1], vec![2]]);
    assert_eq!(batches[1], vec![vec![3u8], vec![4], vec![5]]);
    assert_eq!(batches[2], vec![vec![6u8]]);
    let empty = clean_logs_batches(&Vec::new(), &ctx);
    assert!(empty.is_empty());
}
