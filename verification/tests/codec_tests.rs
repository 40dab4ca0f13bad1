//! Tests of the byte codecs: the internal key codec and the contiguous row
//! codec.

use analytic_core::bytesenc::{u64_to_be_bytes, u64_from_be_bytes, u32_to_be_bytes};
use analytic_core::memkey::{
    KeySequence, SequenceCodec, BytewiseComparator, ComparableInternalKey, internal_key_for_seek,
    user_key_for_seek, user_key_from_internal_key, compare_bytes,
};
use analytic_core::row::{
    Datum, DatumKind, Row, Schema, IndexInWriterSchema, BitSet, byte_size_of_datum,
};
use analytic_core::rowcodec::{
    ContiguousRowWriter, ContiguousRowReader, ContiguousRow, ProjectedContiguousRow, RowProjector,
    MAX_STRING_LEN,
};

#[test]
fn be_bytes_exact_values() {
    assert_eq!(u64_to_be_bytes(0x0102_0304_0506_0708), vec![1, 2, 3, 4, 5, 6, 7, 8]);
    assert_eq!(u32_to_be_bytes(258), vec![0, 0, 1, 2]);
    assert_eq!(u64_from_be_bytes(&[0, 0, 0, 0, 0, 0, 1, 2]), 258);
}

#[test]
fn test_sequence_codec() {
    let codec = SequenceCodec;

    let sequence = KeySequence::new(123, 456);
    assert_eq!(12, codec.estimate_encoded_size(&sequence));
    let mut buf = Vec::new();
    codec.encode(&mut buf, &sequence);
    assert_eq!(12, buf.len());

    let decoded_sequence = codec.decode(&buf).unwrap();

    assert_eq!(sequence, decoded_sequence);
}

#[test]
fn key_sequences_order_newest_first() {
    // Same user key: the higher sequence encodes lexicographically lower.
    let mut newer = Vec::new();
    internal_key_for_seek(b"key", 9, &mut newer);
    let mut older = Vec::new();
    internal_key_for_seek(b"key", 3, &mut older);
    assert!(newer < older);

    // Same sequence: the higher row index encodes lower.
    let codec = SequenceCodec;
    let mut a = Vec::new();
    codec.encode(&mut a, &KeySequence::new(5, 8));
    let mut b = Vec::new();
    codec.encode(&mut b, &KeySequence::new(5, 2));
    assert!(a < b);
}

#[test]
fn internal_key_splits_back() {
    let codec = SequenceCodec;
    let mut key = b"user".to_vec();
    codec.encode(&mut key, &KeySequence::new(77, 3));
    let (user_key, ks) = user_key_from_internal_key(&key).unwrap();
    assert_eq!(user_key, b"user");
    assert_eq!(ks, KeySequence::new(77, 3));
    assert_eq!(ks.sequence(), 77);
    assert_eq!(ks.row_index(), 3);
}

#[test]
fn short_internal_key_is_rejected() {
    assert!(matches!(
        user_key_from_internal_key(&[0u8; 12]),
        Err(analytic_core::memkey::Error::InternalKeyLen { len: 12 })
    ));
    assert!(matches!(
        SequenceCodec.decode(&[0u8; 7]),
        Err(analytic_core::memkey::Error::DecodeSequence)
    ));
    assert!(matches!(
        SequenceCodec.decode(&[0u8; 10]),
        Err(analytic_core::memkey::Error::DecodeIndex)
    ));
}

#[test]
fn bytewise_comparator_orders_keys() {
    let cmp = BytewiseComparator;
    assert_eq!(cmp.compare_key(b"a", b"b"), std::cmp::Ordering::Less);
    assert_eq!(cmp.compare_key(b"b", b"a"), std::cmp::Ordering::Greater);
    assert_eq!(cmp.compare_key(b"ab", b"ab"), std::cmp::Ordering::Equal);
    assert_eq!(cmp.compare_key(b"a", b"ab"), std::cmp::Ordering::Less);
    assert!(cmp.same_key(b"xyz", b"xyz"));
    assert!(!cmp.same_key(b"xyz", b"xy"));
    let mut scratch = Vec::new();
    user_key_for_seek(b"xyz", &mut scratch);
    assert_eq!(compare_bytes(&scratch, b"xyz"), std::cmp::Ordering::Equal);
}

fn build_schema() -> Schema {
    Schema::new(
        vec![
            DatumKind::String,
            DatumKind::Timestamp,
            DatumKind::UInt64,
            DatumKind::Int32,
            DatumKind::Boolean,
            DatumKind::Varbinary,
        ],
        vec![0, 1],
    )
    .unwrap()
}

fn build_rows() -> Vec<Row> {
    vec![
        Row::from_datums(vec![
            Datum::String(b"alpha".to_vec()),
            Datum::Timestamp(1000),
            Datum::UInt64(42),
            Datum::Int32(-7),
            Datum::Boolean(true),
            Datum::Varbinary(vec![9, 8, 7]),
        ]),
        Row::from_datums(vec![
            Datum::String(b"beta".to_vec()),
            Datum::Timestamp(2000),
            Datum::UInt64(0),
            Datum::Null,
            Datum::Boolean(false),
            Datum::Null,
        ]),
        Row::from_datums(vec![
            Datum::String(Vec::new()),
            Datum::Timestamp(-5),
            Datum::UInt64(u64::MAX),
            Datum::Int32(i32::MAX),
            Datum::Boolean(false),
            Datum::Varbinary(Vec::new()),
        ]),
    ]
}

fn check_contiguous_row<R: ContiguousRow>(row: &Row, reader: &R, projection: Option<Vec<usize>>) {
    let range = match projection {
        Some(projection) => projection,
        None => (0..reader.num_datum_views()).collect(),
    };
    for i in range {
        let datum = row.col(i);
        let view = reader.datum_view_at(i);
        assert!(datum.as_view().same(&view));
    }
}

#[test]
fn test_contiguous_read_write() {
    let schema = build_schema();
    let rows = build_rows();
    let index_in_writer = IndexInWriterSchema::for_same_schema(schema.num_columns());

    let mut buf = Vec::new();
    for row in &rows {
        let writer = ContiguousRowWriter::new(&schema, &index_in_writer);

        writer.write_row(&mut buf, row).unwrap();

        let reader = ContiguousRowReader::try_new(&buf, &schema).unwrap();
        check_contiguous_row(row, &reader, None);
    }
}

#[test]
fn test_project_contiguous_read_write() {
    let schema = build_schema();
    assert!(schema.num_columns() > 1);
    let projection: Vec<usize> = (0..schema.num_columns() - 1).collect();
    let source_projection: Vec<Option<usize>> = projection.iter().map(|i| Some(*i)).collect();
    let row_projector = RowProjector::from_projection(source_projection);
    let rows = build_rows();
    let index_in_writer = IndexInWriterSchema::for_same_schema(schema.num_columns());

    let mut buf = Vec::new();
    for row in &rows {
        let writer = ContiguousRowWriter::new(&schema, &index_in_writer);

        writer.write_row(&mut buf, row).unwrap();

        let source_row = ContiguousRowReader::try_new(&buf, &schema).unwrap();
        let projected_row = ProjectedContiguousRow::new(source_row, &row_projector);
        check_contiguous_row(row, &projected_row, Some(projection.clone()));
    }
}

#[test]
fn oversized_string_fails_write() {
    let schema = Schema::new(vec![DatumKind::String], vec![0]).unwrap();
    let index_in_writer = IndexInWriterSchema::for_same_schema(1);
    let writer = ContiguousRowWriter::new(&schema, &index_in_writer);
    let row = Row::from_datums(vec![Datum::String(vec![b'x'; 17 * 1024 * 1024])]);
    let mut buf = Vec::new();
    let result = writer.write_row(&mut buf, &row);
    assert!(matches!(
        result,
        Err(analytic_core::rowcodec::Error::StringTooLong { len }) if len == 17 * 1024 * 1024
    ));
    assert!(17 * 1024 * 1024 > MAX_STRING_LEN);
}

#[test]
fn reader_rejects_truncated_buffers() {
    let schema = Schema::new(vec![DatumKind::UInt64], vec![0]).unwrap();
    assert!(matches!(
        ContiguousRowReader::try_new(&[0u8; 3], &schema),
        Err(analytic_core::rowcodec::Error::NumNullColsMissing)
    ));
    // A with-nulls header announcing one column needs one bitset byte.
    let mut buf = vec![1u8, 0, 0, 0];
    assert!(matches!(
        ContiguousRowReader::try_new(&buf, &schema),
        Err(analytic_core::rowcodec::Error::InvalidBitSetBytes { expect_len: 1, given_len: 0 })
    ));
    buf.push(0);
    assert!(ContiguousRowReader::try_new(&buf, &schema).is_ok());
}

#[test]
fn datum_sizes_are_fixed() {
    assert_eq!(byte_size_of_datum(&DatumKind::Null), 2);
    assert_eq!(byte_size_of_datum(&DatumKind::Timestamp), 9);
    assert_eq!(byte_size_of_datum(&DatumKind::String), 5);
    assert_eq!(byte_size_of_datum(&DatumKind::UInt16), 3);
    assert_eq!(byte_size_of_datum(&DatumKind::Boolean), 2);
}

#[test]
fn schema_rejects_bad_key_columns() {
    assert!(Schema::new(vec![DatumKind::UInt64], vec![1]).is_none());
    assert!(Schema::new(vec![DatumKind::UInt64], vec![0]).is_some());
}

#[test]
fn bitset_tracks_bits() {
    let mut bits = BitSet::new(10);
    assert_eq!(BitSet::num_bytes(10), 2);
    assert_eq!(bits.is_set(3), Some(false));
    bits.set(3);
    bits.set(9);
    assert_eq!(bits.is_set(3), Some(true));
    assert_eq!(bits.is_set(9), Some(true));
    assert_eq!(bits.is_set(4), Some(false));
    assert_eq!(bits.is_set(10), None);
    let raw = bits.as_bytes().clone();
    let rebuilt = BitSet::try_from_raw(raw, 10).unwrap();
    assert_eq!(rebuilt.is_set(9), Some(true));
    assert!(BitSet::try_from_raw(vec![0u8; 1], 10).is_none());
}

#[test]
fn comparable_internal_keys_order_by_key_then_sequence() {
    let schema = Schema::new(vec![DatumKind::String, DatumKind::UInt64], vec![0]).unwrap();
    let row_a = Row::from_datums(vec![Datum::String(b"a".to_vec()), Datum::UInt64(1)]);
    let row_b = Row::from_datums(vec![Datum::String(b"b".to_vec()), Datum::UInt64(2)]);

    let mut a_new = Vec::new();
    ComparableInternalKey::new(KeySequence::new(9, 0), &schema).encode(&mut a_new, &row_a);
    let mut a_old = Vec::new();
    ComparableInternalKey::new(KeySequence::new(3, 0), &schema).encode(&mut a_old, &row_a);
    let mut b_old = Vec::new();
    ComparableInternalKey::new(KeySequence::new(3, 0), &schema).encode(&mut b_old, &row_b);

    // User keys ascend; within one user key, sequences descend.
    assert!(a_new < a_old);
    assert!(a_old < b_old);

    let estimate = ComparableInternalKey::new(KeySequence::new(9, 0), &schema)
        .estimate_encoded_size(&row_a);
    assert!(estimate >= 12);
}

#[test]
fn escaped_key_bytes_terminate_unambiguously() {
    // A key datum holding a zero byte escapes it, so the terminator never
    // collides with content.
    let schema = Schema::new(vec![DatumKind::Varbinary], vec![0]).unwrap();
    let with_zero = Row::from_datums(vec![Datum::Varbinary(vec![0u8])]);
    let empty = Row::from_datums(vec![Datum::Varbinary(Vec::new())]);
    let mut a = Vec::new();
    ComparableInternalKey::new(KeySequence::new(1, 0), &schema).encode(&mut a, &with_zero);
    let mut b = Vec::new();
    ComparableInternalKey::new(KeySequence::new(1, 0), &schema).encode(&mut b, &empty);
    assert_eq!(&a[..4], &[0, 0xff, 0, 1]);
    assert_eq!(&b[..2], &[0, 1]);
    // The empty key sorts below the zero-byte key.
    assert!(b < a);
}

#[test]
fn escaped_keys_of_distinct_strings_order_by_key_alone() {
    // One user key a strict prefix of the other: the escaped encoding keeps
    // them apart, so the key decides before the sequences do.
    let schema = Schema::new(vec![DatumKind::String], vec![0]).unwrap();
    let row_a = Row::from_datums(vec![Datum::String(b"a".to_vec())]);
    let row_ab = Row::from_datums(vec![Datum::String(b"ab".to_vec())]);

    // The shorter key with the OLDEST sequence still sorts below the longer
    // key with the newest one.
    let mut a_old = Vec::new();
    ComparableInternalKey::new(KeySequence::new(0, 0), &schema).encode(&mut a_old, &row_a);
    let mut ab_new = Vec::new();
    ComparableInternalKey::new(KeySequence::new(u64::MAX, u32::MAX), &schema)
        .encode(&mut ab_new, &row_ab);
    assert!(a_old < ab_new);
}

#[test]
fn encoded_row_layout_matches_form() {
    let schema = Schema::new(vec![DatumKind::UInt8, DatumKind::UInt8], vec![0]).unwrap();
    let index_in_writer = IndexInWriterSchema::for_same_schema(2);
    let writer = ContiguousRowWriter::new(&schema, &index_in_writer);
    let mut buf = Vec::new();

    // No nulls: a zero header word, then the two fixed datums.
    let full = Row::from_datums(vec![Datum::UInt8(1), Datum::UInt8(2)]);
    writer.write_row(&mut buf, &full).unwrap();
    assert_eq!(&buf[..4], &[0, 0, 0, 0]);
    assert_eq!(buf.len(), 4 + 2 + 2);

    // One null: the column count, a bitset with exactly the present bit
    // set, and only the present datum in the fixed area.
    let partial = Row::from_datums(vec![Datum::UInt8(1), Datum::Null]);
    writer.write_row(&mut buf, &partial).unwrap();
    assert_eq!(&buf[..4], &[2, 0, 0, 0]);
    assert_eq!(buf[4], 1);
    assert_eq!(buf.len(), 4 + 1 + 2);
}
