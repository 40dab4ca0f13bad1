//! The contiguous row codec.
//!
//! A row is serialized into one byte buffer. With no null columns the layout
//! is `[u32 zero][fixed datum area][string heap]`; with nulls it is
//! `[u32 column count][present bitset][fixed datum area][string heap]`,
//! where only present, non-null columns occupy fixed-area bytes. Each fixed
//! datum is a one-byte kind tag followed by its little-endian payload;
//! variable-length datums store a 4-byte offset into the string heap, which
//! holds `[u32 length][bytes]`.

use vstd::prelude::*;
use vstd::bytes::{
    spec_u16_to_le_bytes, spec_u16_from_le_bytes, spec_u32_to_le_bytes, spec_u32_from_le_bytes,
    spec_u64_to_le_bytes, spec_u64_from_le_bytes, u16_to_le_bytes, u16_from_le_bytes,
    u32_to_le_bytes, u32_from_le_bytes, u64_to_le_bytes, u64_from_le_bytes,
    lemma_auto_spec_u16_to_from_le_bytes, lemma_auto_spec_u32_to_from_le_bytes,
    lemma_auto_spec_u64_to_from_le_bytes,
};
use vstd::slice::slice_subrange;
use crate::row::{
    Datum, DatumKind, DatumView, AbstractDatum, Schema, IndexInWriterSchema, Row, BitSet,
    spec_kind_tag, spec_kind_of_tag, spec_datum_kind, spec_byte_size_of_datum, spec_var_len,
    abs_of_datum, abs_of_view, spec_bit, spec_offsets_sum, byte_size_of_datum,
};

verus! {

/// How the row codec fails.
#[derive(Debug, Clone, Copy, PartialEq, Eq, Structural)]
pub enum Error {
    /// A string exceeds the per-string limit, or the heap offset left the
    /// per-row limit behind; `len` is the offending length or offset.
    StringTooLong { len: usize },
    /// The whole row exceeds the per-row limit.
    RowTooLong { len: usize },
    /// The buffer ends before the 4-byte column-count header.
    NumNullColsMissing,
    /// The buffer ends inside the present bitset.
    InvalidBitSetBytes { expect_len: usize, given_len: usize },
}

/// Longest string datum a contiguous row may hold: 16 MiB.
pub const MAX_STRING_LEN: usize = 1024 * 1024 * 16;

/// Longest contiguous row: 1 GiB.
pub const MAX_ROW_LEN: usize = 1024 * 1024 * 1024;

/// The little-endian payload of a non-null datum's fixed part. A
/// variable-length datum stores `heap_offset` instead of its bytes.
pub open spec fn spec_fixed_payload(d: Datum, heap_offset: u32) -> Seq<u8> {
    match d {
        Datum::Null => Seq::empty(),
        Datum::Timestamp(v) => spec_u64_to_le_bytes(v as u64),
        Datum::Varbinary(_) => spec_u32_to_le_bytes(heap_offset),
        Datum::String(_) => spec_u32_to_le_bytes(heap_offset),
        Datum::UInt64(v) => spec_u64_to_le_bytes(v),
        Datum::UInt32(v) => spec_u32_to_le_bytes(v),
        Datum::UInt16(v) => spec_u16_to_le_bytes(v),
        Datum::UInt8(v) => seq![v],
        Datum::Int64(v) => spec_u64_to_le_bytes(v as u64),
        Datum::Int32(v) => spec_u32_to_le_bytes(v as u32),
        Datum::Int16(v) => spec_u16_to_le_bytes(v as u16),
        Datum::Int8(v) => seq![v as u8],
        Datum::Boolean(v) => seq![if v { 1u8 } else { 0u8 }],
        Datum::Date(v) => spec_u32_to_le_bytes(v as u32),
        Datum::Time(v) => spec_u64_to_le_bytes(v as u64),
    }
}

/// The full fixed part of a non-null datum: tag byte, then payload.
pub open spec fn spec_datum_fixed(d: Datum, heap_offset: u32) -> Seq<u8> {
    seq![spec_kind_tag(spec_datum_kind(d))] + spec_fixed_payload(d, heap_offset)
}

/// What a datum adds to the string heap: its length and bytes for
/// variable-length datums, nothing otherwise.
pub open spec fn spec_heap_part(d: Datum) -> Seq<u8> {
    match d {
        Datum::Varbinary(v) => spec_u32_to_le_bytes(v@.len() as u32) + v@,
        Datum::String(v) => spec_u32_to_le_bytes(v@.len() as u32) + v@,
        _ => Seq::empty(),
    }
}

/// Whether table column `i` is written: the writer's row supplies it and the
/// supplied datum is not null.
pub open spec fn spec_present(iw: Seq<Option<usize>>, cols: Seq<Datum>, i: int) -> bool {
    match iw[i] {
        Some(j) => !(cols[j as int] is Null),
        None => false,
    }
}

/// The value column `i` must read back as.
pub open spec fn spec_expected(iw: Seq<Option<usize>>, cols: Seq<Datum>, i: int) -> AbstractDatum {
    match iw[i] {
        Some(j) => abs_of_datum(cols[j as int]),
        None => AbstractDatum::Null,
    }
}

/// Heap bytes contributed by the columns before `i`.
pub open spec fn spec_heap_len_before(iw: Seq<Option<usize>>, cols: Seq<Datum>, i: int) -> int
    decreases i,
{
    if i <= 0 {
        0
    } else {
        spec_heap_len_before(iw, cols, i - 1) + (match iw[i - 1] {
            Some(j) => spec_heap_part(cols[j as int]).len(),
            None => 0,
        })
    }
}

/// Fixed-area bytes of the present columns before `i`: where column `i`'s
/// fixed part begins when absent columns take no space.
pub open spec fn spec_present_bytes_before(
    kinds: Seq<DatumKind>,
    iw: Seq<Option<usize>>,
    cols: Seq<Datum>,
    i: int,
) -> int
    decreases i,
{
    if i <= 0 {
        0
    } else {
        spec_present_bytes_before(kinds, iw, cols, i - 1) + (if spec_present(iw, cols, i - 1) {
            spec_byte_size_of_datum(kinds[i - 1])
        } else {
            0
        })
    }
}

/// The first write failure among the columns before `n`, if any: the heap
/// offset that left the row limit, or the length of an oversized string.
pub open spec fn spec_write_failure(
    iw: Seq<Option<usize>>,
    cols: Seq<Datum>,
    fixed_end: int,
    n: int,
) -> Option<int>
    decreases n,
{
    if n <= 0 {
        None
    } else {
        match spec_write_failure(iw, cols, fixed_end, n - 1) {
            Some(l) => Some(l),
            None => {
                match iw[n - 1] {
                    Some(j) => {
                        let d = cols[j as int];
                        if d is Varbinary || d is String {
                            let off = fixed_end + spec_heap_len_before(iw, cols, n - 1);
                            if off > MAX_ROW_LEN {
                                Some(off)
                            } else if spec_var_len(d) > MAX_STRING_LEN {
                                Some(spec_var_len(d) as int)
                            } else {
                                None
                            }
                        } else {
                            None
                        }
                    },
                    None => None,
                }
            },
        }
    }
}

/// What a reader finds for a datum of `kind` whose payload starts `dbuf`,
/// resolving heap offsets inside the whole row buffer `sbuf`.
pub open spec fn spec_read_view(kind: DatumKind, dbuf: Seq<u8>, sbuf: Seq<u8>) -> AbstractDatum {
    match kind {
        DatumKind::Null => AbstractDatum::Null,
        DatumKind::Timestamp => AbstractDatum::Timestamp(
            spec_u64_from_le_bytes(dbuf.take(8)) as i64,
        ),
        DatumKind::Varbinary => AbstractDatum::Varbinary(spec_read_heap_bytes(dbuf, sbuf)),
        DatumKind::String => AbstractDatum::String(spec_read_heap_bytes(dbuf, sbuf)),
        DatumKind::UInt64 => AbstractDatum::UInt64(spec_u64_from_le_bytes(dbuf.take(8))),
        DatumKind::UInt32 => AbstractDatum::UInt32(spec_u32_from_le_bytes(dbuf.take(4))),
        DatumKind::UInt16 => AbstractDatum::UInt16(spec_u16_from_le_bytes(dbuf.take(2))),
        DatumKind::UInt8 => AbstractDatum::UInt8(dbuf[0]),
        DatumKind::Int64 => AbstractDatum::Int64(spec_u64_from_le_bytes(dbuf.take(8)) as i64),
        DatumKind::Int32 => AbstractDatum::Int32(spec_u32_from_le_bytes(dbuf.take(4)) as i32),
        DatumKind::Int16 => AbstractDatum::Int16(spec_u16_from_le_bytes(dbuf.take(2)) as i16),
        DatumKind::Int8 => AbstractDatum::Int8(dbuf[0] as i8),
        DatumKind::Boolean => AbstractDatum::Boolean(dbuf[0] != 0),
        DatumKind::Date => AbstractDatum::Date(spec_u32_from_le_bytes(dbuf.take(4)) as i32),
        DatumKind::Time => AbstractDatum::Time(spec_u64_from_le_bytes(dbuf.take(8)) as i64),
    }
}

/// The heap bytes a variable-length datum refers to: its stored offset
/// points at a length-prefixed byte string inside `sbuf`.
pub open spec fn spec_read_heap_bytes(dbuf: Seq<u8>, sbuf: Seq<u8>) -> Seq<u8> {
    let off = spec_u32_from_le_bytes(dbuf.take(4)) as int;
    let len = spec_u32_from_le_bytes(sbuf.subrange(off, off + 4)) as int;
    sbuf.subrange(off + 4, off + 4 + len)
}

/// Whether a datum of `kind` can be read at the start of `dbuf` without
/// running out of `dbuf` or, for heap offsets, out of `sbuf`.
pub open spec fn spec_view_readable(kind: DatumKind, dbuf: Seq<u8>, sbuf: Seq<u8>) -> bool {
    match kind {
        DatumKind::Null => true,
        DatumKind::Timestamp | DatumKind::UInt64 | DatumKind::Int64 | DatumKind::Time => dbuf.len()
            >= 8,
        DatumKind::UInt32 | DatumKind::Int32 | DatumKind::Date => dbuf.len() >= 4,
        DatumKind::UInt16 | DatumKind::Int16 => dbuf.len() >= 2,
        DatumKind::UInt8 | DatumKind::Int8 | DatumKind::Boolean => dbuf.len() >= 1,
        DatumKind::Varbinary | DatumKind::String => dbuf.len() >= 4 && {
            let off = spec_u32_from_le_bytes(dbuf.take(4)) as int;
            &&& off + 4 <= sbuf.len()
            &&& off + 4 + spec_u32_from_le_bytes(sbuf.subrange(off, off + 4)) <= sbuf.len()
        },
    }
}

/// Read one datum of `kind` from the start of `datum_buf`, resolving heap
/// offsets inside `string_buf`.
pub fn must_read_view(kind: &DatumKind, datum_buf: &[u8], string_buf: &[u8]) -> (r: DatumView)
    requires
        spec_view_readable(*kind, datum_buf@, string_buf@),
    ensures
        abs_of_view(r) == spec_read_view(*kind, datum_buf@, string_buf@),
{
    proof {
        lemma_auto_spec_u16_to_from_le_bytes();
        lemma_auto_spec_u32_to_from_le_bytes();
        lemma_auto_spec_u64_to_from_le_bytes();
    }
    match kind {
        DatumKind::Null => DatumView::Null,
        DatumKind::Timestamp => {
            let v = u64_from_le_bytes(slice_subrange(datum_buf, 0, 8));
            proof {
                assert(datum_buf@.subrange(0, 8) =~= datum_buf@.take(8));
            }
            DatumView::Timestamp(v as i64)
        },
        DatumKind::Varbinary => DatumView::Varbinary(must_read_bytes(datum_buf, string_buf)),
        DatumKind::String => DatumView::String(must_read_bytes(datum_buf, string_buf)),
        DatumKind::UInt64 => {
            let v = u64_from_le_bytes(slice_subrange(datum_buf, 0, 8));
            proof {
                assert(datum_buf@.subrange(0, 8) =~= datum_buf@.take(8));
            }
            DatumView::UInt64(v)
        },
        DatumKind::UInt32 => {
            let v = u32_from_le_bytes(slice_subrange(datum_buf, 0, 4));
            proof {
                assert(datum_buf@.subrange(0, 4) =~= datum_buf@.take(4));
            }
            DatumView::UInt32(v)
        },
        DatumKind::UInt16 => {
            let v = u16_from_le_bytes(slice_subrange(datum_buf, 0, 2));
            proof {
                assert(datum_buf@.subrange(0, 2) =~= datum_buf@.take(2));
            }
            DatumView::UInt16(v)
        },
        DatumKind::UInt8 => DatumView::UInt8(*vstd::slice::slice_index_get(datum_buf, 0)),
        DatumKind::Int64 => {
            let v = u64_from_le_bytes(slice_subrange(datum_buf, 0, 8));
            proof {
                assert(datum_buf@.subrange(0, 8) =~= datum_buf@.take(8));
            }
            DatumView::Int64(v as i64)
        },
        DatumKind::Int32 => {
            let v = u32_from_le_bytes(slice_subrange(datum_buf, 0, 4));
            proof {
                assert(datum_buf@.subrange(0, 4) =~= datum_buf@.take(4));
            }
            DatumView::Int32(v as i32)
        },
        DatumKind::Int16 => {
            let v = u16_from_le_bytes(slice_subrange(datum_buf, 0, 2));
            proof {
                assert(datum_buf@.subrange(0, 2) =~= datum_buf@.take(2));
            }
            DatumView::Int16(v as i16)
        },
        DatumKind::Int8 => {
            let b = *vstd::slice::slice_index_get(datum_buf, 0);
            DatumView::Int8(b as i8)
        },
        DatumKind::Boolean => {
            let b = *vstd::slice::slice_index_get(datum_buf, 0);
            DatumView::Boolean(b != 0)
        },
        DatumKind::Date => {
            let v = u32_from_le_bytes(slice_subrange(datum_buf, 0, 4));
            proof {
                assert(datum_buf@.subrange(0, 4) =~= datum_buf@.take(4));
            }
            DatumView::Date(v as i32)
        },
        DatumKind::Time => {
            let v = u64_from_le_bytes(slice_subrange(datum_buf, 0, 8));
            proof {
                assert(datum_buf@.subrange(0, 8) =~= datum_buf@.take(8));
            }
            DatumView::Time(v as i64)
        },
    }
}

/// Follow a heap offset at the start of `datum_buf` to the length-prefixed
/// byte string it points at inside `string_buf`.
pub fn must_read_bytes(datum_buf: &[u8], string_buf: &[u8]) -> (r: Vec<u8>)
    requires
        datum_buf@.len() >= 4,
        spec_u32_from_le_bytes(datum_buf@.take(4)) + 4 <= string_buf@.len(),
        spec_u32_from_le_bytes(datum_buf@.take(4)) + 4 + spec_u32_from_le_bytes(
            string_buf@.subrange(
                spec_u32_from_le_bytes(datum_buf@.take(4)) as int,
                spec_u32_from_le_bytes(datum_buf@.take(4)) + 4,
            ),
        ) <= string_buf@.len(),
    ensures
        r@ == spec_read_heap_bytes(datum_buf@, string_buf@),
{
    proof {
        assert(datum_buf@.subrange(0, 4) =~= datum_buf@.take(4));
    }
    let total = string_buf.len();
    let offset = u32_from_le_bytes(slice_subrange(datum_buf, 0, 4)) as usize;
    let len_slice = slice_subrange(string_buf, offset, offset + 4);
    let string_len = u32_from_le_bytes(len_slice) as usize;
    let mut r: Vec<u8> = Vec::new();
    r.extend_from_slice(slice_subrange(string_buf, offset + 4, offset + 4 + string_len));
    proof {
        assert(r@ =~= spec_read_heap_bytes(datum_buf@, string_buf@));
    }
    r
}

/// Round trips between signed values and their unsigned bit patterns.
proof fn lemma_signed_casts()
    ensures
        forall|x: i64| #[trigger] ((x as u64) as i64) == x,
        forall|x: i32| #[trigger] ((x as u32) as i32) == x,
        forall|x: i16| #[trigger] ((x as u16) as i16) == x,
        forall|x: i8| #[trigger] ((x as u8) as i8) == x,
{
    assert forall|x: i64| #[trigger] ((x as u64) as i64) == x by {
        assert((x as u64) as i64 == x) by (bit_vector);
    }
    assert forall|x: i32| #[trigger] ((x as u32) as i32) == x by {
        assert((x as u32) as i32 == x) by (bit_vector);
    }
    assert forall|x: i16| #[trigger] ((x as u16) as i16) == x by {
        assert((x as u16) as i16 == x) by (bit_vector);
    }
    assert forall|x: i8| #[trigger] ((x as u8) as i8) == x by {
        assert((x as u8) as i8 == x) by (bit_vector);
    }
}

/// Reading back the fixed part and heap part a datum wrote gives the
/// datum's value: the per-datum round trip.
pub proof fn lemma_datum_round_trip(d: Datum, heap_offset: u32, dbuf: Seq<u8>, sbuf: Seq<u8>)
    requires
        !(d is Null),
        spec_datum_fixed(d, heap_offset).is_prefix_of(seq![
            spec_kind_tag(spec_datum_kind(d)),
        ] + dbuf),
        d is Varbinary || d is String ==> sbuf.subrange(
            heap_offset as int,
            heap_offset + spec_heap_part(d).len(),
        ) == spec_heap_part(d) && heap_offset + spec_heap_part(d).len() <= sbuf.len(),
        spec_var_len(d) <= u32::MAX,
    ensures
        spec_view_readable(spec_datum_kind(d), dbuf, sbuf),
        spec_read_view(spec_datum_kind(d), dbuf, sbuf) == abs_of_datum(d),
{
    lemma_auto_spec_u16_to_from_le_bytes();
    lemma_auto_spec_u32_to_from_le_bytes();
    lemma_auto_spec_u64_to_from_le_bytes();
    lemma_signed_casts();
    assert(forall|x: u16| (#[trigger] spec_u16_to_le_bytes(x)).len() == 4 - 2);
    assert(forall|x: u32| (#[trigger] spec_u32_to_le_bytes(x)).len() == 4);
    assert(forall|x: u64| (#[trigger] spec_u64_to_le_bytes(x)).len() == 8);
    let fixed = spec_datum_fixed(d, heap_offset);
    let payload = spec_fixed_payload(d, heap_offset);
    assert(payload.len() == fixed.len() - 1);
    assert forall|k: int| 0 <= k < payload.len() implies dbuf[k] == payload[k] by {
        assert(fixed[k + 1] == (seq![spec_kind_tag(spec_datum_kind(d))] + dbuf)[k + 1]);
    }
    match d {
        Datum::Null => {},
        Datum::Timestamp(v) => {
            assert(dbuf.take(8) =~= spec_u64_to_le_bytes(v as u64));
        },
        Datum::Varbinary(bytes) => {
            assert(dbuf.take(4) =~= spec_u32_to_le_bytes(heap_offset));
            lemma_heap_round_trip(bytes@, heap_offset, dbuf, sbuf);
        },
        Datum::String(bytes) => {
            assert(dbuf.take(4) =~= spec_u32_to_le_bytes(heap_offset));
            lemma_heap_round_trip(bytes@, heap_offset, dbuf, sbuf);
        },
        Datum::UInt64(v) => {
            assert(dbuf.take(8) =~= spec_u64_to_le_bytes(v));
        },
        Datum::UInt32(v) => {
            assert(dbuf.take(4) =~= spec_u32_to_le_bytes(v));
        },
        Datum::UInt16(v) => {
            assert(dbuf.take(2) =~= spec_u16_to_le_bytes(v));
        },
        Datum::UInt8(v) => {
            assert(dbuf[0] == payload[0]);
        },
        Datum::Int64(v) => {
            assert(dbuf.take(8) =~= spec_u64_to_le_bytes(v as u64));
        },
        Datum::Int32(v) => {
            assert(dbuf.take(4) =~= spec_u32_to_le_bytes(v as u32));
        },
        Datum::Int16(v) => {
            assert(dbuf.take(2) =~= spec_u16_to_le_bytes(v as u16));
        },
        Datum::Int8(v) => {
            assert(dbuf[0] == payload[0]);
        },
        Datum::Boolean(v) => {
            assert(dbuf[0] == payload[0]);
            if v {
                assert(dbuf[0] == 1u8);
            } else {
                assert(dbuf[0] == 0u8);
            }
        },
        Datum::Date(v) => {
            assert(dbuf.take(4) =~= spec_u32_to_le_bytes(v as u32));
        },
        Datum::Time(v) => {
            assert(dbuf.take(8) =~= spec_u64_to_le_bytes(v as u64));
        },
    }
}

/// The heap part written for `bytes` reads back as `bytes`.
proof fn lemma_heap_round_trip(bytes: Seq<u8>, heap_offset: u32, dbuf: Seq<u8>, sbuf: Seq<u8>)
    requires
        dbuf.len() >= 4,
        dbuf.take(4) == spec_u32_to_le_bytes(heap_offset),
        bytes.len() <= u32::MAX,
        sbuf.subrange(
            heap_offset as int,
            heap_offset + 4 + bytes.len(),
        ) == spec_u32_to_le_bytes(bytes.len() as u32) + bytes,
        heap_offset + 4 + bytes.len() <= sbuf.len(),
    ensures
        spec_view_readable(DatumKind::Varbinary, dbuf, sbuf),
        spec_view_readable(DatumKind::String, dbuf, sbuf),
        spec_read_heap_bytes(dbuf, sbuf) == bytes,
{
    lemma_auto_spec_u32_to_from_le_bytes();
    assert(spec_u32_to_le_bytes(heap_offset).len() == 4);
    assert(spec_u32_to_le_bytes(bytes.len() as u32).len() == 4);
    assert(spec_u32_from_le_bytes(spec_u32_to_le_bytes(heap_offset)) == heap_offset);
    let off = spec_u32_from_le_bytes(dbuf.take(4)) as int;
    assert(off == heap_offset as int);
    let part = spec_u32_to_le_bytes(bytes.len() as u32) + bytes;
    assert(sbuf.subrange(off, off + 4) =~= part.subrange(0, 4));
    assert(part.subrange(0, 4) =~= spec_u32_to_le_bytes(bytes.len() as u32));
    assert(spec_u32_from_le_bytes(sbuf.subrange(off, off + 4)) == bytes.len() as u32);
    assert forall|k: int| 0 <= k < bytes.len() implies sbuf.subrange(
        off + 4,
        off + 4 + bytes.len(),
    )[k] == bytes[k] by {
        assert(sbuf.subrange(heap_offset as int, heap_offset + 4 + bytes.len())[4 + k] == part[4
            + k]);
        assert(part[4 + k] == bytes[k]);
        assert(sbuf.subrange(heap_offset as int, heap_offset + 4 + bytes.len())[4 + k] == sbuf[off
            + 4 + k]);
    }
    assert(sbuf.subrange(off + 4, off + 4 + bytes.len()) =~= bytes);
}

/// Append the fixed part of one datum to `fixed` and its heap part to
/// `heap`. A null datum writes nothing. The string heap begins at
/// `fixed_end` in the final buffer, so a variable-length datum's offset is
/// `fixed_end` plus the heap bytes written so far; writing fails when that
/// offset has left the row limit or the payload exceeds the string limit.
pub fn write_datum(
    fixed: &mut Vec<u8>,
    heap: &mut Vec<u8>,
    datum: &Datum,
    fixed_end: usize,
) -> (r: Result<(), Error>)
    requires
        fixed_end + old(heap)@.len() + 8 + MAX_STRING_LEN <= usize::MAX,
    ensures
        ({
            let off = fixed_end + old(heap)@.len();
            let is_var = *datum is Varbinary || *datum is String;
            &&& (is_var && off > MAX_ROW_LEN) ==> r == Err::<(), Error>(
                Error::StringTooLong { len: off as usize },
            ) && *final(fixed) == *old(fixed) && *final(heap) == *old(heap)
            &&& (is_var && off <= MAX_ROW_LEN && spec_var_len(*datum) > MAX_STRING_LEN) ==> r
                == Err::<(), Error>(Error::StringTooLong { len: spec_var_len(*datum) as usize })
                && *final(fixed) == *old(fixed) && *final(heap) == *old(heap)
            &&& (!is_var || (off <= MAX_ROW_LEN && spec_var_len(*datum) <= MAX_STRING_LEN)) ==> r
                == Ok::<(), Error>(()) && final(fixed)@ == old(fixed)@ + (if *datum is Null {
                Seq::<u8>::empty()
            } else {
                spec_datum_fixed(*datum, off as u32)
            }) && final(heap)@ == old(heap)@ + spec_heap_part(*datum)
        }),
{
    let ghost old_fixed = fixed@;
    let ghost old_heap = heap@;
    match datum {
        Datum::Null => {
            proof {
                assert(fixed@ =~= old_fixed + Seq::<u8>::empty());
                assert(heap@ =~= old_heap + spec_heap_part(*datum));
            }
            Ok(())
        },
        Datum::Timestamp(v) => {
            fixed.push(DatumKind::Timestamp.into_u8());
            let b = u64_to_le_bytes(*v as u64);
            fixed.extend_from_slice(b.as_slice());
            proof {
                assert(fixed@ =~= old_fixed + spec_datum_fixed(
                    *datum,
                    (fixed_end + old_heap.len()) as u32,
                ));
                assert(heap@ =~= old_heap + spec_heap_part(*datum));
            }
            Ok(())
        },
        Datum::Varbinary(v) => write_var_datum(fixed, heap, v, fixed_end, true),
        Datum::String(v) => write_var_datum(fixed, heap, v, fixed_end, false),
        Datum::UInt64(v) => {
            fixed.push(DatumKind::UInt64.into_u8());
            let b = u64_to_le_bytes(*v);
            fixed.extend_from_slice(b.as_slice());
            proof {
                assert(fixed@ =~= old_fixed + spec_datum_fixed(
                    *datum,
                    (fixed_end + old_heap.len()) as u32,
                ));
                assert(heap@ =~= old_heap + spec_heap_part(*datum));
            }
            Ok(())
        },
        Datum::UInt32(v) => {
            fixed.push(DatumKind::UInt32.into_u8());
            let b = u32_to_le_bytes(*v);
            fixed.extend_from_slice(b.as_slice());
            proof {
                assert(fixed@ =~= old_fixed + spec_datum_fixed(
                    *datum,
                    (fixed_end + old_heap.len()) as u32,
                ));
                assert(heap@ =~= old_heap + spec_heap_part(*datum));
            }
            Ok(())
        },
        Datum::UInt16(v) => {
            fixed.push(DatumKind::UInt16.into_u8());
            let b = u16_to_le_bytes(*v);
            fixed.extend_from_slice(b.as_slice());
            proof {
                assert(fixed@ =~= old_fixed + spec_datum_fixed(
                    *datum,
                    (fixed_end + old_heap.len()) as u32,
                ));
                assert(heap@ =~= old_heap + spec_heap_part(*datum));
            }
            Ok(())
        },
        Datum::UInt8(v) => {
            fixed.push(DatumKind::UInt8.into_u8());
            fixed.push(*v);
            proof {
                assert(fixed@ =~= old_fixed + spec_datum_fixed(
                    *datum,
                    (fixed_end + old_heap.len()) as u32,
                ));
                assert(heap@ =~= old_heap + spec_heap_part(*datum));
            }
            Ok(())
        },
        Datum::Int64(v) => {
            fixed.push(DatumKind::Int64.into_u8());
            let b = u64_to_le_bytes(*v as u64);
            fixed.extend_from_slice(b.as_slice());
            proof {
                assert(fixed@ =~= old_fixed + spec_datum_fixed(
                    *datum,
                    (fixed_end + old_heap.len()) as u32,
                ));
                assert(heap@ =~= old_heap + spec_heap_part(*datum));
            }
            Ok(())
        },
        Datum::Int32(v) => {
            fixed.push(DatumKind::Int32.into_u8());
            let b = u32_to_le_bytes(*v as u32);
            fixed.extend_from_slice(b.as_slice());
            proof {
                assert(fixed@ =~= old_fixed + spec_datum_fixed(
                    *datum,
                    (fixed_end + old_heap.len()) as u32,
                ));
                assert(heap@ =~= old_heap + spec_heap_part(*datum));
            }
            Ok(())
        },
        Datum::Int16(v) => {
            fixed.push(DatumKind::Int16.into_u8());
            let b = u16_to_le_bytes(*v as u16);
            fixed.extend_from_slice(b.as_slice());
            proof {
                assert(fixed@ =~= old_fixed + spec_datum_fixed(
                    *datum,
                    (fixed_end + old_heap.len()) as u32,
                ));
                assert(heap@ =~= old_heap + spec_heap_part(*datum));
            }
            Ok(())
        },
        Datum::Int8(v) => {
            fixed.push(DatumKind::Int8.into_u8());
            fixed.push(*v as u8);
            proof {
                assert(fixed@ =~= old_fixed + spec_datum_fixed(
                    *datum,
                    (fixed_end + old_heap.len()) as u32,
                ));
                assert(heap@ =~= old_heap + spec_heap_part(*datum));
            }
            Ok(())
        },
        Datum::Boolean(v) => {
            fixed.push(DatumKind::Boolean.into_u8());
            fixed.push(if *v {
                1
            } else {
                0
            });
            proof {
                assert(fixed@ =~= old_fixed + spec_datum_fixed(
                    *datum,
                    (fixed_end + old_heap.len()) as u32,
                ));
                assert(heap@ =~= old_heap + spec_heap_part(*datum));
            }
            Ok(())
        },
        Datum::Date(v) => {
            fixed.push(DatumKind::Date.into_u8());
            let b = u32_to_le_bytes(*v as u32);
            fixed.extend_from_slice(b.as_slice());
            proof {
                assert(fixed@ =~= old_fixed + spec_datum_fixed(
                    *datum,
                    (fixed_end + old_heap.len()) as u32,
                ));
                assert(heap@ =~= old_heap + spec_heap_part(*datum));
            }
            Ok(())
        },
        Datum::Time(v) => {
            fixed.push(DatumKind::Time.into_u8());
            let b = u64_to_le_bytes(*v as u64);
            fixed.extend_from_slice(b.as_slice());
            proof {
                assert(fixed@ =~= old_fixed + spec_datum_fixed(
                    *datum,
                    (fixed_end + old_heap.len()) as u32,
                ));
                assert(heap@ =~= old_heap + spec_heap_part(*datum));
            }
            Ok(())
        },
    }
}

/// The variable-length arm of `write_datum`: offset into the fixed area,
/// length and bytes into the heap.
fn write_var_datum(
    fixed: &mut Vec<u8>,
    heap: &mut Vec<u8>,
    v: &Vec<u8>,
    fixed_end: usize,
    binary: bool,
) -> (r: Result<(), Error>)
    requires
        fixed_end + old(heap)@.len() + 8 + MAX_STRING_LEN <= usize::MAX,
    ensures
        ({
            let off = fixed_end + old(heap)@.len();
            let d = if binary {
                Datum::Varbinary(*v)
            } else {
                Datum::String(*v)
            };
            &&& off > MAX_ROW_LEN ==> r == Err::<(), Error>(
                Error::StringTooLong { len: off as usize },
            ) && *final(fixed) == *old(fixed) && *final(heap) == *old(heap)
            &&& (off <= MAX_ROW_LEN && v@.len() > MAX_STRING_LEN) ==> r == Err::<(), Error>(
                Error::StringTooLong { len: v@.len() as usize },
            ) && *final(fixed) == *old(fixed) && *final(heap) == *old(heap)
            &&& (off <= MAX_ROW_LEN && v@.len() <= MAX_STRING_LEN) ==> r == Ok::<(), Error>(())
                && final(fixed)@ == old(fixed)@ + spec_datum_fixed(d, off as u32) && final(heap)@
                == old(heap)@ + spec_heap_part(d)
        }),
{
    let ghost old_fixed = fixed@;
    let ghost old_heap = heap@;
    let next_string_offset = fixed_end + heap.len();
    if next_string_offset > MAX_ROW_LEN {
        return Err(Error::StringTooLong { len: next_string_offset });
    }
    if v.len() > MAX_STRING_LEN {
        return Err(Error::StringTooLong { len: v.len() });
    }
    if binary {
        fixed.push(DatumKind::Varbinary.into_u8());
    } else {
        fixed.push(DatumKind::String.into_u8());
    }
    let off_bytes = u32_to_le_bytes(next_string_offset as u32);
    fixed.extend_from_slice(off_bytes.as_slice());
    let len_bytes = u32_to_le_bytes(v.len() as u32);
    heap.extend_from_slice(len_bytes.as_slice());
    heap.extend_from_slice(v.as_slice());
    proof {
        let d = if binary {
            Datum::Varbinary(*v)
        } else {
            Datum::String(*v)
        };
        assert(fixed@ =~= old_fixed + spec_datum_fixed(d, (fixed_end + old_heap.len()) as u32));
        assert(heap@ =~= old_heap + spec_heap_part(d));
    }
    Ok(())
}

/// How many of the table's columns the writer leaves null: columns the
/// writer does not supply, and supplied null datums.
pub open spec fn spec_num_nulls(iw: Seq<Option<usize>>, cols: Seq<Datum>, n: int) -> int
    decreases n,
{
    if n <= 0 {
        0
    } else {
        spec_num_nulls(iw, cols, n - 1) + (if spec_present(iw, cols, n - 1) {
            0int
        } else {
            1int
        })
    }
}

/// An established failure stays the first failure for any longer prefix.
pub proof fn lemma_failure_propagates(
    iw: Seq<Option<usize>>,
    cols: Seq<Datum>,
    fixed_end: int,
    m: int,
    n: int,
)
    requires
        0 <= m <= n,
        spec_write_failure(iw, cols, fixed_end, m) is Some,
    ensures
        spec_write_failure(iw, cols, fixed_end, n) == spec_write_failure(iw, cols, fixed_end, m),
    decreases n - m,
{
    if m < n {
        lemma_failure_propagates(iw, cols, fixed_end, m + 1, n);
    }
}

/// The value the reader finds at fixed-area position `pos` of `buf`.
pub open spec fn spec_view_tagged(buf: Seq<u8>, pos: int) -> AbstractDatum {
    match spec_kind_of_tag(buf[pos]) {
        None => AbstractDatum::Null,
        Some(k) => spec_read_view(k, buf.skip(pos + 1), buf),
    }
}

/// Whether the reader can decode position `pos` of `buf` without leaving
/// the buffer.
pub open spec fn spec_tagged_readable(buf: Seq<u8>, pos: int) -> bool {
    &&& 0 <= pos < buf.len()
    &&& match spec_kind_of_tag(buf[pos]) {
        None => true,
        Some(k) => spec_view_readable(k, buf.skip(pos + 1), buf),
    }
}

/// A column whose fixed part and heap part stand in `buf` as the writer
/// left them reads back as the written datum.
pub proof fn lemma_col_view(buf: Seq<u8>, pos: int, d: Datum, off: int)
    requires
        !(d is Null),
        spec_var_len(d) <= u32::MAX,
        0 <= pos,
        0 <= off <= u32::MAX,
        pos + spec_datum_fixed(d, off as u32).len() <= buf.len(),
        buf.subrange(pos, pos + spec_datum_fixed(d, off as u32).len()) == spec_datum_fixed(
            d,
            off as u32,
        ),
        d is Varbinary || d is String ==> off + spec_heap_part(d).len() <= buf.len()
            && buf.subrange(off, off + spec_heap_part(d).len()) == spec_heap_part(d),
    ensures
        spec_tagged_readable(buf, pos),
        spec_view_tagged(buf, pos) == abs_of_datum(d),
{
    let fixed = spec_datum_fixed(d, off as u32);
    assert(fixed.len() >= 1);
    assert(buf[pos] == fixed[0]) by {
        assert(buf.subrange(pos, pos + fixed.len())[0] == buf[pos]);
    }
    assert(buf[pos] == spec_kind_tag(spec_datum_kind(d)));
    let k = spec_datum_kind(d);
    assert(spec_kind_of_tag(buf[pos]) == Some(k)) by {
        match d {
            Datum::Null => {},
            Datum::Timestamp(_) => {},
            Datum::Varbinary(_) => {},
            Datum::String(_) => {},
            Datum::UInt64(_) => {},
            Datum::UInt32(_) => {},
            Datum::UInt16(_) => {},
            Datum::UInt8(_) => {},
            Datum::Int64(_) => {},
            Datum::Int32(_) => {},
            Datum::Int16(_) => {},
            Datum::Int8(_) => {},
            Datum::Boolean(_) => {},
            Datum::Date(_) => {},
            Datum::Time(_) => {},
        }
    }
    let dbuf = buf.skip(pos + 1);
    assert(fixed.is_prefix_of(seq![spec_kind_tag(k)] + dbuf)) by {
        assert forall|m: int| 0 <= m < fixed.len() implies fixed[m] == (seq![spec_kind_tag(k)]
            + dbuf)[m] by {
            if m > 0 {
                assert(buf.subrange(pos, pos + fixed.len())[m] == buf[pos + m]);
                assert(dbuf[m - 1] == buf[pos + m]);
            }
        }
        assert(fixed =~= (seq![spec_kind_tag(k)] + dbuf).subrange(0, fixed.len() as int));
    }
    lemma_datum_round_trip(d, off as u32, dbuf, buf);
}

/// A writer of contiguous rows against a table schema, with the mapping
/// from table columns to the writer's row columns.
pub struct ContiguousRowWriter<'a> {
    pub table_schema: &'a Schema,
    pub index_in_writer: &'a IndexInWriterSchema,
}

impl<'a> ContiguousRowWriter<'a> {
    pub fn new(table_schema: &'a Schema, index_in_writer: &'a IndexInWriterSchema) -> (r: Self)
        ensures
            r.table_schema == table_schema,
            r.index_in_writer == index_in_writer,
    {
        ContiguousRowWriter { table_schema, index_in_writer }
    }

    /// The schema is sound, the mapping covers it, and every supplied datum
    /// has its column's kind (or is null).
    pub open spec fn wf_args(&self, row: Row) -> bool {
        &&& self.table_schema.wf()
        &&& self.index_in_writer.indexes@.len() == self.table_schema.column_kinds@.len()
        &&& forall|i: int|
            0 <= i < self.index_in_writer.indexes@.len() ==> match #[trigger] self.index_in_writer.indexes@[i] {
                Some(w) => w < row.cols@.len() && (row.cols@[w as int] is Null || spec_datum_kind(
                    row.cols@[w as int],
                ) == self.table_schema.column_kinds@[i])
                && spec_var_len(row.cols@[w as int]) + 8 <= usize::MAX,
                None => true,
            }
    }

    /// Where the string heap of the encoding of `row` begins.
    pub open spec fn spec_fixed_end(&self, row: Row) -> int {
        let n = self.table_schema.column_kinds@.len() as int;
        if spec_num_nulls(self.index_in_writer.indexes@, row.cols@, n) == 0 {
            4 + spec_offsets_sum(self.table_schema.column_kinds@, n)
        } else {
            4 + (n + 7) / 8 + spec_present_bytes_before(
                self.table_schema.column_kinds@,
                self.index_in_writer.indexes@,
                row.cols@,
                n,
            )
        }
    }

    /// The total length of the encoding of `row`: the fixed part and the
    /// string heap.
    pub open spec fn spec_total_len(&self, row: Row) -> int {
        self.spec_fixed_end(row) + spec_heap_len_before(
            self.index_in_writer.indexes@,
            row.cols@,
            self.table_schema.column_kinds@.len() as int,
        )
    }

    /// Encode `row` into `inner`, replacing its contents. On success the
    /// buffer holds the layout of the form chosen by the row's nulls, every
    /// table column reads back as the datum the writer supplied for it (or
    /// null where none was supplied), and the whole row is within the row
    /// limit; the write fails exactly on the first oversized string, or on
    /// a total encoding beyond the row limit.
    pub fn write_row(&self, inner: &mut Vec<u8>, row: &Row) -> (r: Result<(), Error>)
        requires
            self.wf_args(*row),
            self.table_schema.column_kinds@.len() <= u32::MAX,
            self.table_schema.column_kinds@.len() + 8 <= usize::MAX,
            4 + (self.table_schema.column_kinds@.len() + 7) / 8
                + self.table_schema.string_buffer_offset <= MAX_ROW_LEN,
        ensures
            ({
                let iw = self.index_in_writer.indexes@;
                let cols = row.cols@;
                let n = self.table_schema.column_kinds@.len() as int;
                match spec_write_failure(iw, cols, self.spec_fixed_end(*row), n) {
                    Some(l) => r == Err::<(), Error>(Error::StringTooLong { len: l as usize }),
                    None => if self.spec_total_len(*row) > MAX_ROW_LEN {
                        r == Err::<(), Error>(
                            Error::RowTooLong { len: self.spec_total_len(*row) as usize },
                        )
                    } else {
                        r is Ok && final(inner)@.len() == self.spec_total_len(*row) && final(inner)@.len() <= MAX_ROW_LEN && spec_row_layout(
                            self.table_schema.column_kinds@,
                            iw,
                            cols,
                            final(inner)@,
                        ) && spec_row_readable(*self.table_schema, final(inner)@) && forall|i: int|
                            0 <= i < n ==> spec_row_view(*self.table_schema, final(inner)@, i)
                                == spec_expected(iw, cols, i)
                    },
                }
            }),
    {
        let n = self.table_schema.num_columns();
        let mut num_null_cols: usize = 0;
        let mut i: usize = 0;
        while i < n
            invariant
                self.wf_args(*row),
                n == self.table_schema.column_kinds@.len(),
                i <= n,
                num_null_cols as int == spec_num_nulls(
                    self.index_in_writer.indexes@,
                    row.cols@,
                    i as int,
                ),
                num_null_cols <= i,
            decreases n - i,
        {
            match self.index_in_writer.column_index_in_writer(i) {
                Some(writer_index) => {
                    if row.col(writer_index).is_null() {
                        num_null_cols = num_null_cols + 1;
                    }
                },
                None => {
                    num_null_cols = num_null_cols + 1;
                },
            }
            i = i + 1;
        }
        if num_null_cols > 0 {
            self.write_row_with_nulls(inner, row)
        } else {
            self.write_row_without_nulls(inner, row)
        }
    }
}

/// The stored shape of an encoded row. With no null or missing column the
/// header word is zero and every column sits in the fixed area; otherwise
/// the header holds the column count and a bitset records, for every table
/// column, whether it is present (supplied and non-null). Either way the
/// buffer is exactly header (and bitset), fixed area, string heap.
pub open spec fn spec_row_layout(
    kinds: Seq<DatumKind>,
    iw: Seq<Option<usize>>,
    cols: Seq<Datum>,
    buf: Seq<u8>,
) -> bool {
    let n = kinds.len() as int;
    if spec_num_nulls(iw, cols, n) == 0 {
        &&& spec_u32_from_le_bytes(buf.take(4)) == 0
        &&& buf.len() == 4 + spec_offsets_sum(kinds, n) + spec_heap_len_before(iw, cols, n)
    } else {
        let bs = (n + 7) / 8;
        &&& spec_u32_from_le_bytes(buf.take(4)) as int == n
        &&& buf.len() == 4 + bs + spec_present_bytes_before(kinds, iw, cols, n)
            + spec_heap_len_before(iw, cols, n)
        &&& forall|i: int|
            0 <= i < n ==> spec_bit(buf.subrange(4, 4 + bs), i) == spec_present(iw, cols, i)
    }
}

/// Whether every column of an encoded row can be decoded without leaving
/// the buffer.
pub open spec fn spec_row_readable(s: Schema, buf: Seq<u8>) -> bool {
    &&& buf.len() >= 4
    &&& ({
        let nn = spec_u32_from_le_bytes(buf.take(4)) as int;
        if nn == 0 {
            forall|i: int|
                0 <= i < s.column_kinds@.len() ==> spec_tagged_readable(
                    buf,
                    4 + spec_offsets_sum(s.column_kinds@, i),
                )
        } else {
            let bs = (nn + 7) / 8;
            &&& buf.len() >= 4 + bs
            &&& forall|i: int|
                0 <= i < s.column_kinds@.len() && i < nn && #[trigger] spec_bit(
                    buf.subrange(4, 4 + bs),
                    i,
                ) ==> spec_tagged_readable(
                    buf,
                    4 + bs + spec_bits_offset(s.column_kinds@, buf.subrange(4, 4 + bs), i),
                )
        }
    })
}

/// The value column `i` of an encoded row reads back as.
pub open spec fn spec_row_view(s: Schema, buf: Seq<u8>, i: int) -> AbstractDatum {
    let nn = spec_u32_from_le_bytes(buf.take(4)) as int;
    if nn == 0 {
        spec_view_tagged(buf, 4 + spec_offsets_sum(s.column_kinds@, i))
    } else {
        let bs = (nn + 7) / 8;
        let bits = buf.subrange(4, 4 + bs);
        if i < nn && spec_bit(bits, i) {
            spec_view_tagged(buf, 4 + bs + spec_bits_offset(s.column_kinds@, bits, i))
        } else {
            AbstractDatum::Null
        }
    }
}

/// Fixed-area bytes of the bitset-present columns before `i`.
pub open spec fn spec_bits_offset(kinds: Seq<DatumKind>, bits: Seq<u8>, i: int) -> int
    decreases i,
{
    if i <= 0 {
        0
    } else {
        spec_bits_offset(kinds, bits, i - 1) + (if spec_bit(bits, i - 1) {
            spec_byte_size_of_datum(kinds[i - 1])
        } else {
            0
        })
    }
}

/// The fixed part of a non-null datum is as long as its kind's fixed size.
pub proof fn lemma_datum_fixed_len(d: Datum, off: u32)
    requires
        !(d is Null),
    ensures
        spec_datum_fixed(d, off).len() == spec_byte_size_of_datum(spec_datum_kind(d)),
{
    lemma_auto_spec_u16_to_from_le_bytes();
    lemma_auto_spec_u32_to_from_le_bytes();
    lemma_auto_spec_u64_to_from_le_bytes();
    assert(forall|x: u16| (#[trigger] spec_u16_to_le_bytes(x)).len() == 4 - 2);
    assert(forall|x: u32| (#[trigger] spec_u32_to_le_bytes(x)).len() == 4);
    assert(forall|x: u64| (#[trigger] spec_u64_to_le_bytes(x)).len() == 8);
}

/// Heap consumption grows with the column prefix.
pub proof fn lemma_heap_len_monotone(iw: Seq<Option<usize>>, cols: Seq<Datum>, i: int, n: int)
    requires
        0 <= i <= n,
    ensures
        spec_heap_len_before(iw, cols, i) <= spec_heap_len_before(iw, cols, n),
    decreases n - i,
{
    if i < n {
        lemma_heap_len_monotone(iw, cols, i + 1, n);
    }
}

/// A clean run has no failure in any prefix.
pub proof fn lemma_no_failure_prefix(
    iw: Seq<Option<usize>>,
    cols: Seq<Datum>,
    fixed_end: int,
    m: int,
    n: int,
)
    requires
        0 <= m <= n,
        spec_write_failure(iw, cols, fixed_end, n) is None,
    ensures
        spec_write_failure(iw, cols, fixed_end, m) is None,
{
    if spec_write_failure(iw, cols, fixed_end, m) is Some {
        lemma_failure_propagates(iw, cols, fixed_end, m, n);
    }
}

impl<'a> ContiguousRowWriter<'a> {
    /// Encode a row in the no-nulls form: every table column is supplied
    /// and non-null.
    #[verifier::rlimit(100)]
    fn write_row_without_nulls(&self, inner: &mut Vec<u8>, row: &Row) -> (r: Result<(), Error>)
        requires
            self.wf_args(*row),
            4 + self.table_schema.string_buffer_offset <= MAX_ROW_LEN,
            spec_num_nulls(
                self.index_in_writer.indexes@,
                row.cols@,
                self.table_schema.column_kinds@.len() as int,
            ) == 0,
        ensures
            ({
                let iw = self.index_in_writer.indexes@;
                let cols = row.cols@;
                let n = self.table_schema.column_kinds@.len() as int;
                match spec_write_failure(iw, cols, self.spec_fixed_end(*row), n) {
                    Some(l) => r == Err::<(), Error>(Error::StringTooLong { len: l as usize }),
                    None => if self.spec_total_len(*row) > MAX_ROW_LEN {
                        r == Err::<(), Error>(
                            Error::RowTooLong { len: self.spec_total_len(*row) as usize },
                        )
                    } else {
                        r is Ok && final(inner)@.len() == self.spec_total_len(*row) && final(inner)@.len() <= MAX_ROW_LEN && spec_row_layout(
                            self.table_schema.column_kinds@,
                            iw,
                            cols,
                            final(inner)@,
                        ) && spec_row_readable(*self.table_schema, final(inner)@) && forall|i: int|
                            0 <= i < n ==> spec_row_view(*self.table_schema, final(inner)@, i)
                                == spec_expected(iw, cols, i)
                    },
                }
            }),
    {
        let ghost iw = self.index_in_writer.indexes@;
        let ghost cols = row.cols@;
        let ghost kinds = self.table_schema.column_kinds@;
        let n = self.table_schema.num_columns();
        proof {
            lemma_all_present(iw, cols, n as int);
            assert(self.spec_fixed_end(*row) == 4 + spec_offsets_sum(kinds, n as int));
        }
        let fixed_end = 4 + self.table_schema.string_buffer_offset;
        let mut fixed: Vec<u8> = Vec::new();
        let zero = u32_to_le_bytes(0);
        fixed.extend_from_slice(zero.as_slice());
        let mut heap: Vec<u8> = Vec::new();
        proof {
            lemma_auto_spec_u32_to_from_le_bytes();
            assert(fixed@ =~= spec_u32_to_le_bytes(0));
            assert(fixed@.take(4) =~= spec_u32_to_le_bytes(0));
        }
        let mut i: usize = 0;
        while i < n
            invariant
                self.wf_args(*row),
                iw == self.index_in_writer.indexes@,
                cols == row.cols@,
                kinds == self.table_schema.column_kinds@,
                n == kinds.len(),
                i <= n,
                fixed_end == 4 + self.table_schema.string_buffer_offset,
                fixed_end == 4 + spec_offsets_sum(kinds, n as int),
                self.spec_fixed_end(*row) == fixed_end as int,
                fixed_end <= MAX_ROW_LEN,
                forall|m: int| 0 <= m < n ==> spec_present(iw, cols, m),
                0 <= spec_offsets_sum(kinds, i as int),
                0 <= spec_heap_len_before(iw, cols, i as int),
                fixed@.len() == 4 + spec_offsets_sum(kinds, i as int),
                fixed@.take(4) == spec_u32_to_le_bytes(0),
                heap@.len() as int == spec_heap_len_before(iw, cols, i as int),
                fixed_end + heap@.len() <= MAX_ROW_LEN + 4 + MAX_STRING_LEN,
                spec_write_failure(iw, cols, fixed_end as int, i as int) is None,
                forall|j: int|
                    0 <= j < i ==> #[trigger] fixed@.subrange(
                        4 + spec_offsets_sum(kinds, j),
                        4 + spec_offsets_sum(kinds, j) + spec_byte_size_of_datum(kinds[j]),
                    ) == spec_datum_fixed(
                        cols[iw[j]->0 as int],
                        (fixed_end + spec_heap_len_before(iw, cols, j)) as u32,
                    ),
                forall|j: int|
                    0 <= j < i && (cols[iw[j]->0 as int] is Varbinary || cols[iw[j]->0 as int]
                        is String) ==> #[trigger] heap@.subrange(
                        spec_heap_len_before(iw, cols, j),
                        spec_heap_len_before(iw, cols, j) + spec_heap_part(
                            cols[iw[j]->0 as int],
                        ).len(),
                    ) == spec_heap_part(cols[iw[j]->0 as int]),
            decreases n - i,
        {
            let ghost pre_fixed = fixed@;
            let ghost pre_heap = heap@;
            let writer_index = match self.index_in_writer.column_index_in_writer(i) {
                Some(w) => w,
                None => {
                    proof {
                        assert(spec_present(iw, cols, i as int));
                        assert(false);
                    }
                    0usize
                },
            };
            let datum = row.col(writer_index);
            proof {
                assert(spec_present(iw, cols, i as int));
                assert(usize::MAX >= 0xffff_ffffu64);
            }
            match write_datum(&mut fixed, &mut heap, datum, fixed_end) {
                Ok(()) => {
                    proof {
                        lemma_auto_spec_u32_to_from_le_bytes();
                        assert(forall|x: u32| (#[trigger] spec_u32_to_le_bytes(x)).len() == 4);
                        crate::row::lemma_offsets_sum_monotone(kinds, 0, i as int + 1);
                        lemma_heap_len_monotone(iw, cols, 0, i as int + 1);
                        lemma_heap_len_monotone(iw, cols, 0, i as int);
                        lemma_datum_fixed_len(
                            *datum,
                            (fixed_end + spec_heap_len_before(iw, cols, i as int)) as u32,
                        );
                        assert(spec_datum_kind(*datum) == kinds[i as int]);
                        assert(spec_write_failure(iw, cols, fixed_end as int, i as int + 1)
                            is None);
                        assert forall|j: int|
                            0 <= j < i + 1 implies #[trigger] fixed@.subrange(
                            4 + spec_offsets_sum(kinds, j),
                            4 + spec_offsets_sum(kinds, j) + spec_byte_size_of_datum(kinds[j]),
                        ) == spec_datum_fixed(
                            cols[iw[j]->0 as int],
                            (fixed_end + spec_heap_len_before(iw, cols, j)) as u32,
                        ) by {
                            assert(spec_present(iw, cols, j));
                            assert(iw[j] is Some);
                            crate::row::lemma_offsets_sum_monotone(kinds, 0, j);
                            lemma_heap_len_monotone(iw, cols, 0, j);
                            crate::row::lemma_offsets_sum_monotone(kinds, j + 1, i as int + 1);
                            if j < i {
                                assert(pre_fixed.subrange(
                                    4 + spec_offsets_sum(kinds, j),
                                    4 + spec_offsets_sum(kinds, j) + spec_byte_size_of_datum(
                                        kinds[j],
                                    ),
                                ) == spec_datum_fixed(
                                    cols[iw[j]->0 as int],
                                    (fixed_end + spec_heap_len_before(iw, cols, j)) as u32,
                                ));
                                crate::row::lemma_offsets_sum_monotone(kinds, j + 1, i as int);
                                assert(fixed@.subrange(
                                    4 + spec_offsets_sum(kinds, j),
                                    4 + spec_offsets_sum(kinds, j) + spec_byte_size_of_datum(
                                        kinds[j],
                                    ),
                                ) =~= pre_fixed.subrange(
                                    4 + spec_offsets_sum(kinds, j),
                                    4 + spec_offsets_sum(kinds, j) + spec_byte_size_of_datum(
                                        kinds[j],
                                    ),
                                ));
                            } else {
                                assert(fixed@ == pre_fixed + spec_datum_fixed(
                                    cols[iw[j]->0 as int],
                                    (fixed_end + spec_heap_len_before(iw, cols, j)) as u32,
                                ));
                                assert(fixed@.subrange(
                                    4 + spec_offsets_sum(kinds, j),
                                    4 + spec_offsets_sum(kinds, j) + spec_byte_size_of_datum(
                                        kinds[j],
                                    ),
                                ) =~= spec_datum_fixed(
                                    cols[iw[j]->0 as int],
                                    (fixed_end + spec_heap_len_before(iw, cols, j)) as u32,
                                ));
                            }
                        }
                        assert forall|j: int|
                            0 <= j < i + 1 && (cols[iw[j]->0 as int] is Varbinary
                                || cols[iw[j]->0 as int] is String) implies #[trigger] heap@.subrange(
                            spec_heap_len_before(iw, cols, j),
                            spec_heap_len_before(iw, cols, j) + spec_heap_part(
                                cols[iw[j]->0 as int],
                            ).len(),
                        ) == spec_heap_part(cols[iw[j]->0 as int]) by {
                            assert(spec_present(iw, cols, j));
                            assert(iw[j] is Some);
                            lemma_heap_len_monotone(iw, cols, 0, j);
                            assert(spec_heap_len_before(iw, cols, j + 1) == spec_heap_len_before(
                                iw,
                                cols,
                                j,
                            ) + spec_heap_part(cols[iw[j]->0 as int]).len());
                            if j < i {
                                lemma_heap_len_monotone(iw, cols, j + 1, i as int);
                                assert(heap@.subrange(
                                    spec_heap_len_before(iw, cols, j),
                                    spec_heap_len_before(iw, cols, j) + spec_heap_part(
                                        cols[iw[j]->0 as int],
                                    ).len(),
                                ) =~= pre_heap.subrange(
                                    spec_heap_len_before(iw, cols, j),
                                    spec_heap_len_before(iw, cols, j) + spec_heap_part(
                                        cols[iw[j]->0 as int],
                                    ).len(),
                                ));
                            } else {
                                assert(heap@ == pre_heap + spec_heap_part(cols[iw[j]->0 as int]));
                                assert(heap@.subrange(
                                    spec_heap_len_before(iw, cols, j),
                                    spec_heap_len_before(iw, cols, j) + spec_heap_part(
                                        cols[iw[j]->0 as int],
                                    ).len(),
                                ) =~= spec_heap_part(cols[iw[j]->0 as int]));
                            }
                        }
                        assert(fixed@.take(4) =~= pre_fixed.take(4));
                    }
                },
                Err(e) => {
                    proof {
                        lemma_failure_propagates(
                            iw,
                            cols,
                            fixed_end as int,
                            i as int + 1,
                            n as int,
                        );
                    }
                    return Err(e);
                },
            }
            i = i + 1;
        }
        // The whole row must stay within the row limit.
        proof {
            assert(fixed@.len() == fixed_end);
            assert(fixed_end + heap@.len() <= MAX_ROW_LEN + 4 + MAX_STRING_LEN);
            assert(self.spec_total_len(*row) == fixed@.len() + heap@.len());
        }
        let total_len = fixed.len() + heap.len();
        if total_len > MAX_ROW_LEN {
            return Err(Error::RowTooLong { len: total_len });
        }
        inner.clear();
        inner.extend_from_slice(fixed.as_slice());
        inner.extend_from_slice(heap.as_slice());
        proof {
            let buf = inner@;
            assert(buf =~= fixed@ + heap@);
            assert(fixed@.len() == fixed_end);
            lemma_auto_spec_u32_to_from_le_bytes();
            assert(forall|x: u32| (#[trigger] spec_u32_to_le_bytes(x)).len() == 4);
            assert(buf.take(4) =~= fixed@.take(4));
            assert(spec_u32_from_le_bytes(buf.take(4)) == 0) by {
                assert(spec_u32_to_le_bytes(0u32).len() == 4);
            }
            assert(buf.len() == self.spec_total_len(*row));
            assert(spec_row_layout(kinds, iw, cols, buf));
            assert forall|c: int| 0 <= c < n implies spec_row_view(
                *self.table_schema,
                buf,
                c,
            ) == spec_expected(iw, cols, c) by {
                assert(spec_present(iw, cols, c));
                assert(iw[c] is Some);
                let d = cols[iw[c]->0 as int];
                assert(!(d is Null));
                crate::row::lemma_offsets_sum_monotone(kinds, 0, c);
                lemma_heap_len_monotone(iw, cols, 0, c);
                assert(spec_heap_len_before(iw, cols, c + 1) == spec_heap_len_before(iw, cols, c)
                    + spec_heap_part(d).len());
                lemma_heap_len_monotone(iw, cols, c, n as int);
                lemma_heap_len_monotone(iw, cols, c + 1, n as int);
                let off_heap = fixed_end + spec_heap_len_before(iw, cols, c);
                assert(off_heap <= u32::MAX);
                let pos = 4 + spec_offsets_sum(kinds, c);
                lemma_datum_fixed_len(d, off_heap as u32);
                crate::row::lemma_offsets_sum_monotone(kinds, c + 1, n as int);
                assert(buf.subrange(pos, pos + spec_byte_size_of_datum(kinds[c])) =~= fixed@.subrange(
                    pos,
                    pos + spec_byte_size_of_datum(kinds[c]),
                ));
                lemma_no_failure_prefix(iw, cols, fixed_end as int, c + 1, n as int);
                if d is Varbinary || d is String {
                    assert(spec_write_failure(iw, cols, fixed_end as int, c + 1) is None);
                    assert(spec_var_len(d) <= MAX_STRING_LEN);
                    assert(buf.subrange(
                        off_heap,
                        off_heap + spec_heap_part(d).len(),
                    ) =~= heap@.subrange(
                        spec_heap_len_before(iw, cols, c),
                        spec_heap_len_before(iw, cols, c) + spec_heap_part(d).len(),
                    ));
                }
                lemma_col_view(buf, pos, d, off_heap);
            }
            assert forall|c: int| 0 <= c < n implies spec_tagged_readable(
                buf,
                4 + spec_offsets_sum(self.table_schema.column_kinds@, c),
            ) by {
                assert(spec_present(iw, cols, c));
                assert(iw[c] is Some);
                let d = cols[iw[c]->0 as int];
                assert(!(d is Null));
                crate::row::lemma_offsets_sum_monotone(kinds, 0, c);
                lemma_heap_len_monotone(iw, cols, 0, c);
                assert(spec_heap_len_before(iw, cols, c + 1) == spec_heap_len_before(iw, cols, c)
                    + spec_heap_part(d).len());
                lemma_heap_len_monotone(iw, cols, c, n as int);
                lemma_heap_len_monotone(iw, cols, c + 1, n as int);
                let off_heap = fixed_end + spec_heap_len_before(iw, cols, c);
                assert(off_heap <= u32::MAX);
                let pos = 4 + spec_offsets_sum(kinds, c);
                lemma_datum_fixed_len(d, off_heap as u32);
                crate::row::lemma_offsets_sum_monotone(kinds, c + 1, n as int);
                assert(buf.subrange(pos, pos + spec_byte_size_of_datum(kinds[c])) =~= fixed@.subrange(
                    pos,
                    pos + spec_byte_size_of_datum(kinds[c]),
                ));
                lemma_no_failure_prefix(iw, cols, fixed_end as int, c + 1, n as int);
                if d is Varbinary || d is String {
                    assert(spec_write_failure(iw, cols, fixed_end as int, c + 1) is None);
                    assert(spec_var_len(d) <= MAX_STRING_LEN);
                    assert(buf.subrange(
                        off_heap,
                        off_heap + spec_heap_part(d).len(),
                    ) =~= heap@.subrange(
                        spec_heap_len_before(iw, cols, c),
                        spec_heap_len_before(iw, cols, c) + spec_heap_part(d).len(),
                    ));
                }
                lemma_col_view(buf, pos, d, off_heap);
            }
            assert(spec_row_readable(*self.table_schema, buf)) by {
                assert(spec_u32_from_le_bytes(buf.take(4)) as int == 0);
            }
        }
        Ok(())
    }
}

/// With no nulls counted, every column is present.
proof fn lemma_all_present(iw: Seq<Option<usize>>, cols: Seq<Datum>, n: int)
    requires
        spec_num_nulls(iw, cols, n) == 0,
    ensures
        forall|m: int| 0 <= m < n ==> spec_present(iw, cols, m),
    decreases n,
{
    if n > 0 {
        lemma_num_nulls_nonneg(iw, cols, n - 1);
        lemma_all_present(iw, cols, n - 1);
    }
}

/// The null count is never negative.
proof fn lemma_num_nulls_nonneg(iw: Seq<Option<usize>>, cols: Seq<Datum>, n: int)
    ensures
        spec_num_nulls(iw, cols, n) >= 0,
    decreases n,
{
    if n > 0 {
        lemma_num_nulls_nonneg(iw, cols, n - 1);
    }
}

/// The present columns take no more fixed-area bytes than all columns.
pub proof fn lemma_present_bytes_le(
    kinds: Seq<DatumKind>,
    iw: Seq<Option<usize>>,
    cols: Seq<Datum>,
    i: int,
)
    requires
        0 <= i <= kinds.len(),
    ensures
        spec_present_bytes_before(kinds, iw, cols, i) <= spec_offsets_sum(kinds, i),
    decreases i,
{
    if i > 0 {
        lemma_present_bytes_le(kinds, iw, cols, i - 1);
    }
}

/// Fixed-area offsets computed from a bitset that records exactly the
/// present columns equal the writer's offsets.
pub proof fn lemma_bits_offset_eq(
    kinds: Seq<DatumKind>,
    bits: Seq<u8>,
    iw: Seq<Option<usize>>,
    cols: Seq<Datum>,
    i: int,
)
    requires
        0 <= i,
        forall|m: int| 0 <= m < i ==> spec_bit(bits, m) == spec_present(iw, cols, m),
    ensures
        spec_bits_offset(kinds, bits, i) == spec_present_bytes_before(kinds, iw, cols, i),
    decreases i,
{
    if i > 0 {
        lemma_bits_offset_eq(kinds, bits, iw, cols, i - 1);
    }
}

/// Present-bytes offsets grow with the column prefix.
pub proof fn lemma_present_bytes_monotone(
    kinds: Seq<DatumKind>,
    iw: Seq<Option<usize>>,
    cols: Seq<Datum>,
    i: int,
    n: int,
)
    requires
        0 <= i <= n,
    ensures
        spec_present_bytes_before(kinds, iw, cols, i) <= spec_present_bytes_before(
            kinds,
            iw,
            cols,
            n,
        ),
    decreases n - i,
{
    if i < n {
        lemma_present_bytes_monotone(kinds, iw, cols, i + 1, n);
    }
}

impl<'a> ContiguousRowWriter<'a> {
    /// Encode a row in the with-nulls form: the column count, a bitset of
    /// the present columns, then only the present columns' fixed parts.
    #[verifier::rlimit(100)]
    fn write_row_with_nulls(&self, inner: &mut Vec<u8>, row: &Row) -> (r: Result<(), Error>)
        requires
            self.wf_args(*row),
            self.table_schema.column_kinds@.len() <= u32::MAX,
            self.table_schema.column_kinds@.len() + 8 <= usize::MAX,
            4 + (self.table_schema.column_kinds@.len() + 7) / 8
                + self.table_schema.string_buffer_offset <= MAX_ROW_LEN,
            spec_num_nulls(
                self.index_in_writer.indexes@,
                row.cols@,
                self.table_schema.column_kinds@.len() as int,
            ) > 0,
        ensures
            ({
                let iw = self.index_in_writer.indexes@;
                let cols = row.cols@;
                let n = self.table_schema.column_kinds@.len() as int;
                match spec_write_failure(iw, cols, self.spec_fixed_end(*row), n) {
                    Some(l) => r == Err::<(), Error>(Error::StringTooLong { len: l as usize }),
                    None => if self.spec_total_len(*row) > MAX_ROW_LEN {
                        r == Err::<(), Error>(
                            Error::RowTooLong { len: self.spec_total_len(*row) as usize },
                        )
                    } else {
                        r is Ok && final(inner)@.len() == self.spec_total_len(*row) && final(inner)@.len() <= MAX_ROW_LEN && spec_row_layout(
                            self.table_schema.column_kinds@,
                            iw,
                            cols,
                            final(inner)@,
                        ) && spec_row_readable(*self.table_schema, final(inner)@) && forall|i: int|
                            0 <= i < n ==> spec_row_view(*self.table_schema, final(inner)@, i)
                                == spec_expected(iw, cols, i)
                    },
                }
            }),
    {
        let ghost iw = self.index_in_writer.indexes@;
        let ghost cols = row.cols@;
        let ghost kinds = self.table_schema.column_kinds@;
        let n = self.table_schema.num_columns();
        proof {
            assert(n >= 1);
        }
        // Record which columns are present.
        let mut nulls_bit_set = BitSet::new(n);
        let mut i: usize = 0;
        while i < n
            invariant
                self.wf_args(*row),
                iw == self.index_in_writer.indexes@,
                cols == row.cols@,
                kinds == self.table_schema.column_kinds@,
                n == kinds.len(),
                n < usize::MAX - 7,
                i <= n,
                nulls_bit_set.wf(),
                nulls_bit_set.num_bits == n,
                forall|m: int|
                    0 <= m < i ==> spec_bit(nulls_bit_set.bytes@, m) == spec_present(iw, cols, m),
                forall|m: int| i <= m < n ==> !spec_bit(nulls_bit_set.bytes@, m),
            decreases n - i,
        {
            let present = match self.index_in_writer.column_index_in_writer(i) {
                Some(w) => !row.col(w).is_null(),
                None => false,
            };
            if present {
                nulls_bit_set.set(i);
            }
            i = i + 1;
        }
        let bit_set_len = nulls_bit_set.as_bytes().len();
        proof {
            assert(bit_set_len == (n + 7) as int / 8);
        }
        let fixed_end = 4 + bit_set_len + self.table_schema.string_buffer_offset;
        let ghost real_fixed_end: int = 4 + bit_set_len + spec_present_bytes_before(
            kinds,
            iw,
            cols,
            n as int,
        );
        proof {
            lemma_present_bytes_le(kinds, iw, cols, n as int);
            assert(self.spec_fixed_end(*row) == real_fixed_end);
        }
        // The heap begins right after the present columns' fixed parts.
        let mut present_bytes: usize = 0;
        let mut k: usize = 0;
        while k < n
            invariant
                self.wf_args(*row),
                iw == self.index_in_writer.indexes@,
                cols == row.cols@,
                kinds == self.table_schema.column_kinds@,
                n == kinds.len(),
                k <= n,
                present_bytes as int == spec_present_bytes_before(kinds, iw, cols, k as int),
                present_bytes as int <= spec_offsets_sum(kinds, k as int),
            decreases n - k,
        {
            proof {
                lemma_present_bytes_le(kinds, iw, cols, k as int + 1);
                crate::row::lemma_offsets_sum_monotone(kinds, k as int + 1, n as int);
            }
            match self.index_in_writer.column_index_in_writer(k) {
                Some(w) => {
                    if !row.col(w).is_null() {
                        present_bytes = present_bytes + byte_size_of_datum(
                            &self.table_schema.column_kinds[k],
                        );
                    }
                },
                None => {},
            }
            k = k + 1;
        }
        let heap_base = 4 + bit_set_len + present_bytes;
        proof {
            assert(heap_base == real_fixed_end);
            assert(heap_base <= MAX_ROW_LEN);
        }
        let mut fixed: Vec<u8> = Vec::new();
        let header = u32_to_le_bytes(n as u32);
        fixed.extend_from_slice(header.as_slice());
        fixed.extend_from_slice(nulls_bit_set.as_bytes().as_slice());
        let mut heap: Vec<u8> = Vec::new();
        proof {
            lemma_auto_spec_u32_to_from_le_bytes();
            assert(fixed@.take(4) =~= spec_u32_to_le_bytes(n as u32));
            assert(fixed@.subrange(4, 4 + bit_set_len as int) =~= nulls_bit_set.bytes@);
        }
        let ghost bits = nulls_bit_set.bytes@;
        let mut i: usize = 0;
        while i < n
            invariant
                self.wf_args(*row),
                iw == self.index_in_writer.indexes@,
                cols == row.cols@,
                kinds == self.table_schema.column_kinds@,
                n == kinds.len(),
                i <= n,
                bit_set_len == (n + 7) as int / 8,
                heap_base == real_fixed_end,
                self.spec_fixed_end(*row) == real_fixed_end,
                real_fixed_end == 4 + bit_set_len + spec_present_bytes_before(
                    kinds,
                    iw,
                    cols,
                    n as int,
                ),
                heap_base <= MAX_ROW_LEN,
                forall|m: int| 0 <= m < n ==> spec_bit(bits, m) == spec_present(iw, cols, m),
                0 <= spec_present_bytes_before(kinds, iw, cols, i as int),
                0 <= spec_heap_len_before(iw, cols, i as int),
                fixed@.len() == 4 + bit_set_len + spec_present_bytes_before(
                    kinds,
                    iw,
                    cols,
                    i as int,
                ),
                fixed@.take(4) == spec_u32_to_le_bytes(n as u32),
                fixed@.subrange(4, 4 + bit_set_len as int) == bits,
                heap@.len() as int == spec_heap_len_before(iw, cols, i as int),
                heap_base + heap@.len() <= MAX_ROW_LEN + 4 + MAX_STRING_LEN,
                spec_write_failure(iw, cols, real_fixed_end as int, i as int) is None,
                forall|j: int|
                    0 <= j < i && spec_present(iw, cols, j) ==> #[trigger] fixed@.subrange(
                        4 + bit_set_len + spec_present_bytes_before(kinds, iw, cols, j),
                        4 + bit_set_len + spec_present_bytes_before(kinds, iw, cols, j)
                            + spec_byte_size_of_datum(kinds[j]),
                    ) == spec_datum_fixed(
                        cols[iw[j]->0 as int],
                        (real_fixed_end + spec_heap_len_before(iw, cols, j)) as u32,
                    ),
                forall|j: int|
                    0 <= j < i && spec_present(iw, cols, j) && (cols[iw[j]->0 as int] is Varbinary
                        || cols[iw[j]->0 as int] is String) ==> #[trigger] heap@.subrange(
                        spec_heap_len_before(iw, cols, j),
                        spec_heap_len_before(iw, cols, j) + spec_heap_part(
                            cols[iw[j]->0 as int],
                        ).len(),
                    ) == spec_heap_part(cols[iw[j]->0 as int]),
            decreases n - i,
        {
            let ghost pre_fixed = fixed@;
            let ghost pre_heap = heap@;
            match self.index_in_writer.column_index_in_writer(i) {
                Some(writer_index) => {
                    let datum = row.col(writer_index);
                    if !datum.is_null() {
                        proof {
                            assert(spec_present(iw, cols, i as int));
                            assert(usize::MAX >= 0xffff_ffffu64);
                        }
                        match write_datum(&mut fixed, &mut heap, datum, heap_base) {
                            Ok(()) => {
                                proof {
                                    lemma_auto_spec_u32_to_from_le_bytes();
                                    assert(forall|x: u32|
                                        (#[trigger] spec_u32_to_le_bytes(x)).len() == 4);
                                    lemma_heap_len_monotone(iw, cols, 0, i as int);
                                    lemma_datum_fixed_len(
                                        *datum,
                                        (real_fixed_end + spec_heap_len_before(
                                            iw,
                                            cols,
                                            i as int,
                                        )) as u32,
                                    );
                                    assert(spec_datum_kind(*datum) == kinds[i as int]);
                                }
                            },
                            Err(e) => {
                                proof {
                                    lemma_failure_propagates(
                                        iw,
                                        cols,
                                        real_fixed_end as int,
                                        i as int + 1,
                                        n as int,
                                    );
                                }
                                return Err(e);
                            },
                        }
                    } else {
                        proof {
                            assert(!spec_present(iw, cols, i as int));
                        }
                    }
                },
                None => {
                    proof {
                        assert(!spec_present(iw, cols, i as int));
                    }
                },
            }
            proof {
                lemma_present_bytes_monotone(kinds, iw, cols, 0, i as int);
                lemma_heap_len_monotone(iw, cols, 0, i as int);
                lemma_present_bytes_monotone(kinds, iw, cols, 0, i as int + 1);
                lemma_heap_len_monotone(iw, cols, 0, i as int + 1);
                assert(spec_write_failure(iw, cols, real_fixed_end as int, i as int + 1) is None);
                assert(fixed@.take(4) =~= pre_fixed.take(4));
                assert(fixed@.subrange(4, 4 + bit_set_len as int) =~= pre_fixed.subrange(
                    4,
                    4 + bit_set_len as int,
                ));
                assert forall|j: int|
                    0 <= j < i + 1 && spec_present(iw, cols, j) implies #[trigger] fixed@.subrange(
                    4 + bit_set_len + spec_present_bytes_before(kinds, iw, cols, j),
                    4 + bit_set_len + spec_present_bytes_before(kinds, iw, cols, j)
                        + spec_byte_size_of_datum(kinds[j]),
                ) == spec_datum_fixed(
                    cols[iw[j]->0 as int],
                    (real_fixed_end + spec_heap_len_before(iw, cols, j)) as u32,
                ) by {
                    lemma_present_bytes_monotone(kinds, iw, cols, 0, j);
                    lemma_heap_len_monotone(iw, cols, 0, j);
                    let a = 4 + bit_set_len + spec_present_bytes_before(kinds, iw, cols, j);
                    let b = a + spec_byte_size_of_datum(kinds[j]);
                    if j < i {
                        lemma_present_bytes_monotone(kinds, iw, cols, j + 1, i as int);
                        assert(fixed@.subrange(a, b) =~= pre_fixed.subrange(a, b));
                    } else {
                        assert(fixed@.subrange(a, b) =~= spec_datum_fixed(
                            cols[iw[j]->0 as int],
                            (real_fixed_end + spec_heap_len_before(iw, cols, j)) as u32,
                        ));
                    }
                }
                assert forall|j: int|
                    0 <= j < i + 1 && spec_present(iw, cols, j) && (cols[iw[j]->0 as int]
                        is Varbinary || cols[iw[j]->0 as int] is String) implies #[trigger] heap@.subrange(
                    spec_heap_len_before(iw, cols, j),
                    spec_heap_len_before(iw, cols, j) + spec_heap_part(
                        cols[iw[j]->0 as int],
                    ).len(),
                ) == spec_heap_part(cols[iw[j]->0 as int]) by {
                    lemma_heap_len_monotone(iw, cols, 0, j);
                    if j < i {
                        lemma_heap_len_monotone(iw, cols, j + 1, i as int);
                        assert(heap@.subrange(
                            spec_heap_len_before(iw, cols, j),
                            spec_heap_len_before(iw, cols, j) + spec_heap_part(
                                cols[iw[j]->0 as int],
                            ).len(),
                        ) =~= pre_heap.subrange(
                            spec_heap_len_before(iw, cols, j),
                            spec_heap_len_before(iw, cols, j) + spec_heap_part(
                                cols[iw[j]->0 as int],
                            ).len(),
                        ));
                    } else {
                        assert(heap@.subrange(
                            spec_heap_len_before(iw, cols, j),
                            spec_heap_len_before(iw, cols, j) + spec_heap_part(
                                cols[iw[j]->0 as int],
                            ).len(),
                        ) =~= spec_heap_part(cols[iw[j]->0 as int]));
                    }
                }
            }
            i = i + 1;
        }
        // The whole row must stay within the row limit.
        proof {
            assert(fixed@.len() == real_fixed_end);
            assert(heap_base + heap@.len() <= MAX_ROW_LEN + 4 + MAX_STRING_LEN);
            assert(self.spec_total_len(*row) == fixed@.len() + heap@.len());
        }
        let total_len = fixed.len() + heap.len();
        if total_len > MAX_ROW_LEN {
            return Err(Error::RowTooLong { len: total_len });
        }
        inner.clear();
        inner.extend_from_slice(fixed.as_slice());
        inner.extend_from_slice(heap.as_slice());
        proof {
            let buf = inner@;
            assert(buf =~= fixed@ + heap@);
            assert(fixed@.len() == real_fixed_end);
            lemma_auto_spec_u32_to_from_le_bytes();
            assert(forall|x: u32| (#[trigger] spec_u32_to_le_bytes(x)).len() == 4);
            assert(buf.take(4) =~= fixed@.take(4));
            assert(spec_u32_from_le_bytes(buf.take(4)) == n as u32) by {
                assert(spec_u32_to_le_bytes(n as u32).len() == 4);
            }
            assert(buf.len() == self.spec_total_len(*row));
            let nn = spec_u32_from_le_bytes(buf.take(4)) as int;
            assert(nn == n);
            let bs = (nn + 7) / 8;
            assert(bs == bit_set_len);
            assert(buf.subrange(4, 4 + bs) =~= fixed@.subrange(4, 4 + bit_set_len as int));
            let rbits = buf.subrange(4, 4 + bs);
            assert(rbits == bits);
            assert(spec_row_layout(kinds, iw, cols, buf)) by {
                assert forall|i: int| 0 <= i < n implies spec_bit(buf.subrange(4, 4 + bs), i)
                    == spec_present(iw, cols, i) by {
                    assert(spec_bit(bits, i) == spec_present(iw, cols, i));
                }
            }
            assert forall|c: int| 0 <= c < n implies spec_row_view(*self.table_schema, buf, c)
                == spec_expected(iw, cols, c) && (spec_bit(rbits, c) ==> spec_tagged_readable(
                buf,
                4 + bs + spec_bits_offset(kinds, rbits, c),
            )) by {
                lemma_bits_offset_eq(kinds, rbits, iw, cols, c);
                lemma_present_bytes_monotone(kinds, iw, cols, 0, c);
                lemma_heap_len_monotone(iw, cols, 0, c);
                if spec_present(iw, cols, c) {
                    let d = cols[iw[c]->0 as int];
                    lemma_heap_len_monotone(iw, cols, c, n as int);
                    lemma_heap_len_monotone(iw, cols, c + 1, n as int);
                    let off_heap = real_fixed_end + spec_heap_len_before(iw, cols, c);
                    assert(off_heap <= u32::MAX);
                    let pos = 4 + bit_set_len + spec_present_bytes_before(kinds, iw, cols, c);
                    lemma_datum_fixed_len(d, off_heap as u32);
                    lemma_present_bytes_monotone(kinds, iw, cols, c + 1, n as int);
                    assert(buf.subrange(pos, pos + spec_byte_size_of_datum(kinds[c])) =~= fixed@.subrange(
                        pos,
                        pos + spec_byte_size_of_datum(kinds[c]),
                    ));
                    lemma_no_failure_prefix(iw, cols, real_fixed_end as int, c + 1, n as int);
                    if d is Varbinary || d is String {
                        assert(spec_var_len(d) <= MAX_STRING_LEN);
                        lemma_heap_len_monotone(iw, cols, c + 1, n as int);
                        assert(buf.subrange(
                            off_heap,
                            off_heap + spec_heap_part(d).len(),
                        ) =~= heap@.subrange(
                            spec_heap_len_before(iw, cols, c),
                            spec_heap_len_before(iw, cols, c) + spec_heap_part(d).len(),
                        ));
                    }
                    lemma_col_view(buf, pos, d, off_heap);
                } else {
                    assert(!spec_bit(rbits, c));
                    assert(spec_row_view(*self.table_schema, buf, c) == AbstractDatum::Null);
                    assert(spec_expected(iw, cols, c) == AbstractDatum::Null) by {
                        match iw[c] {
                            Some(j) => {
                                assert(cols[j as int] is Null);
                            },
                            None => {},
                        }
                    }
                }
            }
        }
        Ok(())
    }
}

/// A row whose columns can be read back by index.
pub trait ContiguousRow {
    /// Whether the row is decodable.
    spec fn wf(&self) -> bool;

    /// Number of columns.
    spec fn spec_num(&self) -> int;

    /// The value column `i` reads back as.
    spec fn spec_view_at(&self, i: int) -> AbstractDatum;

    /// Returns the number of datums.
    fn num_datum_views(&self) -> (r: usize)
        requires
            self.wf(),
        ensures
            r == self.spec_num(),
    ;

    /// Returns the view of the column at `index`.
    fn datum_view_at(&self, index: usize) -> (r: DatumView)
        requires
            self.wf(),
            index < self.spec_num(),
        ensures
            abs_of_view(r) == self.spec_view_at(index as int),
    ;
}

/// Reader of a row encoded without nulls.
pub struct ContiguousRowReaderNoNulls<'a> {
    pub inner: &'a [u8],
    pub schema: &'a Schema,
}

/// Reader of a row encoded with the present bitset.
pub struct ContiguousRowReaderWithNulls<'a> {
    pub inner: &'a [u8],
    pub schema: &'a Schema,
    /// Where each column's fixed part starts, or `None` for a null column.
    pub byte_offsets: Vec<Option<usize>>,
    /// Where the fixed datum area starts: after the header and the bitset.
    pub datum_offset: usize,
}

/// Reader of an encoded row, in whichever of the two forms it was written.
pub enum ContiguousRowReader<'a> {
    NoNulls(ContiguousRowReaderNoNulls<'a>),
    WithNulls(ContiguousRowReaderWithNulls<'a>),
}

impl<'a> ContiguousRowReader<'a> {
    /// Open a reader over an encoded row. Fails exactly when the buffer
    /// ends before the header, or inside the bitset the header announces.
    pub fn try_new(inner: &'a [u8], schema: &'a Schema) -> (r: Result<Self, Error>)
        requires
            schema.wf(),
        ensures
            inner@.len() < 4 ==> r == Err::<ContiguousRowReader<'a>, Error>(
                Error::NumNullColsMissing,
            ),
            inner@.len() >= 4 ==> {
                let nn = spec_u32_from_le_bytes(inner@.take(4)) as int;
                let bs = (nn + 7) / 8;
                if nn > 0 && inner@.len() - 4 < bs {
                    r == Err::<ContiguousRowReader<'a>, Error>(
                        Error::InvalidBitSetBytes {
                            expect_len: bs as usize,
                            given_len: (inner@.len() - 4) as usize,
                        },
                    )
                } else {
                    r is Ok && {
                        let reader = r->Ok_0;
                        &&& reader.spec_num() == schema.column_kinds@.len()
                        &&& forall|i: int|
                            0 <= i < schema.column_kinds@.len()
                                ==> #[trigger] reader.spec_view_at(i) == spec_row_view(
                                *schema,
                                inner@,
                                i,
                            )
                        &&& spec_row_readable(*schema, inner@) ==> reader.wf()
                    }
                }
            },
    {
        if inner.len() < 4 {
            return Err(Error::NumNullColsMissing);
        }
        proof {
            assert(inner@.subrange(0, 4) =~= inner@.take(4));
        }
        let num_null_cols = u32_from_le_bytes(slice_subrange(inner, 0, 4)) as usize;
        if num_null_cols > 0 {
            match ContiguousRowReaderWithNulls::try_new(inner, schema, num_null_cols) {
                Ok(reader) => Ok(ContiguousRowReader::WithNulls(reader)),
                Err(e) => Err(e),
            }
        } else {
            Ok(ContiguousRowReader::NoNulls(ContiguousRowReaderNoNulls { inner, schema }))
        }
    }
}

impl<'a> ContiguousRow for ContiguousRowReader<'a> {
    open spec fn wf(&self) -> bool {
        match self {
            ContiguousRowReader::NoNulls(v) => v.wf(),
            ContiguousRowReader::WithNulls(v) => v.wf(),
        }
    }

    open spec fn spec_num(&self) -> int {
        match self {
            ContiguousRowReader::NoNulls(v) => v.spec_num(),
            ContiguousRowReader::WithNulls(v) => v.spec_num(),
        }
    }

    open spec fn spec_view_at(&self, i: int) -> AbstractDatum {
        match self {
            ContiguousRowReader::NoNulls(v) => v.spec_view_at(i),
            ContiguousRowReader::WithNulls(v) => v.spec_view_at(i),
        }
    }

    fn num_datum_views(&self) -> (r: usize) {
        match self {
            ContiguousRowReader::NoNulls(v) => v.num_datum_views(),
            ContiguousRowReader::WithNulls(v) => v.num_datum_views(),
        }
    }

    fn datum_view_at(&self, index: usize) -> (r: DatumView) {
        match self {
            ContiguousRowReader::NoNulls(v) => v.datum_view_at(index),
            ContiguousRowReader::WithNulls(v) => v.datum_view_at(index),
        }
    }
}

impl<'a> ContiguousRowReaderNoNulls<'a> {
    pub open spec fn spec_num(&self) -> int {
        self.schema.column_kinds@.len() as int
    }

    pub open spec fn spec_view_at(&self, i: int) -> AbstractDatum {
        spec_row_view(*self.schema, self.inner@, i)
    }

    pub open spec fn wf(&self) -> bool {
        &&& self.schema.wf()
        &&& self.inner@.len() >= 4
        &&& spec_u32_from_le_bytes(self.inner@.take(4)) == 0
        &&& spec_row_readable(*self.schema, self.inner@)
    }
}

impl<'a> ContiguousRow for ContiguousRowReaderNoNulls<'a> {
    open spec fn wf(&self) -> bool {
        ContiguousRowReaderNoNulls::wf(self)
    }

    open spec fn spec_num(&self) -> int {
        ContiguousRowReaderNoNulls::spec_num(self)
    }

    open spec fn spec_view_at(&self, i: int) -> AbstractDatum {
        ContiguousRowReaderNoNulls::spec_view_at(self, i)
    }

    fn num_datum_views(&self) -> (r: usize) {
        self.schema.num_columns()
    }

    fn datum_view_at(&self, index: usize) -> (r: DatumView) {
        let buf_len = self.inner.len();
        proof {
            assert(spec_tagged_readable(self.inner@, 4 + spec_offsets_sum(
                self.schema.column_kinds@,
                index as int,
            )));
            assert(4 + self.schema.byte_offsets@[index as int] < buf_len);
        }
        let offset = self.schema.byte_offsets[index];
        let pos = 4 + offset;
        datum_view_at(self.inner, pos)
    }
}

/// Decode the tagged datum at fixed-area position `pos` of the row buffer;
/// an unknown kind tag reads as null.
pub fn datum_view_at(buf: &[u8], pos: usize) -> (r: DatumView)
    requires
        spec_tagged_readable(buf@, pos as int),
    ensures
        abs_of_view(r) == spec_view_tagged(buf@, pos as int),
{
    let buf_len = buf.len();
    let tag = *vstd::slice::slice_index_get(buf, pos);
    match DatumKind::try_from_u8(tag) {
        None => DatumView::Null,
        Some(kind) => {
            let datum_buf = slice_subrange(buf, pos + 1, buf_len);
            proof {
                assert(datum_buf@ =~= buf@.skip(pos + 1));
            }
            must_read_view(&kind, datum_buf, buf)
        },
    }
}

impl<'a> ContiguousRowReaderWithNulls<'a> {
    pub open spec fn spec_num(&self) -> int {
        self.schema.column_kinds@.len() as int
    }

    pub open spec fn spec_view_at(&self, i: int) -> AbstractDatum {
        spec_row_view(*self.schema, self.inner@, i)
    }

    /// The precomputed offsets agree with the header, the bitset and the
    /// schema, and every present column is decodable.
    pub open spec fn wf(&self) -> bool {
        let nn = spec_u32_from_le_bytes(self.inner@.take(4)) as int;
        let bs = (nn + 7) / 8;
        &&& self.schema.wf()
        &&& self.inner@.len() >= 4 + bs
        &&& nn > 0
        &&& self.datum_offset == 4 + bs
        &&& self.byte_offsets@.len() == self.schema.column_kinds@.len()
        &&& forall|i: int|
            0 <= i < self.byte_offsets@.len() ==> #[trigger] self.byte_offsets@[i] == (if i < nn
                && spec_bit(self.inner@.subrange(4, 4 + bs), i) && 4 + bs + spec_bits_offset(
                self.schema.column_kinds@,
                self.inner@.subrange(4, 4 + bs),
                i,
            ) <= usize::MAX {
                Some((4 + bs + spec_bits_offset(
                    self.schema.column_kinds@,
                    self.inner@.subrange(4, 4 + bs),
                    i,
                )) as usize)
            } else {
                None
            })
        &&& spec_row_readable(*self.schema, self.inner@)
    }

    /// Precompute each column's position from the bitset: absent columns
    /// take no fixed-area bytes.
    pub fn try_new(inner: &'a [u8], schema: &'a Schema, num_null_cols: usize) -> (r: Result<
        Self,
        Error,
    >)
        requires
            schema.wf(),
            inner@.len() >= 4,
            num_null_cols > 0,
            num_null_cols == spec_u32_from_le_bytes(inner@.take(4)),
        ensures
            ({
                let nn = num_null_cols as int;
                let bs = (nn + 7) / 8;
                if inner@.len() - 4 < bs {
                    r == Err::<ContiguousRowReaderWithNulls<'a>, Error>(
                        Error::InvalidBitSetBytes {
                            expect_len: bs as usize,
                            given_len: (inner@.len() - 4) as usize,
                        },
                    )
                } else {
                    r is Ok && {
                        let reader = r->Ok_0;
                        &&& reader.inner == inner
                        &&& reader.schema == schema
                        &&& reader.spec_num() == schema.column_kinds@.len()
                        &&& forall|i: int|
                            0 <= i < schema.column_kinds@.len()
                                ==> #[trigger] reader.spec_view_at(i) == spec_row_view(
                                *schema,
                                inner@,
                                i,
                            )
                        &&& spec_row_readable(*schema, inner@) ==> reader.wf()
                    }
                }
            }),
    {
        let bit_set_size = num_null_cols / 8 + (if num_null_cols % 8 != 0 {
            1
        } else {
            0
        });
        proof {
            vstd::arithmetic::div_mod::lemma_fundamental_div_mod(num_null_cols as int, 8);
            vstd::arithmetic::div_mod::lemma_mod_division_less_than_divisor(
                num_null_cols as int,
                8,
            );
            vstd::arithmetic::div_mod::lemma_fundamental_div_mod((num_null_cols + 7) as int, 8);
            vstd::arithmetic::div_mod::lemma_mod_division_less_than_divisor(
                (num_null_cols + 7) as int,
                8,
            );
            assert(bit_set_size as int == (num_null_cols as int + 7) / 8);
        }
        if inner.len() - 4 < bit_set_size {
            return Err(
                Error::InvalidBitSetBytes {
                    expect_len: bit_set_size,
                    given_len: inner.len() - 4,
                },
            );
        }
        let ghost bits = inner@.subrange(4, 4 + bit_set_size as int);
        let n = schema.num_columns();
        let mut byte_offsets: Vec<Option<usize>> = Vec::new();
        let mut acc_present: usize = 0;
        let mut i: usize = 0;
        while i < n
            invariant
                schema.wf(),
                n == schema.column_kinds@.len(),
                i <= n,
                inner@.len() >= 4 + bit_set_size,
                bit_set_size == (num_null_cols + 7) as int / 8,
                bits == inner@.subrange(4, 4 + bit_set_size as int),
                byte_offsets@.len() == i,
                i as int <= num_null_cols ==> acc_present as int == spec_bits_offset(
                    schema.column_kinds@,
                    bits,
                    i as int,
                ),
                acc_present as int <= spec_offsets_sum(schema.column_kinds@, i as int),
                forall|k: int|
                    0 <= k < i ==> #[trigger] byte_offsets@[k] == (if k < num_null_cols
                        && spec_bit(bits, k) && 4 + bit_set_size as int + spec_bits_offset(
                        schema.column_kinds@,
                        bits,
                        k,
                    ) <= usize::MAX {
                        Some((4 + bit_set_size as int + spec_bits_offset(
                            schema.column_kinds@,
                            bits,
                            k,
                        )) as usize)
                    } else {
                        None
                    }),
            decreases n - i,
        {
            proof {
                lemma_bits_offset_bounded(schema.column_kinds@, bits, i as int + 1);
                crate::row::lemma_offsets_sum_monotone(
                    schema.column_kinds@,
                    i as int + 1,
                    n as int,
                );
            }
            let present = if i < num_null_cols {
                proof {
                    crate::row::lemma_bit_index_in_range(i as int, num_null_cols as int, bits.len() as int);
                }
                let byte_idx = i / 8;
                let bit_idx = (i % 8) as u8;
                let b = *vstd::slice::slice_index_get(inner, 4 + byte_idx);
                proof {
                    assert(bits[i as int / 8] == inner@[4 + i as int / 8]);
                }
                b & (1u8 << bit_idx) != 0
            } else {
                false
            };
            proof {
                lemma_bits_offset_bounded(schema.column_kinds@, bits, i as int);
            }
            if present && acc_present <= usize::MAX - 4 - bit_set_size {
                byte_offsets.push(Some(4 + bit_set_size + acc_present));
            } else {
                byte_offsets.push(None);
            }
            if present {
                acc_present = acc_present + byte_size_of_datum(&schema.column_kinds[i]);
            }
            i = i + 1;
        }
        let reader = ContiguousRowReaderWithNulls {
            inner,
            schema,
            byte_offsets,
            datum_offset: 4 + bit_set_size,
        };
        Ok(reader)
    }
}

/// The bitset-present offsets never exceed the all-columns offsets.
pub proof fn lemma_bits_offset_bounded(kinds: Seq<DatumKind>, bits: Seq<u8>, i: int)
    requires
        0 <= i <= kinds.len(),
    ensures
        0 <= spec_bits_offset(kinds, bits, i) <= spec_offsets_sum(kinds, i),
    decreases i,
{
    if i > 0 {
        lemma_bits_offset_bounded(kinds, bits, i - 1);
    }
}

impl<'a> ContiguousRow for ContiguousRowReaderWithNulls<'a> {
    open spec fn wf(&self) -> bool {
        ContiguousRowReaderWithNulls::wf(self)
    }

    open spec fn spec_num(&self) -> int {
        ContiguousRowReaderWithNulls::spec_num(self)
    }

    open spec fn spec_view_at(&self, i: int) -> AbstractDatum {
        ContiguousRowReaderWithNulls::spec_view_at(self, i)
    }

    fn num_datum_views(&self) -> (r: usize) {
        self.schema.num_columns()
    }

    fn datum_view_at(&self, index: usize) -> (r: DatumView) {
        let buf_len = self.inner.len();
        let ghost nn = spec_u32_from_le_bytes(self.inner@.take(4)) as int;
        let ghost bs = (nn + 7) / 8;
        let ghost bits = self.inner@.subrange(4, 4 + bs);
        match self.byte_offsets[index] {
            None => {
                proof {
                    if index < nn && spec_bit(bits, index as int) {
                        // A present column always got its position: it is
                        // decodable, so its position fits the buffer.
                        assert(spec_tagged_readable(
                            self.inner@,
                            4 + bs + spec_bits_offset(self.schema.column_kinds@, bits, index as int),
                        ));
                        assert(false);
                    }
                    assert(self.spec_view_at(index as int) == AbstractDatum::Null);
                }
                DatumView::Null
            },
            Some(pos) => {
                proof {
                    assert(spec_bit(bits, index as int));
                    assert(spec_tagged_readable(
                        self.inner@,
                        4 + bs + spec_bits_offset(self.schema.column_kinds@, bits, index as int),
                    ));
                    assert(pos as int == 4 + bs + spec_bits_offset(
                        self.schema.column_kinds@,
                        bits,
                        index as int,
                    ));
                }
                datum_view_at(self.inner, pos)
            },
        }
    }
}

/// The mapping from a projected schema's columns to source row columns.
pub struct RowProjector {
    pub source_projection: Vec<Option<usize>>,
}

impl RowProjector {
    pub fn from_projection(source_projection: Vec<Option<usize>>) -> (r: Self)
        ensures
            r.source_projection@ == source_projection@,
    {
        RowProjector { source_projection }
    }
}

/// A contiguous row seen through a projection: each projected column reads
/// the mapped source column, and unmapped columns read as null.
pub struct ProjectedContiguousRow<'a, T> {
    pub source_row: T,
    pub projector: &'a RowProjector,
}

impl<'a, T: ContiguousRow> ProjectedContiguousRow<'a, T> {
    pub fn new(source_row: T, projector: &'a RowProjector) -> (r: Self)
        ensures
            r.source_row == source_row,
            r.projector == projector,
    {
        ProjectedContiguousRow { source_row, projector }
    }
}

impl<'a, T: ContiguousRow> ContiguousRow for ProjectedContiguousRow<'a, T> {
    open spec fn wf(&self) -> bool {
        &&& self.source_row.wf()
        &&& forall|i: int|
            0 <= i < self.projector.source_projection@.len()
                ==> match #[trigger] self.projector.source_projection@[i] {
                Some(j) => j < self.source_row.spec_num(),
                None => true,
            }
    }

    open spec fn spec_num(&self) -> int {
        self.projector.source_projection@.len() as int
    }

    open spec fn spec_view_at(&self, i: int) -> AbstractDatum {
        match self.projector.source_projection@[i] {
            Some(j) => self.source_row.spec_view_at(j as int),
            None => AbstractDatum::Null,
        }
    }

    fn num_datum_views(&self) -> (r: usize) {
        self.projector.source_projection.len()
    }

    fn datum_view_at(&self, index: usize) -> (r: DatumView) {
        match self.projector.source_projection[index] {
            Some(index_in_source) => self.source_row.datum_view_at(index_in_source),
            None => DatumView::Null,
        }
    }
}

/// Every variable-length datum the writer was given respects the string
/// limit.
pub open spec fn spec_strings_ok(iw: Seq<Option<usize>>, cols: Seq<Datum>, n: int) -> bool {
    forall|j: int|
        0 <= j < n ==> match #[trigger] iw[j] {
            Some(w) => spec_var_len(cols[w as int]) <= MAX_STRING_LEN,
            None => true,
        }
}

/// The write limits, characterized: a clean run means every string is
/// within the string limit, and conversely strings within the limit plus a
/// total encoding within the row limit mean a clean run. With `write_row`'s
/// contract this says the write succeeds exactly when every string stays
/// within 16 MiB and the whole row within 1 GiB.
pub proof fn lemma_write_failure_characterized(
    iw: Seq<Option<usize>>,
    cols: Seq<Datum>,
    fixed_end: int,
    n: int,
)
    requires
        0 <= fixed_end,
        0 <= n,
    ensures
        spec_write_failure(iw, cols, fixed_end, n) is None ==> spec_strings_ok(iw, cols, n),
        spec_strings_ok(iw, cols, n) && fixed_end + spec_heap_len_before(iw, cols, n)
            <= MAX_ROW_LEN ==> spec_write_failure(iw, cols, fixed_end, n) is None,
    decreases n,
{
    if n > 0 {
        lemma_heap_len_monotone(iw, cols, 0, n - 1);
        lemma_heap_len_monotone(iw, cols, n - 1, n);
        lemma_write_failure_characterized(iw, cols, fixed_end, n - 1);
        if spec_write_failure(iw, cols, fixed_end, n) is None {
            lemma_no_failure_prefix(iw, cols, fixed_end, n - 1, n);
            assert forall|j: int|
                0 <= j < n implies match #[trigger] iw[j] {
                Some(w) => spec_var_len(cols[w as int]) <= MAX_STRING_LEN,
                None => true,
            } by {
                if j < n - 1 {
                    assert(spec_strings_ok(iw, cols, n - 1));
                }
            }
        }
        if spec_strings_ok(iw, cols, n) && fixed_end + spec_heap_len_before(iw, cols, n)
            <= MAX_ROW_LEN {
            assert(spec_strings_ok(iw, cols, n - 1)) by {
                assert forall|j: int|
                    0 <= j < n - 1 implies match #[trigger] iw[j] {
                    Some(w) => spec_var_len(cols[w as int]) <= MAX_STRING_LEN,
                    None => true,
                } by {
                    assert(0 <= j < n);
                }
            }
            assert(spec_write_failure(iw, cols, fixed_end, n - 1) is None);
            match iw[n - 1] {
                Some(w) => {
                    let d = cols[w as int];
                    if d is Varbinary || d is String {
                        // The heap offset of this datum lies within the
                        // total encoding, which fits the row limit.
                        assert(spec_heap_len_before(iw, cols, n - 1) <= spec_heap_len_before(
                            iw,
                            cols,
                            n,
                        ));
                        assert(fixed_end + spec_heap_len_before(iw, cols, n - 1) <= MAX_ROW_LEN);
                        assert(spec_var_len(d) <= MAX_STRING_LEN);
                    }
                },
                None => {},
            }
        }
    }
}

/// An in-memory buffer a contiguous row can be built in.
pub trait RowBuffer {
    /// The bytes held.
    spec fn view_bytes(&self) -> Seq<u8>;

    /// Clear the buffer and resize it to `new_len` bytes of `value`.
    fn reset(&mut self, new_len: usize, value: u8)
        ensures
            final(self).view_bytes() == Seq::new(new_len as nat, |i: int| value),
    ;

    /// Append a slice, growing the buffer.
    fn append_slice(&mut self, src: &[u8])
        ensures
            final(self).view_bytes() == old(self).view_bytes() + src@,
    ;
}

impl RowBuffer for Vec<u8> {
    open spec fn view_bytes(&self) -> Seq<u8> {
        self@
    }

    fn reset(&mut self, new_len: usize, value: u8) {
        self.clear();
        self.resize(new_len, value);
        proof {
            assert(self@ =~= Seq::new(new_len as nat, |i: int| value));
        }
    }

    fn append_slice(&mut self, src: &[u8]) {
        self.extend_from_slice(src);
    }
}

} // verus!
