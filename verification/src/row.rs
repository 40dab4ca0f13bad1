//! Row data model: datum kinds, datums, schema and the null bitset.
//!
//! A datum is one column value. Variable-length datums (strings and binary)
//! hold UTF-8 or raw bytes; fixed-length datums hold integers, timestamps
//! and the like. A schema fixes each column's kind and where its fixed-size
//! part lives inside an encoded row.

use vstd::prelude::*;

verus! {

/// The kind of a column value.
#[derive(Debug, Clone, Copy, PartialEq, Eq, Structural)]
pub enum DatumKind {
    Null,
    Timestamp,
    Varbinary,
    String,
    UInt64,
    UInt32,
    UInt16,
    UInt8,
    Int64,
    Int32,
    Int16,
    Int8,
    Boolean,
    Date,
    Time,
}

/// The tag byte a kind is stored as.
pub open spec fn spec_kind_tag(k: DatumKind) -> u8 {
    match k {
        DatumKind::Null => 0,
        DatumKind::Timestamp => 1,
        DatumKind::Varbinary => 4,
        DatumKind::String => 5,
        DatumKind::UInt64 => 6,
        DatumKind::UInt32 => 7,
        DatumKind::UInt16 => 8,
        DatumKind::UInt8 => 9,
        DatumKind::Int64 => 10,
        DatumKind::Int32 => 11,
        DatumKind::Int16 => 12,
        DatumKind::Int8 => 13,
        DatumKind::Boolean => 14,
        DatumKind::Date => 15,
        DatumKind::Time => 16,
    }
}

/// The kind a tag byte denotes, if any.
pub open spec fn spec_kind_of_tag(t: u8) -> Option<DatumKind> {
    if t == 0 {
        Some(DatumKind::Null)
    } else if t == 1 {
        Some(DatumKind::Timestamp)
    } else if t == 4 {
        Some(DatumKind::Varbinary)
    } else if t == 5 {
        Some(DatumKind::String)
    } else if t == 6 {
        Some(DatumKind::UInt64)
    } else if t == 7 {
        Some(DatumKind::UInt32)
    } else if t == 8 {
        Some(DatumKind::UInt16)
    } else if t == 9 {
        Some(DatumKind::UInt8)
    } else if t == 10 {
        Some(DatumKind::Int64)
    } else if t == 11 {
        Some(DatumKind::Int32)
    } else if t == 12 {
        Some(DatumKind::Int16)
    } else if t == 13 {
        Some(DatumKind::Int8)
    } else if t == 14 {
        Some(DatumKind::Boolean)
    } else if t == 15 {
        Some(DatumKind::Date)
    } else if t == 16 {
        Some(DatumKind::Time)
    } else {
        None
    }
}

impl DatumKind {
    /// The stored tag byte of this kind.
    pub fn into_u8(self) -> (r: u8)
        ensures
            r == spec_kind_tag(self),
            spec_kind_of_tag(r) == Some(self),
    {
        match self {
            DatumKind::Null => 0,
            DatumKind::Timestamp => 1,
            DatumKind::Varbinary => 4,
            DatumKind::String => 5,
            DatumKind::UInt64 => 6,
            DatumKind::UInt32 => 7,
            DatumKind::UInt16 => 8,
            DatumKind::UInt8 => 9,
            DatumKind::Int64 => 10,
            DatumKind::Int32 => 11,
            DatumKind::Int16 => 12,
            DatumKind::Int8 => 13,
            DatumKind::Boolean => 14,
            DatumKind::Date => 15,
            DatumKind::Time => 16,
        }
    }

    /// The kind a stored tag byte denotes.
    pub fn try_from_u8(t: u8) -> (r: Option<DatumKind>)
        ensures
            r == spec_kind_of_tag(t),
    {
        if t == 0 {
            Some(DatumKind::Null)
        } else if t == 1 {
            Some(DatumKind::Timestamp)
        } else if t == 4 {
            Some(DatumKind::Varbinary)
        } else if t == 5 {
            Some(DatumKind::String)
        } else if t == 6 {
            Some(DatumKind::UInt64)
        } else if t == 7 {
            Some(DatumKind::UInt32)
        } else if t == 8 {
            Some(DatumKind::UInt16)
        } else if t == 9 {
            Some(DatumKind::UInt8)
        } else if t == 10 {
            Some(DatumKind::Int64)
        } else if t == 11 {
            Some(DatumKind::Int32)
        } else if t == 12 {
            Some(DatumKind::Int16)
        } else if t == 13 {
            Some(DatumKind::Int8)
        } else if t == 14 {
            Some(DatumKind::Boolean)
        } else if t == 15 {
            Some(DatumKind::Date)
        } else if t == 16 {
            Some(DatumKind::Time)
        } else {
            None
        }
    }
}

/// One column value. Strings hold their UTF-8 bytes.
#[derive(Debug)]
pub enum Datum {
    Null,
    /// Milliseconds since the epoch.
    Timestamp(i64),
    Varbinary(Vec<u8>),
    /// UTF-8 bytes of a string value.
    String(Vec<u8>),
    UInt64(u64),
    UInt32(u32),
    UInt16(u16),
    UInt8(u8),
    Int64(i64),
    Int32(i32),
    Int16(i16),
    Int8(i8),
    Boolean(bool),
    /// Days relative to the epoch.
    Date(i32),
    /// Milliseconds since midnight.
    Time(i64),
}

/// A read-back column value, decoded from an encoded row.
#[derive(Debug)]
pub enum DatumView {
    Null,
    Timestamp(i64),
    Varbinary(Vec<u8>),
    String(Vec<u8>),
    UInt64(u64),
    UInt32(u32),
    UInt16(u16),
    UInt8(u8),
    Int64(i64),
    Int32(i32),
    Int16(i16),
    Int8(i8),
    Boolean(bool),
    Date(i32),
    Time(i64),
}

/// The mathematical value a datum denotes; variable-length payloads appear
/// as byte strings.
pub enum AbstractDatum {
    Null,
    Timestamp(i64),
    Varbinary(Seq<u8>),
    String(Seq<u8>),
    UInt64(u64),
    UInt32(u32),
    UInt16(u16),
    UInt8(u8),
    Int64(i64),
    Int32(i32),
    Int16(i16),
    Int8(i8),
    Boolean(bool),
    Date(i32),
    Time(i64),
}

/// What a datum denotes.
pub open spec fn abs_of_datum(d: Datum) -> AbstractDatum {
    match d {
        Datum::Null => AbstractDatum::Null,
        Datum::Timestamp(v) => AbstractDatum::Timestamp(v),
        Datum::Varbinary(v) => AbstractDatum::Varbinary(v@),
        Datum::String(v) => AbstractDatum::String(v@),
        Datum::UInt64(v) => AbstractDatum::UInt64(v),
        Datum::UInt32(v) => AbstractDatum::UInt32(v),
        Datum::UInt16(v) => AbstractDatum::UInt16(v),
        Datum::UInt8(v) => AbstractDatum::UInt8(v),
        Datum::Int64(v) => AbstractDatum::Int64(v),
        Datum::Int32(v) => AbstractDatum::Int32(v),
        Datum::Int16(v) => AbstractDatum::Int16(v),
        Datum::Int8(v) => AbstractDatum::Int8(v),
        Datum::Boolean(v) => AbstractDatum::Boolean(v),
        Datum::Date(v) => AbstractDatum::Date(v),
        Datum::Time(v) => AbstractDatum::Time(v),
    }
}

/// What a read-back view denotes.
pub open spec fn abs_of_view(d: DatumView) -> AbstractDatum {
    match d {
        DatumView::Null => AbstractDatum::Null,
        DatumView::Timestamp(v) => AbstractDatum::Timestamp(v),
        DatumView::Varbinary(v) => AbstractDatum::Varbinary(v@),
        DatumView::String(v) => AbstractDatum::String(v@),
        DatumView::UInt64(v) => AbstractDatum::UInt64(v),
        DatumView::UInt32(v) => AbstractDatum::UInt32(v),
        DatumView::UInt16(v) => AbstractDatum::UInt16(v),
        DatumView::UInt8(v) => AbstractDatum::UInt8(v),
        DatumView::Int64(v) => AbstractDatum::Int64(v),
        DatumView::Int32(v) => AbstractDatum::Int32(v),
        DatumView::Int16(v) => AbstractDatum::Int16(v),
        DatumView::Int8(v) => AbstractDatum::Int8(v),
        DatumView::Boolean(v) => AbstractDatum::Boolean(v),
        DatumView::Date(v) => AbstractDatum::Date(v),
        DatumView::Time(v) => AbstractDatum::Time(v),
    }
}

impl Datum {
    /// The kind of this datum.
    pub fn kind(&self) -> (r: DatumKind)
        ensures
            r == spec_datum_kind(*self),
    {
        match self {
            Datum::Null => DatumKind::Null,
            Datum::Timestamp(_) => DatumKind::Timestamp,
            Datum::Varbinary(_) => DatumKind::Varbinary,
            Datum::String(_) => DatumKind::String,
            Datum::UInt64(_) => DatumKind::UInt64,
            Datum::UInt32(_) => DatumKind::UInt32,
            Datum::UInt16(_) => DatumKind::UInt16,
            Datum::UInt8(_) => DatumKind::UInt8,
            Datum::Int64(_) => DatumKind::Int64,
            Datum::Int32(_) => DatumKind::Int32,
            Datum::Int16(_) => DatumKind::Int16,
            Datum::Int8(_) => DatumKind::Int8,
            Datum::Boolean(_) => DatumKind::Boolean,
            Datum::Date(_) => DatumKind::Date,
            Datum::Time(_) => DatumKind::Time,
        }
    }

    /// Whether this datum is the null value.
    pub fn is_null(&self) -> (r: bool)
        ensures
            r == (*self is Null),
    {
        matches!(self, Datum::Null)
    }

    /// Whether this datum's encoded size does not depend on its value.
    pub fn is_fixed_sized(&self) -> (r: bool)
        ensures
            r == spec_is_fixed_sized(*self),
    {
        match self {
            Datum::Varbinary(_) | Datum::String(_) => false,
            _ => true,
        }
    }

    /// The byte length of a variable-length payload; zero for fixed kinds.
    pub fn size(&self) -> (r: usize)
        ensures
            r == spec_var_len(*self),
    {
        match self {
            Datum::Varbinary(v) => v.len(),
            Datum::String(v) => v.len(),
            _ => 0,
        }
    }

    /// The view this datum reads back as.
    pub fn as_view(&self) -> (r: DatumView)
        ensures
            abs_of_view(r) == abs_of_datum(*self),
    {
        match self {
            Datum::Null => DatumView::Null,
            Datum::Timestamp(v) => DatumView::Timestamp(*v),
            Datum::Varbinary(v) => {
                let mut c: Vec<u8> = Vec::new();
                c.extend_from_slice(v.as_slice());
                proof {
                    assert(c@ =~= v@);
                }
                DatumView::Varbinary(c)
            },
            Datum::String(v) => {
                let mut c: Vec<u8> = Vec::new();
                c.extend_from_slice(v.as_slice());
                proof {
                    assert(c@ =~= v@);
                }
                DatumView::String(c)
            },
            Datum::UInt64(v) => DatumView::UInt64(*v),
            Datum::UInt32(v) => DatumView::UInt32(*v),
            Datum::UInt16(v) => DatumView::UInt16(*v),
            Datum::UInt8(v) => DatumView::UInt8(*v),
            Datum::Int64(v) => DatumView::Int64(*v),
            Datum::Int32(v) => DatumView::Int32(*v),
            Datum::Int16(v) => DatumView::Int16(*v),
            Datum::Int8(v) => DatumView::Int8(*v),
            Datum::Boolean(v) => DatumView::Boolean(*v),
            Datum::Date(v) => DatumView::Date(*v),
            Datum::Time(v) => DatumView::Time(*v),
        }
    }
}

impl DatumView {
    /// Whether two views denote the same value.
    pub fn same(&self, other: &DatumView) -> (r: bool)
        ensures
            r == (abs_of_view(*self) == abs_of_view(*other)),
    {
        match (self, other) {
            (DatumView::Null, DatumView::Null) => true,
            (DatumView::Timestamp(a), DatumView::Timestamp(b)) => a == b,
            (DatumView::Varbinary(a), DatumView::Varbinary(b)) => bytes_eq(
                a.as_slice(),
                b.as_slice(),
            ),
            (DatumView::String(a), DatumView::String(b)) => bytes_eq(a.as_slice(), b.as_slice()),
            (DatumView::UInt64(a), DatumView::UInt64(b)) => a == b,
            (DatumView::UInt32(a), DatumView::UInt32(b)) => a == b,
            (DatumView::UInt16(a), DatumView::UInt16(b)) => a == b,
            (DatumView::UInt8(a), DatumView::UInt8(b)) => a == b,
            (DatumView::Int64(a), DatumView::Int64(b)) => a == b,
            (DatumView::Int32(a), DatumView::Int32(b)) => a == b,
            (DatumView::Int16(a), DatumView::Int16(b)) => a == b,
            (DatumView::Int8(a), DatumView::Int8(b)) => a == b,
            (DatumView::Boolean(a), DatumView::Boolean(b)) => a == b,
            (DatumView::Date(a), DatumView::Date(b)) => a == b,
            (DatumView::Time(a), DatumView::Time(b)) => a == b,
            _ => false,
        }
    }
}

/// Whether two byte slices hold the same bytes.
pub fn bytes_eq(a: &[u8], b: &[u8]) -> (r: bool)
    ensures
        r == (a@ == b@),
{
    matches!(crate::memkey::compare_bytes(a, b), core::cmp::Ordering::Equal)
}

/// The kind of a datum.
pub open spec fn spec_datum_kind(d: Datum) -> DatumKind {
    match d {
        Datum::Null => DatumKind::Null,
        Datum::Timestamp(_) => DatumKind::Timestamp,
        Datum::Varbinary(_) => DatumKind::Varbinary,
        Datum::String(_) => DatumKind::String,
        Datum::UInt64(_) => DatumKind::UInt64,
        Datum::UInt32(_) => DatumKind::UInt32,
        Datum::UInt16(_) => DatumKind::UInt16,
        Datum::UInt8(_) => DatumKind::UInt8,
        Datum::Int64(_) => DatumKind::Int64,
        Datum::Int32(_) => DatumKind::Int32,
        Datum::Int16(_) => DatumKind::Int16,
        Datum::Int8(_) => DatumKind::Int8,
        Datum::Boolean(_) => DatumKind::Boolean,
        Datum::Date(_) => DatumKind::Date,
        Datum::Time(_) => DatumKind::Time,
    }
}

/// Whether the encoded size of the datum ignores its value.
pub open spec fn spec_is_fixed_sized(d: Datum) -> bool {
    !(d is Varbinary || d is String)
}

/// Byte length of a variable-length payload; zero for fixed kinds.
pub open spec fn spec_var_len(d: Datum) -> nat {
    match d {
        Datum::Varbinary(v) => v@.len(),
        Datum::String(v) => v@.len(),
        _ => 0,
    }
}

/// The bytes the fixed-size part of this kind occupies, the tag byte
/// included. Variable-length kinds store a 4-byte heap offset.
pub open spec fn spec_byte_size_of_datum(kind: DatumKind) -> nat {
    match kind {
        DatumKind::Null => 2,
        DatumKind::Timestamp => 9,
        DatumKind::Varbinary => 5,
        DatumKind::String => 5,
        DatumKind::UInt64 => 9,
        DatumKind::UInt32 => 5,
        DatumKind::UInt16 => 3,
        DatumKind::UInt8 => 2,
        DatumKind::Int64 => 9,
        DatumKind::Int32 => 5,
        DatumKind::Int16 => 3,
        DatumKind::Int8 => 2,
        DatumKind::Boolean => 2,
        DatumKind::Date => 5,
        DatumKind::Time => 9,
    }
}

/// The bytes the fixed-size part of a datum of this kind occupies in an
/// encoded row: one tag byte plus the in-place payload.
pub fn byte_size_of_datum(kind: &DatumKind) -> (r: usize)
    ensures
        r == spec_byte_size_of_datum(*kind),
{
    match kind {
        DatumKind::Null => 2,
        DatumKind::Timestamp => 9,
        DatumKind::Varbinary => 5,
        DatumKind::String => 5,
        DatumKind::UInt64 => 9,
        DatumKind::UInt32 => 5,
        DatumKind::UInt16 => 3,
        DatumKind::UInt8 => 2,
        DatumKind::Int64 => 9,
        DatumKind::Int32 => 5,
        DatumKind::Int16 => 3,
        DatumKind::Int8 => 2,
        DatumKind::Boolean => 2,
        DatumKind::Date => 5,
        DatumKind::Time => 9,
    }
}

/// One row: its column values in schema order of the writer.
#[derive(Debug)]
pub struct Row {
    pub cols: Vec<Datum>,
}

impl Row {
    pub fn from_datums(cols: Vec<Datum>) -> (r: Row)
        ensures
            r.cols@ == cols@,
    {
        Row { cols }
    }

    /// The datum of column `i`.
    pub fn col(&self, i: usize) -> (r: &Datum)
        requires
            i < self.cols@.len(),
        ensures
            *r == self.cols@[i as int],
    {
        &self.cols[i]
    }

    pub fn num_columns(&self) -> (r: usize)
        ensures
            r == self.cols@.len(),
    {
        self.cols.len()
    }
}

/// Sum of the fixed-part sizes of the first `n` columns: where column `n`'s
/// fixed part begins, relative to the start of the datum area.
pub open spec fn spec_offsets_sum(kinds: Seq<DatumKind>, n: int) -> int
    decreases n,
{
    if n <= 0 {
        0
    } else {
        spec_offsets_sum(kinds, n - 1) + spec_byte_size_of_datum(kinds[n - 1])
    }
}

/// A table schema: the kind of each column, which columns form the primary
/// key, and the precomputed byte offset of each column's fixed part.
#[derive(Debug)]
pub struct Schema {
    pub column_kinds: Vec<DatumKind>,
    pub primary_key_indexes: Vec<usize>,
    pub byte_offsets: Vec<usize>,
    pub string_buffer_offset: usize,
}

impl Schema {
    /// Offsets agree with the column kinds and the key indexes are valid
    /// columns.
    pub open spec fn wf(&self) -> bool {
        &&& self.byte_offsets@.len() == self.column_kinds@.len()
        &&& forall|i: int|
            0 <= i < self.byte_offsets@.len() ==> #[trigger] self.byte_offsets@[i] as int
                == spec_offsets_sum(self.column_kinds@, i)
        &&& self.string_buffer_offset as int == spec_offsets_sum(
            self.column_kinds@,
            self.column_kinds@.len() as int,
        )
        &&& forall|i: int|
            0 <= i < self.primary_key_indexes@.len() ==> #[trigger] self.primary_key_indexes@[i]
                < self.column_kinds@.len()
    }

    /// Build a schema from its column kinds and key column indexes.
    pub fn new(column_kinds: Vec<DatumKind>, primary_key_indexes: Vec<usize>) -> (r: Option<
        Schema,
    >)
        ensures
            (forall|i: int|
                0 <= i < primary_key_indexes@.len() ==> #[trigger] primary_key_indexes@[i]
                    < column_kinds@.len()) && spec_offsets_sum(
                column_kinds@,
                column_kinds@.len() as int,
            ) <= usize::MAX ==> r is Some,
            r is Some ==> r->0.wf() && r->0.column_kinds@ == column_kinds@
                && r->0.primary_key_indexes@ == primary_key_indexes@,
    {
        let n = column_kinds.len();
        let mut byte_offsets: Vec<usize> = Vec::new();
        let mut acc: usize = 0;
        let mut i: usize = 0;
        while i < n
            invariant
                n == column_kinds@.len(),
                i <= n,
                byte_offsets@.len() == i,
                acc as int == spec_offsets_sum(column_kinds@, i as int),
                forall|k: int|
                    0 <= k < i ==> #[trigger] byte_offsets@[k] as int == spec_offsets_sum(
                        column_kinds@,
                        k,
                    ),
            decreases n - i,
        {
            byte_offsets.push(acc);
            let sz = byte_size_of_datum(&column_kinds[i]);
            if acc > usize::MAX - sz {
                proof {
                    lemma_offsets_sum_monotone(column_kinds@, i as int + 1, n as int);
                }
                return None;
            }
            acc = acc + sz;
            i = i + 1;
        }
        let mut k: usize = 0;
        while k < primary_key_indexes.len()
            invariant
                k <= primary_key_indexes@.len(),
                forall|m: int|
                    0 <= m < k ==> #[trigger] primary_key_indexes@[m] < column_kinds@.len(),
                n == column_kinds@.len(),
            decreases primary_key_indexes@.len() - k,
        {
            if primary_key_indexes[k] >= n {
                return None;
            }
            k = k + 1;
        }
        Some(
            Schema {
                column_kinds,
                primary_key_indexes,
                byte_offsets,
                string_buffer_offset: acc,
            },
        )
    }

    pub fn num_columns(&self) -> (r: usize)
        ensures
            r == self.column_kinds@.len(),
    {
        self.column_kinds.len()
    }
}

/// The mapping from a column of the table schema to the column of the
/// writer's row that holds it, or `None` for columns the writer does not
/// supply.
#[derive(Debug)]
pub struct IndexInWriterSchema {
    pub indexes: Vec<Option<usize>>,
}

impl IndexInWriterSchema {
    /// The identity mapping for a writer whose rows match the table schema.
    pub fn for_same_schema(num_columns: usize) -> (r: Self)
        ensures
            r.indexes@.len() == num_columns,
            forall|i: int| 0 <= i < num_columns ==> #[trigger] r.indexes@[i] == Some(i as usize),
    {
        let mut indexes: Vec<Option<usize>> = Vec::new();
        let mut i: usize = 0;
        while i < num_columns
            invariant
                i <= num_columns,
                indexes@.len() == i,
                forall|k: int| 0 <= k < i ==> #[trigger] indexes@[k] == Some(k as usize),
            decreases num_columns - i,
        {
            indexes.push(Some(i));
            i = i + 1;
        }
        IndexInWriterSchema { indexes }
    }

    /// Where column `i` of the table schema lives in the writer's rows.
    pub fn column_index_in_writer(&self, i: usize) -> (r: Option<usize>)
        requires
            i < self.indexes@.len(),
        ensures
            r == self.indexes@[i as int],
    {
        self.indexes[i]
    }
}

/// A bitset over the columns of one row: bit `i` set means column `i` is
/// present (not null).
#[derive(Debug)]
pub struct BitSet {
    pub bytes: Vec<u8>,
    pub num_bits: usize,
}

/// Whether bit `i` is set in the stored bytes.
pub open spec fn spec_bit(bytes: Seq<u8>, i: int) -> bool {
    bytes[i / 8] & (1u8 << ((i % 8) as u8)) != 0
}

impl BitSet {
    /// Bytes needed for `num_bits` bits.
    pub fn num_bytes(num_bits: usize) -> (r: usize)
        requires
            num_bits < usize::MAX - 7,
        ensures
            r == (num_bits + 7) as int / 8,
    {
        (num_bits + 7) / 8
    }

    pub open spec fn wf(&self) -> bool {
        self.bytes@.len() == (self.num_bits + 7) as int / 8
    }

    /// An all-clear bitset of `num_bits` bits.
    pub fn new(num_bits: usize) -> (r: Self)
        requires
            num_bits < usize::MAX - 7,
        ensures
            r.wf(),
            r.num_bits == num_bits,
            forall|i: int| 0 <= i < num_bits ==> !spec_bit(r.bytes@, i),
    {
        let n = (num_bits + 7) / 8;
        let mut bytes: Vec<u8> = Vec::new();
        let mut k: usize = 0;
        while k < n
            invariant
                k <= n,
                bytes@.len() == k,
                forall|m: int| 0 <= m < k ==> #[trigger] bytes@[m] == 0u8,
            decreases n - k,
        {
            bytes.push(0);
            k = k + 1;
        }
        proof {
            assert forall|i: int| 0 <= i < num_bits implies !spec_bit(bytes@, i) by {
                vstd::arithmetic::div_mod::lemma_mod_division_less_than_divisor(i, 8);
                vstd::arithmetic::div_mod::lemma_div_pos_is_pos(i, 8);
                assert(i / 8 < bytes@.len()) by {
                    assert(8 * ((num_bits + 7) as int / 8) >= num_bits) by {
                        vstd::arithmetic::div_mod::lemma_fundamental_div_mod(
                            (num_bits + 7) as int,
                            8,
                        );
                        vstd::arithmetic::div_mod::lemma_mod_division_less_than_divisor(
                            (num_bits + 7) as int,
                            8,
                        );
                    }
                    vstd::arithmetic::div_mod::lemma_div_is_ordered(i, num_bits as int, 8);
                    if i / 8 >= bytes@.len() {
                        vstd::arithmetic::div_mod::lemma_fundamental_div_mod(i, 8);
                        vstd::arithmetic::div_mod::lemma_fundamental_div_mod(num_bits as int, 8);
                        assert(false);
                    }
                }
                let b = bytes@[i / 8];
                let k = (i % 8) as u8;
                assert(b == 0u8);
                assert(0u8 & (1u8 << k) == 0u8) by (bit_vector);
            }
        }
        BitSet { bytes, num_bits }
    }

    /// Build a bitset from raw bytes when their length matches.
    pub fn try_from_raw(bytes: Vec<u8>, num_bits: usize) -> (r: Option<Self>)
        requires
            num_bits < usize::MAX - 7,
        ensures
            bytes@.len() == (num_bits + 7) as int / 8 ==> r is Some && r->0.wf() && r->0.bytes@
                == bytes@ && r->0.num_bits == num_bits,
            bytes@.len() != (num_bits + 7) as int / 8 ==> r is None,
    {
        if bytes.len() == (num_bits + 7) / 8 {
            Some(BitSet { bytes, num_bits })
        } else {
            None
        }
    }

    /// Set bit `i`.
    pub fn set(&mut self, i: usize)
        requires
            old(self).wf(),
            i < old(self).num_bits,
        ensures
            final(self).wf(),
            final(self).num_bits == old(self).num_bits,
            spec_bit(final(self).bytes@, i as int),
            forall|m: int|
                0 <= m < old(self).num_bits && m != i ==> spec_bit(final(self).bytes@, m)
                    == spec_bit(old(self).bytes@, m),
    {
        proof {
            lemma_bit_index_in_range(i as int, self.num_bits as int, self.bytes@.len() as int);
        }
        let byte_idx = i / 8;
        let bit_idx = (i % 8) as u8;
        let b = self.bytes[byte_idx];
        let nb = b | (1u8 << bit_idx);
        self.bytes.set(byte_idx, nb);
        proof {
            let bi = i as int / 8;
            let ki = (i as int % 8) as u8;
            assert(nb & (1u8 << ki) != 0 && (forall|o: u8|
                o < 8 && o != ki ==> #[trigger] (nb & (1u8 << o)) == (b & (1u8 << o))))
                by (bit_vector)
                requires
                    nb == b | (1u8 << ki),
                    ki < 8,
            ;
            assert(spec_bit(self.bytes@, i as int));
            assert forall|m: int|
                0 <= m < self.num_bits && m != i implies spec_bit(self.bytes@, m) == spec_bit(
                old(self).bytes@,
                m,
            ) by {
                lemma_bit_index_in_range(m, self.num_bits as int, self.bytes@.len() as int);
                vstd::arithmetic::div_mod::lemma_mod_division_less_than_divisor(m, 8);
                if m / 8 == bi {
                    assert(m % 8 != i as int % 8) by {
                        if m % 8 == i as int % 8 {
                            vstd::arithmetic::div_mod::lemma_fundamental_div_mod(m, 8);
                            vstd::arithmetic::div_mod::lemma_fundamental_div_mod(i as int, 8);
                        }
                    }
                    let o = (m % 8) as u8;
                    assert((nb & (1u8 << o)) == (b & (1u8 << o)));
                }
            }
        }
    }

    /// Whether bit `i` is set; `None` when `i` is out of range.
    pub fn is_set(&self, i: usize) -> (r: Option<bool>)
        requires
            self.wf(),
        ensures
            i < self.num_bits ==> r == Some(spec_bit(self.bytes@, i as int)),
            i >= self.num_bits ==> r is None,
    {
        if i >= self.num_bits {
            return None;
        }
        proof {
            lemma_bit_index_in_range(i as int, self.num_bits as int, self.bytes@.len() as int);
            vstd::arithmetic::div_mod::lemma_mod_division_less_than_divisor(i as int, 8);
        }
        let byte_idx = i / 8;
        let bit_idx = (i % 8) as u8;
        Some(self.bytes[byte_idx] & (1u8 << bit_idx) != 0)
    }

    /// The stored bytes.
    pub fn as_bytes(&self) -> (r: &Vec<u8>)
        ensures
            r@ == self.bytes@,
    {
        &self.bytes
    }
}

/// Prefix sums of the column sizes grow with the prefix.
pub proof fn lemma_offsets_sum_monotone(kinds: Seq<DatumKind>, i: int, n: int)
    requires
        0 <= i <= n <= kinds.len(),
    ensures
        spec_offsets_sum(kinds, i) <= spec_offsets_sum(kinds, n),
    decreases n - i,
{
    if i < n {
        lemma_offsets_sum_monotone(kinds, i + 1, n);
    }
}

/// A valid bit index lives in a valid byte of the bitset.
pub proof fn lemma_bit_index_in_range(i: int, num_bits: int, num_bytes: int)
    requires
        0 <= i < num_bits,
        num_bytes == (num_bits + 7) / 8,
    ensures
        0 <= i / 8 < num_bytes,
        0 <= i % 8 < 8,
{
    vstd::arithmetic::div_mod::lemma_mod_division_less_than_divisor(i, 8);
    vstd::arithmetic::div_mod::lemma_div_pos_is_pos(i, 8);
    vstd::arithmetic::div_mod::lemma_fundamental_div_mod((num_bits + 7) as int, 8);
    vstd::arithmetic::div_mod::lemma_mod_division_less_than_divisor((num_bits + 7) as int, 8);
    vstd::arithmetic::div_mod::lemma_div_is_ordered(i, num_bits - 1, 8);
    vstd::arithmetic::div_mod::lemma_fundamental_div_mod(i, 8);
    vstd::arithmetic::div_mod::lemma_fundamental_div_mod(num_bits - 1, 8);
    vstd::arithmetic::div_mod::lemma_mod_division_less_than_divisor(num_bits - 1, 8);
}

} // verus!
