//! Memtable internal-key codec.
//!
//! An internal key is the memcomparable-encoded user key followed by a fixed
//! 12-byte key sequence: the WAL sequence number and the row index within the
//! write batch, both stored complemented and big-endian so that plain
//! lexicographic byte order visits higher sequences (and, within one
//! sequence, higher row indexes) first.

use vstd::prelude::*;
use crate::bytesenc::{
    be_bytes_of, nat_of_be_bytes, lex_less, u64_to_be_bytes, u32_to_be_bytes, u64_from_be_bytes,
    u32_from_be_bytes, lemma_be_bytes_len, lemma_be_round_trip, lemma_be_order,
    lemma_pow256_values,
};
use vstd::slice::slice_subrange;

verus! {

/// Row index in the write batch.
pub type RowIndex = u32;

/// How the key codec fails.
#[derive(Debug, Clone, Copy, PartialEq, Eq, Structural)]
pub enum Error {
    /// The buffer ended before the 8 sequence bytes.
    DecodeSequence,
    /// The buffer ended before the 4 row-index bytes.
    DecodeIndex,
    /// An internal key must be longer than the 12-byte key sequence tail.
    InternalKeyLen { len: usize },
}

/// Number of bytes of an encoded key sequence: a `u64` and a `u32`.
pub const KEY_SEQUENCE_BYTES_LEN: usize = 12;

/// Sequence number of a row in the memtable: the WAL sequence number of its
/// write batch and the unique index of the row within the batch. Ordered by
/// sequence descending, then index descending.
#[derive(Debug, Clone, Copy, PartialEq, Eq, Structural)]
pub struct KeySequence(pub u64, pub RowIndex);

impl KeySequence {
    pub fn new(sequence: u64, index: RowIndex) -> (r: Self)
        ensures
            r == KeySequence(sequence, index),
    {
        KeySequence(sequence, index)
    }

    #[inline]
    pub fn sequence(&self) -> (r: u64)
        ensures
            r == self.0,
    {
        self.0
    }

    #[inline]
    pub fn row_index(&self) -> (r: RowIndex)
        ensures
            r == self.1,
    {
        self.1
    }
}

/// The 8 bytes a sequence number encodes to: complemented, big-endian, so
/// that byte order is descending sequence order.
pub open spec fn spec_encode_sequence(sequence: u64) -> Seq<u8> {
    be_bytes_of((u64::MAX - sequence) as nat, 8)
}

/// The 12 bytes a key sequence encodes to.
pub open spec fn spec_encode_key_sequence(ks: KeySequence) -> Seq<u8> {
    spec_encode_sequence(ks.0) + be_bytes_of((u32::MAX - ks.1) as nat, 4)
}

/// Codec for the fixed 12-byte key-sequence tail of an internal key.
pub struct SequenceCodec;

impl SequenceCodec {
    /// Append the 12-byte encoding of `value` to `buf`.
    pub fn encode(&self, buf: &mut Vec<u8>, value: &KeySequence)
        ensures
            final(buf)@ == old(buf)@ + spec_encode_key_sequence(*value),
    {
        encode_sequence_number(buf, value.sequence());
        let reversed_index = u32::MAX - value.row_index();
        let idx_bytes = u32_to_be_bytes(reversed_index);
        buf.extend_from_slice(idx_bytes.as_slice());
        proof {
            assert(buf@ =~= old(buf)@ + spec_encode_key_sequence(*value));
        }
    }

    /// The encoded size of a key sequence, which is fixed.
    pub fn estimate_encoded_size(&self, _value: &KeySequence) -> (r: usize)
        ensures
            r == KEY_SEQUENCE_BYTES_LEN,
    {
        KEY_SEQUENCE_BYTES_LEN
    }

    /// Decode a key sequence from the first 12 bytes of `buf`.
    pub fn decode(&self, buf: &[u8]) -> (r: Result<KeySequence, Error>)
        ensures
            buf@.len() >= 12 ==> r is Ok && buf@.subrange(0, 12)
                == spec_encode_key_sequence(r->Ok_0),
            buf@.len() < 8 ==> r == Err::<KeySequence, Error>(Error::DecodeSequence),
            8 <= buf@.len() < 12 ==> r == Err::<KeySequence, Error>(Error::DecodeIndex),
    {
        if buf.len() < 8 {
            return Err(Error::DecodeSequence);
        }
        if buf.len() < 12 {
            return Err(Error::DecodeIndex);
        }
        let seq_part = slice_subrange(buf, 0, 8);
        let idx_part = slice_subrange(buf, 8, 12);
        let reversed_sequence = u64_from_be_bytes(seq_part);
        let reversed_index = u32_from_be_bytes(idx_part);
        let sequence = u64::MAX - reversed_sequence;
        let row_index = u32::MAX - reversed_index;
        proof {
            let ks = KeySequence(sequence, row_index);
            assert(u64::MAX - sequence == reversed_sequence);
            assert(u32::MAX - row_index == reversed_index);
            assert(buf@.subrange(0, 12) =~= spec_encode_key_sequence(ks)) by {
                assert(seq_part@ == be_bytes_of(reversed_sequence as nat, 8));
                assert(idx_part@ == be_bytes_of(reversed_index as nat, 4));
                lemma_be_bytes_len(reversed_sequence as nat, 8);
                assert forall|i: int| 0 <= i < 12 implies buf@.subrange(0, 12)[i]
                    == spec_encode_key_sequence(ks)[i] by {
                    if i < 8 {
                        assert(buf@.subrange(0, 12)[i] == seq_part@[i]);
                    } else {
                        assert(buf@.subrange(0, 12)[i] == idx_part@[i - 8]);
                    }
                }
            }
        }
        Ok(KeySequence::new(sequence, row_index))
    }
}

/// Append the 8-byte descending encoding of `sequence` to `buf`.
fn encode_sequence_number(buf: &mut Vec<u8>, sequence: u64)
    ensures
        final(buf)@ == old(buf)@ + spec_encode_sequence(sequence),
{
    let reversed_sequence = u64::MAX - sequence;
    let seq_bytes = u64_to_be_bytes(reversed_sequence);
    buf.extend_from_slice(seq_bytes.as_slice());
    proof {
        assert(buf@ =~= old(buf)@ + spec_encode_sequence(sequence));
    }
}

/// The bytes of the internal key of user key `user_key` and sequence `ks`.
pub open spec fn spec_internal_key(user_key: Seq<u8>, ks: KeySequence) -> Seq<u8> {
    user_key + spec_encode_key_sequence(ks)
}

/// Fill `scratch` with the internal key to seek to for `user_key` at snapshot
/// `sequence`: the user key followed by the 8 descending sequence bytes, so
/// that a seek lands on the newest visible entry of that user key.
pub fn internal_key_for_seek(user_key: &[u8], sequence: u64, scratch: &mut Vec<u8>)
    ensures
        final(scratch)@ == user_key@ + spec_encode_sequence(sequence),
{
    scratch.clear();
    scratch.extend_from_slice(user_key);
    encode_sequence_number(scratch, sequence);
    proof {
        assert(scratch@ =~= user_key@ + spec_encode_sequence(sequence));
    }
}

/// Fill `scratch` with the user key to seek to.
pub fn user_key_for_seek(user_key: &[u8], scratch: &mut Vec<u8>)
    ensures
        final(scratch)@ == user_key@,
{
    scratch.clear();
    scratch.extend_from_slice(user_key);
    proof {
        assert(scratch@ =~= user_key@);
    }
}

/// Split an internal key into its user key and its decoded key sequence.
pub fn user_key_from_internal_key(internal_key: &[u8]) -> (r: Result<(&[u8], KeySequence), Error>)
    ensures
        internal_key@.len() > 12 ==> r is Ok && {
            let (uk, ks) = r->Ok_0;
            &&& internal_key@ == spec_internal_key(uk@, ks)
            &&& uk@ == internal_key@.subrange(0, internal_key@.len() - 12)
        },
        internal_key@.len() <= 12 ==> r == Err::<(&[u8], KeySequence), Error>(
            Error::InternalKeyLen { len: internal_key@.len() as usize },
        ),
{
    // An empty user key is meaningless.
    if internal_key.len() <= KEY_SEQUENCE_BYTES_LEN {
        return Err(Error::InternalKeyLen { len: internal_key.len() });
    }
    let split = internal_key.len() - KEY_SEQUENCE_BYTES_LEN;
    let left = slice_subrange(internal_key, 0, split);
    let right = slice_subrange(internal_key, split, internal_key.len());
    match SequenceCodec.decode(right) {
        Ok(ks) => {
            proof {
                assert(right@.subrange(0, 12) =~= right@);
                assert(internal_key@ =~= spec_internal_key(left@, ks));
            }
            Ok((left, ks))
        },
        Err(e) => {
            proof {
                assert(right@.len() == 12);
            }
            Err(e)
        },
    }
}

/// Byte-wise comparator over raw keys.
#[derive(Debug, Clone, Copy)]
pub struct BytewiseComparator;

impl BytewiseComparator {
    /// Three-way lexicographic comparison of two keys.
    pub fn compare_key(&self, lhs: &[u8], rhs: &[u8]) -> (r: core::cmp::Ordering)
        ensures
            r == core::cmp::Ordering::Less <==> lex_less(lhs@, rhs@),
            r == core::cmp::Ordering::Equal <==> lhs@ == rhs@,
            r == core::cmp::Ordering::Greater <==> lex_less(rhs@, lhs@),
    {
        compare_bytes(lhs, rhs)
    }

    /// Whether two keys hold the same bytes.
    pub fn same_key(&self, lhs: &[u8], rhs: &[u8]) -> (r: bool)
        ensures
            r <==> lhs@ == rhs@,
    {
        matches!(compare_bytes(lhs, rhs), core::cmp::Ordering::Equal)
    }
}

/// Three-way lexicographic comparison, proved against `lex_less`.
pub fn compare_bytes(lhs: &[u8], rhs: &[u8]) -> (r: core::cmp::Ordering)
    ensures
        r == core::cmp::Ordering::Less <==> lex_less(lhs@, rhs@),
        r == core::cmp::Ordering::Equal <==> lhs@ == rhs@,
        r == core::cmp::Ordering::Greater <==> lex_less(rhs@, lhs@),
{
    let mut i: usize = 0;
    let llen = lhs.len();
    let rlen = rhs.len();
    proof {
        assert(lhs@.skip(0) =~= lhs@);
        assert(rhs@.skip(0) =~= rhs@);
    }
    while i < llen && i < rlen
        invariant
            i <= llen,
            i <= rlen,
            llen == lhs@.len(),
            rlen == rhs@.len(),
            forall|j: int| 0 <= j < i ==> lhs@[j] == rhs@[j],
            lex_less(lhs@, rhs@) <==> lex_less(lhs@.skip(i as int), rhs@.skip(i as int)),
            lex_less(rhs@, lhs@) <==> lex_less(rhs@.skip(i as int), lhs@.skip(i as int)),
        decreases llen - i,
    {
        let a = *vstd::slice::slice_index_get(lhs, i);
        let b = *vstd::slice::slice_index_get(rhs, i);
        if a < b {
            proof {
                lemma_lex_less_skip_head(lhs@, rhs@, i as int);
            }
            return core::cmp::Ordering::Less;
        }
        if a > b {
            proof {
                lemma_lex_less_skip_head(rhs@, lhs@, i as int);
            }
            return core::cmp::Ordering::Greater;
        }
        proof {
            lemma_lex_less_skip_step(lhs@, rhs@, i as int);
            lemma_lex_less_skip_step(rhs@, lhs@, i as int);
        }
        i = i + 1;
    }
    if llen < rlen {
        proof {
            lemma_lex_less_skip_head(lhs@, rhs@, i as int);
            lemma_lex_not_less_of_prefix(rhs@, lhs@, i as int);
        }
        core::cmp::Ordering::Less
    } else if llen > rlen {
        proof {
            lemma_lex_less_skip_head(rhs@, lhs@, i as int);
            lemma_lex_not_less_of_prefix(lhs@, rhs@, i as int);
        }
        core::cmp::Ordering::Greater
    } else {
        proof {
            assert(lhs@ =~= rhs@);
            lemma_lex_not_less_of_prefix(lhs@, rhs@, i as int);
            lemma_lex_not_less_of_prefix(rhs@, lhs@, i as int);
        }
        core::cmp::Ordering::Equal
    }
}

/// The first `i` elements agree and position `i` decides the comparison.
proof fn lemma_lex_less_skip_head(a: Seq<u8>, b: Seq<u8>, i: int)
    requires
        0 <= i,
        i < b.len(),
        i <= a.len(),
        a.len() <= i || a[i as int] < b[i as int],
    ensures
        lex_less(a.skip(i), b.skip(i)),
{
    let sa = a.skip(i);
    let sb = b.skip(i);
    assert(sb.len() > 0);
    if sa.len() == 0 {
    } else {
        assert(sa[0] == a[i]);
        assert(sb[0] == b[i]);
    }
}

/// Skipping one more shared element keeps the comparison of the tails.
proof fn lemma_lex_less_skip_step(a: Seq<u8>, b: Seq<u8>, i: int)
    requires
        0 <= i < a.len(),
        i < b.len(),
        a[i] == b[i],
    ensures
        lex_less(a.skip(i), b.skip(i)) <==> lex_less(a.skip(i + 1), b.skip(i + 1)),
{
    let sa = a.skip(i);
    let sb = b.skip(i);
    assert(sa[0] == a[i]);
    assert(sb[0] == b[i]);
    assert(sa.drop_first() =~= a.skip(i + 1));
    assert(sb.drop_first() =~= b.skip(i + 1));
}

/// A sequence is never lexicographically below its own prefix.
proof fn lemma_lex_not_less_of_prefix(a: Seq<u8>, b: Seq<u8>, i: int)
    requires
        0 <= i <= b.len(),
        b.len() <= a.len(),
        i == b.len(),
    ensures
        !lex_less(a.skip(i), b.skip(i)),
{
    assert(b.skip(i).len() == 0);
}

/// Two distinct key sequences of one user key order newest first: the one
/// with the higher (sequence, row index) encodes to the lexicographically
/// smaller internal key, so a forward scan visits it first.
pub proof fn lemma_key_sequence_order(user_key: Seq<u8>, a: KeySequence, b: KeySequence)
    requires
        a.0 > b.0 || (a.0 == b.0 && a.1 > b.1),
    ensures
        lex_less(spec_internal_key(user_key, a), spec_internal_key(user_key, b)),
{
    lemma_lex_less_common_prefix(
        user_key,
        spec_encode_key_sequence(a),
        spec_encode_key_sequence(b),
    );
    lemma_pow256_values();
    lemma_be_bytes_len((u64::MAX - a.0) as nat, 8);
    lemma_be_bytes_len((u64::MAX - b.0) as nat, 8);
    if a.0 > b.0 {
        lemma_be_order((u64::MAX - a.0) as nat, (u64::MAX - b.0) as nat, 8);
        lemma_lex_less_append_left(
            spec_encode_sequence(a.0),
            spec_encode_sequence(b.0),
            be_bytes_of((u32::MAX - a.1) as nat, 4),
            be_bytes_of((u32::MAX - b.1) as nat, 4),
        );
    } else {
        lemma_be_order((u32::MAX - a.1) as nat, (u32::MAX - b.1) as nat, 4);
        lemma_lex_less_common_prefix(
            spec_encode_sequence(a.0),
            be_bytes_of((u32::MAX - a.1) as nat, 4),
            be_bytes_of((u32::MAX - b.1) as nat, 4),
        );
        assert(spec_encode_key_sequence(a) =~= spec_encode_sequence(a.0) + be_bytes_of(
            (u32::MAX - a.1) as nat,
            4,
        ));
    }
}

/// Prepending one shared prefix keeps the lexicographic comparison.
pub proof fn lemma_lex_less_common_prefix(p: Seq<u8>, a: Seq<u8>, b: Seq<u8>)
    ensures
        lex_less(p + a, p + b) <==> lex_less(a, b),
    decreases p.len(),
{
    if p.len() == 0 {
        assert(p + a =~= a);
        assert(p + b =~= b);
    } else {
        let pa = p + a;
        let pb = p + b;
        assert(pa[0] == p[0]);
        assert(pb[0] == p[0]);
        assert(pa.drop_first() =~= p.drop_first() + a);
        assert(pb.drop_first() =~= p.drop_first() + b);
        lemma_lex_less_common_prefix(p.drop_first(), a, b);
    }
}

/// When two equal-length prefixes already compare strictly, the suffixes do
/// not matter.
pub proof fn lemma_lex_less_append_left(a: Seq<u8>, b: Seq<u8>, s: Seq<u8>, t: Seq<u8>)
    requires
        a.len() == b.len(),
        lex_less(a, b),
    ensures
        lex_less(a + s, b + t),
    decreases a.len(),
{
    if a.len() > 0 {
        let xa = a + s;
        let xb = b + t;
        assert(xa[0] == a[0]);
        assert(xb[0] == b[0]);
        if a[0] == b[0] {
            assert(xa.drop_first() =~= a.drop_first() + s);
            assert(xb.drop_first() =~= b.drop_first() + t);
            assert(lex_less(a.drop_first(), b.drop_first()));
            lemma_lex_less_append_left(a.drop_first(), b.drop_first(), s, t);
        }
    }
}

/// Distinct user keys, of which neither is a prefix of the other, order the
/// internal keys exactly as the user keys order, whatever the sequences.
pub proof fn lemma_user_key_order(uk1: Seq<u8>, uk2: Seq<u8>, a: KeySequence, b: KeySequence)
    requires
        !uk1.is_prefix_of(uk2),
        !uk2.is_prefix_of(uk1),
    ensures
        lex_less(spec_internal_key(uk1, a), spec_internal_key(uk2, b)) <==> lex_less(uk1, uk2),
{
    lemma_lex_less_append_non_prefix(
        uk1,
        uk2,
        spec_encode_key_sequence(a),
        spec_encode_key_sequence(b),
    );
}

/// Appending anything to two sequences of which neither is a prefix of the
/// other keeps the lexicographic comparison.
pub proof fn lemma_lex_less_append_non_prefix(a: Seq<u8>, b: Seq<u8>, s: Seq<u8>, t: Seq<u8>)
    requires
        !a.is_prefix_of(b),
        !b.is_prefix_of(a),
    ensures
        lex_less(a + s, b + t) <==> lex_less(a, b),
    decreases a.len(),
{
    assert(a.len() > 0 && b.len() > 0) by {
        if a.len() == 0 {
            assert(a =~= b.subrange(0, 0));
        }
        if b.len() == 0 {
            assert(b =~= a.subrange(0, 0));
        }
    }
    let xa = a + s;
    let xb = b + t;
    assert(xa[0] == a[0]);
    assert(xb[0] == b[0]);
    if a[0] == b[0] {
        assert(xa.drop_first() =~= a.drop_first() + s);
        assert(xb.drop_first() =~= b.drop_first() + t);
        assert(!a.drop_first().is_prefix_of(b.drop_first())) by {
            if a.drop_first().is_prefix_of(b.drop_first()) {
                assert(a.len() <= b.len());
                assert forall|i: int| 0 <= i < a.len() implies a[i] == b.subrange(
                    0,
                    a.len() as int,
                )[i] by {
                    if i > 0 {
                        assert(a.drop_first()[i - 1] == b.drop_first().subrange(
                            0,
                            a.len() - 1,
                        )[i - 1]);
                    }
                }
                assert(a =~= b.subrange(0, a.len() as int));
            }
        }
        assert(!b.drop_first().is_prefix_of(a.drop_first())) by {
            if b.drop_first().is_prefix_of(a.drop_first()) {
                assert(b.len() <= a.len());
                assert forall|i: int| 0 <= i < b.len() implies b[i] == a.subrange(
                    0,
                    b.len() as int,
                )[i] by {
                    if i > 0 {
                        assert(b.drop_first()[i - 1] == a.drop_first().subrange(
                            0,
                            b.len() - 1,
                        )[i - 1]);
                    }
                }
                assert(b =~= a.subrange(0, b.len() as int));
            }
        }
        lemma_lex_less_append_non_prefix(a.drop_first(), b.drop_first(), s, t);
    }
}

/// Round trip of the key-sequence codec: decoding an encoded key sequence
/// yields the sequence and row index that were encoded.
pub proof fn lemma_key_sequence_round_trip(ks: KeySequence)
    ensures
        nat_of_be_bytes(spec_encode_key_sequence(ks).subrange(0, 8)) == u64::MAX - ks.0,
        nat_of_be_bytes(spec_encode_key_sequence(ks).subrange(8, 12)) == u32::MAX - ks.1,
{
    lemma_pow256_values();
    lemma_be_bytes_len((u64::MAX - ks.0) as nat, 8);
    lemma_be_bytes_len((u32::MAX - ks.1) as nat, 4);
    assert(spec_encode_key_sequence(ks).subrange(0, 8) =~= spec_encode_sequence(ks.0));
    assert(spec_encode_key_sequence(ks).subrange(8, 12) =~= be_bytes_of(
        (u32::MAX - ks.1) as nat,
        4,
    ));
    lemma_be_round_trip((u64::MAX - ks.0) as nat, 8);
    lemma_be_round_trip((u32::MAX - ks.1) as nat, 4);
}

/// The order-preserving escape of one byte of a variable-length key datum:
/// a zero byte becomes `0x00 0xff` so that the `0x00 0x01` terminator sorts
/// below every continuation.
pub open spec fn spec_escaped_bytes(s: Seq<u8>) -> Seq<u8>
    decreases s.len(),
{
    if s.len() == 0 {
        seq![0u8, 1u8]
    } else if s[0] == 0 {
        seq![0u8, 0xffu8] + spec_escaped_bytes(s.drop_first())
    } else {
        seq![s[0]] + spec_escaped_bytes(s.drop_first())
    }
}

/// The memcomparable bytes of one key datum: variable-length datums are
/// escaped and terminated; numeric datums are stored big-endian, signed
/// ones with the sign bit flipped, so byte order is value order.
pub open spec fn spec_key_datum_bytes(d: crate::row::Datum) -> Seq<u8> {
    match d {
        crate::row::Datum::Null => seq![0u8],
        crate::row::Datum::Timestamp(v) => be_bytes_of(((v as u64) ^ 0x8000_0000_0000_0000u64) as nat, 8),
        crate::row::Datum::Varbinary(v) => spec_escaped_bytes(v@),
        crate::row::Datum::String(v) => spec_escaped_bytes(v@),
        crate::row::Datum::UInt64(v) => be_bytes_of(v as nat, 8),
        crate::row::Datum::UInt32(v) => be_bytes_of(v as nat, 8),
        crate::row::Datum::UInt16(v) => be_bytes_of(v as nat, 8),
        crate::row::Datum::UInt8(v) => be_bytes_of(v as nat, 8),
        crate::row::Datum::Int64(v) => be_bytes_of(((v as u64) ^ 0x8000_0000_0000_0000u64) as nat, 8),
        crate::row::Datum::Int32(v) => be_bytes_of(((v as i64 as u64) ^ 0x8000_0000_0000_0000u64) as nat, 8),
        crate::row::Datum::Int16(v) => be_bytes_of(((v as i64 as u64) ^ 0x8000_0000_0000_0000u64) as nat, 8),
        crate::row::Datum::Int8(v) => be_bytes_of(((v as i64 as u64) ^ 0x8000_0000_0000_0000u64) as nat, 8),
        crate::row::Datum::Boolean(v) => be_bytes_of(if v { 1nat } else { 0nat }, 8),
        crate::row::Datum::Date(v) => be_bytes_of(((v as i64 as u64) ^ 0x8000_0000_0000_0000u64) as nat, 8),
        crate::row::Datum::Time(v) => be_bytes_of(((v as u64) ^ 0x8000_0000_0000_0000u64) as nat, 8),
    }
}

/// The memcomparable user-key bytes of a row: its primary key columns, in
/// key order.
pub open spec fn spec_user_key_bytes(key_indexes: Seq<usize>, cols: Seq<crate::row::Datum>, n: int) -> Seq<u8>
    decreases n,
{
    if n <= 0 {
        Seq::empty()
    } else {
        spec_user_key_bytes(key_indexes, cols, n - 1) + spec_key_datum_bytes(
            cols[key_indexes[n - 1] as int],
        )
    }
}

/// Append the escaped, terminated form of a variable-length key datum.
fn append_escaped(buf: &mut Vec<u8>, bytes: &[u8])
    ensures
        final(buf)@ == old(buf)@ + spec_escaped_bytes(bytes@),
{
    let ghost start = buf@;
    let n = bytes.len();
    let mut i: usize = 0;
    proof {
        assert(bytes@.skip(0) =~= bytes@);
    }
    while i < n
        invariant
            n == bytes@.len(),
            i <= n,
            start + spec_escaped_bytes(bytes@) == buf@ + spec_escaped_bytes(bytes@.skip(i as int)),
        decreases n - i,
    {
        proof {
            assert(bytes@.skip(i as int)[0] == bytes@[i as int]);
            assert(bytes@.skip(i as int).drop_first() =~= bytes@.skip(i as int + 1));
        }
        let ghost pre = buf@;
        let b = *vstd::slice::slice_index_get(bytes, i);
        if b == 0 {
            buf.push(0);
            buf.push(0xff);
            proof {
                assert(buf@ =~= pre + seq![0u8, 0xffu8]);
                assert(pre + seq![0u8, 0xffu8] + spec_escaped_bytes(bytes@.skip(i as int + 1))
                    =~= pre + (seq![0u8, 0xffu8] + spec_escaped_bytes(bytes@.skip(i as int + 1))));
            }
        } else {
            buf.push(b);
            proof {
                assert(buf@ =~= pre + seq![b]);
                assert(pre + seq![b] + spec_escaped_bytes(bytes@.skip(i as int + 1)) =~= pre + (
                seq![b] + spec_escaped_bytes(bytes@.skip(i as int + 1))));
            }
        }
        i = i + 1;
    }
    proof {
        assert(bytes@.skip(n as int) =~= Seq::<u8>::empty());
    }
    buf.push(0);
    buf.push(1);
    proof {
        assert(buf@ =~= start + spec_escaped_bytes(bytes@));
    }
}

/// Append the memcomparable bytes of one key datum.
fn append_key_datum(buf: &mut Vec<u8>, datum: &crate::row::Datum)
    ensures
        final(buf)@ == old(buf)@ + spec_key_datum_bytes(*datum),
{
    let ghost start = buf@;
    match datum {
        crate::row::Datum::Null => {
            buf.push(0);
            proof {
                assert(buf@ =~= start + spec_key_datum_bytes(*datum));
            }
        },
        crate::row::Datum::Varbinary(v) => {
            append_escaped(buf, v.as_slice());
        },
        crate::row::Datum::String(v) => {
            append_escaped(buf, v.as_slice());
        },
        crate::row::Datum::Timestamp(v) => {
            let b = u64_to_be_bytes((*v as u64) ^ 0x8000_0000_0000_0000);
            buf.extend_from_slice(b.as_slice());
            proof {
                assert(buf@ =~= start + spec_key_datum_bytes(*datum));
            }
        },
        crate::row::Datum::UInt64(v) => {
            let b = u64_to_be_bytes(*v);
            buf.extend_from_slice(b.as_slice());
            proof {
                assert(buf@ =~= start + spec_key_datum_bytes(*datum));
            }
        },
        crate::row::Datum::UInt32(v) => {
            let b = u64_to_be_bytes(*v as u64);
            buf.extend_from_slice(b.as_slice());
            proof {
                assert(buf@ =~= start + spec_key_datum_bytes(*datum));
            }
        },
        crate::row::Datum::UInt16(v) => {
            let b = u64_to_be_bytes(*v as u64);
            buf.extend_from_slice(b.as_slice());
            proof {
                assert(buf@ =~= start + spec_key_datum_bytes(*datum));
            }
        },
        crate::row::Datum::UInt8(v) => {
            let b = u64_to_be_bytes(*v as u64);
            buf.extend_from_slice(b.as_slice());
            proof {
                assert(buf@ =~= start + spec_key_datum_bytes(*datum));
            }
        },
        crate::row::Datum::Int64(v) => {
            let b = u64_to_be_bytes((*v as u64) ^ 0x8000_0000_0000_0000);
            buf.extend_from_slice(b.as_slice());
            proof {
                assert(buf@ =~= start + spec_key_datum_bytes(*datum));
            }
        },
        crate::row::Datum::Int32(v) => {
            let b = u64_to_be_bytes((*v as i64 as u64) ^ 0x8000_0000_0000_0000);
            buf.extend_from_slice(b.as_slice());
            proof {
                assert(buf@ =~= start + spec_key_datum_bytes(*datum));
            }
        },
        crate::row::Datum::Int16(v) => {
            let b = u64_to_be_bytes((*v as i64 as u64) ^ 0x8000_0000_0000_0000);
            buf.extend_from_slice(b.as_slice());
            proof {
                assert(buf@ =~= start + spec_key_datum_bytes(*datum));
            }
        },
        crate::row::Datum::Int8(v) => {
            let b = u64_to_be_bytes((*v as i64 as u64) ^ 0x8000_0000_0000_0000);
            buf.extend_from_slice(b.as_slice());
            proof {
                assert(buf@ =~= start + spec_key_datum_bytes(*datum));
            }
        },
        crate::row::Datum::Boolean(v) => {
            let b = u64_to_be_bytes(if *v {
                1
            } else {
                0
            });
            buf.extend_from_slice(b.as_slice());
            proof {
                assert(buf@ =~= start + spec_key_datum_bytes(*datum));
            }
        },
        crate::row::Datum::Date(v) => {
            let b = u64_to_be_bytes((*v as i64 as u64) ^ 0x8000_0000_0000_0000);
            buf.extend_from_slice(b.as_slice());
            proof {
                assert(buf@ =~= start + spec_key_datum_bytes(*datum));
            }
        },
        crate::row::Datum::Time(v) => {
            let b = u64_to_be_bytes((*v as u64) ^ 0x8000_0000_0000_0000);
            buf.extend_from_slice(b.as_slice());
            proof {
                assert(buf@ =~= start + spec_key_datum_bytes(*datum));
            }
        },
    }
}

/// Encoder of the comparable internal key of one row: the memcomparable
/// user key (the primary key columns in key order), then the 12-byte key
/// sequence.
pub struct ComparableInternalKey<'a> {
    /// Sequence of the row.
    pub sequence: KeySequence,
    /// Schema of the row, naming the primary key columns.
    pub schema: &'a crate::row::Schema,
}

impl<'a> ComparableInternalKey<'a> {
    pub fn new(sequence: KeySequence, schema: &'a crate::row::Schema) -> (r: Self)
        ensures
            r.sequence == sequence,
            r.schema == schema,
    {
        ComparableInternalKey { sequence, schema }
    }

    /// Append the internal key of `row` to `buf`: user key bytes, then the
    /// descending key sequence.
    pub fn encode(&self, buf: &mut Vec<u8>, row: &crate::row::Row)
        requires
            self.schema.wf(),
            forall|i: int|
                0 <= i < self.schema.primary_key_indexes@.len()
                    ==> #[trigger] self.schema.primary_key_indexes@[i] < row.cols@.len(),
        ensures
            final(buf)@ == old(buf)@ + spec_user_key_bytes(
                self.schema.primary_key_indexes@,
                row.cols@,
                self.schema.primary_key_indexes@.len() as int,
            ) + spec_encode_key_sequence(self.sequence),
    {
        let ghost start = buf@;
        let ghost keys = self.schema.primary_key_indexes@;
        let n = self.schema.primary_key_indexes.len();
        let mut i: usize = 0;
        while i < n
            invariant
                self.schema.wf(),
                keys == self.schema.primary_key_indexes@,
                forall|m: int| 0 <= m < keys.len() ==> #[trigger] keys[m] < row.cols@.len(),
                n == keys.len(),
                i <= n,
                buf@ == start + spec_user_key_bytes(keys, row.cols@, i as int),
            decreases n - i,
        {
            let idx = self.schema.primary_key_indexes[i];
            append_key_datum(buf, row.col(idx));
            i = i + 1;
        }
        SequenceCodec.encode(buf, &self.sequence);
        proof {
            assert(buf@ =~= start + spec_user_key_bytes(keys, row.cols@, n as int)
                + spec_encode_key_sequence(self.sequence));
        }
    }

    /// An upper bound on the encoded size of the internal key of `row`,
    /// saturating at the largest representable size: two bytes per byte of
    /// a variable-length key datum plus its terminator, eight bytes per
    /// fixed datum, and the 12-byte key sequence.
    pub fn estimate_encoded_size(&self, row: &crate::row::Row) -> (r: usize)
        requires
            self.schema.wf(),
            forall|i: int|
                0 <= i < self.schema.primary_key_indexes@.len()
                    ==> #[trigger] self.schema.primary_key_indexes@[i] < row.cols@.len(),
        ensures
            r >= KEY_SEQUENCE_BYTES_LEN,
            r == usize::MAX || r >= spec_user_key_bytes(
                self.schema.primary_key_indexes@,
                row.cols@,
                self.schema.primary_key_indexes@.len() as int,
            ).len() + KEY_SEQUENCE_BYTES_LEN,
    {
        let ghost keys = self.schema.primary_key_indexes@;
        let ghost cols = row.cols@;
        let n = self.schema.primary_key_indexes.len();
        let mut total: usize = KEY_SEQUENCE_BYTES_LEN;
        let mut i: usize = 0;
        while i < n
            invariant
                self.schema.wf(),
                keys == self.schema.primary_key_indexes@,
                cols == row.cols@,
                forall|m: int| 0 <= m < keys.len() ==> #[trigger] keys[m] < cols.len(),
                n == keys.len(),
                i <= n,
                total >= KEY_SEQUENCE_BYTES_LEN,
                total == usize::MAX || total >= spec_user_key_bytes(keys, cols, i as int).len()
                    + KEY_SEQUENCE_BYTES_LEN,
            decreases n - i,
        {
            proof {
                lemma_key_datum_bytes_len_bound(cols[keys[i as int] as int]);
                assert(spec_user_key_bytes(keys, cols, i as int + 1).len()
                    == spec_user_key_bytes(keys, cols, i as int).len() + spec_key_datum_bytes(
                    cols[keys[i as int] as int],
                ).len());
            }
            let idx = self.schema.primary_key_indexes[i];
            let datum = row.col(idx);
            let sz = datum.size();
            let add = if sz <= (usize::MAX - 2) / 2 {
                2 * sz + 2
            } else {
                usize::MAX
            };
            let add = if add < 8 {
                8
            } else {
                add
            };
            if total <= usize::MAX - add {
                total = total + add;
            } else {
                total = usize::MAX;
            }
            i = i + 1;
        }
        total
    }
}

/// The memcomparable bytes of one key datum are bounded by two bytes per
/// payload byte plus the terminator, or the eight fixed bytes.
pub proof fn lemma_key_datum_bytes_len_bound(d: crate::row::Datum)
    ensures
        spec_key_datum_bytes(d).len() <= (if 2 * crate::row::spec_var_len(d) + 2 >= 8 {
            2 * crate::row::spec_var_len(d) + 2
        } else {
            8nat
        }),
{
    match d {
        crate::row::Datum::Null => {},
        crate::row::Datum::Varbinary(v) => {
            lemma_escaped_len_bound(v@);
        },
        crate::row::Datum::String(v) => {
            lemma_escaped_len_bound(v@);
        },
        crate::row::Datum::Timestamp(v) => {
            lemma_be_bytes_len(((v as u64) ^ 0x8000_0000_0000_0000u64) as nat, 8);
        },
        crate::row::Datum::UInt64(v) => {
            lemma_be_bytes_len(v as nat, 8);
        },
        crate::row::Datum::UInt32(v) => {
            lemma_be_bytes_len(v as nat, 8);
        },
        crate::row::Datum::UInt16(v) => {
            lemma_be_bytes_len(v as nat, 8);
        },
        crate::row::Datum::UInt8(v) => {
            lemma_be_bytes_len(v as nat, 8);
        },
        crate::row::Datum::Int64(v) => {
            lemma_be_bytes_len(((v as u64) ^ 0x8000_0000_0000_0000u64) as nat, 8);
        },
        crate::row::Datum::Int32(v) => {
            lemma_be_bytes_len(((v as i64 as u64) ^ 0x8000_0000_0000_0000u64) as nat, 8);
        },
        crate::row::Datum::Int16(v) => {
            lemma_be_bytes_len(((v as i64 as u64) ^ 0x8000_0000_0000_0000u64) as nat, 8);
        },
        crate::row::Datum::Int8(v) => {
            lemma_be_bytes_len(((v as i64 as u64) ^ 0x8000_0000_0000_0000u64) as nat, 8);
        },
        crate::row::Datum::Boolean(v) => {
            lemma_be_bytes_len(if v { 1nat } else { 0nat }, 8);
        },
        crate::row::Datum::Date(v) => {
            lemma_be_bytes_len(((v as i64 as u64) ^ 0x8000_0000_0000_0000u64) as nat, 8);
        },
        crate::row::Datum::Time(v) => {
            lemma_be_bytes_len(((v as u64) ^ 0x8000_0000_0000_0000u64) as nat, 8);
        },
    }
}

/// Escaping at most doubles the payload and adds the two terminator bytes.
pub proof fn lemma_escaped_len_bound(s: Seq<u8>)
    ensures
        spec_escaped_bytes(s).len() <= 2 * s.len() + 2,
    decreases s.len(),
{
    if s.len() > 0 {
        lemma_escaped_len_bound(s.drop_first());
    }
}

/// An escaped key datum is at least its terminator long.
pub proof fn lemma_escaped_min_len(s: Seq<u8>)
    ensures
        spec_escaped_bytes(s).len() >= 2,
    decreases s.len(),
{
    if s.len() > 0 {
        lemma_escaped_min_len(s.drop_first());
    }
}

/// The escaped encoding is prefix-free: distinct byte strings never encode
/// to one another's prefix, because the `00 01` terminator differs from the
/// `00 ff` escape in its second byte and from every nonzero content byte in
/// its first. This closes the internal-key ordering law for escaped keys.
pub proof fn lemma_escaped_prefix_free(a: Seq<u8>, b: Seq<u8>)
    requires
        a != b,
    ensures
        !spec_escaped_bytes(a).is_prefix_of(spec_escaped_bytes(b)),
    decreases a.len(),
{
    let ea = spec_escaped_bytes(a);
    let eb = spec_escaped_bytes(b);
    lemma_escaped_min_len(a);
    lemma_escaped_min_len(b);
    if ea.is_prefix_of(eb) {
        if a.len() == 0 && b.len() == 0 {
            assert(a =~= b);
        } else if a.len() == 0 {
            // `ea` is the bare terminator; `eb` starts with an escape or a
            // nonzero content byte, never `00 01`.
            if b[0] == 0 {
                lemma_escaped_min_len(b.drop_first());
                assert(ea[1] == eb.subrange(0, 2)[1]);
                assert(eb[1] == 0xffu8);
            } else {
                assert(ea[0] == eb.subrange(0, 2)[0]);
                assert(eb[0] == b[0]);
            }
        } else if b.len() == 0 {
            // `eb` is the bare terminator and `ea` is longer or differs in
            // its first bytes.
            if a[0] == 0 {
                lemma_escaped_min_len(a.drop_first());
                assert(ea.len() >= 4);
                assert(ea.len() <= eb.len());
            } else {
                assert(ea[0] == a[0]);
                assert(ea[0] == eb[0]);
            }
        } else if a[0] == b[0] {
            let (head, ta, tb) = if a[0] == 0 {
                (seq![0u8, 0xffu8], spec_escaped_bytes(a.drop_first()), spec_escaped_bytes(
                    b.drop_first(),
                ))
            } else {
                (seq![a[0]], spec_escaped_bytes(a.drop_first()), spec_escaped_bytes(
                    b.drop_first(),
                ))
            };
            assert(ea == head + ta);
            assert(eb == head + tb);
            assert(ta.is_prefix_of(tb)) by {
                assert(ta.len() <= tb.len());
                assert forall|i: int| 0 <= i < ta.len() implies ta[i] == tb[i] by {
                    assert((head + ta)[head.len() + i] == ta[i]);
                    assert((head + tb)[head.len() + i] == tb[i]);
                    assert(ea[head.len() + i] == eb.subrange(0, ea.len() as int)[head.len() + i]);
                }
                assert(ta =~= tb.subrange(0, ta.len() as int));
            }
            assert(a.drop_first() != b.drop_first()) by {
                if a.drop_first() == b.drop_first() {
                    assert forall|i: int| 0 <= i < a.len() implies a[i] == b[i] by {
                        if i > 0 {
                            assert(a.drop_first()[i - 1] == b.drop_first()[i - 1]);
                        }
                    }
                    assert(a =~= b);
                }
            }
            lemma_escaped_prefix_free(a.drop_first(), b.drop_first());
        } else {
            // Distinct heads: the first encoded byte already differs
            // (escaped zero starts with 0, any other byte with itself).
            let ea0: u8 = if a[0] == 0 {
                0u8
            } else {
                a[0]
            };
            let eb0: u8 = if b[0] == 0 {
                0u8
            } else {
                b[0]
            };
            assert(ea[0] == ea0);
            assert(eb[0] == eb0);
            assert(ea[0] == eb.subrange(0, ea.len() as int)[0]);
            if a[0] == 0 {
                // b starts with a nonzero byte, but its escape must match
                // the zero; compare the second byte instead.
                assert(eb[0] == b[0]);
                assert(false);
            } else if b[0] == 0 {
                assert(ea[0] == a[0]);
                assert(false);
            } else {
                assert(false);
            }
        }
        assert(false);
    }
}

/// Internal keys of two distinct escaped single-column user keys order
/// exactly as the escaped keys do, whatever their key sequences: the
/// escaped encoding is prefix-free, so the user key alone decides.
pub proof fn lemma_escaped_key_order(a: Seq<u8>, b: Seq<u8>, ks1: KeySequence, ks2: KeySequence)
    requires
        a != b,
    ensures
        lex_less(
            spec_internal_key(spec_escaped_bytes(a), ks1),
            spec_internal_key(spec_escaped_bytes(b), ks2),
        ) <==> lex_less(spec_escaped_bytes(a), spec_escaped_bytes(b)),
{
    lemma_escaped_prefix_free(a, b);
    lemma_escaped_prefix_free(b, a);
    lemma_user_key_order(spec_escaped_bytes(a), spec_escaped_bytes(b), ks1, ks2);
}

} // verus!
