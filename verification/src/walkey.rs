//! WAL key/value-store key codec.
//!
//! A log entry of the key/value WAL backend is stored under
//! `region_id (8 bytes) || table_id (8 bytes) || sequence (8 bytes)`, all
//! big-endian so that lexicographic key order is scan order. A payload that
//! was split across several entries of one sequence carries a 4-byte
//! remaining-bytes suffix, stored complemented so that the parts scan in
//! write order: most remaining bytes first, the final part (0 remaining)
//! last.

use vstd::prelude::*;
use crate::bytesenc::{
    be_bytes_of, u64_to_be_bytes, u32_to_be_bytes, u64_from_be_bytes, u32_from_be_bytes,
    lemma_be_bytes_len,
};
use vstd::slice::slice_subrange;

verus! {

/// How the WAL key codec fails.
#[derive(Debug, Clone, Copy, PartialEq, Eq, Structural)]
pub enum Error {
    /// A log key is 24 bytes, or 28 with the remaining-bytes suffix.
    InvalidKeyLen { len: usize },
}

/// Byte length of a log key without the remaining-bytes suffix.
pub const LOG_KEY_BASE_LEN: usize = 24;

/// Byte length of a log key of a split payload part.
pub const LOG_KEY_PART_LEN: usize = 28;

/// Key of one log entry in the key/value WAL backend.
#[derive(Debug, Clone, Copy, PartialEq, Eq, Structural)]
pub struct CommonLogKey {
    /// The WAL region (one per shard) the entry belongs to.
    pub region_id: u64,
    /// The table the entry belongs to.
    pub table_id: u64,
    /// The sequence number of the entry.
    pub sequence_num: u64,
    /// For a part of a split payload: how many payload bytes follow after
    /// this part. `None` for an unsplit entry; `Some(0)` marks the last part.
    pub max_remaining_bytes: Option<u32>,
}

impl CommonLogKey {
    /// Key of an unsplit log entry.
    pub fn new(region_id: u64, table_id: u64, sequence_num: u64) -> (r: Self)
        ensures
            r == (CommonLogKey {
                region_id,
                table_id,
                sequence_num,
                max_remaining_bytes: None::<u32>,
            }),
    {
        CommonLogKey { region_id, table_id, sequence_num, max_remaining_bytes: None }
    }

    /// Key of a part of a split payload.
    pub fn part(
        region_id: u64,
        table_id: u64,
        sequence_num: u64,
        max_remaining_bytes: Option<u32>,
    ) -> (r: Self)
        ensures
            r == (CommonLogKey { region_id, table_id, sequence_num, max_remaining_bytes }),
    {
        CommonLogKey { region_id, table_id, sequence_num, max_remaining_bytes }
    }

    /// Whether payload bytes of this entry remain in later parts.
    pub fn has_remaining(&self) -> (r: bool)
        ensures
            r == spec_has_remaining(*self),
    {
        match self.max_remaining_bytes {
            Some(v) => v > 0,
            None => false,
        }
    }
}

/// Whether payload bytes of the entry remain in later parts.
pub open spec fn spec_has_remaining(k: CommonLogKey) -> bool {
    match k.max_remaining_bytes {
        Some(v) => v > 0,
        None => false,
    }
}

/// The bytes a log key encodes to.
pub open spec fn spec_log_key_bytes(k: CommonLogKey) -> Seq<u8> {
    let base = be_bytes_of(k.region_id as nat, 8) + be_bytes_of(k.table_id as nat, 8)
        + be_bytes_of(k.sequence_num as nat, 8);
    match k.max_remaining_bytes {
        Some(r) => base + be_bytes_of((u32::MAX - r) as nat, 4),
        None => base,
    }
}

/// Codec between log keys and their stored bytes.
#[derive(Debug, Clone, Copy)]
pub struct CommonLogEncoding;

impl CommonLogEncoding {
    /// The current (and only) key layout.
    pub fn newest() -> (r: Self) {
        CommonLogEncoding
    }

    /// Replace the contents of `buf` with the encoding of `key`.
    pub fn encode_key(&self, buf: &mut Vec<u8>, key: &CommonLogKey)
        ensures
            final(buf)@ == spec_log_key_bytes(*key),
    {
        buf.clear();
        let region = u64_to_be_bytes(key.region_id);
        buf.extend_from_slice(region.as_slice());
        let table = u64_to_be_bytes(key.table_id);
        buf.extend_from_slice(table.as_slice());
        let seq = u64_to_be_bytes(key.sequence_num);
        buf.extend_from_slice(seq.as_slice());
        match key.max_remaining_bytes {
            Some(r) => {
                let suffix = u32_to_be_bytes(u32::MAX - r);
                buf.extend_from_slice(suffix.as_slice());
            },
            None => {},
        }
        proof {
            assert(buf@ =~= spec_log_key_bytes(*key));
        }
    }

    /// Whether `buf` has the length of an encoded log key.
    pub fn is_log_key(&self, buf: &[u8]) -> (r: bool)
        ensures
            r == (buf@.len() == LOG_KEY_BASE_LEN || buf@.len() == LOG_KEY_PART_LEN),
    {
        buf.len() == LOG_KEY_BASE_LEN || buf.len() == LOG_KEY_PART_LEN
    }

    /// Decode a log key. Fails exactly on buffers that are not 24 or 28
    /// bytes long; otherwise encoding the result gives the buffer back.
    pub fn decode_key(&self, buf: &[u8]) -> (r: Result<CommonLogKey, Error>)
        ensures
            (buf@.len() == LOG_KEY_BASE_LEN || buf@.len() == LOG_KEY_PART_LEN) ==> r is Ok
                && spec_log_key_bytes(r->Ok_0) == buf@
                && (r->Ok_0.max_remaining_bytes is Some <==> buf@.len() == LOG_KEY_PART_LEN),
            !(buf@.len() == LOG_KEY_BASE_LEN || buf@.len() == LOG_KEY_PART_LEN) ==> r
                == Err::<CommonLogKey, Error>(Error::InvalidKeyLen { len: buf@.len() as usize }),
    {
        if buf.len() != LOG_KEY_BASE_LEN && buf.len() != LOG_KEY_PART_LEN {
            return Err(Error::InvalidKeyLen { len: buf.len() });
        }
        let region_id = u64_from_be_bytes(slice_subrange(buf, 0, 8));
        let table_id = u64_from_be_bytes(slice_subrange(buf, 8, 16));
        let sequence_num = u64_from_be_bytes(slice_subrange(buf, 16, 24));
        let max_remaining_bytes = if buf.len() == LOG_KEY_PART_LEN {
            let stored = u32_from_be_bytes(slice_subrange(buf, 24, 28));
            Some(u32::MAX - stored)
        } else {
            None
        };
        let key = CommonLogKey { region_id, table_id, sequence_num, max_remaining_bytes };
        proof {
            lemma_be_bytes_len(region_id as nat, 8);
            lemma_be_bytes_len(table_id as nat, 8);
            lemma_be_bytes_len(sequence_num as nat, 8);
            assert(buf@.subrange(0, 8) == be_bytes_of(region_id as nat, 8));
            assert(buf@.subrange(8, 16) == be_bytes_of(table_id as nat, 8));
            assert(buf@.subrange(16, 24) == be_bytes_of(sequence_num as nat, 8));
            if buf@.len() == LOG_KEY_PART_LEN {
                let stored = (u32::MAX - max_remaining_bytes->0) as u32;
                assert(buf@.subrange(24, 28) == be_bytes_of(stored as nat, 4));
                lemma_be_bytes_len(stored as nat, 4);
            }
            assert(spec_log_key_bytes(key) =~= buf@);
        }
        Ok(key)
    }
}

} // verus!
