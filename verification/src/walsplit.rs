//! Encoding of a WAL write batch into key/value write batches.
//!
//! Two limits shape the encoding: a payload larger than the per-value limit
//! is split into chunks stored under part keys of one sequence, and the
//! key/value pairs are distributed over write batches so that no batch
//! exceeds the per-batch byte limit.

use vstd::prelude::*;
use crate::walkey::{CommonLogKey, CommonLogEncoding, spec_log_key_bytes};

verus! {

/// How the split encoder fails.
#[derive(Debug, Clone, Copy, PartialEq, Eq, Structural)]
pub enum Error {
    /// An empty batch of logs cannot be encoded.
    SplitEmptyLogs,
    /// One key/value pair alone does not fit in a write batch of this limit.
    TooSmallSizeLimitPerBatch { limit: usize },
}

/// One log entry to write: its payload bytes.
pub struct LogWriteEntry {
    pub payload: Vec<u8>,
}

/// A write batch for the key/value WAL backend: the key/value pairs to
/// store, in insertion order.
pub struct KvWriteBatch {
    pub key_values: Vec<(Vec<u8>, Vec<u8>)>,
}

impl KvWriteBatch {
    pub fn with_capacity(capacity: usize) -> (r: Self)
        ensures
            kvs_of(r) == Seq::<(Seq<u8>, Seq<u8>)>::empty(),
    {
        let r = KvWriteBatch { key_values: Vec::with_capacity(capacity) };
        proof {
            assert(kvs_of(r) =~= Seq::<(Seq<u8>, Seq<u8>)>::empty());
        }
        r
    }

    pub fn insert(&mut self, key: &[u8], value: &[u8])
        ensures
            kvs_of(*final(self)) == kvs_of(*old(self)) + seq![(key@, value@)],
    {
        let mut k: Vec<u8> = Vec::new();
        k.extend_from_slice(key);
        let mut v: Vec<u8> = Vec::new();
        v.extend_from_slice(value);
        proof {
            assert(k@ =~= key@);
            assert(v@ =~= value@);
        }
        self.key_values.push((k, v));
        proof {
            assert(kvs_of(*self) =~= kvs_of(*old(self)) + seq![(key@, value@)]);
        }
    }
}

/// The key/value pairs a batch holds, as byte strings.
pub open spec fn kvs_of(b: KvWriteBatch) -> Seq<(Seq<u8>, Seq<u8>)> {
    b.key_values@.map_values(|kv: (Vec<u8>, Vec<u8>)| (kv.0@, kv.1@))
}

/// Total bytes of keys and values of a batch.
pub open spec fn batch_byte_size(kvs: Seq<(Seq<u8>, Seq<u8>)>) -> nat
    decreases kvs.len(),
{
    if kvs.len() == 0 {
        0
    } else {
        batch_byte_size(kvs.drop_last()) + kvs.last().0.len() + kvs.last().1.len()
    }
}

/// Greedy packing: once more than one batch exists every batch is
/// occupied, and each batch after the first was opened only because its
/// first pair would have pushed the one before it to the byte limit or
/// beyond. Together with the flattened pairs and the per-batch caps this
/// determines the grouping completely.
pub open spec fn packed_batches(batches: Seq<KvWriteBatch>, limit: nat) -> bool {
    &&& batches.len() > 1 ==> forall|b: int|
        0 <= b < batches.len() ==> kvs_of(#[trigger] batches[b]).len() > 0
    &&& forall|b: int|
        1 <= b < batches.len() ==> batch_byte_size(kvs_of(#[trigger] batches[b - 1])) + kvs_of(
            batches[b],
        )[0].0.len() + kvs_of(batches[b])[0].1.len() >= limit
}

/// A batch with a positive byte size holds a pair.
pub proof fn lemma_nonzero_size_nonempty(kvs: Seq<(Seq<u8>, Seq<u8>)>)
    requires
        batch_byte_size(kvs) > 0,
    ensures
        kvs.len() > 0,
{
}

/// All key/value pairs of a run of batches, in order.
pub open spec fn flat_kvs(batches: Seq<KvWriteBatch>) -> Seq<(Seq<u8>, Seq<u8>)>
    decreases batches.len(),
{
    if batches.len() == 0 {
        Seq::empty()
    } else {
        flat_kvs(batches.drop_last()) + kvs_of(batches.last())
    }
}

/// Builds write batches under the per-batch size limit: when the next pair
/// would push the current batch to the limit or beyond, a fresh batch is
/// started.
pub struct WriteBatchesBuilder {
    pub write_batches: Vec<KvWriteBatch>,
    pub index_of_curr_batch: usize,
    pub size_of_curr_batch: usize,
    pub next_seq_num: u64,
    pub num_inserted_kvs: usize,
    pub size_limit_per_batch: usize,
    pub num_total_kvs: usize,
}

impl WriteBatchesBuilder {
    /// Structural soundness: the current batch is the last one, its byte
    /// size is tracked exactly, every batch is empty or under the limit,
    /// and the batches are packed greedily.
    pub open spec fn wf(self) -> bool {
        &&& self.write_batches@.len() >= 1
        &&& self.index_of_curr_batch == self.write_batches@.len() - 1
        &&& self.size_of_curr_batch == batch_byte_size(kvs_of(self.write_batches@.last()))
        &&& forall|i: int|
            0 <= i < self.write_batches@.len() ==> #[trigger] batch_byte_size(
                kvs_of(self.write_batches@[i]),
            ) == 0 || batch_byte_size(kvs_of(self.write_batches@[i])) < self.size_limit_per_batch
        &&& packed_batches(self.write_batches@, self.size_limit_per_batch as nat)
    }

    /// All pairs inserted so far, in order.
    pub open spec fn flat(self) -> Seq<(Seq<u8>, Seq<u8>)> {
        flat_kvs(self.write_batches@)
    }

    pub fn new(num_total_kvs: usize, size_limit_per_batch: usize, next_seq_num: u64) -> (r: Self)
        ensures
            r.wf(),
            r.flat() == Seq::<(Seq<u8>, Seq<u8>)>::empty(),
            r.next_seq_num == next_seq_num,
            r.num_inserted_kvs == 0,
            r.size_limit_per_batch == size_limit_per_batch,
    {
        let mut write_batches: Vec<KvWriteBatch> = Vec::new();
        write_batches.push(KvWriteBatch::with_capacity(num_total_kvs));
        let r = WriteBatchesBuilder {
            write_batches,
            index_of_curr_batch: 0,
            size_of_curr_batch: 0,
            next_seq_num,
            num_inserted_kvs: 0,
            size_limit_per_batch,
            num_total_kvs,
        };
        proof {
            assert(r.write_batches@.len() == 1);
            assert(r.write_batches@.drop_last() =~= Seq::<KvWriteBatch>::empty());
            assert(flat_kvs(r.write_batches@.drop_last()) == Seq::<(Seq<u8>, Seq<u8>)>::empty());
            assert(r.flat() == flat_kvs(r.write_batches@.drop_last()) + kvs_of(
                r.write_batches@.last(),
            ));
            assert(r.flat() =~= Seq::<(Seq<u8>, Seq<u8>)>::empty());
        }
        r
    }

    /// Insert one pair, opening a fresh batch first when it would not fit.
    /// Fails, changing nothing, when the pair alone reaches the limit.
    pub fn insert_entry(&mut self, key: &[u8], val: &[u8]) -> (r: Result<(), Error>)
        requires
            old(self).wf(),
            old(self).num_inserted_kvs < usize::MAX,
        ensures
            final(self).wf(),
            final(self).size_limit_per_batch == old(self).size_limit_per_batch,
            final(self).num_total_kvs == old(self).num_total_kvs,
            final(self).next_seq_num == old(self).next_seq_num,
            key@.len() + val@.len() >= old(self).size_limit_per_batch ==> r == Err::<(), Error>(
                Error::TooSmallSizeLimitPerBatch { limit: old(self).size_limit_per_batch },
            ) && *final(self) == *old(self),
            key@.len() + val@.len() < old(self).size_limit_per_batch ==> r == Ok::<(), Error>(())
                && final(self).flat() == old(self).flat() + seq![(key@, val@)] && final(self).num_inserted_kvs == old(self).num_inserted_kvs + 1 && kvs_of(
                final(self).write_batches@.last(),
            ).len() > 0,
    {
        let limit = self.size_limit_per_batch;
        if key.len() >= limit || val.len() >= limit - key.len() {
            return Err(Error::TooSmallSizeLimitPerBatch { limit });
        }
        let pair_size = key.len() + val.len();
        let ghost orig = *self;
        let mut opened = false;
        if !(self.size_of_curr_batch < limit - pair_size) {
            proof {
                // A new batch opens only over an occupied one: the pair is
                // itself below the limit, so the tracked size is positive.
                lemma_nonzero_size_nonempty(kvs_of(self.write_batches@.last()));
            }
            self.prepare_next_write_batch();
            opened = true;
            proof {
                // The fresh batch is empty and every older batch kept its
                // size bound.
                assert(batch_byte_size(kvs_of(self.write_batches@.last())) == 0);
                assert forall|i: int|
                    0 <= i < self.write_batches@.len() implies #[trigger] batch_byte_size(
                    kvs_of(self.write_batches@[i]),
                ) == 0 || batch_byte_size(kvs_of(self.write_batches@[i]))
                    < self.size_limit_per_batch by {
                    if i < self.write_batches@.len() - 1 {
                        assert(self.write_batches@[i] == orig.write_batches@[i]);
                    }
                }
            }
        }
        let ghost pre = *self;
        let idx = self.index_of_curr_batch;
        let curr_batch = &mut self.write_batches[idx];
        curr_batch.insert(key, val);
        self.size_of_curr_batch = self.size_of_curr_batch + pair_size;
        self.num_inserted_kvs = self.num_inserted_kvs + 1;
        proof {
            let wbs = self.write_batches@;
            assert(wbs.drop_last() =~= pre.write_batches@.drop_last());
            assert(wbs.last() == self.write_batches@[idx as int]);
            assert(kvs_of(wbs.last()) == kvs_of(pre.write_batches@.last()) + seq![(key@, val@)]);
            assert(kvs_of(wbs.last()).drop_last() =~= kvs_of(pre.write_batches@.last()));
            assert(self.flat() =~= pre.flat() + seq![(key@, val@)]);
            assert(pre.flat() == old(self).flat());
            assert forall|i: int| 0 <= i < wbs.len() implies #[trigger] batch_byte_size(
                kvs_of(wbs[i]),
            ) == 0 || batch_byte_size(kvs_of(wbs[i])) < self.size_limit_per_batch by {
                if i < wbs.len() - 1 {
                    assert(wbs[i] == pre.write_batches@[i]);
                    if opened {
                        assert(pre.write_batches@[i] == orig.write_batches@[i]);
                    }
                }
            }
            assert(packed_batches(wbs, self.size_limit_per_batch as nat)) by {
                assert forall|b: int|
                    1 <= b < wbs.len() implies batch_byte_size(kvs_of(#[trigger] wbs[b - 1]))
                    + kvs_of(wbs[b])[0].0.len() + kvs_of(wbs[b])[0].1.len()
                    >= self.size_limit_per_batch by {
                    if b < wbs.len() - 1 {
                        assert(wbs[b - 1] == pre.write_batches@[b - 1]);
                        assert(wbs[b] == pre.write_batches@[b]);
                        if opened {
                            assert(pre.write_batches@[b - 1] == orig.write_batches@[b - 1]);
                            assert(pre.write_batches@[b] == orig.write_batches@[b]);
                        }
                    } else {
                        assert(wbs[b - 1] == pre.write_batches@[b - 1]);
                        if opened {
                            // The fresh batch starts with this pair, and it
                            // was opened exactly because the pair would not
                            // fit the batch before it.
                            assert(kvs_of(pre.write_batches@.last()).len() == 0);
                            assert(kvs_of(wbs[b]) =~= seq![(key@, val@)]);
                            assert(kvs_of(wbs[b])[0] == (key@, val@));
                            assert(pre.write_batches@[b - 1] == orig.write_batches@.last());
                            assert(orig.size_of_curr_batch == batch_byte_size(
                                kvs_of(orig.write_batches@.last()),
                            ));
                            assert(orig.size_of_curr_batch + pair_size
                                >= self.size_limit_per_batch);
                        } else {
                            assert(kvs_of(pre.write_batches@[b]).len() > 0);
                            assert(kvs_of(wbs[b])[0] == kvs_of(pre.write_batches@[b])[0]);
                        }
                    }
                }
                if wbs.len() > 1 {
                    assert forall|b: int| 0 <= b < wbs.len() implies kvs_of(
                        #[trigger] wbs[b],
                    ).len() > 0 by {
                        if b < wbs.len() - 1 {
                            assert(wbs[b] == pre.write_batches@[b]);
                            if opened && b == wbs.len() - 2 {
                                lemma_nonzero_size_nonempty(kvs_of(orig.write_batches@.last()));
                            } else {
                                if orig.write_batches@.len() > 1 {
                                    assert(kvs_of(orig.write_batches@[b]).len() > 0);
                                }
                            }
                        }
                    }
                }
            }
        }
        Ok(())
    }

    /// Insert the single pair of an unsplit entry and move to the next
    /// sequence number.
    pub fn insert_integrate_entry(&mut self, key: &[u8], val: &[u8]) -> (r: Result<(), Error>)
        requires
            old(self).wf(),
            old(self).num_inserted_kvs < usize::MAX,
            old(self).next_seq_num < u64::MAX,
        ensures
            final(self).wf(),
            final(self).size_limit_per_batch == old(self).size_limit_per_batch,
            final(self).num_total_kvs == old(self).num_total_kvs,
            key@.len() + val@.len() >= old(self).size_limit_per_batch ==> r == Err::<(), Error>(
                Error::TooSmallSizeLimitPerBatch { limit: old(self).size_limit_per_batch },
            ) && *final(self) == *old(self),
            key@.len() + val@.len() < old(self).size_limit_per_batch ==> r == Ok::<(), Error>(())
                && final(self).flat() == old(self).flat() + seq![(key@, val@)] && final(self).num_inserted_kvs == old(self).num_inserted_kvs + 1 && final(self).next_seq_num == old(self).next_seq_num + 1 && kvs_of(
                final(self).write_batches@.last(),
            ).len() > 0,
    {
        self.insert_entry(key, val)?;
        self.next_seq_num = self.next_seq_num + 1;
        Ok(())
    }

    /// Insert one part of a split entry; the sequence number advances only
    /// when `finish_split_entry` closes the entry.
    pub fn insert_split_part(&mut self, key: &[u8], val: &[u8]) -> (r: Result<(), Error>)
        requires
            old(self).wf(),
            old(self).num_inserted_kvs < usize::MAX,
        ensures
            final(self).wf(),
            final(self).size_limit_per_batch == old(self).size_limit_per_batch,
            final(self).num_total_kvs == old(self).num_total_kvs,
            final(self).next_seq_num == old(self).next_seq_num,
            key@.len() + val@.len() >= old(self).size_limit_per_batch ==> r == Err::<(), Error>(
                Error::TooSmallSizeLimitPerBatch { limit: old(self).size_limit_per_batch },
            ) && *final(self) == *old(self),
            key@.len() + val@.len() < old(self).size_limit_per_batch ==> r == Ok::<(), Error>(())
                && final(self).flat() == old(self).flat() + seq![(key@, val@)] && final(self).num_inserted_kvs == old(self).num_inserted_kvs + 1 && kvs_of(
                final(self).write_batches@.last(),
            ).len() > 0,
    {
        self.insert_entry(key, val)
    }

    /// Close a split entry: all its parts are inserted.
    pub fn finish_split_entry(&mut self)
        requires
            old(self).next_seq_num < u64::MAX,
        ensures
            *final(self) == (WriteBatchesBuilder {
                next_seq_num: (old(self).next_seq_num + 1) as u64,
                ..*old(self)
            }),
    {
        self.next_seq_num = self.next_seq_num + 1;
    }

    #[inline]
    pub fn is_enough(&self, key: &[u8], val: &[u8]) -> (r: bool)
        ensures
            r == (self.size_of_curr_batch + key@.len() + val@.len() < self.size_limit_per_batch),
    {
        let limit = self.size_limit_per_batch;
        if key.len() >= limit {
            return false;
        }
        if val.len() >= limit - key.len() {
            return false;
        }
        self.size_of_curr_batch < limit - (key.len() + val.len())
    }

    #[inline]
    pub fn next_seq_num(&self) -> (r: u64)
        ensures
            r == self.next_seq_num,
    {
        self.next_seq_num
    }

    /// The sequence number of the last closed entry, or `None` when nothing
    /// was inserted.
    #[inline]
    pub fn last_seq_num(&self) -> (r: Option<u64>)
        requires
            self.num_inserted_kvs > 0 ==> self.next_seq_num >= 1,
        ensures
            self.num_inserted_kvs > 0 ==> r == Some((self.next_seq_num - 1) as u64),
            self.num_inserted_kvs == 0 ==> r is None,
    {
        if self.num_inserted_kvs > 0 {
            Some(self.next_seq_num - 1)
        } else {
            None
        }
    }

    /// Open a fresh batch for the next insertions. The caller closes only
    /// an occupied batch and fills the fresh one at once, so the packing
    /// stays greedy.
    fn prepare_next_write_batch(&mut self)
        requires
            old(self).wf(),
            kvs_of(old(self).write_batches@.last()).len() > 0,
        ensures
            final(self).write_batches@.len() == old(self).write_batches@.len() + 1,
            final(self).index_of_curr_batch == final(self).write_batches@.len() - 1,
            final(self).flat() == old(self).flat(),
            final(self).size_of_curr_batch == 0,
            final(self).next_seq_num == old(self).next_seq_num,
            final(self).num_inserted_kvs == old(self).num_inserted_kvs,
            final(self).size_limit_per_batch == old(self).size_limit_per_batch,
            final(self).num_total_kvs == old(self).num_total_kvs,
            final(self).write_batches@.drop_last() == old(self).write_batches@,
            kvs_of(final(self).write_batches@.last()).len() == 0,
    {
        let remaining_kvs = if self.num_total_kvs > self.num_inserted_kvs {
            self.num_total_kvs - self.num_inserted_kvs
        } else {
            0
        };
        let next_write_batch = KvWriteBatch::with_capacity(remaining_kvs);
        self.index_of_curr_batch = self.write_batches.len();
        self.size_of_curr_batch = 0;
        self.write_batches.push(next_write_batch);
        proof {
            let wbs = self.write_batches@;
            assert(wbs.drop_last() =~= old(self).write_batches@);
            assert(batch_byte_size(kvs_of(wbs.last())) == 0);
            assert(self.flat() =~= old(self).flat());
        }
    }

    #[inline]
    pub fn build(self) -> (r: Vec<KvWriteBatch>)
        ensures
            r@ == self.write_batches@,
    {
        self.write_batches
    }
}

/// Where an entry's bytes land in the store: as one pair, or split in parts.
pub enum LogEntryLocation {
    Integrate { index: usize },
    /// The parts of entry `index`: each element is an `(offset, length)`
    /// window of the payload.
    Splitted { index: usize, sub_entry_offsets: Vec<(usize, usize)> },
}

/// Number of parts a payload of `len` bytes is stored as under a per-value
/// limit of `limit` bytes. An empty payload is still one entry.
pub open spec fn spec_num_chunks(len: nat, limit: nat) -> nat
    recommends
        limit > 0,
{
    if len <= limit {
        1
    } else {
        (((len + limit - 1) as int) / (limit as int)) as nat
    }
}

/// The key/value pairs one log entry is stored as: one pair under the plain
/// key when the payload fits the per-value limit, else one pair per chunk of
/// `limit` bytes, each under a part key carrying the bytes still to come.
pub open spec fn spec_entry_kvs(
    region_id: u64,
    table_id: u64,
    seq: u64,
    payload: Seq<u8>,
    limit: nat,
) -> Seq<(Seq<u8>, Seq<u8>)>
    recommends
        limit > 0,
        payload.len() <= u32::MAX,
{
    if payload.len() <= limit {
        seq![
            (
                spec_log_key_bytes(
                    CommonLogKey {
                        region_id,
                        table_id,
                        sequence_num: seq,
                        max_remaining_bytes: None,
                    },
                ),
                payload,
            ),
        ]
    } else {
        Seq::new(
            spec_num_chunks(payload.len(), limit),
            |i: int|
                {
                    let off = i * limit;
                    let l = if off + limit <= payload.len() {
                        limit as int
                    } else {
                        payload.len() - off
                    };
                    (
                        spec_log_key_bytes(
                            CommonLogKey {
                                region_id,
                                table_id,
                                sequence_num: seq,
                                max_remaining_bytes: Some((payload.len() - off - l) as u32),
                            },
                        ),
                        payload.subrange(off, off + l),
                    )
                },
        )
    }
}

/// The key/value pairs a batch of log entries is stored as, in order, the
/// entry at position `j` under sequence `start_seq + j`.
pub open spec fn spec_all_kvs(
    region_id: u64,
    table_id: u64,
    payloads: Seq<Seq<u8>>,
    start_seq: u64,
    limit: nat,
) -> Seq<(Seq<u8>, Seq<u8>)>
    decreases payloads.len(),
{
    if payloads.len() == 0 {
        Seq::empty()
    } else {
        spec_all_kvs(region_id, table_id, payloads.drop_last(), start_seq, limit)
            + spec_entry_kvs(
            region_id,
            table_id,
            (start_seq + payloads.len() - 1) as u64,
            payloads.last(),
            limit,
        )
    }
}

/// The payload byte strings of a run of entries.
pub open spec fn payload_views(entries: Seq<LogWriteEntry>) -> Seq<Seq<u8>> {
    entries.map_values(|e: LogWriteEntry| e.payload@)
}

/// Every pair is alone below the per-batch byte limit.
pub open spec fn spec_kvs_fit(kvs: Seq<(Seq<u8>, Seq<u8>)>, batch_limit: nat) -> bool {
    forall|i: int|
        0 <= i < kvs.len() ==> (#[trigger] kvs[i]).0.len() + kvs[i].1.len() < batch_limit
}

/// Processing the next payload appends its pairs.
pub proof fn lemma_all_kvs_take_step(
    region_id: u64,
    table_id: u64,
    payloads: Seq<Seq<u8>>,
    start_seq: u64,
    limit: nat,
    j: int,
)
    requires
        0 <= j < payloads.len(),
    ensures
        spec_all_kvs(region_id, table_id, payloads.take(j + 1), start_seq, limit) == spec_all_kvs(
            region_id,
            table_id,
            payloads.take(j),
            start_seq,
            limit,
        ) + spec_entry_kvs(region_id, table_id, (start_seq + j) as u64, payloads[j], limit),
{
    assert(payloads.take(j + 1).drop_last() =~= payloads.take(j));
    assert(payloads.take(j + 1).last() == payloads[j]);
}

/// The pairs of a prefix of the payloads are no more than all pairs.
pub proof fn lemma_all_kvs_prefix_len(
    region_id: u64,
    table_id: u64,
    payloads: Seq<Seq<u8>>,
    start_seq: u64,
    limit: nat,
    j: int,
)
    requires
        0 <= j <= payloads.len(),
    ensures
        spec_all_kvs(region_id, table_id, payloads.take(j), start_seq, limit).len()
            <= spec_all_kvs(region_id, table_id, payloads, start_seq, limit).len(),
    decreases payloads.len() - j,
{
    if j == payloads.len() {
        assert(payloads.take(j) =~= payloads);
    } else {
        lemma_all_kvs_take_step(region_id, table_id, payloads, start_seq, limit, j);
        lemma_all_kvs_prefix_len(region_id, table_id, payloads, start_seq, limit, j + 1);
    }
}

/// Every pair of one entry occurs among the pairs of the whole batch.
pub proof fn lemma_all_kvs_contains_entry_kv(
    region_id: u64,
    table_id: u64,
    payloads: Seq<Seq<u8>>,
    start_seq: u64,
    limit: nat,
    j: int,
    i: int,
)
    requires
        0 <= j < payloads.len(),
        0 <= i < spec_entry_kvs(region_id, table_id, (start_seq + j) as u64, payloads[j], limit).len(),
    ensures
        exists|k: int|
            0 <= k < spec_all_kvs(region_id, table_id, payloads, start_seq, limit).len()
                && spec_all_kvs(region_id, table_id, payloads, start_seq, limit)[k]
                == spec_entry_kvs(region_id, table_id, (start_seq + j) as u64, payloads[j], limit)[i],
    decreases payloads.len(),
{
    let all = spec_all_kvs(region_id, table_id, payloads, start_seq, limit);
    let front = spec_all_kvs(region_id, table_id, payloads.drop_last(), start_seq, limit);
    let this = spec_entry_kvs(region_id, table_id, (start_seq + j) as u64, payloads[j], limit);
    if j == payloads.len() - 1 {
        let k = front.len() + i;
        assert(all[k as int] == this[i]);
    } else {
        assert(payloads.drop_last()[j] == payloads[j]);
        lemma_all_kvs_contains_entry_kv(
            region_id,
            table_id,
            payloads.drop_last(),
            start_seq,
            limit,
            j,
            i,
        );
        let k = choose|k: int| 0 <= k < front.len() && front[k] == this[i];
        assert(all[k] == this[i]);
    }
}

/// An encoder of log entries into key/value write batches, honouring the
/// per-value size limit (splitting large payloads) and the per-batch size
/// limit (opening fresh batches).
pub struct LogBatchSplitEncoder {
    pub log_value_size_limit: usize,
    pub write_batch_size_limit: usize,
    pub region_id: u64,
    pub table_id: u64,
}

impl LogBatchSplitEncoder {
    /// The `(offset, length)` windows a payload of `total_size` bytes is cut
    /// into: maximal chunks of the per-value limit, the last one shorter.
    pub fn compute_sub_entry_offsets(&self, total_size: usize) -> (r: Vec<(usize, usize)>)
        requires
            self.log_value_size_limit > 0,
            total_size > 0,
            total_size + self.log_value_size_limit <= usize::MAX,
        ensures
            r@.len() == spec_num_chunks(total_size as nat, self.log_value_size_limit as nat),
            forall|i: int|
                0 <= i < r@.len() ==> (#[trigger] r@[i]).0 == i * self.log_value_size_limit
                    && r@[i].1 == chunk_len(total_size as nat, self.log_value_size_limit as nat, i),
    {
        let limit = self.log_value_size_limit;
        let num_sub_entries = (total_size + limit - 1) / limit;
        proof {
            lemma_ceil_div_bounds(total_size as nat, limit as nat);
        }
        let mut sub_entry_offsets: Vec<(usize, usize)> = Vec::with_capacity(num_sub_entries);
        let mut idx: usize = 0;
        while idx < num_sub_entries
            invariant
                self.log_value_size_limit == limit,
                limit > 0,
                total_size > 0,
                total_size + limit <= usize::MAX,
                num_sub_entries == spec_num_chunks(total_size as nat, limit as nat),
                num_sub_entries * limit >= total_size,
                (num_sub_entries - 1) * limit < total_size,
                idx <= num_sub_entries,
                sub_entry_offsets@.len() == idx,
                forall|i: int|
                    0 <= i < idx ==> (#[trigger] sub_entry_offsets@[i]).0 == i * limit
                        && sub_entry_offsets@[i].1 == chunk_len(total_size as nat, limit as nat, i),
            decreases num_sub_entries - idx,
        {
            proof {
                assert(idx * limit <= (num_sub_entries - 1) * limit) by (nonlinear_arith)
                    requires
                        idx <= num_sub_entries - 1,
                        limit > 0,
                        0 <= idx;
            }
            let offset = idx * limit;
            let len = if offset + limit > total_size {
                total_size - offset
            } else {
                limit
            };
            sub_entry_offsets.push((offset, len));
            idx = idx + 1;
        }
        sub_entry_offsets
    }

    /// Where each entry's bytes land: unsplit when the payload fits the
    /// per-value limit, else cut into the chunk windows.
    pub fn log_entry_locations(&self, entries: &Vec<LogWriteEntry>) -> (r: Vec<LogEntryLocation>)
        requires
            self.log_value_size_limit > 0,
            forall|j: int|
                0 <= j < entries@.len() ==> (#[trigger] entries@[j]).payload@.len()
                    + self.log_value_size_limit <= usize::MAX,
        ensures
            r@.len() == entries@.len(),
            forall|j: int|
                0 <= j < r@.len() ==> location_describes(
                    #[trigger] r@[j],
                    j,
                    entries@[j].payload@.len(),
                    self.log_value_size_limit as nat,
                ),
    {
        let mut r: Vec<LogEntryLocation> = Vec::with_capacity(entries.len());
        let mut j: usize = 0;
        while j < entries.len()
            invariant
                self.log_value_size_limit > 0,
                forall|j: int|
                    0 <= j < entries@.len() ==> (#[trigger] entries@[j]).payload@.len()
                        + self.log_value_size_limit <= usize::MAX,
                j <= entries@.len(),
                r@.len() == j,
                forall|i: int|
                    0 <= i < j ==> location_describes(
                        #[trigger] r@[i],
                        i,
                        entries@[i].payload@.len(),
                        self.log_value_size_limit as nat,
                    ),
            decreases entries@.len() - j,
        {
            let payload_size = entries[j].payload.len();
            if payload_size > self.log_value_size_limit {
                let offsets = self.compute_sub_entry_offsets(payload_size);
                r.push(LogEntryLocation::Splitted { index: j, sub_entry_offsets: offsets });
            } else {
                r.push(LogEntryLocation::Integrate { index: j });
            }
            j = j + 1;
        }
        r
    }

    /// Encode a batch of log entries into write batches, assigning the
    /// consecutive sequence numbers `start_seq..`. On success returns the
    /// batches and the sequence number of the last entry.
    pub fn encode(&self, entries: &Vec<LogWriteEntry>, start_seq: u64) -> (r: Result<
        (Vec<KvWriteBatch>, u64),
        Error,
    >)
        requires
            self.log_value_size_limit > 0,
            start_seq + entries@.len() <= u64::MAX,
            forall|j: int|
                0 <= j < entries@.len() ==> (#[trigger] entries@[j]).payload@.len() <= u32::MAX,
            forall|j: int|
                0 <= j < entries@.len() ==> (#[trigger] entries@[j]).payload@.len()
                    + self.log_value_size_limit <= usize::MAX,
            spec_all_kvs(
                self.region_id,
                self.table_id,
                payload_views(entries@),
                start_seq,
                self.log_value_size_limit as nat,
            ).len() <= usize::MAX,
        ensures
            ({
                let all = spec_all_kvs(
                    self.region_id,
                    self.table_id,
                    payload_views(entries@),
                    start_seq,
                    self.log_value_size_limit as nat,
                );
                &&& entries@.len() == 0 ==> r == Err::<(Vec<KvWriteBatch>, u64), Error>(
                    Error::SplitEmptyLogs,
                )
                &&& (entries@.len() > 0 && spec_kvs_fit(all, self.write_batch_size_limit as nat))
                    ==> r is Ok && flat_kvs(r->Ok_0.0@) == all && r->Ok_0.1 == start_seq
                    + entries@.len() - 1
                &&& (entries@.len() > 0 && !spec_kvs_fit(all, self.write_batch_size_limit as nat))
                    ==> r == Err::<(Vec<KvWriteBatch>, u64), Error>(
                    Error::TooSmallSizeLimitPerBatch { limit: self.write_batch_size_limit },
                )
                &&& r is Ok ==> forall|b: int|
                    0 <= b < r->Ok_0.0@.len() ==> batch_byte_size(
                        kvs_of(#[trigger] r->Ok_0.0@[b]),
                    ) == 0 || batch_byte_size(kvs_of(r->Ok_0.0@[b])) < self.write_batch_size_limit
                &&& r is Ok ==> packed_batches(r->Ok_0.0@, self.write_batch_size_limit as nat)
                &&& r is Ok ==> forall|b: int|
                    0 <= b < r->Ok_0.0@.len() ==> kvs_of(#[trigger] r->Ok_0.0@[b]).len() > 0
            }),
    {
        let ghost views = payload_views(entries@);
        let ghost limit_g = self.log_value_size_limit as nat;
        let ghost bl = self.write_batch_size_limit as nat;
        let ghost all = spec_all_kvs(self.region_id, self.table_id, views, start_seq, limit_g);
        if entries.len() == 0 {
            return Err(Error::SplitEmptyLogs);
        }
        let mut builder = WriteBatchesBuilder::new(
            entries.len(),
            self.write_batch_size_limit,
            start_seq,
        );
        proof {
            assert(views.take(0) =~= Seq::<Seq<u8>>::empty());
        }
        let mut key_buf: Vec<u8> = Vec::new();
        let log_encoding = CommonLogEncoding::newest();
        let mut j: usize = 0;
        while j < entries.len()
            invariant
                self.log_value_size_limit > 0,
                limit_g == self.log_value_size_limit as nat,
                bl == self.write_batch_size_limit as nat,
                views == payload_views(entries@),
                all == spec_all_kvs(self.region_id, self.table_id, views, start_seq, limit_g),
                all.len() <= usize::MAX,
                start_seq + entries@.len() <= u64::MAX,
                forall|j: int|
                    0 <= j < entries@.len() ==> (#[trigger] entries@[j]).payload@.len()
                        <= u32::MAX,
                forall|j: int|
                    0 <= j < entries@.len() ==> (#[trigger] entries@[j]).payload@.len()
                        + self.log_value_size_limit <= usize::MAX,
                j <= entries@.len(),
                entries@.len() > 0,
                builder.wf(),
                builder.size_limit_per_batch == self.write_batch_size_limit,
                builder.next_seq_num == start_seq + j,
                builder.num_inserted_kvs == builder.flat().len(),
                j > 0 ==> builder.num_inserted_kvs > 0,
                j > 0 ==> kvs_of(builder.write_batches@.last()).len() > 0,
                builder.flat() == spec_all_kvs(
                    self.region_id,
                    self.table_id,
                    views.take(j as int),
                    start_seq,
                    limit_g,
                ),
                spec_kvs_fit(builder.flat(), bl),
            decreases entries@.len() - j,
        {
            let ghost ekvs = spec_entry_kvs(
                self.region_id,
                self.table_id,
                (start_seq + j) as u64,
                views[j as int],
                limit_g,
            );
            proof {
                lemma_all_kvs_take_step(
                    self.region_id,
                    self.table_id,
                    views,
                    start_seq,
                    limit_g,
                    j as int,
                );
                lemma_all_kvs_prefix_len(
                    self.region_id,
                    self.table_id,
                    views,
                    start_seq,
                    limit_g,
                    j as int + 1,
                );
                assert(views[j as int] == entries@[j as int].payload@);
            }
            let payload = &entries[j].payload;
            if payload.len() <= self.log_value_size_limit {
                proof {
                    assert(ekvs.len() == 1);
                }
                let key = CommonLogKey::new(self.region_id, self.table_id, builder.next_seq_num());
                log_encoding.encode_key(&mut key_buf, &key);
                match builder.insert_integrate_entry(key_buf.as_slice(), payload.as_slice()) {
                    Ok(()) => {
                        proof {
                            assert(ekvs =~= seq![(key_buf@, payload@)]);
                            assert(builder.flat() =~= spec_all_kvs(
                                self.region_id,
                                self.table_id,
                                views.take(j as int + 1),
                                start_seq,
                                limit_g,
                            ));
                        }
                    },
                    Err(e) => {
                        proof {
                            assert(ekvs[0] == (key_buf@, payload@));
                            lemma_all_kvs_contains_entry_kv(
                                self.region_id,
                                self.table_id,
                                views,
                                start_seq,
                                limit_g,
                                j as int,
                                0,
                            );
                            assert(!spec_kvs_fit(all, bl)) by {
                                if spec_kvs_fit(all, bl) {
                                    let k = choose|k: int|
                                        0 <= k < all.len() && all[k] == ekvs[0];
                                    assert(all[k].0.len() + all[k].1.len() < bl);
                                }
                            }
                        }
                        return Err(e);
                    },
                }
            } else {
                let total = payload.len();
                let offsets = self.compute_sub_entry_offsets(total);
                proof {
                    lemma_ceil_div_bounds(total as nat, limit_g);
                    assert(ekvs.len() == spec_num_chunks(total as nat, limit_g));
                }
                let next_seq_num = builder.next_seq_num();
                let mut i: usize = 0;
                proof {
                    assert(ekvs.take(0) =~= Seq::<(Seq<u8>, Seq<u8>)>::empty());
                    assert(builder.flat() + ekvs.take(0) =~= builder.flat());
                }
                let ghost flat_before = builder.flat();
                while i < offsets.len()
                    invariant
                        self.log_value_size_limit > 0,
                        limit_g == self.log_value_size_limit as nat,
                        bl == self.write_batch_size_limit as nat,
                        all.len() <= usize::MAX,
                        i <= offsets@.len(),
                        total == payload@.len(),
                        payload@ == views[j as int],
                        0 <= j < views.len(),
                        total <= u32::MAX,
                        total > self.log_value_size_limit,
                        total + self.log_value_size_limit <= usize::MAX,
                        offsets@.len() == spec_num_chunks(total as nat, limit_g),
                        ekvs == spec_entry_kvs(
                            self.region_id,
                            self.table_id,
                            next_seq_num,
                            views[j as int],
                            limit_g,
                        ),
                        ekvs.len() == offsets@.len(),
                        forall|k: int|
                            0 <= k < offsets@.len() ==> (#[trigger] offsets@[k]).0 == k
                                * self.log_value_size_limit && offsets@[k].1 == chunk_len(
                                total as nat,
                                limit_g,
                                k,
                            ),
                        builder.wf(),
                        builder.size_limit_per_batch == self.write_batch_size_limit,
                        builder.next_seq_num == next_seq_num,
                        next_seq_num == start_seq + j,
                        builder.num_inserted_kvs == builder.flat().len(),
                        i > 0 ==> kvs_of(builder.write_batches@.last()).len() > 0,
                        flat_before == spec_all_kvs(
                            self.region_id,
                            self.table_id,
                            views.take(j as int),
                            start_seq,
                            limit_g,
                        ),
                        builder.flat() == flat_before + ekvs.take(i as int),
                        flat_before.len() + ekvs.len() <= all.len(),
                        spec_kvs_fit(builder.flat(), bl),
                        spec_all_kvs(
                            self.region_id,
                            self.table_id,
                            views.take(j as int + 1),
                            start_seq,
                            limit_g,
                        ) == flat_before + ekvs,
                        all == spec_all_kvs(
                            self.region_id,
                            self.table_id,
                            views,
                            start_seq,
                            limit_g,
                        ),
                        views == payload_views(entries@),
                        entries@.len() > 0,
                    decreases offsets@.len() - i,
                {
                    let (offset, len) = offsets[i];
                    proof {
                        assert(offsets@[i as int].0 == i * self.log_value_size_limit);
                        assert(offset + len <= total);
                    }
                    let num_remaining_bytes = total - offset - len;
                    let key = CommonLogKey::part(
                        self.region_id,
                        self.table_id,
                        next_seq_num,
                        Some(num_remaining_bytes as u32),
                    );
                    log_encoding.encode_key(&mut key_buf, &key);
                    let val = vstd::slice::slice_subrange(payload.as_slice(), offset, offset + len);
                    proof {
                        assert(ekvs[i as int] == (key_buf@, val@));
                    }
                    match builder.insert_split_part(key_buf.as_slice(), val) {
                        Ok(()) => {
                            proof {
                                assert(ekvs.take(i as int + 1) =~= ekvs.take(i as int) + seq![
                                    ekvs[i as int],
                                ]);
                                assert(builder.flat() =~= flat_before + ekvs.take(i as int + 1));
                            }
                        },
                        Err(e) => {
                            proof {
                                lemma_all_kvs_contains_entry_kv(
                                    self.region_id,
                                    self.table_id,
                                    views,
                                    start_seq,
                                    limit_g,
                                    j as int,
                                    i as int,
                                );
                                assert(!spec_kvs_fit(all, bl)) by {
                                    if spec_kvs_fit(all, bl) {
                                        let k = choose|k: int|
                                            0 <= k < all.len() && all[k] == ekvs[i as int];
                                        assert(all[k].0.len() + all[k].1.len() < bl);
                                    }
                                }
                            }
                            return Err(e);
                        },
                    }
                    i = i + 1;
                }
                proof {
                    assert(ekvs.take(ekvs.len() as int) =~= ekvs);
                }
                builder.finish_split_entry();
            }
            j = j + 1;
        }
        proof {
            assert(views.take(entries@.len() as int) =~= views);
            assert(builder.flat() == all);
            assert(all.len() > 0) by {
                lemma_all_kvs_last_nonempty(
                    self.region_id,
                    self.table_id,
                    views,
                    start_seq,
                    limit_g,
                );
            }
        }
        proof {
            // Every batch is occupied: the later ones by the packing, the
            // single remaining one by the entries just inserted.
            assert forall|b: int| 0 <= b < builder.write_batches@.len() implies kvs_of(
                #[trigger] builder.write_batches@[b],
            ).len() > 0 by {
                if builder.write_batches@.len() == 1 {
                    assert(builder.write_batches@[b] == builder.write_batches@.last());
                }
            }
        }
        let max_seq = match builder.last_seq_num() {
            Some(v) => v,
            None => {
                proof {
                    assert(false);
                }
                0
            },
        };
        Ok((builder.build(), max_seq))
    }
}

/// The length of chunk `i` of a payload of `len` bytes: the per-value limit,
/// or what remains for the last chunk.
pub open spec fn chunk_len(len: nat, limit: nat, i: int) -> int {
    if i * limit + limit <= len {
        limit as int
    } else {
        len - i * limit
    }
}

/// What a location entry must say about entry `j` of payload length `len`.
pub open spec fn location_describes(loc: LogEntryLocation, j: int, len: nat, limit: nat) -> bool {
    match loc {
        LogEntryLocation::Integrate { index } => index == j && len <= limit,
        LogEntryLocation::Splitted { index, sub_entry_offsets } => {
            &&& index == j
            &&& len > limit
            &&& sub_entry_offsets@.len() == spec_num_chunks(len, limit)
            &&& forall|i: int|
                0 <= i < sub_entry_offsets@.len() ==> (#[trigger] sub_entry_offsets@[i]).0 == i
                    * limit && sub_entry_offsets@[i].1 == chunk_len(len, limit, i)
        },
    }
}

/// The ceiling division `(len + limit - 1) / limit` counts the chunks of a
/// positive payload: the chunks cover `len`, one fewer would not, and a
/// payload beyond the limit needs at least two.
pub proof fn lemma_ceil_div_bounds(len: nat, limit: nat)
    requires
        limit > 0,
        len > 0,
    ensures
        spec_num_chunks(len, limit) == (len + limit - 1) as nat / limit,
        spec_num_chunks(len, limit) * limit >= len,
        (spec_num_chunks(len, limit) - 1) * limit < len,
        spec_num_chunks(len, limit) >= 1,
        len > limit ==> spec_num_chunks(len, limit) >= 2,
{
    let n = (len + limit - 1) as int / limit as int;
    vstd::arithmetic::div_mod::lemma_fundamental_div_mod((len + limit - 1) as int, limit as int);
    vstd::arithmetic::div_mod::lemma_mod_division_less_than_divisor(
        (len + limit - 1) as int,
        limit as int,
    );
    let rem = (len + limit - 1) as int % limit as int;
    assert((len + limit - 1) as int == limit * n + rem);
    assert(n * limit >= len && (n - 1) * limit < len) by (nonlinear_arith)
        requires
            len + limit - 1 == limit * n + rem,
            0 <= rem < limit,
            limit > 0;
    let li = limit as int;
    let le = len as int;
    assert(n >= 1) by (nonlinear_arith)
        requires
            n * li >= le,
            le > 0,
            li > 0;
    if len > limit {
        assert(n >= 2) by (nonlinear_arith)
            requires
                n * li >= le,
                (n - 1) * li < le,
                le > li,
                li > 0;
    }
    if len <= limit {
        // One chunk covers everything: the ceiling is one.
        assert(n >= 1);
        assert(n < 2) by (nonlinear_arith)
            requires
                (n - 1) * li < le,
                le <= li,
                li > 0,
                n >= 1;
        assert(spec_num_chunks(len, limit) == 1);
    }
}

/// A nonempty batch of entries stores at least one pair.
pub proof fn lemma_all_kvs_last_nonempty(
    region_id: u64,
    table_id: u64,
    payloads: Seq<Seq<u8>>,
    start_seq: u64,
    limit: nat,
)
    requires
        payloads.len() > 0,
        limit > 0,
    ensures
        spec_all_kvs(region_id, table_id, payloads, start_seq, limit).len() > 0,
{
    let last = payloads.last();
    let ek = spec_entry_kvs(
        region_id,
        table_id,
        (start_seq + payloads.len() - 1) as u64,
        last,
        limit,
    );
    if last.len() <= limit {
        assert(ek.len() == 1);
    } else {
        lemma_ceil_div_bounds(last.len(), limit);
    }
}

/// The records one log entry is stored as, with their keys as values rather
/// than bytes: the abstract view of `spec_entry_kvs`.
pub open spec fn spec_entry_records(
    region_id: u64,
    table_id: u64,
    seq: u64,
    payload: Seq<u8>,
    limit: nat,
) -> Seq<(CommonLogKey, Seq<u8>)>
    recommends
        limit > 0,
        payload.len() <= u32::MAX,
{
    if payload.len() <= limit {
        seq![
            (
                CommonLogKey { region_id, table_id, sequence_num: seq, max_remaining_bytes: None },
                payload,
            ),
        ]
    } else {
        Seq::new(
            spec_num_chunks(payload.len(), limit),
            |i: int|
                {
                    let off = i * limit;
                    let l = if off + limit <= payload.len() {
                        limit as int
                    } else {
                        payload.len() - off
                    };
                    (
                        CommonLogKey {
                            region_id,
                            table_id,
                            sequence_num: seq,
                            max_remaining_bytes: Some((payload.len() - off - l) as u32),
                        },
                        payload.subrange(off, off + l),
                    )
                },
        )
    }
}

/// The abstract records of a batch of log entries, in order.
pub open spec fn spec_all_records(
    region_id: u64,
    table_id: u64,
    payloads: Seq<Seq<u8>>,
    start_seq: u64,
    limit: nat,
) -> Seq<(CommonLogKey, Seq<u8>)>
    decreases payloads.len(),
{
    if payloads.len() == 0 {
        Seq::empty()
    } else {
        spec_all_records(region_id, table_id, payloads.drop_last(), start_seq, limit)
            + spec_entry_records(
            region_id,
            table_id,
            (start_seq + payloads.len() - 1) as u64,
            payloads.last(),
            limit,
        )
    }
}

/// The stored pairs are exactly the abstract records with their keys
/// encoded: what a scan reads back and decodes is `spec_all_records`.
pub proof fn lemma_all_kvs_encode_records(
    region_id: u64,
    table_id: u64,
    payloads: Seq<Seq<u8>>,
    start_seq: u64,
    limit: nat,
)
    ensures
        spec_all_kvs(region_id, table_id, payloads, start_seq, limit) == spec_all_records(
            region_id,
            table_id,
            payloads,
            start_seq,
            limit,
        ).map_values(|r: (CommonLogKey, Seq<u8>)| (spec_log_key_bytes(r.0), r.1)),
    decreases payloads.len(),
{
    let enc = |r: (CommonLogKey, Seq<u8>)| (spec_log_key_bytes(r.0), r.1);
    if payloads.len() == 0 {
        assert(spec_all_kvs(region_id, table_id, payloads, start_seq, limit) =~= spec_all_records(
            region_id,
            table_id,
            payloads,
            start_seq,
            limit,
        ).map_values(enc));
    } else {
        lemma_all_kvs_encode_records(region_id, table_id, payloads.drop_last(), start_seq, limit);
        let seq_last = (start_seq + payloads.len() - 1) as u64;
        let ek = spec_entry_kvs(region_id, table_id, seq_last, payloads.last(), limit);
        let er = spec_entry_records(region_id, table_id, seq_last, payloads.last(), limit);
        assert(ek =~= er.map_values(enc)) by {
            if payloads.last().len() <= limit {
            } else {
                assert forall|i: int| 0 <= i < ek.len() implies ek[i] == er.map_values(enc)[i] by {
                    assert(er.map_values(enc)[i] == enc(er[i]));
                }
            }
        }
        assert(spec_all_kvs(region_id, table_id, payloads, start_seq, limit) =~= spec_all_records(
            region_id,
            table_id,
            payloads,
            start_seq,
            limit,
        ).map_values(enc));
    }
}

} // verus!
