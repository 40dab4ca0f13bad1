//! Per-table state of the key/value WAL: sequence allocation, truncation
//! and recovery.
//!
//! A table unit is the slice of one WAL region belonging to one table. Its
//! durable state is a small entry (table id and start sequence) in the meta
//! table, plus the log records themselves; its in-memory state adds the
//! last allocated sequence, recovered at open by scanning the newest
//! records.

use vstd::prelude::*;
use crate::bytesenc::{be_bytes_of, u64_to_be_bytes, u64_from_be_bytes, lemma_be_bytes_len};
use crate::walkey::CommonLogKey;
use crate::walcollect::{IntegrateLogCollector, spec_is_integrate};
use crate::walmanager::{ReadBoundary, LogEntry};
use vstd::slice::slice_subrange;

verus! {

/// How the table unit fails.
#[derive(Debug, Clone, Copy, PartialEq, Eq, Structural)]
pub enum Error {
    /// The sequence space of the region is exhausted.
    SequenceOverflow { table_id: u64 },
    /// A stored table unit entry does not decode.
    Decode,
    /// A stored log key does not decode.
    LogCodec,
}

/// The durable record of a table unit: its table and the first sequence
/// that is still live (everything below was truncated).
#[derive(Debug, Clone, Copy, PartialEq, Eq, Structural)]
pub struct TableUnitEntry {
    pub table_id: u64,
    pub start_sequence: u64,
}

/// The bytes a table unit entry is stored as.
pub open spec fn spec_entry_bytes(e: TableUnitEntry) -> Seq<u8> {
    be_bytes_of(e.table_id as nat, 8) + be_bytes_of(e.start_sequence as nat, 8)
}

impl TableUnitEntry {
    /// A fresh entry: nothing truncated yet.
    pub fn new(table_id: u64) -> (r: Self)
        ensures
            r == (TableUnitEntry { table_id, start_sequence: 0u64 }),
    {
        TableUnitEntry { table_id, start_sequence: 0 }
    }

    /// Encode the entry for the meta table.
    pub fn encode(&self) -> (r: Vec<u8>)
        ensures
            r@ == spec_entry_bytes(*self),
    {
        let mut r = u64_to_be_bytes(self.table_id);
        let start = u64_to_be_bytes(self.start_sequence);
        r.extend_from_slice(start.as_slice());
        proof {
            assert(r@ =~= spec_entry_bytes(*self));
        }
        r
    }

    /// Decode a stored entry; fails exactly on buffers that are not 16
    /// bytes, and inverts `encode`.
    pub fn decode(value: &[u8]) -> (r: Result<Self, Error>)
        ensures
            value@.len() == 16 ==> r is Ok && spec_entry_bytes(r->Ok_0) == value@,
            value@.len() != 16 ==> r == Err::<TableUnitEntry, Error>(Error::Decode),
    {
        if value.len() != 16 {
            return Err(Error::Decode);
        }
        let table_id = u64_from_be_bytes(slice_subrange(value, 0, 8));
        let start_sequence = u64_from_be_bytes(slice_subrange(value, 8, 16));
        let e = TableUnitEntry { table_id, start_sequence };
        proof {
            lemma_be_bytes_len(table_id as nat, 8);
            assert(spec_entry_bytes(e) =~= value@);
        }
        Ok(e)
    }
}

/// Context of the background log cleaner: its scan timeout in milliseconds
/// and how many records one delete batch holds.
#[derive(Debug, Clone, Copy, PartialEq, Eq, Structural)]
pub struct CleanContext {
    pub scan_timeout_ms: u64,
    pub batch_size: usize,
}

impl Default for CleanContext {
    fn default() -> (r: Self)
        ensures
            r.scan_timeout_ms == 10000,
            r.batch_size == 100,
    {
        CleanContext { scan_timeout_ms: 10000, batch_size: 100 }
    }
}

/// In-memory state of one table unit.
#[derive(Debug, Clone, Copy, PartialEq, Eq, Structural)]
pub struct TableUnitState {
    /// Region id of this table unit.
    pub region_id: u64,
    /// Table id of this table unit.
    pub table_id: u64,
    /// Start sequence (inclusive): entries below were truncated.
    pub start_sequence: u64,
    /// Last sequence (inclusive) handed out by a successful write.
    pub last_sequence: u64,
}

impl TableUnitState {
    #[inline]
    pub fn last_sequence(&self) -> (r: u64)
        ensures
            r == self.last_sequence,
    {
        self.last_sequence
    }

    #[inline]
    pub fn start_sequence(&self) -> (r: u64)
        ensures
            r == self.start_sequence,
    {
        self.start_sequence
    }

    #[inline]
    pub fn set_start_sequence(&mut self, sequence: u64)
        ensures
            *final(self) == (TableUnitState { start_sequence: sequence, ..*old(self) }),
    {
        self.start_sequence = sequence;
    }

    /// The durable entry this state persists as.
    #[inline]
    pub fn table_unit_entry(&self) -> (r: TableUnitEntry)
        ensures
            r == (TableUnitEntry {
                table_id: self.table_id,
                start_sequence: self.start_sequence,
            }),
    {
        TableUnitEntry { table_id: self.table_id, start_sequence: self.start_sequence }
    }
}

/// What allocating `number` sequence numbers does: the first allocated
/// number and the advanced state, or nothing when the space would overflow.
pub open spec fn spec_alloc(state: TableUnitState, number: u64) -> Option<(TableUnitState, u64)> {
    if number <= u64::MAX - state.last_sequence {
        Some(
            (
                TableUnitState {
                    last_sequence: (state.last_sequence + number) as u64,
                    ..state
                },
                (state.last_sequence + 1) as u64,
            ),
        )
    } else {
        None
    }
}

/// Allocate a contiguous range of `number` sequence numbers and return its
/// first one; the state's last sequence advances past the range. A failed
/// allocation leaves the state unchanged, so a failed write never advances
/// the sequence watermark.
pub fn alloc_sequence_num(state: &mut TableUnitState, number: u64) -> (r: Result<u64, Error>)
    requires
        number >= 1,
    ensures
        match spec_alloc(*old(state), number) {
            Some((st, first)) => r == Ok::<u64, Error>(first) && *final(state) == st,
            None => r == Err::<u64, Error>(
                Error::SequenceOverflow { table_id: old(state).table_id },
            ) && *final(state) == *old(state),
        },
{
    if number > u64::MAX - state.last_sequence {
        return Err(Error::SequenceOverflow { table_id: state.table_id });
    }
    let first = state.last_sequence + 1;
    state.last_sequence = state.last_sequence + number;
    Ok(first)
}

/// Sequence monotonicity: when a write completes before another one begins,
/// every sequence number of the first lies strictly below every sequence
/// number of the second. The first write gets `[r1, r1 + n1 - 1]` and the
/// second, allocated from the state the first one left, starts above it.
pub proof fn lemma_sequence_monotonic(
    state: TableUnitState,
    n1: u64,
    n2: u64,
    mid: TableUnitState,
    r1: u64,
    fin: TableUnitState,
    r2: u64,
)
    requires
        n1 >= 1,
        n2 >= 1,
        spec_alloc(state, n1) == Some((mid, r1)),
        spec_alloc(mid, n2) == Some((fin, r2)),
    ensures
        r1 + n1 - 1 < r2,
        r2 + n2 - 1 <= fin.last_sequence,
        state.last_sequence < mid.last_sequence < fin.last_sequence,
{
}

/// Truncation: the new start sequence after marking `[0, sequence_num]`
/// deletable, clamped to what was actually written. The start sequence
/// never moves backwards.
pub open spec fn spec_start_after_delete(state: TableUnitState, sequence_num: u64) -> u64 {
    let clamped = if sequence_num > state.last_sequence {
        state.last_sequence
    } else {
        sequence_num
    };
    if state.start_sequence <= clamped {
        (clamped + 1) as u64
    } else {
        state.start_sequence
    }
}

/// Mark the entries in `[0, sequence_num]` eligible for truncation: clamp
/// to the last written sequence, advance the start sequence past the mark,
/// and hand back the durable entry to persist. The start sequence never
/// decreases.
pub fn delete_entries_up_to(state: &mut TableUnitState, sequence_num: u64) -> (r: TableUnitEntry)
    requires
        old(state).last_sequence < u64::MAX,
    ensures
        final(state).start_sequence == spec_start_after_delete(*old(state), sequence_num),
        final(state).start_sequence >= old(state).start_sequence,
        final(state).region_id == old(state).region_id,
        final(state).table_id == old(state).table_id,
        final(state).last_sequence == old(state).last_sequence,
        r == (TableUnitEntry {
            table_id: old(state).table_id,
            start_sequence: final(state).start_sequence,
        }),
{
    let mut seq = sequence_num;
    let last_sequence = state.last_sequence();
    if seq > last_sequence {
        seq = last_sequence;
    }
    let mut entry = state.table_unit_entry();
    if entry.start_sequence <= seq {
        entry.start_sequence = seq + 1;
    }
    state.set_start_sequence(entry.start_sequence);
    entry
}

/// The sequence range a read request covers on this table unit: the start
/// clamped up to the first live sequence, the end clamped down to the last
/// written one. `None` when either boundary denotes an empty range.
pub fn resolve_read_range(state: &TableUnitState, start: &ReadBoundary, end: &ReadBoundary) -> (r:
    Option<(u64, u64)>)
    ensures
        ({
            let s = start.spec_start_sequence();
            let e = end.spec_end_sequence();
            match (s, e) {
                (Some(rs), Some(re)) => r == Some(
                    (
                        (if rs > state.start_sequence {
                            rs
                        } else {
                            state.start_sequence
                        }),
                        (if re < state.last_sequence {
                            re
                        } else {
                            state.last_sequence
                        }),
                    ),
                ),
                _ => r is None,
            }
        }),
{
    let start_sequence = match start.as_start_sequence_number() {
        Some(request_start) => {
            let own = state.start_sequence();
            if own > request_start {
                own
            } else {
                request_start
            }
        },
        None => {
            return None;
        },
    };
    let end_sequence = match end.as_end_sequence_number() {
        Some(request_end) => {
            let own = state.last_sequence();
            if own < request_end {
                own
            } else {
                request_end
            }
        },
        None => {
            return None;
        },
    };
    Some((start_sequence, end_sequence))
}

/// The last sequence recovery finds: walking the buckets newest first, the
/// first bucket that holds records decides, unless its newest record lies
/// below the durable start sequence (a stale bucket left over from a shard
/// move); with no usable bucket, the sequence right below the start.
pub open spec fn spec_load_last_sequence(bucket_max_seqs: Seq<Option<u64>>, start_sequence: u64) -> u64
    decreases bucket_max_seqs.len(),
{
    if bucket_max_seqs.len() == 0 {
        if start_sequence > 0 {
            (start_sequence - 1) as u64
        } else {
            start_sequence
        }
    } else {
        match bucket_max_seqs.last() {
            Some(seq) => {
                if seq as int + 1 < start_sequence {
                    if start_sequence > 0 {
                        (start_sequence - 1) as u64
                    } else {
                        start_sequence
                    }
                } else {
                    seq
                }
            },
            None => spec_load_last_sequence(bucket_max_seqs.drop_last(), start_sequence),
        }
    }
}

/// Recover the last written sequence from the newest record of each time
/// bucket, buckets given oldest first as stored.
pub fn load_last_sequence(bucket_max_seqs: &Vec<Option<u64>>, start_sequence: u64) -> (r: u64)
    ensures
        r == spec_load_last_sequence(bucket_max_seqs@, start_sequence),
{
    let fallback = if start_sequence > 0 {
        start_sequence - 1
    } else {
        start_sequence
    };
    let mut k = bucket_max_seqs.len();
    proof {
        assert(bucket_max_seqs@.take(bucket_max_seqs@.len() as int) =~= bucket_max_seqs@);
    }
    while k > 0
        invariant
            k <= bucket_max_seqs@.len(),
            spec_load_last_sequence(bucket_max_seqs@, start_sequence) == spec_load_last_sequence(
                bucket_max_seqs@.take(k as int),
                start_sequence,
            ),
            fallback == (if start_sequence > 0 {
                (start_sequence - 1) as u64
            } else {
                start_sequence
            }),
        decreases k,
    {
        proof {
            assert(bucket_max_seqs@.take(k as int).last() == bucket_max_seqs@[k as int - 1]);
            assert(bucket_max_seqs@.take(k as int).drop_last() =~= bucket_max_seqs@.take(
                k as int - 1,
            ));
        }
        match bucket_max_seqs[k - 1] {
            Some(seq) => {
                if seq < start_sequence && start_sequence - seq > 1 {
                    return fallback;
                }
                proof {
                    assert(!(seq as int + 1 < start_sequence));
                }
                return seq;
            },
            None => {},
        }
        k = k - 1;
    }
    proof {
        assert(bucket_max_seqs@.take(0) =~= Seq::<Option<u64>>::empty());
    }
    fallback
}

/// What opening a table unit yields from the durable state alone: `None`
/// when no entry is stored, the recovered state otherwise, or a decode
/// failure on a corrupt entry.
pub open spec fn spec_open_table_unit(
    region_id: u64,
    table_id: u64,
    entry_bytes: Option<Seq<u8>>,
    bucket_max_seqs: Seq<Option<u64>>,
) -> Result<Option<TableUnitState>, Error> {
    match entry_bytes {
        None => Ok(None),
        Some(bytes) => {
            if bytes.len() != 16 {
                Err(Error::Decode)
            } else {
                let start = (u64::MAX - (u64::MAX - crate::bytesenc::nat_of_be_bytes(
                    bytes.subrange(8, 16),
                ))) as u64;
                Ok(
                    Some(
                        TableUnitState {
                            region_id,
                            table_id,
                            start_sequence: start,
                            last_sequence: spec_load_last_sequence(bucket_max_seqs, start),
                        },
                    ),
                )
            }
        },
    }
}

/// Open a table unit from its durable state: the stored entry bytes (if the
/// meta table holds one) and the newest record of each bucket. The result
/// is a function of the durable state alone and nothing durable changes, so
/// opening twice on the same durable state yields the same table state and
/// the same next allocable sequence.
pub fn open_table_unit(
    region_id: u64,
    table_id: u64,
    entry_bytes: Option<&Vec<u8>>,
    bucket_max_seqs: &Vec<Option<u64>>,
) -> (r: Result<Option<TableUnitState>, Error>)
    ensures
        r == spec_open_table_unit(
            region_id,
            table_id,
            match entry_bytes {
                Some(b) => Some(b@),
                None => None,
            },
            bucket_max_seqs@,
        ),
{
    let bytes = match entry_bytes {
        None => {
            return Ok(None);
        },
        Some(b) => b,
    };
    let entry = match TableUnitEntry::decode(bytes.as_slice()) {
        Ok(e) => e,
        Err(e) => {
            return Err(e);
        },
    };
    let last_sequence = load_last_sequence(bucket_max_seqs, entry.start_sequence);
    proof {
        crate::bytesenc::lemma_pow256_values();
        crate::bytesenc::lemma_be_bytes_len(entry.table_id as nat, 8);
        crate::bytesenc::lemma_be_round_trip((entry.start_sequence) as nat, 8);
        assert(spec_entry_bytes(entry).subrange(8, 16) =~= be_bytes_of(
            entry.start_sequence as nat,
            8,
        ));
    }
    Ok(
        Some(
            TableUnitState {
                region_id,
                table_id,
                start_sequence: entry.start_sequence,
                last_sequence,
            },
        ),
    )
}

/// Replay idempotence: opening a table unit is a pure function of the
/// durable state, so two opens of the same durable state agree on the table
/// set and on the next allocable sequence.
pub proof fn lemma_open_idempotent(
    region_id: u64,
    table_id: u64,
    entry_bytes: Option<Seq<u8>>,
    bucket_max_seqs: Seq<Option<u64>>,
    first: Result<Option<TableUnitState>, Error>,
    second: Result<Option<TableUnitState>, Error>,
)
    requires
        first == spec_open_table_unit(region_id, table_id, entry_bytes, bucket_max_seqs),
        second == spec_open_table_unit(region_id, table_id, entry_bytes, bucket_max_seqs),
    ensures
        first == second,
        first is Ok && first->Ok_0 is Some ==> spec_alloc(first->Ok_0->0, 1)
            == spec_alloc(second->Ok_0->0, 1),
{
}

/// One decoded log record of a scan: its key and its stored value.
pub struct ScannedRecord {
    pub key: CommonLogKey,
    pub payload: Vec<u8>,
}

/// The integrate logs a run of scanned records reassembles to, in order:
/// parts of one sequence concatenate, and a completed log is emitted before
/// the next sequence begins.
pub open spec fn spec_collect_logs(
    records: Seq<(CommonLogKey, Seq<u8>)>,
    collector_key: Option<CommonLogKey>,
    collector_payload: Seq<u8>,
) -> Seq<(CommonLogKey, Seq<u8>)>
    decreases records.len(),
{
    if records.len() == 0 {
        Seq::empty()
    } else {
        let (key, payload) = records[0];
        let merged_payload = match collector_key {
            Some(ck) => {
                if ck.region_id == key.region_id && ck.table_id == key.table_id
                    && ck.sequence_num == key.sequence_num && crate::walkey::spec_has_remaining(
                    ck,
                ) {
                    collector_payload + payload
                } else {
                    payload
                }
            },
            None => payload,
        };
        if !crate::walkey::spec_has_remaining(key) {
            seq![(key, merged_payload)] + spec_collect_logs(records.drop_first(), None, Seq::empty())
        } else {
            spec_collect_logs(records.drop_first(), Some(key), merged_payload)
        }
    }
}

/// The table, sequence and payload of each reassembled log.
pub open spec fn logs_proj(logs: Seq<(CommonLogKey, Seq<u8>)>) -> Seq<(u64, u64, Seq<u8>)> {
    logs.map_values(|l: (CommonLogKey, Seq<u8>)| (l.0.table_id, l.0.sequence_num, l.1))
}

/// Reassemble the integrate logs of a scan: each complete log carries the
/// table, the sequence and the concatenated payload of its parts. A part
/// run that the scan cut off at the end is dropped, as it is incomplete.
pub fn collect_scanned_logs(records: Vec<ScannedRecord>) -> (r: Vec<LogEntry>)
    ensures
        emitted_view(r@) == logs_proj(
            spec_collect_logs(
                records@.map_values(|rec: ScannedRecord| (rec.key, rec.payload@)),
                None,
                Seq::empty(),
            ),
        ),
{
    let ghost recs = records@.map_values(|rec: ScannedRecord| (rec.key, rec.payload@));
    let mut out: Vec<LogEntry> = Vec::new();
    let mut collector = IntegrateLogCollector::default();
    let n = records.len();
    let mut i: usize = 0;
    proof {
        assert(recs.skip(0) =~= recs);
        assert(emitted_view(out@) =~= Seq::<(u64, u64, Seq<u8>)>::empty());
    }
    while i < n
        invariant
            n == records@.len(),
            recs == records@.map_values(|rec: ScannedRecord| (rec.key, rec.payload@)),
            i <= n,
            collector.log_key is Some ==> !spec_is_integrate(collector),
            logs_proj(spec_collect_logs(recs, None, Seq::empty())) == emitted_view(out@)
                + logs_proj(
                spec_collect_logs(recs.skip(i as int), collector.log_key, collector.log_payload@),
            ),
            collector.log_key is None ==> collector.log_payload@ == Seq::<u8>::empty(),
        decreases n - i,
    {
        let ghost pre_out = out@;
        let ghost pre_key = collector.log_key;
        let ghost pre_payload = collector.log_payload@;
        proof {
            assert(recs.skip(i as int)[0] == recs[i as int]);
            assert(recs.skip(i as int).drop_first() =~= recs.skip(i as int + 1));
        }
        let key = records[i].key;
        collector.collect(key, records[i].payload.as_slice());
        let ghost merged = collector.log_payload@;
        if collector.is_integrate() {
            let (taken_key, payload) = collector.take_log();
            match taken_key {
                Some(k) => {
                    out.push(
                        LogEntry { table_id: k.table_id, sequence: k.sequence_num, payload },
                    );
                },
                None => {
                    proof {
                        assert(false);
                    }
                },
            }
            proof {
                let step = spec_collect_logs(recs.skip(i as int), pre_key, pre_payload);
                let rest = spec_collect_logs(recs.skip(i as int + 1), None, Seq::empty());
                assert(step == seq![(key, merged)] + rest);
                assert(logs_proj(step) =~= seq![(key.table_id, key.sequence_num, merged)]
                    + logs_proj(rest));
                assert(emitted_view(out@) =~= emitted_view(pre_out) + seq![
                    (key.table_id, key.sequence_num, merged),
                ]);
            }
        } else {
            proof {
                assert(collector.log_key == Some(key));
                let step = spec_collect_logs(recs.skip(i as int), pre_key, pre_payload);
                assert(step == spec_collect_logs(recs.skip(i as int + 1), Some(key), merged));
            }
        }
        i = i + 1;
    }
    proof {
        assert(recs.skip(n as int) =~= Seq::<(CommonLogKey, Seq<u8>)>::empty());
        assert(logs_proj(spec_collect_logs(recs.skip(n as int), collector.log_key,
            collector.log_payload@)) =~= Seq::<(u64, u64, Seq<u8>)>::empty());
        assert(emitted_view(out@) + Seq::<(u64, u64, Seq<u8>)>::empty() =~= emitted_view(out@));
    }
    out
}

/// The emitted logs as plain values: table, sequence and payload of each.
pub open spec fn emitted_view(out: Seq<LogEntry>) -> Seq<(u64, u64, Seq<u8>)> {
    out.map_values(|e: LogEntry| (e.table_id, e.sequence, e.payload@))
}

/// The delete batches the cleaner issues for a run of record keys: full
/// batches of the configured size, the last one shorter.
pub open spec fn spec_clean_batches(keys: Seq<Seq<u8>>, batch_size: nat) -> Seq<Seq<Seq<u8>>>
    decreases keys.len(),
{
    if keys.len() == 0 {
        Seq::empty()
    } else if batch_size == 0 || keys.len() <= batch_size {
        seq![keys]
    } else {
        seq![keys.take(batch_size as int)] + spec_clean_batches(
            keys.skip(batch_size as int),
            batch_size,
        )
    }
}

/// The key bytes of each planned batch.
pub open spec fn batch_views(out: Seq<Vec<Vec<u8>>>) -> Seq<Seq<Seq<u8>>> {
    out.map_values(|b: Vec<Vec<u8>>| b@.map_values(|k: Vec<u8>| k@))
}

/// Plan the deletion of the scanned record keys of a truncated range: the
/// keys are grouped, in order, into write batches of at most the cleaner's
/// batch size, so no single delete round grows unbounded.
pub fn clean_logs_batches(keys: &Vec<Vec<u8>>, ctx: &CleanContext) -> (r: Vec<Vec<Vec<u8>>>)
    requires
        ctx.batch_size >= 1,
    ensures
        batch_views(r@) == spec_clean_batches(
            keys@.map_values(|k: Vec<u8>| k@),
            ctx.batch_size as nat,
        ),
        forall|i: int| 0 <= i < r@.len() ==> (#[trigger] r@[i])@.len() <= ctx.batch_size,
{
    let ghost all = keys@.map_values(|k: Vec<u8>| k@);
    let batch_size = ctx.batch_size;
    let mut out: Vec<Vec<Vec<u8>>> = Vec::new();
    let mut current: Vec<Vec<u8>> = Vec::new();
    let n = keys.len();
    let mut i: usize = 0;
    proof {
        assert(all.skip(0) =~= all);
        assert(batch_views(out@) =~= Seq::<Seq<Seq<u8>>>::empty());
        assert(current@.map_values(|k: Vec<u8>| k@) =~= all.subrange(0, 0));
    }
    while i < n
        invariant
            n == keys@.len(),
            all == keys@.map_values(|k: Vec<u8>| k@),
            batch_size == ctx.batch_size,
            batch_size >= 1,
            i <= n,
            current@.len() < batch_size,
            current@.len() <= i,
            current@.map_values(|k: Vec<u8>| k@) == all.subrange(i - current@.len(), i as int),
            forall|b: int| 0 <= b < out@.len() ==> (#[trigger] out@[b])@.len() <= batch_size,
            spec_clean_batches(all, batch_size as nat) == batch_views(out@)
                + spec_clean_batches(all.skip(i - current@.len()), batch_size as nat),
        decreases n - i,
    {
        let mut key: Vec<u8> = Vec::new();
        key.extend_from_slice(keys[i].as_slice());
        proof {
            assert(key@ =~= all[i as int]);
        }
        current.push(key);
        i = i + 1;
        proof {
            assert(current@.map_values(|k: Vec<u8>| k@) =~= all.subrange(
                i - current@.len(),
                i as int,
            ));
        }
        if current.len() == batch_size {
            let ghost pre_out = out@;
            let ghost base = i - current@.len();
            let mut done: Vec<Vec<u8>> = Vec::new();
            core::mem::swap(&mut done, &mut current);
            out.push(done);
            proof {
                let rest = all.skip(base);
                assert(rest.len() == n - base);
                assert(rest.len() >= batch_size);
                if rest.len() <= batch_size {
                    assert(i == n);
                    assert(rest =~= all.subrange(base, i as int));
                    assert(batch_views(out@) =~= batch_views(pre_out) + seq![rest]);
                    assert(all.skip(i as int).len() == 0);
                    assert(spec_clean_batches(all.skip(i as int), batch_size as nat) =~= Seq::<
                        Seq<Seq<u8>>,
                    >::empty());
                    assert(batch_views(pre_out) + seq![rest] + Seq::<Seq<Seq<u8>>>::empty()
                        =~= batch_views(pre_out) + seq![rest]);
                } else {
                    assert(rest.take(batch_size as int) =~= all.subrange(base, i as int));
                    assert(rest.skip(batch_size as int) =~= all.skip(i as int));
                    assert(batch_views(out@) =~= batch_views(pre_out) + seq![
                        rest.take(batch_size as int),
                    ]);
                    assert(batch_views(pre_out) + (seq![rest.take(batch_size as int)]
                        + spec_clean_batches(all.skip(i as int), batch_size as nat))
                        =~= batch_views(out@) + spec_clean_batches(
                        all.skip(i as int),
                        batch_size as nat,
                    ));
                }
                assert(current@.map_values(|k: Vec<u8>| k@) =~= all.subrange(i as int, i as int));
            }
        }
    }
    if current.len() > 0 {
        let ghost pre_out = out@;
        let ghost base = i - current@.len();
        proof {
            let rest = all.skip(base);
            assert(rest =~= all.subrange(base, n as int));
            assert(rest.len() < batch_size || rest.len() <= batch_size);
            assert(rest.len() > 0);
        }
        out.push(current);
        proof {
            let rest = all.skip(base);
            assert(spec_clean_batches(rest, batch_size as nat) == seq![rest]);
            assert(batch_views(out@) =~= batch_views(pre_out) + seq![rest]);
        }
    } else {
        proof {
            assert(all.skip(i as int).len() == 0);
            assert(spec_clean_batches(all.skip(i as int), batch_size as nat) =~= Seq::<
                Seq<Seq<u8>>,
            >::empty());
            assert(batch_views(out@) + Seq::<Seq<Seq<u8>>>::empty() =~= batch_views(out@));
        }
    }
    out
}
/// The collector state left behind by a run of records, mirroring
/// `spec_collect_logs` step for step.
pub open spec fn spec_collector_after(
    records: Seq<(CommonLogKey, Seq<u8>)>,
    collector_key: Option<CommonLogKey>,
    collector_payload: Seq<u8>,
) -> (Option<CommonLogKey>, Seq<u8>)
    decreases records.len(),
{
    if records.len() == 0 {
        (collector_key, collector_payload)
    } else {
        let (key, payload) = records[0];
        let merged_payload = match collector_key {
            Some(ck) => {
                if ck.region_id == key.region_id && ck.table_id == key.table_id
                    && ck.sequence_num == key.sequence_num && crate::walkey::spec_has_remaining(
                    ck,
                ) {
                    collector_payload + payload
                } else {
                    payload
                }
            },
            None => payload,
        };
        if !crate::walkey::spec_has_remaining(key) {
            spec_collector_after(records.drop_first(), None, Seq::empty())
        } else {
            spec_collector_after(records.drop_first(), Some(key), merged_payload)
        }
    }
}

/// Collection distributes over concatenation: the second run starts from
/// the collector state the first one left.
pub proof fn lemma_collect_append(
    r1: Seq<(CommonLogKey, Seq<u8>)>,
    r2: Seq<(CommonLogKey, Seq<u8>)>,
    collector_key: Option<CommonLogKey>,
    collector_payload: Seq<u8>,
)
    ensures
        spec_collect_logs(r1 + r2, collector_key, collector_payload) == spec_collect_logs(
            r1,
            collector_key,
            collector_payload,
        ) + spec_collect_logs(
            r2,
            spec_collector_after(r1, collector_key, collector_payload).0,
            spec_collector_after(r1, collector_key, collector_payload).1,
        ),
        spec_collector_after(r1 + r2, collector_key, collector_payload) == spec_collector_after(
            r2,
            spec_collector_after(r1, collector_key, collector_payload).0,
            spec_collector_after(r1, collector_key, collector_payload).1,
        ),
    decreases r1.len(),
{
    if r1.len() == 0 {
        assert(r1 + r2 =~= r2);
        assert(spec_collect_logs(r1, collector_key, collector_payload) =~= Seq::<
            (CommonLogKey, Seq<u8>),
        >::empty());
        assert(Seq::<(CommonLogKey, Seq<u8>)>::empty() + spec_collect_logs(
            r2,
            collector_key,
            collector_payload,
        ) =~= spec_collect_logs(r2, collector_key, collector_payload));
    } else {
        let both = r1 + r2;
        assert(both[0] == r1[0]);
        assert(both.drop_first() =~= r1.drop_first() + r2);
        let (key, payload) = r1[0];
        let merged_payload = match collector_key {
            Some(ck) => {
                if ck.region_id == key.region_id && ck.table_id == key.table_id
                    && ck.sequence_num == key.sequence_num && crate::walkey::spec_has_remaining(
                    ck,
                ) {
                    collector_payload + payload
                } else {
                    payload
                }
            },
            None => payload,
        };
        if !crate::walkey::spec_has_remaining(key) {
            lemma_collect_append(r1.drop_first(), r2, None, Seq::empty());
            let after = spec_collector_after(r1, collector_key, collector_payload);
            assert(seq![(key, merged_payload)] + (spec_collect_logs(
                r1.drop_first(),
                None,
                Seq::empty(),
            ) + spec_collect_logs(r2, after.0, after.1)) =~= (seq![(key, merged_payload)]
                + spec_collect_logs(r1.drop_first(), None, Seq::empty())) + spec_collect_logs(
                r2,
                after.0,
                after.1,
            ));
        } else {
            lemma_collect_append(r1.drop_first(), r2, Some(key), merged_payload);
        }
    }
}

/// Reassembling the stored records of one entry yields exactly that entry:
/// its table, its sequence and its whole payload, and the collector ends
/// clean.
pub proof fn lemma_collect_entry(
    region_id: u64,
    table_id: u64,
    seq: u64,
    payload: Seq<u8>,
    limit: nat,
)
    requires
        limit >= 1,
        payload.len() <= u32::MAX,
    ensures
        logs_proj(
            spec_collect_logs(
                crate::walsplit::spec_entry_records(region_id, table_id, seq, payload, limit),
                None,
                Seq::empty(),
            ),
        ) == seq![(table_id, seq, payload)],
        spec_collector_after(
            crate::walsplit::spec_entry_records(region_id, table_id, seq, payload, limit),
            None,
            Seq::empty(),
        ) == (None::<CommonLogKey>, Seq::<u8>::empty()),
{
    let records = crate::walsplit::spec_entry_records(region_id, table_id, seq, payload, limit);
    if payload.len() <= limit {
        let key = CommonLogKey { region_id, table_id, sequence_num: seq, max_remaining_bytes: None };
        assert(records.len() == 1);
        assert(records[0] == (key, payload));
        assert(!crate::walkey::spec_has_remaining(key));
        let rest = records.drop_first();
        assert(rest =~= Seq::<(CommonLogKey, Seq<u8>)>::empty());
        assert(spec_collect_logs(rest, None, Seq::empty()) =~= Seq::<
            (CommonLogKey, Seq<u8>),
        >::empty());
        assert(spec_collect_logs(records, None, Seq::empty()) == seq![(key, payload)]
            + spec_collect_logs(rest, None, Seq::empty()));
        assert(seq![(key, payload)] + Seq::<(CommonLogKey, Seq<u8>)>::empty() =~= seq![
            (key, payload),
        ]);
        assert(logs_proj(seq![(key, payload)]) =~= seq![(table_id, seq, payload)]);
        assert(spec_collector_after(records, None, Seq::empty()) == spec_collector_after(
            rest,
            None,
            Seq::empty(),
        ));
    } else {
        crate::walsplit::lemma_ceil_div_bounds(payload.len(), limit);
        let n = crate::walsplit::spec_num_chunks(payload.len(), limit) as int;
        assert(n >= 2);
        assert(records[0].1 =~= payload.take(limit as int));
        assert(records.skip(0).drop_first() =~= records.skip(1));
        assert(records.skip(0) =~= records);
        // The first chunk opens the collection; the rest extend and close it.
        assert(crate::walkey::spec_has_remaining(records[0].0)) by {
            lemma_chunk_remaining(payload.len(), limit, 0);
        }
        lemma_collect_chunks(region_id, table_id, seq, payload, limit, 1);
        assert(payload.take(1 * (limit as int)) =~= payload.take(limit as int));
        assert(logs_proj(seq![(records[n - 1].0, payload)]) =~= seq![(table_id, seq, payload)]);
    }
}

/// Whether chunk `i` of a split payload leaves bytes behind: every chunk
/// but the last does.
proof fn lemma_chunk_remaining(plen: nat, limit: nat, i: int)
    requires
        limit >= 1,
        plen > limit,
        plen <= u32::MAX,
        0 <= i < crate::walsplit::spec_num_chunks(plen, limit),
    ensures
        ({
            let n = crate::walsplit::spec_num_chunks(plen, limit) as int;
            let off = i * limit;
            let l = if off + limit <= plen {
                limit as int
            } else {
                plen - off
            };
            &&& 0 <= off
            &&& off + l <= plen
            &&& l >= 1
            &&& (i < n - 1 ==> l == limit && plen - off - l > 0)
            &&& (i == n - 1 ==> off + l == plen && plen - off - l == 0)
        }),
{
    crate::walsplit::lemma_ceil_div_bounds(plen, limit);
    let n = crate::walsplit::spec_num_chunks(plen, limit) as int;
    let li = limit as int;
    assert(i * li >= 0) by (nonlinear_arith)
        requires
            i >= 0,
            li >= 1;
    if i < n - 1 {
        assert((i + 1) * li <= (n - 1) * li) by (nonlinear_arith)
            requires
                i + 1 <= n - 1,
                li >= 1;
        assert((i + 1) * li == i * li + li) by (nonlinear_arith);
    } else {
        assert(i == n - 1);
        assert(n * li == (n - 1) * li + li) by (nonlinear_arith);
    }
}

/// Collecting from chunk `i` onwards, with the first `i` chunks already
/// merged, closes the entry: the full payload comes out and the collector
/// resets.
proof fn lemma_collect_chunks(
    region_id: u64,
    table_id: u64,
    seq: u64,
    payload: Seq<u8>,
    limit: nat,
    i: int,
)
    requires
        limit >= 1,
        payload.len() > limit,
        payload.len() <= u32::MAX,
        1 <= i < crate::walsplit::spec_num_chunks(payload.len(), limit),
    ensures
        ({
            let records = crate::walsplit::spec_entry_records(
                region_id,
                table_id,
                seq,
                payload,
                limit,
            );
            let n = crate::walsplit::spec_num_chunks(payload.len(), limit) as int;
            &&& spec_collect_logs(records.skip(i), Some(records[i - 1].0), payload.take(i * limit))
                == seq![(records[n - 1].0, payload)]
            &&& spec_collector_after(
                records.skip(i),
                Some(records[i - 1].0),
                payload.take(i * limit),
            ) == (None::<CommonLogKey>, Seq::<u8>::empty())
        }),
    decreases crate::walsplit::spec_num_chunks(payload.len(), limit) - i,
{
    let records = crate::walsplit::spec_entry_records(region_id, table_id, seq, payload, limit);
    let n = crate::walsplit::spec_num_chunks(payload.len(), limit) as int;
    let li = limit as int;
    lemma_chunk_remaining(payload.len(), limit, i);
    lemma_chunk_remaining(payload.len(), limit, i - 1);
    let tail = records.skip(i);
    assert(tail[0] == records[i]);
    assert(tail.drop_first() =~= records.skip(i + 1));
    // The previous chunk left bytes behind, so this one merges into it.
    assert(crate::walkey::spec_has_remaining(records[i - 1].0));
    assert(tail.len() == n - i);
    let off = i * li;
    let l = if off + li <= payload.len() {
        li
    } else {
        payload.len() - off
    };
    assert((i + 1) * li == i * li + li) by (nonlinear_arith);
    assert(payload.take(off) + payload.subrange(off, off + l) =~= payload.take(off + l));
    let prev = records[i - 1].0;
    let cur = records[i].0;
    assert(cur.region_id == prev.region_id && cur.table_id == prev.table_id && cur.sequence_num
        == prev.sequence_num);
    assert(records[i].1 =~= payload.subrange(off, off + l));
    if i == n - 1 {
        assert(!crate::walkey::spec_has_remaining(cur));
        assert(payload.take(off + l) =~= payload);
        assert(payload.take(off) + records[i].1 =~= payload);
        let rest = tail.drop_first();
        assert(rest =~= Seq::<(CommonLogKey, Seq<u8>)>::empty());
        assert(spec_collect_logs(rest, None, Seq::empty()) =~= Seq::<
            (CommonLogKey, Seq<u8>),
        >::empty());
        assert(spec_collect_logs(tail, Some(prev), payload.take(off)) == seq![(cur, payload.take(
            off,
        ) + records[i].1)] + spec_collect_logs(rest, None, Seq::empty()));
        assert(spec_collect_logs(tail, Some(prev), payload.take(off)) =~= seq![
            (records[n - 1].0, payload),
        ]);
        assert(spec_collector_after(tail, Some(prev), payload.take(off)) == spec_collector_after(
            rest,
            None,
            Seq::empty(),
        ));
    } else {
        assert(crate::walkey::spec_has_remaining(cur));
        assert(payload.take(off) + records[i].1 =~= payload.take((i + 1) * li));
        lemma_collect_chunks(region_id, table_id, seq, payload, limit, i + 1);
        assert(spec_collect_logs(tail, Some(prev), payload.take(off)) == spec_collect_logs(
            records.skip(i + 1),
            Some(cur),
            payload.take(off) + records[i].1,
        ));
        assert(spec_collector_after(tail, Some(prev), payload.take(off)) == spec_collector_after(
            records.skip(i + 1),
            Some(cur),
            payload.take(off) + records[i].1,
        ));
    }
}

/// Writing then replaying gives the batch back: the records the split
/// encoder stores for a batch of payloads, reassembled in scan order, are
/// exactly the payloads, one log per entry, under the consecutive sequence
/// numbers of the write, and the collector ends clean. Together with the
/// key codec's round trip this ties a write to the read that follows it.
pub proof fn lemma_wal_replay_round_trip(
    region_id: u64,
    table_id: u64,
    payloads: Seq<Seq<u8>>,
    start_seq: u64,
    limit: nat,
)
    requires
        limit >= 1,
        forall|j: int| 0 <= j < payloads.len() ==> (#[trigger] payloads[j]).len() <= u32::MAX,
        start_seq + payloads.len() <= u64::MAX,
    ensures
        logs_proj(
            spec_collect_logs(
                crate::walsplit::spec_all_records(region_id, table_id, payloads, start_seq, limit),
                None,
                Seq::empty(),
            ),
        ) == Seq::new(
            payloads.len(),
            |j: int| (table_id, (start_seq + j) as u64, payloads[j]),
        ),
        spec_collector_after(
            crate::walsplit::spec_all_records(region_id, table_id, payloads, start_seq, limit),
            None,
            Seq::empty(),
        ) == (None::<CommonLogKey>, Seq::<u8>::empty()),
    decreases payloads.len(),
{
    let all = crate::walsplit::spec_all_records(region_id, table_id, payloads, start_seq, limit);
    let expected = Seq::new(
        payloads.len(),
        |j: int| (table_id, (start_seq + j) as u64, payloads[j]),
    );
    if payloads.len() == 0 {
        assert(logs_proj(spec_collect_logs(all, None, Seq::empty())) =~= expected);
    } else {
        let front = crate::walsplit::spec_all_records(
            region_id,
            table_id,
            payloads.drop_last(),
            start_seq,
            limit,
        );
        let seq_last = (start_seq + payloads.len() - 1) as u64;
        let entry = crate::walsplit::spec_entry_records(
            region_id,
            table_id,
            seq_last,
            payloads.last(),
            limit,
        );
        lemma_wal_replay_round_trip(region_id, table_id, payloads.drop_last(), start_seq, limit);
        lemma_collect_append(front, entry, None, Seq::empty());
        lemma_collect_entry(region_id, table_id, seq_last, payloads.last(), limit);
        let front_logs = spec_collect_logs(front, None, Seq::empty());
        let entry_logs = spec_collect_logs(entry, None, Seq::empty());
        assert(logs_proj(front_logs + entry_logs) =~= logs_proj(front_logs) + logs_proj(
            entry_logs,
        ));
        assert(logs_proj(front_logs) + logs_proj(entry_logs) =~= expected);
    }
}

} // verus!
