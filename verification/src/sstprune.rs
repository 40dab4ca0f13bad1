//! SST row-group pruning.
//!
//! An SST's footer metadata carries, per row group, the minimum and maximum
//! primary key and a bloom filter of the keys it holds. A read evaluates
//! its predicate against those: a row group survives when the key range
//! might overlap and, for an equality predicate, the bloom filter holds the
//! key. Pruning is sound: a bloom filter never denies an inserted key, and
//! the min/max test never excludes a covered key, so a row the predicate
//! matches is never pruned away.

use vstd::prelude::*;
use crate::bytesenc::lex_less;
use crate::memcache::{fnv1a, spec_fnv1a};
use crate::row::{BitSet, spec_bit};
use crate::memtable::lemma_lex_less_trans;

verus! {

/// The two probe positions of a key in a filter of `num_bits` bits.
pub open spec fn spec_probe1(key: Seq<u8>, num_bits: nat) -> int {
    spec_fnv1a(key) as int % num_bits as int
}

pub open spec fn spec_probe2(key: Seq<u8>, num_bits: nat) -> int {
    (spec_fnv1a(key) ^ 0x9e37_79b9_7f4a_7c15u64) as int % num_bits as int
}

/// Whether the filter bits hold both probes of the key.
pub open spec fn spec_bloom_contains(bits: Seq<u8>, num_bits: nat, key: Seq<u8>) -> bool {
    &&& spec_bit(bits, spec_probe1(key, num_bits))
    &&& spec_bit(bits, spec_probe2(key, num_bits))
}

/// A bloom filter over the primary keys of one row group. It may claim keys
/// it never saw, but it never denies a key it was given.
pub struct BloomFilter {
    pub bits: BitSet,
}

impl BloomFilter {
    pub open spec fn wf(&self) -> bool {
        &&& self.bits.wf()
        &&& self.bits.num_bits >= 1
    }

    pub open spec fn spec_contains(&self, key: Seq<u8>) -> bool {
        spec_bloom_contains(self.bits.bytes@, self.bits.num_bits as nat, key)
    }

    /// An empty filter of `num_bits` bits.
    pub fn new(num_bits: usize) -> (r: Self)
        requires
            1 <= num_bits < usize::MAX - 7,
        ensures
            r.wf(),
            r.bits.num_bits == num_bits,
    {
        BloomFilter { bits: BitSet::new(num_bits) }
    }

    /// Record a key. Every key recorded earlier stays contained.
    pub fn insert(&mut self, key: &[u8])
        requires
            old(self).wf(),
        ensures
            final(self).wf(),
            final(self).bits.num_bits == old(self).bits.num_bits,
            final(self).spec_contains(key@),
            forall|k: Seq<u8>|
                old(self).spec_contains(k) ==> #[trigger] final(self).spec_contains(k),
    {
        let n = self.bits.num_bits;
        let h = fnv1a(key);
        let p1 = (h % (n as u64)) as usize;
        let p2 = ((h ^ 0x9e37_79b9_7f4a_7c15u64) % (n as u64)) as usize;
        proof {
            vstd::arithmetic::div_mod::lemma_mod_division_less_than_divisor(h as int, n as int);
            vstd::arithmetic::div_mod::lemma_mod_division_less_than_divisor(
                (h ^ 0x9e37_79b9_7f4a_7c15u64) as int,
                n as int,
            );
        }
        self.bits.set(p1);
        self.bits.set(p2);
        proof {
            assert forall|k: Seq<u8>| old(self).spec_contains(k) implies #[trigger] final(self).spec_contains(k) by {
                vstd::arithmetic::div_mod::lemma_mod_division_less_than_divisor(
                    spec_fnv1a(k) as int,
                    n as int,
                );
                vstd::arithmetic::div_mod::lemma_mod_division_less_than_divisor(
                    (spec_fnv1a(k) ^ 0x9e37_79b9_7f4a_7c15u64) as int,
                    n as int,
                );
            }
        }
    }

    /// Whether the filter may hold the key; `false` guarantees the key was
    /// never recorded.
    pub fn contains(&self, key: &[u8]) -> (r: bool)
        requires
            self.wf(),
        ensures
            r == self.spec_contains(key@),
    {
        let n = self.bits.num_bits;
        let h = fnv1a(key);
        let p1 = (h % (n as u64)) as usize;
        let p2 = ((h ^ 0x9e37_79b9_7f4a_7c15u64) % (n as u64)) as usize;
        proof {
            vstd::arithmetic::div_mod::lemma_mod_division_less_than_divisor(h as int, n as int);
            vstd::arithmetic::div_mod::lemma_mod_division_less_than_divisor(
                (h ^ 0x9e37_79b9_7f4a_7c15u64) as int,
                n as int,
            );
        }
        let b1 = match self.bits.is_set(p1) {
            Some(b) => b,
            None => false,
        };
        let b2 = match self.bits.is_set(p2) {
            Some(b) => b,
            None => false,
        };
        b1 && b2
    }
}

/// Footer statistics of one row group: the key range it covers and the
/// bloom filter of its keys.
pub struct RowGroupMeta {
    pub min_key: Vec<u8>,
    pub max_key: Vec<u8>,
    pub bloom: BloomFilter,
}

impl RowGroupMeta {
    pub open spec fn wf(&self) -> bool {
        self.bloom.wf()
    }

    /// The statistics are truthful for a key the group holds: the key lies
    /// in the min/max range and the bloom filter was given it.
    pub open spec fn covers(&self, key: Seq<u8>) -> bool {
        &&& !lex_less(key, self.min_key@)
        &&& !lex_less(self.max_key@, key)
        &&& self.bloom.spec_contains(key)
    }
}

/// A pushed-down predicate over the primary key.
#[derive(Debug)]
pub enum Predicate {
    /// Matches every row.
    True,
    /// Matches rows whose key equals the given bytes.
    KeyEquals(Vec<u8>),
    /// Matches rows whose key lies in the inclusive range.
    KeyRange(Vec<u8>, Vec<u8>),
}

/// Whether the predicate holds on a row with primary key `key`.
pub open spec fn spec_pred_matches(p: Predicate, key: Seq<u8>) -> bool {
    match p {
        Predicate::True => true,
        Predicate::KeyEquals(k) => key == k@,
        Predicate::KeyRange(lo, hi) => !lex_less(key, lo@) && !lex_less(hi@, key),
    }
}

/// Whether a row group might hold a matching row, judged by its statistics.
pub open spec fn spec_group_may_match(p: Predicate, g: RowGroupMeta) -> bool {
    match p {
        Predicate::True => true,
        Predicate::KeyEquals(k) => !lex_less(k@, g.min_key@) && !lex_less(g.max_key@, k@)
            && g.bloom.spec_contains(k@),
        Predicate::KeyRange(lo, hi) => !lex_less(hi@, g.min_key@) && !lex_less(g.max_key@, lo@),
    }
}

/// The indices of the row groups that survive pruning, ascending.
pub open spec fn spec_kept(groups: Seq<RowGroupMeta>, p: Predicate) -> Seq<int>
    decreases groups.len(),
{
    if groups.len() == 0 {
        Seq::empty()
    } else {
        let front = spec_kept(groups.drop_last(), p);
        if spec_group_may_match(p, groups.last()) {
            front + seq![groups.len() - 1]
        } else {
            front
        }
    }
}

/// Prune the row groups of an SST against the predicate: a surviving group
/// is one whose key range may overlap the predicate and, for an equality
/// predicate, whose bloom filter holds the key.
pub fn filter_row_groups(groups: &Vec<RowGroupMeta>, predicate: &Predicate) -> (r: Vec<usize>)
    requires
        forall|i: int| 0 <= i < groups@.len() ==> (#[trigger] groups@[i]).wf(),
    ensures
        r@.map_values(|x: usize| x as int) == spec_kept(groups@, *predicate),
{
    let mut r: Vec<usize> = Vec::new();
    let mut i: usize = 0;
    proof {
        assert(groups@.take(0) =~= Seq::<RowGroupMeta>::empty());
        assert(r@.map_values(|x: usize| x as int) =~= spec_kept(groups@.take(0), *predicate));
    }
    while i < groups.len()
        invariant
            forall|k: int| 0 <= k < groups@.len() ==> (#[trigger] groups@[k]).wf(),
            i <= groups@.len(),
            r@.map_values(|x: usize| x as int) == spec_kept(groups@.take(i as int), *predicate),
        decreases groups@.len() - i,
    {
        proof {
            assert(groups@.take(i as int + 1).drop_last() =~= groups@.take(i as int));
            assert(groups@.take(i as int + 1).last() == groups@[i as int]);
        }
        let g = &groups[i];
        let keep = match predicate {
            Predicate::True => true,
            Predicate::KeyEquals(k) => {
                let above_min = !matches!(
                    crate::memkey::compare_bytes(k.as_slice(), g.min_key.as_slice()),
                    core::cmp::Ordering::Less
                );
                let below_max = !matches!(
                    crate::memkey::compare_bytes(g.max_key.as_slice(), k.as_slice()),
                    core::cmp::Ordering::Less
                );
                above_min && below_max && g.bloom.contains(k.as_slice())
            },
            Predicate::KeyRange(lo, hi) => {
                let hi_above_min = !matches!(
                    crate::memkey::compare_bytes(hi.as_slice(), g.min_key.as_slice()),
                    core::cmp::Ordering::Less
                );
                let max_above_lo = !matches!(
                    crate::memkey::compare_bytes(g.max_key.as_slice(), lo.as_slice()),
                    core::cmp::Ordering::Less
                );
                hi_above_min && max_above_lo
            },
        };
        if keep {
            r.push(i);
        }
        proof {
            assert(r@.map_values(|x: usize| x as int) =~= spec_kept(
                groups@.take(i as int + 1),
                *predicate,
            ));
        }
        i = i + 1;
    }
    proof {
        assert(groups@.take(groups@.len() as int) =~= groups@);
    }
    r
}

/// Between two keys, one of below, equal and above holds.
pub proof fn lemma_lex_total(a: Seq<u8>, b: Seq<u8>)
    ensures
        lex_less(a, b) || a == b || lex_less(b, a),
    decreases a.len(),
{
    if a.len() > 0 && b.len() > 0 {
        if a[0] == b[0] {
            lemma_lex_total(a.drop_first(), b.drop_first());
            if a.drop_first() == b.drop_first() {
                assert(a =~= b) by {
                    assert(a.drop_first().len() == b.drop_first().len());
                    assert(a.len() == b.len());
                    assert forall|i: int| 0 <= i < a.len() implies a[i] == b[i] by {
                        if i > 0 {
                            assert(a.drop_first()[i - 1] == a[i]);
                            assert(b.drop_first()[i - 1] == b[i]);
                            assert(a.drop_first()[i - 1] == b.drop_first()[i - 1]);
                        }
                    }
                }
            }
        }
    } else if a.len() == 0 && b.len() == 0 {
        assert(a =~= b);
    }
}

/// Prune soundness: a row the predicate matches is never pruned away. For
/// any row group whose statistics are truthful for a key it holds, and any
/// predicate true on that key, the group survives pruning.
pub proof fn lemma_prune_sound(groups: Seq<RowGroupMeta>, p: Predicate, g: int, key: Seq<u8>)
    requires
        0 <= g < groups.len(),
        groups[g].covers(key),
        spec_pred_matches(p, key),
    ensures
        spec_kept(groups, p).contains(g),
{
    assert(spec_group_may_match(p, groups[g])) by {
        match p {
            Predicate::True => {},
            Predicate::KeyEquals(k) => {
                assert(k@ == key);
            },
            Predicate::KeyRange(lo, hi) => {
                // The key lies both in the group's range and in the queried
                // range, so the two ranges overlap.
                assert(!lex_less(hi@, groups[g].min_key@)) by {
                    if lex_less(hi@, groups[g].min_key@) {
                        lemma_lex_total(key, groups[g].min_key@);
                        if key == groups[g].min_key@ {
                            // The key is the group minimum, so the range end
                            // lies below the key: the predicate was false.
                            assert(lex_less(hi@, key));
                        } else {
                            assert(lex_less(groups[g].min_key@, key));
                            lemma_lex_less_trans(hi@, groups[g].min_key@, key);
                        }
                        assert(false);
                    }
                }
                assert(!lex_less(groups[g].max_key@, lo@)) by {
                    if lex_less(groups[g].max_key@, lo@) {
                        lemma_lex_total(key, groups[g].max_key@);
                        if key == groups[g].max_key@ {
                            assert(lex_less(key, lo@));
                        } else {
                            assert(lex_less(key, groups[g].max_key@));
                            lemma_lex_less_trans(key, groups[g].max_key@, lo@);
                        }
                        assert(false);
                    }
                }
            },
        }
    }
    lemma_kept_contains(groups, p, g);
}

/// No key is strictly below itself.
pub proof fn lemma_no_lex_self(a: Seq<u8>)
    ensures
        !lex_less(a, a),
{
    if lex_less(a, a) {
        crate::memtable::lemma_lex_irrefl(a, a);
    }
}

/// Every group whose statistics may match appears among the kept indices.
proof fn lemma_kept_contains(groups: Seq<RowGroupMeta>, p: Predicate, g: int)
    requires
        0 <= g < groups.len(),
        spec_group_may_match(p, groups[g]),
    ensures
        spec_kept(groups, p).contains(g),
    decreases groups.len(),
{
    if g == groups.len() - 1 {
        let kept = spec_kept(groups, p);
        assert(kept.last() == g);
        assert(kept.contains(g)) by {
            assert(kept[kept.len() - 1] == g);
        }
    } else {
        assert(groups.drop_last()[g] == groups[g]);
        lemma_kept_contains(groups.drop_last(), p, g);
        let front = spec_kept(groups.drop_last(), p);
        let w = choose|w: int| 0 <= w < front.len() && front[w] == g;
        let kept = spec_kept(groups, p);
        assert(kept[w] == g);
    }
}

} // verus!
