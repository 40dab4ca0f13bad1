//! A size-weighted LRU cache partition.
//!
//! Entries are byte keys mapping to byte values; the weight of an entry is
//! its value's length. The partition holds its entries in recency order,
//! most recent first, and never holds more value bytes than its capacity:
//! inserting evicts least-recently-used entries from the back until the new
//! value fits, and a value larger than the whole capacity is rejected
//! silently.

use vstd::prelude::*;
use crate::memkey::compare_bytes;

verus! {

/// Recency-ordered view of the entries: key and value byte strings, most
/// recently used first.
pub open spec fn entry_views(entries: Seq<(Vec<u8>, Vec<u8>)>) -> Seq<(Seq<u8>, Seq<u8>)> {
    entries.map_values(|e: (Vec<u8>, Vec<u8>)| (e.0@, e.1@))
}

/// Total weight of the entries: the sum of the value lengths.
pub open spec fn total_weight(s: Seq<(Seq<u8>, Seq<u8>)>) -> nat
    decreases s.len(),
{
    if s.len() == 0 {
        0
    } else {
        total_weight(s.drop_last()) + s.last().1.len()
    }
}

/// Position of the entry of `key`, scanning from the most recent.
pub open spec fn spec_find(s: Seq<(Seq<u8>, Seq<u8>)>, key: Seq<u8>) -> Option<int>
    decreases s.len(),
{
    if s.len() == 0 {
        None
    } else if s[0].0 == key {
        Some(0int)
    } else {
        match spec_find(s.drop_first(), key) {
            None => None,
            Some(i) => Some(i + 1),
        }
    }
}

/// No two entries share a key.
pub open spec fn unique_keys(s: Seq<(Seq<u8>, Seq<u8>)>) -> bool {
    forall|i: int, j: int| 0 <= i < j < s.len() ==> (#[trigger] s[i]).0 != (#[trigger] s[j]).0
}

/// The entries left after evicting from the least-recent end until `need`
/// more weight fits under `cap`.
pub open spec fn spec_evict(s: Seq<(Seq<u8>, Seq<u8>)>, need: nat, cap: nat) -> Seq<
    (Seq<u8>, Seq<u8>),
>
    decreases s.len(),
{
    if total_weight(s) + need <= cap {
        s
    } else if s.len() == 0 {
        s
    } else {
        spec_evict(s.drop_last(), need, cap)
    }
}

/// The entries minus the one of `key`, if present.
pub open spec fn spec_remove_key(s: Seq<(Seq<u8>, Seq<u8>)>, key: Seq<u8>) -> Seq<
    (Seq<u8>, Seq<u8>),
> {
    match spec_find(s, key) {
        None => s,
        Some(i) => s.remove(i),
    }
}

/// Removing one entry subtracts its weight.
pub proof fn lemma_weight_remove(s: Seq<(Seq<u8>, Seq<u8>)>, i: int)
    requires
        0 <= i < s.len(),
    ensures
        total_weight(s.remove(i)) + s[i].1.len() == total_weight(s),
    decreases s.len(),
{
    if i == s.len() - 1 {
        assert(s.remove(i) =~= s.drop_last());
    } else {
        assert(s.remove(i).drop_last() =~= s.drop_last().remove(i));
        assert(s.remove(i).last() == s.last());
        lemma_weight_remove(s.drop_last(), i);
    }
}

/// Prepending one entry adds its weight.
pub proof fn lemma_weight_prepend(e: (Seq<u8>, Seq<u8>), s: Seq<(Seq<u8>, Seq<u8>)>)
    ensures
        total_weight(seq![e] + s) == e.1.len() + total_weight(s),
    decreases s.len(),
{
    if s.len() == 0 {
        assert((seq![e] + s).drop_last() =~= Seq::<(Seq<u8>, Seq<u8>)>::empty());
        assert((seq![e] + s).last() == e);
        assert((seq![e] + s).len() == 1);
        assert(total_weight(seq![e] + s) == total_weight((seq![e] + s).drop_last()) + (seq![e]
            + s).last().1.len());
        assert(total_weight((seq![e] + s).drop_last()) == 0);
    } else {
        assert((seq![e] + s).drop_last() =~= seq![e] + s.drop_last());
        assert((seq![e] + s).last() == s.last());
        lemma_weight_prepend(e, s.drop_last());
    }
}

/// A found key is the key at the found position, and an unfound key is
/// nowhere.
pub proof fn lemma_find_is_correct(s: Seq<(Seq<u8>, Seq<u8>)>, key: Seq<u8>)
    ensures
        match spec_find(s, key) {
            Some(i) => 0 <= i < s.len() && s[i].0 == key,
            None => forall|m: int| 0 <= m < s.len() ==> (#[trigger] s[m]).0 != key,
        },
    decreases s.len(),
{
    if s.len() > 0 && s[0].0 != key {
        lemma_find_is_correct(s.drop_first(), key);
        match spec_find(s.drop_first(), key) {
            Some(i) => {
                assert(s.drop_first()[i] == s[i + 1]);
            },
            None => {
                assert forall|m: int| 0 <= m < s.len() implies (#[trigger] s[m]).0 != key by {
                    if m > 0 {
                        assert(s.drop_first()[m - 1] == s[m]);
                    }
                }
            },
        }
    }
}

/// The weight of the evicted tail never exceeds `cap - need` when the need
/// itself fits.
pub proof fn lemma_evict_fits(s: Seq<(Seq<u8>, Seq<u8>)>, need: nat, cap: nat)
    requires
        need <= cap,
    ensures
        total_weight(spec_evict(s, need, cap)) + need <= cap,
    decreases s.len(),
{
    if total_weight(s) + need <= cap {
    } else if s.len() == 0 {
    } else {
        lemma_evict_fits(s.drop_last(), need, cap);
    }
}

/// Eviction keeps a prefix of the recency order, so keys stay unique and
/// only the least-recent entries leave.
pub proof fn lemma_evict_prefix(s: Seq<(Seq<u8>, Seq<u8>)>, need: nat, cap: nat)
    ensures
        spec_evict(s, need, cap).is_prefix_of(s),
    decreases s.len(),
{
    if total_weight(s) + need <= cap {
        assert(s.is_prefix_of(s)) by {
            assert(s =~= s.subrange(0, s.len() as int));
        }
    } else if s.len() == 0 {
        assert(s =~= s.subrange(0, s.len() as int));
    } else {
        lemma_evict_prefix(s.drop_last(), need, cap);
        let e = spec_evict(s.drop_last(), need, cap);
        assert(e =~= s.drop_last().subrange(0, e.len() as int));
        assert(e =~= s.subrange(0, e.len() as int));
    }
}

/// One size-weighted LRU partition of the byte cache.
pub struct LruPartition {
    pub entries: Vec<(Vec<u8>, Vec<u8>)>,
    pub mem_cap: usize,
    pub total_bytes: usize,
}

impl LruPartition {
    /// Recency-ordered entries, most recently used first.
    pub open spec fn view_entries(&self) -> Seq<(Seq<u8>, Seq<u8>)> {
        entry_views(self.entries@)
    }

    /// The capacity in value bytes.
    pub open spec fn spec_cap(&self) -> nat {
        self.mem_cap as nat
    }

    /// The weight is tracked exactly, stays within the capacity, and keys
    /// are unique.
    pub open spec fn wf(&self) -> bool {
        &&& self.total_bytes as nat == total_weight(self.view_entries())
        &&& self.total_bytes <= self.mem_cap
        &&& unique_keys(self.view_entries())
    }

    /// An empty partition of capacity `mem_cap` value bytes.
    pub fn new(mem_cap: usize) -> (r: Self)
        requires
            mem_cap > 0,
        ensures
            r.wf(),
            r.spec_cap() == mem_cap,
            r.view_entries() == Seq::<(Seq<u8>, Seq<u8>)>::empty(),
    {
        let r = LruPartition { entries: Vec::new(), mem_cap, total_bytes: 0 };
        proof {
            assert(r.view_entries() =~= Seq::<(Seq<u8>, Seq<u8>)>::empty());
        }
        r
    }

    /// Position of `key` among the entries, most recent first.
    fn find_index(&self, key: &[u8]) -> (r: Option<usize>)
        ensures
            match spec_find(self.view_entries(), key@) {
                None => r is None,
                Some(i) => r is Some && r->0 == i,
            },
    {
        let ghost s = self.view_entries();
        let mut i: usize = 0;
        proof {
            lemma_find_skip(s, key@, 0);
        }
        while i < self.entries.len()
            invariant
                s == self.view_entries(),
                i <= self.entries@.len(),
                s.len() == self.entries@.len(),
                forall|m: int| 0 <= m < i ==> (#[trigger] s[m]).0 != key@,
                spec_find(s, key@) == shift_find(spec_find(s.skip(i as int), key@), i as int),
            decreases self.entries@.len() - i,
        {
            let hit = matches!(
                compare_bytes(self.entries[i].0.as_slice(), key),
                core::cmp::Ordering::Equal
            );
            if hit {
                proof {
                    assert(s.skip(i as int)[0] == s[i as int]);
                    assert(spec_find(s.skip(i as int), key@) == Some(0int));
                }
                return Some(i);
            }
            proof {
                assert(s.skip(i as int)[0] == s[i as int]);
                assert(s.skip(i as int).drop_first() =~= s.skip(i as int + 1));
            }
            i = i + 1;
        }
        proof {
            assert(s.skip(i as int) =~= Seq::<(Seq<u8>, Seq<u8>)>::empty());
        }
        None
    }

    /// Look `key` up; a hit hands a copy of the value out and makes the
    /// entry the most recent one.
    pub fn get(&mut self, key: &[u8]) -> (r: Option<Vec<u8>>)
        requires
            old(self).wf(),
        ensures
            final(self).wf(),
            final(self).spec_cap() == old(self).spec_cap(),
            match spec_find(old(self).view_entries(), key@) {
                None => r is None && final(self).view_entries() == old(self).view_entries(),
                Some(i) => r is Some && r->0@ == old(self).view_entries()[i].1 && final(self).view_entries() == seq![old(self).view_entries()[i]] + old(self).view_entries().remove(i),
            },
    {
        let ghost s = self.view_entries();
        proof {
            lemma_find_is_correct(s, key@);
        }
        match self.find_index(key) {
            None => None,
            Some(i) => {
                let ghost fi = i as int;
                let entry = self.entries.remove(i);
                let mut value: Vec<u8> = Vec::new();
                value.extend_from_slice(entry.1.as_slice());
                self.entries.insert(0, entry);
                proof {
                    assert(value@ =~= s[fi].1);
                    assert(self.view_entries() =~= seq![s[fi]] + s.remove(fi));
                    lemma_weight_remove(s, fi);
                    lemma_weight_prepend(s[fi], s.remove(fi));
                    assert(unique_keys(self.view_entries())) by {
                        let t = seq![s[fi]] + s.remove(fi);
                        assert forall|a: int, b: int| 0 <= a < b < t.len() implies (
                        #[trigger] t[a]).0 != (#[trigger] t[b]).0 by {
                            lemma_remove_keeps_pairs(s, fi, a, b);
                        }
                    }
                }
                Some(value)
            },
        }
    }

    /// Insert `key -> value`, replacing the entry of `key` if present and
    /// evicting least-recently-used entries until the value fits. A value
    /// larger than the whole capacity is rejected and nothing changes.
    pub fn insert(&mut self, key: Vec<u8>, value: Vec<u8>)
        requires
            old(self).wf(),
        ensures
            final(self).wf(),
            final(self).spec_cap() == old(self).spec_cap(),
            value@.len() > old(self).spec_cap() ==> final(self).view_entries() == old(self).view_entries(),
            value@.len() <= old(self).spec_cap() ==> final(self).view_entries() == seq![
                (key@, value@),
            ] + spec_evict(
                spec_remove_key(old(self).view_entries(), key@),
                value@.len(),
                old(self).spec_cap(),
            ),
    {
        if value.len() > self.mem_cap {
            return ;
        }
        let ghost s0 = self.view_entries();
        proof {
            lemma_find_is_correct(s0, key@);
        }
        // Drop the old entry of this key, if any.
        match self.find_index(&key) {
            Some(i) => {
                let ghost fi = i as int;
                let old_entry = self.entries.remove(i);
                proof {
                    lemma_weight_remove(s0, fi);
                }
                self.total_bytes = self.total_bytes - old_entry.1.len();
                proof {
                    assert(spec_find(s0, key@) == Some(fi));
                    assert(self.view_entries() =~= s0.remove(fi));
                    assert(spec_remove_key(s0, key@) == s0.remove(fi));
                    assert(self.view_entries() == spec_remove_key(s0, key@));
                }
            },
            None => {
                proof {
                    assert(spec_find(s0, key@) is None);
                    assert(self.view_entries() == s0);
                    assert(spec_remove_key(s0, key@) == s0);
                }
            },
        }
        let ghost s1 = spec_remove_key(s0, key@);
        proof {
            assert(self.view_entries() == s1);
            assert(unique_keys(s1)) by {
                match spec_find(s0, key@) {
                    Some(i) => {
                        assert forall|a: int, b: int| 0 <= a < b < s1.len() implies (
                        #[trigger] s1[a]).0 != (#[trigger] s1[b]).0 by {
                            lemma_remove_keeps_pairs(s0, i, a + 1, b + 1);
                        }
                    },
                    None => {},
                }
            }
            assert(forall|m: int| 0 <= m < s1.len() ==> (#[trigger] s1[m]).0 != key@) by {
                lemma_removed_key_absent(s0, key@);
            }
        }
        // Evict least-recently-used entries until the new value fits.
        while self.total_bytes > self.mem_cap - value.len()
            invariant
                self.mem_cap == old(self).mem_cap,
                value@.len() <= self.mem_cap,
                self.total_bytes as nat == total_weight(self.view_entries()),
                self.total_bytes <= self.mem_cap,
                unique_keys(self.view_entries()),
                forall|m: int|
                    0 <= m < self.view_entries().len() ==> (#[trigger] self.view_entries()[m]).0
                        != key@,
                spec_evict(s1, value@.len(), self.mem_cap as nat) == spec_evict(
                    self.view_entries(),
                    value@.len(),
                    self.mem_cap as nat,
                ),
            decreases self.view_entries().len(),
        {
            let ghost sc = self.view_entries();
            proof {
                assert(total_weight(sc) > 0);
                assert(sc.len() > 0);
            }
            let dropped = match self.entries.pop() {
                Some(e) => e,
                None => {
                    proof {
                        assert(false);
                    }
                    (Vec::new(), Vec::new())
                },
            };
            proof {
                assert(self.view_entries() =~= sc.drop_last());
                assert(sc.last().1 == dropped.1@);
            }
            self.total_bytes = self.total_bytes - dropped.1.len();
        }
        // Install the new entry at the most recent position.
        let ghost s2 = self.view_entries();
        self.total_bytes = self.total_bytes + value.len();
        proof {
            assert(spec_evict(s2, value@.len(), self.mem_cap as nat) == s2);
        }
        self.entries.insert(0, (key, value));
        proof {
            let kv = ((key@, value@));
            assert(self.view_entries() =~= seq![kv] + s2);
            lemma_weight_prepend(kv, s2);
            assert(unique_keys(self.view_entries())) by {
                let t = seq![kv] + s2;
                assert forall|a: int, b: int| 0 <= a < b < t.len() implies (#[trigger] t[a]).0 != (
                #[trigger] t[b]).0 by {
                    assert(t[b] == s2[b - 1]);
                    if a > 0 {
                        assert(t[a] == s2[a - 1]);
                    }
                }
            }
        }
    }

    /// How many value bytes the partition holds.
    pub fn total_bytes(&self) -> (r: usize)
        requires
            self.wf(),
        ensures
            r as nat == total_weight(self.view_entries()),
            r <= self.spec_cap(),
    {
        self.total_bytes
    }

    /// The keys held, most recently used first.
    pub fn keys(&self) -> (r: Vec<Vec<u8>>)
        ensures
            r@.len() == self.view_entries().len(),
            forall|i: int| 0 <= i < r@.len() ==> (#[trigger] r@[i])@ == self.view_entries()[i].0,
    {
        let mut r: Vec<Vec<u8>> = Vec::new();
        let mut i: usize = 0;
        while i < self.entries.len()
            invariant
                i <= self.entries@.len(),
                r@.len() == i,
                forall|m: int|
                    0 <= m < i ==> (#[trigger] r@[m])@ == entry_views(self.entries@)[m].0,
            decreases self.entries@.len() - i,
        {
            let mut k: Vec<u8> = Vec::new();
            k.extend_from_slice(self.entries[i].0.as_slice());
            proof {
                assert(k@ =~= self.entries@[i as int].0@);
            }
            r.push(k);
            i = i + 1;
        }
        r
    }
}

/// Lifts an index found in a suffix back to the whole sequence.
pub open spec fn shift_find(r: Option<int>, i: int) -> Option<int> {
    match r {
        None => None,
        Some(m) => Some(m + i),
    }
}

/// Scanning that skipped `i` non-matching entries finds the key exactly
/// where the suffix scan finds it.
pub proof fn lemma_find_skip(s: Seq<(Seq<u8>, Seq<u8>)>, key: Seq<u8>, i: int)
    requires
        0 <= i <= s.len(),
        forall|m: int| 0 <= m < i ==> (#[trigger] s[m]).0 != key,
    ensures
        spec_find(s, key) == shift_find(spec_find(s.skip(i), key), i),
    decreases i,
{
    if i == 0 {
        assert(s.skip(0) =~= s);
    } else {
        lemma_find_skip(s, key, i - 1);
        let t = s.skip(i - 1);
        assert(t[0] == s[i - 1]);
        assert(t.drop_first() =~= s.skip(i));
        assert(t.len() > 0);
        assert(spec_find(t, key) == shift_find(spec_find(s.skip(i), key), 1));
    }
}

/// Entries other than the removed one keep their distinctness.
proof fn lemma_remove_keeps_pairs(s: Seq<(Seq<u8>, Seq<u8>)>, i: int, a: int, b: int)
    requires
        0 <= i < s.len(),
        unique_keys(s),
        0 <= a < b < seq![s[i]].add(s.remove(i)).len(),
    ensures
        (seq![s[i]] + s.remove(i))[a].0 != (seq![s[i]] + s.remove(i))[b].0,
{
    let t = seq![s[i]] + s.remove(i);
    let orig_of = |m: int| if m == 0 { i } else if m - 1 < i { m - 1 } else { m };
    assert(t[a] == s[orig_of(a)]);
    assert(t[b] == s[orig_of(b)]);
    assert(orig_of(a) != orig_of(b));
}

/// After removing the found key, the key is gone.
proof fn lemma_removed_key_absent(s: Seq<(Seq<u8>, Seq<u8>)>, key: Seq<u8>)
    requires
        unique_keys(s),
    ensures
        forall|m: int|
            0 <= m < spec_remove_key(s, key).len() ==> (#[trigger] spec_remove_key(s, key)[m]).0
                != key,
{
    lemma_find_is_correct(s, key);
    match spec_find(s, key) {
        Some(i) => {
            let t = s.remove(i);
            assert forall|m: int| 0 <= m < t.len() implies (#[trigger] t[m]).0 != key by {
                if m < i {
                    assert(t[m] == s[m]);
                } else {
                    assert(t[m] == s[m + 1]);
                }
            }
        },
        None => {},
    }
}

} // verus!
