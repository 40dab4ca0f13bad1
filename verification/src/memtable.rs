//! The in-memory write buffer of a table.
//!
//! A memtable is an ordered map from internal key bytes (user key followed
//! by the 12-byte descending key sequence) to encoded row bytes, kept in
//! ascending key order, so a forward walk visits user keys ascending and,
//! within one user key, sequences descending: newest version first. A
//! layered memtable seals its mutable layer once it crosses a size
//! threshold and stacks the sealed layers, newest first.

use vstd::prelude::*;
use crate::bytesenc::{lex_less, nat_of_be_bytes};
use crate::lrucache::{spec_find, unique_keys};
use crate::memkey::compare_bytes;

verus! {

/// Keys strictly ascend, so each key occurs once.
pub open spec fn sorted_keys(s: Seq<(Seq<u8>, Seq<u8>)>) -> bool {
    forall|i: int, j: int|
        0 <= i < j < s.len() ==> lex_less((#[trigger] s[i]).0, (#[trigger] s[j]).0)
}

/// The sequence number an internal key carries, complemented and big-endian
/// in its fixed tail.
pub open spec fn spec_key_sequence_of(key: Seq<u8>) -> int {
    u64::MAX - nat_of_be_bytes(key.subrange(key.len() - 12, key.len() - 4))
}

/// Whether an internal key belongs to `user_key` and is visible at snapshot
/// `sequence`.
pub open spec fn spec_visible_version(key: Seq<u8>, user_key: Seq<u8>, sequence: u64) -> bool {
    &&& key.len() == user_key.len() + 12
    &&& key.subrange(0, user_key.len() as int) == user_key
    &&& spec_key_sequence_of(key) <= sequence
}

/// The first stored version of `user_key` visible at `sequence`, walking
/// the entries in key order: the newest visible one.
pub open spec fn spec_point_get(
    s: Seq<(Seq<u8>, Seq<u8>)>,
    user_key: Seq<u8>,
    sequence: u64,
) -> Option<Seq<u8>>
    decreases s.len(),
{
    if s.len() == 0 {
        None
    } else if spec_visible_version(s[0].0, user_key, sequence) {
        Some(s[0].1)
    } else {
        spec_point_get(s.drop_first(), user_key, sequence)
    }
}

/// One ordered in-memory buffer of internal key to row bytes.
pub struct MemTable {
    pub entries: Vec<(Vec<u8>, Vec<u8>)>,
    pub approximate_size: usize,
}

impl MemTable {
    /// The entries in ascending key order.
    pub open spec fn view_entries(&self) -> Seq<(Seq<u8>, Seq<u8>)> {
        crate::lrucache::entry_views(self.entries@)
    }

    pub open spec fn wf(&self) -> bool {
        sorted_keys(self.view_entries())
    }

    pub fn new() -> (r: Self)
        ensures
            r.wf(),
            r.view_entries() == Seq::<(Seq<u8>, Seq<u8>)>::empty(),
            r.approximate_size == 0,
    {
        let r = MemTable { entries: Vec::new(), approximate_size: 0 };
        proof {
            assert(r.view_entries() =~= Seq::<(Seq<u8>, Seq<u8>)>::empty());
        }
        r
    }

    /// Insert `key -> value`, replacing the value when the key exists.
    /// Keys stay strictly ascending; the size estimate only grows.
    pub fn put(&mut self, key: Vec<u8>, value: Vec<u8>)
        requires
            old(self).wf(),
        ensures
            final(self).wf(),
            final(self).approximate_size >= old(self).approximate_size,
            final(self).view_entries().len() <= old(self).view_entries().len() + 1,
            spec_find(final(self).view_entries(), key@) is Some,
            ({
                let fnd = spec_find(final(self).view_entries(), key@);
                final(self).view_entries()[fnd->0].1 == value@
            }),
            forall|k: Seq<u8>|
                k != key@ ==> #[trigger] spec_lookup(final(self).view_entries(), k) == spec_lookup(
                    old(self).view_entries(),
                    k,
                ),
    {
        let ghost s = self.view_entries();
        let n = self.entries.len();
        let mut idx: usize = 0;
        let mut found_equal = false;
        let mut found_greater = false;
        while idx < n && !found_equal && !found_greater
            invariant
                s == self.view_entries(),
                self.wf(),
                n == self.entries@.len(),
                idx <= n,
                forall|m: int| 0 <= m < idx ==> lex_less((#[trigger] s[m]).0, key@),
                found_equal ==> idx < n && s[idx as int].0 == key@,
                found_greater ==> idx < n && lex_less(key@, s[idx as int].0),
                !(found_equal && found_greater),
            decreases n - idx + (if found_equal || found_greater {
                0int
            } else {
                1int
            }),
        {
            match compare_bytes(self.entries[idx].0.as_slice(), key.as_slice()) {
                core::cmp::Ordering::Less => {
                    idx = idx + 1;
                },
                core::cmp::Ordering::Equal => {
                    found_equal = true;
                },
                core::cmp::Ordering::Greater => {
                    found_greater = true;
                },
            }
        }
        let add = if key.len() <= usize::MAX - value.len() {
            key.len() + value.len()
        } else {
            usize::MAX
        };
        if self.approximate_size <= usize::MAX - add {
            self.approximate_size = self.approximate_size + add;
        }
        let ghost kv = (key@, value@);
        if found_equal {
            let _old_entry = self.entries.remove(idx);
            self.entries.insert(idx, (key, value));
            proof {
                assert(self.view_entries() =~= s.update(idx as int, kv));
                lemma_put_update(s, idx as int, kv, key@);
            }
        } else {
            proof {
                // Every later key is above the new key: the scan stopped at
                // the first key not below it, and sortedness carries on.
                assert forall|m: int| idx <= m < s.len() implies lex_less(
                    key@,
                    (#[trigger] s[m]).0,
                ) by {
                    assert(found_greater);
                    if m > idx {
                        lemma_lex_less_trans(key@, s[idx as int].0, s[m].0);
                    }
                }
            }
            self.entries.insert(idx, (key, value));
            proof {
                assert(self.view_entries() =~= s.insert(idx as int, kv));
                lemma_put_insert(s, idx as int, kv, key@);
            }
        }
    }

    /// The newest version of `user_key` visible at snapshot `sequence`.
    pub fn point_get(&self, user_key: &[u8], sequence: u64) -> (r: Option<Vec<u8>>)
        ensures
            match spec_point_get(self.view_entries(), user_key@, sequence) {
                None => r is None,
                Some(v) => r is Some && r->0@ == v,
            },
    {
        let ghost s = self.view_entries();
        let mut i: usize = 0;
        proof {
            assert(s.skip(0) =~= s);
        }
        while i < self.entries.len()
            invariant
                s == self.view_entries(),
                i <= self.entries@.len(),
                s.len() == self.entries@.len(),
                spec_point_get(s, user_key@, sequence) == spec_point_get(
                    s.skip(i as int),
                    user_key@,
                    sequence,
                ),
            decreases self.entries@.len() - i,
        {
            proof {
                assert(s.skip(i as int)[0] == s[i as int]);
                assert(s.skip(i as int).drop_first() =~= s.skip(i as int + 1));
            }
            let entry_key = &self.entries[i].0;
            if is_visible_version(entry_key.as_slice(), user_key, sequence) {
                let mut out: Vec<u8> = Vec::new();
                out.extend_from_slice(self.entries[i].1.as_slice());
                proof {
                    assert(out@ =~= s[i as int].1);
                }
                return Some(out);
            }
            i = i + 1;
        }
        proof {
            assert(s.skip(i as int) =~= Seq::<(Seq<u8>, Seq<u8>)>::empty());
        }
        None
    }

    /// How many entries the memtable holds.
    pub fn num_entries(&self) -> (r: usize)
        ensures
            r == self.view_entries().len(),
    {
        self.entries.len()
    }

    /// The key of entry `i`, in ascending key order.
    pub fn key_at(&self, i: usize) -> (r: &Vec<u8>)
        requires
            i < self.view_entries().len(),
        ensures
            r@ == self.view_entries()[i as int].0,
    {
        &self.entries[i].0
    }

    /// The value of entry `i`.
    pub fn value_at(&self, i: usize) -> (r: &Vec<u8>)
        requires
            i < self.view_entries().len(),
        ensures
            r@ == self.view_entries()[i as int].1,
    {
        &self.entries[i].1
    }

    /// The monotone estimate of the bytes held.
    pub fn approximate_bytes(&self) -> (r: usize)
        ensures
            r == self.approximate_size,
    {
        self.approximate_size
    }
}

/// Whether the internal key is a version of `user_key` visible at
/// `sequence`.
pub fn is_visible_version(key: &[u8], user_key: &[u8], sequence: u64) -> (r: bool)
    ensures
        r == spec_visible_version(key@, user_key@, sequence),
{
    if key.len() < 12 || key.len() - 12 != user_key.len() {
        return false;
    }
    let prefix = vstd::slice::slice_subrange(key, 0, user_key.len());
    if !matches!(compare_bytes(prefix, user_key), core::cmp::Ordering::Equal) {
        return false;
    }
    let seq_bytes = vstd::slice::slice_subrange(key, key.len() - 12, key.len() - 4);
    let stored = crate::bytesenc::u64_from_be_bytes(seq_bytes);
    let entry_seq = u64::MAX - stored;
    entry_seq <= sequence
}

/// The value stored under `k`, if any.
pub open spec fn spec_lookup(s: Seq<(Seq<u8>, Seq<u8>)>, k: Seq<u8>) -> Option<Seq<u8>> {
    match spec_find(s, k) {
        None => None,
        Some(i) => Some(s[i].1),
    }
}

/// Strict lexicographic order is transitive.
pub proof fn lemma_lex_less_trans(a: Seq<u8>, b: Seq<u8>, c: Seq<u8>)
    requires
        lex_less(a, b),
        lex_less(b, c),
    ensures
        lex_less(a, c),
    decreases a.len(),
{
    if c.len() > 0 && a.len() > 0 && b.len() > 0 {
        if a[0] == b[0] && b[0] == c[0] {
            lemma_lex_less_trans(a.drop_first(), b.drop_first(), c.drop_first());
        }
    }
}

/// Updating the entry of an existing key keeps order and only changes that
/// key's value.
proof fn lemma_put_update(s: Seq<(Seq<u8>, Seq<u8>)>, idx: int, kv: (Seq<u8>, Seq<u8>), key: Seq<u8>)
    requires
        sorted_keys(s),
        0 <= idx < s.len(),
        s[idx].0 == key,
        kv.0 == key,
    ensures
        sorted_keys(s.update(idx, kv)),
        spec_find(s.update(idx, kv), key) == Some(idx),
        forall|k: Seq<u8>|
            k != key ==> #[trigger] spec_lookup(s.update(idx, kv), k) == spec_lookup(s, k),
{
    let t = s.update(idx, kv);
    assert(sorted_keys(t)) by {
        assert forall|i: int, j: int| 0 <= i < j < t.len() implies lex_less(
            (#[trigger] t[i]).0,
            (#[trigger] t[j]).0,
        ) by {
            assert(t[i].0 == s[i].0);
            assert(t[j].0 == s[j].0);
        }
    }
    lemma_sorted_unique(t);
    lemma_find_unique(t, key, idx);
    lemma_lookup_update(s, idx, kv);
}

/// Inserting a fresh key at its ordered position keeps order and only adds
/// that key.
proof fn lemma_put_insert(s: Seq<(Seq<u8>, Seq<u8>)>, idx: int, kv: (Seq<u8>, Seq<u8>), key: Seq<u8>)
    requires
        sorted_keys(s),
        0 <= idx <= s.len(),
        kv.0 == key,
        forall|m: int| 0 <= m < idx ==> lex_less((#[trigger] s[m]).0, key),
        forall|m: int| idx <= m < s.len() ==> lex_less(key, (#[trigger] s[m]).0),
    ensures
        sorted_keys(s.insert(idx, kv)),
        spec_find(s.insert(idx, kv), key) == Some(idx),
        forall|k: Seq<u8>|
            k != key ==> #[trigger] spec_lookup(s.insert(idx, kv), k) == spec_lookup(s, k),
{
    let t = s.insert(idx, kv);
    assert(sorted_keys(t)) by {
        assert forall|i: int, j: int| 0 <= i < j < t.len() implies lex_less(
            (#[trigger] t[i]).0,
            (#[trigger] t[j]).0,
        ) by {
            let oi = if i < idx {
                i
            } else {
                i - 1
            };
            let oj = if j < idx {
                j
            } else {
                j - 1
            };
            if i == idx {
                assert(t[j].0 == s[oj].0);
            } else if j == idx {
                assert(t[i].0 == s[oi].0);
            } else {
                assert(t[i].0 == s[oi].0);
                assert(t[j].0 == s[oj].0);
                if oi == oj {
                    assert(i < idx && j > idx);
                    assert(false);
                }
            }
        }
    }
    lemma_sorted_unique(t);
    lemma_find_unique(t, key, idx);
    assert forall|m: int| 0 <= m < s.len() implies (#[trigger] s[m]).0 != key by {
        if m < idx {
            lemma_lex_irrefl(s[m].0, key);
        } else {
            lemma_lex_irrefl(key, s[m].0);
        }
    }
    lemma_lookup_insert(s, idx, kv);
}

/// Strictly sorted keys are unique.
pub proof fn lemma_sorted_unique(t: Seq<(Seq<u8>, Seq<u8>)>)
    requires
        sorted_keys(t),
    ensures
        unique_keys(t),
{
    assert forall|i: int, j: int| 0 <= i < j < t.len() implies (#[trigger] t[i]).0 != (
    #[trigger] t[j]).0 by {
        lemma_lex_irrefl(t[i].0, t[j].0);
    }
}

/// With unique keys, the find lands exactly on the position holding the key.
pub proof fn lemma_find_unique(t: Seq<(Seq<u8>, Seq<u8>)>, key: Seq<u8>, idx: int)
    requires
        unique_keys(t),
        0 <= idx < t.len(),
        t[idx].0 == key,
    ensures
        spec_find(t, key) == Some(idx),
{
    crate::lrucache::lemma_find_is_correct(t, key);
    match spec_find(t, key) {
        Some(f) => {
            if f < idx {
                assert(t[f].0 != t[idx].0);
            } else if f > idx {
                assert(t[idx].0 != t[f].0);
            }
        },
        None => {},
    }
}

/// After updating position `idx` (which already held `key`), every other
/// key's lookup is unchanged.
proof fn lemma_lookup_update(s: Seq<(Seq<u8>, Seq<u8>)>, idx: int, kv: (Seq<u8>, Seq<u8>))
    requires
        sorted_keys(s),
        0 <= idx < s.len(),
        kv.0 == s[idx].0,
    ensures
        forall|k: Seq<u8>|
            k != kv.0 ==> #[trigger] spec_lookup(s.update(idx, kv), k) == spec_lookup(s, k),
{
    let t = s.update(idx, kv);
    lemma_sorted_unique(s);
    assert forall|k: Seq<u8>| k != kv.0 implies #[trigger] spec_lookup(t, k) == spec_lookup(
        s,
        k,
    ) by {
        crate::lrucache::lemma_find_is_correct(s, k);
        crate::lrucache::lemma_find_is_correct(t, k);
        match spec_find(s, k) {
            Some(i) => {
                assert(i != idx);
                assert(t[i].0 == k);
                match spec_find(t, k) {
                    Some(j) => {
                        if j != i {
                            assert(t[j].0 == k);
                            if j != idx {
                                assert(s[j].0 == k);
                                assert(false);
                            } else {
                                assert(false);
                            }
                        }
                    },
                    None => {
                        assert(false);
                    },
                }
            },
            None => {
                match spec_find(t, k) {
                    Some(j) => {
                        assert(t[j].0 == k);
                        assert(j != idx);
                        assert(s[j].0 == k);
                        assert(false);
                    },
                    None => {},
                }
            },
        }
    }
}

/// After inserting a fresh key at `idx`, every other key's lookup is
/// unchanged.
proof fn lemma_lookup_insert(s: Seq<(Seq<u8>, Seq<u8>)>, idx: int, kv: (Seq<u8>, Seq<u8>))
    requires
        0 <= idx <= s.len(),
        unique_keys(s.insert(idx, kv)),
        forall|m: int| 0 <= m < s.len() ==> (#[trigger] s[m]).0 != kv.0,
    ensures
        forall|k: Seq<u8>|
            k != kv.0 ==> #[trigger] spec_lookup(s.insert(idx, kv), k) == spec_lookup(s, k),
{
    let t = s.insert(idx, kv);
    assert forall|k: Seq<u8>| k != kv.0 implies #[trigger] spec_lookup(t, k) == spec_lookup(
        s,
        k,
    ) by {
        crate::lrucache::lemma_find_is_correct(s, k);
        crate::lrucache::lemma_find_is_correct(t, k);
        match spec_find(s, k) {
            Some(i) => {
                let w = if i < idx {
                    i
                } else {
                    i + 1
                };
                assert(t[w].0 == k && t[w].1 == s[i].1);
                match spec_find(t, k) {
                    Some(j) => {
                        if j != w {
                            assert(t[j].0 == k);
                            assert(false);
                        }
                    },
                    None => {
                        assert(false);
                    },
                }
            },
            None => {
                match spec_find(t, k) {
                    Some(j) => {
                        assert(t[j].0 == k);
                        assert(j != idx);
                        let back = if j < idx {
                            j
                        } else {
                            j - 1
                        };
                        assert(s[back].0 == k);
                        assert(false);
                    },
                    None => {},
                }
            },
        }
    }
}

/// Two keys in strict order are distinct.
pub proof fn lemma_lex_irrefl(a: Seq<u8>, b: Seq<u8>)
    requires
        lex_less(a, b),
    ensures
        a != b,
    decreases a.len(),
{
    if a == b && a.len() > 0 && b.len() > 0 && a[0] == b[0] {
        assert(a.drop_first() == b.drop_first());
        lemma_lex_irrefl(a.drop_first(), b.drop_first());
    }
}

/// Creates plain ordered memtables.
#[derive(Debug, Clone, Copy)]
pub struct MemTableFactory;

impl MemTableFactory {
    pub fn create_memtable(&self) -> (r: MemTable)
        ensures
            r.wf(),
            r.view_entries() == Seq::<(Seq<u8>, Seq<u8>)>::empty(),
    {
        MemTable::new()
    }
}

/// A memtable of layers: a mutable top layer takes writes and is sealed
/// once its size estimate reaches the switch threshold; sealed layers stack
/// newest first and reads merge all layers newest first.
pub struct LayeredMemTable {
    pub mutable: MemTable,
    /// Sealed layers, newest first.
    pub immutables: Vec<MemTable>,
    pub mutable_switch_threshold: usize,
}

impl LayeredMemTable {
    pub open spec fn wf(&self) -> bool {
        &&& self.mutable.wf()
        &&& forall|i: int|
            0 <= i < self.immutables@.len() ==> (#[trigger] self.immutables@[i]).wf()
    }

    pub fn new(mutable_switch_threshold: usize) -> (r: Self)
        ensures
            r.wf(),
            r.mutable.view_entries() == Seq::<(Seq<u8>, Seq<u8>)>::empty(),
            r.immutables@.len() == 0,
            r.mutable_switch_threshold == mutable_switch_threshold,
    {
        LayeredMemTable {
            mutable: MemTable::new(),
            immutables: Vec::new(),
            mutable_switch_threshold,
        }
    }

    /// Write into the mutable layer; seal it and start a fresh one when its
    /// size estimate has reached the threshold. The written layer (the
    /// mutable one, or the newest sealed one if this write sealed it) holds
    /// the new entry and every other key of the old mutable layer unchanged.
    pub fn put(&mut self, key: Vec<u8>, value: Vec<u8>)
        requires
            old(self).wf(),
        ensures
            final(self).wf(),
            final(self).mutable_switch_threshold == old(self).mutable_switch_threshold,
            final(self).immutables@.len() == old(self).immutables@.len() || final(self).immutables@.len() == old(self).immutables@.len() + 1,
            ({
                let sealed = final(self).immutables@.len() > old(self).immutables@.len();
                let updated = if sealed {
                    final(self).immutables@[0]
                } else {
                    final(self).mutable
                };
                &&& spec_find(updated.view_entries(), key@) is Some
                &&& updated.view_entries()[spec_find(updated.view_entries(), key@)->0].1
                    == value@
                &&& forall|k: Seq<u8>|
                    k != key@ ==> #[trigger] spec_lookup(updated.view_entries(), k)
                        == spec_lookup(old(self).mutable.view_entries(), k)
                &&& sealed ==> final(self).mutable.view_entries() == Seq::<
                    (Seq<u8>, Seq<u8>),
                >::empty() && final(self).immutables@.drop_first() == old(self).immutables@
                &&& !sealed ==> final(self).immutables@ == old(self).immutables@
            }),
    {
        self.mutable.put(key, value);
        if self.mutable.approximate_bytes() >= self.mutable_switch_threshold {
            let mut sealed = MemTable::new();
            core::mem::swap(&mut sealed, &mut self.mutable);
            self.immutables.insert(0, sealed);
            proof {
                assert forall|i: int| 0 <= i < self.immutables@.len() implies (
                #[trigger] self.immutables@[i]).wf() by {
                    if i > 0 {
                        assert(self.immutables@[i] == old(self).immutables@[i - 1]);
                    }
                }
                assert(self.immutables@.drop_first() =~= old(self).immutables@);
            }
        }
    }

    /// The newest version of `user_key` visible at `sequence`, over all
    /// layers newest first.
    pub fn point_get(&self, user_key: &[u8], sequence: u64) -> (r: Option<Vec<u8>>)
        ensures
            match spec_layered_get(
                self.mutable.view_entries(),
                layer_views(self.immutables@),
                user_key@,
                sequence,
            ) {
                None => r is None,
                Some(v) => r is Some && r->0@ == v,
            },
    {
        match self.mutable.point_get(user_key, sequence) {
            Some(v) => Some(v),
            None => {
                let mut i: usize = 0;
                proof {
                    assert(layer_views(self.immutables@).skip(0) =~= layer_views(
                        self.immutables@,
                    ));
                }
                while i < self.immutables.len()
                    invariant
                        i <= self.immutables@.len(),
                        spec_point_get(self.mutable.view_entries(), user_key@, sequence)
                            is None,
                        spec_layers_get(layer_views(self.immutables@), user_key@, sequence)
                            == spec_layers_get(
                            layer_views(self.immutables@).skip(i as int),
                            user_key@,
                            sequence,
                        ),
                    decreases self.immutables@.len() - i,
                {
                    proof {
                        assert(layer_views(self.immutables@).skip(i as int)[0] == layer_views(
                            self.immutables@,
                        )[i as int]);
                        assert(layer_views(self.immutables@).skip(i as int).drop_first()
                            =~= layer_views(self.immutables@).skip(i as int + 1));
                    }
                    match self.immutables[i].point_get(user_key, sequence) {
                        Some(v) => {
                            return Some(v);
                        },
                        None => {},
                    }
                    i = i + 1;
                }
                proof {
                    assert(layer_views(self.immutables@).skip(i as int) =~= Seq::<
                        Seq<(Seq<u8>, Seq<u8>)>,
                    >::empty());
                }
                None
            },
        }
    }
}

/// The entry sequences of the sealed layers, newest first.
pub open spec fn layer_views(ms: Seq<MemTable>) -> Seq<Seq<(Seq<u8>, Seq<u8>)>> {
    ms.map_values(|m: MemTable| m.view_entries())
}

/// The first hit over a stack of layers, newest first.
pub open spec fn spec_layers_get(
    layers: Seq<Seq<(Seq<u8>, Seq<u8>)>>,
    user_key: Seq<u8>,
    sequence: u64,
) -> Option<Seq<u8>>
    decreases layers.len(),
{
    if layers.len() == 0 {
        None
    } else {
        match spec_point_get(layers[0], user_key, sequence) {
            Some(v) => Some(v),
            None => spec_layers_get(layers.drop_first(), user_key, sequence),
        }
    }
}

/// The mutable layer answers first, then the sealed layers newest first.
pub open spec fn spec_layered_get(
    mutable: Seq<(Seq<u8>, Seq<u8>)>,
    layers: Seq<Seq<(Seq<u8>, Seq<u8>)>>,
    user_key: Seq<u8>,
    sequence: u64,
) -> Option<Seq<u8>> {
    match spec_point_get(mutable, user_key, sequence) {
        Some(v) => Some(v),
        None => spec_layers_get(layers, user_key, sequence),
    }
}

/// Creates layered memtables over an inner factory for the layers.
#[derive(Debug, Clone, Copy)]
pub struct LayeredMemtableFactory {
    pub inner_memtable_factory: MemTableFactory,
    pub mutable_switch_threshold: usize,
}

impl LayeredMemtableFactory {
    pub fn new(inner_memtable_factory: MemTableFactory, mutable_switch_threshold: usize) -> (r:
        Self)
        ensures
            r.mutable_switch_threshold == mutable_switch_threshold,
    {
        LayeredMemtableFactory { inner_memtable_factory, mutable_switch_threshold }
    }

    pub fn create_memtable(&self) -> (r: LayeredMemTable)
        ensures
            r.wf(),
            r.mutable_switch_threshold == self.mutable_switch_threshold,
    {
        LayeredMemTable::new(self.mutable_switch_threshold)
    }
}

} // verus!
