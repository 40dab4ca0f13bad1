//! The partitioned byte-range cache and the caching object-store front.
//!
//! The cache spreads entries over `1 << partition_bits` independent LRU
//! partitions, each of capacity `mem_cap / partitions` value bytes, keyed by
//! a hash of the entry key. The caching store answers `get_range` requests
//! from the cache and falls back to the backing store on a miss, inserting
//! what it fetched.

use vstd::prelude::*;
use crate::lrucache::{
    LruPartition, total_weight, spec_find, spec_remove_key, spec_evict,
};
use crate::bytesenc::be_bytes_of;

verus! {

/// The 64-bit FNV-1a hash of a byte string, used to pick a partition. The
/// hash depends on the bytes alone.
pub open spec fn spec_fnv1a(s: Seq<u8>) -> u64
    decreases s.len(),
{
    if s.len() == 0 {
        0xcbf2_9ce4_8422_2325u64
    } else {
        vstd::wrapping::u64_specs::wrapping_mul(
            spec_fnv1a(s.drop_last()) ^ (s.last() as u64),
            0x100_0000_01b3u64,
        )
    }
}

/// FNV-1a over a byte slice, proved against the model.
pub fn fnv1a(s: &[u8]) -> (r: u64)
    ensures
        r == spec_fnv1a(s@),
{
    let mut h: u64 = 0xcbf2_9ce4_8422_2325;
    let mut i: usize = 0;
    proof {
        assert(s@.take(0) =~= Seq::<u8>::empty());
    }
    while i < s.len()
        invariant
            i <= s@.len(),
            h == spec_fnv1a(s@.take(i as int)),
        decreases s@.len() - i,
    {
        proof {
            assert(s@.take(i as int + 1).drop_last() =~= s@.take(i as int));
        }
        h = (h ^ (s[i] as u64)).wrapping_mul(0x100_0000_01b3);
        i = i + 1;
    }
    proof {
        assert(s@.take(s@.len() as int) =~= s@);
    }
    h
}

/// Sum of the value bytes that all partitions hold.
pub open spec fn spec_partitions_weight(ps: Seq<LruPartition>) -> nat
    decreases ps.len(),
{
    if ps.len() == 0 {
        0
    } else {
        spec_partitions_weight(ps.drop_last()) + total_weight(ps.last().view_entries())
    }
}

/// A byte cache of independent size-weighted LRU partitions.
pub struct MemCache {
    /// Requested total capacity in value bytes.
    pub mem_cap: usize,
    /// Capacity each partition got: `mem_cap` divided by their number.
    pub cap_per_partition: usize,
    pub partitions: Vec<LruPartition>,
    /// Low bits of the key hash select the partition.
    pub partition_mask: usize,
}

impl MemCache {
    /// Every partition is sound, has the common capacity, and the mask
    /// selects a valid partition.
    pub open spec fn wf(&self) -> bool {
        &&& self.partitions@.len() >= 1
        &&& self.partition_mask == self.partitions@.len() - 1
        &&& self.cap_per_partition == self.mem_cap as int / self.partitions@.len() as int
        &&& forall|i: int|
            0 <= i < self.partitions@.len() ==> (#[trigger] self.partitions@[i]).wf()
                && self.partitions@[i].spec_cap() == self.cap_per_partition
    }

    /// A cache of `1 << partition_bits` partitions sharing `mem_cap` bytes.
    /// Each partition must get a positive capacity.
    pub fn new(partition_bits: usize, mem_cap: usize) -> (r: Self)
        requires
            partition_bits < 32,
            mem_cap as int / ((1usize << partition_bits) as int) > 0,
        ensures
            r.wf(),
            r.mem_cap == mem_cap,
            r.partitions@.len() == (1usize << partition_bits) as int,
            forall|i: int|
                0 <= i < r.partitions@.len() ==> (#[trigger] r.partitions@[i]).view_entries()
                    == Seq::<(Seq<u8>, Seq<u8>)>::empty(),
    {
        let partition_num: usize = 1usize << partition_bits;
        proof {
            assert(1usize << partition_bits > 0) by (bit_vector)
                requires
                    partition_bits < 32usize,
            ;
        }
        let cap_per_partition = mem_cap / partition_num;
        let mut partitions: Vec<LruPartition> = Vec::new();
        let mut i: usize = 0;
        while i < partition_num
            invariant
                cap_per_partition > 0,
                i <= partition_num,
                partitions@.len() == i,
                forall|k: int|
                    0 <= k < i ==> (#[trigger] partitions@[k]).wf() && partitions@[k].spec_cap()
                        == cap_per_partition && partitions@[k].view_entries() == Seq::<
                        (Seq<u8>, Seq<u8>),
                    >::empty(),
            decreases partition_num - i,
        {
            partitions.push(LruPartition::new(cap_per_partition));
            i = i + 1;
        }
        MemCache { mem_cap, cap_per_partition, partitions, partition_mask: partition_num - 1 }
    }

    /// The partition a key hashes to.
    pub open spec fn spec_partition_of(&self, key: Seq<u8>) -> int {
        spec_fnv1a(key) as int % self.partitions@.len() as int
    }

    /// Pick the partition of `key` by its hash.
    fn locate_partition(&self, key: &[u8]) -> (r: usize)
        requires
            self.wf(),
        ensures
            r == self.spec_partition_of(key@),
            r < self.partitions@.len(),
    {
        let h = fnv1a(key);
        let n = self.partitions.len();
        let idx = (h % (n as u64)) as usize;
        proof {
            let ni = self.partitions@.len() as int;
            assert(0 <= h as int % ni < ni) by {
                vstd::arithmetic::div_mod::lemma_mod_division_less_than_divisor(h as int, ni);
            }
        }
        idx
    }

    /// Look `key` up in its partition.
    pub fn get(&mut self, key: &[u8]) -> (r: Option<Vec<u8>>)
        requires
            old(self).wf(),
        ensures
            final(self).wf(),
            final(self).mem_cap == old(self).mem_cap,
            final(self).cap_per_partition == old(self).cap_per_partition,
            final(self).partitions@.len() == old(self).partitions@.len(),
            ({
                let p = old(self).spec_partition_of(key@);
                let entries = old(self).partitions@[p].view_entries();
                &&& forall|q: int|
                    0 <= q < old(self).partitions@.len() && q != p ==> (
                    #[trigger] final(self).partitions@[q]) == old(self).partitions@[q]
                &&& match spec_find(entries, key@) {
                    None => r is None && final(self).partitions@[p].view_entries() == entries,
                    Some(i) => r is Some && r->0@ == entries[i].1 && final(self).partitions@[p].view_entries() == seq![entries[i]] + entries.remove(i),
                }
            }),
    {
        let idx = self.locate_partition(key);
        let ghost p = idx as int;
        let partition = &mut self.partitions[idx];
        let r = partition.get(key);
        proof {
            assert forall|i: int| 0 <= i < self.partitions@.len() implies (
            #[trigger] self.partitions@[i]).wf() && self.partitions@[i].spec_cap()
                == self.cap_per_partition by {
                if i != p {
                    assert(self.partitions@[i] == old(self).partitions@[i]);
                }
            }
        }
        r
    }

    /// Insert `key -> value` into the key's partition, evicting its
    /// least-recently-used entries as needed.
    pub fn insert(&mut self, key: Vec<u8>, value: Vec<u8>)
        requires
            old(self).wf(),
        ensures
            final(self).wf(),
            final(self).mem_cap == old(self).mem_cap,
            final(self).cap_per_partition == old(self).cap_per_partition,
            final(self).partitions@.len() == old(self).partitions@.len(),
            ({
                let p = old(self).spec_partition_of(key@);
                let entries = old(self).partitions@[p].view_entries();
                let cap = old(self).cap_per_partition as nat;
                &&& forall|q: int|
                    0 <= q < old(self).partitions@.len() && q != p ==> (
                    #[trigger] final(self).partitions@[q]) == old(self).partitions@[q]
                &&& value@.len() > cap ==> final(self).partitions@[p].view_entries() == entries
                &&& value@.len() <= cap ==> final(self).partitions@[p].view_entries() == seq![
                    (key@, value@),
                ] + spec_evict(spec_remove_key(entries, key@), value@.len(), cap)
            }),
    {
        let idx = self.locate_partition(&key);
        let ghost p = idx as int;
        let partition = &mut self.partitions[idx];
        partition.insert(key, value);
        proof {
            assert forall|i: int| 0 <= i < self.partitions@.len() implies (
            #[trigger] self.partitions@[i]).wf() && self.partitions@[i].spec_cap()
                == self.cap_per_partition by {
                if i != p {
                    assert(self.partitions@[i] == old(self).partitions@[i]);
                }
            }
        }
    }
}

/// The cache bound: a sound cache of `N` partitions never holds more value
/// bytes than `N` times the per-partition capacity, which never exceeds the
/// requested total capacity.
pub proof fn lemma_cache_bound(c: MemCache)
    requires
        c.wf(),
    ensures
        spec_partitions_weight(c.partitions@) <= c.partitions@.len() * c.cap_per_partition,
        spec_partitions_weight(c.partitions@) <= c.mem_cap,
{
    lemma_partitions_weight_bound(c.partitions@, c.cap_per_partition as nat);
    let n = c.partitions@.len() as int;
    let cap = c.cap_per_partition as int;
    assert(n * cap <= c.mem_cap) by {
        vstd::arithmetic::div_mod::lemma_fundamental_div_mod(c.mem_cap as int, n);
        vstd::arithmetic::div_mod::lemma_mod_division_less_than_divisor(c.mem_cap as int, n);
        assert(c.mem_cap as int == n * cap + c.mem_cap as int % n);
        vstd::arithmetic::mul::lemma_mul_is_commutative(n, cap);
    }
}

/// Partitions that each respect a capacity together hold at most their
/// number times that capacity.
proof fn lemma_partitions_weight_bound(ps: Seq<LruPartition>, cap: nat)
    requires
        forall|i: int|
            0 <= i < ps.len() ==> total_weight((#[trigger] ps[i]).view_entries()) <= cap,
    ensures
        spec_partitions_weight(ps) <= ps.len() * cap,
    decreases ps.len(),
{
    if ps.len() > 0 {
        assert forall|i: int|
            0 <= i < ps.drop_last().len() implies total_weight(
            (#[trigger] ps.drop_last()[i]).view_entries(),
        ) <= cap by {
            assert(ps.drop_last()[i] == ps[i]);
        }
        lemma_partitions_weight_bound(ps.drop_last(), cap);
        assert((ps.len() - 1) * cap + cap == ps.len() * cap) by (nonlinear_arith);
        assert(total_weight(ps.last().view_entries()) <= cap);
    }
}

/// An in-memory object store: object path to object bytes, plus a counter
/// of how many range fetches reached it.
pub struct MemStore {
    pub objects: Vec<(Vec<u8>, Vec<u8>)>,
    pub fetch_count: usize,
}

/// The bytes stored under `path`, if any: the most recently put version.
pub open spec fn spec_store_lookup(objects: Seq<(Seq<u8>, Seq<u8>)>, path: Seq<u8>) -> Option<
    Seq<u8>,
> {
    match spec_find(objects, path) {
        None => None,
        Some(i) => Some(objects[i].1),
    }
}

impl MemStore {
    pub open spec fn view_objects(&self) -> Seq<(Seq<u8>, Seq<u8>)> {
        crate::lrucache::entry_views(self.objects@)
    }

    /// An empty store.
    pub fn new() -> (r: Self)
        ensures
            r.view_objects() == Seq::<(Seq<u8>, Seq<u8>)>::empty(),
            r.fetch_count == 0,
    {
        let r = MemStore { objects: Vec::new(), fetch_count: 0 };
        proof {
            assert(r.view_objects() =~= Seq::<(Seq<u8>, Seq<u8>)>::empty());
        }
        r
    }

    /// Store `bytes` under `path`; the new version shadows any older one.
    pub fn put(&mut self, path: &[u8], bytes: Vec<u8>)
        ensures
            final(self).view_objects() == seq![(path@, bytes@)] + old(self).view_objects(),
            final(self).fetch_count == old(self).fetch_count,
    {
        let mut p: Vec<u8> = Vec::new();
        p.extend_from_slice(path);
        proof {
            assert(p@ =~= path@);
        }
        self.objects.insert(0, (p, bytes));
        proof {
            assert(self.view_objects() =~= seq![(path@, bytes@)] + old(self).view_objects());
        }
    }

    /// Fetch `[start, end)` of the object at `path`, counting the fetch.
    /// Returns `None` when the object is missing or the range is out of its
    /// bounds.
    pub fn get_range(&mut self, path: &[u8], start: usize, end: usize) -> (r: Option<Vec<u8>>)
        requires
            old(self).fetch_count < usize::MAX,
        ensures
            final(self).view_objects() == old(self).view_objects(),
            final(self).fetch_count == old(self).fetch_count + 1,
            ({
                match spec_store_lookup(old(self).view_objects(), path@) {
                    None => r is None,
                    Some(bytes) => {
                        if start <= end <= bytes.len() {
                            r is Some && r->0@ == bytes.subrange(start as int, end as int)
                        } else {
                            r is None
                        }
                    },
                }
            }),
    {
        self.fetch_count = self.fetch_count + 1;
        let ghost objs = self.view_objects();
        proof {
            crate::lrucache::lemma_find_is_correct(objs, path@);
        }
        let mut i: usize = 0;
        proof {
            crate::lrucache::lemma_find_skip(objs, path@, 0);
        }
        while i < self.objects.len()
            invariant
                objs == self.view_objects(),
                objs == old(self).view_objects(),
                self.fetch_count == old(self).fetch_count + 1,
                i <= self.objects@.len(),
                objs.len() == self.objects@.len(),
                forall|m: int| 0 <= m < i ==> (#[trigger] objs[m]).0 != path@,
                spec_find(objs, path@) == crate::lrucache::shift_find(
                    spec_find(objs.skip(i as int), path@),
                    i as int,
                ),
            decreases self.objects@.len() - i,
        {
            let hit = matches!(
                crate::memkey::compare_bytes(self.objects[i].0.as_slice(), path),
                core::cmp::Ordering::Equal
            );
            if hit {
                proof {
                    assert(objs.skip(i as int)[0] == objs[i as int]);
                    assert(spec_find(objs.skip(i as int), path@) == Some(0int));
                    assert(spec_find(objs, path@) == Some(i as int));
                }
                let data = &self.objects[i].1;
                if start <= end && end <= data.len() {
                    let mut out: Vec<u8> = Vec::new();
                    out.extend_from_slice(vstd::slice::slice_subrange(
                        data.as_slice(),
                        start,
                        end,
                    ));
                    proof {
                        assert(out@ =~= objs[i as int].1.subrange(start as int, end as int));
                    }
                    return Some(out);
                }
                return None;
            }
            proof {
                assert(objs.skip(i as int)[0] == objs[i as int]);
                assert(objs.skip(i as int).drop_first() =~= objs.skip(i as int + 1));
            }
            i = i + 1;
        }
        proof {
            assert(objs.skip(i as int) =~= Seq::<(Seq<u8>, Seq<u8>)>::empty());
        }
        None
    }
}

/// The cache key of a byte range of an object: the path, then the range
/// bounds, separated, fixed-width so that distinct ranges of one path and
/// ranges of distinct paths never collide.
pub open spec fn spec_cache_key(path: Seq<u8>, start: usize, end: usize) -> Seq<u8> {
    path + seq![45u8] + be_bytes_of(start as nat, 8) + seq![45u8] + be_bytes_of(end as nat, 8)
}

/// Build the cache key of a byte range.
pub fn cache_key(path: &[u8], start: usize, end: usize) -> (r: Vec<u8>)
    ensures
        r@ == spec_cache_key(path@, start, end),
{
    let mut r: Vec<u8> = Vec::new();
    r.extend_from_slice(path);
    r.push(45);
    let s = crate::bytesenc::u64_to_be_bytes(start as u64);
    r.extend_from_slice(s.as_slice());
    r.push(45);
    let e = crate::bytesenc::u64_to_be_bytes(end as u64);
    r.extend_from_slice(e.as_slice());
    proof {
        assert(r@ =~= spec_cache_key(path@, start, end));
    }
    r
}

/// An object store front that answers byte-range reads from the cache: a
/// miss fetches from the backing store and fills the cache, a hit does not
/// touch the backing store at all.
pub struct MemCacheStore {
    pub cache: MemCache,
    pub store: MemStore,
}

impl MemCacheStore {
    pub open spec fn wf(&self) -> bool {
        self.cache.wf()
    }

    /// A caching front of `store` with `1 << partition_bits` cache
    /// partitions sharing `mem_cap` bytes: each partition gets an equal
    /// share of the capacity and starts empty.
    pub fn new(partition_bits: usize, mem_cap: usize, store: MemStore) -> (r: Self)
        requires
            partition_bits < 32,
            mem_cap as int / ((1usize << partition_bits) as int) > 0,
        ensures
            r.wf(),
            r.store == store,
            r.cache.mem_cap == mem_cap,
            r.cache.partitions@.len() == (1usize << partition_bits) as int,
            r.cache.cap_per_partition as int == mem_cap as int / ((1usize << partition_bits) as int),
            forall|i: int|
                0 <= i < r.cache.partitions@.len() ==> (
                #[trigger] r.cache.partitions@[i]).view_entries() == Seq::<
                    (Seq<u8>, Seq<u8>),
                >::empty(),
    {
        MemCacheStore { cache: MemCache::new(partition_bits, mem_cap), store }
    }

    /// Store an object, bypassing the cache.
    pub fn put(&mut self, path: &[u8], bytes: Vec<u8>)
        requires
            old(self).wf(),
        ensures
            final(self).wf(),
            final(self).cache == old(self).cache,
            final(self).store.view_objects() == seq![(path@, bytes@)] + old(self).store.view_objects(),
            final(self).store.fetch_count == old(self).store.fetch_count,
    {
        self.store.put(path, bytes);
    }

    /// Read `[start, end)` of the object at `path` through the cache. On a
    /// cache hit the bytes come from the cache and the backing store is not
    /// asked; on a miss they are fetched, returned and cached.
    pub fn get_range(&mut self, path: &[u8], start: usize, end: usize) -> (r: Option<Vec<u8>>)
        requires
            old(self).wf(),
            old(self).store.fetch_count < usize::MAX,
        ensures
            final(self).wf(),
            final(self).store.view_objects() == old(self).store.view_objects(),
            final(self).cache.mem_cap == old(self).cache.mem_cap,
            final(self).cache.cap_per_partition == old(self).cache.cap_per_partition,
            final(self).cache.partitions@.len() == old(self).cache.partitions@.len(),
            ({
                let key = spec_cache_key(path@, start, end);
                let p = old(self).cache.spec_partition_of(key);
                let entries = old(self).cache.partitions@[p].view_entries();
                let cap = old(self).cache.cap_per_partition as nat;
                &&& forall|q: int|
                    0 <= q < old(self).cache.partitions@.len() && q != p ==> (
                    #[trigger] final(self).cache.partitions@[q]) == old(self).cache.partitions@[q]
                &&& match spec_find(entries, key) {
                    // A hit: the cached bytes come back, the store sees no
                    // fetch, and the entry becomes the most recent one.
                    Some(i) => r is Some && r->0@ == entries[i].1 && final(self).store.fetch_count
                        == old(self).store.fetch_count && final(self).cache.partitions@[p].view_entries() == seq![entries[i]] + entries.remove(i),
                    // A miss: one fetch; what the store returned is what we
                    // return, and a fitting result is cached under the key,
                    // evicting least-recently-used entries until it fits, so
                    // an identical read next is a hit on these bytes.
                    None => final(self).store.fetch_count == old(self).store.fetch_count + 1 && (
                    match spec_store_lookup(old(self).store.view_objects(), path@) {
                        None => r is None && final(self).cache.partitions@[p].view_entries()
                            == entries,
                        Some(bytes) => {
                            if start <= end <= bytes.len() {
                                let fetched = bytes.subrange(start as int, end as int);
                                &&& r is Some && r->0@ == fetched
                                &&& fetched.len() <= cap ==> final(self).cache.partitions@[p].view_entries() == seq![(key, fetched)]
                                    + spec_evict(
                                    spec_remove_key(entries, key),
                                    fetched.len(),
                                    cap,
                                )
                                &&& fetched.len() > cap ==> final(self).cache.partitions@[p].view_entries() == entries
                            } else {
                                r is None && final(self).cache.partitions@[p].view_entries()
                                    == entries
                            }
                        },
                    }),
                }
            }),
    {
        let key = cache_key(path, start, end);
        match self.cache.get(key.as_slice()) {
            Some(bytes) => Some(bytes),
            None => {
                match self.store.get_range(path, start, end) {
                    Some(bytes) => {
                        let mut copy: Vec<u8> = Vec::new();
                        copy.extend_from_slice(bytes.as_slice());
                        proof {
                            assert(copy@ =~= bytes@);
                        }
                        let ghost ckey = key@;
                        let ghost pre_insert = self.cache;
                        self.cache.insert(key, copy);
                        proof {
                            let p = old(self).cache.spec_partition_of(ckey);
                            // The failed lookup left the partition as it
                            // was, so the insert starts from the state the
                            // call began with.
                            assert(pre_insert.spec_partition_of(ckey) == p);
                            assert(pre_insert.partitions@[p].view_entries() == old(self).cache.partitions@[p].view_entries());
                        }
                        Some(bytes)
                    },
                    None => None,
                }
            },
        }
    }
}

} // verus!
