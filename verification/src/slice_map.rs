//! A specialized hash map for the broker's hot path: lookups take a borrowed
//! byte slice, so no key is allocated to ask a question; keys are stored as
//! owned byte vectors; collisions chain within a bucket.
//!
//! The map's abstract value is a [`Map`] from byte strings to values, and
//! every operation states exactly how it transforms that map.

use vstd::prelude::*;
use crate::bucket::{
    bucket_find, bucket_get, bucket_distinct, fnv1a, hash_bytes, lemma_get_push_new,
    lemma_get_push_other, lemma_get_remove_only, lemma_get_remove_other, lemma_push_entries,
    lemma_remove_entries, lemma_remove_push_entries,
};
use vstd::slice::slice_to_vec;

pub use crate::bucket::HashEntry;

verus! {

/// Number of buckets; bucket selection masks the hash with this minus one.
pub const SLICE_MAP_BUCKETS: usize = 2048;

/// The bucket a key belongs to.
pub open spec fn bucket_of(k: Seq<u8>) -> int {
    (fnv1a(k) & 2047) as int
}

pub proof fn lemma_bucket_of_bound(k: Seq<u8>)
    ensures
        0 <= bucket_of(k) < 2048,
{
    let h = fnv1a(k);
    assert(h & 2047 < 2048) by (bit_vector);
}

fn mask_index(h: u64) -> (i: usize)
    ensures
        i as int == (h & 2047) as int,
        i < 2048,
{
    proof {
        assert(h & 2047 < 2048) by (bit_vector);
    }
    (h & 2047) as usize
}

/// A hash map keyed by byte strings, owned by a single worker.
///
/// The cross-thread variant of the same structure is
/// [`crate::concurrent_hash_map::ConcurrentHashMap`]; this one drops the
/// segmentation because exactly one thread ever touches a worker's state.
pub struct SliceMap<V> {
    table: Vec<Vec<HashEntry<V>>>,
}

impl<V> View for SliceMap<V> {
    type V = Map<Seq<u8>, V>;

    closed spec fn view(&self) -> Map<Seq<u8>, V> {
        Map::new(
            |k: Seq<u8>| bucket_get(self.table@[bucket_of(k)]@, k) is Some,
            |k: Seq<u8>| bucket_get(self.table@[bucket_of(k)]@, k).unwrap(),
        )
    }
}

impl<V> SliceMap<V> {
    /// Every entry hangs in the bucket its key hashes to, carries its key's
    /// hash, and no key occurs twice.
    pub closed spec fn wf(self) -> bool {
        &&& self.table@.len() == 2048
        &&& forall|i: int, j: int|
            0 <= i < 2048 && 0 <= j < self.table@[i]@.len() ==> {
                &&& (#[trigger] self.table@[i]@[j]).hash == fnv1a(self.table@[i]@[j].key@)
                &&& bucket_of(self.table@[i]@[j].key@) == i
            }
        &&& forall|i: int| 0 <= i < 2048 ==> bucket_distinct(#[trigger] self.table@[i]@)
    }

    /// An empty map.
    pub fn new() -> (r: SliceMap<V>)
        ensures
            r.wf(),
            r@ == Map::<Seq<u8>, V>::empty(),
    {
        let mut table: Vec<Vec<HashEntry<V>>> = Vec::new();
        let mut i: usize = 0;
        while i < SLICE_MAP_BUCKETS
            invariant
                i <= 2048,
                table@.len() == i,
                forall|j: int| 0 <= j < i ==> (#[trigger] table@[j])@.len() == 0,
            decreases 2048 - i,
        {
            table.push(Vec::new());
            i = i + 1;
        }
        let r = SliceMap { table };
        proof {
            assert forall|k: Seq<u8>| !(bucket_get(r.table@[bucket_of(k)]@, k) is Some) by {
                lemma_bucket_of_bound(k);
                assert(r.table@[bucket_of(k)]@.len() == 0);
                assert(bucket_get(r.table@[bucket_of(k)]@, k) is None);
            }
            assert(r@ =~= Map::<Seq<u8>, V>::empty());
        }
        r
    }

    /// The hash the map places a key by.
    fn make_hash(key: &[u8]) -> (h: u64)
        ensures
            h == fnv1a(key@),
    {
        hash_bytes(key)
    }

    /// Looks a key up without allocating; yields a borrow of the value.
    pub fn get(&self, key: &[u8]) -> (r: Option<&V>)
        requires
            self.wf(),
        ensures
            match r {
                Some(v) => self@.contains_key(key@) && *v == self@[key@],
                None => !self@.contains_key(key@),
            },
    {
        let h = Self::make_hash(key);
        let idx = mask_index(h);
        let b = &self.table[idx];
        proof {
            lemma_bucket_of_bound(key@);
        }
        match bucket_find(b, key) {
            Some(i) => {
                let e = &b[i];
                Some(&e.val)
            },
            None => None,
        }
    }

    /// Inserts a value under a key, replacing any value already there.
    pub fn insert(&mut self, key: &[u8], val: V)
        requires
            old(self).wf(),
        ensures
            final(self).wf(),
            final(self)@ == old(self)@.insert(key@, val),
    {
        let h = Self::make_hash(key);
        let idx = mask_index(h);
        proof {
            lemma_bucket_of_bound(key@);
        }
        let found = bucket_find(&self.table[idx], key);
        let b = &mut self.table[idx];
        let ghost pre_bucket = b@;
        let ghost p = (|e: HashEntry<V>| e.hash == fnv1a(e.key@) && bucket_of(e.key@)
            == idx as int);
        match found {
            Some(i) => {
                let e = b.remove(i);
                let HashEntry { key: stored_key, val: _, hash: stored_hash } = e;
                b.push(HashEntry { key: stored_key, val, hash: stored_hash });
                proof {
                    let post_bucket = b@;
                    let en = post_bucket.last();
                    assert(post_bucket == pre_bucket.remove(i as int).push(en));
                    lemma_remove_push_entries(pre_bucket, i as int, en, p);
                    assert forall|k2: Seq<u8>| k2 != key@ implies #[trigger] bucket_get(
                        post_bucket,
                        k2,
                    ) == bucket_get(pre_bucket, k2) by {
                        lemma_get_push_other(pre_bucket.remove(i as int), en, k2);
                        lemma_get_remove_other(pre_bucket, i as int, k2);
                    }
                    lemma_get_push_new(pre_bucket.remove(i as int), en);
                }
            },
            None => {
                b.push(HashEntry { key: slice_to_vec(key), val, hash: h });
                proof {
                    let post_bucket = b@;
                    let en = post_bucket.last();
                    assert(post_bucket == pre_bucket.push(en));
                    lemma_push_entries(pre_bucket, en, p);
                    assert forall|k2: Seq<u8>| k2 != key@ implies #[trigger] bucket_get(
                        post_bucket,
                        k2,
                    ) == bucket_get(pre_bucket, k2) by {
                        lemma_get_push_other(pre_bucket, en, k2);
                    }
                    lemma_get_push_new(pre_bucket, en);
                }
            },
        }
        proof {
            lemma_slice_wf_one_bucket(*old(self), *self, idx as int);
            lemma_view_after_insert(*old(self), *self, key@, val);
        }
    }

    /// Upserts atomically per key: applies `mod_func` to the stored value if
    /// the key is present, else stores `put_func()`.
    pub fn modify_or_else<F1, F2>(&mut self, key: &[u8], mod_func: F1, put_func: F2) where
        F1: FnOnce(V) -> V,
        F2: FnOnce() -> V,

        requires
            old(self).wf(),
            old(self)@.contains_key(key@) ==> call_requires(mod_func, (old(self)@[key@],)),
            !old(self)@.contains_key(key@) ==> call_requires(put_func, ()),
        ensures
            final(self).wf(),
            old(self)@.contains_key(key@) ==> exists|v: V|
                #[trigger] call_ensures(mod_func, (old(self)@[key@],), v) && final(self)@ == old(
                    self,
                )@.insert(key@, v),
            !old(self)@.contains_key(key@) ==> exists|v: V|
                #[trigger] call_ensures(put_func, (), v) && final(self)@ == old(self)@.insert(
                    key@,
                    v,
                ),
    {
        let h = Self::make_hash(key);
        let idx = mask_index(h);
        proof {
            lemma_bucket_of_bound(key@);
        }
        let found = bucket_find(&self.table[idx], key);
        let b = &mut self.table[idx];
        let ghost pre_bucket = b@;
        let ghost p = (|e: HashEntry<V>| e.hash == fnv1a(e.key@) && bucket_of(e.key@)
            == idx as int);
        match found {
            Some(i) => {
                proof {
                    assert(old(self)@.contains_key(key@));
                    assert(old(self)@[key@] == pre_bucket[i as int].val);
                }
                let e = b.remove(i);
                let HashEntry { key: stored_key, val: v0, hash: stored_hash } = e;
                let v1 = mod_func(v0);
                b.push(HashEntry { key: stored_key, val: v1, hash: stored_hash });
                proof {
                    let post_bucket = b@;
                    let en = post_bucket.last();
                    assert(post_bucket == pre_bucket.remove(i as int).push(en));
                    lemma_remove_push_entries(pre_bucket, i as int, en, p);
                    assert forall|k2: Seq<u8>| k2 != key@ implies #[trigger] bucket_get(
                        post_bucket,
                        k2,
                    ) == bucket_get(pre_bucket, k2) by {
                        lemma_get_push_other(pre_bucket.remove(i as int), en, k2);
                        lemma_get_remove_other(pre_bucket, i as int, k2);
                    }
                    lemma_get_push_new(pre_bucket.remove(i as int), en);
                    lemma_slice_wf_one_bucket(*old(self), *self, idx as int);
                    lemma_view_after_insert(*old(self), *self, key@, v1);
                }
            },
            None => {
                let v1 = put_func();
                b.push(HashEntry { key: slice_to_vec(key), val: v1, hash: h });
                proof {
                    let post_bucket = b@;
                    let en = post_bucket.last();
                    assert(post_bucket == pre_bucket.push(en));
                    lemma_push_entries(pre_bucket, en, p);
                    assert forall|k2: Seq<u8>| k2 != key@ implies #[trigger] bucket_get(
                        post_bucket,
                        k2,
                    ) == bucket_get(pre_bucket, k2) by {
                        lemma_get_push_other(pre_bucket, en, k2);
                    }
                    lemma_get_push_new(pre_bucket, en);
                    lemma_slice_wf_one_bucket(*old(self), *self, idx as int);
                    lemma_view_after_insert(*old(self), *self, key@, v1);
                }
            },
        }
    }

    /// Rewrites the value under a key if present, and passes the signal the
    /// rewrite chose to emit back to the caller (for instance "now empty,
    /// delete me").  A missing key is a no-op that emits nothing.
    pub fn modify<F, E>(&mut self, key: &[u8], mod_func: F) -> (r: Option<E>) where
        F: FnOnce(V) -> (V, Option<E>),

        requires
            old(self).wf(),
            old(self)@.contains_key(key@) ==> call_requires(mod_func, (old(self)@[key@],)),
        ensures
            final(self).wf(),
            !old(self)@.contains_key(key@) ==> r is None && final(self)@ == old(self)@,
            old(self)@.contains_key(key@) ==> exists|v: V|
                #[trigger] call_ensures(mod_func, (old(self)@[key@],), (v, r)) && final(self)@
                    == old(self)@.insert(key@, v),
    {
        let h = Self::make_hash(key);
        let idx = mask_index(h);
        proof {
            lemma_bucket_of_bound(key@);
        }
        let found = bucket_find(&self.table[idx], key);
        match found {
            Some(i) => {
                let b = &mut self.table[idx];
                let ghost pre_bucket = b@;
                let ghost p = (|e: HashEntry<V>| e.hash == fnv1a(e.key@) && bucket_of(e.key@)
                    == idx as int);
                proof {
                    assert(old(self)@.contains_key(key@));
                    assert(old(self)@[key@] == pre_bucket[i as int].val);
                }
                let e = b.remove(i);
                let HashEntry { key: stored_key, val: v0, hash: stored_hash } = e;
                let (v1, signal) = mod_func(v0);
                b.push(HashEntry { key: stored_key, val: v1, hash: stored_hash });
                proof {
                    let post_bucket = b@;
                    let en = post_bucket.last();
                    assert(post_bucket == pre_bucket.remove(i as int).push(en));
                    lemma_remove_push_entries(pre_bucket, i as int, en, p);
                    assert forall|k2: Seq<u8>| k2 != key@ implies #[trigger] bucket_get(
                        post_bucket,
                        k2,
                    ) == bucket_get(pre_bucket, k2) by {
                        lemma_get_push_other(pre_bucket.remove(i as int), en, k2);
                        lemma_get_remove_other(pre_bucket, i as int, k2);
                    }
                    lemma_get_push_new(pre_bucket.remove(i as int), en);
                    lemma_slice_wf_one_bucket(*old(self), *self, idx as int);
                    lemma_view_after_insert(*old(self), *self, key@, v1);
                }
                signal
            },
            None => None,
        }
    }

    /// Rewrites the value under a key if present; a missing key is a no-op.
    pub fn apply<F>(&mut self, key: &[u8], func: F) where
        F: FnOnce(V) -> V,

        requires
            old(self).wf(),
            old(self)@.contains_key(key@) ==> call_requires(func, (old(self)@[key@],)),
        ensures
            final(self).wf(),
            !old(self)@.contains_key(key@) ==> final(self)@ == old(self)@,
            old(self)@.contains_key(key@) ==> exists|v: V|
                #[trigger] call_ensures(func, (old(self)@[key@],), v) && final(self)@ == old(
                    self,
                )@.insert(key@, v),
    {
        let h = Self::make_hash(key);
        let idx = mask_index(h);
        proof {
            lemma_bucket_of_bound(key@);
        }
        let found = bucket_find(&self.table[idx], key);
        match found {
            Some(i) => {
                let b = &mut self.table[idx];
                let ghost pre_bucket = b@;
                let ghost p = (|e: HashEntry<V>| e.hash == fnv1a(e.key@) && bucket_of(e.key@)
                    == idx as int);
                proof {
                    assert(old(self)@.contains_key(key@));
                    assert(old(self)@[key@] == pre_bucket[i as int].val);
                }
                let e = b.remove(i);
                let HashEntry { key: stored_key, val: v0, hash: stored_hash } = e;
                let v1 = func(v0);
                b.push(HashEntry { key: stored_key, val: v1, hash: stored_hash });
                proof {
                    let post_bucket = b@;
                    let en = post_bucket.last();
                    assert(post_bucket == pre_bucket.remove(i as int).push(en));
                    lemma_remove_push_entries(pre_bucket, i as int, en, p);
                    assert forall|k2: Seq<u8>| k2 != key@ implies #[trigger] bucket_get(
                        post_bucket,
                        k2,
                    ) == bucket_get(pre_bucket, k2) by {
                        lemma_get_push_other(pre_bucket.remove(i as int), en, k2);
                        lemma_get_remove_other(pre_bucket, i as int, k2);
                    }
                    lemma_get_push_new(pre_bucket.remove(i as int), en);
                    lemma_slice_wf_one_bucket(*old(self), *self, idx as int);
                    lemma_view_after_insert(*old(self), *self, key@, v1);
                }
            },
            None => {},
        }
    }

    /// Removes a key's entry and hands its value to the caller.
    pub fn take(&mut self, key: &[u8]) -> (r: Option<V>)
        requires
            old(self).wf(),
        ensures
            final(self).wf(),
            final(self)@ == old(self)@.remove(key@),
            match r {
                Some(v) => old(self)@.contains_key(key@) && v == old(self)@[key@],
                None => !old(self)@.contains_key(key@),
            },
    {
        let h = Self::make_hash(key);
        let idx = mask_index(h);
        proof {
            lemma_bucket_of_bound(key@);
        }
        let found = bucket_find(&self.table[idx], key);
        match found {
            Some(i) => {
                let b = &mut self.table[idx];
                let ghost pre_bucket = b@;
                let ghost p = (|e: HashEntry<V>| e.hash == fnv1a(e.key@) && bucket_of(e.key@)
                    == idx as int);
                let e = b.remove(i);
                proof {
                    let post_bucket = b@;
                    lemma_remove_entries(pre_bucket, i as int, p);
                    assert forall|k2: Seq<u8>| k2 != key@ implies #[trigger] bucket_get(
                        post_bucket,
                        k2,
                    ) == bucket_get(pre_bucket, k2) by {
                        lemma_get_remove_other(pre_bucket, i as int, k2);
                    }
                    lemma_get_remove_only(pre_bucket, i as int, key@);
                    lemma_slice_wf_one_bucket(*old(self), *self, idx as int);
                    lemma_view_after_remove(*old(self), *self, key@);
                }
                let HashEntry { key: _, val: v, hash: _ } = e;
                Some(v)
            },
            None => {
                proof {
                    assert(self@ =~= old(self)@.remove(key@));
                }
                None
            },
        }
    }

    /// Removes a key's entry; reports whether one was there.
    pub fn delete(&mut self, key: &[u8]) -> (r: bool)
        requires
            old(self).wf(),
        ensures
            final(self).wf(),
            final(self)@ == old(self)@.remove(key@),
            r == old(self)@.contains_key(key@),
    {
        let h = Self::make_hash(key);
        let idx = mask_index(h);
        proof {
            lemma_bucket_of_bound(key@);
        }
        let found = bucket_find(&self.table[idx], key);
        match found {
            Some(i) => {
                let b = &mut self.table[idx];
                let ghost pre_bucket = b@;
                let ghost p = (|e: HashEntry<V>| e.hash == fnv1a(e.key@) && bucket_of(e.key@)
                    == idx as int);
                let _ = b.remove(i);
                proof {
                    let post_bucket = b@;
                    lemma_remove_entries(pre_bucket, i as int, p);
                    assert forall|k2: Seq<u8>| k2 != key@ implies #[trigger] bucket_get(
                        post_bucket,
                        k2,
                    ) == bucket_get(pre_bucket, k2) by {
                        lemma_get_remove_other(pre_bucket, i as int, k2);
                    }
                    lemma_get_remove_only(pre_bucket, i as int, key@);
                    lemma_slice_wf_one_bucket(*old(self), *self, idx as int);
                    lemma_view_after_remove(*old(self), *self, key@);
                }
                true
            },
            None => {
                proof {
                    assert(self@ =~= old(self)@.remove(key@));
                }
                false
            },
        }
    }
}

/// Every bucket but one unchanged, and that one still well formed and still
/// in its right place: the whole map is still well formed.
proof fn lemma_slice_wf_one_bucket<V>(pre: SliceMap<V>, post: SliceMap<V>, idx: int)
    requires
        pre.wf(),
        post.table@.len() == 2048,
        0 <= idx < 2048,
        forall|i: int|
            0 <= i < 2048 && i != idx ==> #[trigger] post.table@[i] == pre.table@[i],
        forall|j: int|
            0 <= j < post.table@[idx]@.len() ==> (#[trigger] post.table@[idx]@[j]).hash == fnv1a(
                post.table@[idx]@[j].key@,
            ) && bucket_of(post.table@[idx]@[j].key@) == idx,
        bucket_distinct(post.table@[idx]@),
    ensures
        post.wf(),
{
    assert forall|i: int, j: int|
        0 <= i < 2048 && 0 <= j < post.table@[i]@.len() implies {
        &&& (#[trigger] post.table@[i]@[j]).hash == fnv1a(post.table@[i]@[j].key@)
        &&& bucket_of(post.table@[i]@[j].key@) == i
    } by {
        if i != idx {
            assert(post.table@[i] == pre.table@[i]);
        }
    }
    assert forall|i: int| 0 <= i < 2048 implies bucket_distinct(#[trigger] post.table@[i]@) by {
        if i != idx {
            assert(post.table@[i] == pre.table@[i]);
        }
    }
}

/// After a change confined to `k`'s bucket that leaves `k` bound to `v` and
/// every other key's binding untouched, the map's abstract value is the old
/// one with `k` bound to `v`.
proof fn lemma_view_after_insert<V>(pre: SliceMap<V>, post: SliceMap<V>, k: Seq<u8>, v: V)
    requires
        pre.table@.len() == 2048,
        post.table@.len() == 2048,
        forall|i: int|
            0 <= i < 2048 && i != bucket_of(k) ==> #[trigger] post.table@[i] == pre.table@[i],
        bucket_get(post.table@[bucket_of(k)]@, k) == Some(v),
        forall|k2: Seq<u8>|
            k2 != k ==> #[trigger] bucket_get(post.table@[bucket_of(k)]@, k2) == bucket_get(
                pre.table@[bucket_of(k)]@,
                k2,
            ),
    ensures
        post@ == pre@.insert(k, v),
{
    assert forall|k2: Seq<u8>| k2 != k implies #[trigger] bucket_get(
        post.table@[bucket_of(k2)]@,
        k2,
    ) == bucket_get(pre.table@[bucket_of(k2)]@, k2) by {
        lemma_bucket_of_bound(k2);
        lemma_bucket_of_bound(k);
        if bucket_of(k2) != bucket_of(k) {
            assert(post.table@[bucket_of(k2)] == pre.table@[bucket_of(k2)]);
        }
    }
    assert(post@ =~= pre@.insert(k, v));
}

/// After a change confined to `k`'s bucket that removes `k`'s binding and
/// leaves every other key's binding untouched, the map's abstract value is
/// the old one without `k`.
proof fn lemma_view_after_remove<V>(pre: SliceMap<V>, post: SliceMap<V>, k: Seq<u8>)
    requires
        pre.table@.len() == 2048,
        post.table@.len() == 2048,
        forall|i: int|
            0 <= i < 2048 && i != bucket_of(k) ==> #[trigger] post.table@[i] == pre.table@[i],
        bucket_get(post.table@[bucket_of(k)]@, k) is None,
        forall|k2: Seq<u8>|
            k2 != k ==> #[trigger] bucket_get(post.table@[bucket_of(k)]@, k2) == bucket_get(
                pre.table@[bucket_of(k)]@,
                k2,
            ),
    ensures
        post@ == pre@.remove(k),
{
    assert forall|k2: Seq<u8>| k2 != k implies #[trigger] bucket_get(
        post.table@[bucket_of(k2)]@,
        k2,
    ) == bucket_get(pre.table@[bucket_of(k2)]@, k2) by {
        lemma_bucket_of_bound(k2);
        lemma_bucket_of_bound(k);
        if bucket_of(k2) != bucket_of(k) {
            assert(post.table@[bucket_of(k2)] == pre.table@[bucket_of(k2)]);
        }
    }
    assert(post@ =~= pre@.remove(k));
}

} // verus!
