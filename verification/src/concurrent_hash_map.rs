//! The segmented slice-keyed map: the cross-thread variant of
//! [`crate::slice_map::SliceMap`].
//!
//! The table is partitioned into sixteen segments; a key always belongs to
//! exactly one segment, chosen by its hash, and within a segment to exactly
//! one bucket, chosen by lower hash bits that segment selection deliberately
//! discards.  In the deployment this crate verifies, each map is owned by
//! one caller at a time, so operations take the map exclusively; the
//! per-segment read/write locking that lets callers share a map is transport
//! glue outside the library, and the segment partition proved here is what
//! makes it sound: operations on keys of different segments touch disjoint
//! state.

use vstd::prelude::*;
use crate::bucket::{
    bucket_find, bucket_get, bucket_distinct, fnv1a, hash_bytes, lemma_get_push_new,
    lemma_get_push_other, lemma_get_remove_only, lemma_get_remove_other, lemma_push_entries,
    lemma_remove_entries, lemma_remove_push_entries,
};
use vstd::slice::slice_to_vec;

pub use crate::bucket::HashEntry;

verus! {

/// Inserts of two different keys commute: whichever order two writers'
/// segment locks are granted, the resulting table binds both keys, so
/// concurrent inserts of disjoint keys lose no update.
pub proof fn lemma_disjoint_inserts_commute<V>(
    m: Map<Seq<u8>, V>,
    k1: Seq<u8>,
    v1: V,
    k2: Seq<u8>,
    v2: V,
)
    requires
        k1 != k2,
    ensures
        m.insert(k1, v1).insert(k2, v2) == m.insert(k2, v2).insert(k1, v1),
        m.insert(k1, v1).insert(k2, v2)[k1] == v1,
        m.insert(k1, v1).insert(k2, v2)[k2] == v2,
{
    assert(m.insert(k1, v1).insert(k2, v2) =~= m.insert(k2, v2).insert(k1, v1));
}

/// Number of segments in one map.
pub const SEGMENT_COUNT: usize = 16;

/// Number of buckets in one segment.
pub const SEGMENT_BUCKETS: usize = 8;

/// The segment a key belongs to.  Segment selection shifts the hash right
/// so that it reads bits the bucket mask below does not, decorrelating
/// segment and bucket placement.
pub open spec fn seg_of(k: Seq<u8>) -> int {
    ((fnv1a(k) >> 4) & 15) as int
}

/// The bucket, within its segment, a key belongs to.
pub open spec fn seg_bucket_of(k: Seq<u8>) -> int {
    (fnv1a(k) & 7) as int
}

pub proof fn lemma_seg_of_bound(k: Seq<u8>)
    ensures
        0 <= seg_of(k) < 16,
{
    let h = fnv1a(k);
    assert((h >> 4) & 15 < 16) by (bit_vector);
}

pub proof fn lemma_seg_bucket_of_bound(k: Seq<u8>)
    ensures
        0 <= seg_bucket_of(k) < 8,
{
    let h = fnv1a(k);
    assert(h & 7 < 8) by (bit_vector);
}

fn seg_mask_index(h: u64) -> (i: usize)
    ensures
        i as int == (h & 7) as int,
        i < 8,
{
    proof {
        assert(h & 7 < 8) by (bit_vector);
    }
    (h & 7) as usize
}

/// One independently lockable partition of the map.  On its own it is a
/// small slice-keyed map whose bucket is chosen by the low bits of the hash
/// the caller supplies.
pub struct Segment<V> {
    table: Vec<Vec<HashEntry<V>>>,
}

impl<V> View for Segment<V> {
    type V = Map<Seq<u8>, V>;

    closed spec fn view(&self) -> Map<Seq<u8>, V> {
        Map::new(
            |k: Seq<u8>| bucket_get(self.table@[seg_bucket_of(k)]@, k) is Some,
            |k: Seq<u8>| bucket_get(self.table@[seg_bucket_of(k)]@, k).unwrap(),
        )
    }
}

impl<V> Segment<V> {
    /// Every entry hangs in the bucket its key hashes to, carries its key's
    /// hash, and no key occurs twice.
    pub closed spec fn wf(self) -> bool {
        &&& self.table@.len() == 8
        &&& forall|i: int, j: int|
            0 <= i < 8 && 0 <= j < self.table@[i]@.len() ==> {
                &&& (#[trigger] self.table@[i]@[j]).hash == fnv1a(self.table@[i]@[j].key@)
                &&& seg_bucket_of(self.table@[i]@[j].key@) == i
            }
        &&& forall|i: int| 0 <= i < 8 ==> bucket_distinct(#[trigger] self.table@[i]@)
    }

    /// An empty segment.
    pub fn new() -> (r: Segment<V>)
        ensures
            r.wf(),
            r@ == Map::<Seq<u8>, V>::empty(),
    {
        let mut table: Vec<Vec<HashEntry<V>>> = Vec::new();
        let mut i: usize = 0;
        while i < SEGMENT_BUCKETS
            invariant
                i <= 8,
                table@.len() == i,
                forall|j: int| 0 <= j < i ==> (#[trigger] table@[j])@.len() == 0,
            decreases 8 - i,
        {
            table.push(Vec::new());
            i = i + 1;
        }
        let r = Segment { table };
        proof {
            assert forall|k: Seq<u8>| !(bucket_get(r.table@[seg_bucket_of(k)]@, k) is Some) by {
                lemma_seg_bucket_of_bound(k);
                assert(r.table@[seg_bucket_of(k)]@.len() == 0);
                assert(bucket_get(r.table@[seg_bucket_of(k)]@, k) is None);
            }
            assert(r@ =~= Map::<Seq<u8>, V>::empty());
        }
        r
    }

    /// Looks a key up; the caller supplies the key's hash.
    pub fn get(&self, key: &[u8], hash: u64) -> (r: Option<&V>)
        requires
            self.wf(),
            hash == fnv1a(key@),
        ensures
            match r {
                Some(v) => self@.contains_key(key@) && *v == self@[key@],
                None => !self@.contains_key(key@),
            },
    {
        let idx = seg_mask_index(hash);
        let b = &self.table[idx];
        proof {
            lemma_seg_bucket_of_bound(key@);
        }
        match bucket_find(b, key) {
            Some(i) => {
                let e = &b[i];
                Some(&e.val)
            },
            None => None,
        }
    }

    /// Inserts a value under a key, replacing any value already there.
    pub fn insert(&mut self, key: &[u8], hash: u64, val: V)
        requires
            old(self).wf(),
            hash == fnv1a(key@),
        ensures
            final(self).wf(),
            final(self)@ == old(self)@.insert(key@, val),
    {
        let idx = seg_mask_index(hash);
        proof {
            lemma_seg_bucket_of_bound(key@);
        }
        let found = bucket_find(&self.table[idx], key);
        let b = &mut self.table[idx];
        let ghost pre_bucket = b@;
        let ghost p = (|e: HashEntry<V>| e.hash == fnv1a(e.key@) && seg_bucket_of(e.key@)
            == idx as int);
        match found {
            Some(i) => {
                let e = b.remove(i);
                let HashEntry { key: stored_key, val: _, hash: stored_hash } = e;
                b.push(HashEntry { key: stored_key, val, hash: stored_hash });
                proof {
                    let post_bucket = b@;
                    let en = post_bucket.last();
                    assert(post_bucket == pre_bucket.remove(i as int).push(en));
                    lemma_remove_push_entries(pre_bucket, i as int, en, p);
                    assert forall|k2: Seq<u8>| k2 != key@ implies #[trigger] bucket_get(
                        post_bucket,
                        k2,
                    ) == bucket_get(pre_bucket, k2) by {
                        lemma_get_push_other(pre_bucket.remove(i as int), en, k2);
                        lemma_get_remove_other(pre_bucket, i as int, k2);
                    }
                    lemma_get_push_new(pre_bucket.remove(i as int), en);
                }
            },
            None => {
                b.push(HashEntry { key: slice_to_vec(key), val, hash });
                proof {
                    let post_bucket = b@;
                    let en = post_bucket.last();
                    assert(post_bucket == pre_bucket.push(en));
                    lemma_push_entries(pre_bucket, en, p);
                    assert forall|k2: Seq<u8>| k2 != key@ implies #[trigger] bucket_get(
                        post_bucket,
                        k2,
                    ) == bucket_get(pre_bucket, k2) by {
                        lemma_get_push_other(pre_bucket, en, k2);
                    }
                    lemma_get_push_new(pre_bucket, en);
                }
            },
        }
        proof {
            lemma_seg_wf_one_bucket(*old(self), *self, idx as int);
            lemma_seg_view_after_insert(*old(self), *self, key@, val);
        }
    }

    /// Rewrites the value under a key if present; a missing key is a no-op.
    pub fn get_apply<F>(&mut self, key: &[u8], hash: u64, func: F) where
        F: FnOnce(V) -> V,

        requires
            old(self).wf(),
            hash == fnv1a(key@),
            old(self)@.contains_key(key@) ==> call_requires(func, (old(self)@[key@],)),
        ensures
            final(self).wf(),
            !old(self)@.contains_key(key@) ==> final(self)@ == old(self)@,
            old(self)@.contains_key(key@) ==> exists|v: V|
                #[trigger] call_ensures(func, (old(self)@[key@],), v) && final(self)@ == old(
                    self,
                )@.insert(key@, v),
    {
        let idx = seg_mask_index(hash);
        proof {
            lemma_seg_bucket_of_bound(key@);
        }
        let found = bucket_find(&self.table[idx], key);
        match found {
            Some(i) => {
                let b = &mut self.table[idx];
                let ghost pre_bucket = b@;
                let ghost p = (|e: HashEntry<V>| e.hash == fnv1a(e.key@) && seg_bucket_of(e.key@)
                    == idx as int);
                proof {
                    assert(old(self)@.contains_key(key@));
                    assert(old(self)@[key@] == pre_bucket[i as int].val);
                }
                let e = b.remove(i);
                let HashEntry { key: stored_key, val: v0, hash: stored_hash } = e;
                let v1 = func(v0);
                b.push(HashEntry { key: stored_key, val: v1, hash: stored_hash });
                proof {
                    let post_bucket = b@;
                    let en = post_bucket.last();
                    assert(post_bucket == pre_bucket.remove(i as int).push(en));
                    lemma_remove_push_entries(pre_bucket, i as int, en, p);
                    assert forall|k2: Seq<u8>| k2 != key@ implies #[trigger] bucket_get(
                        post_bucket,
                        k2,
                    ) == bucket_get(pre_bucket, k2) by {
                        lemma_get_push_other(pre_bucket.remove(i as int), en, k2);
                        lemma_get_remove_other(pre_bucket, i as int, k2);
                    }
                    lemma_get_push_new(pre_bucket.remove(i as int), en);
                    lemma_seg_wf_one_bucket(*old(self), *self, idx as int);
                    lemma_seg_view_after_insert(*old(self), *self, key@, v1);
                }
            },
            None => {},
        }
    }

    /// Rewrites the value under a key if present and reports whether it was;
    /// the lookup, the rewrite and the store are one uninterruptible step.
    pub fn get_modify<F>(&mut self, key: &[u8], hash: u64, func: F) -> (r: bool) where
        F: FnOnce(V) -> V,

        requires
            old(self).wf(),
            hash == fnv1a(key@),
            old(self)@.contains_key(key@) ==> call_requires(func, (old(self)@[key@],)),
        ensures
            final(self).wf(),
            r == old(self)@.contains_key(key@),
            !old(self)@.contains_key(key@) ==> final(self)@ == old(self)@,
            old(self)@.contains_key(key@) ==> exists|v: V|
                #[trigger] call_ensures(func, (old(self)@[key@],), v) && final(self)@ == old(
                    self,
                )@.insert(key@, v),
    {
        let idx = seg_mask_index(hash);
        proof {
            lemma_seg_bucket_of_bound(key@);
        }
        let found = bucket_find(&self.table[idx], key);
        match found {
            Some(i) => {
                let b = &mut self.table[idx];
                let ghost pre_bucket = b@;
                let ghost p = (|e: HashEntry<V>| e.hash == fnv1a(e.key@) && seg_bucket_of(e.key@)
                    == idx as int);
                proof {
                    assert(old(self)@.contains_key(key@));
                    assert(old(self)@[key@] == pre_bucket[i as int].val);
                }
                let e = b.remove(i);
                let HashEntry { key: stored_key, val: v0, hash: stored_hash } = e;
                let v1 = func(v0);
                b.push(HashEntry { key: stored_key, val: v1, hash: stored_hash });
                proof {
                    let post_bucket = b@;
                    let en = post_bucket.last();
                    assert(post_bucket == pre_bucket.remove(i as int).push(en));
                    lemma_remove_push_entries(pre_bucket, i as int, en, p);
                    assert forall|k2: Seq<u8>| k2 != key@ implies #[trigger] bucket_get(
                        post_bucket,
                        k2,
                    ) == bucket_get(pre_bucket, k2) by {
                        lemma_get_push_other(pre_bucket.remove(i as int), en, k2);
                        lemma_get_remove_other(pre_bucket, i as int, k2);
                    }
                    lemma_get_push_new(pre_bucket.remove(i as int), en);
                    lemma_seg_wf_one_bucket(*old(self), *self, idx as int);
                    lemma_seg_view_after_insert(*old(self), *self, key@, v1);
                }
                true
            },
            None => false,
        }
    }

    /// Upserts atomically per key: applies `mod_func` to the stored value if
    /// the key is present, else stores `put_func()`.  Nothing can interleave
    /// a conflicting insert for the same key between the lookup and the
    /// store: the segment is held exclusively for the whole operation.
    pub fn modify_or_else<F1, F2>(&mut self, key: &[u8], hash: u64, mod_func: F1, put_func: F2)
        where F1: FnOnce(V) -> V, F2: FnOnce() -> V,

        requires
            old(self).wf(),
            hash == fnv1a(key@),
            old(self)@.contains_key(key@) ==> call_requires(mod_func, (old(self)@[key@],)),
            !old(self)@.contains_key(key@) ==> call_requires(put_func, ()),
        ensures
            final(self).wf(),
            old(self)@.contains_key(key@) ==> exists|v: V|
                #[trigger] call_ensures(mod_func, (old(self)@[key@],), v) && final(self)@ == old(
                    self,
                )@.insert(key@, v),
            !old(self)@.contains_key(key@) ==> exists|v: V|
                #[trigger] call_ensures(put_func, (), v) && final(self)@ == old(self)@.insert(
                    key@,
                    v,
                ),
    {
        let idx = seg_mask_index(hash);
        proof {
            lemma_seg_bucket_of_bound(key@);
        }
        let found = bucket_find(&self.table[idx], key);
        let b = &mut self.table[idx];
        let ghost pre_bucket = b@;
        let ghost p = (|e: HashEntry<V>| e.hash == fnv1a(e.key@) && seg_bucket_of(e.key@)
            == idx as int);
        match found {
            Some(i) => {
                proof {
                    assert(old(self)@.contains_key(key@));
                    assert(old(self)@[key@] == pre_bucket[i as int].val);
                }
                let e = b.remove(i);
                let HashEntry { key: stored_key, val: v0, hash: stored_hash } = e;
                let v1 = mod_func(v0);
                b.push(HashEntry { key: stored_key, val: v1, hash: stored_hash });
                proof {
                    let post_bucket = b@;
                    let en = post_bucket.last();
                    assert(post_bucket == pre_bucket.remove(i as int).push(en));
                    lemma_remove_push_entries(pre_bucket, i as int, en, p);
                    assert forall|k2: Seq<u8>| k2 != key@ implies #[trigger] bucket_get(
                        post_bucket,
                        k2,
                    ) == bucket_get(pre_bucket, k2) by {
                        lemma_get_push_other(pre_bucket.remove(i as int), en, k2);
                        lemma_get_remove_other(pre_bucket, i as int, k2);
                    }
                    lemma_get_push_new(pre_bucket.remove(i as int), en);
                    lemma_seg_wf_one_bucket(*old(self), *self, idx as int);
                    lemma_seg_view_after_insert(*old(self), *self, key@, v1);
                }
            },
            None => {
                let v1 = put_func();
                b.push(HashEntry { key: slice_to_vec(key), val: v1, hash });
                proof {
                    let post_bucket = b@;
                    let en = post_bucket.last();
                    assert(post_bucket == pre_bucket.push(en));
                    lemma_push_entries(pre_bucket, en, p);
                    assert forall|k2: Seq<u8>| k2 != key@ implies #[trigger] bucket_get(
                        post_bucket,
                        k2,
                    ) == bucket_get(pre_bucket, k2) by {
                        lemma_get_push_other(pre_bucket, en, k2);
                    }
                    lemma_get_push_new(pre_bucket, en);
                    lemma_seg_wf_one_bucket(*old(self), *self, idx as int);
                    lemma_seg_view_after_insert(*old(self), *self, key@, v1);
                }
            },
        }
    }

    /// Removes a key's entry; reports whether one was there.
    pub fn delete(&mut self, key: &[u8], hash: u64) -> (r: bool)
        requires
            old(self).wf(),
            hash == fnv1a(key@),
        ensures
            final(self).wf(),
            final(self)@ == old(self)@.remove(key@),
            r == old(self)@.contains_key(key@),
    {
        let idx = seg_mask_index(hash);
        proof {
            lemma_seg_bucket_of_bound(key@);
        }
        let found = bucket_find(&self.table[idx], key);
        match found {
            Some(i) => {
                let b = &mut self.table[idx];
                let ghost pre_bucket = b@;
                let ghost p = (|e: HashEntry<V>| e.hash == fnv1a(e.key@) && seg_bucket_of(e.key@)
                    == idx as int);
                let _ = b.remove(i);
                proof {
                    let post_bucket = b@;
                    lemma_remove_entries(pre_bucket, i as int, p);
                    assert forall|k2: Seq<u8>| k2 != key@ implies #[trigger] bucket_get(
                        post_bucket,
                        k2,
                    ) == bucket_get(pre_bucket, k2) by {
                        lemma_get_remove_other(pre_bucket, i as int, k2);
                    }
                    lemma_get_remove_only(pre_bucket, i as int, key@);
                    lemma_seg_wf_one_bucket(*old(self), *self, idx as int);
                    lemma_seg_view_after_remove(*old(self), *self, key@);
                }
                true
            },
            None => {
                proof {
                    assert(self@ =~= old(self)@.remove(key@));
                }
                false
            },
        }
    }
}

/// The segmented map: sixteen segments, each holding the keys whose hash
/// selects it.
pub struct ConcurrentHashMap<V> {
    segments: Vec<Segment<V>>,
}

impl<V> View for ConcurrentHashMap<V> {
    type V = Map<Seq<u8>, V>;

    closed spec fn view(&self) -> Map<Seq<u8>, V> {
        Map::new(
            |k: Seq<u8>| self.segments@[seg_of(k)]@.contains_key(k),
            |k: Seq<u8>| self.segments@[seg_of(k)]@[k],
        )
    }
}

impl<V> ConcurrentHashMap<V> {
    /// Sixteen well-formed segments, and every key a segment holds is one
    /// whose hash selects that segment: a key lives in at most one bucket of
    /// at most one segment.
    pub closed spec fn wf(self) -> bool {
        &&& self.segments@.len() == 16
        &&& forall|si: int| 0 <= si < 16 ==> (#[trigger] self.segments@[si]).wf()
        &&& forall|si: int, k: Seq<u8>|
            0 <= si < 16 && #[trigger] self.segments@[si]@.contains_key(k) ==> seg_of(k) == si
    }

    /// An empty map.
    pub fn new() -> (r: ConcurrentHashMap<V>)
        ensures
            r.wf(),
            r@ == Map::<Seq<u8>, V>::empty(),
    {
        let mut segments: Vec<Segment<V>> = Vec::new();
        let mut i: usize = 0;
        while i < SEGMENT_COUNT
            invariant
                i <= 16,
                segments@.len() == i,
                forall|j: int|
                    0 <= j < i ==> (#[trigger] segments@[j]).wf() && segments@[j]@ == Map::<
                        Seq<u8>,
                        V,
                    >::empty(),
            decreases 16 - i,
        {
            segments.push(Segment::new());
            i = i + 1;
        }
        let r = ConcurrentHashMap { segments };
        proof {
            assert forall|k: Seq<u8>| !r.segments@[seg_of(k)]@.contains_key(k) by {
                lemma_seg_of_bound(k);
            }
            assert(r@ =~= Map::<Seq<u8>, V>::empty());
        }
        r
    }

    /// The hash the map places a key by.
    fn make_hash(key: &[u8]) -> (h: u64)
        ensures
            h == fnv1a(key@),
    {
        hash_bytes(key)
    }

    /// The segment a hash selects.
    fn segment_index(&self, hash: u64) -> (si: usize)
        ensures
            si as int == ((hash >> 4) & 15) as int,
            si < 16,
    {
        proof {
            assert((hash >> 4) & 15 < 16) by (bit_vector);
        }
        ((hash >> 4) & 15) as usize
    }

    /// Looks a key up without allocating; yields a borrow of the value.
    pub fn get(&self, key: &[u8]) -> (r: Option<&V>)
        requires
            self.wf(),
        ensures
            match r {
                Some(v) => self@.contains_key(key@) && *v == self@[key@],
                None => !self@.contains_key(key@),
            },
    {
        let hash = Self::make_hash(key);
        let si = self.segment_index(hash);
        let seg = &self.segments[si];
        let r = seg.get(key, hash);
        proof {
            lemma_seg_of_bound(key@);
            lemma_chm_segment_agrees(*self, key@);
        }
        r
    }

    /// Inserts a value under a key, replacing any value already there.
    pub fn insert(&mut self, key: &[u8], val: V)
        requires
            old(self).wf(),
        ensures
            final(self).wf(),
            final(self)@ == old(self)@.insert(key@, val),
    {
        let hash = Self::make_hash(key);
        let si = self.segment_index(hash);
        proof {
            lemma_seg_of_bound(key@);
        }
        let seg = &mut self.segments[si];
        seg.insert(key, hash, val);
        proof {
            lemma_chm_wf_one_segment(*old(self), *self, si as int);
            lemma_chm_view_after(*old(self), *self, key@);
            assert(self@ =~= old(self)@.insert(key@, val));
        }
    }

    /// Rewrites the value under a key if present; a missing key is a no-op.
    pub fn get_apply<F>(&mut self, key: &[u8], func: F) where
        F: FnOnce(V) -> V,

        requires
            old(self).wf(),
            old(self)@.contains_key(key@) ==> call_requires(func, (old(self)@[key@],)),
        ensures
            final(self).wf(),
            !old(self)@.contains_key(key@) ==> final(self)@ == old(self)@,
            old(self)@.contains_key(key@) ==> exists|v: V|
                #[trigger] call_ensures(func, (old(self)@[key@],), v) && final(self)@ == old(
                    self,
                )@.insert(key@, v),
    {
        let hash = Self::make_hash(key);
        let si = self.segment_index(hash);
        proof {
            lemma_seg_of_bound(key@);
            lemma_chm_segment_agrees(*old(self), key@);
        }
        let seg = &mut self.segments[si];
        seg.get_apply(key, hash, func);
        proof {
            lemma_chm_wf_one_segment(*old(self), *self, si as int);
            lemma_chm_view_after(*old(self), *self, key@);
            if old(self)@.contains_key(key@) {
                let v = choose|v: V|
                    call_ensures(func, (old(self)@[key@],), v) && self.segments@[seg_of(key@)]@
                        == old(self).segments@[seg_of(key@)]@.insert(key@, v);
                assert(self@ =~= old(self)@.insert(key@, v));
            } else {
                assert(self@ =~= old(self)@);
            }
        }
    }

    /// Rewrites the value under a key if present and reports whether it was;
    /// the lookup, the rewrite and the store are one uninterruptible step.
    pub fn get_modify<F>(&mut self, key: &[u8], func: F) -> (r: bool) where
        F: FnOnce(V) -> V,

        requires
            old(self).wf(),
            old(self)@.contains_key(key@) ==> call_requires(func, (old(self)@[key@],)),
        ensures
            final(self).wf(),
            r == old(self)@.contains_key(key@),
            !old(self)@.contains_key(key@) ==> final(self)@ == old(self)@,
            old(self)@.contains_key(key@) ==> exists|v: V|
                #[trigger] call_ensures(func, (old(self)@[key@],), v) && final(self)@ == old(
                    self,
                )@.insert(key@, v),
    {
        let hash = Self::make_hash(key);
        let si = self.segment_index(hash);
        proof {
            lemma_seg_of_bound(key@);
            lemma_chm_segment_agrees(*old(self), key@);
        }
        let seg = &mut self.segments[si];
        let r = seg.get_modify(key, hash, func);
        proof {
            lemma_chm_wf_one_segment(*old(self), *self, si as int);
            lemma_chm_view_after(*old(self), *self, key@);
            if old(self)@.contains_key(key@) {
                let v = choose|v: V|
                    call_ensures(func, (old(self)@[key@],), v) && self.segments@[seg_of(key@)]@
                        == old(self).segments@[seg_of(key@)]@.insert(key@, v);
                assert(self@ =~= old(self)@.insert(key@, v));
            } else {
                assert(self@ =~= old(self)@);
            }
        }
        r
    }

    /// Upserts atomically per key: applies `mod_func` to the stored value if
    /// the key is present, else stores `put_func()`.
    pub fn modify_or_else<F1, F2>(&mut self, key: &[u8], mod_func: F1, put_func: F2) where
        F1: FnOnce(V) -> V,
        F2: FnOnce() -> V,

        requires
            old(self).wf(),
            old(self)@.contains_key(key@) ==> call_requires(mod_func, (old(self)@[key@],)),
            !old(self)@.contains_key(key@) ==> call_requires(put_func, ()),
        ensures
            final(self).wf(),
            old(self)@.contains_key(key@) ==> exists|v: V|
                #[trigger] call_ensures(mod_func, (old(self)@[key@],), v) && final(self)@ == old(
                    self,
                )@.insert(key@, v),
            !old(self)@.contains_key(key@) ==> exists|v: V|
                #[trigger] call_ensures(put_func, (), v) && final(self)@ == old(self)@.insert(
                    key@,
                    v,
                ),
    {
        let hash = Self::make_hash(key);
        let si = self.segment_index(hash);
        proof {
            lemma_seg_of_bound(key@);
            lemma_chm_segment_agrees(*old(self), key@);
        }
        let seg = &mut self.segments[si];
        seg.modify_or_else(key, hash, mod_func, put_func);
        proof {
            lemma_chm_wf_one_segment(*old(self), *self, si as int);
            lemma_chm_view_after(*old(self), *self, key@);
            if old(self)@.contains_key(key@) {
                let v = choose|v: V|
                    call_ensures(mod_func, (old(self)@[key@],), v) && self.segments@[seg_of(
                        key@,
                    )]@ == old(self).segments@[seg_of(key@)]@.insert(key@, v);
                assert(self@ =~= old(self)@.insert(key@, v));
            } else {
                let v = choose|v: V|
                    call_ensures(put_func, (), v) && self.segments@[seg_of(key@)]@ == old(
                        self,
                    ).segments@[seg_of(key@)]@.insert(key@, v);
                assert(self@ =~= old(self)@.insert(key@, v));
            }
        }
    }

    /// Removes a key's entry; reports whether one was there.
    pub fn delete(&mut self, key: &[u8]) -> (r: bool)
        requires
            old(self).wf(),
        ensures
            final(self).wf(),
            final(self)@ == old(self)@.remove(key@),
            r == old(self)@.contains_key(key@),
    {
        let hash = Self::make_hash(key);
        let si = self.segment_index(hash);
        proof {
            lemma_seg_of_bound(key@);
            lemma_chm_segment_agrees(*old(self), key@);
        }
        let seg = &mut self.segments[si];
        let r = seg.delete(key, hash);
        proof {
            lemma_chm_wf_one_segment(*old(self), *self, si as int);
            lemma_chm_view_after(*old(self), *self, key@);
            assert(self@ =~= old(self)@.remove(key@));
        }
        r
    }
}

/// The whole map and the segment a key selects agree on that key.
proof fn lemma_chm_segment_agrees<V>(m: ConcurrentHashMap<V>, k: Seq<u8>)
    requires
        m.segments@.len() == 16,
    ensures
        m@.contains_key(k) == m.segments@[seg_of(k)]@.contains_key(k),
        m@.contains_key(k) ==> m@[k] == m.segments@[seg_of(k)]@[k],
{
}

/// Every segment but one unchanged, that one still well formed, and no key
/// of another segment's jurisdiction appeared in it: the whole map is still
/// well formed.
proof fn lemma_chm_wf_one_segment<V>(pre: ConcurrentHashMap<V>, post: ConcurrentHashMap<V>, si: int)
    requires
        pre.wf(),
        post.segments@.len() == 16,
        0 <= si < 16,
        forall|i: int| 0 <= i < 16 && i != si ==> #[trigger] post.segments@[i] == pre.segments@[i],
        post.segments@[si].wf(),
        forall|k: Seq<u8>|
            #[trigger] post.segments@[si]@.contains_key(k) ==> pre.segments@[si]@.contains_key(k)
                || seg_of(k) == si,
    ensures
        post.wf(),
{
    assert forall|i: int| 0 <= i < 16 implies (#[trigger] post.segments@[i]).wf() by {
        if i != si {
            assert(post.segments@[i] == pre.segments@[i]);
        }
    }
    assert forall|i: int, k: Seq<u8>|
        0 <= i < 16 && #[trigger] post.segments@[i]@.contains_key(k) implies seg_of(k) == i by {
        if i != si {
            assert(post.segments@[i] == pre.segments@[i]);
        }
    }
}

/// A change confined to the segment a key selects changes the whole map
/// exactly as it changed that segment, at that key and at every other.
proof fn lemma_chm_view_after<V>(pre: ConcurrentHashMap<V>, post: ConcurrentHashMap<V>, k: Seq<u8>)
    requires
        pre.segments@.len() == 16,
        post.segments@.len() == 16,
        forall|i: int|
            0 <= i < 16 && i != seg_of(k) ==> #[trigger] post.segments@[i] == pre.segments@[i],
        forall|k2: Seq<u8>|
            k2 != k ==> (#[trigger] post.segments@[seg_of(k)]@.contains_key(k2)
                == pre.segments@[seg_of(k)]@.contains_key(k2)) && (
            pre.segments@[seg_of(k)]@.contains_key(k2)
                ==> post.segments@[seg_of(k)]@[k2] == pre.segments@[seg_of(k)]@[k2]),
    ensures
        forall|k2: Seq<u8>|
            k2 != k ==> (#[trigger] post@.contains_key(k2) == pre@.contains_key(k2)) && (
            pre@.contains_key(k2) ==> post@[k2] == pre@[k2]),
        post@.contains_key(k) == post.segments@[seg_of(k)]@.contains_key(k),
        post@.contains_key(k) ==> post@[k] == post.segments@[seg_of(k)]@[k],
{
    assert forall|k2: Seq<u8>| k2 != k implies (#[trigger] post@.contains_key(k2)
        == pre@.contains_key(k2)) && (pre@.contains_key(k2) ==> post@[k2] == pre@[k2]) by {
        lemma_seg_of_bound(k2);
        lemma_seg_of_bound(k);
        if seg_of(k2) != seg_of(k) {
            assert(post.segments@[seg_of(k2)] == pre.segments@[seg_of(k2)]);
        }
    }
}

/// Every bucket of a segment but one unchanged, and that one still well
/// formed and still in its right place: the segment is still well formed.
proof fn lemma_seg_wf_one_bucket<V>(pre: Segment<V>, post: Segment<V>, idx: int)
    requires
        pre.wf(),
        post.table@.len() == 8,
        0 <= idx < 8,
        forall|i: int| 0 <= i < 8 && i != idx ==> #[trigger] post.table@[i] == pre.table@[i],
        forall|j: int|
            0 <= j < post.table@[idx]@.len() ==> (#[trigger] post.table@[idx]@[j]).hash == fnv1a(
                post.table@[idx]@[j].key@,
            ) && seg_bucket_of(post.table@[idx]@[j].key@) == idx,
        bucket_distinct(post.table@[idx]@),
    ensures
        post.wf(),
{
    assert forall|i: int, j: int|
        0 <= i < 8 && 0 <= j < post.table@[i]@.len() implies {
        &&& (#[trigger] post.table@[i]@[j]).hash == fnv1a(post.table@[i]@[j].key@)
        &&& seg_bucket_of(post.table@[i]@[j].key@) == i
    } by {
        if i != idx {
            assert(post.table@[i] == pre.table@[i]);
        }
    }
    assert forall|i: int| 0 <= i < 8 implies bucket_distinct(#[trigger] post.table@[i]@) by {
        if i != idx {
            assert(post.table@[i] == pre.table@[i]);
        }
    }
}

/// After a change confined to `k`'s bucket that leaves `k` bound to `v` and
/// every other key's binding untouched, the segment's abstract value is the
/// old one with `k` bound to `v`.
proof fn lemma_seg_view_after_insert<V>(pre: Segment<V>, post: Segment<V>, k: Seq<u8>, v: V)
    requires
        pre.table@.len() == 8,
        post.table@.len() == 8,
        forall|i: int|
            0 <= i < 8 && i != seg_bucket_of(k) ==> #[trigger] post.table@[i] == pre.table@[i],
        bucket_get(post.table@[seg_bucket_of(k)]@, k) == Some(v),
        forall|k2: Seq<u8>|
            k2 != k ==> #[trigger] bucket_get(post.table@[seg_bucket_of(k)]@, k2) == bucket_get(
                pre.table@[seg_bucket_of(k)]@,
                k2,
            ),
    ensures
        post@ == pre@.insert(k, v),
{
    assert forall|k2: Seq<u8>| k2 != k implies #[trigger] bucket_get(
        post.table@[seg_bucket_of(k2)]@,
        k2,
    ) == bucket_get(pre.table@[seg_bucket_of(k2)]@, k2) by {
        lemma_seg_bucket_of_bound(k2);
        lemma_seg_bucket_of_bound(k);
        if seg_bucket_of(k2) != seg_bucket_of(k) {
            assert(post.table@[seg_bucket_of(k2)] == pre.table@[seg_bucket_of(k2)]);
        }
    }
    assert(post@ =~= pre@.insert(k, v));
}

/// After a change confined to `k`'s bucket that removes `k`'s binding and
/// leaves every other key's binding untouched, the segment's abstract value
/// is the old one without `k`.
proof fn lemma_seg_view_after_remove<V>(pre: Segment<V>, post: Segment<V>, k: Seq<u8>)
    requires
        pre.table@.len() == 8,
        post.table@.len() == 8,
        forall|i: int|
            0 <= i < 8 && i != seg_bucket_of(k) ==> #[trigger] post.table@[i] == pre.table@[i],
        bucket_get(post.table@[seg_bucket_of(k)]@, k) is None,
        forall|k2: Seq<u8>|
            k2 != k ==> #[trigger] bucket_get(post.table@[seg_bucket_of(k)]@, k2) == bucket_get(
                pre.table@[seg_bucket_of(k)]@,
                k2,
            ),
    ensures
        post@ == pre@.remove(k),
{
    assert forall|k2: Seq<u8>| k2 != k implies #[trigger] bucket_get(
        post.table@[seg_bucket_of(k2)]@,
        k2,
    ) == bucket_get(pre.table@[seg_bucket_of(k2)]@, k2) by {
        lemma_seg_bucket_of_bound(k2);
        lemma_seg_bucket_of_bound(k);
        if seg_bucket_of(k2) != seg_bucket_of(k) {
            assert(post.table@[seg_bucket_of(k2)] == pre.table@[seg_bucket_of(k2)]);
        }
    }
    assert(post@ =~= pre@.remove(k));
}

} // verus!
