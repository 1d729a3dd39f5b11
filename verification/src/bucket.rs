//! What the two slice-keyed maps share: the byte-string hash, byte-slice
//! equality, the chained-bucket entry type, and the operations on one bucket
//! together with the lemmas that relate them to the bucket's contents.
//!
//! A bucket is a vector of entries; a key occurs in at most one entry of a
//! well-formed bucket, and `bucket_get` reads the first occurrence.

use vstd::prelude::*;

verus! {

/// The starting state of the byte-string hash.
pub const FNV_OFFSET: u64 = 0xcbf29ce484222325;

/// The multiplier of the byte-string hash.
pub const FNV_PRIME: u64 = 0x100000001b3;

/// One step of the byte-string hash: fold one byte into the state.
pub open spec fn fnv1a_step(h: u64, b: u8) -> u64 {
    (((h ^ (b as u64)) as nat * FNV_PRIME as nat) % 0x10000000000000000) as u64
}

/// The hash of a byte string: collision scatter for bucket placement, with
/// no security claim.  It is a pure function of the bytes, so equal keys
/// always land in the same bucket.
pub open spec fn fnv1a(s: Seq<u8>) -> u64
    decreases s.len(),
{
    if s.len() == 0 {
        FNV_OFFSET
    } else {
        fnv1a_step(fnv1a(s.drop_last()), s.last())
    }
}

/// Computes [`fnv1a`] of a byte slice.
pub fn hash_bytes(key: &[u8]) -> (h: u64)
    ensures
        h == fnv1a(key@),
{
    let mut h: u64 = FNV_OFFSET;
    let mut i: usize = 0;
    while i < key.len()
        invariant
            i <= key@.len(),
            h == fnv1a(key@.take(i as int)),
        decreases key@.len() - i,
    {
        proof {
            assert(key@.take(i + 1).drop_last() =~= key@.take(i as int));
            assert(key@.take(i + 1).last() == key@[i as int]);
        }
        h = (h ^ (key[i] as u64)).wrapping_mul(FNV_PRIME);
        i = i + 1;
    }
    proof {
        assert(key@.take(key@.len() as int) =~= key@);
    }
    h
}

/// Byte-slice equality, by content.
pub fn bytes_eq(a: &[u8], b: &[u8]) -> (r: bool)
    ensures
        r == (a@ == b@),
{
    if a.len() != b.len() {
        return false;
    }
    let mut i: usize = 0;
    while i < a.len()
        invariant
            a@.len() == b@.len(),
            i <= a@.len(),
            forall|j: int| 0 <= j < i ==> a@[j] == b@[j],
        decreases a@.len() - i,
    {
        if a[i] != b[i] {
            return false;
        }
        i = i + 1;
    }
    proof {
        assert(a@ =~= b@);
    }
    true
}

/// One chained entry: the owned key, the value, and the key's cached hash.
pub struct HashEntry<V> {
    pub(crate) key: Vec<u8>,
    pub(crate) val: V,
    pub(crate) hash: u64,
}

/// Some entry of the bucket holds this key.
pub(crate) open spec fn bucket_has_key<V>(b: Seq<HashEntry<V>>, k: Seq<u8>) -> bool {
    exists|i: int| 0 <= i < b.len() && b[i].key@ == k
}

/// The value stored under a key: the first entry holding it, if any.
pub(crate) open spec fn bucket_get<V>(b: Seq<HashEntry<V>>, k: Seq<u8>) -> Option<V>
    decreases b.len(),
{
    if b.len() == 0 {
        None
    } else if b[0].key@ == k {
        Some(b[0].val)
    } else {
        bucket_get(b.drop_first(), k)
    }
}

/// No two entries of the bucket hold the same key.
pub(crate) open spec fn bucket_distinct<V>(b: Seq<HashEntry<V>>) -> bool {
    forall|j1: int, j2: int| 0 <= j1 < j2 < b.len() ==> b[j1].key@ != b[j2].key@
}

pub(crate) proof fn lemma_get_at_first_match<V>(b: Seq<HashEntry<V>>, k: Seq<u8>, i: int)
    requires
        0 <= i < b.len(),
        b[i].key@ == k,
        forall|j: int| 0 <= j < i ==> b[j].key@ != k,
    ensures
        bucket_get(b, k) == Some(b[i].val),
    decreases i,
{
    if i > 0 {
        lemma_get_at_first_match(b.drop_first(), k, i - 1);
    }
}

pub(crate) proof fn lemma_get_no_match<V>(b: Seq<HashEntry<V>>, k: Seq<u8>)
    requires
        forall|j: int| 0 <= j < b.len() ==> b[j].key@ != k,
    ensures
        bucket_get(b, k) is None,
    decreases b.len(),
{
    if b.len() > 0 {
        lemma_get_no_match(b.drop_first(), k);
    }
}

pub(crate) proof fn lemma_get_push_other<V>(b: Seq<HashEntry<V>>, e: HashEntry<V>, k: Seq<u8>)
    requires
        k != e.key@,
    ensures
        bucket_get(b.push(e), k) == bucket_get(b, k),
    decreases b.len(),
{
    if b.len() == 0 {
        assert(b.push(e)[0] == e);
        assert(b.push(e).drop_first() =~= Seq::<HashEntry<V>>::empty());
        assert(bucket_get(b.push(e).drop_first(), k) is None);
    } else {
        assert(b.push(e)[0] == b[0]);
        assert(b.push(e).drop_first() =~= b.drop_first().push(e));
        lemma_get_push_other(b.drop_first(), e, k);
        assert(bucket_get(b.push(e).drop_first(), k) == bucket_get(b.drop_first(), k));
    }
}

pub(crate) proof fn lemma_get_push_new<V>(b: Seq<HashEntry<V>>, e: HashEntry<V>)
    requires
        forall|j: int| 0 <= j < b.len() ==> b[j].key@ != e.key@,
    ensures
        bucket_get(b.push(e), e.key@) == Some(e.val),
    decreases b.len(),
{
    if b.len() == 0 {
        assert(b.push(e)[0] == e);
    } else {
        assert(b.push(e)[0] == b[0]);
        assert(b.push(e).drop_first() =~= b.drop_first().push(e));
        lemma_get_push_new(b.drop_first(), e);
    }
}

pub(crate) proof fn lemma_get_remove_only<V>(b: Seq<HashEntry<V>>, i: int, k: Seq<u8>)
    requires
        0 <= i < b.len(),
        b[i].key@ == k,
        forall|j: int| 0 <= j < b.len() && j != i ==> b[j].key@ != k,
    ensures
        bucket_get(b.remove(i), k) is None,
{
    assert forall|j: int| 0 <= j < b.remove(i).len() implies b.remove(i)[j].key@ != k by {
        if j < i {
            assert(b.remove(i)[j] == b[j]);
        } else {
            assert(b.remove(i)[j] == b[j + 1]);
        }
    }
    lemma_get_no_match(b.remove(i), k);
}

pub(crate) proof fn lemma_get_remove_other<V>(b: Seq<HashEntry<V>>, i: int, k: Seq<u8>)
    requires
        0 <= i < b.len(),
        k != b[i].key@,
    ensures
        bucket_get(b.remove(i), k) == bucket_get(b, k),
    decreases b.len(),
{
    if i == 0 {
        assert(b.remove(0) =~= b.drop_first());
    } else {
        assert(b.remove(i)[0] == b[0]);
        assert(b.remove(i).drop_first() =~= b.drop_first().remove(i - 1));
        lemma_get_remove_other(b.drop_first(), i - 1, k);
    }
}

/// Replacing the entry at `i` by one with the same key keeps every
/// entry-wise property and keeps the bucket's keys distinct, whichever
/// position the replacement lands in.
pub(crate) proof fn lemma_remove_push_entries<V>(
    pre: Seq<HashEntry<V>>,
    i: int,
    e: HashEntry<V>,
    p: spec_fn(HashEntry<V>) -> bool,
)
    requires
        0 <= i < pre.len(),
        forall|j: int| 0 <= j < pre.len() ==> p(#[trigger] pre[j]),
        p(e),
        bucket_distinct(pre),
        e.key@ == pre[i].key@,
    ensures
        forall|j: int|
            0 <= j < pre.remove(i).push(e).len() ==> p(#[trigger] pre.remove(i).push(e)[j]),
        bucket_distinct(pre.remove(i).push(e)),
        forall|j: int|
            0 <= j < pre.remove(i).len() ==> (#[trigger] pre.remove(i)[j]).key@ != e.key@,
{
    pre.remove_ensures(i);
    let rem = pre.remove(i);
    let post = rem.push(e);
    assert forall|j: int| 0 <= j < rem.len() implies rem[j].key@ != e.key@ by {
        if j < i {
            assert(rem[j] == pre[j]);
        } else {
            assert(rem[j] == pre[j + 1]);
        }
    }
    assert forall|j: int| 0 <= j < post.len() implies p(post[j]) by {
        if j < post.len() - 1 {
            if j < i {
                assert(post[j] == pre[j]);
            } else {
                assert(post[j] == pre[j + 1]);
            }
        } else {
            assert(post[j] == e);
        }
    }
    assert forall|j1: int, j2: int| 0 <= j1 < j2 < post.len() implies post[j1].key@
        != post[j2].key@ by {
        if j2 == post.len() - 1 {
            assert(post[j1] == rem[j1]);
        } else {
            assert(post[j1] == rem[j1] && post[j2] == rem[j2]);
            if j1 < i {
                assert(rem[j1] == pre[j1]);
            } else {
                assert(rem[j1] == pre[j1 + 1]);
            }
            if j2 < i {
                assert(rem[j2] == pre[j2]);
            } else {
                assert(rem[j2] == pre[j2 + 1]);
            }
        }
    }
}

/// Appending an entry whose key is new keeps every entry-wise property and
/// keeps the bucket's keys distinct.
pub(crate) proof fn lemma_push_entries<V>(
    pre: Seq<HashEntry<V>>,
    e: HashEntry<V>,
    p: spec_fn(HashEntry<V>) -> bool,
)
    requires
        forall|j: int| 0 <= j < pre.len() ==> p(#[trigger] pre[j]),
        p(e),
        bucket_distinct(pre),
        forall|j: int| 0 <= j < pre.len() ==> (#[trigger] pre[j]).key@ != e.key@,
    ensures
        forall|j: int| 0 <= j < pre.push(e).len() ==> p(#[trigger] pre.push(e)[j]),
        bucket_distinct(pre.push(e)),
{
    let post = pre.push(e);
    assert forall|j: int| 0 <= j < post.len() implies p(post[j]) by {
        if j < post.len() - 1 {
            assert(post[j] == pre[j]);
        } else {
            assert(post[j] == e);
        }
    }
    assert forall|j1: int, j2: int| 0 <= j1 < j2 < post.len() implies post[j1].key@
        != post[j2].key@ by {
        assert(post[j1] == pre[j1]);
        if j2 < post.len() - 1 {
            assert(post[j2] == pre[j2]);
        } else {
            assert(post[j2] == e);
        }
    }
}

/// Removing an entry keeps every entry-wise property and keeps the bucket's
/// keys distinct.
pub(crate) proof fn lemma_remove_entries<V>(
    pre: Seq<HashEntry<V>>,
    i: int,
    p: spec_fn(HashEntry<V>) -> bool,
)
    requires
        0 <= i < pre.len(),
        forall|j: int| 0 <= j < pre.len() ==> p(#[trigger] pre[j]),
        bucket_distinct(pre),
    ensures
        forall|j: int| 0 <= j < pre.remove(i).len() ==> p(#[trigger] pre.remove(i)[j]),
        bucket_distinct(pre.remove(i)),
{
    pre.remove_ensures(i);
    let rem = pre.remove(i);
    assert forall|j: int| 0 <= j < rem.len() implies p(rem[j]) by {
        if j < i {
            assert(rem[j] == pre[j]);
        } else {
            assert(rem[j] == pre[j + 1]);
        }
    }
    assert forall|j1: int, j2: int| 0 <= j1 < j2 < rem.len() implies rem[j1].key@
        != rem[j2].key@ by {
        if j1 < i {
            assert(rem[j1] == pre[j1]);
        } else {
            assert(rem[j1] == pre[j1 + 1]);
        }
        if j2 < i {
            assert(rem[j2] == pre[j2]);
        } else {
            assert(rem[j2] == pre[j2 + 1]);
        }
    }
}

/// Scans a bucket for a key; yields the index of the first entry holding it.
pub(crate) fn bucket_find<V>(b: &Vec<HashEntry<V>>, key: &[u8]) -> (r: Option<usize>)
    ensures
        match r {
            Some(i) => {
                &&& i < b@.len()
                &&& b@[i as int].key@ == key@
                &&& forall|j: int| 0 <= j < i ==> b@[j].key@ != key@
                &&& bucket_get(b@, key@) == Some(b@[i as int].val)
            },
            None => {
                &&& !bucket_has_key(b@, key@)
                &&& bucket_get(b@, key@) is None
            },
        },
{
    let mut i: usize = 0;
    while i < b.len()
        invariant
            i <= b@.len(),
            forall|j: int| 0 <= j < i ==> b@[j].key@ != key@,
        decreases b@.len() - i,
    {
        if bytes_eq(b[i].key.as_slice(), key) {
            proof {
                lemma_get_at_first_match(b@, key@, i as int);
            }
            return Some(i);
        }
        i = i + 1;
    }
    proof {
        lemma_get_no_match(b@, key@);
    }
    None
}

} // verus!
