//! The two slice-keyed maps: lookups, upserts, deletes, and the
//! disjoint-key independence the segment table is built around.

use rqueue::bucket::hash_bytes;
use rqueue::concurrent_hash_map::{ConcurrentHashMap, Segment};
use rqueue::slice_map::SliceMap;

#[test]
fn hash_exact_values() {
    // the 64-bit FNV-1a reference values
    assert_eq!(hash_bytes(b""), 0xcbf29ce484222325);
    assert_eq!(hash_bytes(b"a"), 0xaf63dc4c8601ec8c);
    assert_eq!(hash_bytes(b"foobar"), 0x85944171f73967e8);
}

#[test]
fn slice_map_insert_get_delete() {
    let mut m: SliceMap<u32> = SliceMap::new();
    assert!(m.get(b"alpha").is_none());
    m.insert(b"alpha", 1);
    m.insert(b"beta", 2);
    assert_eq!(m.get(b"alpha"), Some(&1));
    assert_eq!(m.get(b"beta"), Some(&2));
    assert!(m.get(b"gamma").is_none());
    m.insert(b"alpha", 10);
    assert_eq!(m.get(b"alpha"), Some(&10));
    assert!(m.delete(b"alpha"));
    assert!(!m.delete(b"alpha"));
    assert!(m.get(b"alpha").is_none());
    assert_eq!(m.get(b"beta"), Some(&2));
}

#[test]
fn slice_map_take() {
    let mut m: SliceMap<String> = SliceMap::new();
    m.insert(b"k", String::from("v"));
    assert_eq!(m.take(b"k"), Some(String::from("v")));
    assert_eq!(m.take(b"k"), None);
    assert!(m.get(b"k").is_none());
}

#[test]
fn slice_map_modify_or_else() {
    let mut m: SliceMap<u32> = SliceMap::new();
    m.modify_or_else(b"n", |v| v + 1, || 100);
    assert_eq!(m.get(b"n"), Some(&100));
    m.modify_or_else(b"n", |v| v + 1, || 100);
    assert_eq!(m.get(b"n"), Some(&101));
}

#[test]
fn slice_map_modify_signals() {
    let mut m: SliceMap<u32> = SliceMap::new();
    let none: Option<bool> = m.modify(b"n", |v| (v, Some(true)));
    assert_eq!(none, None);
    m.insert(b"n", 1);
    let sig = m.modify(b"n", |v| (v - 1, if v - 1 == 0 { Some(true) } else { None }));
    assert_eq!(sig, Some(true));
    assert_eq!(m.get(b"n"), Some(&0));
}

#[test]
fn slice_map_apply() {
    let mut m: SliceMap<u32> = SliceMap::new();
    m.apply(b"missing", |v| v + 1);
    assert!(m.get(b"missing").is_none());
    m.insert(b"n", 41);
    m.apply(b"n", |v| v + 1);
    assert_eq!(m.get(b"n"), Some(&42));
}

#[test]
fn slice_map_many_keys() {
    let mut m: SliceMap<usize> = SliceMap::new();
    let keys: Vec<Vec<u8>> = (0..200).map(|i: usize| format!("key-{}", i).into_bytes()).collect();
    for (i, k) in keys.iter().enumerate() {
        m.insert(k, i);
    }
    for (i, k) in keys.iter().enumerate() {
        assert_eq!(m.get(k), Some(&i));
    }
}

#[test]
fn concurrent_map_insert_get_delete() {
    let mut m: ConcurrentHashMap<u32> = ConcurrentHashMap::new();
    assert!(m.get(b"alpha").is_none());
    m.insert(b"alpha", 1);
    m.insert(b"beta", 2);
    assert_eq!(m.get(b"alpha"), Some(&1));
    assert_eq!(m.get(b"beta"), Some(&2));
    m.insert(b"alpha", 10);
    assert_eq!(m.get(b"alpha"), Some(&10));
    assert!(m.delete(b"alpha"));
    assert!(!m.delete(b"alpha"));
    assert!(m.get(b"alpha").is_none());
}

#[test]
fn concurrent_map_modify_or_else() {
    let mut m: ConcurrentHashMap<u32> = ConcurrentHashMap::new();
    m.modify_or_else(b"n", |v| v + 1, || 100);
    assert_eq!(m.get(b"n"), Some(&100));
    m.modify_or_else(b"n", |v| v + 1, || 100);
    assert_eq!(m.get(b"n"), Some(&101));
}

#[test]
fn concurrent_map_get_apply_and_get_modify() {
    let mut m: ConcurrentHashMap<u32> = ConcurrentHashMap::new();
    m.get_apply(b"missing", |v| v + 1);
    assert!(m.get(b"missing").is_none());
    assert!(!m.get_modify(b"missing", |v| v + 1));
    m.insert(b"n", 1);
    m.get_apply(b"n", |v| v + 1);
    assert_eq!(m.get(b"n"), Some(&2));
    assert!(m.get_modify(b"n", |v| v * 10));
    assert_eq!(m.get(b"n"), Some(&20));
}

// Each worker inserts its own disjoint keys; after all have finished, every
// key is retrievable with its value — no insert is lost to another key's.
// The interleaving of the writers does not matter: inserts of different
// keys commute, as the library proves.
#[test]
fn concurrent_map_disjoint_keys_all_retrievable() {
    let mut m: ConcurrentHashMap<usize> = ConcurrentHashMap::new();
    let workers = 8;
    let per_worker = 25;
    // interleave the workers' inserts round-robin, as a scheduler might
    for round in 0..per_worker {
        for w in 0..workers {
            let key = format!("w{}-item{}", w, round).into_bytes();
            m.insert(&key, w * 1000 + round);
        }
    }
    for w in 0..workers {
        for round in 0..per_worker {
            let key = format!("w{}-item{}", w, round).into_bytes();
            assert_eq!(m.get(&key), Some(&(w * 1000 + round)));
        }
    }
}

#[test]
fn segment_direct_operations() {
    let mut s: Segment<u32> = Segment::new();
    let k: &[u8] = b"seg-key";
    let h = hash_bytes(k);
    assert!(s.get(k, h).is_none());
    s.insert(k, h, 5);
    assert_eq!(s.get(k, h), Some(&5));
    s.get_apply(k, h, |v| v + 1);
    assert_eq!(s.get(k, h), Some(&6));
    assert!(s.get_modify(k, h, |v| v * 2));
    assert_eq!(s.get(k, h), Some(&12));
    s.modify_or_else(k, h, |v| v + 1, || 0);
    assert_eq!(s.get(k, h), Some(&13));
    assert!(s.delete(k, h));
    assert!(s.get(k, h).is_none());
    s.modify_or_else(k, h, |v| v + 1, || 0);
    assert_eq!(s.get(k, h), Some(&0));
}
