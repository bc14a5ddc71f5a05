use papaya::map::ResizeMode;
use papaya::raw::HashMap;
use papaya::table::InsertResult;
use std::hash::{BuildHasher, Hasher};

/// Hashes a `u64` to three times itself.
#[derive(Clone, Default)]
struct Triple;

struct TripleHasher(u64);

impl Hasher for TripleHasher {
    fn finish(&self) -> u64 {
        self.0
    }

    fn write(&mut self, bytes: &[u8]) {
        let mut n: u64 = 0;
        for (i, b) in bytes.iter().enumerate().take(8) {
            n |= (*b as u64) << (8 * i);
        }
        self.0 = n.wrapping_mul(3);
    }
}

impl BuildHasher for Triple {
    type Hasher = TripleHasher;

    fn build_hasher(&self) -> TripleHasher {
        TripleHasher(0)
    }
}

fn new_map(capacity: usize) -> HashMap<u64, u64, Triple> {
    HashMap::new(capacity, Triple, ResizeMode::Blocking)
}

#[test]
fn keyed_insert_stores_under_the_hash_of_the_hasher() {
    let mut map = new_map(8);
    assert!(matches!(map.insert(5, 50, true), InsertResult::Inserted));
    assert_eq!(map.get_hashed(15, &5).map(|(k, v)| (*k, *v)), Some((5, 50)));
    assert_eq!(map.get_hashed(5, &5).map(|(k, v)| (*k, *v)), None);
    assert_eq!(map.table().get(15, &5).map(|(_, v)| *v), Some(50));
}

#[test]
fn keyed_get_finds_what_keyed_insert_stored() {
    let mut map = new_map(0);
    for k in 0..100u64 {
        assert!(matches!(map.insert(k, k + 1, true), InsertResult::Inserted));
    }
    for k in 0..100u64 {
        assert_eq!(map.get(&k).map(|(k, v)| (*k, *v)), Some((k, k + 1)));
    }
    assert!(map.get(&100).is_none());
    assert_eq!(map.len(), 100);
}

#[test]
fn keyed_get_finds_what_was_stored_under_the_hash() {
    let mut map = new_map(8);
    assert!(matches!(map.insert_hashed(21, 7, 70, true), InsertResult::Inserted));
    assert_eq!(map.get(&7).map(|(_, v)| *v), Some(70));
    assert!(matches!(map.insert(7, 71, true), InsertResult::Replaced(70)));
    assert_eq!(map.len(), 1);
}

#[test]
fn keyed_insert_can_refuse_to_replace() {
    let mut map = new_map(8);
    assert!(matches!(map.insert(1, 10, false), InsertResult::Inserted));
    assert!(matches!(map.insert(1, 11, false), InsertResult::Error { not_inserted: 11 }));
    assert_eq!(map.get(&1).map(|(_, v)| *v), Some(10));
}

#[test]
fn keyed_remove_takes_the_entry_out() {
    let mut map = new_map(8);
    map.insert(1, 10, true);
    assert_eq!(map.remove(&1), Some((1, 10)));
    assert_eq!(map.remove(&1), None);
    assert!(map.get(&1).is_none());
    map.insert(2, 20, true);
    assert_eq!(map.remove_hashed(2, &2), None);
    assert_eq!(map.remove_hashed(6, &2), Some((2, 20)));
}

#[test]
fn map_keeps_its_hasher_and_mode() {
    let map: HashMap<u64, u64, Triple> = HashMap::new(10, Triple, ResizeMode::Incremental(7));
    assert_eq!(map.hasher().hash_one(4u64), 12);
    assert_eq!(map.table().mode(), ResizeMode::Incremental(7));
    assert_eq!(map.table().capacity(), 16);
    assert_eq!(map.len(), 0);
}

#[test]
fn map_reserve_clear_and_retain() {
    let mut map = new_map(0);
    map.reserve(20);
    assert_eq!(map.table().capacity(), 32);
    for k in 0..20u64 {
        map.insert(k, k, true);
    }
    assert_eq!(map.table().capacity(), 32);
    map.retain(|k, v| *k == *v && *k < 10);
    assert_eq!(map.len(), 10);
    map.retain_keys(|k| *k != 0);
    assert_eq!(map.len(), 9);
    assert!(map.get(&0).is_none());
    assert!(map.get(&9).is_some());
    map.clear();
    assert_eq!(map.len(), 0);
    assert_eq!(map.table().capacity(), 32);
}

#[test]
fn map_walk_yields_hash_key_and_value() {
    let mut map = new_map(0);
    for k in 1..=10u64 {
        map.insert(k, k * k, true);
    }
    let mut seen = Vec::new();
    let mut iter = map.iter();
    while let Some((hash, key, value)) = iter.next() {
        assert_eq!(hash, 3 * *key);
        assert_eq!(*value, *key * *key);
        seen.push(*key);
    }
    seen.sort();
    assert_eq!(seen, (1..=10).collect::<Vec<u64>>());
}
