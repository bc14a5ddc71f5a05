use papaya::map::ResizeMode;
use papaya::set::HashSet;
use papaya::table::{InsertResult, Table};

#[test]
fn thousand_keys_in_then_out_in_eight_strides() {
    let mut set: HashSet<u64> = HashSet::with_capacity(0);
    assert_eq!(set.capacity(), 0);
    for k in 1..=1000u64 {
        assert!(set.insert(k));
    }
    assert_eq!(set.len(), 1000);
    for worker in 0..8u64 {
        for k in 1..=1000u64 {
            if k % 8 == worker {
                assert!(set.remove(&k));
            }
        }
    }
    assert_eq!(set.len(), 0);
    for k in 1..=1000u64 {
        assert!(!set.contains(&k));
    }
}

#[test]
fn thousand_keys_out_with_the_strides_taking_turns() {
    let mut set: HashSet<u64> = HashSet::with_capacity(0);
    for k in 1..=1000u64 {
        assert!(set.insert(k));
    }
    let mut next: Vec<u64> = (0..8).map(|w| if w == 0 { 8 } else { w }).collect();
    let mut left = 1000;
    while left > 0 {
        for worker in 0..8 {
            if next[worker] <= 1000 {
                assert!(set.remove(&next[worker]));
                next[worker] += 8;
                left -= 1;
            }
        }
    }
    assert_eq!(set.len(), 0);
    assert!(set.is_empty());
    for k in 1..=1000u64 {
        assert!(!set.contains(&k));
    }
}

#[test]
fn three_keys_in_a_set_for_two_grow_it_once() {
    for mode in [ResizeMode::Blocking, ResizeMode::Incremental(64), ResizeMode::Incremental(1)] {
        let mut set: HashSet<&str> = HashSet::builder().capacity(2).resize_mode(mode).build();
        assert_eq!(set.capacity(), 2);
        assert!(set.insert("one"));
        assert_eq!(set.capacity(), 2);
        assert!(set.insert("two"));
        assert_eq!(set.capacity(), 2);
        assert!(set.insert("three"));
        assert_eq!(set.capacity(), 4);
        assert_eq!(set.get(&"one"), Some(&"one"));
        assert_eq!(set.get(&"two"), Some(&"two"));
        assert_eq!(set.get(&"three"), Some(&"three"));
        assert_eq!(set.len(), 3);
    }
}

#[test]
fn eight_writers_with_their_own_keys_lose_nothing() {
    for mode in [ResizeMode::Blocking, ResizeMode::Incremental(1), ResizeMode::Incremental(64)] {
        let mut table: Table<u64, u64> = Table::new(0, mode);
        let writers = 8u64;
        let each = 250u64;
        for round in 0..each {
            for writer in 0..writers {
                let key = writer * each + round;
                assert!(matches!(table.insert(key, key, writer, true), InsertResult::Inserted));
            }
        }
        assert_eq!(table.len() as u64, writers * each);
        for key in 0..writers * each {
            assert_eq!(table.get(key, &key).map(|(_, v)| *v), Some(key / each));
        }
    }
}

#[test]
fn key_stays_found_while_the_table_grows_around_it() {
    for mode in [ResizeMode::Blocking, ResizeMode::Incremental(1), ResizeMode::Incremental(5)] {
        let mut table: Table<u64, &str> = Table::new(0, mode);
        table.insert(77, 77, "kept", true);
        for k in 1000..3000u64 {
            table.insert(k, k, "other", true);
            assert_eq!(table.get(77, &77).map(|(_, v)| *v), Some("kept"));
        }
        assert!(table.target() >= 2048);
    }
}

/// A small generator of numbers that look random and are the same every run.
struct Lcg(u64);

impl Lcg {
    fn next(&mut self) -> u64 {
        self.0 = self.0.wrapping_mul(6364136223846793005).wrapping_add(1442695040888963407);
        self.0 >> 33
    }
}

#[test]
fn history_agrees_with_a_map_of_the_standard_library() {
    for mode in [ResizeMode::Blocking, ResizeMode::Incremental(2), ResizeMode::Incremental(64)] {
        let mut table: Table<u64, u64> = Table::new(0, mode);
        let mut model: std::collections::HashMap<u64, u64> = std::collections::HashMap::new();
        let mut rng = Lcg(2024);
        for step in 0..20000u64 {
            let key = rng.next() % 300;
            let hash = key % 16;
            match rng.next() % 4 {
                0 => {
                    let expected = model.insert(key, step);
                    match table.insert(hash, key, step, true) {
                        InsertResult::Inserted => assert_eq!(expected, None),
                        InsertResult::Replaced(old) => assert_eq!(expected, Some(old)),
                        InsertResult::Error { .. } => panic!("a replacing insert was refused"),
                    }
                }
                1 => {
                    let present = model.contains_key(&key);
                    match table.insert(hash, key, step, false) {
                        InsertResult::Inserted => {
                            assert!(!present);
                            model.insert(key, step);
                        }
                        InsertResult::Error { not_inserted } => {
                            assert!(present);
                            assert_eq!(not_inserted, step);
                        }
                        InsertResult::Replaced(_) => panic!("an insert replaced without leave"),
                    }
                }
                2 => {
                    let expected = model.remove(&key).map(|v| (key, v));
                    assert_eq!(table.remove(hash, &key), expected);
                }
                _ => {
                    let expected = model.get(&key).copied();
                    assert_eq!(table.get(hash, &key).map(|(_, v)| *v), expected);
                }
            }
            assert_eq!(table.len(), model.len());
        }
        let mut left = Vec::new();
        let mut iter = table.iter();
        while let Some((_, k, v)) = iter.next() {
            left.push((*k, *v));
        }
        left.sort();
        let mut expected: Vec<(u64, u64)> = model.into_iter().collect();
        expected.sort();
        assert_eq!(left, expected);
    }
}

#[test]
fn borrowed_key_stays_readable_for_as_long_as_it_is_held() {
    let mut set: HashSet<String> = HashSet::new();
    for k in 0..100 {
        set.insert(format!("key {k}"));
    }
    let probe = String::from("key 42");
    let held = set.get(&probe).unwrap();
    for _ in 0..1000 {
        assert!(set.contains(&String::from("key 7")));
        assert_eq!(held, "key 42");
    }
    let copy = held.clone();
    for k in 0..100 {
        set.remove(&format!("key {k}"));
    }
    assert_eq!(copy, "key 42");
    assert!(set.is_empty());
}
