use papaya::map::ResizeMode;
use papaya::table::{InsertResult, Table};

fn get(table: &Table<u64, u64>, hash: u64, key: u64) -> Option<u64> {
    table.get(hash, &key).map(|(_, v)| *v)
}

fn put(table: &mut Table<u64, u64>, key: u64, value: u64) {
    assert!(matches!(table.insert(key, key, value, true), InsertResult::Inserted));
}

#[test]
fn new_table_takes_the_capacity_that_fits() {
    let table: Table<u64, u64> = Table::new(0, ResizeMode::Blocking);
    assert_eq!(table.capacity(), 0);
    assert_eq!(table.target(), 0);
    assert_eq!(table.len(), 0);
    assert!(!table.is_migrating());
    assert_eq!(table.mode(), ResizeMode::Blocking);
    let table: Table<u64, u64> = Table::new(3, ResizeMode::Incremental(8));
    assert_eq!(table.capacity(), 4);
    assert_eq!(table.mode(), ResizeMode::Incremental(8));
    let table: Table<u64, u64> = Table::new(100, ResizeMode::Blocking);
    assert_eq!(table.capacity(), 256);
}

#[test]
fn insert_reports_inserted_then_replaced() {
    let mut table: Table<u64, u64> = Table::new(8, ResizeMode::Blocking);
    assert!(matches!(table.insert(1, 10, 100, true), InsertResult::Inserted));
    assert_eq!(get(&table, 1, 10), Some(100));
    assert!(matches!(table.insert(1, 10, 101, true), InsertResult::Replaced(100)));
    assert_eq!(get(&table, 1, 10), Some(101));
    assert_eq!(table.len(), 1);
}

#[test]
fn insert_that_may_not_replace_leaves_the_entry() {
    let mut table: Table<u64, u64> = Table::new(8, ResizeMode::Blocking);
    assert!(matches!(table.insert(1, 10, 100, false), InsertResult::Inserted));
    assert!(matches!(
        table.insert(1, 10, 999, false),
        InsertResult::Error { not_inserted: 999 }
    ));
    assert_eq!(get(&table, 1, 10), Some(100));
    assert_eq!(table.len(), 1);
}

#[test]
fn get_of_an_absent_key_is_none() {
    let mut table: Table<u64, u64> = Table::new(8, ResizeMode::Blocking);
    assert_eq!(get(&table, 1, 10), None);
    put(&mut table, 10, 1);
    assert_eq!(get(&table, 11, 10), None);
    assert_eq!(get(&table, 10, 11), None);
    assert!(table.contains(10, &10));
    assert!(!table.contains(10, &11));
}

#[test]
fn get_hands_back_the_stored_key() {
    let mut table: Table<String, u64> = Table::new(4, ResizeMode::Blocking);
    table.insert(3, String::from("three"), 3, true);
    let probe = String::from("three");
    let (k, v) = table.get(3, &probe).unwrap();
    assert_eq!(k, "three");
    assert_eq!(*v, 3);
}

#[test]
fn remove_hands_back_the_entry_once() {
    let mut table: Table<u64, u64> = Table::new(8, ResizeMode::Blocking);
    put(&mut table, 5, 50);
    assert_eq!(table.remove(5, &5), Some((5, 50)));
    assert_eq!(table.remove(5, &5), None);
    assert_eq!(get(&table, 5, 5), None);
    assert_eq!(table.len(), 0);
}

#[test]
fn remove_does_not_change_the_capacity() {
    let mut table: Table<u64, u64> = Table::new(0, ResizeMode::Blocking);
    for k in 0..100 {
        put(&mut table, k, k);
    }
    let capacity = table.capacity();
    for k in 0..100 {
        assert_eq!(table.remove(k, &k), Some((k, k)));
        assert_eq!(table.target(), capacity);
    }
    assert_eq!(table.len(), 0);
}

#[test]
fn blocking_table_grows_when_a_new_key_meets_the_threshold() {
    let mut table: Table<u64, u64> = Table::new(0, ResizeMode::Blocking);
    let mut expected = 0usize;
    for k in 0..200u64 {
        let len = table.len();
        if len == expected - expected / 4 {
            expected = if expected == 0 { 1 } else { 2 * expected };
        }
        put(&mut table, k, k);
        assert_eq!(table.capacity(), expected);
        assert!(!table.is_migrating());
    }
    assert_eq!(table.capacity(), 512);
    for k in 0..200u64 {
        assert_eq!(get(&table, k, k), Some(k));
    }
}

#[test]
fn replacing_at_the_threshold_does_not_grow() {
    let mut table: Table<u64, u64> = Table::new(3, ResizeMode::Blocking);
    put(&mut table, 1, 1);
    put(&mut table, 2, 2);
    put(&mut table, 3, 3);
    assert_eq!(table.capacity(), 4);
    assert!(matches!(table.insert(2, 2, 20, true), InsertResult::Replaced(2)));
    assert_eq!(table.capacity(), 4);
    put(&mut table, 4, 4);
    assert_eq!(table.capacity(), 8);
}

#[test]
fn incremental_table_moves_a_slice_with_every_change() {
    let mut table: Table<u64, u64> = Table::new(12, ResizeMode::Incremental(4));
    assert_eq!(table.capacity(), 16);
    for k in 0..12 {
        put(&mut table, k, k + 100);
    }
    assert!(!table.is_migrating());
    put(&mut table, 12, 112);
    assert!(table.is_migrating());
    assert_eq!(table.capacity(), 16);
    assert_eq!(table.target(), 32);
    for k in 0..13 {
        assert_eq!(get(&table, k, k), Some(k + 100));
    }
    assert_eq!(table.len(), 13);
    table.help();
    assert!(table.is_migrating());
    for k in 0..13 {
        assert_eq!(get(&table, k, k), Some(k + 100));
    }
    table.help();
    assert!(table.is_migrating());
    table.help();
    assert!(!table.is_migrating());
    assert_eq!(table.capacity(), 32);
    for k in 0..13 {
        assert_eq!(get(&table, k, k), Some(k + 100));
    }
    assert_eq!(table.len(), 13);
}

#[test]
fn entries_are_found_in_every_state_of_a_migration() {
    let mut table: Table<u64, u64> = Table::new(48, ResizeMode::Incremental(2));
    assert_eq!(table.capacity(), 64);
    for k in 0..48 {
        put(&mut table, k, k);
    }
    put(&mut table, 48, 48);
    assert!(table.is_migrating());
    assert_eq!(table.moved(), 2);
    let mut steps = 0;
    while table.is_migrating() {
        for k in 0..49 {
            assert_eq!(get(&table, k, k), Some(k));
        }
        assert_eq!(get(&table, 49, 49), None);
        assert_eq!(table.len(), 49);
        assert_eq!(table.moved(), 2 + 2 * steps);
        table.help();
        steps += 1;
    }
    assert_eq!(steps, 31);
    assert_eq!(table.moved(), 0);
    assert_eq!(table.capacity(), 128);
    for k in 0..49 {
        assert_eq!(get(&table, k, k), Some(k));
    }
}

#[test]
fn changes_during_a_migration_are_kept() {
    let mut table: Table<u64, u64> = Table::new(48, ResizeMode::Incremental(2));
    for k in 0..49 {
        put(&mut table, k, k);
    }
    assert!(table.is_migrating());
    assert!(matches!(table.insert(40, 40, 4000, true), InsertResult::Replaced(40)));
    assert!(matches!(table.insert(3, 3, 300, true), InsertResult::Replaced(3)));
    assert_eq!(table.remove(41, &41), Some((41, 41)));
    assert_eq!(table.remove(2, &2), Some((2, 2)));
    put(&mut table, 1000, 1);
    assert!(matches!(
        table.insert(1000, 1000, 2, false),
        InsertResult::Error { not_inserted: 2 }
    ));
    assert!(table.is_migrating());
    while table.is_migrating() {
        table.help();
    }
    assert_eq!(get(&table, 40, 40), Some(4000));
    assert_eq!(get(&table, 3, 3), Some(300));
    assert_eq!(get(&table, 41, 41), None);
    assert_eq!(get(&table, 2, 2), None);
    assert_eq!(get(&table, 1000, 1000), Some(1));
    assert_eq!(table.len(), 48);
}

#[test]
fn slice_below_two_is_taken_as_two() {
    for n in [0, 1, 2] {
        let mut table: Table<u64, u64> = Table::new(6, ResizeMode::Incremental(n));
        assert_eq!(table.capacity(), 8);
        for k in 0..7 {
            put(&mut table, k, k);
        }
        assert!(table.is_migrating());
        assert_eq!(table.moved(), 2);
        table.help();
        assert_eq!(table.moved(), 4);
        table.help();
        assert_eq!(table.moved(), 6);
        table.help();
        assert!(!table.is_migrating());
        assert_eq!(table.moved(), 0);
        assert_eq!(table.capacity(), 16);
    }
}

#[test]
fn every_change_moves_one_slice_and_no_more() {
    let mut table: Table<u64, u64> = Table::new(96, ResizeMode::Incremental(8));
    assert_eq!(table.capacity(), 128);
    for k in 0..97 {
        put(&mut table, k, k);
    }
    assert!(table.is_migrating());
    assert_eq!(table.moved(), 8);
    put(&mut table, 1000, 0);
    assert_eq!(table.moved(), 16);
    assert!(matches!(table.insert(1000, 1000, 1, true), InsertResult::Replaced(0)));
    assert_eq!(table.moved(), 24);
    assert_eq!(table.remove(1000, &1000), Some((1000, 1)));
    assert_eq!(table.moved(), 32);
    assert_eq!(table.remove(1000, &1000), None);
    assert_eq!(table.moved(), 40);
    assert_eq!(get(&table, 5, 5), Some(5));
    assert!(table.contains(6, &6));
    assert_eq!(table.len(), 97);
    assert_eq!(table.moved(), 40);
    assert_eq!(table.capacity(), 128);
    assert_eq!(table.target(), 256);
}

#[test]
fn blocking_help_finishes_nothing_and_changes_nothing() {
    let mut table: Table<u64, u64> = Table::new(3, ResizeMode::Blocking);
    put(&mut table, 1, 1);
    table.help();
    assert_eq!(table.capacity(), 4);
    assert_eq!(get(&table, 1, 1), Some(1));
}

#[test]
fn growth_keeps_pace_with_the_smallest_slice() {
    let mut table: Table<u64, u64> = Table::new(0, ResizeMode::Incremental(1));
    let mut target = 0;
    for k in 0..5000u64 {
        let at_threshold = table.len() == target - target / 4;
        let was_migrating = table.is_migrating();
        put(&mut table, k, k);
        assert_eq!(table.len() as u64, k + 1);
        if at_threshold {
            assert!(!was_migrating);
            target = if target == 0 { 1 } else { 2 * target };
        }
        assert_eq!(table.target(), target);
    }
    for k in 0..5000u64 {
        assert_eq!(get(&table, k, k), Some(k));
    }
    assert!(table.target() >= 8192);
}

#[test]
fn reserve_grows_once_to_the_capacity_that_fits() {
    let mut table: Table<u64, u64> = Table::new(0, ResizeMode::Blocking);
    table.reserve(0);
    assert_eq!(table.capacity(), 0);
    table.reserve(10);
    assert_eq!(table.capacity(), 16);
    for k in 0..10 {
        put(&mut table, k, k);
        assert_eq!(table.capacity(), 16);
    }
    table.reserve(2);
    assert_eq!(table.capacity(), 16);
    table.reserve(3);
    assert_eq!(table.capacity(), 32);
    table.reserve(1000);
    assert_eq!(table.capacity(), 2048);
    for k in 0..10 {
        assert_eq!(get(&table, k, k), Some(k));
    }
}

#[test]
fn reserve_in_incremental_mode_starts_a_migration() {
    let mut table: Table<u64, u64> = Table::new(40, ResizeMode::Incremental(4));
    for k in 0..40 {
        put(&mut table, k, k);
    }
    assert_eq!(table.capacity(), 64);
    table.reserve(100);
    assert_eq!(table.target(), 256);
    assert!(table.is_migrating());
    table.reserve(500);
    assert_eq!(table.target(), 1024);
    for k in 0..40 {
        assert_eq!(get(&table, k, k), Some(k));
    }
    assert_eq!(table.len(), 40);
}

#[test]
fn clear_removes_every_entry_and_keeps_the_capacity() {
    let mut table: Table<u64, u64> = Table::new(0, ResizeMode::Incremental(2));
    for k in 0..100 {
        put(&mut table, k, k);
    }
    let target = table.target();
    table.clear();
    assert_eq!(table.len(), 0);
    assert!(!table.is_migrating());
    assert_eq!(table.capacity(), target);
    for k in 0..100 {
        assert_eq!(get(&table, k, k), None);
    }
    put(&mut table, 1, 1);
    assert_eq!(get(&table, 1, 1), Some(1));
}

#[test]
fn table_retain_finishes_the_migration_and_filters() {
    let mut table: Table<u64, u64> = Table::new(12, ResizeMode::Incremental(1));
    for k in 0..13 {
        put(&mut table, k, k * 2);
    }
    assert!(table.is_migrating());
    table.retain(|k, v| *k % 3 == 0 || *v == 2);
    assert!(!table.is_migrating());
    assert_eq!(table.capacity(), 32);
    let kept: Vec<u64> = (0..13).filter(|k| get(&table, *k, *k).is_some()).collect();
    assert_eq!(kept, vec![0, 1, 3, 6, 9, 12]);
    assert_eq!(table.len(), 6);
}

#[test]
fn table_retain_keys_filters_by_key() {
    let mut table: Table<u64, u64> = Table::new(0, ResizeMode::Blocking);
    for k in 0..20 {
        put(&mut table, k, 0);
    }
    table.retain_keys(|k| *k < 5);
    assert_eq!(table.len(), 5);
    assert!(table.contains(4, &4));
    assert!(!table.contains(5, &5));
}

#[test]
fn walk_meets_every_entry_once() {
    let mut table: Table<u64, u64> = Table::new(12, ResizeMode::Incremental(3));
    for k in 0..14 {
        put(&mut table, k, k + 1);
    }
    assert!(table.is_migrating());
    let mut seen = Vec::new();
    let mut iter = table.iter();
    while let Some((hash, key, value)) = iter.next() {
        assert_eq!(hash, *key);
        assert_eq!(*value, *key + 1);
        seen.push(*key);
    }
    assert!(iter.next().is_none());
    seen.sort();
    assert_eq!(seen, (0..14).collect::<Vec<u64>>());
}

#[test]
fn walk_of_an_empty_table_ends_at_once() {
    let table: Table<u64, u64> = Table::new(0, ResizeMode::Blocking);
    assert!(table.iter().next().is_none());
    let table: Table<u64, u64> = Table::new(16, ResizeMode::Blocking);
    assert!(table.iter().next().is_none());
}

#[test]
fn tombstones_are_taken_again_without_growth() {
    let mut table: Table<u64, u64> = Table::new(3, ResizeMode::Blocking);
    assert_eq!(table.capacity(), 4);
    for round in 0..1000u64 {
        put(&mut table, round, round);
        assert_eq!(table.remove(round, &round), Some((round, round)));
    }
    assert_eq!(table.capacity(), 4);
    assert_eq!(table.len(), 0);
}

#[test]
fn key_inserted_after_a_removed_key_with_the_same_hash() {
    let mut table: Table<u64, u64> = Table::new(8, ResizeMode::Blocking);
    assert!(matches!(table.insert(9, 1, 10, true), InsertResult::Inserted));
    assert_eq!(table.remove(9, &1), Some((1, 10)));
    assert_eq!(get(&table, 9, 2), None);
    assert!(matches!(table.insert(9, 2, 20, true), InsertResult::Inserted));
    assert_eq!(get(&table, 9, 2), Some(20));
    assert_eq!(get(&table, 9, 1), None);
    assert_eq!(table.len(), 1);
}

/// A number that stands for the key twice as large.
struct Half(u64);

impl papaya::equality::Equivalent<u64> for Half {
    fn equivalent(&self, key: &u64) -> bool {
        *key == 2 * self.0
    }
}

#[test]
fn table_is_searched_by_a_value_that_stands_for_a_key() {
    let mut table: Table<u64, u64> = Table::new(12, ResizeMode::Incremental(2));
    for k in 0..13 {
        put(&mut table, k, k * 100);
    }
    assert!(table.is_migrating());
    assert_eq!(table.get_by(6, &Half(3)).map(|(k, v)| (*k, *v)), Some((6, 600)));
    assert_eq!(table.get_by(12, &Half(6)).map(|(k, v)| (*k, *v)), Some((12, 1200)));
    assert_eq!(table.get_by(7, &Half(3)).map(|(k, v)| (*k, *v)), None);
    assert_eq!(table.remove_by(6, &Half(3)), Some((6, 600)));
    assert_eq!(table.remove_by(6, &Half(3)), None);
    assert_eq!(get(&table, 6, 6), None);
    assert_eq!(table.len(), 12);
}
