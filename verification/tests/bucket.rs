use papaya::bucket::BucketArray;
use papaya::slot::Slot;
use papaya::table::InsertResult;

fn key_at(array: &BucketArray<u64, u64>, j: usize) -> Option<(u64, u64)> {
    array.entry_at(j).map(|(k, v)| (*k, *v))
}

#[test]
fn new_array_is_empty() {
    let array: BucketArray<u64, u64> = BucketArray::new(8);
    assert_eq!(array.capacity(), 8);
    assert_eq!(array.len(), 0);
    for j in 0..8 {
        assert!(matches!(array.cell(j), Slot::Empty));
        assert!(array.entry_at(j).is_none());
    }
    assert_eq!(array.find(3, &3), None);
}

#[test]
fn array_without_slots_finds_nothing() {
    let array: BucketArray<u64, u64> = BucketArray::new(0);
    assert_eq!(array.capacity(), 0);
    assert_eq!(array.len(), 0);
    assert_eq!(array.find(0, &0), None);
}

#[test]
fn entry_lands_at_home() {
    let mut array: BucketArray<u64, u64> = BucketArray::new(8);
    array.insert_new(5, 50, 500);
    assert_eq!(array.len(), 1);
    assert_eq!(array.find(5, &50), Some(5));
    assert_eq!(key_at(&array, 5), Some((50, 500)));
}

#[test]
fn colliding_entries_probe_linearly_and_wrap() {
    let mut array: BucketArray<u64, u64> = BucketArray::new(4);
    array.insert_new(3, 1, 10);
    array.insert_new(7, 2, 20);
    array.insert_new(11, 3, 30);
    assert_eq!(array.find(3, &1), Some(3));
    assert_eq!(array.find(7, &2), Some(0));
    assert_eq!(array.find(11, &3), Some(1));
    assert_eq!(array.len(), 3);
    assert!(matches!(array.cell(2), Slot::Empty));
}

#[test]
fn find_needs_hash_and_key_to_agree() {
    let mut array: BucketArray<u64, u64> = BucketArray::new(8);
    array.insert_new(1, 100, 7);
    assert_eq!(array.find(1, &100), Some(1));
    assert_eq!(array.find(9, &100), None);
    assert_eq!(array.find(1, &101), None);
}

#[test]
fn same_key_under_two_hashes_is_two_entries() {
    let mut array: BucketArray<u64, u64> = BucketArray::new(8);
    array.insert_new(1, 100, 7);
    array.insert_new(2, 100, 8);
    assert_eq!(array.len(), 2);
    assert_eq!(key_at(&array, 1), Some((100, 7)));
    assert_eq!(key_at(&array, 2), Some((100, 8)));
}

#[test]
fn vacate_leaves_a_tombstone_that_probes_pass() {
    let mut array: BucketArray<u64, u64> = BucketArray::new(4);
    array.insert_new(0, 1, 10);
    array.insert_new(0, 2, 20);
    let gone = array.vacate(0, false);
    let gone = gone.map(|e| (e.hash, e.key, e.value));
    assert_eq!(gone, Some((0, 1, 10)));
    assert!(matches!(array.cell(0), Slot::Tombstone));
    assert_eq!(array.len(), 1);
    assert_eq!(array.find(0, &1), None);
    assert_eq!(array.find(0, &2), Some(1));
}

#[test]
fn vacate_can_leave_a_forwarding_mark() {
    let mut array: BucketArray<u64, u64> = BucketArray::new(4);
    array.insert_new(2, 1, 10);
    let gone = array.vacate(2, true);
    assert!(gone.is_some());
    assert!(matches!(array.cell(2), Slot::Forwarded));
    assert_eq!(array.find(2, &1), None);
}

#[test]
fn vacate_of_a_slot_without_entry_does_nothing() {
    let mut array: BucketArray<u64, u64> = BucketArray::new(4);
    assert!(array.vacate(1, false).is_none());
    assert!(matches!(array.cell(1), Slot::Empty));
    array.insert_new(1, 1, 1);
    assert!(array.vacate(1, false).is_some());
    assert!(array.vacate(1, false).is_none());
    assert!(matches!(array.cell(1), Slot::Tombstone));
}

#[test]
fn tombstone_is_taken_by_the_next_entry_on_the_path() {
    let mut array: BucketArray<u64, u64> = BucketArray::new(8);
    array.insert_new(2, 1, 10);
    assert_eq!(array.find(2, &7), None);
    assert!(array.vacate(2, false).is_some());
    assert_eq!(array.find(2, &7), None);
    array.insert_new(2, 7, 70);
    assert_eq!(array.find(2, &7), Some(2));
    assert_eq!(array.find(2, &1), None);
    assert!(matches!(array.cell(3), Slot::Empty));
    assert_eq!(array.len(), 1);
}

#[test]
fn first_tombstone_is_preferred_to_a_later_empty_slot() {
    let mut array: BucketArray<u64, u64> = BucketArray::new(8);
    array.insert_new(0, 1, 10);
    array.insert_new(0, 2, 20);
    array.insert_new(0, 3, 30);
    assert!(array.vacate(0, false).is_some());
    assert!(array.vacate(1, false).is_some());
    array.insert_new(0, 4, 40);
    assert_eq!(array.find(0, &4), Some(0));
    assert!(matches!(array.cell(1), Slot::Tombstone));
    assert_eq!(array.find(0, &3), Some(2));
    assert!(matches!(array.cell(3), Slot::Empty));
}

#[test]
fn full_array_is_searched_once_round() {
    let mut array: BucketArray<u64, u64> = BucketArray::new(2);
    array.insert_new(0, 1, 10);
    array.insert_new(0, 2, 20);
    assert_eq!(array.len(), 2);
    assert_eq!(array.find(0, &3), None);
    assert_eq!(array.find(1, &2), None);
    assert_eq!(array.find(0, &2), Some(1));
}

#[test]
fn replace_at_swaps_the_value() {
    let mut array: BucketArray<u64, u64> = BucketArray::new(4);
    array.insert_new(1, 5, 50);
    assert_eq!(array.replace_at(1, 51), Ok(50));
    assert_eq!(key_at(&array, 1), Some((5, 51)));
    assert_eq!(array.replace_at(2, 99), Err(99));
    assert!(matches!(array.cell(2), Slot::Empty));
    assert_eq!(array.len(), 1);
}

#[test]
fn update_replaces_or_refuses_or_hands_back() {
    let mut array: BucketArray<u64, u64> = BucketArray::new(4);
    array.insert_new(1, 5, 50);
    assert!(matches!(array.update(1, &5, 51, true), Ok(InsertResult::Replaced(50))));
    assert_eq!(key_at(&array, 1), Some((5, 51)));
    assert!(matches!(
        array.update(1, &5, 52, false),
        Ok(InsertResult::Error { not_inserted: 52 })
    ));
    assert_eq!(key_at(&array, 1), Some((5, 51)));
    assert!(matches!(array.update(1, &6, 60, true), Err(60)));
    assert_eq!(array.len(), 1);
}

#[test]
fn bucket_retain_keeps_what_the_predicate_keeps() {
    let mut array: BucketArray<u64, u64> = BucketArray::new(16);
    for k in 0..10u64 {
        array.insert_new(k, k, k * 10);
    }
    array.retain(|k, v| *k % 2 == 0 && *v < 70);
    assert_eq!(array.len(), 4);
    for k in 0..10u64 {
        let kept = k % 2 == 0 && k * 10 < 70;
        assert_eq!(array.find(k, &k).is_some(), kept);
    }
    assert!(matches!(array.cell(1), Slot::Tombstone));
}

#[test]
fn bucket_retain_keys_looks_at_keys_only() {
    let mut array: BucketArray<u64, u64> = BucketArray::new(16);
    for k in 0..10u64 {
        array.insert_new(k, k, 0);
    }
    array.retain_keys(|k| *k >= 7);
    assert_eq!(array.len(), 3);
    assert_eq!(array.find(6, &6), None);
    assert_eq!(array.find(7, &7), Some(7));
}

/// A number that stands for every key of the same parity.
struct Parity(u64);

impl papaya::equality::Equivalent<u64> for Parity {
    fn equivalent(&self, key: &u64) -> bool {
        key % 2 == self.0 % 2
    }
}

#[test]
fn find_by_takes_the_first_entry_on_the_path_that_the_probe_stands_for() {
    let mut array: BucketArray<u64, u64> = BucketArray::new(8);
    array.insert_new(1, 3, 30);
    array.insert_new(1, 4, 40);
    array.insert_new(1, 5, 50);
    assert_eq!(array.find_by(1, &Parity(0)), Some(2));
    assert_eq!(array.find_by(1, &Parity(1)), Some(1));
    assert_eq!(array.find_by(2, &Parity(1)), None);
    assert!(array.vacate(1, false).is_some());
    assert_eq!(array.find_by(1, &Parity(1)), Some(3));
    assert_eq!(array.find_by(1, &4u64), Some(2));
}
