use papaya::map::ResizeMode;
use papaya::keys::reservation_for;
use papaya::set::HashSet;
use std::collections::hash_map::RandomState;
use std::hash::{BuildHasher, Hasher};

/// Hashes a `u64` to itself.
#[derive(Clone, Default)]
struct Plain;

struct PlainHasher(u64);

impl Hasher for PlainHasher {
    fn finish(&self) -> u64 {
        self.0
    }

    fn write(&mut self, bytes: &[u8]) {
        let mut n: u64 = 0;
        for (i, b) in bytes.iter().enumerate().take(8) {
            n |= (*b as u64) << (8 * i);
        }
        self.0 = n;
    }
}

impl BuildHasher for Plain {
    type Hasher = PlainHasher;

    fn build_hasher(&self) -> PlainHasher {
        PlainHasher(0)
    }
}

fn sorted(set: &HashSet<u64, Plain>) -> Vec<u64> {
    let mut keys = Vec::new();
    let mut iter = set.iter();
    while let Some(k) = iter.next() {
        keys.push(*k);
    }
    keys.sort();
    keys
}

#[test]
fn new_set_is_empty_and_has_no_slots() {
    let set: HashSet<&str> = HashSet::new();
    assert_eq!(set.len(), 0);
    assert!(set.is_empty());
    assert_eq!(set.capacity(), 0);
    assert!(set.iter().next().is_none());
}

#[test]
fn with_capacity_sizes_the_set() {
    let set: HashSet<&str> = HashSet::with_capacity(10);
    assert_eq!(set.capacity(), 16);
    assert!(set.is_empty());
    let set: HashSet<u64> = HashSet::with_capacity(0);
    assert_eq!(set.capacity(), 0);
}

#[test]
fn with_hasher_uses_the_hasher() {
    let mut set = HashSet::with_hasher(Plain);
    assert!(set.insert(1u64));
    assert!(set.contains_hashed(1, &1));
    assert_eq!(set.hasher().hash_one(9u64), 9);
    let s = RandomState::new();
    let mut set = HashSet::with_hasher(s);
    set.pin().insert(1);
    assert!(set.contains(&1));
}

#[test]
fn with_capacity_and_hasher_does_both() {
    let s = RandomState::new();
    let mut set = HashSet::with_capacity_and_hasher(10, s);
    assert_eq!(set.capacity(), 16);
    set.pin().insert(1);
    assert_eq!(set.len(), 1);
}

#[test]
fn default_set_is_empty() {
    let set: HashSet<u64, Plain> = HashSet::default();
    assert!(set.is_empty());
    assert_eq!(set.capacity(), 0);
}

#[test]
fn len_counts_the_keys() {
    let mut set = HashSet::new();
    set.pin().insert(1);
    set.pin().insert(2);
    assert!(set.len() == 2);
}

#[test]
fn is_empty_until_a_key_is_in() {
    let mut set = HashSet::new();
    assert!(set.is_empty());
    set.pin().insert("a");
    assert!(!set.is_empty());
}

#[test]
fn contains_says_whether_a_key_is_in() {
    let mut set = HashSet::new();
    set.pin().insert(1);
    assert_eq!(set.pin().contains(&1), true);
    assert_eq!(set.pin().contains(&2), false);
    assert_eq!(set.contains(&1), true);
    assert_eq!(set.contains(&2), false);
}

#[test]
fn set_get_hands_back_the_stored_key() {
    let mut set = HashSet::new();
    set.pin().insert(1);
    assert_eq!(set.pin().get(&1), Some(&1));
    assert_eq!(set.pin().get(&2), None);
    assert_eq!(set.get(&1), Some(&1));
    assert_eq!(set.get(&2), None);
}

#[test]
fn insert_says_whether_the_key_was_new() {
    let mut set = HashSet::new();
    assert_eq!(set.pin().insert(37), true);
    assert_eq!(set.pin().is_empty(), false);
    set.pin().insert(37);
    assert_eq!(set.pin().insert(37), false);
    assert_eq!(set.pin().get(&37), Some(&37));
    assert_eq!(set.len(), 1);
}

#[test]
fn remove_says_whether_the_key_was_there() {
    let mut set = HashSet::new();
    set.pin().insert(1);
    assert_eq!(set.pin().remove(&1), true);
    assert_eq!(set.pin().remove(&1), false);
    assert_eq!(set.get(&1), None);
    assert!(set.is_empty());
}

#[test]
fn insert_then_get_and_remove_then_get() {
    let mut set: HashSet<String> = HashSet::new();
    for k in ["alpha", "beta", "gamma"] {
        assert!(set.insert(String::from(k)));
        assert_eq!(set.get(&String::from(k)).map(|s| s.as_str()), Some(k));
    }
    assert!(set.remove(&String::from("beta")));
    assert_eq!(set.get(&String::from("beta")), None);
    assert!(set.contains(&String::from("alpha")));
    assert!(set.contains(&String::from("gamma")));
    assert_eq!(set.len(), 2);
}

#[test]
fn hashed_operations_take_the_hash_from_the_caller() {
    let mut set: HashSet<u64, Plain> = HashSet::with_hasher(Plain);
    assert!(set.insert_hashed(100, 1));
    assert!(!set.insert_hashed(100, 1));
    assert!(set.contains_hashed(100, &1));
    assert!(!set.contains_hashed(1, &1));
    assert_eq!(set.get_hashed(100, &1), Some(&1));
    assert_eq!(set.get_hashed(101, &1), None);
    assert!(!set.contains(&1));
    assert!(!set.remove_hashed(1, &1));
    assert!(set.remove_hashed(100, &1));
    assert!(set.is_empty());
}

#[test]
fn reserve_makes_room() {
    let mut set: HashSet<&str> = HashSet::new();
    set.pin().reserve(10);
    assert_eq!(set.capacity(), 16);
    assert!(set.is_empty());
    set.reserve(12);
    assert_eq!(set.capacity(), 16);
    set.reserve(13);
    assert_eq!(set.capacity(), 32);
}

#[test]
fn clear_removes_every_key() {
    let mut set = HashSet::new();
    set.pin().insert(1);
    set.pin().clear();
    assert!(set.pin().is_empty());
    for k in 0..50 {
        set.insert(k);
    }
    let capacity = set.capacity();
    set.clear();
    assert!(set.is_empty());
    assert_eq!(set.capacity(), capacity);
    assert!(!set.contains(&7));
}

#[test]
fn retain_keeps_the_keys_the_predicate_keeps() {
    let mut set: HashSet<i32> = HashSet::from_iter(0..8);
    set.pin().retain(|&v| v % 2 == 0);
    assert_eq!(set.len(), 4);
    assert_eq!(set.pin().contains(&1), false);
    assert_eq!(set.pin().contains(&2), true);
    set.retain(|&v| v > 2);
    assert_eq!(set.len(), 2);
    assert!(set.contains(&4));
    assert!(set.contains(&6));
}

#[test]
fn iter_visits_every_key_once() {
    let mut set: HashSet<&str> = HashSet::from_iter(["a", "b", "c"].into_iter());
    let mut seen = Vec::new();
    {
        let handle = set.pin();
        let mut iter = handle.iter();
        while let Some(val) = iter.next() {
            seen.push(*val);
        }
    }
    seen.sort();
    assert_eq!(seen, vec!["a", "b", "c"]);
    let mut count = 0;
    let mut iter = set.iter();
    while iter.next().is_some() {
        count += 1;
    }
    assert_eq!(count, 3);
}

#[test]
fn sets_with_the_same_keys_are_equal() {
    let a: HashSet<u64> = HashSet::from_iter([1, 2, 3].into_iter());
    let b: HashSet<u64> = HashSet::from_iter([3, 2, 1].into_iter());
    let c: HashSet<u64> = HashSet::from_iter([1, 2, 4].into_iter());
    let d: HashSet<u64> = HashSet::from_iter([1, 2].into_iter());
    let e: HashSet<u64> = HashSet::new();
    assert!(a.eq(&b));
    assert!(b.eq(&a));
    assert!(a.eq(&a));
    assert!(!a.eq(&c));
    assert!(!c.eq(&a));
    assert!(!a.eq(&d));
    assert!(!d.eq(&a));
    assert!(!a.eq(&e));
    assert!(e.eq(&HashSet::new()));
}

#[test]
fn extend_adds_the_keys_of_an_iterator() {
    let mut set: HashSet<u64, Plain> = HashSet::with_hasher(Plain);
    set.extend(vec![1, 2, 3].into_iter());
    assert_eq!(sorted(&set), vec![1, 2, 3]);
    assert_eq!(set.capacity(), 4);
    set.extend(vec![3, 4, 5, 4].into_iter());
    assert_eq!(sorted(&set), vec![1, 2, 3, 4, 5]);
    set.extend(Vec::new().into_iter());
    assert_eq!(set.len(), 5);
}

#[test]
fn extend_reserves_all_of_the_hint_when_empty_and_half_when_not() {
    let mut set: HashSet<u64, Plain> = HashSet::with_hasher(Plain);
    set.extend(0..100);
    assert_eq!(set.capacity(), 256);
    assert_eq!(set.len(), 100);
    let mut set: HashSet<u64, Plain> = HashSet::with_hasher(Plain);
    set.insert(1000);
    assert_eq!(set.capacity(), 1);
    set.extend((0..7).filter(|_| false));
    assert_eq!(set.capacity(), 1);
    set.extend(0..9);
    assert_eq!(set.len(), 10);
    assert_eq!(set.capacity(), 16);
}

#[test]
fn extend_reservation_is_all_or_half_rounded_up() {
    assert_eq!(reservation_for(true, 0), 0);
    assert_eq!(reservation_for(true, 7), 7);
    assert_eq!(reservation_for(false, 0), 0);
    assert_eq!(reservation_for(false, 1), 1);
    assert_eq!(reservation_for(false, 7), 4);
    assert_eq!(reservation_for(false, 8), 4);
    assert_eq!(reservation_for(false, usize::MAX), usize::MAX / 2 + 1);
    assert_eq!(reservation_for(true, usize::MAX), usize::MAX);
}

#[test]
fn from_iter_sizes_the_set_by_the_hint() {
    let set: HashSet<u64, Plain> = HashSet::from_iter(vec![10, 20, 30, 40, 50].into_iter());
    assert_eq!(set.capacity(), 8);
    assert_eq!(sorted(&set), vec![10, 20, 30, 40, 50]);
    let set: HashSet<u64, Plain> = HashSet::from_iter(Vec::new().into_iter());
    assert_eq!(set.capacity(), 0);
    assert!(set.is_empty());
    let set: HashSet<u64, Plain> = HashSet::from_iter([7, 7, 7].into_iter());
    assert_eq!(sorted(&set), vec![7]);
}

#[test]
fn clone_copies_the_keys() {
    let mut set: HashSet<u64, Plain> = HashSet::with_hasher(Plain);
    for k in 0..20 {
        set.insert(k);
    }
    let mut copy = set.clone();
    assert_eq!(sorted(&copy), (0..20).collect::<Vec<u64>>());
    assert_eq!(copy.capacity(), 32);
    assert!(copy.eq(&set));
    copy.insert(100);
    assert!(!set.contains(&100));
    assert_eq!(set.len(), 20);
    assert_eq!(copy.len(), 21);
}

#[test]
fn builder_sets_capacity_hasher_mode_and_collector() {
    let set: HashSet<i32> = HashSet::builder()
        .capacity(2048)
        .hasher(RandomState::new())
        .resize_mode(ResizeMode::Blocking)
        .collector(seize::Collector::new().batch_size(128))
        .build();
    assert_eq!(set.capacity(), 4096);
    assert!(set.is_empty());
    let builder = HashSet::<u64>::builder();
    assert_eq!(builder.requested_capacity(), 0);
    assert_eq!(builder.requested_resize_mode(), ResizeMode::Incremental(64));
    let builder = builder.capacity(5).resize_mode(ResizeMode::Incremental(3)).hasher(Plain);
    assert_eq!(builder.requested_capacity(), 5);
    assert_eq!(builder.requested_resize_mode(), ResizeMode::Incremental(3));
    let set: HashSet<u64, Plain> = builder.build();
    assert_eq!(set.capacity(), 8);
    assert_eq!(set.hasher().hash_one(3u64), 3);
    let builder = HashSet::<u64>::builder().collector(seize::Collector::new().batch_size(7));
    assert_eq!(format!("{:?}", builder.requested_collector()), "Collector { batch_size: 7 }");
    let builder = builder.capacity(1).resize_mode(ResizeMode::Blocking);
    assert_eq!(format!("{:?}", builder.requested_collector()), "Collector { batch_size: 7 }");
}

#[test]
fn builder_makes_a_fresh_collector() {
    let one = HashSet::<u64>::builder();
    let two = HashSet::<u64>::builder();
    assert!(*one.requested_collector() != *two.requested_collector());
}

#[test]
fn new_sets_hash_with_their_own_random_state() {
    let mut set: HashSet<u64> = HashSet::new();
    set.insert(42);
    let hash = set.hasher().hash_one(42u64);
    assert!(set.contains_hashed(hash, &42));
}

#[test]
fn handle_reads_and_changes_the_set() {
    let mut set: HashSet<u64, Plain> = HashSet::with_hasher(Plain);
    {
        let mut handle = set.pin();
        assert!(handle.is_empty());
        assert!(handle.insert(1));
        assert!(handle.insert(2));
        assert!(!handle.insert(2));
        assert_eq!(handle.len(), 2);
        assert_eq!(handle.set().len(), 2);
        assert!(handle.remove(&1));
        handle.reserve(100);
        assert_eq!(handle.set().capacity(), 256);
        handle.retain(|k| *k != 2);
        assert!(handle.is_empty());
        handle.insert(9);
    }
    assert_eq!(sorted(&set), vec![9]);
    {
        let mut handle = set.pin_owned();
        assert!(handle.contains(&9));
        assert_eq!(handle.get(&9), Some(&9));
        handle.clear();
    }
    assert!(set.is_empty());
}

#[test]
fn resize_mode_defaults_to_incremental() {
    assert_eq!(ResizeMode::default(), ResizeMode::Incremental(64));
}

fn shareable<T: Send + Sync>() {}

#[test]
fn set_can_be_sent_and_shared_between_threads() {
    shareable::<HashSet<u64>>();
    shareable::<HashSet<String, Plain>>();
    shareable::<papaya::table::Table<u64, String>>();
}

#[test]
fn cloned_walk_goes_on_from_where_the_first_stands() {
    let mut set: HashSet<u64, Plain> = HashSet::with_hasher(Plain);
    for k in 0..10 {
        set.insert(k);
    }
    let mut first = set.iter();
    let mut before = Vec::new();
    for _ in 0..4 {
        before.push(*first.next().unwrap());
    }
    let mut second = first.clone();
    let mut rest_of_first = Vec::new();
    while let Some(k) = first.next() {
        rest_of_first.push(*k);
    }
    let mut rest_of_second = Vec::new();
    while let Some(k) = second.next() {
        rest_of_second.push(*k);
    }
    assert_eq!(rest_of_first, rest_of_second);
    assert_eq!(rest_of_first.len(), 6);
    before.extend(rest_of_first);
    before.sort();
    assert_eq!(before, (0..10).collect::<Vec<u64>>());
}

fn twice(k: &u64) -> u64 {
    2 * *k
}

#[test]
fn sets_of_the_same_keys_are_equal_whatever_the_order_or_the_repeats() {
    let a: HashSet<i32> = HashSet::from_iter([1, 2].into_iter());
    let b: HashSet<i32> = HashSet::from_iter([2, 1, 1].into_iter());
    let c: HashSet<i32> = HashSet::from_iter([1, 3].into_iter());
    let d: HashSet<i32> = HashSet::from_iter([1].into_iter());
    assert_eq!(b.len(), 2);
    assert!(a.eq(&b));
    assert!(b.eq(&a));
    assert!(a.eq(&a));
    assert!(!a.eq(&c));
    assert!(!a.eq(&d));
    assert!(!d.eq(&a));
}

#[test]
fn eq_with_looks_keys_up_under_the_hash_it_is_given() {
    let a: HashSet<u64, Plain> = HashSet::from_iter_with([1, 2, 3].into_iter(), twice);
    let b: HashSet<u64, Plain> = HashSet::from_iter_with([3, 2, 1, 1].into_iter(), twice);
    let c: HashSet<u64, Plain> = HashSet::from_iter([1, 2, 3].into_iter());
    assert!(a.eq_with(&b, twice));
    assert!(b.eq_with(&a, twice));
    assert!(!a.eq_with(&b, |k| *k));
    assert!(!a.eq_with(&c, twice));
    assert!(a.eq_with(&c, |k| *k));
    assert!(!a.eq(&b));
    assert!(c.eq(&c));
}

#[test]
fn from_iter_with_stores_each_key_once_under_the_hash_it_is_given() {
    let set: HashSet<u64, Plain> = HashSet::from_iter_with([5, 6, 5, 7, 5].into_iter(), twice);
    assert_eq!(set.len(), 3);
    assert_eq!(set.capacity(), 8);
    for k in [5u64, 6, 7] {
        assert!(set.contains_hashed(2 * k, &k));
        assert!(!set.contains_hashed(k, &k));
    }
    let empty: HashSet<u64, Plain> = HashSet::from_iter_with(Vec::new().into_iter(), twice);
    assert!(empty.is_empty());
    assert_eq!(empty.capacity(), 0);
}

#[test]
fn from_iter_keeps_the_first_key_and_counts_repeats_once() {
    let set: HashSet<u64, Plain> = HashSet::from_iter([9, 8, 9, 9, 7].into_iter());
    assert_eq!(set.len(), 3);
    assert_eq!(sorted(&set), vec![7, 8, 9]);
    assert!(set.contains(&9));
}

#[test]
fn extend_with_adds_keys_under_the_hash_it_is_given() {
    let mut set: HashSet<u64, Plain> = HashSet::with_hasher(Plain);
    set.insert_hashed(2, 1);
    set.extend_with([1, 2, 2, 3].into_iter(), twice);
    assert_eq!(set.len(), 3);
    assert!(set.contains_hashed(2, &1));
    assert!(set.contains_hashed(4, &2));
    assert!(set.contains_hashed(6, &3));
    assert!(!set.contains(&2));
}

#[test]
fn extend_counts_the_union_of_old_and_new_keys() {
    let mut set: HashSet<u64> = HashSet::from_iter([1, 2, 3].into_iter());
    set.extend([3, 4, 4, 5, 1].into_iter());
    assert_eq!(set.len(), 5);
    for k in 1..=5 {
        assert!(set.contains(&k));
    }
    assert!(!set.contains(&6));
}

#[test]
fn clone_with_hashes_the_clones_with_the_function_it_is_given() {
    let source: HashSet<u64, Plain> = HashSet::from_iter([1, 2].into_iter());
    let copy = source.clone_with(twice);
    assert_eq!(copy.len(), 2);
    assert!(copy.contains_hashed(2, &1));
    assert!(copy.contains_hashed(4, &2));
    assert!(!copy.contains(&1));
    assert_eq!(copy.capacity(), 2);
}

#[test]
fn changes_to_a_clone_leave_the_source_alone() {
    let s: HashSet<i32> = HashSet::from_iter([1, 2].into_iter());
    let mut c = s.clone();
    c.pin().insert(3);
    c.pin().remove(&1);
    assert_eq!(s.len(), 2);
    assert!(s.contains(&1));
    assert!(!s.contains(&3));
    assert_eq!(c.len(), 2);
    assert!(!c.contains(&1));
    assert!(c.contains(&2));
    assert!(c.contains(&3));
}

#[test]
fn built_set_keeps_the_collector_of_its_builder() {
    let set: HashSet<u64> =
        HashSet::builder().collector(seize::Collector::new().batch_size(9)).capacity(3).build();
    assert_eq!(format!("{:?}", set.collector()), "Collector { batch_size: 9 }");
    let mut set = set;
    set.insert(1);
    set.clear();
    assert_eq!(format!("{:?}", set.collector()), "Collector { batch_size: 9 }");
}

#[test]
fn sets_made_without_a_builder_have_collectors_of_their_own() {
    let one: HashSet<u64> = HashSet::new();
    let two: HashSet<u64> = HashSet::new();
    assert!(*one.collector() != *two.collector());
    let three = one.clone();
    assert!(*one.collector() != *three.collector());
    let four: HashSet<u64> = HashSet::from_iter([1].into_iter());
    assert!(*four.collector() != *one.collector());
}

#[test]
fn default_and_collected_sets_grow_a_slice_at_a_time() {
    let set: HashSet<u64, Plain> = HashSet::default();
    assert_eq!(set.resize_mode(), ResizeMode::Incremental(64));
    let set: HashSet<u64, Plain> = HashSet::from_iter([1, 2, 3].into_iter());
    assert_eq!(set.resize_mode(), ResizeMode::Incremental(64));
    let set: HashSet<u64> = HashSet::builder().resize_mode(ResizeMode::Blocking).build();
    assert_eq!(set.resize_mode(), ResizeMode::Blocking);
}

/// A borrowed string that stands for the `String` with the same text.
struct Text<'a>(&'a str);

impl std::hash::Hash for Text<'_> {
    fn hash<H: Hasher>(&self, state: &mut H) {
        self.0.hash(state)
    }
}

impl papaya::equality::Equivalent<String> for Text<'_> {
    fn equivalent(&self, key: &String) -> bool {
        self.0 == key.as_str()
    }
}

#[test]
fn keys_are_looked_up_by_a_borrowed_form() {
    let mut set: HashSet<String> = HashSet::new();
    set.insert(String::from("alpha"));
    set.insert(String::from("beta"));
    assert!(set.contains(&Text("alpha")));
    assert!(!set.contains(&Text("gamma")));
    assert_eq!(set.get(&Text("beta")).map(|s| s.as_str()), Some("beta"));
    assert_eq!(set.get(&Text("delta")), None);
    assert!(set.remove(&Text("alpha")));
    assert!(!set.remove(&Text("alpha")));
    assert!(!set.contains(&String::from("alpha")));
    assert_eq!(set.len(), 1);
    let mut handle = set.pin();
    assert!(handle.contains(&Text("beta")));
    assert_eq!(handle.get(&Text("beta")).map(|s| s.as_str()), Some("beta"));
    assert!(handle.remove(&Text("beta")));
    assert!(handle.is_empty());
}

/// A number that stands for every key with the same last digit.
struct LastDigit(u64);

impl papaya::equality::Equivalent<u64> for LastDigit {
    fn equivalent(&self, key: &u64) -> bool {
        key % 10 == self.0
    }
}

#[test]
fn hashed_lookup_by_a_probe_finds_a_key_it_stands_for() {
    let mut set: HashSet<u64, Plain> = HashSet::with_hasher(Plain);
    set.insert_hashed(7, 13);
    set.insert_hashed(7, 24);
    set.insert_hashed(8, 33);
    assert_eq!(set.get_hashed_by(7, &LastDigit(4)), Some(&24));
    assert_eq!(set.get_hashed_by(7, &LastDigit(3)), Some(&13));
    assert_eq!(set.get_hashed_by(8, &LastDigit(3)), Some(&33));
    assert_eq!(set.get_hashed_by(8, &LastDigit(4)), None);
    assert!(set.remove_hashed_by(7, &LastDigit(3)));
    assert!(!set.remove_hashed_by(7, &LastDigit(3)));
    assert!(set.contains_hashed(8, &33));
    assert_eq!(set.len(), 2);
}
