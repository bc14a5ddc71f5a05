use papaya::capacity::{
    capacity_for, grow, home_of, max_len_of, next_pos, threshold_of, MAX_CAPACITY,
};

#[test]
fn threshold_is_three_quarters_rounded_up() {
    assert_eq!(threshold_of(0), 0);
    assert_eq!(threshold_of(1), 1);
    assert_eq!(threshold_of(2), 2);
    assert_eq!(threshold_of(4), 3);
    assert_eq!(threshold_of(8), 6);
    assert_eq!(threshold_of(16), 12);
    assert_eq!(threshold_of(1024), 768);
    assert_eq!(threshold_of(2048), 1536);
}

#[test]
fn capacity_for_nothing_is_nothing() {
    assert_eq!(capacity_for(0), 0);
}

#[test]
fn capacity_for_is_the_smallest_power_of_two_that_fits() {
    assert_eq!(capacity_for(1), 1);
    assert_eq!(capacity_for(2), 2);
    assert_eq!(capacity_for(3), 4);
    assert_eq!(capacity_for(4), 8);
    assert_eq!(capacity_for(6), 8);
    assert_eq!(capacity_for(7), 16);
    assert_eq!(capacity_for(12), 16);
    assert_eq!(capacity_for(13), 32);
    assert_eq!(capacity_for(768), 1024);
    assert_eq!(capacity_for(769), 2048);
    assert_eq!(capacity_for(1000), 2048);
}

#[test]
fn capacity_for_the_largest_length_is_the_largest_capacity() {
    assert_eq!(capacity_for(max_len_of()), MAX_CAPACITY);
    assert_eq!(capacity_for(max_len_of() - 1), MAX_CAPACITY);
}

#[test]
fn max_capacity_is_the_top_power_of_two() {
    assert!(MAX_CAPACITY.is_power_of_two());
    assert_eq!(MAX_CAPACITY, usize::MAX / 2 + 1);
    assert_eq!(max_len_of(), MAX_CAPACITY - MAX_CAPACITY / 4);
}

#[test]
fn grow_doubles_and_starts_at_one() {
    assert_eq!(grow(0), 1);
    assert_eq!(grow(1), 2);
    assert_eq!(grow(2), 4);
    assert_eq!(grow(1024), 2048);
    assert_eq!(grow(MAX_CAPACITY / 2), MAX_CAPACITY);
}

#[test]
fn home_is_the_low_bits_of_the_hash() {
    assert_eq!(home_of(0, 1), 0);
    assert_eq!(home_of(u64::MAX, 1), 0);
    assert_eq!(home_of(5, 4), 1);
    assert_eq!(home_of(7, 8), 7);
    assert_eq!(home_of(8, 8), 0);
    assert_eq!(home_of(0xdead_beef, 16), 0xf);
    assert_eq!(home_of(0xdead_beef, 256), 0xef);
    assert_eq!(home_of(u64::MAX, 1024), 1023);
}

#[test]
fn next_pos_wraps_at_the_end() {
    assert_eq!(next_pos(0, 4), 1);
    assert_eq!(next_pos(2, 4), 3);
    assert_eq!(next_pos(3, 4), 0);
    assert_eq!(next_pos(0, 1), 0);
}
