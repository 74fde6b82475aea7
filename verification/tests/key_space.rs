use advent_of_code::helpers::key_space::{
    append_key, initial_key, initial_keys, interleaving_gap, key_between, prepend_key,
};

#[test]
fn the_gap_is_a_power_of_two() {
    assert_eq!(interleaving_gap(0), Some(1));
    assert_eq!(interleaving_gap(1), Some(2));
    assert_eq!(interleaving_gap(48), Some(1usize << 48));
    assert_eq!(interleaving_gap(63), Some(1usize << 63));
    assert_eq!(interleaving_gap(64), None);
    assert_eq!(interleaving_gap(usize::MAX), None);
}

#[test]
fn initial_keys_start_one_gap_above_zero() {
    assert_eq!(initial_key(0, 16), Some(16));
    assert_eq!(initial_key(2, 16), Some(48));
    assert_eq!(initial_key(usize::MAX, 1), None);
    assert_eq!(initial_key(usize::MAX, 0), Some(0));
    assert_eq!(initial_key(1, 1usize << 63), None);
    assert_eq!(initial_keys(3, 8), Some(vec![8, 16, 24]));
    assert_eq!(initial_keys(0, 8), Some(vec![]));
    assert_eq!(initial_keys(3, 1usize << 63), None);
    assert_eq!(initial_keys(1, 1usize << 63), Some(vec![1usize << 63]));
}

#[test]
fn a_key_between_two_keys_bisects_the_room() {
    assert_eq!(key_between(10, 20), Some(15));
    assert_eq!(key_between(10, 13), Some(11));
    assert_eq!(key_between(10, 12), Some(11));
    assert_eq!(key_between(0, usize::MAX), Some(usize::MAX / 2));
}

#[test]
fn adjacent_keys_leave_no_room() {
    assert_eq!(key_between(10, 11), None);
    assert_eq!(key_between(10, 10), None);
    assert_eq!(key_between(11, 10), None);
    assert_eq!(key_between(usize::MAX - 1, usize::MAX), None);
}

#[test]
fn the_ends_extend_by_one_gap() {
    assert_eq!(append_key(32, 16), Some(48));
    assert_eq!(append_key(usize::MAX - 16, 16), Some(usize::MAX));
    assert_eq!(append_key(usize::MAX - 15, 16), None);
    assert_eq!(prepend_key(32, 16), Some(16));
    assert_eq!(prepend_key(16, 16), Some(0));
    assert_eq!(prepend_key(15, 16), None);
    assert_eq!(prepend_key(0, 16), None);
    assert_eq!(prepend_key(0, 0), None);
}
