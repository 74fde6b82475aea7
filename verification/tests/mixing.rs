use advent_of_code::helpers::parsing::{iterate_all, text_i16};
use advent_of_code::helpers::shuffle_tree::{ShuffleError, ShuffleTree};
use advent_of_code::solutions::day20;
use advent_of_code::solutions::day20::EncryptedNumber;

const NUMBERS: &str = "1\n2\n-3\n3\n-2\n0\n4\n";

#[test]
fn coordinates_after_one_round() {
    assert_eq!(day20::part_one(NUMBERS), Some(3));
    assert_eq!(day20::part_one("1\n2\n-3\n3\n-2\n0\n4"), Some(3));
}

#[test]
fn coordinates_after_ten_rounds_with_the_key() {
    assert_eq!(day20::part_two(NUMBERS), Some(1623178306));
}

#[test]
fn no_coordinates_without_a_zero() {
    assert_eq!(day20::part_one("1\n2\n3\n"), None);
    assert_eq!(day20::part_one(""), None);
    // A single number cannot be moved.
    assert_eq!(day20::part_one("0\n"), None);
    assert_eq!(day20::mixed_coordinates(b"0\n", 1, 0), Some(0));
    assert_eq!(day20::mixed_coordinates(b"5\n0\n7\n", 1, 0), Some(5 + 7 + 0));
}

#[test]
fn signed_numbers_are_read() {
    assert_eq!(text_i16(b"-32768", 0), Some((-32768, 6)));
    assert_eq!(text_i16(b"32767", 0), Some((32767, 5)));
    assert_eq!(text_i16(b"32768", 0), None);
    assert_eq!(text_i16(b"-32769", 0), None);
    assert_eq!(text_i16(b"-", 0), None);
    assert_eq!(text_i16(b"--1", 0), None);
    assert_eq!(text_i16(b"-0x", 0), Some((0, 2)));
    let numbers: Vec<EncryptedNumber> = iterate_all(b"7\n-8\nx\n9\n");
    assert_eq!(numbers.iter().map(|n| n.0).collect::<Vec<i16>>(), vec![7, -8]);
}

#[test]
fn numbers_are_loaded_with_the_key() {
    let list = day20::parse_to_initial_tree(b"2\n-3\n", 10).unwrap();
    let values: Vec<isize> = list.ordered_values().into_iter().copied().collect();
    assert_eq!(values, vec![20, -30]);
    assert!(day20::parse_to_initial_tree(b"2\n", isize::MAX).is_none());
    assert!(day20::parse_to_initial_tree(b"1\n", isize::MAX).is_some());
}

#[test]
fn mixing_moves_every_number_by_its_value() {
    let mut list = ShuffleTree::<isize, 48>::from_iter(vec![1, 2, -3, 3, -2, 0, 4]).unwrap();
    let nodes = list.node_indexes();
    assert_eq!(day20::mix(&mut list, &nodes), Ok(()));
    let mixed: Vec<isize> = list.ordered_values().into_iter().copied().collect();
    let zero = mixed.iter().position(|v| *v == 0).unwrap();
    let circle: Vec<isize> = (0..7).map(|i| mixed[(zero + i) % 7]).collect();
    assert_eq!(circle, vec![0, 3, -2, 1, 2, -3, 4]);
    assert_eq!(day20::calculate_coordinates(list), Some(3));
}

#[test]
fn mixing_stops_where_the_keys_run_out() {
    let mut list = ShuffleTree::<isize, 0>::from_iter(vec![1, 1, 0]).unwrap();
    let nodes = list.node_indexes();
    assert_eq!(day20::mix(&mut list, &nodes), Err(ShuffleError::KeySpaceExhausted));
    let mut alone = ShuffleTree::<isize, 48>::from_iter(vec![3]).unwrap();
    let nodes = alone.node_indexes();
    assert_eq!(day20::mix(&mut alone, &nodes), Err(ShuffleError::TooFewElements));
}
