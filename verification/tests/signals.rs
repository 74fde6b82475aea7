use advent_of_code::helpers::parsing::{iterate_all, AocParsable};
use advent_of_code::solutions::day03;
use advent_of_code::solutions::day03::{ElfGroup, RucksackBitSet};
use advent_of_code::solutions::day06;
use advent_of_code::solutions::day06::StartMarkerIndexIterator;

const RUCKSACKS: &str = "vJrwpWtwJgWrhcsFMMfFFhFp\njqHRNqRjqzjGDLGLrsFMfFZSrLrFZsSL\nPmmdzqPrVvPwwTWBwg\nwMqvLMZHhHMvwLHjbvcjnnSBnvTQFn\nttgJtRGJQctTZtZT\nCrZsJsPPZsGzwwsLwLmpwMDw\n";

#[test]
fn badges_of_the_groups_add_up() {
    assert_eq!(day03::part_two(RUCKSACKS), Some(70));
    assert_eq!(day03::part_two(""), Some(0));
    // A group without a common item type counts as 64.
    assert_eq!(day03::part_two("a\nb\nc\n"), Some(64));
    // Reading stops at the first group that is not complete.
    assert_eq!(day03::part_two("ab\nbc\nbd\nxy\n"), Some(2));
    assert_eq!(day03::part_two("Zb\nZc\nZd\nz!\nz\nz\n"), Some(52));
}

#[test]
fn priorities_are_kept_as_bits() {
    let mut set = RucksackBitSet::new();
    assert_eq!(set.get_first(), 64);
    set.add(52);
    set.add(7);
    set.add(63);
    assert_eq!(set.get_first(), 7);
    let mut other = RucksackBitSet::new();
    other.add(52);
    other.add(63);
    other.add(1);
    set.intersect(other);
    assert_eq!(set.get_first(), 52);
    let mut low = RucksackBitSet::new();
    low.add(0);
    assert_eq!(low.get_first(), 0);
    set.intersect(low);
    assert_eq!(set.get_first(), 64);
}

#[test]
fn rucksacks_are_read_line_by_line() {
    let (rucksack, behind) = day03::parse_rucksack(b"aZ\nrest", 0).unwrap();
    assert_eq!(behind, 3);
    assert_eq!(rucksack.get_first(), 1);
    assert!(day03::parse_rucksack(b"aZ", 0).is_none());
    assert!(day03::parse_rucksack(b"a-Z\n", 0).is_none());
    assert!(day03::parse_rucksack(b"", 0).is_none());
    let (empty, behind) = day03::parse_rucksack(b"\n", 0).unwrap();
    assert_eq!((empty.get_first(), behind), (64, 1));
    let groups: Vec<ElfGroup> = iterate_all(RUCKSACKS.as_bytes());
    assert_eq!(groups.len(), 2);
    assert_eq!(groups[0].badge(), 18);
    assert_eq!(groups[1].badge(), 52);
    assert!(ElfGroup::parse_from_string(b"a\nb\n", 0).is_none());
}

#[test]
fn start_of_packet_markers() {
    assert_eq!(day06::part_one("mjqjpqmgbljsphdztnvjfqwrcgsmlb"), Some(7));
    assert_eq!(day06::part_one("bvwbjplbgvbhsrlpgdmjqwftvncz"), Some(5));
    assert_eq!(day06::part_one("nppdvjthqldpwncqszvftbrmjlhg"), Some(6));
    assert_eq!(day06::part_one("nznrnfrfntjfmvfwmzdfjlvtqnbhcprsg"), Some(10));
    assert_eq!(day06::part_one("zcfzfwzzqfrljwzlrfnpqdbhtmscgvjw"), Some(11));
}

#[test]
fn start_of_message_markers() {
    assert_eq!(day06::part_two("mjqjpqmgbljsphdztnvjfqwrcgsmlb"), Some(19));
    assert_eq!(day06::part_two("bvwbjplbgvbhsrlpgdmjqwftvncz"), Some(23));
    assert_eq!(day06::part_two("nppdvjthqldpwncqszvftbrmjlhg"), Some(23));
    assert_eq!(day06::part_two("nznrnfrfntjfmvfwmzdfjlvtqnbhcprsg"), Some(29));
    assert_eq!(day06::part_two("zcfzfwzzqfrljwzlrfnpqdbhtmscgvjw"), Some(26));
}

#[test]
fn the_first_byte_never_counts_towards_a_marker() {
    assert_eq!(day06::part_one("abcde"), Some(5));
    assert_eq!(day06::part_one("aabcd"), Some(5));
    assert!(!day06::contains_marker(b"abcd", 4));
    assert!(day06::contains_marker(b"xabcd", 4));
    assert!(!day06::contains_marker(b"abcabcabc", 4));
    assert!(day06::contains_marker(b"abcabcabc", 3));
    assert!(!day06::contains_marker(b"", 0));
    assert!(day06::contains_marker(b"a", 0));
}

#[test]
fn a_reader_stays_at_the_marker_it_found() {
    let signal = b"mjqjpqmgbljsphdztnvjfqwrcgsmlb";
    let mut reader = StartMarkerIndexIterator::<4>::iterate(signal);
    assert_eq!(reader.next(), Some(7));
    assert_eq!(reader.next(), Some(7));
    let mut single = StartMarkerIndexIterator::<1>::iterate(b"xy");
    assert_eq!(single.next(), Some(2));
}
