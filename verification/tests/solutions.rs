use advent_of_code::helpers::parsing::{
    line_ending_or_eof, parse_all, tag, text_u16, text_u32, text_u64, text_u8, AocParsable,
};
use advent_of_code::solutions::day01;
use advent_of_code::solutions::day02;
use advent_of_code::solutions::day02::{HandMove, Outcome, PartOneRound, PartTwoRound};

#[test]
fn numbers_are_read_up_to_their_type() {
    assert_eq!(text_u8(b"255 ", 0), Some((255, 3)));
    assert_eq!(text_u8(b"256", 0), None);
    assert_eq!(text_u8(b"x1", 0), None);
    assert_eq!(text_u8(b"x1", 1), Some((1, 2)));
    assert_eq!(text_u8(b"", 0), None);
    assert_eq!(text_u16(b"65535\n", 0), Some((65535, 5)));
    assert_eq!(text_u16(b"65536", 0), None);
    assert_eq!(text_u32(b"007", 0), Some((7, 3)));
    assert_eq!(text_u32(b"4294967295", 0), Some((4294967295, 10)));
    assert_eq!(text_u32(b"4294967296", 0), None);
    assert_eq!(text_u64(b"18446744073709551615", 0), Some((u64::MAX, 20)));
    assert_eq!(text_u64(b"18446744073709551616", 0), None);
    assert_eq!(text_u64(b"99999999999999999999999", 0), None);
}

#[test]
fn lines_end_at_a_line_feed_or_at_the_end() {
    assert_eq!(line_ending_or_eof(b"a\nb", 1), Some(2));
    assert_eq!(line_ending_or_eof(b"a\r\nb", 1), Some(3));
    assert_eq!(line_ending_or_eof(b"a", 1), Some(1));
    assert_eq!(line_ending_or_eof(b"ab", 1), None);
    assert_eq!(line_ending_or_eof(b"a\rb", 1), None);
    assert_eq!(line_ending_or_eof(b"a\r", 1), None);
}

#[test]
fn words_are_matched_in_place() {
    assert_eq!(tag(b"move 1", 0, b"move "), Some(5));
    assert_eq!(tag(b"move 1", 1, b"ove"), Some(4));
    assert_eq!(tag(b"mov", 0, b"move"), None);
    assert_eq!(tag(b"more 1", 0, b"move"), None);
    assert_eq!(tag(b"abc", 3, b""), Some(3));
}

const CALORIES: &str = "1000\n2000\n3000\n\n4000\n\n5000\n6000\n\n7000\n8000\n9000\n\n10000\n";

#[test]
fn the_elf_with_the_most_calories() {
    assert_eq!(day01::part_one(CALORIES), Some(24000));
    assert_eq!(day01::part_one("5\n"), Some(5));
}

#[test]
fn the_three_elves_with_the_most_calories() {
    assert_eq!(day01::part_two(CALORIES), Some(45000));
    assert_eq!(day01::part_two("5\n\n7\n"), Some(12));
    assert_eq!(day01::part_two(""), Some(0));
    assert_eq!(day01::part_two("4294967295\n\n1\n"), None);
}

#[test]
fn baggage_is_read_elf_by_elf() {
    let elves: Vec<day01::ElfBaggage> = parse_all(CALORIES.as_bytes()).unwrap();
    assert_eq!(elves.len(), 5);
    assert_eq!(elves[0].items, vec![1000, 2000, 3000]);
    assert_eq!(elves[4].items, vec![10000]);
    assert_eq!(day01::elf_totals(elves), vec![6000, 4000, 11000, 24000, 10000]);
    assert!(parse_all::<day01::ElfBaggage>(b"12\nx\n").is_none());
    assert!(parse_all::<day01::ElfBaggage>(b"12").is_none());
    assert!(parse_all::<day01::ElfBaggage>(b"\n").is_none());
    assert_eq!(parse_all::<day01::ElfBaggage>(b"").unwrap().len(), 0);
    let (elf, behind) = day01::ElfBaggage::parse_from_string(b"1\r\n2\r\n\r\n3\n", 0).unwrap();
    assert_eq!(elf.items, vec![1, 2]);
    assert_eq!(behind, 8);
}

const GUIDE: &str = "A Y\nB X\nC Z\n";

#[test]
fn the_guide_read_as_moves() {
    assert_eq!(day02::part_one(GUIDE), Some(15));
    assert_eq!(day02::part_one(""), None);
    assert_eq!(day02::part_one("A   Z"), Some(3));
}

#[test]
fn the_guide_read_as_outcomes() {
    assert_eq!(day02::part_two(GUIDE), Some(12));
    assert_eq!(day02::part_two(""), None);
    assert_eq!(day02::part_two("A \t Z\r\n"), Some(8));
}

#[test]
fn rounds_are_scored_by_outcome_and_move() {
    let moves = [HandMove::ROCK, HandMove::PAPER, HandMove::SCISSORS];
    assert_eq!(HandMove::ROCK.is_victorious(&HandMove::SCISSORS), Outcome::WIN);
    assert_eq!(HandMove::PAPER.is_victorious(&HandMove::ROCK), Outcome::WIN);
    assert_eq!(HandMove::SCISSORS.is_victorious(&HandMove::PAPER), Outcome::WIN);
    assert_eq!(HandMove::SCISSORS.is_victorious(&HandMove::ROCK), Outcome::LOSS);
    for hand in moves {
        assert_eq!(hand.is_victorious(&hand), Outcome::TIE);
        for outcome in [Outcome::LOSS, Outcome::TIE, Outcome::WIN] {
            assert_eq!(hand.move_for_outcome(&outcome).is_victorious(&hand), outcome);
        }
        assert_eq!(HandMove::try_from(hand.score()), Some(hand));
    }
    assert_eq!(HandMove::try_from(0), None);
    assert_eq!(HandMove::try_from(4), None);
    assert_eq!(Outcome::WIN.score(), 6);
    assert_eq!(Outcome::TIE.score(), 3);
    assert_eq!(Outcome::LOSS.score(), 0);
    let round = PartOneRound { opponent: HandMove::ROCK, me: HandMove::PAPER };
    assert_eq!(round.my_score(), 8);
    let round = PartTwoRound { opponent: HandMove::SCISSORS, desired_outcome: Outcome::WIN };
    assert_eq!(round.my_score(), 7);
}

#[test]
fn letters_of_the_guide() {
    assert_eq!(HandMove::parse_from_char(&'A'), Some(HandMove::ROCK));
    assert_eq!(HandMove::parse_from_char(&'Y'), Some(HandMove::PAPER));
    assert_eq!(HandMove::parse_from_char(&'C'), Some(HandMove::SCISSORS));
    assert_eq!(HandMove::parse_from_char(&'D'), None);
    assert_eq!(Outcome::parse_from_char(&'X'), Some(Outcome::LOSS));
    assert_eq!(Outcome::parse_from_char(&'Y'), Some(Outcome::TIE));
    assert_eq!(Outcome::parse_from_char(&'Z'), Some(Outcome::WIN));
    assert_eq!(Outcome::parse_from_char(&'A'), None);
}

#[test]
fn malformed_guides_are_not_read() {
    assert!(parse_all::<PartOneRound>(b"A Y\nB X\nC Z\n").is_some());
    assert!(parse_all::<PartOneRound>(b"AY\n").is_none());
    assert!(parse_all::<PartOneRound>(b"D Y\n").is_none());
    assert!(parse_all::<PartOneRound>(b"A W\n").is_none());
    assert!(parse_all::<PartTwoRound>(b"A Y B X\n").is_none());
    assert!(parse_all::<PartTwoRound>(b"A Y\n\n").is_none());
}
