use advent_of_code::helpers::parsing::{iterate_all, AocLineParsable};
use advent_of_code::solutions::day11;
use advent_of_code::solutions::day11::{Monkey, MonkeyGaggle, Operation, Value};

const MONKEYS: &str = "Monkey 0:\n  Starting items: 79, 98\n  Operation: new = old * 19\n  Test: divisible by 23\n    If true: throw to monkey 2\n    If false: throw to monkey 3\n\nMonkey 1:\n  Starting items: 54, 65, 75, 74\n  Operation: new = old + 6\n  Test: divisible by 19\n    If true: throw to monkey 2\n    If false: throw to monkey 0\n\nMonkey 2:\n  Starting items: 79, 60, 97\n  Operation: new = old * old\n  Test: divisible by 13\n    If true: throw to monkey 1\n    If false: throw to monkey 3\n\nMonkey 3:\n  Starting items: 74\n  Operation: new = old + 3\n  Test: divisible by 17\n    If true: throw to monkey 0\n    If false: throw to monkey 1\n";

#[test]
fn test_operation_parse() {
    assert_eq!(
        Operation::parse("old * 11".as_bytes(), 0).unwrap().0,
        Operation::Times((Value::Old, Value::Primitive(11)))
    );
}

#[test]
fn operations_are_read_and_evaluated() {
    assert_eq!(
        Operation::parse(b"7 + old", 0),
        Some((Operation::Plus((Value::Primitive(7), Value::Old)), 7))
    );
    assert_eq!(Operation::parse(b"old - 1", 0), None);
    assert_eq!(Operation::parse(b"old * 256", 0), None);
    assert_eq!(Operation::parse(b"old + x", 0), None);
    assert_eq!(Value::parse(b"old", 0), Some((Value::Old, 3)));
    assert_eq!(Value::parse(b"255", 0), Some((Value::Primitive(255), 3)));
    assert_eq!(Value::parse(b"new", 0), None);
    assert_eq!(Value::Old.resolve(9), 9);
    assert_eq!(Value::Primitive(4).resolve(9), 4);
    assert_eq!(Operation::Plus((Value::Old, Value::Primitive(6))).evaluate(10), 16);
    assert_eq!(Operation::Times((Value::Old, Value::Old)).evaluate(12), 144);
    assert_eq!(Operation::Times((Value::Old, Value::Old)).try_evaluate(usize::MAX), None);
    assert_eq!(Operation::Plus((Value::Old, Value::Primitive(1))).try_evaluate(usize::MAX), None);
    assert_eq!(
        Operation::Plus((Value::Old, Value::Primitive(1))).try_evaluate(usize::MAX - 1),
        Some(usize::MAX)
    );
}

#[test]
fn monkeys_are_read() {
    let monkeys: Vec<Monkey> = iterate_all(MONKEYS.as_bytes());
    assert_eq!(monkeys.len(), 4);
    assert_eq!(monkeys[1].items, vec![54, 65, 75, 74]);
    assert_eq!(monkeys[2].operation, Operation::Times((Value::Old, Value::Old)));
    assert_eq!(monkeys[3].test_divisibility, 17);
    assert_eq!((monkeys[0].if_true, monkeys[0].if_false), (2, 3));
    assert_eq!(monkeys[0].inspection_count, 0);
    assert!(Monkey::parse_from_line(b"Monkey 0:\n  Starting items: \n", 0).is_none());
    assert!(Monkey::parse_from_line(b"Monkey 0", 0).is_none());
}

#[test]
fn twenty_rounds_with_relief() {
    assert_eq!(day11::part_one(MONKEYS), Some(10605));
}

#[test]
fn ten_thousand_rounds_without_relief() {
    assert_eq!(day11::part_two(MONKEYS), Some(2713310158));
}

#[test]
fn a_round_throws_every_item_once() {
    let monkeys: Vec<Monkey> = iterate_all(MONKEYS.as_bytes());
    let mut gaggle = MonkeyGaggle::new(monkeys).unwrap();
    assert_eq!(gaggle.lcm, 23 * 19 * 13 * 17);
    assert!(gaggle.check_turn(0, 3));
    gaggle.take_turn(0, 3);
    assert!(gaggle.monkeys[0].items.is_empty());
    assert_eq!(gaggle.monkeys[0].inspection_count, 2);
    assert_eq!(gaggle.monkeys[3].items, vec![74, 500, 620]);
    assert!(gaggle.simulate_round(3));
    let held: usize = gaggle.monkeys.iter().map(|m| m.items.len()).sum();
    assert_eq!(held, 10);
}

#[test]
fn gaggles_that_cannot_play() {
    assert!(MonkeyGaggle::new(vec![]).is_none());
    assert_eq!(day11::part_one(""), None);
    let lonely = "Monkey 0:\n  Starting items: 1\n  Operation: new = old + 1\n  Test: divisible by 2\n    If true: throw to monkey 0\n    If false: throw to monkey 1\n";
    // The only monkey would have to throw to itself, or to a monkey that is not there.
    assert_eq!(day11::part_one(lonely), None);
    let monkeys: Vec<Monkey> = iterate_all(lonely.as_bytes());
    let mut gaggle = MonkeyGaggle::new(monkeys).unwrap();
    assert!(!gaggle.check_turn(0, 3));
    assert!(!gaggle.check_turn(1, 3));
    assert!(!gaggle.check_turn(0, 0));
    assert!(!gaggle.simulate_round(3));
    let by_zero = "Monkey 0:\n  Starting items: 1\n  Operation: new = old + 1\n  Test: divisible by 0\n    If true: throw to monkey 1\n    If false: throw to monkey 1\n";
    let monkeys: Vec<Monkey> = iterate_all(by_zero.as_bytes());
    assert_eq!(monkeys.len(), 1);
    assert!(MonkeyGaggle::new(monkeys).is_none());
}
