use advent_of_code::helpers::parsing::{parse_all, AocLineParsable, AocParsable};
use advent_of_code::helpers::text::string_of;
use advent_of_code::solutions::day05;
use advent_of_code::solutions::day05::{CargoItem, CargoStack, CargoStage, MoveOperation};

const PLAN: &str = "    [D]    \n[N] [C]    \n[Z] [M] [P]\n 1   2   3 \n\nmove 1 from 2 to 1\nmove 3 from 1 to 3\nmove 2 from 2 to 1\nmove 1 from 1 to 2\n";

fn letters(stage: &CargoStage) -> Vec<String> {
    stage.0.iter().map(|stack| stack.0.iter().map(|item| item.0).collect()).collect()
}

#[test]
fn crates_moved_one_by_one() {
    assert_eq!(day05::part_one(PLAN), Some("CMZ".to_string()));
}

#[test]
fn crates_moved_all_at_once() {
    assert_eq!(day05::part_two(PLAN), Some("MCD".to_string()));
}

#[test]
fn the_drawing_is_read_bottom_up() {
    let (stage, behind) = CargoStage::parse_from_string(PLAN.as_bytes(), 0).unwrap();
    assert_eq!(letters(&stage), vec!["ZN", "MCD", "P"]);
    assert_eq!(behind, 48);
    assert_eq!(stage.read_top(), "NDP");
}

#[test]
fn drawings_that_are_not_stacks_are_refused() {
    assert!(CargoStage::parse_from_string(b"", 0).is_none());
    assert!(CargoStage::parse_from_string(b"[A]", 0).is_none());
    assert!(CargoStage::parse_from_string(b"[A]\n 1 \n", 0).is_some());
    assert!(CargoStage::parse_from_string(b"[A] \n 1  \n", 0).is_none());
    assert!(CargoStage::parse_from_string(b"[A]\n[B]\n", 0).is_none());
    assert!(CargoStage::parse_from_string(b"(A)\n 1 \n", 0).is_none());
    assert!(CargoStage::parse_from_string(b"[A]\n 1", 0).is_none());
    let (empty, behind) = CargoStage::parse_from_string(b" 1 \n", 0).unwrap();
    assert_eq!((letters(&empty), behind), (vec![String::new()], 4));
}

#[test]
fn plans_need_a_blank_line_and_moves() {
    assert_eq!(day05::part_one("[A]\n 1 \nmove 1 from 1 to 1\n"), None);
    assert_eq!(day05::part_one("[A]\n 1 \n\n"), None);
    assert_eq!(day05::part_one("[A]\n 1 \n\nmove 1 from 1 to 1\n"), Some("A".to_string()));
    assert_eq!(day05::part_one("[A]\n 1 \n\n\nmove 1 from 1 to 1"), Some("A".to_string()));
    assert_eq!(day05::part_one("[A]\n 1 \n\nmove 1 from 1 to 1\nrest"), None);
}

#[test]
fn moves_that_the_crane_cannot_make_are_refused() {
    assert_eq!(day05::part_one("[A]\n 1 \n\nmove 2 from 1 to 1\n"), None);
    assert_eq!(day05::part_two("[A]\n 1 \n\nmove 1 from 1 to 2\n"), None);
    assert_eq!(day05::part_two("[A]\n 1 \n\nmove 1 from 0 to 1\n"), None);
    assert_eq!(day05::part_two("[A]\n 1 \n\nmove 0 from 1 to 1\n"), Some("A".to_string()));
}

#[test]
fn moves_are_read() {
    let (op, behind) = MoveOperation::parse_from_line(b"move 12 from 3 to 255\n", 0).unwrap();
    assert_eq!((op.cargo_count, op.from_col, op.to_col, behind), (12, 3, 255, 21));
    assert!(MoveOperation::parse_from_line(b"move 256 from 3 to 1", 0).is_none());
    assert!(MoveOperation::parse_from_line(b"move 1 to 3 from 1", 0).is_none());
    assert!(MoveOperation::parse_from_line(b"move1 from 3 to 1", 0).is_none());
    let ops: Vec<MoveOperation> = parse_all(b"move 1 from 2 to 3\nmove 4 from 5 to 6").unwrap();
    assert_eq!(ops.len(), 2);
    assert_eq!(ops[1].to_col, 6);
}

#[test]
fn the_two_cranes_differ_in_the_order_of_arrival() {
    let make = || {
        CargoStage(vec![
            CargoStack(vec![CargoItem('a'), CargoItem('b'), CargoItem('c')]),
            CargoStack(vec![CargoItem('x')]),
            CargoStack(vec![]),
        ])
    };
    let op = MoveOperation { cargo_count: 2, from_col: 1, to_col: 2 };
    let mut stage = make();
    assert!(stage.can_apply_move(&op));
    stage.apply_move_9000(&op);
    assert_eq!(letters(&stage), vec!["a", "xcb", ""]);
    let mut stage = make();
    stage.apply_move_9001(&op);
    assert_eq!(letters(&stage), vec!["a", "xbc", ""]);
    assert_eq!(stage.read_top(), "ac");
    assert_eq!(string_of(&vec!['x', 'y']), "xy");
    assert_eq!(string_of(&vec![]), "");
    let same = MoveOperation { cargo_count: 2, from_col: 1, to_col: 1 };
    let mut stage = make();
    stage.apply_move_9000(&same);
    assert_eq!(letters(&stage), vec!["acb", "x", ""]);
    assert!(!stage.can_apply_move(&MoveOperation { cargo_count: 4, from_col: 1, to_col: 2 }));
    assert!(!stage.can_apply_move(&MoveOperation { cargo_count: 1, from_col: 4, to_col: 2 }));
}

#[test]
fn crates_in_the_drawing() {
    assert_eq!(day05::parse_cargo_item_or_none(b"[Q] ", 0).map(|item| item.0), Some('Q'));
    assert_eq!(day05::parse_cargo_item_or_none(b"    ", 0).map(|item| item.0), None);
    assert_eq!(day05::input_index_for_row_col(2, 3, 9), 84);
    assert_eq!(day05::input_index_for_row_col(0, 0, 9), 0);
}
