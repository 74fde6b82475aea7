use advent_of_code::helpers::grids::{LineIterator, LineStart, SquareGrid};
use advent_of_code::solutions::day08;
use advent_of_code::solutions::day08::{LocationAndHeight, TreeView};
use advent_of_code::solutions::day20;

const PATCH: &str = "30373\n25512\n65332\n33549\n35390\n";

#[test]
fn test_part_two() {
    assert_eq!(day08::part_two::<5>(PATCH).unwrap(), 8);
}

#[test]
fn test_part_one() {
    assert_eq!(day20::part_one("1\n2\n-3\n3\n-2\n0\n4\n"), Some(3));
}

#[test]
fn trees_seen_from_outside() {
    assert_eq!(day08::visible_trees::<5>(PATCH.as_bytes()), Some(21));
    assert_eq!(day08::visible_trees::<5>(b"30373\n25512\n65332\n33549\n35390"), Some(21));
    // Where nothing hides anything, the trees next to the edges are seen, and the corners count.
    assert_eq!(day08::visible_trees::<3>(b"000\n000\n000\n"), Some(8));
    assert_eq!(day08::visible_trees::<3>(b"000\n010\n000\n"), Some(9));
}

#[test]
fn a_patch_of_ninety_nine() {
    let mut flat = String::new();
    for _ in 0..99 {
        flat.push_str(&"0".repeat(99));
        flat.push('\n');
    }
    assert_eq!(day08::part_one(&flat), Some(392));
    let mut hill = String::new();
    for row in 0..99usize {
        for col in 0..99usize {
            let edge = row.min(col).min(98 - row).min(98 - col);
            hill.push(char::from(b'0' + (edge.min(9) as u8)));
        }
        hill.push('\n');
    }
    // Rings rise towards a plateau in the middle, of which only the rim is seen:
    // 99 * 99 trees without the 79 * 79 of the plateau behind its rim.
    assert_eq!(day08::part_one(&hill), Some(99 * 99 - 79 * 79));
}

#[test]
fn patches_that_do_not_fit() {
    assert_eq!(day08::visible_trees::<5>(b"30373\n25512\n"), None);
    assert_eq!(day08::visible_trees::<2>(b"303\n255\n"), None);
    assert_eq!(day08::visible_trees::<2>(b"30\n25\n65\n"), None);
    assert_eq!(day08::visible_trees::<2>(b"3a\n25\n"), None);
    assert_eq!(day08::part_two::<2>("3 \n25\n"), None);
    assert_eq!(day08::part_two::<0>(""), None);
    assert_eq!(day08::visible_trees::<0>(b""), Some(4));
    assert!(day08::parse_tree_heights::<2>(b"1\n2345").is_none());
}

#[test]
fn heights_are_read_row_by_row() {
    let grid = day08::parse_tree_heights::<5>(PATCH.as_bytes()).unwrap();
    assert_eq!(*grid.get(0, 0), 3);
    assert_eq!(*grid.get(1, 2), 5);
    assert_eq!(*grid.get(4, 3), 9);
    let sparse = day08::parse_tree_heights::<3>(b"1\n\n234\n\n\n").unwrap();
    assert_eq!(*sparse.get(0, 0), 1);
    assert_eq!(*sparse.get(0, 1), 0);
    assert_eq!(*sparse.get(1, 1), 0);
    assert_eq!(*sparse.get(2, 2), 4);
    assert!(day08::parse_tree_heights::<3>(b"1\n\n\n\n\n\n234").is_none());
    let tree = LocationAndHeight::lookup(3, 3, &grid);
    assert_eq!(tree, LocationAndHeight { row: 3, col: 3, height: Some(4) });
    assert_eq!(LocationAndHeight::initial_state().height, None);
}

#[test]
fn trees_along_a_line_of_sight() {
    let grid = day08::parse_tree_heights::<5>(PATCH.as_bytes()).unwrap();
    let from_left = LineIterator::<5>::get_line_from_left(1);
    assert_eq!(day08::find_visible_trees_along_line(from_left, &grid), vec![(1, 0), (1, 1)]);
    let from_right = LineIterator::<5>::get_line(LineStart::Right, 1);
    assert_eq!(day08::find_visible_trees_along_line(from_right, &grid), vec![(1, 4), (1, 2)]);
    let from_top = LineIterator::<5>::get_line(LineStart::Top, 3);
    assert_eq!(day08::find_visible_trees_along_line(from_top, &grid), vec![(0, 3), (4, 3)]);
    let outside = LineIterator::<5>::get_line(LineStart::Bottom, 5);
    assert_eq!(day08::find_visible_trees_along_line(outside, &grid), vec![]);
}

#[test]
fn view_distances_towards_an_edge() {
    let grid = day08::parse_tree_heights::<5>(PATCH.as_bytes()).unwrap();
    let up = day08::view_distances_in_direction(&grid, LineStart::Top);
    let down = day08::view_distances_in_direction(&grid, LineStart::Bottom);
    let left = day08::view_distances_in_direction(&grid, LineStart::Left);
    let right = day08::view_distances_in_direction(&grid, LineStart::Right);
    // The middle 5 of the second row.
    assert_eq!((*up.get(1, 2), *left.get(1, 2), *right.get(1, 2), *down.get(1, 2)), (1, 1, 2, 2));
    // The 5 in the middle of the fourth row.
    assert_eq!((*up.get(3, 2), *left.get(3, 2), *right.get(3, 2), *down.get(3, 2)), (2, 2, 2, 1));
    assert_eq!(*up.get(0, 4), 0);
    let _unused: SquareGrid<u32, 5> = up;
}

#[test]
fn a_tree_view_remembers_the_last_tree_of_each_height() {
    let mut view = TreeView::new();
    assert_eq!(view.view_distance_from_height(9, 0), 0);
    view.add_tree_of_height(3, 0);
    view.add_tree_of_height(5, 1);
    view.add_tree_of_height(1, 2);
    assert_eq!(view.view_distance_from_height(1, 3), 1);
    assert_eq!(view.view_distance_from_height(2, 3), 2);
    assert_eq!(view.view_distance_from_height(5, 3), 2);
    assert_eq!(view.view_distance_from_height(6, 3), 3);
}
