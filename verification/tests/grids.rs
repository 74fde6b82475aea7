use advent_of_code::helpers::grids::{LineIterator, SquareGrid, ToGridChar};

fn cells<const S: usize>(mut line: LineIterator<S>) -> Vec<(usize, usize)> {
    let mut out = Vec::new();
    while let Some(cell) = line.next() {
        out.push(cell);
    }
    out
}

#[test]
fn lines_cross_the_grid_from_each_edge() {
    assert_eq!(cells(LineIterator::<3>::get_line_from_top(1)), vec![(0, 1), (1, 1), (2, 1)]);
    assert_eq!(cells(LineIterator::<3>::get_line_from_bottom(1)), vec![(2, 1), (1, 1), (0, 1)]);
    assert_eq!(cells(LineIterator::<3>::get_line_from_left(2)), vec![(2, 0), (2, 1), (2, 2)]);
    assert_eq!(cells(LineIterator::<3>::get_line_from_right(0)), vec![(0, 2), (0, 1), (0, 0)]);
}

#[test]
fn a_line_outside_the_grid_is_empty() {
    assert_eq!(cells(LineIterator::<3>::get_line_from_top(3)), vec![]);
    assert_eq!(cells(LineIterator::<3>::get_line_from_right(7)), vec![]);
    assert_eq!(cells(LineIterator::<0>::get_line_from_bottom(0)), vec![]);
}

#[test]
fn a_finished_line_stays_finished() {
    let mut line = LineIterator::<1>::get_line_from_left(0);
    assert_eq!(line.next(), Some((0, 0)));
    assert_eq!(line.next(), None);
    assert_eq!(line.next(), None);
}

#[test]
fn grid_cells_are_read_and_written() {
    let mut grid = SquareGrid::<u8, 2>::from_array([[1, 2], [3, 4]]);
    assert_eq!(*grid.get(1, 0), 3);
    grid.set(1, 0, 9);
    assert_eq!(*grid.get(1, 0), 9);
    assert_eq!(*grid.get(0, 1), 2);
    let filled = SquareGrid::<bool, 3>::new_with(true);
    assert!(*filled.get(2, 2));
}

#[test]
fn grids_combine_cell_by_cell() {
    let a = SquareGrid::<u32, 2>::from_array([[1, 2], [3, 4]]);
    let b = SquareGrid::<u32, 2>::from_array([[10, 20], [30, 40]]);
    let sum = a.zip_with(b, |x, y| x + y);
    assert_eq!(*sum.get(0, 0), 11);
    assert_eq!(*sum.get(1, 1), 44);
    let c = SquareGrid::<u32, 2>::from_array([[2, 2], [2, 2]]);
    let product = sum.zip_with(c, |x, y| x * y);
    assert_eq!(*product.get(0, 1), 44);
    assert_eq!(*product.get(1, 0), 66);
}

#[test]
fn grids_are_drawn_row_by_row() {
    let grid = SquareGrid::<u8, 2>::from_array([[1, 12], [0, 9]]);
    let text: String = grid.render().into_iter().collect();
    assert_eq!(text, "1#\n09\n");
    let flags = SquareGrid::<bool, 2>::from_array([[true, false], [false, true]]);
    let text: String = flags.render().into_iter().collect();
    assert_eq!(text, "#.\n.#\n");
    assert_eq!(flags.to_text(), "#.\n.#\n");
    assert_eq!(SquareGrid::<u8, 0>::from_array([]).to_text(), "");
}

#[test]
fn cell_characters() {
    assert_eq!(true.to_grid_char(), '#');
    assert_eq!(false.to_grid_char(), '.');
    assert_eq!(7u8.to_grid_char(), '7');
    assert_eq!(10u8.to_grid_char(), '#');
    assert_eq!(0u16.to_grid_char(), '0');
    assert_eq!(300u16.to_grid_char(), '#');
    assert_eq!(9u32.to_grid_char(), '9');
    assert_eq!(70000u32.to_grid_char(), '#');
}
