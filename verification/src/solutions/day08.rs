//! Treetop tree house: which trees of a square patch can be seen from outside,
//! and how far one can see from each tree.

use crate::helpers::grids::{
    lemma_line_in_grid, line_cell, line_cells, LineIterator, LineStart, SquareGrid,
};
use vstd::prelude::*;
use vstd::string::StringSliceAdditionalSpecFns;

verus! {

/// The line of the input in which the byte at offset `at` stands, counted from
/// zero.
pub open spec fn row_at(input: Seq<u8>, at: int) -> int
    decreases at,
{
    if at <= 0 {
        0
    } else if input[at - 1] == 10 {
        row_at(input, at - 1) + 1
    } else {
        row_at(input, at - 1)
    }
}

/// The place in its line of the byte at offset `at`, counted from zero.
pub open spec fn col_at(input: Seq<u8>, at: int) -> int
    decreases at,
{
    if at <= 0 || input[at - 1] == 10 {
        0
    } else {
        col_at(input, at - 1) + 1
    }
}

/// The height that the first `count` bytes of the input give the tree in row
/// `row` and column `col`: the last digit that stands there, or zero.
pub open spec fn height_at(input: Seq<u8>, count: int, row: int, col: int) -> u8
    decreases count,
{
    if count <= 0 {
        0
    } else if 48 <= input[count - 1] <= 57 && row_at(input, count - 1) == row && col_at(
        input,
        count - 1,
    ) == col {
        (input[count - 1] - 48) as u8
    } else {
        height_at(input, count - 1, row, col)
    }
}

/// Whether the first `count` bytes of the input are digits within a square of
/// side `side` and line feeds.
pub open spec fn fits_patch(input: Seq<u8>, count: int, side: int) -> bool {
    forall|at: int|
        0 <= at < count ==> {
            ||| #[trigger] input[at] == 10
            ||| 48 <= input[at] <= 57 && row_at(input, at) < side && col_at(input, at) < side
        }
}

/// The heights of the trees of a patch of side `side` as the input gives
/// them, row by row. Nothing where the input holds anything but digits within
/// the patch and line feeds, or fewer bytes than the patch has trees.
pub open spec fn tree_heights(input: Seq<u8>, side: int) -> Option<Seq<Seq<u8>>> {
    if fits_patch(input, input.len() as int, side) && side * side <= input.len() {
        Some(
            Seq::new(
                side as nat,
                |row: int| Seq::new(side as nat, |col: int| height_at(input, input.len() as int, row, col)),
            ),
        )
    } else {
        None
    }
}

/// Whether all heights are at most nine.
pub open spec fn heights_are_digits(heights: Seq<Seq<u8>>) -> bool {
    forall|row: int, col: int|
        0 <= row < heights.len() && 0 <= col < heights[row].len() ==> #[trigger] heights[row][col]
            <= 9
}

/// Reads the heights of the trees of a patch of side `S`, one digit per tree
/// and one line per row.
pub fn parse_tree_heights<const S: usize>(input: &[u8]) -> (grid: Option<SquareGrid<u8, S>>)
    ensures
        match grid {
            Some(grid) => tree_heights(input@, S as int) == Some(grid@) && heights_are_digits(
                grid@,
            ),
            None => tree_heights(input@, S as int) is None,
        },
{
    let mut heights: SquareGrid<u8, S> = SquareGrid::new_with(0);
    let mut row: usize = 0;
    let mut col: usize = 0;
    let mut at: usize = 0;
    while at < input.len()
        invariant
            at <= input@.len(),
            row == row_at(input@, at as int),
            col == col_at(input@, at as int),
            row <= at,
            col <= at,
            fits_patch(input@, at as int, S as int),
            heights@.len() == S,
            forall|r: int| 0 <= r < S ==> (#[trigger] heights@[r]).len() == S,
            forall|r: int, c: int|
                0 <= r < S && 0 <= c < S ==> #[trigger] heights@[r][c] == height_at(
                    input@,
                    at as int,
                    r,
                    c,
                ),
            forall|r: int, c: int| 0 <= r < S && 0 <= c < S ==> #[trigger] heights@[r][c] <= 9,
        decreases input@.len() - at,
    {
        let c = input[at];
        if c == 10 {
            col = 0;
            row += 1;
        } else if c >= 48 && c <= 57 {
            if row >= S || col >= S {
                proof {
                    assert(!fits_patch(input@, input@.len() as int, S as int));
                }
                return None;
            }
            heights.set(row, col, c - 48);
            col += 1;
        } else {
            proof {
                assert(!fits_patch(input@, input@.len() as int, S as int));
            }
            return None;
        }
        at += 1;
    }
    let enough = match S.checked_mul(S) {
        Some(trees) => trees <= input.len(),
        None => false,
    };
    if !enough {
        return None;
    }
    proof {
        heights.lemma_square();
        assert(heights@ =~~= Seq::new(
            S as nat,
            |row: int|
                Seq::new(S as nat, |col: int| height_at(input@, input@.len() as int, row, col)),
        ));
    }
    Some(heights)
}

/// A tree on a line of sight: where it stands and how high it is; or no tree
/// yet.
#[derive(Copy, Clone, Debug, PartialEq, Eq)]
pub struct LocationAndHeight {
    pub row: usize,
    pub col: usize,
    pub height: Option<u8>,
}

impl LocationAndHeight {
    /// No tree yet.
    pub fn initial_state() -> (state: LocationAndHeight)
        ensures
            state.height is None,
            state.row == 0,
            state.col == 0,
    {
        LocationAndHeight { row: 0, col: 0, height: None }
    }

    /// The tree in row `row` and column `col`.
    pub fn lookup<const S: usize>(row: usize, col: usize, tree_grid: &SquareGrid<u8, S>) -> (tree:
        LocationAndHeight)
        requires
            row < S,
            col < S,
        ensures
            tree.row == row,
            tree.col == col,
            tree.height == Some(tree_grid@[row as int][col as int]),
    {
        LocationAndHeight { row, col, height: Some(*tree_grid.get(row, col)) }
    }
}

/// The heights of the trees along a line.
pub open spec fn heights_along(heights: Seq<Seq<u8>>, line: Seq<(usize, usize)>) -> Seq<u8> {
    Seq::new(line.len(), |i: int| heights[line[i].0 as int][line[i].1 as int])
}

/// Whether the tree at place `index` of a line is higher than every tree
/// before it.
pub open spec fn is_seen(along: Seq<u8>, index: int) -> bool {
    forall|before: int| 0 <= before < index ==> along[before] < along[index]
}

/// Those of the first `count` trees of a line that can be seen from its
/// start.
pub open spec fn seen_along(
    heights: Seq<Seq<u8>>,
    line: Seq<(usize, usize)>,
    count: int,
) -> Seq<(usize, usize)>
    decreases count,
{
    if count <= 0 {
        Seq::empty()
    } else if is_seen(heights_along(heights, line), count - 1) {
        seen_along(heights, line, count - 1).push(line[count - 1])
    } else {
        seen_along(heights, line, count - 1)
    }
}

/// The trees that can be seen from the start of a line: those that are higher
/// than every tree before them.
pub fn find_visible_trees_along_line<const S: usize>(
    line_iterator: LineIterator<S>,
    tree_grid: &SquareGrid<u8, S>,
) -> (seen: Vec<(usize, usize)>)
    requires
        line_iterator.wf(),
        forall|i: int|
            0 <= i < line_iterator@.len() ==> (#[trigger] line_iterator@[i]).0 < S
                && line_iterator@[i].1 < S,
    ensures
        seen@ == seen_along(tree_grid@, line_iterator@, line_iterator@.len() as int),
{
    let ghost line = line_iterator@;
    let mut walker = line_iterator;
    let ghost along = heights_along(tree_grid@, line);
    let mut seen: Vec<(usize, usize)> = Vec::new();
    let mut current_highest = LocationAndHeight::initial_state();
    let ghost mut passed: int = 0;
    loop
        invariant
            walker.wf(),
            0 <= passed <= line.len(),
            walker@ == line.skip(passed),
            along == heights_along(tree_grid@, line),
            forall|i: int| 0 <= i < line.len() ==> (#[trigger] line[i]).0 < S && line[i].1 < S,
            seen@ == seen_along(tree_grid@, line, passed),
            current_highest.height is None <==> passed == 0,
            current_highest.height is Some ==> {
                &&& forall|i: int| 0 <= i < passed ==> along[i] <= current_highest.height->0
                &&& exists|i: int| 0 <= i < passed && along[i] == current_highest.height->0
            },
        ensures
            passed == line.len(),
            seen@ == seen_along(tree_grid@, line, passed),
        decreases line.len() - passed,
    {
        let (row, col) = match walker.next() {
            Some(cell) => cell,
            None => {
                break ;
            },
        };
        proof {
            assert(line.skip(passed)[0] == line[passed]);
            assert(line.skip(passed).drop_first() =~= line.skip(passed + 1));
            assert(line[passed].0 < S);
        }
        let item = LocationAndHeight::lookup(row, col, tree_grid);
        proof {
            assert(along[passed] == item.height->0);
        }
        let visible = match current_highest.height {
            Some(current_highest_height) => current_highest_height < item.height.unwrap(),
            None => true,
        };
        proof {
            if visible {
                assert(is_seen(along, passed));
            } else {
                let at = choose|i: int| 0 <= i < passed && along[i] == current_highest.height->0;
                assert(!(along[at] < along[passed]));
                assert(!is_seen(along, passed));
            }
        }
        if visible {
            current_highest = item;
            seen.push((item.row, item.col));
        }
        proof {
            passed = passed + 1;
        }
    }
    seen
}

/// Whether the tree in row `row` and column `col` can be seen along the line
/// that starts at the edge `start` with the offset `offset`.
pub open spec fn is_seen_from(
    heights: Seq<Seq<u8>>,
    side: nat,
    start: LineStart,
    offset: usize,
    row: usize,
    col: usize,
) -> bool {
    seen_along(
        heights,
        line_cells(start, offset, side),
        line_cells(start, offset, side).len() as int,
    ).contains((row, col))
}

/// Whether the tree in row `row` and column `col` can be seen along a line
/// that starts at an edge with an offset from one up to, and without,
/// `offsets`.
pub open spec fn is_marked(
    heights: Seq<Seq<u8>>,
    side: nat,
    offsets: int,
    row: usize,
    col: usize,
) -> bool {
    exists|start: LineStart, offset: usize|
        1 <= offset < offsets && #[trigger] is_seen_from(heights, side, start, offset, row, col)
}

/// The number of marks among the first `count` entries of a row.
pub open spec fn count_in_row(row: Seq<bool>, count: int) -> nat
    decreases count,
{
    if count <= 0 {
        0
    } else {
        count_in_row(row, count - 1) + if row[count - 1] {
            1nat
        } else {
            0nat
        }
    }
}

/// The number of marks in the first `count` rows.
pub open spec fn count_in_rows(rows: Seq<Seq<bool>>, count: int) -> nat
    decreases count,
{
    if count <= 0 {
        0
    } else {
        count_in_rows(rows, count - 1) + count_in_row(rows[count - 1], rows[count - 1].len() as int)
    }
}

/// For each tree of the patch, whether it can be seen along a line that starts
/// at an edge, but at no corner.
pub open spec fn seen_map(heights: Seq<Seq<u8>>, side: nat) -> Seq<Seq<bool>> {
    Seq::new(
        side,
        |row: int|
            Seq::new(
                side,
                |col: int| is_marked(heights, side, side - 1, row as usize, col as usize),
            ),
    )
}

/// The number of trees of the patch that the input describes which can be
/// seen from outside: those seen along a line from an edge, and the four at
/// the corners.
pub open spec fn seen_count(input: Seq<u8>, side: nat) -> Option<nat> {
    match tree_heights(input, side as int) {
        Some(heights) => Some(count_in_rows(seen_map(heights, side), side as int) + 4),
        None => None,
    }
}

/// No more marks are counted than there are entries.
proof fn lemma_count_bound(rows: Seq<Seq<bool>>, count: int, side: int)
    requires
        0 <= count <= rows.len(),
        0 <= side,
        forall|row: int| 0 <= row < rows.len() ==> (#[trigger] rows[row]).len() == side,
    ensures
        count_in_rows(rows, count) <= count * side,
    decreases count,
{
    if count > 0 {
        lemma_count_bound(rows, count - 1, side);
        lemma_row_bound(rows[count - 1], side);
        assert(count * side == (count - 1) * side + side) by (nonlinear_arith);
    }
}

/// No more marks are counted in a row than it has entries.
proof fn lemma_row_bound(row: Seq<bool>, count: int)
    requires
        0 <= count <= row.len(),
    ensures
        count_in_row(row, count) <= count,
    decreases count,
{
    if count > 0 {
        lemma_row_bound(row, count - 1);
    }
}

/// Marks the trees that can be seen along one line.
fn mark_line<const S: usize>(
    visibilities: &mut SquareGrid<bool, S>,
    start: LineStart,
    offset: usize,
    tree_grid: &SquareGrid<u8, S>,
)
    requires
        offset < S,
        S <= isize::MAX,
    ensures
        forall|row: int, col: int|
            0 <= row < S && 0 <= col < S ==> #[trigger] final(visibilities)@[row][col] == (old(
                visibilities,
            )@[row][col] || is_seen_from(
                tree_grid@,
                S as nat,
                start,
                offset,
                row as usize,
                col as usize,
            )),
{
    let line_iterator = LineIterator::<S>::get_line(start, offset);
    let ghost line = line_cells(start, offset, S as nat);
    proof {
        assert forall|i: int| 0 <= i < line_iterator@.len() implies (#[trigger] line_iterator@[i]).0
            < S && line_iterator@[i].1 < S by {
            lemma_line_in_grid(start, offset, S as nat, i);
        }
        visibilities.lemma_square();
    }
    let seen = find_visible_trees_along_line(line_iterator, tree_grid);
    proof {
        lemma_seen_in_line(tree_grid@, line, line.len() as int);
    }
    let mut index: usize = 0;
    while index < seen.len()
        invariant
            index <= seen@.len(),
            seen@ == seen_along(tree_grid@, line, line.len() as int),
            forall|i: int| 0 <= i < seen@.len() ==> (#[trigger] seen@[i]).0 < S && seen@[i].1 < S,
            visibilities@.len() == S,
            forall|row: int| 0 <= row < S ==> (#[trigger] visibilities@[row]).len() == S,
            forall|row: int, col: int|
                0 <= row < S && 0 <= col < S ==> #[trigger] visibilities@[row][col] == (old(
                    visibilities,
                )@[row][col] || seen@.take(index as int).contains((row as usize, col as usize))),
        decreases seen@.len() - index,
    {
        let (row, col) = seen[index];
        let ghost before = visibilities@;
        visibilities.set(row, col, true);
        index += 1;
        proof {
            assert forall|r: int, c: int| 0 <= r < S && 0 <= c < S implies #[trigger] visibilities@[r][c]
                == (old(visibilities)@[r][c] || seen@.take(index as int).contains(
                (r as usize, c as usize),
            )) by {
                let now = seen@.take(index as int);
                let earlier = seen@.take(index - 1);
                assert(now =~= earlier.push((row, col)));
                if earlier.contains((r as usize, c as usize)) {
                    let at = earlier.index_of((r as usize, c as usize));
                    assert(now[at] == (r as usize, c as usize));
                }
                if r == row && c == col {
                    assert(now[index - 1] == (r as usize, c as usize));
                }
                if now.contains((r as usize, c as usize)) && !(r == row && c == col) {
                    let at = now.index_of((r as usize, c as usize));
                    assert(earlier[at] == (r as usize, c as usize));
                }
            }
        }
    }
    proof {
        assert(seen@.take(seen@.len() as int) =~= seen@);
    }
}

/// What is seen along a line stands on the line, hence in the grid.
proof fn lemma_seen_in_line(heights: Seq<Seq<u8>>, line: Seq<(usize, usize)>, count: int)
    requires
        0 <= count <= line.len(),
    ensures
        forall|i: int|
            0 <= i < seen_along(heights, line, count).len() ==> line.contains(
                #[trigger] seen_along(heights, line, count)[i],
            ),
    decreases count,
{
    if count > 0 {
        lemma_seen_in_line(heights, line, count - 1);
        assert(line.contains(line[count - 1]));
        let now = seen_along(heights, line, count);
        let earlier = seen_along(heights, line, count - 1);
        assert forall|i: int| 0 <= i < now.len() implies line.contains(#[trigger] now[i]) by {
            if i < earlier.len() {
                assert(now[i] == earlier[i]);
            }
        }
    }
}

/// Counts the marks of a grid.
fn count_marks<const S: usize>(marks: &SquareGrid<bool, S>) -> (count: usize)
    requires
        S * S <= usize::MAX,
    ensures
        count == count_in_rows(marks@, S as int),
{
    let mut count: usize = 0;
    let mut row: usize = 0;
    proof {
        marks.lemma_square();
    }
    while row < S
        invariant
            row <= S,
            S * S <= usize::MAX,
            marks@.len() == S,
            forall|r: int| 0 <= r < S ==> (#[trigger] marks@[r]).len() == S,
            count == count_in_rows(marks@, row as int),
        decreases S - row,
    {
        let mut col: usize = 0;
        let ghost above = count;
        proof {
            lemma_count_bound(marks@, row as int, S as int);
            assert(row * S + S <= S * S) by (nonlinear_arith)
                requires
                    row < S,
            ;
        }
        while col < S
            invariant
                col <= S,
                row < S,
                marks@.len() == S,
                marks@[row as int].len() == S,
                above <= row * S,
                row * S + S <= usize::MAX,
                count == above + count_in_row(marks@[row as int], col as int),
                count_in_row(marks@[row as int], col as int) <= col,
            decreases S - col,
        {
            if *marks.get(row, col) {
                count += 1;
            }
            col += 1;
        }
        row += 1;
    }
    count
}

/// Counts the trees of a patch of side `S` that can be seen from outside:
/// those that can be seen along a row or column from an edge of the patch,
/// and the four trees at its corners. `None` where the input describes no such
/// patch, or the count is beyond `u32`.
pub fn visible_trees<const S: usize>(input: &[u8]) -> (count: Option<u32>)
    requires
        S <= isize::MAX,
    ensures
        count == match seen_count(input@, S as nat) {
            Some(seen) => if seen <= u32::MAX {
                Some(seen as u32)
            } else {
                None
            },
            None => None,
        },
{
    let tree_grid = match parse_tree_heights::<S>(input) {
        Some(tree_grid) => tree_grid,
        None => {
            return None;
        },
    };
    let ghost heights = tree_grid@;
    let mut visibilities: SquareGrid<bool, S> = SquareGrid::new_with(false);
    let last = if S >= 1 {
        S - 1
    } else {
        0
    };
    let mut i: usize = 1;
    proof {
        visibilities.lemma_square();
        assert forall|row: int, col: int| 0 <= row < S && 0 <= col < S implies #[trigger] visibilities@[row][col]
            == is_marked(heights, S as nat, 1, row as usize, col as usize) by {}
    }
    while i < last
        invariant
            1 <= i,
            i <= last || last == 0,
            last == (if S >= 1 {
                S - 1
            } else {
                0
            }),
            S <= isize::MAX,
            heights == tree_grid@,
            visibilities@.len() == S,
            forall|row: int| 0 <= row < S ==> (#[trigger] visibilities@[row]).len() == S,
            forall|row: int, col: int|
                0 <= row < S && 0 <= col < S ==> #[trigger] visibilities@[row][col] == is_marked(
                    heights,
                    S as nat,
                    i as int,
                    row as usize,
                    col as usize,
                ),
        decreases last - i,
    {
        let ghost before = visibilities@;
        mark_line(&mut visibilities, LineStart::Top, i, &tree_grid);
        let ghost top = visibilities@;
        mark_line(&mut visibilities, LineStart::Bottom, i, &tree_grid);
        let ghost bottom = visibilities@;
        mark_line(&mut visibilities, LineStart::Left, i, &tree_grid);
        let ghost left = visibilities@;
        mark_line(&mut visibilities, LineStart::Right, i, &tree_grid);
        proof {
            visibilities.lemma_square();
            assert forall|row: int, col: int| 0 <= row < S && 0 <= col < S implies #[trigger] visibilities@[row][col]
                == is_marked(heights, S as nat, i + 1, row as usize, col as usize) by {
                let r = row as usize;
                let c = col as usize;
                let side = S as nat;
                assert(top[row][col] == (before[row][col] || is_seen_from(
                    heights,
                    side,
                    LineStart::Top,
                    i,
                    r,
                    c,
                )));
                assert(bottom[row][col] == (top[row][col] || is_seen_from(
                    heights,
                    side,
                    LineStart::Bottom,
                    i,
                    r,
                    c,
                )));
                assert(left[row][col] == (bottom[row][col] || is_seen_from(
                    heights,
                    side,
                    LineStart::Left,
                    i,
                    r,
                    c,
                )));
                if is_marked(heights, side, i + 1, r, c) {
                    let (start, offset) = choose|start: LineStart, offset: usize|
                        1 <= offset < i + 1 && #[trigger] is_seen_from(
                            heights,
                            side,
                            start,
                            offset,
                            r,
                            c,
                        );
                    if offset < i {
                        assert(is_marked(heights, side, i as int, r, c));
                    } else {
                        match start {
                            LineStart::Top => {},
                            LineStart::Bottom => {},
                            LineStart::Left => {},
                            LineStart::Right => {},
                        }
                    }
                }
                if before[row][col] {
                    let (start, offset) = choose|start: LineStart, offset: usize|
                        1 <= offset < i && #[trigger] is_seen_from(
                            heights,
                            side,
                            start,
                            offset,
                            r,
                            c,
                        );
                    assert(1 <= offset < i + 1 && is_seen_from(heights, side, start, offset, r, c));
                }
            }
        }
        i += 1;
    }
    proof {
        assert forall|row: int, col: int| 0 <= row < S && 0 <= col < S implies #[trigger] visibilities@[row][col]
            == is_marked(heights, S as nat, S - 1, row as usize, col as usize) by {
            if S < 2 {
                assert(!is_marked(heights, S as nat, S - 1, row as usize, col as usize));
                assert(!is_marked(heights, S as nat, i as int, row as usize, col as usize));
            }
        }
        assert(visibilities@ =~~= seen_map(heights, S as nat));
        assert(S * S <= input@.len());
    }
    let available = input.len();
    proof {
        assert(S * S <= available);
    }
    let exterior_count: usize = 4;
    let inner_count = count_marks(&visibilities);
    match inner_count.checked_add(exterior_count) {
        Some(total) => if total <= u32::MAX as usize {
            Some(total as u32)
        } else {
            None
        },
        None => None,
    }
}

/// The number of trees of a patch of 99 rows and columns that can be seen from
/// outside.
pub fn part_one(input: &str) -> (count: Option<u32>)
    ensures
        count == match seen_count(input.spec_bytes(), 99) {
            Some(seen) => Some(seen as u32),
            None => None,
        },
{
    proof {
        match tree_heights(input.spec_bytes(), 99) {
            Some(heights) => {
                lemma_count_bound(seen_map(heights, 99), 99, 99);
            },
            None => {},
        }
    }
    visible_trees::<99>(input.as_bytes())
}

/// The place of the last of the first `count` trees of a line that is at least
/// `height` high; zero, the place of the edge, where there is none.
pub open spec fn latest_at_least(along: Seq<u8>, count: int, height: int) -> int
    decreases count,
{
    if count <= 0 {
        0
    } else if along[count - 1] >= height {
        count - 1
    } else {
        latest_at_least(along, count - 1, height)
    }
}

/// How far one can see from the tree at place `index` of a line back towards
/// its start: up to the nearest tree that is at least as high, or to the edge.
pub open spec fn distance_along(along: Seq<u8>, index: int) -> int {
    index - latest_at_least(along, index, along[index] as int)
}

/// The latest is no later than the trees passed.
proof fn lemma_latest_bound(along: Seq<u8>, count: int, height: int)
    requires
        0 <= count,
    ensures
        0 <= latest_at_least(along, count, height) <= count,
        count > 0 ==> latest_at_least(along, count, height) < count,
    decreases count,
{
    if count > 0 {
        lemma_latest_bound(along, count - 1, height);
    }
}

/// What is known of the trees passed on a line: for each height, where the
/// last tree stood that was at least as high.
#[derive(Debug)]
pub struct TreeView {
    latest_index_of_at_least_height: [usize; 10],
}

impl View for TreeView {
    type V = Seq<usize>;

    /// For each height from zero to nine, the place of the last tree that was
    /// at least as high.
    closed spec fn view(&self) -> Seq<usize> {
        self.latest_index_of_at_least_height@
    }
}

impl TreeView {
    /// Whether the view is that of the first `count` trees of a line.
    pub open spec fn tracks(&self, along: Seq<u8>, count: int) -> bool {
        &&& self@.len() == 10
        &&& forall|height: int|
            0 <= height < 10 ==> #[trigger] self@[height] == latest_at_least(along, count, height)
    }

    /// The view before any tree.
    pub fn new() -> (view: Self)
        ensures
            view@.len() == 10,
            forall|height: int| 0 <= height < 10 ==> #[trigger] view@[height] == 0,
    {
        TreeView { latest_index_of_at_least_height: [0;10] }
    }

    /// Takes note of a tree of height `height` at place `at_index`.
    pub fn add_tree_of_height(&mut self, height: u8, at_index: usize)
        requires
            height <= 9,
            old(self)@.len() == 10,
        ensures
            final(self)@.len() == 10,
            forall|h: int| 0 <= h <= height ==> #[trigger] final(self)@[h] == at_index,
            forall|h: int| height < h < 10 ==> #[trigger] final(self)@[h] == old(self)@[h],
    {
        let mut i: u8 = 0;
        while i <= height
            invariant
                i <= height + 1,
                height <= 9,
                self@.len() == 10,
                forall|h: int| 0 <= h < i ==> #[trigger] self@[h] == at_index,
                forall|h: int| height < h < 10 ==> #[trigger] self@[h] == old(self)@[h],
            decreases height + 1 - i,
        {
            self.latest_index_of_at_least_height[i as usize] = at_index;
            i += 1;
        }
    }

    /// How far one can see from a tree of height `height` at place
    /// `view_index`.
    pub fn view_distance_from_height(&self, height: u8, view_index: usize) -> (distance: usize)
        requires
            height <= 9,
            self@.len() == 10,
            self@[height as int] <= view_index,
        ensures
            distance == view_index - self@[height as int],
    {
        view_index - self.latest_index_of_at_least_height[height as usize]
    }
}

/// How far one can see from each tree of the patch towards the edge `start`,
/// tree by tree along the lines that start there.
pub open spec fn is_distance_map(
    distances: Seq<Seq<u32>>,
    heights: Seq<Seq<u8>>,
    side: nat,
    start: LineStart,
) -> bool {
    forall|offset: usize, index: int|
        offset < side && 0 <= index < side ==> {
            let cell = #[trigger] line_cell(start, offset, side, index);
            distances[cell.0 as int][cell.1 as int] == distance_along(
                heights_along(heights, line_cells(start, offset, side)),
                index,
            )
        }
}

/// Measures, for every tree of the patch, how far one can see from it towards
/// the edge `start`.
pub fn view_distances_in_direction<const S: usize>(
    tree_grid: &SquareGrid<u8, S>,
    start: LineStart,
) -> (view_distances: SquareGrid<u32, S>)
    requires
        heights_are_digits(tree_grid@),
        S <= u32::MAX,
        S <= isize::MAX,
    ensures
        is_distance_map(view_distances@, tree_grid@, S as nat, start),
        forall|row: int, col: int|
            0 <= row < S && 0 <= col < S ==> #[trigger] view_distances@[row][col] < S,
{
    let mut view_distances: SquareGrid<u32, S> = SquareGrid::new_with(0u32);
    let ghost heights = tree_grid@;
    let ghost side = S as nat;
    proof {
        tree_grid.lemma_square();
        view_distances.lemma_square();
    }
    let mut i: usize = 0;
    while i < S
        invariant
            i <= S,
            side == S,
            S <= u32::MAX,
            S <= isize::MAX,
            heights == tree_grid@,
            heights.len() == S,
            forall|r: int| 0 <= r < S ==> (#[trigger] heights[r]).len() == S,
            heights_are_digits(heights),
            view_distances@.len() == S,
            forall|r: int| 0 <= r < S ==> (#[trigger] view_distances@[r]).len() == S,
            forall|row: int, col: int|
                0 <= row < S && 0 <= col < S ==> #[trigger] view_distances@[row][col] < S,
            forall|offset: usize, index: int|
                offset < i && 0 <= index < side ==> {
                    let cell = #[trigger] line_cell(start, offset, side, index);
                    view_distances@[cell.0 as int][cell.1 as int] == distance_along(
                        heights_along(heights, line_cells(start, offset, side)),
                        index,
                    )
                },
        decreases S - i,
    {
        let mut line = LineIterator::<S>::get_line(start, i);
        let ghost cells = line_cells(start, i, side);
        let ghost along = heights_along(heights, cells);
        let mut current_view = TreeView::new();
        let mut current_index: usize = 0;
        loop
            invariant
                i < S,
                side == S,
                S <= u32::MAX,
                line.wf(),
                current_index <= cells.len(),
                cells == line_cells(start, i, side),
                cells.len() == S,
                line@ == cells.skip(current_index as int),
                along == heights_along(heights, cells),
                heights == tree_grid@,
                heights.len() == S,
                forall|r: int| 0 <= r < S ==> (#[trigger] heights[r]).len() == S,
                heights_are_digits(heights),
                current_view.tracks(along, current_index as int),
                view_distances@.len() == S,
                forall|r: int| 0 <= r < S ==> (#[trigger] view_distances@[r]).len() == S,
                forall|row: int, col: int|
                    0 <= row < S && 0 <= col < S ==> #[trigger] view_distances@[row][col] < S,
                forall|offset: usize, index: int|
                    offset < i && 0 <= index < side ==> {
                        let cell = #[trigger] line_cell(start, offset, side, index);
                        view_distances@[cell.0 as int][cell.1 as int] == distance_along(
                            heights_along(heights, line_cells(start, offset, side)),
                            index,
                        )
                    },
                forall|index: int|
                    0 <= index < current_index ==> {
                        let cell = #[trigger] line_cell(start, i, side, index);
                        view_distances@[cell.0 as int][cell.1 as int] == distance_along(
                            along,
                            index,
                        )
                    },
            ensures
                current_index == S,
                view_distances@.len() == S,
                forall|r: int| 0 <= r < S ==> (#[trigger] view_distances@[r]).len() == S,
                forall|row: int, col: int|
                    0 <= row < S && 0 <= col < S ==> #[trigger] view_distances@[row][col] < S,
                forall|offset: usize, index: int|
                    offset < i && 0 <= index < side ==> {
                        let cell = #[trigger] line_cell(start, offset, side, index);
                        view_distances@[cell.0 as int][cell.1 as int] == distance_along(
                            heights_along(heights, line_cells(start, offset, side)),
                            index,
                        )
                    },
                forall|index: int|
                    0 <= index < S ==> {
                        let cell = #[trigger] line_cell(start, i, side, index);
                        view_distances@[cell.0 as int][cell.1 as int] == distance_along(
                            along,
                            index,
                        )
                    },
            decreases cells.len() - current_index,
        {
            let (row, col) = match line.next() {
                Some(cell) => cell,
                None => {
                    break ;
                },
            };
            proof {
                assert(cells.skip(current_index as int)[0] == cells[current_index as int]);
                assert(cells.skip(current_index as int).drop_first() =~= cells.skip(
                    current_index + 1,
                ));
                lemma_line_in_grid(start, i, side, current_index as int);
                lemma_latest_bound(along, current_index as int, heights[row as int][col as int] as int);
            }
            let height = *tree_grid.get(row, col);
            proof {
                assert(along[current_index as int] == height);
                assert(heights[row as int][col as int] <= 9);
            }
            let view_distance = current_view.view_distance_from_height(height, current_index)
                as u32;
            let ghost before_view = current_view@;
            current_view.add_tree_of_height(height, current_index);
            let ghost before = view_distances@;
            view_distances.set(row, col, view_distance);
            proof {
                assert forall|h: int| 0 <= h < 10 implies #[trigger] current_view@[h]
                    == latest_at_least(along, current_index + 1, h) by {
                    if h > height {
                        assert(current_view@[h] == before_view[h]);
                    }
                }
                assert forall|offset: usize, index: int|
                    offset < i && 0 <= index < side implies {
                    let cell = #[trigger] line_cell(start, offset, side, index);
                    view_distances@[cell.0 as int][cell.1 as int] == distance_along(
                        heights_along(heights, line_cells(start, offset, side)),
                        index,
                    )
                } by {
                    let cell = line_cell(start, offset, side, index);
                    assert(cell != (row, col));
                    assert(view_distances@[cell.0 as int][cell.1 as int]
                        == before[cell.0 as int][cell.1 as int]);
                }
                assert forall|index: int| 0 <= index < current_index + 1 implies {
                    let cell = #[trigger] line_cell(start, i, side, index);
                    view_distances@[cell.0 as int][cell.1 as int] == distance_along(along, index)
                } by {
                    let cell = line_cell(start, i, side, index);
                    if index < current_index {
                        assert(cell != (row, col));
                        assert(view_distances@[cell.0 as int][cell.1 as int]
                            == before[cell.0 as int][cell.1 as int]);
                    }
                }
                assert forall|r: int, c: int| 0 <= r < S && 0 <= c < S implies #[trigger] view_distances@[r][c]
                    < S by {
                    if !(r == row && c == col) {
                        assert(view_distances@[r][c] == before[r][c]);
                    }
                }
            }
            current_index += 1;
        }
        i += 1;
    }
    view_distances
}

/// The offset of the line from the edge `start` on which the tree in row `row`
/// and column `col` stands.
pub open spec fn offset_on(start: LineStart, row: usize, col: usize) -> usize {
    match start {
        LineStart::Top => col,
        LineStart::Bottom => col,
        LineStart::Left => row,
        LineStart::Right => row,
    }
}

/// The place on its line from the edge `start` of the tree in row `row` and
/// column `col`.
pub open spec fn place_on(start: LineStart, side: nat, row: usize, col: usize) -> int {
    match start {
        LineStart::Top => row as int,
        LineStart::Bottom => side - 1 - row,
        LineStart::Left => col as int,
        LineStart::Right => side - 1 - col,
    }
}

/// How far one can see from the tree in row `row` and column `col` towards
/// the edge `start`.
pub open spec fn view_distance(
    heights: Seq<Seq<u8>>,
    side: nat,
    start: LineStart,
    row: usize,
    col: usize,
) -> int {
    distance_along(
        heights_along(heights, line_cells(start, offset_on(start, row, col), side)),
        place_on(start, side, row, col),
    )
}

/// The scenic score of the tree in row `row` and column `col`: the product of
/// how far one can see from it in the four directions.
pub open spec fn scenic_score(heights: Seq<Seq<u8>>, side: nat, row: usize, col: usize) -> int {
    view_distance(heights, side, LineStart::Top, row, col) * view_distance(
        heights,
        side,
        LineStart::Bottom,
        row,
        col,
    ) * view_distance(heights, side, LineStart::Left, row, col) * view_distance(
        heights,
        side,
        LineStart::Right,
        row,
        col,
    )
}

/// Whether `best` is the greatest scenic score of the patch.
pub open spec fn is_best_score(best: int, heights: Seq<Seq<u8>>, side: nat) -> bool {
    &&& exists|row: usize, col: usize|
        row < side && col < side && #[trigger] scenic_score(heights, side, row, col) == best
    &&& forall|row: usize, col: usize|
        row < side && col < side ==> #[trigger] scenic_score(heights, side, row, col) <= best
}

/// A map of distances gives the view distance of every tree.
proof fn lemma_distance_map(
    distances: Seq<Seq<u32>>,
    heights: Seq<Seq<u8>>,
    side: nat,
    start: LineStart,
    row: usize,
    col: usize,
)
    requires
        is_distance_map(distances, heights, side, start),
        row < side,
        col < side,
        side <= usize::MAX,
    ensures
        distances[row as int][col as int] == view_distance(heights, side, start, row, col),
{
    let offset = offset_on(start, row, col);
    let index = place_on(start, side, row, col);
    assert(line_cell(start, offset, side, index) == (row, col));
}

/// Multiplies two grids tree by tree.
fn times<const S: usize>(
    a: SquareGrid<u32, S>,
    b: SquareGrid<u32, S>,
    Ghost(bound_a): Ghost<int>,
    Ghost(bound_b): Ghost<int>,
) -> (product: SquareGrid<u32, S>)
    requires
        0 <= bound_a,
        0 <= bound_b,
        bound_a * bound_b <= u32::MAX,
        forall|row: int, col: int| 0 <= row < S && 0 <= col < S ==> #[trigger] a@[row][col] <= bound_a,
        forall|row: int, col: int| 0 <= row < S && 0 <= col < S ==> #[trigger] b@[row][col] <= bound_b,
    ensures
        forall|row: int, col: int|
            0 <= row < S && 0 <= col < S ==> #[trigger] product@[row][col] == a@[row][col]
                * b@[row][col],
        forall|row: int, col: int|
            0 <= row < S && 0 <= col < S ==> #[trigger] product@[row][col] <= bound_a * bound_b,
{
    let multiply = |x: u32, y: u32| -> (z: u32)
        requires
            x * y <= u32::MAX,
        ensures
            z == x * y,
        { x * y };
    proof {
        assert forall|row: int, col: int| 0 <= row < S && 0 <= col < S implies multiply.requires(
            (#[trigger] a@[row][col], b@[row][col]),
        ) by {
            assert(a@[row][col] * b@[row][col] <= bound_a * bound_b) by (nonlinear_arith)
                requires
                    0 <= a@[row][col] <= bound_a,
                    0 <= b@[row][col] <= bound_b,
            ;
        }
    }
    let product = a.zip_with(b, multiply);
    proof {
        assert forall|row: int, col: int| 0 <= row < S && 0 <= col < S implies #[trigger] product@[row][col]
            <= bound_a * bound_b by {
            assert(a@[row][col] * b@[row][col] <= bound_a * bound_b) by (nonlinear_arith)
                requires
                    0 <= a@[row][col] <= bound_a,
                    0 <= b@[row][col] <= bound_b,
            ;
        }
    }
    product
}

/// The greatest scenic score of a patch of side `S`. `None` where the input
/// describes no such patch, or the patch has no tree.
pub fn part_two<const S: usize>(input: &str) -> (best: Option<u32>)
    requires
        S <= 256,
    ensures
        match tree_heights(input.spec_bytes(), S as int) {
            Some(heights) => if S == 0 {
                best is None
            } else {
                best is Some && is_best_score(best->0 as int, heights, S as nat)
            },
            None => best is None,
        },
{
    let tree_grid = match parse_tree_heights::<S>(input.as_bytes()) {
        Some(tree_grid) => tree_grid,
        None => {
            return None;
        },
    };
    let ghost heights = tree_grid@;
    let ghost side = S as nat;
    let top = view_distances_in_direction(&tree_grid, LineStart::Top);
    let bottom = view_distances_in_direction(&tree_grid, LineStart::Bottom);
    let left = view_distances_in_direction(&tree_grid, LineStart::Left);
    let right = view_distances_in_direction(&tree_grid, LineStart::Right);
    let ghost tops = top@;
    let ghost bottoms = bottom@;
    let ghost lefts = left@;
    let ghost rights = right@;
    let two = times(top, bottom, Ghost(255), Ghost(255));
    let three = times(two, left, Ghost(65025int), Ghost(255));
    let scores = times(three, right, Ghost(16581375int), Ghost(255));
    proof {
        assert forall|row: usize, col: usize| row < side && col < side implies scores@[row as int][col as int]
            == #[trigger] scenic_score(heights, side, row, col) by {
            lemma_distance_map(tops, heights, side, LineStart::Top, row, col);
            lemma_distance_map(bottoms, heights, side, LineStart::Bottom, row, col);
            lemma_distance_map(lefts, heights, side, LineStart::Left, row, col);
            lemma_distance_map(rights, heights, side, LineStart::Right, row, col);
        }
    }
    if S == 0 {
        return None;
    }
    let mut best: u32 = *scores.get(0, 0);
    let ghost mut best_row: usize = 0;
    let ghost mut best_col: usize = 0;
    let mut row: usize = 0;
    while row < S
        invariant
            row <= S,
            side == S,
            best_row < S,
            best_col < S,
            scores@[best_row as int][best_col as int] == best,
            forall|r: int, c: int| 0 <= r < row && 0 <= c < S ==> scores@[r][c] <= best,
        decreases S - row,
    {
        let mut col: usize = 0;
        while col < S
            invariant
                col <= S,
                row < S,
                best_row < S,
                best_col < S,
                scores@[best_row as int][best_col as int] == best,
                forall|r: int, c: int| 0 <= r < row && 0 <= c < S ==> scores@[r][c] <= best,
                forall|c: int| 0 <= c < col ==> scores@[row as int][c] <= best,
            decreases S - col,
        {
            let score = *scores.get(row, col);
            if score > best {
                best = score;
                proof {
                    best_row = row;
                    best_col = col;
                }
            }
            col += 1;
        }
        row += 1;
    }
    proof {
        assert(scenic_score(heights, side, best_row, best_col) == best);
        assert forall|r: usize, c: usize| r < side && c < side implies #[trigger] scenic_score(
            heights,
            side,
            r,
            c,
        ) <= best by {
            assert(scores@[r as int][c as int] <= best);
        }
    }
    Some(best)
}

} // verus!
