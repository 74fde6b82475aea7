//! Square grids of a fixed side, and the straight lines of cells that cross
//! them from one edge to the opposite one.

use crate::helpers::text::string_of;
use vstd::arithmetic::div_mod::lemma_fundamental_div_mod_converse;
use vstd::prelude::*;

verus! {

/// The character that stands for a decimal digit.
pub open spec fn digit_char(digit: int) -> char
    recommends
        0 <= digit <= 9,
{
    ((digit + 48) as u8) as char
}

/// A cell value that can be drawn as one character.
pub trait ToGridChar {
    /// The character that stands for the value.
    spec fn grid_char(&self) -> char;

    /// The character that stands for the value.
    fn to_grid_char(&self) -> (c: char)
        ensures
            c == self.grid_char(),
    ;
}

impl ToGridChar for bool {
    open spec fn grid_char(&self) -> char {
        if *self {
            '#'
        } else {
            '.'
        }
    }

    fn to_grid_char(&self) -> (c: char) {
        if *self {
            '#'
        } else {
            '.'
        }
    }
}

impl ToGridChar for u8 {
    open spec fn grid_char(&self) -> char {
        if *self <= 9 {
            digit_char(*self as int)
        } else {
            '#'
        }
    }

    fn to_grid_char(&self) -> (c: char) {
        if *self <= 9 {
            (*self + 48u8) as char
        } else {
            '#'
        }
    }
}

impl ToGridChar for u16 {
    open spec fn grid_char(&self) -> char {
        if *self <= 9 {
            digit_char(*self as int)
        } else {
            '#'
        }
    }

    fn to_grid_char(&self) -> (c: char) {
        if *self <= 9 {
            (*self as u8 + 48u8) as char
        } else {
            '#'
        }
    }
}

impl ToGridChar for u32 {
    open spec fn grid_char(&self) -> char {
        if *self <= 9 {
            digit_char(*self as int)
        } else {
            '#'
        }
    }

    fn to_grid_char(&self) -> (c: char) {
        if *self <= 9 {
            (*self as u8 + 48u8) as char
        } else {
            '#'
        }
    }
}

/// A grid of `S` rows with `S` cells each.
pub struct SquareGrid<T, const S: usize>([[T; S]; S]);

impl<T, const S: usize> View for SquareGrid<T, S> {
    type V = Seq<Seq<T>>;

    /// The rows from top to bottom, each from left to right.
    closed spec fn view(&self) -> Seq<Seq<T>> {
        Seq::new(S as nat, |row: int| self.0@[row]@)
    }
}

/// The text that shows a grid: each row as one character per cell, followed by
/// a line feed.
pub open spec fn grid_text<T: ToGridChar>(rows: Seq<Seq<T>>, side: nat) -> Seq<char> {
    Seq::new(
        side * (side + 1),
        |i: int|
            if i % (side + 1) as int == side {
                '\n'
            } else {
                rows[i / (side + 1) as int][i % (side + 1) as int].grid_char()
            },
    )
}

impl<T, const S: usize> SquareGrid<T, S> {
    /// A grid has `S` rows of `S` cells.
    pub proof fn lemma_square(&self)
        ensures
            self@.len() == S,
            forall|row: int| 0 <= row < S ==> (#[trigger] self@[row]).len() == S,
    {
    }

    /// The grid with the given rows.
    pub fn from_array(array: [[T; S]; S]) -> (grid: Self)
        ensures
            grid@.len() == S,
            forall|row: int| 0 <= row < S ==> #[trigger] grid@[row] == array@[row]@,
    {
        SquareGrid(array)
    }

    /// The grid that holds `val` in every cell.
    pub fn new_with(val: T) -> (grid: Self) where T: Copy
        ensures
            grid@.len() == S,
            forall|row: int, col: int|
                0 <= row < S && 0 <= col < S ==> #[trigger] grid@[row][col] == val,
            forall|row: int| 0 <= row < S ==> (#[trigger] grid@[row]).len() == S,
    {
        Self::from_array([[val;S];S])
    }

    /// The cell in row `row` and column `col`.
    pub fn get(&self, row: usize, col: usize) -> (cell: &T)
        requires
            row < S,
            col < S,
        ensures
            *cell == self@[row as int][col as int],
    {
        &self.0[row][col]
    }

    /// Puts `value` into the cell in row `row` and column `col`.
    pub fn set(&mut self, row: usize, col: usize, value: T)
        requires
            row < S,
            col < S,
        ensures
            final(self)@ == old(self)@.update(
                row as int,
                old(self)@[row as int].update(col as int, value),
            ),
    {
        self.0[row][col] = value;
        proof {
            assert(self@ =~= old(self)@.update(
                row as int,
                old(self)@[row as int].update(col as int, value),
            ));
        }
    }

    /// Combines two grids cell by cell: each cell of the result is what
    /// `combine` makes of the two cells at its place.
    pub fn zip_with<F: Fn(T, T) -> T>(self, rhs: Self, combine: F) -> (out: Self) where T: Copy
        requires
            forall|row: int, col: int|
                0 <= row < S && 0 <= col < S ==> combine.requires(
                    (#[trigger] self@[row][col], rhs@[row][col]),
                ),
        ensures
            out@.len() == S,
            forall|row: int| 0 <= row < S ==> (#[trigger] out@[row]).len() == S,
            forall|row: int, col: int|
                0 <= row < S && 0 <= col < S ==> combine.ensures(
                    (self@[row][col], rhs@[row][col]),
                    #[trigger] out@[row][col],
                ),
    {
        let mut out = SquareGrid(self.0);
        let mut r: usize = 0;
        while r < S
            invariant
                r <= S,
                forall|row: int, col: int|
                    0 <= row < S && 0 <= col < S ==> combine.requires(
                        (#[trigger] self@[row][col], rhs@[row][col]),
                    ),
                forall|row: int, col: int|
                    0 <= row < r && 0 <= col < S ==> combine.ensures(
                        (self@[row][col], rhs@[row][col]),
                        #[trigger] out@[row][col],
                    ),
                forall|row: int, col: int|
                    r <= row < S && 0 <= col < S ==> #[trigger] out@[row][col] == self@[row][col],
            decreases S - r,
        {
            let mut c: usize = 0;
            while c < S
                invariant
                    r < S,
                    c <= S,
                    forall|row: int, col: int|
                        0 <= row < S && 0 <= col < S ==> combine.requires(
                            (#[trigger] self@[row][col], rhs@[row][col]),
                        ),
                    forall|row: int, col: int|
                        0 <= row < r && 0 <= col < S ==> combine.ensures(
                            (self@[row][col], rhs@[row][col]),
                            #[trigger] out@[row][col],
                        ),
                    forall|col: int|
                        0 <= col < c ==> combine.ensures(
                            (self@[r as int][col], rhs@[r as int][col]),
                            #[trigger] out@[r as int][col],
                        ),
                    forall|col: int|
                        c <= col < S ==> #[trigger] out@[r as int][col] == self@[r as int][col],
                    forall|row: int, col: int|
                        r < row < S && 0 <= col < S ==> #[trigger] out@[row][col]
                            == self@[row][col],
                decreases S - c,
            {
                assert(out@[r as int][c as int] == self@[r as int][c as int]);
                let cell = combine(*out.get(r, c), *rhs.get(r, c));
                out.set(r, c, cell);
                c += 1;
            }
            r += 1;
        }
        out
    }

    /// The grid as text: each row as one character per cell, followed by a line
    /// feed.
    pub fn to_text(&self) -> (text: String) where T: ToGridChar
        ensures
            text@ == grid_text(self@, S as nat),
    {
        string_of(&self.render())
    }

    /// Draws the grid as characters: each row as one character per cell,
    /// followed by a line feed.
    pub fn render(&self) -> (text: Vec<char>) where T: ToGridChar
        ensures
            text@ == grid_text(self@, S as nat),
    {
        let mut text: Vec<char> = Vec::new();
        let ghost width = S + 1;
        let mut r: usize = 0;
        while r < S
            invariant
                r <= S,
                width == S + 1,
                text@.len() == r * width,
                forall|i: int|
                    0 <= i < text@.len() ==> #[trigger] text@[i] == grid_text(self@, S as nat)[i],
            decreases S - r,
        {
            let mut c: usize = 0;
            while c < S
                invariant
                    r < S,
                    c <= S,
                    width == S + 1,
                    text@.len() == r * width + c,
                    forall|i: int|
                        0 <= i < text@.len() ==> #[trigger] text@[i] == grid_text(
                            self@,
                            S as nat,
                        )[i],
                decreases S - c,
            {
                proof {
                    lemma_cell_index(r as int, c as int, width);
                    lemma_text_len(r as int, c as int, S as int);
                }
                text.push(self.get(r, c).to_grid_char());
                c += 1;
            }
            proof {
                lemma_cell_index(r as int, S as int, width);
                lemma_text_len(r as int, S as int, S as int);
                assert((r + 1) * width == r * width + S + 1) by (nonlinear_arith)
                    requires
                        width == S + 1,
                ;
            }
            text.push('\n');
            r += 1;
        }
        proof {
            assert(S * width == S * (S + 1)) by (nonlinear_arith)
                requires
                    width == S + 1,
            ;
            assert(text@ =~= grid_text(self@, S as nat));
        }
        text
    }
}

/// Where the cell in row `row` and column `col` stands in a text with lines of
/// `width` characters.
proof fn lemma_cell_index(row: int, col: int, width: int)
    requires
        0 <= row,
        0 <= col < width,
    ensures
        (row * width + col) / width == row,
        (row * width + col) % width == col,
{
    lemma_fundamental_div_mod_converse(row * width + col, width, row, col);
}

/// A cell that exists stands within the text.
proof fn lemma_text_len(row: int, col: int, side: int)
    requires
        0 <= row < side,
        0 <= col <= side,
    ensures
        0 <= row * (side + 1) + col < side * (side + 1),
{
    assert(row * (side + 1) + col < side * (side + 1)) by (nonlinear_arith)
        requires
            0 <= row < side,
            0 <= col <= side,
    ;
    assert(0 <= row * (side + 1)) by (nonlinear_arith)
        requires
            0 <= row,
            0 <= side,
    ;
}

/// The edge of the grid at which a line starts.
#[derive(Clone, Copy, Debug, PartialEq, Eq, Structural)]
pub enum LineStart {
    Top,
    Bottom,
    Left,
    Right,
}

/// The cell at place `index` of the line that starts at the edge `start` with
/// the offset `offset`, in a grid of side `side`.
pub open spec fn line_cell(start: LineStart, offset: usize, side: nat, index: int) -> (usize, usize) {
    match start {
        LineStart::Top => (index as usize, offset),
        LineStart::Bottom => ((side - 1 - index) as usize, offset),
        LineStart::Left => (offset, index as usize),
        LineStart::Right => (offset, (side - 1 - index) as usize),
    }
}

/// The cells of the line that starts at the edge `start` with the offset
/// `offset`: a whole row or column of the grid, or nothing where the offset
/// lies outside the grid.
pub open spec fn line_cells(start: LineStart, offset: usize, side: nat) -> Seq<(usize, usize)> {
    Seq::new(
        if offset < side {
            side
        } else {
            0
        },
        |index: int| line_cell(start, offset, side, index),
    )
}

/// The cells of a line lie in the grid.
pub proof fn lemma_line_in_grid(start: LineStart, offset: usize, side: nat, index: int)
    requires
        0 <= index < line_cells(start, offset, side).len(),
        side <= usize::MAX,
    ensures
        line_cells(start, offset, side)[index].0 < side,
        line_cells(start, offset, side)[index].1 < side,
        line_cells(start, offset, side)[index] == line_cell(start, offset, side, index),
{
}

/// The direction in which a line crosses the grid: the step from one cell to
/// the next.
#[derive(Debug)]
struct LineOrientation {
    col_step: isize,
    row_step: isize,
}

/// The cells of one row or column of a grid of side `S`, handed out one by one
/// from an edge of the grid to the opposite one.
pub struct LineIterator<const S: usize> {
    orientation: LineOrientation,
    row: isize,
    col: isize,
}

impl<const S: usize> View for LineIterator<S> {
    type V = Seq<(usize, usize)>;

    /// The cells that are still to come, as row and column, in the order in which
    /// they come.
    closed spec fn view(&self) -> Seq<(usize, usize)> {
        Seq::new(
            self.cells_left(),
            |i: int|
                (
                    (self.row + i * self.orientation.row_step) as usize,
                    (self.col + i * self.orientation.col_step) as usize,
                ),
        )
    }
}

impl<const S: usize> LineIterator<S> {
    /// The line moves by one cell along a row or along a column, and the side of
    /// the grid fits into a signed index.
    pub closed spec fn wf(&self) -> bool {
        &&& S <= isize::MAX
        &&& {
            ||| self.orientation.row_step == 0 && (self.orientation.col_step == 1
                || self.orientation.col_step == -1)
            ||| self.orientation.col_step == 0 && (self.orientation.row_step == 1
                || self.orientation.row_step == -1)
        }
    }

    /// Whether the next cell lies in the grid.
    spec fn in_grid(&self) -> bool {
        0 <= self.row < S && 0 <= self.col < S
    }

    /// How many cells are still to come.
    spec fn cells_left(&self) -> nat {
        if !self.in_grid() {
            0
        } else if self.orientation.row_step == 1 {
            (S - self.row) as nat
        } else if self.orientation.row_step == -1 {
            (self.row + 1) as nat
        } else if self.orientation.col_step == 1 {
            (S - self.col) as nat
        } else {
            (self.col + 1) as nat
        }
    }

    /// The column `offset`, from the top row down.
    pub fn get_line_from_top(offset: usize) -> (line: LineIterator<S>)
        requires
            offset <= isize::MAX,
            S <= isize::MAX,
        ensures
            line.wf(),
            line@ == Seq::new(
                if offset < S {
                    S as nat
                } else {
                    0
                },
                |i: int| (i as usize, offset),
            ),
    {
        let line = LineIterator {
            orientation: LineOrientation { col_step: 0, row_step: 1 },
            col: offset as isize,
            row: 0,
        };
        proof {
            assert(line@ =~= Seq::new(
                if offset < S {
                    S as nat
                } else {
                    0
                },
                |i: int| (i as usize, offset),
            ));
        }
        line
    }

    /// The row `offset`, from the left column to the right.
    pub fn get_line_from_left(offset: usize) -> (line: LineIterator<S>)
        requires
            offset <= isize::MAX,
            S <= isize::MAX,
        ensures
            line.wf(),
            line@ == Seq::new(
                if offset < S {
                    S as nat
                } else {
                    0
                },
                |i: int| (offset, i as usize),
            ),
    {
        let line = LineIterator {
            orientation: LineOrientation { col_step: 1, row_step: 0 },
            col: 0,
            row: offset as isize,
        };
        proof {
            assert(line@ =~= Seq::new(
                if offset < S {
                    S as nat
                } else {
                    0
                },
                |i: int| (offset, i as usize),
            ));
        }
        line
    }

    /// The column `offset`, from the bottom row up.
    pub fn get_line_from_bottom(offset: usize) -> (line: LineIterator<S>)
        requires
            offset <= isize::MAX,
            S <= isize::MAX,
        ensures
            line.wf(),
            line@ == Seq::new(
                if offset < S {
                    S as nat
                } else {
                    0
                },
                |i: int| ((S - 1 - i) as usize, offset),
            ),
    {
        let line = LineIterator {
            orientation: LineOrientation { col_step: 0, row_step: -1 },
            col: offset as isize,
            row: S as isize - 1,
        };
        proof {
            assert(line@ =~= Seq::new(
                if offset < S {
                    S as nat
                } else {
                    0
                },
                |i: int| ((S - 1 - i) as usize, offset),
            ));
        }
        line
    }

    /// The row `offset`, from the right column to the left.
    pub fn get_line_from_right(offset: usize) -> (line: LineIterator<S>)
        requires
            offset <= isize::MAX,
            S <= isize::MAX,
        ensures
            line.wf(),
            line@ == Seq::new(
                if offset < S {
                    S as nat
                } else {
                    0
                },
                |i: int| (offset, (S - 1 - i) as usize),
            ),
    {
        let line = LineIterator {
            orientation: LineOrientation { col_step: -1, row_step: 0 },
            col: S as isize - 1,
            row: offset as isize,
        };
        proof {
            assert(line@ =~= Seq::new(
                if offset < S {
                    S as nat
                } else {
                    0
                },
                |i: int| (offset, (S - 1 - i) as usize),
            ));
        }
        line
    }

    /// The line that starts at the edge `start` with the offset `offset`.
    pub fn get_line(start: LineStart, offset: usize) -> (line: LineIterator<S>)
        requires
            offset <= isize::MAX,
            S <= isize::MAX,
        ensures
            line.wf(),
            line@ == line_cells(start, offset, S as nat),
    {
        let line = match start {
            LineStart::Top => Self::get_line_from_top(offset),
            LineStart::Bottom => Self::get_line_from_bottom(offset),
            LineStart::Left => Self::get_line_from_left(offset),
            LineStart::Right => Self::get_line_from_right(offset),
        };
        proof {
            assert(line@ =~= line_cells(start, offset, S as nat));
        }
        line
    }

    /// Hands out the next cell of the line, as row and column, or `None` once the
    /// line has left the grid.
    pub fn next(&mut self) -> (cell: Option<(usize, usize)>)
        requires
            old(self).wf(),
        ensures
            final(self).wf(),
            cell == (if old(self)@.len() > 0 {
                Some(old(self)@[0])
            } else {
                None
            }),
            final(self)@ == (if old(self)@.len() > 0 {
                old(self)@.drop_first()
            } else {
                old(self)@
            }),
    {
        let max_size = S as isize;
        if !(0 <= self.col && self.col < max_size) || !(0 <= self.row && self.row < max_size) {
            return None;
        }
        let ret = (self.row as usize, self.col as usize);
        self.col = self.col + self.orientation.col_step;
        self.row = self.row + self.orientation.row_step;
        proof {
            assert(self@.len() == old(self)@.len() - 1);
            assert forall|i: int| 0 <= i < self@.len() implies #[trigger] self@[i] == old(
                self,
            )@.drop_first()[i] by {
                let step_r = old(self).orientation.row_step as int;
                let step_c = old(self).orientation.col_step as int;
                assert((i + 1) * step_r == step_r + i * step_r) by (nonlinear_arith);
                assert((i + 1) * step_c == step_c + i * step_c) by (nonlinear_arith);
                assert(old(self)@.drop_first()[i] == old(self)@[i + 1]);
            }
            assert(self@ =~= old(self)@.drop_first());
        }
        Some(ret)
    }
}

} // verus!
