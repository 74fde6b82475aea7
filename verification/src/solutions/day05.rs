//! Supply stacks: a crane rearranges stacks of crates.
//!
//! The input draws the stacks, four characters per stack and one line per
//! level, numbers the stacks in a line below the drawing, and then lists the
//! moves of the crane.

use crate::helpers::parsing::{
    line_ending, newline_at, parse_all_from, parsed_all, parsed_unsigned, tag, text_u8, views_of,
    word_at, AocLineParsable, AocParsable,
};
use crate::helpers::text::string_of;
use vstd::prelude::*;
use vstd::string::StringSliceAdditionalSpecFns;

verus! {

/// A crate, known by its letter.
#[derive(Clone, Copy, Debug)]
pub struct CargoItem(pub char);

/// The crate that the drawing shows at offset `from`: a letter in square
/// brackets, or nothing where the drawing is blank.
pub fn parse_cargo_item_or_none(input: &[u8], from: usize) -> (item: Option<CargoItem>)
    requires
        from + 1 < input@.len(),
        input@[from as int] == 91 || input@[from as int] == 32,
    ensures
        item == (if input@[from as int] == 91 {
            Some(CargoItem(input@[from + 1] as char))
        } else {
            None
        }),
{
    if input[from] == 91 {
        Some(CargoItem(input[from + 1] as char))
    } else {
        None
    }
}

/// A stack of crates, the bottom one first.
#[derive(Clone, Debug)]
pub struct CargoStack(pub Vec<CargoItem>);

/// The stacks, from left to right.
#[derive(Clone, Debug)]
pub struct CargoStage(pub Vec<CargoStack>);

/// The letters of crates.
pub open spec fn letters_of(items: Seq<CargoItem>) -> Seq<char> {
    Seq::new(items.len(), |i: int| items[i].0)
}

impl View for CargoStage {
    type V = Seq<Seq<char>>;

    /// The letters of the crates of each stack, the bottom one first.
    open spec fn view(&self) -> Seq<Seq<char>> {
        Seq::new(self.0@.len(), |stack: int| letters_of(self.0@[stack].0@))
    }
}

/// Where the drawing shows the crate of stack `col` on line `row`, counted
/// from the start of the drawing.
pub open spec fn cell_offset(row: int, col: int, col_count: int) -> int {
    row * (col_count * 4) + col * 4
}

/// Where the drawing shows the crate of stack `col` on line `row`.
pub fn input_index_for_row_col(row: u8, col: usize, col_count: usize) -> (index: usize)
    requires
        cell_offset(row as int, col as int, col_count as int) <= usize::MAX,
        col_count * 4 <= usize::MAX,
        col * 4 <= usize::MAX,
    ensures
        index == cell_offset(row as int, col as int, col_count as int),
{
    proof {
        assert(0 <= row * (col_count * 4)) by (nonlinear_arith)
            requires
                0 <= row,
                0 <= col_count,
        ;
    }
    row as usize * (col_count * 4) + (col * 4)
}

/// A move of the crane: so many crates from one stack to another. Stacks are
/// numbered from one.
#[derive(Debug, Clone, Copy)]
pub struct MoveOperation {
    pub cargo_count: u8,
    pub from_col: u8,
    pub to_col: u8,
}

impl View for MoveOperation {
    type V = (u8, u8, u8);

    /// The number of crates, the stack they come from and the stack they go
    /// to.
    open spec fn view(&self) -> (u8, u8, u8) {
        (self.cargo_count, self.from_col, self.to_col)
    }
}

/// The three numbers of the move written at offset `from`, and the offset
/// behind it.
pub open spec fn move_at(input: Seq<u8>, from: int) -> Option<((u8, u8, u8), int)> {
    match word_at(input, from, seq![109u8, 111u8, 118u8, 101u8, 32u8]) {
        Some(count_from) => match parsed_unsigned(input, count_from, 255) {
            Some((count, behind_count)) => match word_at(
                input,
                behind_count,
                seq![32u8, 102u8, 114u8, 111u8, 109u8, 32u8],
            ) {
                Some(from_from) => match parsed_unsigned(input, from_from, 255) {
                    Some((source, behind_source)) => match word_at(
                        input,
                        behind_source,
                        seq![32u8, 116u8, 111u8, 32u8],
                    ) {
                        Some(to_from) => match parsed_unsigned(input, to_from, 255) {
                            Some((target, to)) => Some(
                                ((count as u8, source as u8, target as u8), to),
                            ),
                            None => None,
                        },
                        None => None,
                    },
                    None => None,
                },
                None => None,
            },
            None => None,
        },
        None => None,
    }
}

impl AocLineParsable for MoveOperation {
    /// `move`, a number, `from`, a number, `to`, a number.
    open spec fn parsed_line(input: Seq<u8>, from: int) -> Option<((u8, u8, u8), int)> {
        move_at(input, from)
    }

    fn parse_from_line(input: &[u8], from: usize) -> (read: Option<(Self, usize)>) {
        let word_move: [u8; 5] = [109, 111, 118, 101, 32];
        let word_from: [u8; 6] = [32, 102, 114, 111, 109, 32];
        let word_to: [u8; 4] = [32, 116, 111, 32];
        proof {
            assert(word_move@ =~= seq![109u8, 111u8, 118u8, 101u8, 32u8]);
            assert(word_from@ =~= seq![32u8, 102u8, 114u8, 111u8, 109u8, 32u8]);
            assert(word_to@ =~= seq![32u8, 116u8, 111u8, 32u8]);
        }
        let count_from = match tag(input, from, word_move.as_slice()) {
            Some(to) => to,
            None => {
                return None;
            },
        };
        let (cargo_count, behind_count) = match text_u8(input, count_from) {
            Some(read) => read,
            None => {
                return None;
            },
        };
        let from_from = match tag(input, behind_count, word_from.as_slice()) {
            Some(to) => to,
            None => {
                return None;
            },
        };
        let (from_col, behind_source) = match text_u8(input, from_from) {
            Some(read) => read,
            None => {
                return None;
            },
        };
        let to_from = match tag(input, behind_source, word_to.as_slice()) {
            Some(to) => to,
            None => {
                return None;
            },
        };
        let (to_col, to) = match text_u8(input, to_from) {
            Some(read) => read,
            None => {
                return None;
            },
        };
        Some((MoveOperation { cargo_count, from_col, to_col }, to))
    }
}

/// Whether the crane can make the move on the stacks: both stacks exist, and
/// the one that the crates come from holds as many.
pub open spec fn can_apply(stacks: Seq<Seq<char>>, op: (u8, u8, u8)) -> bool {
    &&& 1 <= op.1 <= stacks.len()
    &&& 1 <= op.2 <= stacks.len()
    &&& op.0 <= stacks[op.1 - 1].len()
}

/// The stacks after a crane that lifts one crate at a time has made the move:
/// the crates arrive in reverse order.
pub open spec fn moved_one_by_one(stacks: Seq<Seq<char>>, op: (u8, u8, u8)) -> Seq<Seq<char>> {
    let source = stacks[op.1 - 1];
    let kept = source.take(source.len() - op.0);
    let lifted = source.skip(source.len() - op.0);
    let without = stacks.update(op.1 - 1, kept);
    without.update(op.2 - 1, without[op.2 - 1] + lifted.reverse())
}

/// The stacks after a crane that lifts all crates at once has made the move:
/// the crates keep their order.
pub open spec fn moved_at_once(stacks: Seq<Seq<char>>, op: (u8, u8, u8)) -> Seq<Seq<char>> {
    let source = stacks[op.1 - 1];
    let kept = source.take(source.len() - op.0);
    let lifted = source.skip(source.len() - op.0);
    let without = stacks.update(op.1 - 1, kept);
    without.update(op.2 - 1, without[op.2 - 1] + lifted)
}

/// The letters of the top crates, from left to right, with nothing for an
/// empty stack.
pub open spec fn tops_of(stacks: Seq<Seq<char>>) -> Seq<char>
    decreases stacks.len(),
{
    if stacks.len() == 0 {
        Seq::empty()
    } else if stacks.last().len() == 0 {
        tops_of(stacks.drop_last())
    } else {
        tops_of(stacks.drop_last()).push(stacks.last().last())
    }
}

impl CargoStage {
    /// Lifts `count` crates off stack `from`, the top one first.
    fn lift(&mut self, from: usize, count: u8) -> (lifted: Vec<CargoItem>)
        requires
            from < old(self).0@.len(),
            count <= old(self).0@[from as int].0@.len(),
        ensures
            final(self).0@.len() == old(self).0@.len(),
            forall|stack: int|
                0 <= stack < old(self).0@.len() && stack != from ==> #[trigger] final(self).0@[stack]
                    == old(self).0@[stack],
            final(self).0@[from as int].0@ == old(self).0@[from as int].0@.take(
                old(self).0@[from as int].0@.len() - count,
            ),
            lifted@ == old(self).0@[from as int].0@.skip(
                old(self).0@[from as int].0@.len() - count,
            ).reverse(),
    {
        let ghost source = self.0@[from as int].0@;
        let mut lifted: Vec<CargoItem> = Vec::new();
        let mut done: u8 = 0;
        while done < count
            invariant
                done <= count <= source.len(),
                from < self.0@.len(),
                self.0@.len() == old(self).0@.len(),
                source == old(self).0@[from as int].0@,
                forall|stack: int|
                    0 <= stack < self.0@.len() && stack != from ==> #[trigger] self.0@[stack]
                        == old(self).0@[stack],
                self.0@[from as int].0@ == source.take(source.len() - done),
                lifted@.len() == done,
                forall|i: int| 0 <= i < done ==> #[trigger] lifted@[i] == source[source.len() - 1 - i],
            decreases count - done,
        {
            let item = self.0[from].0.pop().unwrap();
            lifted.push(item);
            done += 1;
            proof {
                assert(self.0@[from as int].0@ =~= source.take(source.len() - done));
            }
        }
        proof {
            assert(lifted@ =~= source.skip(source.len() - count).reverse());
        }
        lifted
    }

    /// Puts `crates` on stack `to`, the first one first.
    fn put_down(&mut self, to: usize, crates: &Vec<CargoItem>)
        requires
            to < old(self).0@.len(),
        ensures
            final(self).0@.len() == old(self).0@.len(),
            forall|stack: int|
                0 <= stack < old(self).0@.len() && stack != to ==> #[trigger] final(self).0@[stack]
                    == old(self).0@[stack],
            final(self).0@[to as int].0@ == old(self).0@[to as int].0@ + crates@,
    {
        let ghost target = self.0@[to as int].0@;
        let mut put: usize = 0;
        while put < crates.len()
            invariant
                put <= crates@.len(),
                to < self.0@.len(),
                self.0@.len() == old(self).0@.len(),
                target == old(self).0@[to as int].0@,
                forall|stack: int|
                    0 <= stack < self.0@.len() && stack != to ==> #[trigger] self.0@[stack] == old(
                        self,
                    ).0@[stack],
                self.0@[to as int].0@ == target + crates@.take(put as int),
            decreases crates@.len() - put,
        {
            let item = crates[put];
            self.0[to].0.push(item);
            put += 1;
            proof {
                assert(self.0@[to as int].0@ =~= target + crates@.take(put as int));
            }
        }
        proof {
            assert(crates@.take(crates@.len() as int) =~= crates@);
        }
    }

    /// Moves crates one by one.
    pub fn apply_move_9000(&mut self, move_op: &MoveOperation)
        requires
            can_apply(old(self)@, move_op@),
        ensures
            final(self)@ == moved_one_by_one(old(self)@, move_op@),
    {
        let from = move_op.from_col as usize - 1;
        let to = move_op.to_col as usize - 1;
        proof {
            assert(old(self)@[from as int].len() == old(self).0@[from as int].0@.len());
        }
        let moved = self.lift(from, move_op.cargo_count);
        let ghost lifted_off = *self;
        self.put_down(to, &moved);
        proof {
            let target = moved_one_by_one(old(self)@, move_op@);
            let source = old(self).0@[from as int].0@;
            let count = move_op.cargo_count as int;
            assert(letters_of(source.take(source.len() - count)) =~= letters_of(source).take(
                source.len() - count,
            ));
            assert(letters_of(source.skip(source.len() - count).reverse()) =~= letters_of(
                source,
            ).skip(source.len() - count).reverse());
            assert forall|stack: int| 0 <= stack < target.len() implies #[trigger] self@[stack]
                == target[stack] by {
                if stack == to {
                    assert(letters_of(lifted_off.0@[to as int].0@ + moved@) =~= letters_of(
                        lifted_off.0@[to as int].0@,
                    ) + letters_of(moved@));
                }
            }
            assert(self@ =~= target);
        }
    }

    /// Moves crates all at once.
    pub fn apply_move_9001(&mut self, move_op: &MoveOperation)
        requires
            can_apply(old(self)@, move_op@),
        ensures
            final(self)@ == moved_at_once(old(self)@, move_op@),
    {
        let from = move_op.from_col as usize - 1;
        let to = move_op.to_col as usize - 1;
        proof {
            assert(old(self)@[from as int].len() == old(self).0@[from as int].0@.len());
        }
        let lifted = self.lift(from, move_op.cargo_count);
        let ghost lifted_off = *self;
        let mut moved: Vec<CargoItem> = Vec::new();
        let mut left = lifted.len();
        while left > 0
            invariant
                left <= lifted@.len(),
                moved@ == lifted@.skip(left as int).reverse(),
            decreases left,
        {
            left -= 1;
            moved.push(lifted[left]);
            proof {
                assert(moved@ =~= lifted@.skip(left as int).reverse());
            }
        }
        self.put_down(to, &moved);
        proof {
            let target = moved_at_once(old(self)@, move_op@);
            let source = old(self).0@[from as int].0@;
            let count = move_op.cargo_count as int;
            assert(moved@ =~= source.skip(source.len() - count));
            assert(letters_of(source.take(source.len() - count)) =~= letters_of(source).take(
                source.len() - count,
            ));
            assert(letters_of(source.skip(source.len() - count)) =~= letters_of(source).skip(
                source.len() - count,
            ));
            assert forall|stack: int| 0 <= stack < target.len() implies #[trigger] self@[stack]
                == target[stack] by {
                if stack == to {
                    assert(letters_of(lifted_off.0@[to as int].0@ + moved@) =~= letters_of(
                        lifted_off.0@[to as int].0@,
                    ) + letters_of(moved@));
                }
            }
            assert(self@ =~= target);
        }
    }

    /// The letters of the top crates, from left to right.
    pub fn read_top(&self) -> (tops: String)
        ensures
            tops@ == tops_of(self@),
    {
        let mut tops: Vec<char> = Vec::new();
        let mut stack: usize = 0;
        while stack < self.0.len()
            invariant
                stack <= self.0@.len(),
                tops@ == tops_of(self@.take(stack as int)),
            decreases self.0@.len() - stack,
        {
            proof {
                assert(self@.take(stack + 1).drop_last() =~= self@.take(stack as int));
                assert(self@.take(stack + 1).last() == self@[stack as int]);
            }
            let items = &self.0[stack].0;
            if items.len() > 0 {
                tops.push(items[items.len() - 1].0);
            }
            stack += 1;
        }
        proof {
            assert(self@.take(self.0@.len() as int) =~= self@);
        }
        string_of(&tops)
    }
}

/// The offset of the first line feed at or behind offset `from`.
pub open spec fn line_feed_at(input: Seq<u8>, from: int) -> Option<int>
    decreases input.len() - from,
{
    if from < 0 || from >= input.len() {
        None
    } else if input[from] == 10 {
        Some(from)
    } else {
        line_feed_at(input, from + 1)
    }
}

/// Whether the line at offset `at` numbers the stacks: it starts with a blank
/// and the digit one.
pub open spec fn is_label_line(input: Seq<u8>, at: int) -> bool {
    0 <= at && at + 2 <= input.len() && input[at] == 32 && input[at + 1] == 49
}

/// The number of lines of the drawing, from line `row` on the first that
/// numbers the stacks. Nothing where the input ends before such a line, or
/// where there are more than 255 lines above it.
pub open spec fn levels_at(input: Seq<u8>, from: int, width: int, row: int) -> Option<int>
    decreases 256 - row,
{
    let at = from + row * width;
    if row < 0 || row > 255 || at + 2 > input.len() {
        None
    } else if is_label_line(input, at) {
        Some(row)
    } else {
        levels_at(input, from, width, row + 1)
    }
}

/// The crates that the drawing shows for stack `col` on the lines from `row`
/// down to the last of the `rows` lines, the lowest crate first.
pub open spec fn stack_below(
    input: Seq<u8>,
    from: int,
    cols: int,
    rows: int,
    col: int,
    row: int,
) -> Seq<char>
    decreases rows - row,
{
    if row >= rows {
        Seq::empty()
    } else {
        let below = stack_below(input, from, cols, rows, col, row + 1);
        let at = from + cell_offset(row, col, cols);
        if input[at] == 91 {
            below.push(input[at + 1] as char)
        } else {
            below
        }
    }
}

/// Whether the drawing shows a crate or a blank wherever a stack could have a
/// crate.
pub open spec fn cells_ok(input: Seq<u8>, from: int, cols: int, rows: int) -> bool {
    forall|row: int, col: int|
        0 <= row < rows && 0 <= col < cols ==> {
            let byte = #[trigger] input[from + cell_offset(row, col, cols)];
            byte == 91 || byte == 32
        }
}

/// The stacks that the drawing at offset `from` shows, and the offset behind
/// the line that numbers them.
pub open spec fn stage_at(input: Seq<u8>, from: int) -> Option<(Seq<Seq<char>>, int)> {
    match line_feed_at(input, from) {
        Some(feed) => {
            let width = feed - from + 1;
            let cols = width / 4;
            if width % 4 != 0 {
                None
            } else {
                match levels_at(input, from, width, 0) {
                    Some(rows) => {
                        let behind = from + (rows + 1) * width;
                        if behind <= input.len() && cells_ok(input, from, cols, rows) {
                            Some(
                                (
                                    Seq::new(
                                        cols as nat,
                                        |col: int| stack_below(input, from, cols, rows, col, 0),
                                    ),
                                    behind,
                                ),
                            )
                        } else {
                            None
                        }
                    },
                    None => None,
                }
            }
        },
        None => None,
    }
}

/// The first line feed behind bytes that are none is the one that is found
/// from their start.
proof fn lemma_line_feed(input: Seq<u8>, from: int, feed: int)
    requires
        0 <= from <= feed <= input.len(),
        forall|i: int| from <= i < feed ==> input[i] != 10,
        feed < input.len() ==> input[feed] == 10,
    ensures
        line_feed_at(input, from) == (if feed < input.len() {
            Some(feed)
        } else {
            None
        }),
    decreases feed - from,
{
    if from < feed {
        lemma_line_feed(input, from + 1, feed);
    }
}

/// The lines of the drawing lie within the input, one behind the other.
proof fn lemma_cell_in_drawing(row: int, col: int, cols: int, rows: int)
    requires
        0 <= row < rows,
        0 <= col < cols,
    ensures
        0 <= cell_offset(row, col, cols),
        cell_offset(row, col, cols) + 4 <= rows * (cols * 4),
        cell_offset(row, col, cols) == row * (cols * 4) + col * 4,
{
    assert(row * (cols * 4) + (cols * 4) <= rows * (cols * 4)) by (nonlinear_arith)
        requires
            0 <= row < rows,
            0 <= cols,
    ;
    assert(0 <= row * (cols * 4)) by (nonlinear_arith)
        requires
            0 <= row,
            0 <= cols,
    ;
}

impl AocParsable for CargoStage {
    open spec fn parsed(input: Seq<u8>, from: int) -> Option<(Seq<Seq<char>>, int)> {
        stage_at(input, from)
    }

    fn parse_from_string(input: &[u8], from: usize) -> (read: Option<(Self, usize)>) {
        let mut feed = from;
        while feed < input.len() && input[feed] != 10
            invariant
                from <= feed <= input@.len(),
                forall|i: int| from <= i < feed ==> input@[i] != 10,
            decreases input@.len() - feed,
        {
            feed += 1;
        }
        proof {
            lemma_line_feed(input@, from as int, feed as int);
        }
        if feed >= input.len() {
            return None;
        }
        let first_newline = feed - from + 1;
        if first_newline % 4 != 0 {
            return None;
        }
        let column_count = first_newline / 4;
        let ghost width = first_newline as int;
        let ghost cols = column_count as int;

        let mut row_count: u8 = 0;
        let mut row_start_index = from;
        loop
            invariant
                width == first_newline,
                width == cols * 4,
                cols == column_count,
                width >= 4,
                line_feed_at(input@, from as int) == Some(from + width - 1),
                row_start_index == from + row_count * width,
                row_start_index <= input@.len(),
                levels_at(input@, from as int, width, 0) == levels_at(
                    input@,
                    from as int,
                    width,
                    row_count as int,
                ),
            ensures
                levels_at(input@, from as int, width, 0) == Some(row_count as int),
                row_start_index == from + row_count * width,
                row_start_index + 2 <= input@.len(),
            decreases 255 - row_count,
        {
            if input.len() - row_start_index < 2 {
                return None;
            }
            if input[row_start_index] == 32 && input[row_start_index + 1] == 49 {
                break ;
            }
            if row_count == 255 || input.len() - row_start_index < first_newline {
                proof {
                    assert((row_count + 1) * width == row_count * width + width)
                        by (nonlinear_arith);
                    assert(levels_at(input@, from as int, width, row_count + 1) is None);
                    assert(levels_at(input@, from as int, width, row_count as int) is None);
                }
                return None;
            }
            proof {
                assert((row_count + 1) * width == row_count * width + width) by (nonlinear_arith);
            }
            row_count += 1;
            row_start_index += first_newline;
        }
        let ghost rows = row_count as int;
        proof {
            assert((rows + 1) * width == rows * width + width) by (nonlinear_arith);
        }
        if input.len() - row_start_index < first_newline {
            return None;
        }
        let rest = row_start_index + first_newline;

        let mut columns: Vec<CargoStack> = Vec::new();
        let mut made: usize = 0;
        while made < column_count
            invariant
                made <= column_count,
                columns@.len() == made,
                forall|col: int| 0 <= col < made ==> (#[trigger] columns@[col]).0@.len() == 0,
            decreases column_count - made,
        {
            columns.push(CargoStack(Vec::new()));
            made += 1;
        }
        let mut row = row_count;
        while row > 0
            invariant
                row <= row_count,
                rows == row_count,
                width == first_newline,
                width == cols * 4,
                cols == column_count,
                from + rows * width + 2 <= input@.len() <= usize::MAX,
                line_feed_at(input@, from as int) == Some(from + width - 1),
                levels_at(input@, from as int, width, 0) == Some(rows),
                columns@.len() == column_count,
                forall|r: int, c: int|
                    row <= r < rows && 0 <= c < cols ==> {
                        let byte = #[trigger] input@[from + cell_offset(r, c, cols)];
                        byte == 91 || byte == 32
                    },
                forall|col: int|
                    0 <= col < cols ==> letters_of((#[trigger] columns@[col]).0@) == stack_below(
                        input@,
                        from as int,
                        cols,
                        rows,
                        col,
                        row as int,
                    ),
            decreases row,
        {
            row -= 1;
            let mut col: usize = 0;
            while col < column_count
                invariant
                    col <= column_count,
                    row < row_count,
                    rows == row_count,
                    width == first_newline,
                    width == cols * 4,
                    cols == column_count,
                    from + rows * width + 2 <= input@.len() <= usize::MAX,
                    line_feed_at(input@, from as int) == Some(from + width - 1),
                    levels_at(input@, from as int, width, 0) == Some(rows),
                    columns@.len() == column_count,
                    forall|r: int, c: int|
                        row < r < rows && 0 <= c < cols ==> {
                            let byte = #[trigger] input@[from + cell_offset(r, c, cols)];
                            byte == 91 || byte == 32
                        },
                    forall|c: int|
                        0 <= c < col ==> {
                            let byte = #[trigger] input@[from + cell_offset(row as int, c, cols)];
                            byte == 91 || byte == 32
                        },
                    forall|c: int|
                        0 <= c < col ==> letters_of((#[trigger] columns@[c]).0@) == stack_below(
                            input@,
                            from as int,
                            cols,
                            rows,
                            c,
                            row as int,
                        ),
                    forall|c: int|
                        col <= c < cols ==> letters_of((#[trigger] columns@[c]).0@) == stack_below(
                            input@,
                            from as int,
                            cols,
                            rows,
                            c,
                            row + 1,
                        ),
                decreases column_count - col,
            {
                proof {
                    lemma_cell_in_drawing(row as int, col as int, cols, rows);
                    assert(rows * (cols * 4) == rows * width) by (nonlinear_arith)
                        requires
                            width == cols * 4,
                    ;
                }
                let at = from + input_index_for_row_col(row, col, column_count);
                if input[at] != 91 && input[at] != 32 {
                    proof {
                        let byte = input@[from + cell_offset(row as int, col as int, cols)];
                        assert(!(byte == 91 || byte == 32));
                        assert(!cells_ok(input@, from as int, cols, rows));
                    }
                    return None;
                }
                let ghost before = columns@[col as int].0@;
                if let Some(item) = parse_cargo_item_or_none(input, at) {
                    columns[col].0.push(item);
                    proof {
                        assert(letters_of(columns@[col as int].0@) =~= letters_of(before).push(
                            item.0,
                        ));
                    }
                }
                col += 1;
            }
        }
        let cargo_stack = CargoStage(columns);
        proof {
            assert(cells_ok(input@, from as int, cols, rows));
            assert(cargo_stack@ =~= Seq::new(
                cols as nat,
                |col: int| stack_below(input@, from as int, cols, rows, col, 0),
            ));
        }
        Some((cargo_stack, rest))
    }
}

/// The offset behind the line ends that follow one another from offset `from`
/// on.
pub open spec fn line_ends_at(input: Seq<u8>, from: int) -> int
    decreases input.len() - from,
{
    match newline_at(input, from) {
        Some(next) => if from < next <= input.len() {
            line_ends_at(input, next)
        } else {
            from
        },
        None => from,
    }
}

/// What the input says: the stacks that it draws, and behind at least one line
/// end the moves that it lists, at least one, up to its end.
pub open spec fn plan_of(input: Seq<u8>) -> Option<(Seq<Seq<char>>, Seq<(u8, u8, u8)>)> {
    match stage_at(input, 0) {
        Some((stacks, behind)) => {
            let moves_from = line_ends_at(input, behind);
            match parsed_all::<MoveOperation>(input, moves_from) {
                Some(moves) => if behind < moves_from && moves.len() >= 1 {
                    Some((stacks, moves))
                } else {
                    None
                },
                None => None,
            }
        },
        None => None,
    }
}

/// The stacks after the first `count` moves, made all at once or one crate
/// at a time. Nothing where the crane cannot make one of them.
pub open spec fn rearranged(
    stacks: Seq<Seq<char>>,
    moves: Seq<(u8, u8, u8)>,
    count: nat,
    at_once: bool,
) -> Option<Seq<Seq<char>>>
    decreases count,
{
    if count == 0 {
        Some(stacks)
    } else {
        match rearranged(stacks, moves, (count - 1) as nat, at_once) {
            Some(before) => if can_apply(before, moves[count - 1]) {
                Some(
                    if at_once {
                        moved_at_once(before, moves[count - 1])
                    } else {
                        moved_one_by_one(before, moves[count - 1])
                    },
                )
            } else {
                None
            },
            None => None,
        }
    }
}

/// The letters of the top crates once the crane has made all moves of the
/// input. Nothing where the input is no plan, or the crane cannot make one of
/// the moves.
pub open spec fn tops_after(input: Seq<u8>, at_once: bool) -> Option<Seq<char>> {
    match plan_of(input) {
        Some((stacks, moves)) => match rearranged(stacks, moves, moves.len(), at_once) {
            Some(end) => Some(tops_of(end)),
            None => None,
        },
        None => None,
    }
}

/// Once the crane cannot make a move, the rearrangement stays undone.
proof fn lemma_later_moves(
    stacks: Seq<Seq<char>>,
    moves: Seq<(u8, u8, u8)>,
    failed: nat,
    count: nat,
    at_once: bool,
)
    requires
        failed < count,
        rearranged(stacks, moves, failed + 1, at_once) is None,
    ensures
        rearranged(stacks, moves, count, at_once) is None,
    decreases count,
{
    if count > failed + 1 {
        lemma_later_moves(stacks, moves, failed, (count - 1) as nat, at_once);
    }
}

impl CargoStage {
    /// Whether the crane can make the move.
    pub fn can_apply_move(&self, move_op: &MoveOperation) -> (possible: bool)
        ensures
            possible == can_apply(self@, move_op@),
    {
        if move_op.from_col == 0 || move_op.to_col == 0 {
            return false;
        }
        if move_op.from_col as usize > self.0.len() || move_op.to_col as usize > self.0.len() {
            return false;
        }
        proof {
            assert(self@[move_op.from_col - 1].len() == self.0@[move_op.from_col - 1].0@.len());
        }
        move_op.cargo_count as usize <= self.0[move_op.from_col as usize - 1].0.len()
    }
}

/// Reads the plan and lets the crane make its moves.
pub fn rearrange(input: &[u8], at_once: bool) -> (tops: Option<String>)
    ensures
        match tops {
            Some(text) => tops_after(input@, at_once) == Some(text@),
            None => tops_after(input@, at_once) is None,
        },
{
    let (mut stage, behind) = match CargoStage::parse_from_string(input, 0) {
        Some(read) => read,
        None => {
            return None;
        },
    };
    let ghost stacks = stage@;
    let mut moves_from = behind;
    loop
        invariant
            behind <= moves_from <= input@.len(),
            line_ends_at(input@, behind as int) == line_ends_at(input@, moves_from as int),
        ensures
            moves_from == line_ends_at(input@, behind as int),
            behind <= moves_from <= input@.len(),
        decreases input@.len() - moves_from,
    {
        match line_ending(input, moves_from) {
            Some(next) => {
                moves_from = next;
            },
            None => {
                break ;
            },
        }
    }
    if moves_from == behind {
        return None;
    }
    let move_ops: Vec<MoveOperation> = match parse_all_from(input, moves_from) {
        Some(move_ops) => move_ops,
        None => {
            return None;
        },
    };
    if move_ops.len() == 0 {
        return None;
    }
    let ghost moves = views_of(move_ops@);
    let mut done: usize = 0;
    while done < move_ops.len()
        invariant
            done <= move_ops@.len(),
            moves == views_of(move_ops@),
            plan_of(input@) == Some((stacks, moves)),
            rearranged(stacks, moves, done as nat, at_once) == Some(stage@),
        decreases move_ops@.len() - done,
    {
        let op = &move_ops[done];
        proof {
            assert(moves[done as int] == op@);
        }
        if !stage.can_apply_move(op) {
            proof {
                assert(rearranged(stacks, moves, (done + 1) as nat, at_once) is None);
                lemma_later_moves(stacks, moves, done as nat, moves.len(), at_once);
            }
            return None;
        }
        if at_once {
            stage.apply_move_9001(op);
        } else {
            stage.apply_move_9000(op);
        }
        done += 1;
    }
    Some(stage.read_top())
}

/// The top crates after a crane that lifts one crate at a time has made the
/// moves.
pub fn part_one(input: &str) -> (tops: Option<String>)
    ensures
        match tops {
            Some(text) => tops_after(input.spec_bytes(), false) == Some(text@),
            None => tops_after(input.spec_bytes(), false) is None,
        },
{
    rearrange(input.as_bytes(), false)
}

/// The top crates after a crane that lifts all crates of a move at once has
/// made the moves.
pub fn part_two(input: &str) -> (tops: Option<String>)
    ensures
        match tops {
            Some(text) => tops_after(input.spec_bytes(), true) == Some(text@),
            None => tops_after(input.spec_bytes(), true) is None,
        },
{
    rearrange(input.as_bytes(), true)
}

} // verus!
