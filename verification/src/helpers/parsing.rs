//! Reading puzzle input: decimal numbers, line ends, fixed words, and whole
//! inputs made of one kind of record after another.
//!
//! Every reader takes the input and the offset at which to read, and returns
//! what it read together with the offset behind it, or `None` where the input
//! does not start with what it reads.

use vstd::prelude::*;

verus! {

/// Whether `byte` is an ASCII decimal digit.
pub open spec fn is_digit(byte: u8) -> bool {
    48 <= byte <= 57
}

/// The number of decimal digits that `input` holds from offset `from` on.
pub open spec fn digits_at(input: Seq<u8>, from: int) -> nat
    decreases input.len() - from,
{
    if 0 <= from < input.len() && is_digit(input[from]) {
        1 + digits_at(input, from + 1)
    } else {
        0
    }
}

/// The number that a run of decimal digits denotes.
pub open spec fn decimal_value(digits: Seq<u8>) -> nat
    decreases digits.len(),
{
    if digits.len() == 0 {
        0
    } else {
        decimal_value(digits.drop_last()) * 10 + (digits.last() - 48) as nat
    }
}

/// What a reader of unsigned numbers up to `max` finds at offset `from`: the
/// value of the longest run of digits there and the offset behind it; nothing
/// where there is no digit or the value exceeds `max`.
pub open spec fn parsed_unsigned(input: Seq<u8>, from: int, max: nat) -> Option<(nat, int)> {
    let count = digits_at(input, from);
    let value = decimal_value(input.subrange(from, from + count));
    if count == 0 || value > max {
        None
    } else {
        Some((value, from + count))
    }
}

/// A run of digits that ends at a byte that is no digit, or at the end of the
/// input, is the run that is counted from its start.
pub proof fn lemma_digits_run(input: Seq<u8>, from: int, to: int)
    requires
        0 <= from <= to <= input.len(),
        forall|i: int| from <= i < to ==> is_digit(#[trigger] input[i]),
        to < input.len() ==> !is_digit(input[to]),
    ensures
        digits_at(input, from) == to - from,
    decreases to - from,
{
    if from < to {
        lemma_digits_run(input, from + 1, to);
    }
}

/// Reads an unsigned decimal number of at most `max`.
pub fn text_unsigned(input: &[u8], from: usize, max: u64) -> (read: Option<(u64, usize)>)
    requires
        from <= input@.len(),
    ensures
        match read {
            Some((value, to)) => parsed_unsigned(input@, from as int, max as nat) == Some(
                (value as nat, to as int),
            ) && from < to <= input@.len(),
            None => parsed_unsigned(input@, from as int, max as nat) is None,
        },
{
    let mut to = from;
    let mut value: u64 = 0;
    let mut fits = true;
    while to < input.len() && input[to] >= 48 && input[to] <= 57
        invariant
            from <= to <= input@.len(),
            forall|i: int| from <= i < to ==> is_digit(#[trigger] input@[i]),
            fits ==> value == decimal_value(input@.subrange(from as int, to as int)),
            fits ==> value <= max,
            !fits ==> decimal_value(input@.subrange(from as int, to as int)) > max,
        decreases input@.len() - to,
    {
        let digit = (input[to] - 48) as u64;
        proof {
            assert(input@.subrange(from as int, to + 1).drop_last() =~= input@.subrange(
                from as int,
                to as int,
            ));
        }
        if fits {
            let next = match value.checked_mul(10) {
                Some(tenfold) => tenfold.checked_add(digit),
                None => None,
            };
            match next {
                Some(next) => {
                    if next <= max {
                        value = next;
                    } else {
                        fits = false;
                    }
                },
                None => {
                    fits = false;
                },
            }
        }
        to += 1;
    }
    proof {
        lemma_digits_run(input@, from as int, to as int);
    }
    if to == from || !fits {
        None
    } else {
        Some((value, to))
    }
}

/// Reads an unsigned decimal number that fits into `u8`.
pub fn text_u8(input: &[u8], from: usize) -> (read: Option<(u8, usize)>)
    requires
        from <= input@.len(),
    ensures
        match read {
            Some((value, to)) => parsed_unsigned(input@, from as int, u8::MAX as nat) == Some(
                (value as nat, to as int),
            ) && from < to <= input@.len(),
            None => parsed_unsigned(input@, from as int, u8::MAX as nat) is None,
        },
{
    match text_unsigned(input, from, u8::MAX as u64) {
        Some((value, to)) => Some((value as u8, to)),
        None => None,
    }
}

/// Reads an unsigned decimal number that fits into `u16`.
pub fn text_u16(input: &[u8], from: usize) -> (read: Option<(u16, usize)>)
    requires
        from <= input@.len(),
    ensures
        match read {
            Some((value, to)) => parsed_unsigned(input@, from as int, u16::MAX as nat) == Some(
                (value as nat, to as int),
            ) && from < to <= input@.len(),
            None => parsed_unsigned(input@, from as int, u16::MAX as nat) is None,
        },
{
    match text_unsigned(input, from, u16::MAX as u64) {
        Some((value, to)) => Some((value as u16, to)),
        None => None,
    }
}

/// Reads an unsigned decimal number that fits into `u32`.
pub fn text_u32(input: &[u8], from: usize) -> (read: Option<(u32, usize)>)
    requires
        from <= input@.len(),
    ensures
        match read {
            Some((value, to)) => parsed_unsigned(input@, from as int, u32::MAX as nat) == Some(
                (value as nat, to as int),
            ) && from < to <= input@.len(),
            None => parsed_unsigned(input@, from as int, u32::MAX as nat) is None,
        },
{
    match text_unsigned(input, from, u32::MAX as u64) {
        Some((value, to)) => Some((value as u32, to)),
        None => None,
    }
}

/// Reads an unsigned decimal number that fits into `u64`.
pub fn text_u64(input: &[u8], from: usize) -> (read: Option<(u64, usize)>)
    requires
        from <= input@.len(),
    ensures
        match read {
            Some((value, to)) => parsed_unsigned(input@, from as int, u64::MAX as nat) == Some(
                (value as nat, to as int),
            ) && from < to <= input@.len(),
            None => parsed_unsigned(input@, from as int, u64::MAX as nat) is None,
        },
{
    text_unsigned(input, from, u64::MAX)
}

/// What a reader of signed numbers from `min` to `max` finds at offset `from`:
/// the value of the longest run of digits there, negated behind a minus sign,
/// and the offset behind it.
pub open spec fn parsed_signed(input: Seq<u8>, from: int, min: int, max: int) -> Option<
    (int, int),
> {
    if 0 <= from < input.len() && input[from] == 45 {
        match parsed_unsigned(input, from + 1, (-min) as nat) {
            Some((value, to)) => Some((-(value as int), to)),
            None => None,
        }
    } else {
        match parsed_unsigned(input, from, max as nat) {
            Some((value, to)) => Some((value as int, to)),
            None => None,
        }
    }
}

/// Reads a decimal number that fits into `i16`, with or without a minus sign.
pub fn text_i16(input: &[u8], from: usize) -> (read: Option<(i16, usize)>)
    requires
        from <= input@.len(),
    ensures
        match read {
            Some((value, to)) => parsed_signed(
                input@,
                from as int,
                i16::MIN as int,
                i16::MAX as int,
            ) == Some((value as int, to as int)) && from < to <= input@.len(),
            None => parsed_signed(input@, from as int, i16::MIN as int, i16::MAX as int) is None,
        },
{
    if from < input.len() && input[from] == 45 {
        match text_unsigned(input, from + 1, 32768) {
            Some((value, to)) => Some(((0 - value as i32) as i16, to)),
            None => None,
        }
    } else {
        match text_unsigned(input, from, 32767) {
            Some((value, to)) => Some((value as i16, to)),
            None => None,
        }
    }
}

/// Where the line that ends at offset `from` is over: behind a line feed, behind
/// a carriage return with a line feed, or at the end of the input. Nothing
/// where the line goes on.
pub open spec fn line_end(input: Seq<u8>, from: int) -> Option<int> {
    if 0 <= from < input.len() && input[from] == 10 {
        Some(from + 1)
    } else if 0 <= from && from + 1 < input.len() && input[from] == 13 && input[from + 1] == 10 {
        Some(from + 2)
    } else if from == input.len() {
        Some(from)
    } else {
        None
    }
}

/// Reads the end of a line, or nothing at the end of the input.
pub fn line_ending_or_eof(input: &[u8], from: usize) -> (read: Option<usize>)
    requires
        from <= input@.len(),
    ensures
        match read {
            Some(to) => line_end(input@, from as int) == Some(to as int) && from <= to
                <= input@.len(),
            None => line_end(input@, from as int) is None,
        },
{
    if from < input.len() && input[from] == 10 {
        Some(from + 1)
    } else if from < input.len() && input.len() - from >= 2 && input[from] == 13 && input[from
        + 1] == 10 {
        Some(from + 2)
    } else if from == input.len() {
        Some(from)
    } else {
        None
    }
}

/// Where the line feed at offset `from` is over, with or without a carriage
/// return before it.
pub open spec fn newline_at(input: Seq<u8>, from: int) -> Option<int> {
    if 0 <= from < input.len() && input[from] == 10 {
        Some(from + 1)
    } else if 0 <= from && from + 1 < input.len() && input[from] == 13 && input[from + 1] == 10 {
        Some(from + 2)
    } else {
        None
    }
}

/// Reads the end of a line that the input does not end with.
pub fn line_ending(input: &[u8], from: usize) -> (read: Option<usize>)
    requires
        from <= input@.len(),
    ensures
        match read {
            Some(to) => newline_at(input@, from as int) == Some(to as int) && from < to
                <= input@.len(),
            None => newline_at(input@, from as int) is None,
        },
{
    if from < input.len() && input[from] == 10 {
        Some(from + 1)
    } else if from < input.len() && input.len() - from >= 2 && input[from] == 13 && input[from
        + 1] == 10 {
        Some(from + 2)
    } else {
        None
    }
}

/// Where `word` ends if the input holds it at offset `from`.
pub open spec fn word_at(input: Seq<u8>, from: int, word: Seq<u8>) -> Option<int> {
    if 0 <= from && from + word.len() <= input.len() && input.subrange(from, from + word.len())
        == word {
        Some(from + word.len())
    } else {
        None
    }
}

/// Reads the fixed word `word`.
pub fn tag(input: &[u8], from: usize, word: &[u8]) -> (read: Option<usize>)
    requires
        from <= input@.len(),
    ensures
        match read {
            Some(to) => word_at(input@, from as int, word@) == Some(to as int) && to
                <= input@.len(),
            None => word_at(input@, from as int, word@) is None,
        },
{
    if input.len() - from < word.len() {
        return None;
    }
    let mut i: usize = 0;
    while i < word.len()
        invariant
            i <= word@.len(),
            from + word@.len() <= input@.len() <= usize::MAX,
            forall|j: int| 0 <= j < i ==> input@[from + j] == word@[j],
        decreases word@.len() - i,
    {
        if input[from + i] != word[i] {
            proof {
                assert(input@.subrange(from as int, from + word@.len())[i as int] != word@[i as int]);
            }
            return None;
        }
        i += 1;
    }
    proof {
        assert(input@.subrange(from as int, from + word@.len()) =~= word@);
    }
    Some(from + word.len())
}

/// A record that can be read from puzzle input.
pub trait AocParsable: Sized + View {
    /// What the record holds that the input has at offset `from`, and the
    /// offset behind it.
    spec fn parsed(input: Seq<u8>, from: int) -> Option<(Self::V, int)>;

    /// Reads a record at offset `from`.
    fn parse_from_string(input: &[u8], from: usize) -> (read: Option<(Self, usize)>)
        requires
            from <= input@.len(),
        ensures
            match read {
                Some((record, to)) => Self::parsed(input@, from as int) == Some(
                    (record@, to as int),
                ) && from <= to <= input@.len(),
                None => Self::parsed(input@, from as int) is None,
            },
    ;
}

/// A record that fills one line of puzzle input.
pub trait AocLineParsable: Sized + View {
    /// What the record holds that the input has at offset `from`, without the
    /// end of its line, and the offset behind it.
    spec fn parsed_line(input: Seq<u8>, from: int) -> Option<(Self::V, int)>;

    /// Reads a record at offset `from`, without the end of its line.
    fn parse_from_line(input: &[u8], from: usize) -> (read: Option<(Self, usize)>)
        requires
            from <= input@.len(),
        ensures
            match read {
                Some((record, to)) => Self::parsed_line(input@, from as int) == Some(
                    (record@, to as int),
                ) && from <= to <= input@.len(),
                None => Self::parsed_line(input@, from as int) is None,
            },
    ;
}

/// A record of one line, read together with the end of its line.
pub open spec fn parsed_with_line_end<T: AocLineParsable>(input: Seq<u8>, from: int) -> Option<
    (T::V, int),
> {
    match T::parsed_line(input, from) {
        Some((record, to)) => match line_end(input, to) {
            Some(behind) => Some((record, behind)),
            None => None,
        },
        None => None,
    }
}

/// Reads a record of one line together with the end of its line.
pub fn parse_line<T: AocLineParsable>(input: &[u8], from: usize) -> (read: Option<(T, usize)>)
    requires
        from <= input@.len(),
    ensures
        match read {
            Some((record, to)) => parsed_with_line_end::<T>(input@, from as int) == Some(
                (record@, to as int),
            ) && from <= to <= input@.len(),
            None => parsed_with_line_end::<T>(input@, from as int) is None,
        },
{
    match T::parse_from_line(input, from) {
        Some((record, to)) => match line_ending_or_eof(input, to) {
            Some(behind) => Some((record, behind)),
            None => None,
        },
        None => None,
    }
}

impl<T: AocLineParsable> AocParsable for T {
    open spec fn parsed(input: Seq<u8>, from: int) -> Option<(Self::V, int)> {
        parsed_with_line_end::<T>(input, from)
    }

    fn parse_from_string(input: &[u8], from: usize) -> (read: Option<(Self, usize)>) {
        parse_line::<T>(input, from)
    }
}

/// What the records hold that the input has from offset `from` to its end,
/// one behind the other. Nothing where something is left over that is no
/// record, or where a record takes up no input.
pub open spec fn parsed_all<T: AocParsable>(input: Seq<u8>, from: int) -> Option<Seq<T::V>>
    decreases input.len() - from,
{
    match T::parsed(input, from) {
        Some((record, to)) => if from < to <= input.len() {
            match parsed_all::<T>(input, to) {
                Some(rest) => Some(seq![record] + rest),
                None => None,
            }
        } else {
            None
        },
        None => if from == input.len() {
            Some(Seq::empty())
        } else {
            None
        },
    }
}

/// What each of the records holds.
pub open spec fn views_of<T: View>(records: Seq<T>) -> Seq<T::V> {
    Seq::new(records.len(), |i: int| records[i]@)
}

/// Reads the whole input as records, one behind the other.
pub fn parse_all<T: AocParsable>(input: &[u8]) -> (records: Option<Vec<T>>)
    ensures
        match records {
            Some(records) => parsed_all::<T>(input@, 0) == Some(views_of(records@)),
            None => parsed_all::<T>(input@, 0) is None,
        },
{
    parse_all_from(input, 0)
}

/// Reads the input from offset `start` to its end as records, one behind the
/// other.
pub fn parse_all_from<T: AocParsable>(input: &[u8], start: usize) -> (records: Option<Vec<T>>)
    requires
        start <= input@.len(),
    ensures
        match records {
            Some(records) => parsed_all::<T>(input@, start as int) == Some(views_of(records@)),
            None => parsed_all::<T>(input@, start as int) is None,
        },
{
    let mut records: Vec<T> = Vec::new();
    let mut from: usize = start;
    loop
        invariant
            start <= from <= input@.len(),
            match parsed_all::<T>(input@, from as int) {
                Some(rest) => parsed_all::<T>(input@, start as int) == Some(
                    views_of(records@) + rest,
                ),
                None => parsed_all::<T>(input@, start as int) is None,
            },
        decreases input@.len() - from,
    {
        match T::parse_from_string(input, from) {
            Some((record, to)) => {
                if to == from {
                    return None;
                }
                proof {
                    match parsed_all::<T>(input@, to as int) {
                        Some(rest) => {
                            assert(views_of(records@) + (seq![record@] + rest) =~= views_of(
                                records@.push(record),
                            ) + rest);
                        },
                        None => {},
                    }
                }
                records.push(record);
                from = to;
            },
            None => {
                if from == input.len() {
                    proof {
                        assert(views_of(records@) + Seq::<T::V>::empty() =~= views_of(records@));
                    }
                    return Some(records);
                } else {
                    return None;
                }
            },
        }
    }
}

/// What the records hold that the input has from offset `from` on, one behind
/// the other, up to the first place that holds no record or a record that
/// takes up no input.
pub open spec fn parsed_while<T: AocParsable>(input: Seq<u8>, from: int) -> Seq<T::V>
    decreases input.len() - from,
{
    match T::parsed(input, from) {
        Some((record, to)) => if from < to <= input.len() {
            seq![record] + parsed_while::<T>(input, to)
        } else {
            Seq::empty()
        },
        None => Seq::empty(),
    }
}

/// Reads records from the start of the input, one behind the other, as long as
/// there are any.
pub fn iterate_all<T: AocParsable>(input: &[u8]) -> (records: Vec<T>)
    ensures
        views_of(records@) == parsed_while::<T>(input@, 0),
{
    let mut records: Vec<T> = Vec::new();
    let mut from: usize = 0;
    loop
        invariant
            from <= input@.len(),
            parsed_while::<T>(input@, 0) == views_of(records@) + parsed_while::<T>(
                input@,
                from as int,
            ),
        ensures
            parsed_while::<T>(input@, 0) == views_of(records@),
        decreases input@.len() - from,
    {
        match T::parse_from_string(input, from) {
            Some((record, to)) => {
                if to == from {
                    proof {
                        assert(views_of(records@) + Seq::<T::V>::empty() =~= views_of(records@));
                    }
                    break ;
                }
                proof {
                    assert(views_of(records@) + (seq![record@] + parsed_while::<T>(
                        input@,
                        to as int,
                    )) =~= views_of(records@.push(record)) + parsed_while::<T>(input@, to as int));
                }
                records.push(record);
                from = to;
            },
            None => {
                proof {
                    assert(views_of(records@) + Seq::<T::V>::empty() =~= views_of(records@));
                }
                break ;
            },
        }
    }
    records
}

} // verus!
