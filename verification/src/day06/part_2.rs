//! The problems whose numbers stand side by side, each written downwards in
//! a column of its own.
//!
//! The rows above the operations are rows of digits and blanks.  A column
//! with a digit in it is a number, read from the top; the columns without
//! one stand between the problems.  The rows are read cell by cell, and a
//! text that ends where one more cell could stand is taken to be cut off.

use crate::day06::{
    columns, lists, operation_row, operations_at, total, transpose, worksheet_total, Operation, Row,
};
use crate::decimal::{decimal, to_text};
use crate::error::{Error, Stage};
use crate::text::{
    line_ending_at, list_at, parse_line_ending, parse_list, run_end, skip_run, Class, Item,
    Separator,
};
use vstd::prelude::*;
use vstd::string::*;

verus! {

/// What a cell of a row of digits holds: the digit, or nothing for a blank.
pub open spec fn cell_of(b: u8) -> Option<u8> {
    if 0x30 <= b <= 0x39 {
        Some((b - 0x30) as u8)
    } else {
        None
    }
}

impl Item for Row<Option<u8>> {
    /// Digits, spaces and tabs, one or more, each a cell.
    open spec fn item_at(s: Seq<u8>, pos: int) -> Option<(Seq<Option<u8>>, int)> {
        let end = run_end(s, pos, Class::DigitOrSpace);
        if pos < end {
            Some((Seq::new((end - pos) as nat, |i: int| cell_of(s[pos + i])), end))
        } else {
            None
        }
    }

    fn parse(input: &[u8], pos: usize) -> (r: Option<(Row<Option<u8>>, usize)>) {
        let end = skip_run(input, pos, Class::DigitOrSpace);
        if end == pos {
            return None;
        }
        let mut cells: Vec<Option<u8>> = Vec::new();
        let mut i = pos;
        while i < end
            invariant
                pos <= i <= end <= input@.len(),
                cells@ =~= Seq::new((i - pos) as nat, |k: int| cell_of(input@[pos + k])),
            decreases end - i,
        {
            let b = input[i];
            cells.push(
                if 0x30 <= b && b <= 0x39 {
                    Some(b - 0x30)
                } else {
                    None
                },
            );
            i += 1;
        }
        Some((Row { cells }, end))
    }
}

/// The number that a column writes: its digits from the top, blanks passed
/// over; nothing where the column has no digit.
pub open spec fn column_number(cells: Seq<Option<u8>>) -> Option<nat>
    decreases cells.len(),
{
    if cells.len() == 0 {
        None
    } else {
        match (column_number(cells.drop_last()), cells.last()) {
            (above, None) => above,
            (None, Some(digit)) => Some(digit as nat),
            (Some(above), Some(digit)) => Some(above * 10 + digit as nat),
        }
    }
}

/// A column writes no smaller number than its upper part.
pub proof fn lemma_column_number_grows(cells: Seq<Option<u8>>, k: int)
    requires
        0 <= k <= cells.len(),
        column_number(cells.take(k)) is Some,
    ensures
        column_number(cells) is Some,
        column_number(cells.take(k)).unwrap() <= column_number(cells).unwrap(),
    decreases cells.len() - k,
{
    if k < cells.len() {
        assert(cells.take(k + 1).drop_last() =~= cells.take(k));
        lemma_column_number_grows(cells, k + 1);
    } else {
        assert(cells.take(k) =~= cells);
    }
}

/// The number of each column.
pub open spec fn column_numbers(columns: Seq<Seq<Option<u8>>>) -> Seq<Option<nat>> {
    Seq::new(columns.len(), |c: int| column_number(columns[c]))
}

/// Whether every number fits 64 bits.
pub open spec fn all_fit(numbers: Seq<Option<nat>>) -> bool {
    forall|c: int| 0 <= c < numbers.len() ==> (#[trigger] numbers[c] matches Some(n) ==> n
        <= u64::MAX)
}

/// The problems that the numbers of the columns make: the numbers of columns
/// that stand side by side are one problem, and a column without a number
/// ends it.
pub open spec fn groups(numbers: Seq<Option<nat>>) -> Seq<Seq<u64>>
    decreases numbers.len(),
{
    if numbers.len() == 0 {
        Seq::empty()
    } else {
        let before = groups(numbers.drop_last());
        match numbers.last() {
            None => before,
            Some(n) => if numbers.len() >= 2 && numbers[numbers.len() - 2] is Some
                && before.len() > 0 {
                before.update(before.len() - 1, before.last().push(n as u64))
            } else {
                before.push(seq![n as u64])
            },
        }
    }
}

/// Whether the rows that end at `end` are cut off by the end of the text:
/// the last row, or the line ending after it, is the last of the text, so
/// that a cell more might follow in a longer text.
pub open spec fn cut_off(s: Seq<u8>, end: int) -> bool {
    end >= s.len() || line_ending_at(s, end) == Some(s.len() as int)
}

/// The problems written at `pos`, and where they end: rows of digits and
/// blanks, one or more, with a line ending between each two.  The result is
/// nothing where `pos` starts no such row or the rows are cut off by the end
/// of the text, and `Overflow` where the number of a column does not fit 64
/// bits.
pub open spec fn numbers_at(s: Seq<u8>, pos: int) -> Result<Option<(Seq<Seq<u64>>, int)>, Error> {
    match list_at::<Row<Option<u8>>>(s, pos, Separator::Line) {
        Some((rows, end)) => if cut_off(s, end) {
            Ok(None)
        } else if all_fit(column_numbers(columns(rows))) {
            Ok(Some((groups(column_numbers(columns(rows))), end)))
        } else {
            Err(Error::Overflow)
        },
        None => Ok(None),
    }
}

/// The worksheet written at `pos`: the problems, a line ending, and the row
/// of operations.
pub open spec fn worksheet_at(s: Seq<u8>, pos: int) -> Result<
    Option<(Seq<Seq<u64>>, Seq<Operation>)>,
    Error,
> {
    match numbers_at(s, pos) {
        Ok(Some((problems, end))) => match line_ending_at(s, end) {
            Some(next) => match operations_at(s, next) {
                Some((operations, _)) => Ok(Some((problems, operations))),
                None => Ok(None),
            },
            None => Ok(None),
        },
        Ok(None) => Ok(None),
        Err(e) => Err(e),
    }
}

/// Reads the number of a column.
pub fn number_of_column(cells: &Vec<Option<u8>>) -> (r: Result<Option<u64>, Error>)
    ensures
        match r {
            Ok(Some(n)) => column_number(cells@) == Some(n as nat),
            Ok(None) => column_number(cells@) is None,
            Err(e) => e == Error::Overflow && (column_number(cells@) matches Some(n) && n
                > u64::MAX),
        },
{
    let mut found: Option<u64> = None;
    let mut i: usize = 0;
    assert(cells@.take(0) =~= Seq::empty());
    while i < cells.len()
        invariant
            0 <= i <= cells@.len(),
            match found {
                Some(n) => column_number(cells@.take(i as int)) == Some(n as nat),
                None => column_number(cells@.take(i as int)) is None,
            },
        decreases cells@.len() - i,
    {
        proof {
            assert(cells@.take(i + 1).drop_last() =~= cells@.take(i as int));
        }
        match cells[i] {
            None => {},
            Some(digit) => {
                found = match found {
                    None => Some(digit as u64),
                    Some(above) => {
                        let next = above as u128 * 10 + digit as u128;
                        if next > u64::MAX as u128 {
                            proof {
                                lemma_column_number_grows(cells@, i + 1);
                            }
                            return Err(Error::Overflow);
                        }
                        Some(next as u64)
                    },
                };
            },
        }
        i += 1;
    }
    assert(cells@.take(i as int) =~= cells@);
    Ok(found)
}

/// Makes problems of the numbers of the columns.
pub fn group_numbers(numbers: &Vec<Option<u64>>) -> (r: Vec<Vec<u64>>)
    ensures
        lists(r@) == groups(Seq::new(numbers@.len(), |c: int| widened(numbers@[c]))),
{
    let ghost wide = Seq::new(numbers@.len(), |c: int| widened(numbers@[c]));
    let mut found: Vec<Vec<u64>> = Vec::new();
    let mut i: usize = 0;
    assert(wide.take(0) =~= Seq::empty());
    assert(lists(found@) =~= Seq::empty());
    while i < numbers.len()
        invariant
            0 <= i <= numbers@.len(),
            wide == Seq::new(numbers@.len(), |c: int| widened(numbers@[c])),
            lists(found@) == groups(wide.take(i as int)),
        decreases numbers@.len() - i,
    {
        let ghost before = lists(found@);
        proof {
            assert(wide.take(i + 1).drop_last() =~= wide.take(i as int));
            assert(wide.take(i + 1).last() == widened(numbers@[i as int]));
            if i >= 1 {
                assert(wide.take(i + 1)[i - 1] == widened(numbers@[i - 1]));
            }
        }
        match numbers[i] {
            None => {},
            Some(n) => {
                if i >= 1 && numbers[i - 1].is_some() && found.len() > 0 {
                    let last = found.len() - 1;
                    found[last].push(n);
                    assert(lists(found@) =~= before.update(
                        before.len() - 1,
                        before.last().push(n),
                    ));
                } else {
                    let mut list: Vec<u64> = Vec::new();
                    list.push(n);
                    found.push(list);
                    assert(lists(found@) =~= before.push(seq![n]));
                }
            },
        }
        i += 1;
    }
    assert(wide.take(i as int) =~= wide);
    found
}

/// A number of 64 bits, or none, as a number without bound.
pub open spec fn widened(number: Option<u64>) -> Option<nat> {
    match number {
        Some(n) => Some(n as nat),
        None => None,
    }
}

/// Reads the problems at `pos`.
pub fn numbers(input: &[u8], pos: usize) -> (r: Result<Option<(Vec<Vec<u64>>, usize)>, Error>)
    ensures
        match r {
            Ok(Some((problems, end))) => numbers_at(input@, pos as int) == Ok::<
                Option<(Seq<Seq<u64>>, int)>,
                Error,
            >(Some((lists(problems@), end as int))) && end <= input@.len(),
            Ok(None) => numbers_at(input@, pos as int) == Ok::<
                Option<(Seq<Seq<u64>>, int)>,
                Error,
            >(None),
            Err(e) => numbers_at(input@, pos as int) == Err::<
                Option<(Seq<Seq<u64>>, int)>,
                Error,
            >(e),
        },
{
    let (rows, end) = match parse_list::<Row<Option<u8>>>(input, pos, Separator::Line) {
        Some(found) => found,
        None => { return Ok(None); },
    };
    if end >= input.len() {
        return Ok(None);
    }
    match parse_line_ending(input, end) {
        Some(next) => {
            if next == input.len() {
                return Ok(None);
            }
        },
        None => {},
    }
    let digit_lists = transpose(&rows);
    let ghost sheet = columns(rows.deep_view());
    let mut maybe_numbers: Vec<Option<u64>> = Vec::new();
    let mut c: usize = 0;
    while c < digit_lists.len()
        invariant
            0 <= c <= digit_lists@.len(),
            lists(digit_lists@) == sheet,
            sheet == columns(rows.deep_view()),
            !cut_off(input@, end as int),
            list_at::<Row<Option<u8>>>(input@, pos as int, Separator::Line) == Some(
                (rows.deep_view(), end as int),
            ),
            maybe_numbers@.len() == c,
            forall|k: int|
                0 <= k < c ==> widened(#[trigger] maybe_numbers@[k]) == column_number(sheet[k]),
        decreases digit_lists@.len() - c,
    {
        proof {
            assert(sheet[c as int] == digit_lists@[c as int]@);
        }
        match number_of_column(&digit_lists[c]) {
            Ok(found) => {
                maybe_numbers.push(found);
            },
            Err(e) => {
                assert(!all_fit(column_numbers(sheet))) by {
                    assert(column_numbers(sheet)[c as int] == column_number(sheet[c as int]));
                }
                return Err(e);
            },
        }
        c += 1;
    }
    proof {
        let wide = Seq::new(maybe_numbers@.len(), |k: int| widened(maybe_numbers@[k]));
        assert(wide =~= column_numbers(sheet));
        assert(all_fit(column_numbers(sheet))) by {
            assert forall|k: int| 0 <= k < column_numbers(sheet).len() implies (
            #[trigger] column_numbers(sheet)[k] matches Some(n) ==> n <= u64::MAX) by {
                assert(widened(maybe_numbers@[k]) == column_number(sheet[k]));
            }
        }
    }
    Ok(Some((group_numbers(&maybe_numbers), end)))
}

/// Reads the worksheet at `pos`.
pub fn worksheet(input: &[u8], pos: usize) -> (r: Result<
    Option<(Vec<Vec<u64>>, Vec<Operation>)>,
    Error,
>)
    ensures
        match r {
            Ok(Some((problems, operations))) => worksheet_at(input@, pos as int) == Ok::<
                Option<(Seq<Seq<u64>>, Seq<Operation>)>,
                Error,
            >(Some((lists(problems@), operations@))),
            Ok(None) => worksheet_at(input@, pos as int) == Ok::<
                Option<(Seq<Seq<u64>>, Seq<Operation>)>,
                Error,
            >(None),
            Err(e) => worksheet_at(input@, pos as int) == Err::<
                Option<(Seq<Seq<u64>>, Seq<Operation>)>,
                Error,
            >(e),
        },
{
    let (problems, end) = match numbers(input, pos) {
        Ok(Some(found)) => found,
        Ok(None) => { return Ok(None); },
        Err(e) => { return Err(e); },
    };
    let next = match parse_line_ending(input, end) {
        Some(next) => next,
        None => { return Ok(None); },
    };
    match operation_row(input, next) {
        Some((operations, _)) => Ok(Some((problems, operations))),
        None => Ok(None),
    }
}

/// Reads the worksheet, adds up the answers of its problems and writes the
/// sum in decimal.  Fails with `Parse` where the text is no worksheet, and
/// with `Overflow` where a number, an answer or a sum on the way does not fit
/// 64 bits.
pub fn solve(input: &str) -> (r: Result<String, Error>)
    ensures
        match worksheet_at(input.spec_bytes(), 0) {
            Ok(None) => r == Err::<String, Error>(Error::Parse(Stage::Worksheet)),
            Err(e) => r == Err::<String, Error>(e),
            Ok(Some((problems, operations))) => match r {
                Ok(text) => (worksheet_total(problems, operations) matches Some(sum) && text@
                    == decimal(sum)),
                Err(e) => e == Error::Overflow && worksheet_total(problems, operations) is None,
            },
        },
{
    let (problems, operations) = match worksheet(input.as_bytes(), 0) {
        Ok(Some(found)) => found,
        Ok(None) => { return Err(Error::Parse(Stage::Worksheet)); },
        Err(e) => { return Err(e); },
    };
    match total(&problems, &operations) {
        Ok(sum) => Ok(to_text(sum)),
        Err(e) => Err(e),
    }
}

} // verus!
