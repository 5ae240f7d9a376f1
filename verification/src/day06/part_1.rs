//! The problems whose numbers stand one under the other.

use crate::day06::{
    columns, lists, operation_row, operations_at, total, transpose, worksheet_total, Operation, Row,
};
use crate::decimal::{decimal, to_text};
use crate::error::{Error, Stage};
use crate::text::{
    line_ending_at, list_at, parse_line_ending, parse_list, run_end, skip_run, Class, Item,
    Separator,
};
use vstd::prelude::*;
use vstd::string::*;

verus! {

impl Item for Row<u64> {
    /// Numbers of 64 bits, one or more, each after spaces or none.
    open spec fn item_at(s: Seq<u8>, pos: int) -> Option<(Seq<u64>, int)> {
        list_at::<u64>(s, run_end(s, pos, Class::Space), Separator::Blank)
    }

    fn parse(input: &[u8], pos: usize) -> (r: Option<(Row<u64>, usize)>) {
        let start = skip_run(input, pos, Class::Space);
        match parse_list::<u64>(input, start, Separator::Blank) {
            Some((cells, end)) => {
                assert(cells.deep_view() =~= cells@);
                Some((Row { cells }, end))
            },
            None => None,
        }
    }
}

/// The problems written at `pos`, and where they end: rows of numbers, one
/// or more, with a line ending between each two; the numbers of a problem
/// stand at the same place in each row.
pub open spec fn number_lists_at(s: Seq<u8>, pos: int) -> Option<(Seq<Seq<u64>>, int)> {
    match list_at::<Row<u64>>(s, pos, Separator::Line) {
        Some((rows, end)) => Some((columns(rows), end)),
        None => None,
    }
}

/// The worksheet written at `pos`: the problems, a line ending, and the row
/// of operations.
pub open spec fn worksheet_at(s: Seq<u8>, pos: int) -> Option<(Seq<Seq<u64>>, Seq<Operation>)> {
    match number_lists_at(s, pos) {
        Some((problems, end)) => match line_ending_at(s, end) {
            Some(next) => match operations_at(s, next) {
                Some((operations, _)) => Some((problems, operations)),
                None => None,
            },
            None => None,
        },
        None => None,
    }
}

/// Reads the problems at `pos`.
pub fn number_lists(input: &[u8], pos: usize) -> (r: Option<(Vec<Vec<u64>>, usize)>)
    ensures
        r matches Some((problems, end)) ==> number_lists_at(input@, pos as int) == Some(
            (lists(problems@), end as int),
        ) && end <= input@.len(),
        r is None ==> number_lists_at(input@, pos as int) is None,
{
    match parse_list::<Row<u64>>(input, pos, Separator::Line) {
        Some((rows, end)) => Some((transpose(&rows), end)),
        None => None,
    }
}

/// Reads the worksheet at `pos`.
pub fn worksheet(input: &[u8], pos: usize) -> (r: Option<(Vec<Vec<u64>>, Vec<Operation>)>)
    ensures
        r matches Some((problems, operations)) ==> worksheet_at(input@, pos as int) == Some(
            (lists(problems@), operations@),
        ),
        r is None ==> worksheet_at(input@, pos as int) is None,
{
    let (problems, end) = match number_lists(input, pos) {
        Some(found) => found,
        None => { return None; },
    };
    let next = match parse_line_ending(input, end) {
        Some(next) => next,
        None => { return None; },
    };
    match operation_row(input, next) {
        Some((operations, _)) => Some((problems, operations)),
        None => None,
    }
}

/// Reads the worksheet, adds up the answers of its problems and writes the
/// sum in decimal.  Fails with `Parse` where the text is no worksheet, and
/// with `Overflow` where an answer or a sum on the way does not fit 64 bits.
pub fn solve(input: &str) -> (r: Result<String, Error>)
    ensures
        match worksheet_at(input.spec_bytes(), 0) {
            None => r == Err::<String, Error>(Error::Parse(Stage::Worksheet)),
            Some((problems, operations)) => match r {
                Ok(text) => (worksheet_total(problems, operations) matches Some(sum) && text@
                    == decimal(sum)),
                Err(e) => e == Error::Overflow && worksheet_total(problems, operations) is None,
            },
        },
{
    let (problems, operations) = match worksheet(input.as_bytes(), 0) {
        Some(found) => found,
        None => { return Err(Error::Parse(Stage::Worksheet)); },
    };
    match total(&problems, &operations) {
        Ok(sum) => Ok(to_text(sum)),
        Err(e) => Err(e),
    }
}

} // verus!
