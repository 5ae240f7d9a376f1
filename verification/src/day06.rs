//! A worksheet of problems that stand side by side: rows of numbers, and
//! under them a row with the operation of each problem.

use crate::error::Error;
use crate::text::{byte_at, has_byte, list_at, parse_list, run_end, skip_run, Class, Item, Separator};
use vstd::prelude::*;

pub mod part_1;
pub mod part_2;

verus! {

/// What a problem does with its numbers.
#[derive(Clone, Copy, Debug, PartialEq, Eq, Structural)]
pub enum Operation {
    Add,
    Mul,
}

impl DeepView for Operation {
    type V = Operation;

    open spec fn deep_view(&self) -> Operation {
        *self
    }
}

impl Item for Operation {
    /// A plus sign or an asterisk.
    open spec fn item_at(s: Seq<u8>, pos: int) -> Option<(Operation, int)> {
        if byte_at(s, pos, 0x2b) {
            Some((Operation::Add, pos + 1))
        } else if byte_at(s, pos, 0x2a) {
            Some((Operation::Mul, pos + 1))
        } else {
            None
        }
    }

    fn parse(input: &[u8], pos: usize) -> (r: Option<(Operation, usize)>) {
        if has_byte(input, pos, 0x2b) {
            Some((Operation::Add, pos + 1))
        } else if has_byte(input, pos, 0x2a) {
            Some((Operation::Mul, pos + 1))
        } else {
            None
        }
    }
}

/// A row of the worksheet.
#[derive(Debug)]
pub struct Row<T> {
    pub cells: Vec<T>,
}

impl<T> DeepView for Row<T> {
    type V = Seq<T>;

    open spec fn deep_view(&self) -> Seq<T> {
        self.cells@
    }
}

/// The row of operations written at `pos`, and where it ends: operations,
/// one or more, each after spaces or none.
pub open spec fn operations_at(s: Seq<u8>, pos: int) -> Option<(Seq<Operation>, int)> {
    list_at::<Operation>(s, run_end(s, pos, Class::Space), Separator::Blank)
}

/// Reads a row of operations at `pos`.
pub fn operation_row(input: &[u8], pos: usize) -> (r: Option<(Vec<Operation>, usize)>)
    ensures
        r matches Some((row, end)) ==> operations_at(input@, pos as int) == Some(
            (row@, end as int),
        ) && end <= input@.len(),
        r is None ==> operations_at(input@, pos as int) is None,
{
    let start = skip_run(input, pos, Class::Space);
    match parse_list::<Operation>(input, start, Separator::Blank) {
        Some((row, end)) => {
            assert(row.deep_view() =~= row@);
            Some((row, end))
        },
        None => None,
    }
}

/// The problems that the rows make: the `c`th holds the `c`th cell of the
/// first row, then the `c`th cell of each later row that has one.  There are
/// as many problems as the first row has cells.
pub open spec fn columns<T>(rows: Seq<Seq<T>>) -> Seq<Seq<T>>
    decreases rows.len(),
{
    if rows.len() == 0 {
        Seq::empty()
    } else if rows.len() == 1 {
        Seq::new(rows[0].len(), |c: int| seq![rows[0][c]])
    } else {
        extended(columns(rows.drop_last()), rows.last())
    }
}

/// The columns with the cells of one more row under them.
pub open spec fn extended<T>(columns: Seq<Seq<T>>, row: Seq<T>) -> Seq<Seq<T>> {
    Seq::new(
        columns.len(),
        |c: int|
            if c < row.len() {
                columns[c].push(row[c])
            } else {
                columns[c]
            },
    )
}

/// What each of the columns holds.
pub open spec fn lists<T>(columns: Seq<Vec<T>>) -> Seq<Seq<T>> {
    Seq::new(columns.len(), |c: int| columns[c]@)
}

/// Turns rows into columns.
pub fn transpose<T: Copy>(rows: &Vec<Row<T>>) -> (r: Vec<Vec<T>>)
    ensures
        lists(r@) == columns(rows.deep_view()),
{
    let mut found: Vec<Vec<T>> = Vec::new();
    if rows.len() == 0 {
        assert(lists(found@) =~= columns(rows.deep_view()));
        return found;
    }
    let ghost sheet = rows.deep_view();
    let mut c: usize = 0;
    while c < rows[0].cells.len()
        invariant
            rows@.len() > 0,
            0 <= c <= rows@[0].cells@.len(),
            found@.len() == c,
            forall|k: int| 0 <= k < c ==> (#[trigger] found@[k])@ == seq![rows@[0].cells@[k]],
        decreases rows@[0].cells@.len() - c,
    {
        let mut column: Vec<T> = Vec::new();
        column.push(rows[0].cells[c]);
        assert(column@ =~= seq![rows@[0].cells@[c as int]]);
        found.push(column);
        c += 1;
    }
    assert(sheet.take(1) =~= seq![sheet[0]]);
    assert(lists(found@) =~= columns(sheet.take(1)));
    let mut i: usize = 1;
    while i < rows.len()
        invariant
            1 <= i <= rows@.len(),
            sheet == rows.deep_view(),
            lists(found@) == columns(sheet.take(i as int)),
        decreases rows@.len() - i,
    {
        let ghost before = lists(found@);
        let ghost row = sheet[i as int];
        let width = if rows[i].cells.len() < found.len() {
            rows[i].cells.len()
        } else {
            found.len()
        };
        let mut c: usize = 0;
        while c < width
            invariant
                0 <= c <= width,
                i < rows@.len(),
                row == rows@[i as int].cells@,
                width <= row.len(),
                width <= found@.len(),
                found@.len() == before.len(),
                forall|k: int| 0 <= k < c ==> (#[trigger] found@[k])@ == before[k].push(row[k]),
                forall|k: int| c <= k < found@.len() ==> (#[trigger] found@[k])@ == before[k],
            decreases width - c,
        {
            let cell = rows[i].cells[c];
            found[c].push(cell);
            c += 1;
        }
        proof {
            assert(sheet.take(i + 1).drop_last() =~= sheet.take(i as int));
            assert(lists(found@) =~= extended(before, row));
        }
        i += 1;
    }
    assert(sheet.take(i as int) =~= sheet);
    found
}

/// What the operation makes of two numbers.
pub open spec fn applied(operation: Operation, a: nat, b: nat) -> nat {
    match operation {
        Operation::Add => a + b,
        Operation::Mul => a * b,
    }
}

/// The answer of one problem: its numbers, taken together by its operation
/// from the first on; 0 for a problem without numbers; nothing where a step
/// on the way does not fit 64 bits.
pub open spec fn answer(numbers: Seq<u64>, operation: Operation) -> Option<nat>
    decreases numbers.len(),
{
    if numbers.len() == 0 {
        Some(0)
    } else if numbers.len() == 1 {
        Some(numbers[0] as nat)
    } else {
        match answer(numbers.drop_last(), operation) {
            Some(before) => if applied(operation, before, numbers.last() as nat) <= u64::MAX {
                Some(applied(operation, before, numbers.last() as nat))
            } else {
                None
            },
            None => None,
        }
    }
}

/// The sum of the answers of the first `count` problems; nothing where an
/// answer or a sum on the way does not fit 64 bits.
pub open spec fn grand_total(problems: Seq<Seq<u64>>, operations: Seq<Operation>, count: int) -> Option<
    nat,
>
    decreases count,
{
    if count <= 0 {
        Some(0)
    } else {
        match grand_total(problems, operations, count - 1) {
            Some(before) => match answer(problems[count - 1], operations[count - 1]) {
                Some(more) => if before + more <= u64::MAX {
                    Some(before + more)
                } else {
                    None
                },
                None => None,
            },
            None => None,
        }
    }
}

/// The sum of the answers of the problems that have an operation.
pub open spec fn worksheet_total(problems: Seq<Seq<u64>>, operations: Seq<Operation>) -> Option<
    nat,
> {
    grand_total(
        problems,
        operations,
        if problems.len() <= operations.len() {
            problems.len() as int
        } else {
            operations.len() as int
        },
    )
}

/// Computes the answer of one problem.
pub fn solve_problem(numbers: &Vec<u64>, operation: Operation) -> (r: Option<u64>)
    ensures
        match r {
            Some(n) => answer(numbers@, operation) == Some(n as nat),
            None => answer(numbers@, operation) is None,
        },
{
    if numbers.len() == 0 {
        return Some(0);
    }
    let mut found = numbers[0];
    let mut i: usize = 1;
    assert(numbers@.take(1) =~= seq![numbers@[0]]);
    while i < numbers.len()
        invariant
            1 <= i <= numbers@.len(),
            answer(numbers@.take(i as int), operation) == Some(found as nat),
        decreases numbers@.len() - i,
    {
        proof {
            assert(numbers@.take(i + 1).drop_last() =~= numbers@.take(i as int));
        }
        let next = match operation {
            Operation::Add => found.checked_add(numbers[i]),
            Operation::Mul => found.checked_mul(numbers[i]),
        };
        match next {
            Some(value) => {
                found = value;
            },
            None => {
                proof {
                    lemma_answer_fails_early(numbers@, operation, i + 1);
                }
                return None;
            },
        }
        i += 1;
    }
    assert(numbers@.take(i as int) =~= numbers@);
    Some(found)
}

/// A problem whose first numbers have no answer has none.
pub proof fn lemma_answer_fails_early(numbers: Seq<u64>, operation: Operation, k: int)
    requires
        0 <= k <= numbers.len(),
        answer(numbers.take(k), operation) is None,
    ensures
        answer(numbers, operation) is None,
    decreases numbers.len() - k,
{
    if k < numbers.len() {
        assert(numbers.take(k + 1).drop_last() =~= numbers.take(k));
        lemma_answer_fails_early(numbers, operation, k + 1);
    } else {
        assert(numbers.take(k) =~= numbers);
    }
}

/// A worksheet whose first problems have no total has none.
pub proof fn lemma_total_fails_early(
    problems: Seq<Seq<u64>>,
    operations: Seq<Operation>,
    k: int,
    count: int,
)
    requires
        0 <= k <= count,
        grand_total(problems, operations, k) is None,
    ensures
        grand_total(problems, operations, count) is None,
    decreases count - k,
{
    if k < count {
        lemma_total_fails_early(problems, operations, k + 1, count);
    }
}

/// Adds up the answers of the problems that have an operation.  Fails with
/// `Overflow` where an answer or a sum on the way does not fit 64 bits.
pub fn total(problems: &Vec<Vec<u64>>, operations: &Vec<Operation>) -> (r: Result<u64, Error>)
    ensures
        match r {
            Ok(n) => worksheet_total(lists(problems@), operations@) == Some(n as nat),
            Err(e) => e == Error::Overflow && worksheet_total(lists(problems@), operations@)
                is None,
        },
{
    let count = if problems.len() <= operations.len() {
        problems.len()
    } else {
        operations.len()
    };
    let mut sum: u64 = 0;
    let mut i: usize = 0;
    while i < count
        invariant
            0 <= i <= count,
            count <= problems@.len(),
            count <= operations@.len(),
            count == problems@.len() || count == operations@.len(),
            grand_total(lists(problems@), operations@, i as int) == Some(sum as nat),
        decreases count - i,
    {
        let more = match solve_problem(&problems[i], operations[i]) {
            Some(more) => more,
            None => {
                proof {
                    assert(grand_total(lists(problems@), operations@, i + 1) is None);
                    lemma_total_fails_early(lists(problems@), operations@, i + 1, count as int);
                }
                return Err(Error::Overflow);
            },
        };
        sum = match sum.checked_add(more) {
            Some(sum) => sum,
            None => {
                proof {
                    assert(grand_total(lists(problems@), operations@, i + 1) is None);
                    lemma_total_fails_early(lists(problems@), operations@, i + 1, count as int);
                }
                return Err(Error::Overflow);
            },
        };
        i += 1;
    }
    Ok(sum)
}

} // verus!
