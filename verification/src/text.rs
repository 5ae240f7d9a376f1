//! Reading puzzle text: the byte-level pieces that every grammar is made of.
//!
//! A parser here works on the bytes of the text and a position in them.  Each
//! has a spec function of the same shape: it takes the text as a
//! `Seq<u8>` and a position, and gives the value read together with the
//! position where reading stopped, or `None` where the text does not match.

use vstd::prelude::*;
use vstd::slice::slice_subrange;

verus! {

/// The line feed.
pub const NEWLINE: u8 = 0x0a;

/// The carriage return.
pub const RETURN: u8 = 0x0d;

/// A class of bytes that a run can be made of.
#[derive(Clone, Copy, Debug, PartialEq, Eq, Structural)]
pub enum Class {
    /// The ten ASCII decimal digits.
    Digit,
    /// Space and horizontal tab.
    Space,
    /// The ASCII letters of both cases.
    Alpha,
    /// The decimal digits, space and horizontal tab.
    DigitOrSpace,
    /// Every byte but the one named.
    Except(u8),
    /// The two bytes named.
    Either(u8, u8),
}

impl Class {
    /// Whether `b` belongs to the class.
    pub open spec fn has(self, b: u8) -> bool {
        match self {
            Class::Digit => 0x30 <= b <= 0x39,
            Class::Space => b == 0x20 || b == 0x09,
            Class::Alpha => (0x41 <= b <= 0x5a) || (0x61 <= b <= 0x7a),
            Class::DigitOrSpace => (0x30 <= b <= 0x39) || b == 0x20 || b == 0x09,
            Class::Except(x) => b != x,
            Class::Either(x, y) => b == x || b == y,
        }
    }

    /// Tests whether `b` belongs to the class.
    pub fn contains(self, b: u8) -> (r: bool)
        ensures
            r == self.has(b),
    {
        match self {
            Class::Digit => 0x30 <= b && b <= 0x39,
            Class::Space => b == 0x20 || b == 0x09,
            Class::Alpha => (0x41 <= b && b <= 0x5a) || (0x61 <= b && b <= 0x7a),
            Class::DigitOrSpace => (0x30 <= b && b <= 0x39) || b == 0x20 || b == 0x09,
            Class::Except(x) => b != x,
            Class::Either(x, y) => b == x || b == y,
        }
    }
}

/// Where the longest run of bytes of `class` that starts at `pos` ends.
pub open spec fn run_end(s: Seq<u8>, pos: int, class: Class) -> int
    decreases s.len() - pos,
{
    if 0 <= pos < s.len() && class.has(s[pos]) {
        run_end(s, pos + 1, class)
    } else {
        pos
    }
}

/// A run ends inside the text, holds only bytes of its class, and stops at the
/// first byte that is not of the class.
pub proof fn lemma_run_end(s: Seq<u8>, pos: int, class: Class)
    requires
        0 <= pos <= s.len(),
    ensures
        pos <= run_end(s, pos, class) <= s.len(),
        forall|i: int| pos <= i < run_end(s, pos, class) ==> class.has(#[trigger] s[i]),
        run_end(s, pos, class) < s.len() ==> !class.has(s[run_end(s, pos, class)]),
    decreases s.len() - pos,
{
    if pos < s.len() && class.has(s[pos]) {
        lemma_run_end(s, pos + 1, class);
    }
}

/// Finds the end of the run of bytes of `class` that starts at `pos`.
pub fn skip_run(input: &[u8], pos: usize, class: Class) -> (end: usize)
    ensures
        end == run_end(input@, pos as int, class),
        pos <= end,
        pos <= input@.len() ==> end <= input@.len(),
{
    let mut i = pos;
    while i < input.len() && class.contains(input[i])
        invariant
            pos <= i,
            pos <= input@.len() ==> i <= input@.len(),
            run_end(input@, pos as int, class) == run_end(input@, i as int, class),
        decreases input@.len() - i,
    {
        i += 1;
    }
    i
}

/// Whether the byte at `pos` is `b`.
pub open spec fn byte_at(s: Seq<u8>, pos: int, b: u8) -> bool {
    0 <= pos < s.len() && s[pos] == b
}

/// Tests whether the byte at `pos` is `b`.
pub fn has_byte(input: &[u8], pos: usize, b: u8) -> (r: bool)
    ensures
        r == byte_at(input@, pos as int, b),
        r ==> pos < usize::MAX,
{
    pos < input.len() && input[pos] == b
}

/// Where a line ending that starts at `pos` ends: after a line feed, or after
/// a carriage return and a line feed.
pub open spec fn line_ending_at(s: Seq<u8>, pos: int) -> Option<int> {
    if byte_at(s, pos, NEWLINE) {
        Some(pos + 1)
    } else if byte_at(s, pos, RETURN) && byte_at(s, pos + 1, NEWLINE) {
        Some(pos + 2)
    } else {
        None
    }
}

/// Reads a line ending at `pos`.
pub fn parse_line_ending(input: &[u8], pos: usize) -> (r: Option<usize>)
    ensures
        r matches Some(end) ==> line_ending_at(input@, pos as int) == Some(end as int) && pos < end
            <= input@.len(),
        r is None ==> line_ending_at(input@, pos as int) is None,
{
    let len = input.len();
    if pos < len && input[pos] == NEWLINE {
        Some(pos + 1)
    } else if pos < len && len - pos >= 2 && input[pos] == RETURN && input[pos + 1] == NEWLINE {
        Some(pos + 2)
    } else {
        None
    }
}

/// The number that a string of decimal digits writes.
pub open spec fn decimal_value(digits: Seq<u8>) -> nat
    decreases digits.len(),
{
    if digits.len() == 0 {
        0
    } else {
        decimal_value(digits.drop_last()) * 10 + (digits.last() - 0x30) as nat
    }
}

/// Reading more digits never makes the number smaller.
pub proof fn lemma_decimal_value_grows(s: Seq<u8>, pos: int, mid: int, end: int)
    requires
        0 <= pos <= mid <= end <= s.len(),
        forall|i: int| pos <= i < end ==> Class::Digit.has(#[trigger] s[i]),
    ensures
        decimal_value(s.subrange(pos, mid)) <= decimal_value(s.subrange(pos, end)),
    decreases end - mid,
{
    if mid < end {
        lemma_decimal_value_grows(s, pos, mid, end - 1);
        assert(s.subrange(pos, end).drop_last() =~= s.subrange(pos, end - 1));
    }
}

/// The unsigned number written at `pos`, and where it ends: the digits run as
/// far as they go, there is at least one, and the number is at most `max`.
pub open spec fn number_at(s: Seq<u8>, pos: int, max: nat) -> Option<(nat, int)> {
    let end = run_end(s, pos, Class::Digit);
    let value = decimal_value(s.subrange(pos, end));
    if pos < end && value <= max {
        Some((value, end))
    } else {
        None
    }
}

/// Reads an unsigned decimal number of at most `max` at `pos`.
pub fn parse_number(input: &[u8], pos: usize, max: u64) -> (r: Option<(u64, usize)>)
    ensures
        r matches Some((value, end)) ==> number_at(input@, pos as int, max as nat) == Some(
            (value as nat, end as int),
        ) && pos < end <= input@.len() && value <= max,
        r is None ==> number_at(input@, pos as int, max as nat) is None,
{
    let end = skip_run(input, pos, Class::Digit);
    if end == pos {
        return None;
    }
    proof {
        lemma_run_end(input@, pos as int, Class::Digit);
    }
    let mut value: u64 = 0;
    let mut i = pos;
    while i < end
        invariant
            pos <= i <= end <= input@.len(),
            end == run_end(input@, pos as int, Class::Digit),
            forall|k: int| pos <= k < end ==> Class::Digit.has(#[trigger] input@[k]),
            value == decimal_value(input@.subrange(pos as int, i as int)),
            value <= max,
        decreases end - i,
    {
        let digit = input[i] - 0x30;
        let next: u128 = value as u128 * 10 + digit as u128;
        proof {
            assert(input@.subrange(pos as int, i + 1).drop_last() =~= input@.subrange(
                pos as int,
                i as int,
            ));
            assert(next == decimal_value(input@.subrange(pos as int, i + 1)));
        }
        if next > max as u128 {
            proof {
                lemma_decimal_value_grows(input@, pos as int, i + 1, end as int);
            }
            return None;
        }
        value = next as u64;
        i += 1;
    }
    Some((value, end))
}

/// The signed number written at `pos`, and where it ends: an optional `+` or
/// `-`, then an unsigned number; the whole lies between `min` and `max`.
pub open spec fn signed_at(s: Seq<u8>, pos: int, min: int, max: int) -> Option<(int, int)>
    recommends
        min <= 0 <= max,
{
    if byte_at(s, pos, 0x2d) {
        match number_at(s, pos + 1, (-min) as nat) {
            Some((value, end)) => Some((-value, end)),
            None => None,
        }
    } else if byte_at(s, pos, 0x2b) {
        match number_at(s, pos + 1, max as nat) {
            Some((value, end)) => Some((value as int, end)),
            None => None,
        }
    } else {
        match number_at(s, pos, max as nat) {
            Some((value, end)) => Some((value as int, end)),
            None => None,
        }
    }
}

/// Reads a signed decimal number that fits 32 bits at `pos`.
pub fn parse_i32(input: &[u8], pos: usize) -> (r: Option<(i32, usize)>)
    ensures
        r matches Some((value, end)) ==> signed_at(
            input@,
            pos as int,
            i32::MIN as int,
            i32::MAX as int,
        ) == Some((value as int, end as int)) && pos < end <= input@.len(),
        r is None ==> signed_at(input@, pos as int, i32::MIN as int, i32::MAX as int) is None,
{
    if has_byte(input, pos, 0x2d) {
        match parse_number(input, pos + 1, 0x8000_0000) {
            Some((value, end)) => Some(((-(value as i64)) as i32, end)),
            None => None,
        }
    } else if has_byte(input, pos, 0x2b) {
        match parse_number(input, pos + 1, 0x7fff_ffff) {
            Some((value, end)) => Some((value as i32, end)),
            None => None,
        }
    } else {
        match parse_number(input, pos, 0x7fff_ffff) {
            Some((value, end)) => Some((value as i32, end)),
            None => None,
        }
    }
}

/// What each of the pieces holds.
pub open spec fn views(pieces: Seq<&[u8]>) -> Seq<Seq<u8>> {
    Seq::new(pieces.len(), |i: int| pieces[i]@)
}

/// A line without the carriage return that may end it.
pub open spec fn strip_return(line: Seq<u8>) -> Seq<u8> {
    if line.len() > 0 && line.last() == RETURN {
        line.drop_last()
    } else {
        line
    }
}

/// The lines of the text from `pos` on.
pub open spec fn lines_from(s: Seq<u8>, pos: int) -> Seq<Seq<u8>>
    decreases s.len() - pos,
{
    if 0 <= pos < s.len() {
        let end = run_end(s, pos, Class::Except(NEWLINE));
        if pos <= end < s.len() {
            seq![strip_return(s.subrange(pos, end))] + lines_from(s, end + 1)
        } else {
            seq![s.subrange(pos, s.len() as int)]
        }
    } else {
        Seq::empty()
    }
}

/// The lines of the text.  A line ends with a line feed, which is not part of
/// it, nor is a carriage return just before the line feed.  What follows the
/// last line feed is a line too, unless it is empty.
pub open spec fn lines(s: Seq<u8>) -> Seq<Seq<u8>> {
    lines_from(s, 0)
}

/// Cuts the text into its lines.
pub fn split_lines(input: &[u8]) -> (r: Vec<&[u8]>)
    ensures
        views(r@) == lines(input@),
{
    let len = input.len();
    let mut pieces: Vec<&[u8]> = Vec::new();
    let mut pos: usize = 0;
    assert(views(pieces@) + lines_from(input@, 0) =~= lines(input@));
    while pos < len
        invariant
            len == input@.len(),
            0 <= pos <= len,
            views(pieces@) + lines_from(input@, pos as int) == lines(input@),
        decreases len - pos,
    {
        let end = skip_run(input, pos, Class::Except(NEWLINE));
        let ghost before = pieces@;
        if end < len {
            let stop = if end > pos && input[end - 1] == RETURN {
                end - 1
            } else {
                end
            };
            let line = slice_subrange(input, pos, stop);
            pieces.push(line);
            proof {
                let whole = input@.subrange(pos as int, end as int);
                assert(line@ =~= strip_return(whole));
                assert(views(pieces@) =~= views(before) + seq![strip_return(whole)]);
                assert(views(pieces@) + lines_from(input@, end + 1) =~= views(before) + lines_from(
                    input@,
                    pos as int,
                ));
            }
            pos = end + 1;
        } else {
            let line = slice_subrange(input, pos, len);
            pieces.push(line);
            proof {
                assert(views(pieces@) =~= views(before) + seq![
                    input@.subrange(pos as int, len as int),
                ]);
                assert(lines_from(input@, len as int) =~= Seq::empty());
                assert(views(pieces@) + lines_from(input@, len as int) =~= views(before)
                    + lines_from(input@, pos as int));
            }
            pos = len;
        }
    }
    proof {
        assert(views(pieces@) + lines_from(input@, pos as int) =~= views(pieces@));
    }
    pieces
}

/// The pieces of the text from `pos` on that `sep` separates.
pub open spec fn split_from(s: Seq<u8>, pos: int, sep: u8) -> Seq<Seq<u8>>
    decreases s.len() - pos,
{
    if 0 <= pos <= s.len() {
        let end = run_end(s, pos, Class::Except(sep));
        if pos <= end < s.len() {
            seq![s.subrange(pos, end)] + split_from(s, end + 1, sep)
        } else {
            seq![s.subrange(pos, s.len() as int)]
        }
    } else {
        Seq::empty()
    }
}

/// The pieces of the text that `sep` separates: one more than there are
/// separators, empty pieces included.
pub open spec fn split(s: Seq<u8>, sep: u8) -> Seq<Seq<u8>> {
    split_from(s, 0, sep)
}

/// Cuts the text at every `sep`.
pub fn split_at_byte(input: &[u8], sep: u8) -> (r: Vec<&[u8]>)
    ensures
        views(r@) == split(input@, sep),
{
    let len = input.len();
    let mut pieces: Vec<&[u8]> = Vec::new();
    let mut pos: usize = 0;
    assert(views(pieces@) + split_from(input@, 0, sep) =~= split(input@, sep));
    loop
        invariant
            len == input@.len(),
            0 <= pos <= len,
            views(pieces@) + split_from(input@, pos as int, sep) == split(input@, sep),
        decreases len - pos,
    {
        let end = skip_run(input, pos, Class::Except(sep));
        let ghost before = pieces@;
        let piece = slice_subrange(input, pos, end);
        pieces.push(piece);
        proof {
            assert(views(pieces@) =~= views(before) + seq![
                input@.subrange(pos as int, end as int),
            ]);
        }
        if end < len {
            proof {
                assert(views(pieces@) + split_from(input@, end + 1, sep) =~= views(before)
                    + split_from(input@, pos as int, sep));
            }
            pos = end + 1;
        } else {
            proof {
                assert(views(pieces@) =~= views(before) + split_from(input@, pos as int, sep));
            }
            return pieces;
        }
    }
}

/// What the cells from `pos` to `end` hold: `off` for the byte `blank`, `on`
/// for any other.
pub open spec fn cells<T>(s: Seq<u8>, pos: int, end: int, blank: u8, off: T, on: T) -> Seq<T> {
    Seq::new(
        (end - pos) as nat,
        |i: int|
            if s[pos + i] == blank {
                off
            } else {
                on
            },
    )
}

/// The row of cells written at `pos`, and where it ends: one cell or more,
/// each the byte `blank` or the byte `mark`.
pub open spec fn row_at<T>(s: Seq<u8>, pos: int, blank: u8, mark: u8, off: T, on: T) -> Option<
    (Seq<T>, int),
> {
    let end = run_end(s, pos, Class::Either(blank, mark));
    if pos < end {
        Some((cells(s, pos, end, blank, off, on), end))
    } else {
        None
    }
}

/// Reads a row of cells at `pos`.
pub fn parse_row<T: Copy>(input: &[u8], pos: usize, blank: u8, mark: u8, off: T, on: T) -> (r:
    Option<(Vec<T>, usize)>)
    ensures
        r matches Some((row, end)) ==> row_at(input@, pos as int, blank, mark, off, on) == Some(
            (row@, end as int),
        ) && pos < end <= input@.len() && row@.len() == end - pos,
        r is None ==> row_at(input@, pos as int, blank, mark, off, on) is None,
{
    let end = skip_run(input, pos, Class::Either(blank, mark));
    if end == pos {
        return None;
    }
    let mut row: Vec<T> = Vec::new();
    let mut i = pos;
    while i < end
        invariant
            pos <= i <= end <= input@.len(),
            row@ =~= cells(input@, pos as int, i as int, blank, off, on),
        decreases end - i,
    {
        row.push(if input[i] == blank { off } else { on });
        i += 1;
    }
    Some((row, end))
}

/// What each of the rows holds.
pub open spec fn rows<T>(grid: Seq<Vec<T>>) -> Seq<Seq<T>> {
    Seq::new(grid.len(), |i: int| grid[i]@)
}

/// The rows that follow a first row which ended at `pos`, each after a line
/// ending, and where the last of them ends.
pub open spec fn rows_after<T>(s: Seq<u8>, pos: int, blank: u8, mark: u8, off: T, on: T) -> (
    Seq<Seq<T>>,
    int,
)
    decreases s.len() - pos,
{
    match line_ending_at(s, pos) {
        Some(start) => match row_at(s, start, blank, mark, off, on) {
            Some((row, end)) => if pos < end <= s.len() {
                let (more, last) = rows_after(s, end, blank, mark, off, on);
                (seq![row] + more, last)
            } else {
                (Seq::empty(), pos)
            },
            None => (Seq::empty(), pos),
        },
        None => (Seq::empty(), pos),
    }
}

/// The grid written at `pos`, and where it ends: rows of cells, one or more,
/// with a line ending between each two.  A line ending that no row follows is
/// not part of the grid.
pub open spec fn grid_at<T>(s: Seq<u8>, pos: int, blank: u8, mark: u8, off: T, on: T) -> Option<
    (Seq<Seq<T>>, int),
> {
    match row_at(s, pos, blank, mark, off, on) {
        Some((row, end)) => {
            let (more, last) = rows_after(s, end, blank, mark, off, on);
            Some((seq![row] + more, last))
        },
        None => None,
    }
}

/// Reads a grid of cells at `pos`.
pub fn parse_grid<T: Copy>(input: &[u8], pos: usize, blank: u8, mark: u8, off: T, on: T) -> (r:
    Option<(Vec<Vec<T>>, usize)>)
    ensures
        r matches Some((grid, end)) ==> grid_at(input@, pos as int, blank, mark, off, on) == Some(
            (rows(grid@), end as int),
        ) && pos < end <= input@.len() && grid@.len() > 0,
        r is None ==> grid_at(input@, pos as int, blank, mark, off, on) is None,
{
    let (first, first_end) = match parse_row(input, pos, blank, mark, off, on) {
        Some(found) => found,
        None => { return None; },
    };
    let ghost first_row = first@;
    let mut grid: Vec<Vec<T>> = Vec::new();
    grid.push(first);
    let mut end = first_end;
    proof {
        assert(rows(grid@) =~= seq![first_row]);
        assert(rows(grid@) + rows_after(input@, end as int, blank, mark, off, on).0 =~= seq![
            first_row,
        ] + rows_after(input@, first_end as int, blank, mark, off, on).0);
    }
    loop
        invariant
            pos < end <= input@.len(),
            grid@.len() > 0,
            grid_at(input@, pos as int, blank, mark, off, on) == Some(
                (
                    rows(grid@) + rows_after(input@, end as int, blank, mark, off, on).0,
                    rows_after(input@, end as int, blank, mark, off, on).1,
                ),
            ),
        ensures
            rows_after(input@, end as int, blank, mark, off, on) == (
                Seq::<Seq<T>>::empty(),
                end as int,
            ),
        decreases input@.len() - end,
    {
        let start = match parse_line_ending(input, end) {
            Some(start) => start,
            None => { break ; },
        };
        let (row, row_end) = match parse_row(input, start, blank, mark, off, on) {
            Some(found) => found,
            None => { break ; },
        };
        let ghost before = grid@;
        let ghost row_view = row@;
        grid.push(row);
        proof {
            assert(rows(grid@) =~= rows(before) + seq![row_view]);
            assert(rows(grid@) + rows_after(input@, row_end as int, blank, mark, off, on).0
                =~= rows(before) + rows_after(input@, end as int, blank, mark, off, on).0);
        }
        end = row_end;
    }
    proof {
        assert(rows(grid@) + rows_after(input@, end as int, blank, mark, off, on).0 =~= rows(
            grid@,
        ));
    }
    Some((grid, end))
}

/// Tells whether two strings of bytes are the same.
pub fn same_bytes(a: &[u8], b: &[u8]) -> (r: bool)
    ensures
        r == (a@ == b@),
{
    if a.len() != b.len() {
        return false;
    }
    let mut i: usize = 0;
    while i < a.len()
        invariant
            a@.len() == b@.len(),
            0 <= i <= a@.len(),
            forall|k: int| 0 <= k < i ==> a@[k] == b@[k],
        decreases a@.len() - i,
    {
        if a[i] != b[i] {
            return false;
        }
        i += 1;
    }
    assert(a@ =~= b@);
    true
}

/// What stands between two items of a list.
#[derive(Clone, Copy, Debug, PartialEq, Eq, Structural)]
pub enum Separator {
    /// A line ending.
    Line,
    /// One space or tab, or more.
    Spaces,
    /// Spaces and tabs, or nothing.
    Blank,
    /// The byte named.
    Byte(u8),
    /// Nothing at all: the items follow each other directly.
    Nothing,
}

impl Separator {
    /// Where the separator that starts at `pos` ends.
    pub open spec fn at(self, s: Seq<u8>, pos: int) -> Option<int> {
        match self {
            Separator::Line => line_ending_at(s, pos),
            Separator::Spaces => if pos < run_end(s, pos, Class::Space) {
                Some(run_end(s, pos, Class::Space))
            } else {
                None
            },
            Separator::Blank => Some(run_end(s, pos, Class::Space)),
            Separator::Byte(b) => if byte_at(s, pos, b) {
                Some(pos + 1)
            } else {
                None
            },
            Separator::Nothing => Some(pos),
        }
    }

    /// Reads the separator at `pos`.
    pub fn parse(self, input: &[u8], pos: usize) -> (r: Option<usize>)
        ensures
            r matches Some(end) ==> self.at(input@, pos as int) == Some(end as int) && pos <= end
                && (pos <= input@.len() ==> end <= input@.len()),
            r is None ==> self.at(input@, pos as int) is None,
    {
        match self {
            Separator::Line => parse_line_ending(input, pos),
            Separator::Spaces => {
                let end = skip_run(input, pos, Class::Space);
                if pos < end {
                    Some(end)
                } else {
                    None
                }
            },
            Separator::Blank => Some(skip_run(input, pos, Class::Space)),
            Separator::Byte(b) => if has_byte(input, pos, b) {
                Some(pos + 1)
            } else {
                None
            },
            Separator::Nothing => Some(pos),
        }
    }
}

/// A value that puzzle text can hold, with the grammar that writes it.
pub trait Item: DeepView + Sized {
    /// The item written at `pos`, and where it ends.
    spec fn item_at(s: Seq<u8>, pos: int) -> Option<(Self::V, int)>;

    /// Reads the item at `pos`.
    fn parse(input: &[u8], pos: usize) -> (r: Option<(Self, usize)>)
        ensures
            r matches Some((item, end)) ==> Self::item_at(input@, pos as int) == Some(
                (item.deep_view(), end as int),
            ) && pos <= end <= input@.len(),
            r is None ==> Self::item_at(input@, pos as int) is None,
    ;
}

/// The items that follow a first item which ended at `pos`, each after a
/// separator, and where the last of them ends.  A separator that no item
/// follows is not part of the list, and the list stops before a separator and
/// an item that are both empty.
pub open spec fn items_after<T: Item>(s: Seq<u8>, pos: int, sep: Separator) -> (Seq<T::V>, int)
    decreases s.len() - pos,
{
    match sep.at(s, pos) {
        Some(start) => match T::item_at(s, start) {
            Some((item, end)) => if pos < end <= s.len() {
                let (more, last) = items_after::<T>(s, end, sep);
                (seq![item] + more, last)
            } else {
                (Seq::empty(), pos)
            },
            None => (Seq::empty(), pos),
        },
        None => (Seq::empty(), pos),
    }
}

/// The list written at `pos`, and where it ends: one item or more, with a
/// separator between each two.
pub open spec fn list_at<T: Item>(s: Seq<u8>, pos: int, sep: Separator) -> Option<
    (Seq<T::V>, int),
> {
    match T::item_at(s, pos) {
        Some((item, end)) => {
            let (more, last) = items_after::<T>(s, end, sep);
            Some((seq![item] + more, last))
        },
        None => None,
    }
}

/// Reads a list of items at `pos`.
pub fn parse_list<T: Item>(input: &[u8], pos: usize, sep: Separator) -> (r: Option<
    (Vec<T>, usize),
>)
    ensures
        r matches Some((list, end)) ==> list_at::<T>(input@, pos as int, sep) == Some(
            (list.deep_view(), end as int),
        ) && pos <= end <= input@.len() && list@.len() > 0,
        r is None ==> list_at::<T>(input@, pos as int, sep) is None,
{
    let (first, first_end) = match T::parse(input, pos) {
        Some(found) => found,
        None => { return None; },
    };
    let ghost first_view = first.deep_view();
    let mut list: Vec<T> = Vec::new();
    list.push(first);
    let mut end = first_end;
    proof {
        assert(list.deep_view() =~= seq![first_view]);
        assert(list.deep_view() + items_after::<T>(input@, end as int, sep).0 =~= seq![first_view]
            + items_after::<T>(input@, first_end as int, sep).0);
    }
    loop
        invariant
            pos <= end <= input@.len(),
            list@.len() > 0,
            list_at::<T>(input@, pos as int, sep) == Some(
                (
                    list.deep_view() + items_after::<T>(input@, end as int, sep).0,
                    items_after::<T>(input@, end as int, sep).1,
                ),
            ),
        ensures
            items_after::<T>(input@, end as int, sep) == (Seq::<T::V>::empty(), end as int),
        decreases input@.len() - end,
    {
        let start = match sep.parse(input, end) {
            Some(start) => start,
            None => { break ; },
        };
        let (item, item_end) = match T::parse(input, start) {
            Some(found) => found,
            None => { break ; },
        };
        if item_end == end {
            break ;
        }
        let ghost before = list.deep_view();
        let ghost item_view = item.deep_view();
        list.push(item);
        proof {
            assert(list.deep_view() =~= before + seq![item_view]);
            assert(list.deep_view() + items_after::<T>(input@, item_end as int, sep).0 =~= before
                + items_after::<T>(input@, end as int, sep).0);
        }
        end = item_end;
    }
    proof {
        assert(list.deep_view() + items_after::<T>(input@, end as int, sep).0
            =~= list.deep_view());
    }
    Some((list, end))
}

impl Item for u64 {
    /// An unsigned decimal number that fits 64 bits.
    open spec fn item_at(s: Seq<u8>, pos: int) -> Option<(u64, int)> {
        match number_at(s, pos, u64::MAX as nat) {
            Some((value, end)) => Some((value as u64, end)),
            None => None,
        }
    }

    fn parse(input: &[u8], pos: usize) -> (r: Option<(u64, usize)>) {
        parse_number(input, pos, u64::MAX)
    }
}

impl Item for u32 {
    /// An unsigned decimal number that fits 32 bits.
    open spec fn item_at(s: Seq<u8>, pos: int) -> Option<(u32, int)> {
        match number_at(s, pos, u32::MAX as nat) {
            Some((value, end)) => Some((value as u32, end)),
            None => None,
        }
    }

    fn parse(input: &[u8], pos: usize) -> (r: Option<(u32, usize)>) {
        match parse_number(input, pos, 0xffff_ffff) {
            Some((value, end)) => Some((value as u32, end)),
            None => None,
        }
    }
}

impl Item for usize {
    /// An unsigned decimal number that fits the machine's word.
    open spec fn item_at(s: Seq<u8>, pos: int) -> Option<(usize, int)> {
        match number_at(s, pos, usize::MAX as nat) {
            Some((value, end)) => Some((value as usize, end)),
            None => None,
        }
    }

    fn parse(input: &[u8], pos: usize) -> (r: Option<(usize, usize)>) {
        match parse_number(input, pos, usize::MAX as u64) {
            Some((value, end)) => Some((value as usize, end)),
            None => None,
        }
    }
}

} // verus!
