//! Presents of given shapes, and regions under trees that are to hold some
//! number of presents of each shape.
//!
//! The text lists the shapes, each a number and a colon on a line of its own
//! and under them rows of `#` and `.`, with an empty line between two
//! shapes; then, after one more empty line, the regions, one to a line: the
//! width and the length with an `x` between them, a colon, and the number of
//! presents of each shape.

use crate::text::{
    byte_at, grid_at, has_byte, line_ending_at, list_at, number_at, parse_grid, parse_line_ending,
    parse_list, parse_number, rows, run_end, skip_run, Class, Item, Separator,
};
use vstd::prelude::*;

pub mod laid_out;
pub mod layout;
pub mod part_1;
pub mod places;

verus! {

/// The shape of a present: rows of places that are part of it or not.
#[derive(Debug)]
pub struct Shape {
    pub parts: Vec<Vec<bool>>,
}

/// A region, and how many presents of each shape it is to hold.
#[derive(Debug)]
pub struct Region {
    pub width: u64,
    pub length: u64,
    pub quantities: Vec<u64>,
}

impl DeepView for Shape {
    type V = Seq<Seq<bool>>;

    open spec fn deep_view(&self) -> Seq<Seq<bool>> {
        rows(self.parts@)
    }
}

impl DeepView for Region {
    type V = (u64, u64, Seq<u64>);

    open spec fn deep_view(&self) -> (u64, u64, Seq<u64>) {
        (self.width, self.length, self.quantities@)
    }
}

impl Item for Shape {
    /// Digits and a colon, a line ending, rows of `.` and `#` where `#` is a
    /// part of the shape, and a line ending.
    open spec fn item_at(s: Seq<u8>, pos: int) -> Option<(Seq<Seq<bool>>, int)> {
        let colon = run_end(s, pos, Class::Digit);
        if pos < colon && byte_at(s, colon, 0x3a) {
            match line_ending_at(s, colon + 1) {
                Some(start) => match grid_at(s, start, 0x2e, 0x23, false, true) {
                    Some((parts, end)) => match line_ending_at(s, end) {
                        Some(next) => Some((parts, next)),
                        None => None,
                    },
                    None => None,
                },
                None => None,
            }
        } else {
            None
        }
    }

    fn parse(input: &[u8], pos: usize) -> (r: Option<(Shape, usize)>) {
        let colon = skip_run(input, pos, Class::Digit);
        if !(pos < colon && has_byte(input, colon, 0x3a)) {
            return None;
        }
        let start = match parse_line_ending(input, colon + 1) {
            Some(start) => start,
            None => { return None; },
        };
        let (parts, end) = match parse_grid(input, start, 0x2e, 0x23, false, true) {
            Some(found) => found,
            None => { return None; },
        };
        match parse_line_ending(input, end) {
            Some(next) => Some((Shape { parts }, next)),
            None => None,
        }
    }
}

/// The width and the length written at `pos`: two numbers of 64 bits with an
/// `x` between them.
pub open spec fn dimensions_at(s: Seq<u8>, pos: int) -> Option<((u64, u64), int)> {
    match number_at(s, pos, u64::MAX as nat) {
        Some((width, by)) => if byte_at(s, by, 0x78) {
            match number_at(s, by + 1, u64::MAX as nat) {
                Some((length, end)) => Some(((width as u64, length as u64), end)),
                None => None,
            }
        } else {
            None
        },
        None => None,
    }
}

/// Reads the width and the length at `pos`.
pub fn dimensions(input: &[u8], pos: usize) -> (r: Option<((u64, u64), usize)>)
    ensures
        r matches Some((size, end)) ==> dimensions_at(input@, pos as int) == Some(
            (size, end as int),
        ) && pos <= end <= input@.len(),
        r is None ==> dimensions_at(input@, pos as int) is None,
{
    let (width, by) = match parse_number(input, pos, u64::MAX) {
        Some(found) => found,
        None => { return None; },
    };
    if !has_byte(input, by, 0x78) {
        return None;
    }
    match parse_number(input, by + 1, u64::MAX) {
        Some((length, end)) => Some(((width, length), end)),
        None => None,
    }
}

impl Item for Region {
    /// The width and the length, a colon, spaces, and numbers of 64 bits with
    /// spaces between them.
    open spec fn item_at(s: Seq<u8>, pos: int) -> Option<((u64, u64, Seq<u64>), int)> {
        match dimensions_at(s, pos) {
            Some(((width, length), colon)) => if byte_at(s, colon, 0x3a) {
                match Separator::Spaces.at(s, colon + 1) {
                    Some(start) => match list_at::<u64>(s, start, Separator::Spaces) {
                        Some((quantities, end)) => Some(((width, length, quantities), end)),
                        None => None,
                    },
                    None => None,
                }
            } else {
                None
            },
            None => None,
        }
    }

    fn parse(input: &[u8], pos: usize) -> (r: Option<(Region, usize)>) {
        let ((width, length), colon) = match dimensions(input, pos) {
            Some(found) => found,
            None => { return None; },
        };
        if !has_byte(input, colon, 0x3a) {
            return None;
        }
        let start = match Separator::Spaces.parse(input, colon + 1) {
            Some(start) => start,
            None => { return None; },
        };
        match parse_list::<u64>(input, start, Separator::Spaces) {
            Some((quantities, end)) => {
                assert(quantities.deep_view() =~= quantities@);
                Some((Region { width, length, quantities }, end))
            },
            None => None,
        }
    }
}

/// The puzzle written at `pos`: the shapes with line endings between them, a
/// line ending, and the regions with line endings between them.
pub open spec fn puzzle_at(s: Seq<u8>, pos: int) -> Option<
    (Seq<Seq<Seq<bool>>>, Seq<(u64, u64, Seq<u64>)>),
> {
    match list_at::<Shape>(s, pos, Separator::Line) {
        Some((shapes, end)) => match line_ending_at(s, end) {
            Some(next) => match list_at::<Region>(s, next, Separator::Line) {
                Some((regions, _)) => Some((shapes, regions)),
                None => None,
            },
            None => None,
        },
        None => None,
    }
}

/// Reads the puzzle at `pos`.
pub fn puzzle(input: &[u8], pos: usize) -> (r: Option<(Vec<Shape>, Vec<Region>)>)
    ensures
        r matches Some((shapes, regions)) ==> puzzle_at(input@, pos as int) == Some(
            (shapes.deep_view(), regions.deep_view()),
        ),
        r is None ==> puzzle_at(input@, pos as int) is None,
{
    let (shapes, end) = match parse_list::<Shape>(input, pos, Separator::Line) {
        Some(found) => found,
        None => { return None; },
    };
    let next = match parse_line_ending(input, end) {
        Some(next) => next,
        None => { return None; },
    };
    match parse_list::<Region>(input, next, Separator::Line) {
        Some((regions, _)) => Some((shapes, regions)),
        None => None,
    }
}

} // verus!
