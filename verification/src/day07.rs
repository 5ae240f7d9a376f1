//! A manifold that beams fall through: a row with the source of the beam,
//! and under it rows with splitters.
//!
//! A beam falls straight down.  Where it meets a splitter it ends, and a
//! beam goes on to the left and to the right of the splitter.

use crate::text::{grid_at, line_ending_at, parse_grid, parse_line_ending, parse_row, row_at, rows};
use vstd::prelude::*;

pub mod part_1;
pub mod part_2;

verus! {

/// The manifold written at `pos`: a row of `.` and `S`, where `S` is a beam,
/// a line ending, and rows of `.` and `^`, where `^` is a splitter.
pub open spec fn manifold_at(s: Seq<u8>, pos: int) -> Option<(Seq<bool>, Seq<Seq<bool>>)> {
    match row_at(s, pos, 0x2e, 0x53, false, true) {
        Some((beams, end)) => match line_ending_at(s, end) {
            Some(next) => match grid_at(s, next, 0x2e, 0x5e, false, true) {
                Some((field, _)) => Some((beams, field)),
                None => None,
            },
            None => None,
        },
        None => None,
    }
}

/// Reads the manifold at `pos`.
pub fn manifold(input: &[u8], pos: usize) -> (r: Option<(Vec<bool>, Vec<Vec<bool>>)>)
    ensures
        r matches Some((beams, field)) ==> manifold_at(input@, pos as int) == Some(
            (beams@, rows(field@)),
        ),
        r is None ==> manifold_at(input@, pos as int) is None,
{
    let (beams, end) = match parse_row(input, pos, 0x2e, 0x53, false, true) {
        Some(found) => found,
        None => { return None; },
    };
    let next = match parse_line_ending(input, end) {
        Some(next) => next,
        None => { return None; },
    };
    match parse_grid(input, next, 0x2e, 0x5e, false, true) {
        Some((field, _)) => Some((beams, field)),
        None => None,
    }
}

/// How many places a row of beams and a row of splitters have in common.
pub open spec fn width(beams: int, splitters: int) -> int {
    if beams <= splitters {
        beams
    } else {
        splitters
    }
}

} // verus!
