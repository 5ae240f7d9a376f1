//! Ranges of fresh ingredients, and the ingredients that are in them.
//!
//! The text starts with the ranges, each on a line of its own: a first and a
//! last ingredient with a hyphen between them.  The ranges end where a line
//! is no range.

use crate::text::{
    byte_at, has_byte, line_ending_at, list_at, number_at, parse_line_ending, parse_list,
    parse_number, Item, Separator,
};
use vstd::prelude::*;

pub mod part_1;
pub mod part_2;

verus! {

/// The ingredients from `first` to `last`, both included.
#[derive(Clone, Copy, Debug, PartialEq, Eq, Structural)]
pub struct FreshRange {
    pub first: u64,
    pub last: u64,
}

impl DeepView for FreshRange {
    type V = FreshRange;

    open spec fn deep_view(&self) -> FreshRange {
        *self
    }
}

impl Item for FreshRange {
    /// Two numbers of 64 bits with a hyphen between them, and a line ending.
    open spec fn item_at(s: Seq<u8>, pos: int) -> Option<(FreshRange, int)> {
        match number_at(s, pos, u64::MAX as nat) {
            Some((first, hyphen)) => if byte_at(s, hyphen, 0x2d) {
                match number_at(s, hyphen + 1, u64::MAX as nat) {
                    Some((last, end)) => match line_ending_at(s, end) {
                        Some(next) => Some(
                            (FreshRange { first: first as u64, last: last as u64 }, next),
                        ),
                        None => None,
                    },
                    None => None,
                }
            } else {
                None
            },
            None => None,
        }
    }

    fn parse(input: &[u8], pos: usize) -> (r: Option<(FreshRange, usize)>) {
        let (first, hyphen) = match parse_number(input, pos, u64::MAX) {
            Some(found) => found,
            None => { return None; },
        };
        if !has_byte(input, hyphen, 0x2d) {
            return None;
        }
        let (last, end) = match parse_number(input, hyphen + 1, u64::MAX) {
            Some(found) => found,
            None => { return None; },
        };
        match parse_line_ending(input, end) {
            Some(next) => Some((FreshRange { first, last }, next)),
            None => None,
        }
    }
}

/// The ranges written at `pos`, none or more, and where they end.
pub open spec fn fresh_at(s: Seq<u8>, pos: int) -> (Seq<FreshRange>, int) {
    match list_at::<FreshRange>(s, pos, Separator::Nothing) {
        Some(found) => found,
        None => (Seq::empty(), pos),
    }
}

/// Reads the ranges at `pos`.
pub fn fresh_ingredients(input: &[u8], pos: usize) -> (r: (Vec<FreshRange>, usize))
    ensures
        fresh_at(input@, pos as int) == (r.0@, r.1 as int),
        pos <= r.1,
        pos <= input@.len() ==> r.1 <= input@.len(),
{
    match parse_list::<FreshRange>(input, pos, Separator::Nothing) {
        Some((ranges, end)) => {
            assert(ranges.deep_view() =~= ranges@);
            (ranges, end)
        },
        None => (Vec::new(), pos),
    }
}

/// Whether the ingredient is in the range.
pub open spec fn covers(range: FreshRange, ingredient: int) -> bool {
    range.first <= ingredient <= range.last
}

/// Whether the ingredient is in one of the ranges.
pub open spec fn is_fresh(ranges: Seq<FreshRange>, ingredient: int) -> bool {
    exists|i: int| 0 <= i < ranges.len() && covers(#[trigger] ranges[i], ingredient)
}

} // verus!
