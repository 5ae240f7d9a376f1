//! The rolls that can be reached.

use crate::day04::{accessible_places, accessible_positions, Item};
use crate::decimal::{decimal, to_text};
use crate::error::{Error, Stage};
use crate::text::{grid_at, parse_grid, rows};
use vstd::prelude::*;
use vstd::string::*;

verus! {

/// Counts the rolls of the grid that can be reached.
pub fn accessible_rolls(grid: &Vec<Vec<Item>>) -> (r: usize)
    ensures
        r == accessible_places(rows(grid@)).len(),
{
    accessible_positions(grid).len()
}

/// Reads the grid, rows of `.` and `@` where `@` is a roll, counts the rolls
/// that can be reached and writes the count in decimal.  Fails with `Parse`
/// where the text does not start with a row of the grid.
pub fn solve(input: &str) -> (r: Result<String, Error>)
    ensures
        match grid_at(input.spec_bytes(), 0, 0x2e, 0x40, Item::Empty, Item::Paper) {
            None => r == Err::<String, Error>(Error::Parse(Stage::ItemGrid)),
            Some((grid, _)) => r matches Ok(text) && text@ == decimal(
                accessible_places(grid).len(),
            ),
        },
{
    let grid = match parse_grid(input.as_bytes(), 0, 0x2e, 0x40, Item::Empty, Item::Paper) {
        Some((grid, _)) => grid,
        None => { return Err(Error::Parse(Stage::ItemGrid)); },
    };
    Ok(to_text(accessible_rolls(&grid) as u64))
}

} // verus!
