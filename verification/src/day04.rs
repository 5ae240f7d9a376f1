//! A grid of rolls of paper.  A roll can be reached where fewer than four of
//! the eight places around it hold a roll.

use crate::text::rows;
use vstd::prelude::*;

pub mod part_1;
pub mod part_2;

verus! {

/// What a place of the grid holds.
#[derive(Clone, Copy, Debug, PartialEq, Eq, Structural)]
pub enum Item {
    Paper,
    Empty,
}

/// Whether the place in row `i` and column `j` is in the grid and holds a
/// roll.
pub open spec fn paper_at(grid: Seq<Seq<Item>>, i: int, j: int) -> bool {
    0 <= i < grid.len() && 0 <= j < grid[i].len() && grid[i][j] == Item::Paper
}

/// 1 for a roll at the place, 0 else.
pub open spec fn roll(grid: Seq<Seq<Item>>, i: int, j: int) -> nat {
    if paper_at(grid, i, j) {
        1
    } else {
        0
    }
}

/// The number of rolls at the eight places around the place in row `i` and
/// column `j`.
pub open spec fn neighbours(grid: Seq<Seq<Item>>, i: int, j: int) -> nat {
    roll(grid, i - 1, j - 1) + roll(grid, i - 1, j) + roll(grid, i - 1, j + 1) + roll(
        grid,
        i,
        j - 1,
    ) + roll(grid, i, j + 1) + roll(grid, i + 1, j - 1) + roll(grid, i + 1, j) + roll(
        grid,
        i + 1,
        j + 1,
    )
}

/// Whether the place holds a roll with fewer than four rolls around it.
pub open spec fn accessible(grid: Seq<Seq<Item>>, i: int, j: int) -> bool {
    paper_at(grid, i, j) && neighbours(grid, i, j) < 4
}

/// The places among the first `upto` of row `i` whose roll can be reached.
pub open spec fn accessible_in_row(grid: Seq<Seq<Item>>, i: int, upto: int) -> Seq<(usize, usize)>
    decreases upto,
{
    if upto <= 0 {
        Seq::empty()
    } else if accessible(grid, i, upto - 1) {
        accessible_in_row(grid, i, upto - 1).push((i as usize, (upto - 1) as usize))
    } else {
        accessible_in_row(grid, i, upto - 1)
    }
}

/// The places in the first `upto` rows whose roll can be reached, row by
/// row.
pub open spec fn accessible_in_rows(grid: Seq<Seq<Item>>, upto: int) -> Seq<(usize, usize)>
    decreases upto,
{
    if upto <= 0 {
        Seq::empty()
    } else {
        accessible_in_rows(grid, upto - 1) + accessible_in_row(
            grid,
            upto - 1,
            grid[upto - 1].len() as int,
        )
    }
}

/// The places of the grid whose roll can be reached.
pub open spec fn accessible_places(grid: Seq<Seq<Item>>) -> Seq<(usize, usize)> {
    accessible_in_rows(grid, grid.len() as int)
}

/// Tells whether the place in row `i` and column `j` holds a roll.
pub fn is_paper(grid: &Vec<Vec<Item>>, i: usize, j: usize) -> (r: bool)
    ensures
        r == paper_at(rows(grid@), i as int, j as int),
{
    i < grid.len() && j < grid[i].len() && grid[i][j] == Item::Paper
}

fn count_roll(grid: &Vec<Vec<Item>>, i: usize, j: usize) -> (r: u8)
    ensures
        r == roll(rows(grid@), i as int, j as int),
{
    if is_paper(grid, i, j) {
        1
    } else {
        0
    }
}

/// Counts the rolls around the place in row `i` and column `j`.
pub fn count_neighbours(grid: &Vec<Vec<Item>>, i: usize, j: usize) -> (r: u8)
    ensures
        r == neighbours(rows(grid@), i as int, j as int),
{
    let mut count: u8 = 0;
    if i > 0 {
        if j > 0 {
            count += count_roll(grid, i - 1, j - 1);
        }
        count += count_roll(grid, i - 1, j);
    }
    if j > 0 {
        count += count_roll(grid, i, j - 1);
        if i < grid.len() {
            count += count_roll(grid, i + 1, j - 1);
        }
    }
    if i < grid.len() {
        count += count_roll(grid, i + 1, j);
    }
    if i > 0 && i - 1 < grid.len() && j < grid[i - 1].len() {
        count += count_roll(grid, i - 1, j + 1);
    }
    if i < grid.len() && j < grid[i].len() {
        count += count_roll(grid, i, j + 1);
    }
    if i < grid.len() && i + 1 < grid.len() && j < grid[i + 1].len() {
        count += count_roll(grid, i + 1, j + 1);
    }
    count
}

/// Tells whether the place holds a roll that can be reached.
pub fn is_accessible(grid: &Vec<Vec<Item>>, i: usize, j: usize) -> (r: bool)
    ensures
        r == accessible(rows(grid@), i as int, j as int),
{
    is_paper(grid, i, j) && count_neighbours(grid, i, j) < 4
}

/// Lists the places of the grid whose roll can be reached, row by row.
pub fn accessible_positions(grid: &Vec<Vec<Item>>) -> (r: Vec<(usize, usize)>)
    ensures
        r@ == accessible_places(rows(grid@)),
{
    let ghost g = rows(grid@);
    let mut found: Vec<(usize, usize)> = Vec::new();
    let mut i: usize = 0;
    while i < grid.len()
        invariant
            0 <= i <= grid@.len(),
            g == rows(grid@),
            found@ == accessible_in_rows(g, i as int),
        decreases grid@.len() - i,
    {
        let ghost before = found@;
        let mut j: usize = 0;
        while j < grid[i].len()
            invariant
                0 <= i < grid@.len(),
                0 <= j <= grid@[i as int]@.len(),
                g == rows(grid@),
                found@ == before + accessible_in_row(g, i as int, j as int),
            decreases grid@[i as int]@.len() - j,
        {
            if is_accessible(grid, i, j) {
                found.push((i, j));
                assert(found@ =~= before + accessible_in_row(g, i as int, j + 1));
            }
            j += 1;
        }
        i += 1;
    }
    found
}

} // verus!
