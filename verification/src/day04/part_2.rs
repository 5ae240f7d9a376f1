//! The rolls that can be removed, when the rolls that can be reached are
//! taken away again and again until none can be reached.

use crate::day04::{
    accessible, accessible_in_row, accessible_in_rows, accessible_places, accessible_positions,
    is_accessible, paper_at, Item,
};
use crate::decimal::{decimal, to_text};
use crate::error::{Error, Stage};
use crate::text::{grid_at, parse_grid, rows};
use vstd::prelude::*;
use vstd::string::*;

verus! {

/// The grid without the rolls that can be reached.
pub open spec fn cleared(grid: Seq<Seq<Item>>) -> Seq<Seq<Item>> {
    Seq::new(
        grid.len(),
        |i: int|
            Seq::new(
                grid[i].len(),
                |j: int|
                    if accessible(grid, i, j) {
                        Item::Empty
                    } else {
                        grid[i][j]
                    },
            ),
    )
}

/// The grid after the rolls that can be reached were taken away `rounds`
/// times.
pub open spec fn grid_after(grid: Seq<Seq<Item>>, rounds: nat) -> Seq<Seq<Item>>
    decreases rounds,
{
    if rounds == 0 {
        grid
    } else {
        cleared(grid_after(grid, (rounds - 1) as nat))
    }
}

/// The number of rolls that were taken away in `rounds` rounds.
pub open spec fn removed_after(grid: Seq<Seq<Item>>, rounds: nat) -> nat
    decreases rounds,
{
    if rounds == 0 {
        0
    } else {
        removed_after(grid, (rounds - 1) as nat) + accessible_places(
            grid_after(grid, (rounds - 1) as nat),
        ).len()
    }
}

/// Whether after `rounds` rounds, and not before, no roll can be reached.
pub open spec fn settles_after(grid: Seq<Seq<Item>>, rounds: nat) -> bool {
    &&& accessible_places(grid_after(grid, rounds)).len() == 0
    &&& forall|earlier: nat|
        earlier < rounds ==> accessible_places(#[trigger] grid_after(grid, earlier)).len() > 0
}

/// The rolls settle after one number of rounds only.
pub proof fn lemma_settles_once(grid: Seq<Seq<Item>>, a: nat, b: nat)
    requires
        settles_after(grid, a),
        settles_after(grid, b),
    ensures
        a == b,
{
    if a < b {
        assert(accessible_places(grid_after(grid, a)).len() > 0);
    } else if b < a {
        assert(accessible_places(grid_after(grid, b)).len() > 0);
    }
}

/// The number of rounds after which no roll can be reached.
pub open spec fn rounds_to_settle(grid: Seq<Seq<Item>>) -> nat {
    choose|rounds: nat| settles_after(grid, rounds)
}

/// The number of rolls among the first `upto` places of row `i`.
pub open spec fn papers_in_row(grid: Seq<Seq<Item>>, i: int, upto: int) -> nat
    decreases upto,
{
    if upto <= 0 {
        0
    } else {
        papers_in_row(grid, i, upto - 1) + if paper_at(grid, i, upto - 1) {
            1nat
        } else {
            0nat
        }
    }
}

/// The number of rolls in the first `upto` rows.
pub open spec fn papers(grid: Seq<Seq<Item>>, upto: int) -> nat
    decreases upto,
{
    if upto <= 0 {
        0
    } else {
        papers(grid, upto - 1) + papers_in_row(grid, upto - 1, grid[upto - 1].len() as int)
    }
}

/// In a row, the rolls that stay and the rolls that can be reached are the
/// rolls that were there.
pub proof fn lemma_row_cleared(grid: Seq<Seq<Item>>, i: int, upto: int)
    requires
        0 <= i < grid.len(),
        0 <= upto <= grid[i].len(),
    ensures
        papers_in_row(cleared(grid), i, upto) + accessible_in_row(grid, i, upto).len()
            == papers_in_row(grid, i, upto),
    decreases upto,
{
    if upto > 0 {
        lemma_row_cleared(grid, i, upto - 1);
        assert(cleared(grid)[i][upto - 1] == if accessible(grid, i, upto - 1) {
            Item::Empty
        } else {
            grid[i][upto - 1]
        });
    }
}

/// The rolls that stay and the rolls that can be reached are the rolls that
/// were there.
pub proof fn lemma_cleared(grid: Seq<Seq<Item>>, upto: int)
    requires
        0 <= upto <= grid.len(),
    ensures
        papers(cleared(grid), upto) + accessible_in_rows(grid, upto).len() == papers(grid, upto),
    decreases upto,
{
    if upto > 0 {
        lemma_cleared(grid, upto - 1);
        lemma_row_cleared(grid, upto - 1, grid[upto - 1].len() as int);
    }
}

/// Lists the places of the grid whose roll can be reached, row by row.
pub fn accessible_rolls(grid: &Vec<Vec<Item>>) -> (r: Vec<(usize, usize)>)
    ensures
        r@ == accessible_places(rows(grid@)),
{
    accessible_positions(grid)
}

/// Makes the grid without the rolls that can be reached.
pub fn clear_accessible(grid: &Vec<Vec<Item>>) -> (r: Vec<Vec<Item>>)
    ensures
        rows(r@) == cleared(rows(grid@)),
{
    let ghost g = rows(grid@);
    let mut next: Vec<Vec<Item>> = Vec::new();
    let mut i: usize = 0;
    while i < grid.len()
        invariant
            0 <= i <= grid@.len(),
            g == rows(grid@),
            next@.len() == i,
            forall|k: int| 0 <= k < i ==> (#[trigger] next@[k])@ == cleared(g)[k],
        decreases grid@.len() - i,
    {
        let mut row: Vec<Item> = Vec::new();
        let mut j: usize = 0;
        while j < grid[i].len()
            invariant
                0 <= i < grid@.len(),
                0 <= j <= grid@[i as int]@.len(),
                g == rows(grid@),
                row@.len() == j,
                forall|k: int| 0 <= k < j ==> #[trigger] row@[k] == cleared(g)[i as int][k],
            decreases grid@[i as int]@.len() - j,
        {
            row.push(
                if is_accessible(grid, i, j) {
                    Item::Empty
                } else {
                    grid[i][j]
                },
            );
            j += 1;
        }
        assert(row@ =~= cleared(g)[i as int]);
        next.push(row);
        i += 1;
    }
    assert(rows(next@) =~= cleared(g));
    next
}

/// Reads the grid, takes the rolls that can be reached away until none can
/// be reached, and writes the number of rolls taken away in decimal.  Fails
/// with `Parse` where the text does not start with a row of the grid, and
/// with `Overflow` where the number does not fit 64 bits.
pub fn solve(input: &str) -> (r: Result<String, Error>)
    ensures
        match grid_at(input.spec_bytes(), 0, 0x2e, 0x40, Item::Empty, Item::Paper) {
            None => r == Err::<String, Error>(Error::Parse(Stage::ItemGrid)),
            Some((grid, _)) => settles_after(grid, rounds_to_settle(grid)) && match r {
                Ok(text) => text@ == decimal(removed_after(grid, rounds_to_settle(grid))),
                Err(e) => e == Error::Overflow && removed_after(grid, rounds_to_settle(grid))
                    > u64::MAX,
            },
        },
{
    let mut grid = match parse_grid(input.as_bytes(), 0, 0x2e, 0x40, Item::Empty, Item::Paper) {
        Some((grid, _)) => grid,
        None => { return Err(Error::Parse(Stage::ItemGrid)); },
    };
    let ghost start = rows(grid@);
    let ghost mut rounds: nat = 0;
    let mut removed: u64 = 0;
    let mut overflow = false;
    loop
        invariant
            grid_at(input.spec_bytes(), 0, 0x2e, 0x40, Item::Empty, Item::Paper) matches Some(
                (read, _),
            ) && read == start,
            rows(grid@) == grid_after(start, rounds),
            forall|earlier: nat|
                earlier < rounds ==> accessible_places(#[trigger] grid_after(start, earlier)).len()
                    > 0,
            !overflow ==> removed == removed_after(start, rounds),
            overflow ==> removed_after(start, rounds) > u64::MAX,
        ensures
            settles_after(start, rounds),
        decreases papers(rows(grid@), grid@.len() as int),
    {
        let places = accessible_rolls(&grid);
        if places.len() == 0 {
            break ;
        }
        proof {
            lemma_cleared(rows(grid@), grid@.len() as int);
        }
        if !overflow {
            match removed.checked_add(places.len() as u64) {
                Some(sum) => {
                    removed = sum;
                },
                None => {
                    overflow = true;
                },
            }
        }
        grid = clear_accessible(&grid);
        proof {
            rounds = rounds + 1;
        }
    }
    proof {
        lemma_settles_once(start, rounds, rounds_to_settle(start));
    }
    if overflow {
        Err(Error::Overflow)
    } else {
        Ok(to_text(removed))
    }
}

} // verus!
