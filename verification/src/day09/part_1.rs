//! The largest rectangle that has red tiles as two opposite corners.

use crate::day09::{area_between, checked_area, TileCoordinate};
use crate::error::{Error, Stage};
use crate::text::{list_at, parse_list, Separator};
use vstd::prelude::*;
use vstd::string::*;

verus! {

/// Whether `area` is the largest area of a rectangle between two of the
/// tiles; with fewer than two tiles that is 0.
pub open spec fn is_largest_area(tiles: Seq<TileCoordinate>, area: nat) -> bool {
    &&& forall|i: int, j: int|
        0 <= j < i < tiles.len() ==> #[trigger] area_between(tiles[i], tiles[j]) <= area
    &&& if tiles.len() < 2 {
        area == 0
    } else {
        exists|i: int, j: int|
            0 <= j < i < tiles.len() && #[trigger] area_between(tiles[i], tiles[j]) == area
    }
}

/// There is one largest area only.
pub proof fn lemma_largest_area_once(tiles: Seq<TileCoordinate>, a: nat, b: nat)
    requires
        is_largest_area(tiles, a),
        is_largest_area(tiles, b),
    ensures
        a == b,
{
    if tiles.len() >= 2 {
        let (i, j) = choose|i: int, j: int|
            0 <= j < i < tiles.len() && #[trigger] area_between(tiles[i], tiles[j]) == a;
        let (k, l) = choose|k: int, l: int|
            0 <= l < k < tiles.len() && #[trigger] area_between(tiles[k], tiles[l]) == b;
        assert(area_between(tiles[i], tiles[j]) <= b);
        assert(area_between(tiles[k], tiles[l]) <= a);
    }
}

/// Reads the red tiles, one to a line, and finds the largest area of a
/// rectangle between two of them.  Fails with `Parse` where the text does not
/// start with a tile, and with `Overflow` where an area does not fit 64 bits.
pub fn solve(input: &str) -> (r: Result<u64, Error>)
    ensures
        match list_at::<TileCoordinate>(input.spec_bytes(), 0, Separator::Line) {
            None => r == Err::<u64, Error>(Error::Parse(Stage::RedTiles)),
            Some((tiles, _)) => match r {
                Ok(area) => is_largest_area(tiles, area as nat),
                Err(e) => e == Error::Overflow && exists|i: int, j: int|
                    0 <= j < i < tiles.len() && #[trigger] area_between(tiles[i], tiles[j])
                        > u64::MAX,
            },
        },
{
    let tiles = match parse_list::<TileCoordinate>(input.as_bytes(), 0, Separator::Line) {
        Some((tiles, _)) => tiles,
        None => { return Err(Error::Parse(Stage::RedTiles)); },
    };
    assert(tiles.deep_view() =~= tiles@);
    let found = largest_area(&tiles);
    proof {
        let read = list_at::<TileCoordinate>(input.spec_bytes(), 0, Separator::Line);
        assert(read.unwrap().0 == tiles@);
        if found is Err {
            let (i, j) = choose|i: int, j: int|
                0 <= j < i < tiles@.len() && #[trigger] area_between(tiles@[i], tiles@[j])
                    > u64::MAX;
            assert(area_between(read.unwrap().0[i], read.unwrap().0[j]) > u64::MAX);
        }
    }
    found
}

/// Finds the largest area of a rectangle between two of the tiles.
pub fn largest_area(tiles: &Vec<TileCoordinate>) -> (r: Result<u64, Error>)
    ensures
        match r {
            Ok(area) => is_largest_area(tiles@, area as nat),
            Err(e) => e == Error::Overflow && exists|i: int, j: int|
                0 <= j < i < tiles@.len() && #[trigger] area_between(tiles@[i], tiles@[j])
                    > u64::MAX,
        },
{
    let mut best: u64 = 0;
    let mut i: usize = 0;
    while i < tiles.len()
        invariant
            0 <= i <= tiles@.len(),
            forall|a: int, b: int|
                0 <= b < a < i ==> #[trigger] area_between(tiles@[a], tiles@[b]) <= best,
            if i < 2 {
                best == 0
            } else {
                exists|a: int, b: int|
                    0 <= b < a < i && #[trigger] area_between(tiles@[a], tiles@[b]) == best
            },
        decreases tiles@.len() - i,
    {
        let mut j: usize = 0;
        while j < i
            invariant
                0 <= j <= i < tiles@.len(),
                forall|a: int, b: int|
                    0 <= b < a < i ==> #[trigger] area_between(tiles@[a], tiles@[b]) <= best,
                forall|b: int| 0 <= b < j ==> #[trigger] area_between(tiles@[i as int], tiles@[b]) <= best,
                if i < 2 && j == 0 {
                    best == 0
                } else {
                    exists|a: int, b: int|
                        0 <= b < a <= i && (a < i || b < j) && #[trigger] area_between(
                            tiles@[a],
                            tiles@[b],
                        ) == best
                },
            decreases i - j,
        {
            match checked_area(tiles[i], tiles[j]) {
                None => {
                    assert(area_between(tiles@[i as int], tiles@[j as int]) > u64::MAX);
                    return Err(Error::Overflow);
                },
                Some(area) => {
                    if area > best {
                        best = area;
                        assert(area_between(tiles@[i as int], tiles@[j as int]) == best);
                    } else if i < 2 && j == 0 {
                        // The first pair of all: every area is at least 1.
                        assert(area_between(tiles@[i as int], tiles@[j as int]) >= 1)
                            by (nonlinear_arith)
                            requires
                                area_between(tiles@[i as int], tiles@[j as int]) == (
                                crate::day09::distance(tiles@[i as int].x, tiles@[j as int].x)
                                    + 1) * (crate::day09::distance(
                                    tiles@[i as int].y,
                                    tiles@[j as int].y,
                                ) + 1),
                        ;
                    }
                },
            }
            j += 1;
        }
        i += 1;
    }
    Ok(best)
}

} // verus!
