//! Counting places: how many are free, how many the presents need, and why
//! a layout need not leave more places empty than the difference.

use crate::day12::laid_out::{from_on, lemma_laid_places};
use crate::day12::layout::{
    can_start, fits, free_at, is_box, laid, lays, lemma_laid_keeps_box, none_left, place_of, ways,
    with_piece,
};
use crate::text::rows;
use vstd::prelude::*;

verus! {

/// The number of places that a present takes which can lie in these ways.
pub open spec fn size_of(lies: Seq<Seq<(usize, usize)>>) -> nat {
    if lies.len() > 0 {
        lies[0].len()
    } else {
        0
    }
}

/// The number of places that the presents of the first `upto` shapes take.
pub open spec fn places_needed(
    pieces: Seq<Seq<Seq<(usize, usize)>>>,
    quantities: Seq<u64>,
    upto: int,
) -> nat
    decreases upto,
{
    if upto <= 0 {
        0
    } else {
        places_needed(pieces, quantities, upto - 1) + if upto - 1 < pieces.len() {
            quantities[upto - 1] as nat * size_of(pieces[upto - 1])
        } else {
            0nat
        }
    }
}

/// The number of free places in the first `width` columns, from the place
/// in row `y` and column `x` on in reading order.
pub open spec fn free_from(grid: Seq<Seq<bool>>, width: int, y: int, x: int) -> nat
    decreases grid.len() - y, width - x,
{
    if y < 0 || x < 0 || y >= grid.len() {
        0
    } else if x >= width {
        free_from(grid, width, y + 1, 0)
    } else {
        free_from(grid, width, y, x + 1) + if free_at(grid, y, x) {
            1nat
        } else {
            0nat
        }
    }
}

/// Whether the parts of the piece stand each on a place of its own, the
/// first of them first in reading order.
pub open spec fn well_made(piece: Seq<(usize, usize)>) -> bool {
    &&& forall|t: int|
        0 < t < piece.len() ==> (#[trigger] piece[t]).0 > piece[0].0 || (piece[t].0 == piece[0].0
            && piece[t].1 > piece[0].1)
    &&& forall|t: int, u: int| 0 <= t < u < piece.len() ==> #[trigger] piece[t] != #[trigger] piece[u]
}

/// Whether the pieces of every shape are well made, and have as many parts
/// as the first of them.
pub open spec fn evenly_made(pieces: Seq<Seq<Seq<(usize, usize)>>>) -> bool {
    forall|i: int, way: int|
        0 <= i < pieces.len() && 0 <= way < pieces[i].len() ==> well_made(
            #[trigger] pieces[i][way],
        ) && pieces[i][way].len() == pieces[i][0].len()
}

/// Taking a free place leaves one free place fewer from every place on that
/// does not come after it.
pub proof fn lemma_place_taken(
    grid: Seq<Seq<bool>>,
    width: int,
    y: int,
    x: int,
    row: int,
    col: int,
)
    requires
        free_at(grid, row, col),
        col < width,
    ensures
        free_from(grid.update(row, grid[row].update(col, true)), width, y, x) + if from_on(
            y,
            x,
            row,
            col,
        ) && 0 <= y && 0 <= x {
            1nat
        } else {
            0nat
        } == free_from(grid, width, y, x),
    decreases grid.len() - y, width - x,
{
    let after = grid.update(row, grid[row].update(col, true));
    if y < 0 || x < 0 || y >= grid.len() {
    } else if x >= width {
        lemma_place_taken(grid, width, y + 1, 0, row, col);
    } else {
        lemma_place_taken(grid, width, y, x + 1, row, col);
        if y == row && x == col {
            assert(!free_at(after, y, x));
        } else {
            assert(free_at(after, y, x) == free_at(grid, y, x));
        }
    }
}

/// With the first parts of a well-made piece laid, as many places fewer
/// are free after the place of the first part as parts are laid but the
/// first.
pub proof fn lemma_piece_taken(
    grid: Seq<Seq<bool>>,
    width: int,
    y: int,
    x: int,
    piece: Seq<(usize, usize)>,
    upto: int,
)
    requires
        is_box(grid, width),
        well_made(piece),
        fits(grid, y, x, piece),
        0 <= y,
        0 <= x,
        1 <= upto <= piece.len(),
    ensures
        free_from(laid(grid, y, x, piece, upto), width, y, x + 1) + (upto - 1) == free_from(
            grid,
            width,
            y,
            x + 1,
        ),
    decreases upto,
{
    let before = laid(grid, y, x, piece, upto - 1);
    let at = place_of(y, x, piece, upto - 1);
    assert(free_at(grid, place_of(y, x, piece, upto - 1).0, at.1));
    lemma_laid_keeps_box(grid, y, x, piece, upto - 1);
    lemma_laid_places(grid, y, x, piece, upto - 1, at.0, at.1);
    assert(before[at.0].len() == grid[at.0].len());
    if exists|t: int| 0 <= t < upto - 1 && #[trigger] place_of(y, x, piece, t) == (at.0, at.1) {
        let t = choose|t: int|
            0 <= t < upto - 1 && #[trigger] place_of(y, x, piece, t) == (at.0, at.1);
        assert(piece[t] != piece[upto - 1]);
        assert(piece[t].0 == piece[upto - 1].0 && piece[t].1 == piece[upto - 1].1);
        assert(false);
    }
    assert(free_at(before, at.0, at.1));
    lemma_place_taken(before, width, y, x + 1, at.0, at.1);
    if upto > 1 {
        lemma_piece_taken(grid, width, y, x, piece, upto - 1);
        assert(from_on(y, x + 1, at.0, at.1));
    } else {
        assert(before == grid);
        assert(!from_on(y, x + 1, at.0, at.1));
    }
}

/// With one present fewer of a shape, the presents need as many places
/// fewer as a present of the shape takes.
pub proof fn lemma_needed_fewer(
    pieces: Seq<Seq<Seq<(usize, usize)>>>,
    left: Seq<u64>,
    i: int,
    upto: int,
)
    requires
        0 <= i < left.len(),
        i < pieces.len(),
        left[i] > 0,
        0 <= upto <= left.len(),
    ensures
        places_needed(pieces, left.update(i, (left[i] - 1) as u64), upto) + if i < upto {
            size_of(pieces[i])
        } else {
            0nat
        } == places_needed(pieces, left, upto),
    decreases upto,
{
    if upto > 0 {
        lemma_needed_fewer(pieces, left, i, upto - 1);
        if upto - 1 == i {
            let size = size_of(pieces[i]);
            let many = left[i] as nat;
            assert((many - 1) * size + size == many * size) by (nonlinear_arith);
        }
    }
}

/// Where no present is left, no place is needed.
pub proof fn lemma_none_needed(pieces: Seq<Seq<Seq<(usize, usize)>>>, left: Seq<u64>, upto: int)
    requires
        none_left(left),
        0 <= upto <= left.len(),
    ensures
        places_needed(pieces, left, upto) == 0,
    decreases upto,
{
    if upto > 0 {
        lemma_none_needed(pieces, left, upto - 1);
        assert(left[upto - 1] == 0);
        assert(0nat * size_of(pieces[upto - 1]) == 0) by (nonlinear_arith);
    }
}

/// Presents that can be laid place by place, with evenly made pieces, need
/// no more places than are free, and can be laid leaving empty no more
/// places than are free beyond those they need.
pub proof fn lemma_spare_enough(
    pieces: Seq<Seq<Seq<(usize, usize)>>>,
    grid: Seq<Seq<bool>>,
    width: int,
    y: int,
    x: int,
    left: Seq<u64>,
    spare: nat,
    less: nat,
)
    requires
        evenly_made(pieces),
        is_box(grid, width),
        0 <= y,
        0 <= x,
        lays(pieces, grid, width, y, x, left, spare),
        less >= free_from(grid, width, y, x) - places_needed(pieces, left, left.len() as int),
    ensures
        places_needed(pieces, left, left.len() as int) <= free_from(grid, width, y, x),
        lays(pieces, grid, width, y, x, left, less),
    decreases grid.len() - y, width - x,
{
    let needed = places_needed(pieces, left, left.len() as int);
    if none_left(left) {
        lemma_none_needed(pieces, left, left.len() as int);
    } else if x >= width {
        lemma_spare_enough(pieces, grid, width, y + 1, 0, left, spare, less);
    } else if !free_at(grid, y, x) {
        lemma_spare_enough(pieces, grid, width, y, x + 1, left, spare, less);
    } else if spare > 0 && lays(pieces, grid, width, y, x + 1, left, (spare - 1) as nat) {
        let free = free_from(grid, width, y, x + 1);
        let some: nat = if free >= needed {
            (free - needed) as nat
        } else {
            0
        };
        lemma_spare_enough(pieces, grid, width, y, x + 1, left, (spare - 1) as nat, some);
        lemma_spare_enough(
            pieces,
            grid,
            width,
            y,
            x + 1,
            left,
            (spare - 1) as nat,
            (less - 1) as nat,
        );
    } else {
        let (i, way) = choose|i: int, way: int|
            #[trigger] can_start(pieces, grid, y, x, left, i, way) && with_piece(
                pieces,
                grid,
                y,
                x,
                i,
                way,
            ).len() == grid.len() && lays(
                pieces,
                with_piece(pieces, grid, y, x, i, way),
                width,
                y,
                x + 1,
                left.update(i, (left[i] - 1) as u64),
                spare,
            );
        let piece = pieces[i][way];
        let after = with_piece(pieces, grid, y, x, i, way);
        let fewer = left.update(i, (left[i] - 1) as u64);
        assert(well_made(piece) && piece.len() == pieces[i][0].len());
        assert(piece.len() == size_of(pieces[i]));
        lemma_laid_keeps_box(grid, y, x, piece, piece.len() as int);
        lemma_piece_taken(grid, width, y, x, piece, piece.len() as int);
        lemma_needed_fewer(pieces, left, i, left.len() as int);
        lemma_spare_enough(pieces, after, width, y, x + 1, fewer, spare, less);
        assert(can_start(pieces, grid, y, x, left, i, way));
    }
}

/// In a grid with every place free, the places from a place on are all
/// free.
pub proof fn lemma_all_free(length: int, width: int, y: int, x: int)
    requires
        0 <= y <= length,
        0 <= x <= width,
    ensures
        free_from(Seq::new(length as nat, |r: int| Seq::new(width as nat, |c: int| false)), width, y, x)
            == if y < length {
            (length - y) * width - x
        } else {
            0
        },
    decreases length - y, width - x,
{
    let grid = Seq::new(length as nat, |r: int| Seq::new(width as nat, |c: int| false));
    let rows_left = length - y;
    if y >= length {
    } else if x >= width {
        lemma_all_free(length, width, y + 1, 0);
        assert(rows_left * width - width == (rows_left - 1) * width) by (nonlinear_arith);
        if y + 1 >= length {
            assert(rows_left * width == width) by (nonlinear_arith)
                requires
                    rows_left == 1,
            ;
        }
    } else {
        lemma_all_free(length, width, y, x + 1);
        assert(free_at(grid, y, x));
    }
}

/// Tells whether the parts of the piece stand each on a place of its own,
/// the first of them first in reading order.
pub fn is_well_made(piece: &Vec<(usize, usize)>) -> (r: bool)
    ensures
        r == well_made(piece@),
{
    let mut t: usize = 1;
    while t < piece.len()
        invariant
            1 <= t,
            forall|k: int|
                0 < k < t && k < piece@.len() ==> (#[trigger] piece@[k]).0 > piece@[0].0 || (
                piece@[k].0 == piece@[0].0 && piece@[k].1 > piece@[0].1),
        decreases piece@.len() - t,
    {
        if !(piece[t].0 > piece[0].0 || (piece[t].0 == piece[0].0 && piece[t].1 > piece[0].1)) {
            return false;
        }
        t += 1;
    }
    let mut u: usize = 0;
    while u < piece.len()
        invariant
            0 <= u <= piece@.len(),
            forall|k: int|
                0 < k < piece@.len() ==> (#[trigger] piece@[k]).0 > piece@[0].0 || (piece@[k].0
                    == piece@[0].0 && piece@[k].1 > piece@[0].1),
            forall|a: int, b: int| 0 <= a < b < u ==> #[trigger] piece@[a] != #[trigger] piece@[b],
        decreases piece@.len() - u,
    {
        let mut t: usize = 0;
        while t < u
            invariant
                0 <= t <= u < piece@.len(),
                forall|a: int| 0 <= a < t ==> #[trigger] piece@[a] != piece@[u as int],
            decreases u - t,
        {
            if piece[t].0 == piece[u].0 && piece[t].1 == piece[u].1 {
                assert(piece@[t as int] == piece@[u as int]);
                return false;
            }
            t += 1;
        }
        u += 1;
    }
    true
}

/// Tells whether the pieces of every shape are well made, and have as many
/// parts as the first of them.
pub fn made_evenly(pieces: &Vec<Vec<Vec<(usize, usize)>>>) -> (r: bool)
    ensures
        r == evenly_made(ways(pieces@)),
{
    let ghost lies = ways(pieces@);
    let mut i: usize = 0;
    while i < pieces.len()
        invariant
            0 <= i <= pieces@.len(),
            lies == ways(pieces@),
            forall|k: int, way: int|
                0 <= k < i && 0 <= way < lies[k].len() ==> well_made(#[trigger] lies[k][way])
                    && lies[k][way].len() == lies[k][0].len(),
        decreases pieces@.len() - i,
    {
        let mut way: usize = 0;
        while way < pieces[i].len()
            invariant
                0 <= i < pieces@.len(),
                0 <= way <= pieces@[i as int]@.len(),
                lies == ways(pieces@),
                forall|w: int|
                    0 <= w < way ==> well_made(#[trigger] lies[i as int][w]) && lies[i as int][w].len()
                        == lies[i as int][0].len(),
            decreases pieces@[i as int]@.len() - way,
        {
            assert(lies[i as int][way as int] == pieces@[i as int]@[way as int]@);
            assert(lies[i as int][0] == pieces@[i as int]@[0]@);
            if !is_well_made(&pieces[i][way]) || pieces[i][way].len() != pieces[i][0].len() {
                return false;
            }
            way += 1;
        }
        i += 1;
    }
    true
}

/// Computes the number of places that the presents need, if it is no more
/// than `most`.
pub fn needed_places(pieces: &Vec<Vec<Vec<(usize, usize)>>>, left: &Vec<u64>, most: u128) -> (r:
    Option<u128>)
    ensures
        match r {
            Some(needed) => needed == places_needed(ways(pieces@), left@, left@.len() as int)
                && needed <= most,
            None => places_needed(ways(pieces@), left@, left@.len() as int) > most,
        },
{
    let ghost lies = ways(pieces@);
    let mut needed: u128 = 0;
    let mut i: usize = 0;
    while i < left.len()
        invariant
            0 <= i <= left@.len(),
            lies == ways(pieces@),
            needed == places_needed(lies, left@, i as int),
            needed <= most,
        decreases left@.len() - i,
    {
        if i < pieces.len() {
            assert(lies[i as int] == rows(pieces@[i as int]@));
            let size: usize = if pieces[i].len() > 0 {
                assert(lies[i as int][0] == pieces@[i as int]@[0]@);
                pieces[i][0].len()
            } else {
                0
            };
            let many = left[i];
            assert(many * size <= 0xffff_ffff_ffff_ffff * 0xffff_ffff_ffff_ffff) by (nonlinear_arith)
                requires
                    0 <= many <= 0xffff_ffff_ffff_ffff,
                    0 <= size <= 0xffff_ffff_ffff_ffff,
            ;
            let more = many as u128 * size as u128;
            if more > most - needed {
                proof {
                    lemma_needed_grows(lies, left@, i + 1, left@.len() as int);
                }
                return None;
            }
            needed = needed + more;
        }
        i += 1;
    }
    Some(needed)
}

/// More shapes need no fewer places.
pub proof fn lemma_needed_grows(
    pieces: Seq<Seq<Seq<(usize, usize)>>>,
    quantities: Seq<u64>,
    upto: int,
    end: int,
)
    requires
        0 <= upto <= end,
    ensures
        places_needed(pieces, quantities, upto) <= places_needed(pieces, quantities, end),
    decreases end - upto,
{
    if upto < end {
        lemma_needed_grows(pieces, quantities, upto, end - 1);
    }
}

} // verus!
