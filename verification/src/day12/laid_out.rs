//! What it means that presents lie in a region, and why presents that can
//! be laid place by place do lie there.
//!
//! A present that lies is given by its shape, the way it lies, and the row
//! and the column of its first part.

use crate::day12::layout::{
    can_start, fits, free_at, is_box, laid, lays, lemma_laid_keeps_box, none_left, place_of,
    with_piece,
};
use vstd::prelude::*;

verus! {

/// Whether the present has a part in row `row` and column `col`.
pub open spec fn lies_on(
    pieces: Seq<Seq<Seq<(usize, usize)>>>,
    lying: (int, int, int, int),
    row: int,
    col: int,
) -> bool {
    exists|t: int|
        0 <= t < pieces[lying.0][lying.1].len() && #[trigger] place_of(
            lying.2,
            lying.3,
            pieces[lying.0][lying.1],
            t,
        ) == (row, col)
}

/// Whether the present is of a shape that there is, lies in one of its ways,
/// and has each of its parts on a free place of the grid.
pub open spec fn lies_free(
    pieces: Seq<Seq<Seq<(usize, usize)>>>,
    grid: Seq<Seq<bool>>,
    lying: (int, int, int, int),
) -> bool {
    &&& 0 <= lying.0 < pieces.len()
    &&& 0 <= lying.1 < pieces[lying.0].len()
    &&& fits(grid, lying.2, lying.3, pieces[lying.0][lying.1])
}

/// Whether the two presents have no place in common.
pub open spec fn apart(
    pieces: Seq<Seq<Seq<(usize, usize)>>>,
    one: (int, int, int, int),
    other: (int, int, int, int),
) -> bool {
    forall|row: int, col: int|
        !(#[trigger] lies_on(pieces, one, row, col) && #[trigger] lies_on(pieces, other, row, col))
}

/// How many of the presents are of the shape `shape`.
pub open spec fn count_of(layout: Seq<(int, int, int, int)>, shape: int) -> nat
    decreases layout.len(),
{
    if layout.len() == 0 {
        0
    } else {
        count_of(layout.drop_last(), shape) + if layout.last().0 == shape {
            1nat
        } else {
            0nat
        }
    }
}

/// Whether the presents lie on the grid as asked: each on free places, no
/// two of them on one place, and of each shape as many as `left` says, none
/// of another shape.
pub open spec fn is_layout(
    pieces: Seq<Seq<Seq<(usize, usize)>>>,
    grid: Seq<Seq<bool>>,
    left: Seq<u64>,
    layout: Seq<(int, int, int, int)>,
) -> bool {
    &&& forall|k: int|
        0 <= k < layout.len() ==> lies_free(pieces, grid, #[trigger] layout[k]) && layout[k].0
            < left.len()
    &&& forall|j: int, k: int|
        0 <= j < k < layout.len() ==> apart(pieces, #[trigger] layout[j], #[trigger] layout[k])
    &&& forall|i: int| 0 <= i < left.len() ==> count_of(layout, i) == #[trigger] left[i]
}

/// A place of the grid with parts laid on it is taken where it was taken
/// before or one of the parts came to lie on it.
pub proof fn lemma_laid_places(
    grid: Seq<Seq<bool>>,
    y: int,
    x: int,
    piece: Seq<(usize, usize)>,
    upto: int,
    row: int,
    col: int,
)
    requires
        0 <= upto <= piece.len(),
        0 <= row < grid.len(),
        0 <= col < grid[row].len(),
    ensures
        laid(grid, y, x, piece, upto)[row][col] == (grid[row][col] || exists|t: int|
            0 <= t < upto && #[trigger] place_of(y, x, piece, t) == (row, col)),
    decreases upto,
{
    if upto > 0 {
        lemma_laid_places(grid, y, x, piece, upto - 1, row, col);
        lemma_laid_keeps_box(grid, y, x, piece, upto - 1);
        let before = laid(grid, y, x, piece, upto - 1);
        let at = place_of(y, x, piece, upto - 1);
        if exists|t: int| 0 <= t < upto && #[trigger] place_of(y, x, piece, t) == (row, col) {
            let t = choose|t: int| 0 <= t < upto && #[trigger] place_of(y, x, piece, t) == (row, col);
            if t < upto - 1 {
                assert(before[row][col]);
            }
        }
        if at == (row, col) {
            assert(before[row].len() == grid[row].len());
        }
    }
}

/// A present that lies on free places of the grid with a piece laid on it
/// lies on free places of the grid, and apart from the piece.
pub proof fn lemma_lies_beside(
    pieces: Seq<Seq<Seq<(usize, usize)>>>,
    grid: Seq<Seq<bool>>,
    y: int,
    x: int,
    i: int,
    way: int,
    lying: (int, int, int, int),
)
    requires
        0 <= i < pieces.len(),
        0 <= way < pieces[i].len(),
        fits(grid, y, x, pieces[i][way]),
        lies_free(pieces, with_piece(pieces, grid, y, x, i, way), lying),
    ensures
        lies_free(pieces, grid, lying),
        apart(pieces, lying, (i, way, y, x)),
{
    let piece = pieces[i][way];
    let other = pieces[lying.0][lying.1];
    let after = with_piece(pieces, grid, y, x, i, way);
    lemma_laid_keeps_box(grid, y, x, piece, piece.len() as int);
    assert forall|t: int| 0 <= t < other.len() implies free_at(
        grid,
        #[trigger] place_of(lying.2, lying.3, other, t).0,
        place_of(lying.2, lying.3, other, t).1,
    ) by {
        let at = place_of(lying.2, lying.3, other, t);
        assert(free_at(after, at.0, at.1));
        assert(after[at.0].len() == grid[at.0].len());
        lemma_laid_places(grid, y, x, piece, piece.len() as int, at.0, at.1);
    }
    assert forall|row: int, col: int|
        !(#[trigger] lies_on(pieces, lying, row, col) && #[trigger] lies_on(
            pieces,
            (i, way, y, x),
            row,
            col,
        )) by {
        if lies_on(pieces, lying, row, col) && lies_on(pieces, (i, way, y, x), row, col) {
            let t = choose|t: int|
                0 <= t < other.len() && #[trigger] place_of(lying.2, lying.3, other, t) == (
                    row,
                    col,
                );
            let u = choose|u: int|
                0 <= u < piece.len() && #[trigger] place_of(y, x, piece, u) == (row, col);
            assert(free_at(after, place_of(lying.2, lying.3, other, t).0, col));
            assert(free_at(grid, place_of(y, x, piece, u).0, col));
            lemma_laid_places(grid, y, x, piece, piece.len() as int, row, col);
            assert(false);
        }
    }
}

/// Presents that can be laid place by place lie on the grid as asked.
pub proof fn lemma_lays_out(
    pieces: Seq<Seq<Seq<(usize, usize)>>>,
    grid: Seq<Seq<bool>>,
    width: int,
    y: int,
    x: int,
    left: Seq<u64>,
    spare: nat,
) -> (layout: Seq<(int, int, int, int)>)
    requires
        lays(pieces, grid, width, y, x, left, spare),
    ensures
        is_layout(pieces, grid, left, layout),
    decreases grid.len() - y, width - x,
{
    if none_left(left) {
        Seq::empty()
    } else if x >= width {
        lemma_lays_out(pieces, grid, width, y + 1, 0, left, spare)
    } else if !free_at(grid, y, x) {
        lemma_lays_out(pieces, grid, width, y, x + 1, left, spare)
    } else if spare > 0 && lays(pieces, grid, width, y, x + 1, left, (spare - 1) as nat) {
        lemma_lays_out(pieces, grid, width, y, x + 1, left, (spare - 1) as nat)
    } else {
        let (i, way) = choose|i: int, way: int|
            #[trigger] can_start(pieces, grid, y, x, left, i, way) && with_piece(
                pieces,
                grid,
                y,
                x,
                i,
                way,
            ).len() == grid.len() && lays(
                pieces,
                with_piece(pieces, grid, y, x, i, way),
                width,
                y,
                x + 1,
                left.update(i, (left[i] - 1) as u64),
                spare,
            );
        let after = with_piece(pieces, grid, y, x, i, way);
        let fewer = left.update(i, (left[i] - 1) as u64);
        let rest = lemma_lays_out(pieces, after, width, y, x + 1, fewer, spare);
        let here = (i, way, y, x);
        let layout = rest.push(here);
        assert(layout.drop_last() =~= rest);
        assert forall|k: int| 0 <= k < layout.len() implies lies_free(
            pieces,
            grid,
            #[trigger] layout[k],
        ) && layout[k].0 < left.len() by {
            if k < rest.len() {
                lemma_lies_beside(pieces, grid, y, x, i, way, rest[k]);
            }
        }
        assert forall|j: int, k: int| 0 <= j < k < layout.len() implies apart(
            pieces,
            #[trigger] layout[j],
            #[trigger] layout[k],
        ) by {
            if k < rest.len() {
                assert(apart(pieces, rest[j], rest[k]));
            } else {
                lemma_lies_beside(pieces, grid, y, x, i, way, rest[j]);
            }
        }
        assert forall|s: int| 0 <= s < left.len() implies count_of(layout, s) == #[trigger] left[s] by {
            assert(count_of(rest, s) == fewer[s]);
        }
        layout
    }
}

/// Whether the place in row `row` and column `col` comes in reading order
/// where the place in row `y` and column `x` comes, or after it.
pub open spec fn from_on(y: int, x: int, row: int, col: int) -> bool {
    row > y || (row == y && col >= x)
}

/// Whether each of the presents has its first part at the place in row `y`
/// and column `x`, or after it.
pub open spec fn starts_from(layout: Seq<(int, int, int, int)>, y: int, x: int) -> bool {
    forall|k: int|
        0 <= k < layout.len() ==> from_on(y, x, (#[trigger] layout[k]).2, layout[k].3)
}

/// Without one of the presents there is one fewer of its shape, and as many
/// of every other.
pub proof fn lemma_count_without(layout: Seq<(int, int, int, int)>, k: int, shape: int)
    requires
        0 <= k < layout.len(),
    ensures
        count_of(layout, shape) == count_of(layout.remove(k), shape) + if layout[k].0 == shape {
            1nat
        } else {
            0nat
        },
    decreases layout.len(),
{
    if k == layout.len() - 1 {
        assert(layout.remove(k) =~= layout.drop_last());
    } else {
        lemma_count_without(layout.drop_last(), k, shape);
        assert(layout.remove(k).drop_last() =~= layout.drop_last().remove(k));
        assert(layout.remove(k).last() == layout.last());
    }
}

/// A present that lies on free places of the grid, apart from a piece,
/// lies on free places still when the piece is laid.
pub proof fn lemma_lies_still(
    pieces: Seq<Seq<Seq<(usize, usize)>>>,
    grid: Seq<Seq<bool>>,
    y: int,
    x: int,
    i: int,
    way: int,
    lying: (int, int, int, int),
)
    requires
        0 <= i < pieces.len(),
        0 <= way < pieces[i].len(),
        lies_free(pieces, grid, lying),
        apart(pieces, lying, (i, way, y, x)),
    ensures
        lies_free(pieces, with_piece(pieces, grid, y, x, i, way), lying),
{
    let piece = pieces[i][way];
    let other = pieces[lying.0][lying.1];
    let after = with_piece(pieces, grid, y, x, i, way);
    lemma_laid_keeps_box(grid, y, x, piece, piece.len() as int);
    assert forall|t: int| 0 <= t < other.len() implies free_at(
        after,
        #[trigger] place_of(lying.2, lying.3, other, t).0,
        place_of(lying.2, lying.3, other, t).1,
    ) by {
        let at = place_of(lying.2, lying.3, other, t);
        assert(free_at(grid, at.0, at.1));
        assert(after[at.0].len() == grid[at.0].len());
        lemma_laid_places(grid, y, x, piece, piece.len() as int, at.0, at.1);
        assert(lies_on(pieces, lying, at.0, at.1));
        if exists|u: int|
            0 <= u < piece.len() && #[trigger] place_of(y, x, piece, u) == (at.0, at.1) {
            let u = choose|u: int|
                0 <= u < piece.len() && #[trigger] place_of(y, x, piece, u) == (at.0, at.1);
            let laid_here = (i, way, y, x);
            assert(place_of(laid_here.2, laid_here.3, pieces[laid_here.0][laid_here.1], u) == (
                at.0,
                at.1,
            ));
            assert(lies_on(pieces, laid_here, at.0, at.1));
        }
    }
}

/// Presents that lie on the grid as asked, none of them starting before the
/// place in row `y` and column `x`, can be laid place by place from there
/// on, where as many places may be left empty as there are places to come.
pub proof fn lemma_layout_lays(
    pieces: Seq<Seq<Seq<(usize, usize)>>>,
    grid: Seq<Seq<bool>>,
    width: int,
    y: int,
    x: int,
    left: Seq<u64>,
    spare: nat,
    layout: Seq<(int, int, int, int)>,
)
    requires
        is_box(grid, width),
        is_layout(pieces, grid, left, layout),
        starts_from(layout, y, x),
        0 <= y,
        0 <= x <= width,
        spare >= (grid.len() - y) * width - x,
    ensures
        lays(pieces, grid, width, y, x, left, spare),
    decreases grid.len() - y, width - x,
{
    if none_left(left) {
    } else {
        let wanted = choose|i: int| 0 <= i < left.len() && left[i] != 0;
        assert(count_of(layout, wanted) == left[wanted]);
        assert(layout.len() > 0);
        let first = layout[0];
        lemma_starts_free(pieces, grid, left, layout, 0);
        assert(from_on(y, x, first.2, first.3));
        assert((grid.len() - y) * width >= width) by (nonlinear_arith)
            requires
                grid.len() - y >= 1,
                width >= 0,
        ;
        if x >= width {
            assert forall|k: int| 0 <= k < layout.len() implies from_on(
                y + 1,
                0,
                (#[trigger] layout[k]).2,
                layout[k].3,
            ) by {
                lemma_starts_free(pieces, grid, left, layout, k);
            }
            assert((grid.len() - y) * width - x == (grid.len() - (y + 1)) * width)
                by (nonlinear_arith)
                requires
                    x == width,
            ;
            lemma_layout_lays(pieces, grid, width, y + 1, 0, left, spare, layout);
        } else if exists|k: int|
            0 <= k < layout.len() && (#[trigger] layout[k]).2 == y && layout[k].3 == x {
            let k = choose|k: int|
                0 <= k < layout.len() && (#[trigger] layout[k]).2 == y && layout[k].3 == x;
            let (i, way) = (layout[k].0, layout[k].1);
            let here = layout[k];
            assert(here == (i, way, y, x));
            let after = with_piece(pieces, grid, y, x, i, way);
            let fewer = left.update(i, (left[i] - 1) as u64);
            let rest = layout.remove(k);
            lemma_starts_free(pieces, grid, left, layout, k);
            lemma_laid_keeps_box(grid, y, x, pieces[i][way], pieces[i][way].len() as int);
            lemma_count_without(layout, k, i);
            assert(i < left.len());
            assert(count_of(layout, i) == left[i]);
            assert(left[i] > 0);
            assert(can_start(pieces, grid, y, x, left, i, way));
            assert forall|j: int| 0 <= j < rest.len() implies lies_free(
                pieces,
                after,
                #[trigger] rest[j],
            ) && rest[j].0 < fewer.len() && from_on(y, x + 1, rest[j].2, rest[j].3) by {
                let was = if j < k {
                    j
                } else {
                    j + 1
                };
                assert(rest[j] == layout[was]);
                assert(lies_free(pieces, grid, layout[was]));
                if was < k {
                    assert(apart(pieces, layout[was], layout[k]));
                } else {
                    assert(apart(pieces, layout[k], layout[was]));
                }
                lemma_lies_still(pieces, grid, y, x, i, way, layout[was]);
                lemma_starts_free(pieces, grid, left, layout, was);
                assert(from_on(y, x, layout[was].2, layout[was].3));
                if layout[was].2 == y && layout[was].3 == x {
                    assert(lies_on(pieces, layout[was], y, x));
                    assert(lies_on(pieces, here, y, x));
                    assert(false);
                }
            }
            assert forall|a: int, b: int| 0 <= a < b < rest.len() implies apart(
                pieces,
                #[trigger] rest[a],
                #[trigger] rest[b],
            ) by {
                let was_a = if a < k {
                    a
                } else {
                    a + 1
                };
                let was_b = if b < k {
                    b
                } else {
                    b + 1
                };
                assert(apart(pieces, layout[was_a], layout[was_b]));
            }
            assert forall|s: int| 0 <= s < fewer.len() implies count_of(rest, s)
                == #[trigger] fewer[s] by {
                lemma_count_without(layout, k, s);
                assert(count_of(layout, s) == left[s]);
            }
            assert(is_layout(pieces, after, fewer, rest));
            assert((grid.len() - y) * width - x >= (after.len() - y) * width - (x + 1));
            lemma_layout_lays(pieces, after, width, y, x + 1, fewer, spare, rest);
        } else {
            assert forall|k: int| 0 <= k < layout.len() implies from_on(
                y,
                x + 1,
                (#[trigger] layout[k]).2,
                layout[k].3,
            ) by {
                assert(from_on(y, x, layout[k].2, layout[k].3));
            }
            if free_at(grid, y, x) {
                lemma_layout_lays(pieces, grid, width, y, x + 1, left, (spare - 1) as nat, layout);
            } else {
                lemma_layout_lays(pieces, grid, width, y, x + 1, left, spare, layout);
            }
        }
    }
}

/// A present of a layout has its first part on a free place of the grid,
/// and there is such a shape.
pub proof fn lemma_starts_free(
    pieces: Seq<Seq<Seq<(usize, usize)>>>,
    grid: Seq<Seq<bool>>,
    left: Seq<u64>,
    layout: Seq<(int, int, int, int)>,
    k: int,
)
    requires
        is_layout(pieces, grid, left, layout),
        0 <= k < layout.len(),
    ensures
        free_at(grid, layout[k].2, layout[k].3),
        lies_on(pieces, layout[k], layout[k].2, layout[k].3),
        count_of(layout, layout[k].0) > 0,
        0 <= layout[k].0 < pieces.len(),
        layout[k].0 < left.len(),
        0 <= layout[k].1 < pieces[layout[k].0].len(),
{
    let lying = layout[k];
    let piece = pieces[lying.0][lying.1];
    assert(lies_free(pieces, grid, lying));
    assert(place_of(lying.2, lying.3, piece, 0) == (lying.2, lying.3));
    assert(free_at(
        grid,
        place_of(lying.2, lying.3, piece, 0).0,
        place_of(lying.2, lying.3, piece, 0).1,
    ));
    lemma_count_without(layout, k, lying.0);
}

} // verus!
