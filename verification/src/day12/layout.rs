//! Laying presents in a region.
//!
//! A present may be turned and mirrored, so a shape can lie in eight ways.
//! A layout is made place by place in reading order: at a place that is
//! free, a present starts there with its first part in reading order, or the
//! place is left empty for good.  The presents have so many parts in all, so
//! a layout leaves as many places empty as the region has more places than
//! that; no more than so many may be left empty on the way.

use crate::text::rows;
use vstd::prelude::*;

verus! {

/// Whether the shape has a part in row `r` and column `c`.
pub open spec fn part_at(shape: Seq<Seq<bool>>, r: int, c: int) -> bool {
    0 <= r < shape.len() && 0 <= c < shape[r].len() && shape[r][c]
}

/// The length of the longest of the first `upto` rows.
pub open spec fn widest(shape: Seq<Seq<bool>>, upto: int) -> nat
    decreases upto,
{
    if upto <= 0 {
        0
    } else if shape[upto - 1].len() > widest(shape, upto - 1) {
        shape[upto - 1].len()
    } else {
        widest(shape, upto - 1)
    }
}

/// Whether every row is `width` long.
pub open spec fn is_box(grid: Seq<Seq<bool>>, width: int) -> bool {
    forall|r: int| 0 <= r < grid.len() ==> (#[trigger] grid[r]).len() == width
}

/// The shape with every row as long as the longest.
pub open spec fn boxed(shape: Seq<Seq<bool>>) -> Seq<Seq<bool>> {
    Seq::new(
        shape.len(),
        |r: int| Seq::new(widest(shape, shape.len() as int), |c: int| part_at(shape, r, c)),
    )
}

/// How long the rows of a box are.
pub open spec fn width_of(grid: Seq<Seq<bool>>) -> nat {
    if grid.len() > 0 {
        grid[0].len()
    } else {
        0
    }
}

/// The box turned by a quarter: its columns become the rows.
pub open spec fn turn(grid: Seq<Seq<bool>>) -> Seq<Seq<bool>> {
    Seq::new(
        width_of(grid),
        |r: int| Seq::new(grid.len(), |c: int| grid[grid.len() - 1 - c][r]),
    )
}

/// The box mirrored: every row read from its end.
pub open spec fn mirror(grid: Seq<Seq<bool>>) -> Seq<Seq<bool>> {
    Seq::new(
        grid.len(),
        |r: int| Seq::new(width_of(grid), |c: int| grid[r][width_of(grid) - 1 - c]),
    )
}

/// The box in one of its eight ways to lie: turned `way` times, and from the
/// fourth way on mirrored first.
pub open spec fn oriented(grid: Seq<Seq<bool>>, way: int) -> Seq<Seq<bool>>
    decreases way,
{
    if way <= 0 {
        grid
    } else if way == 4 {
        mirror(grid)
    } else {
        turn(oriented(grid, way - 1))
    }
}

/// The parts among the first `upto` places of row `r`, in reading order.
pub open spec fn parts_in_row(grid: Seq<Seq<bool>>, r: int, upto: int) -> Seq<(usize, usize)>
    decreases upto,
{
    if upto <= 0 {
        Seq::empty()
    } else if grid[r][upto - 1] {
        parts_in_row(grid, r, upto - 1).push((r as usize, (upto - 1) as usize))
    } else {
        parts_in_row(grid, r, upto - 1)
    }
}

/// The parts in the first `upto` rows, in reading order.
pub open spec fn parts_in_rows(grid: Seq<Seq<bool>>, upto: int) -> Seq<(usize, usize)>
    decreases upto,
{
    if upto <= 0 {
        Seq::empty()
    } else {
        parts_in_rows(grid, upto - 1) + parts_in_row(grid, upto - 1, grid[upto - 1].len() as int)
    }
}

/// The parts of the box, in reading order.
pub open spec fn parts_of(grid: Seq<Seq<bool>>) -> Seq<(usize, usize)> {
    parts_in_rows(grid, grid.len() as int)
}

/// The eight ways in which a present of the shape can lie, each as the list
/// of its parts.
pub open spec fn pieces_of(shape: Seq<Seq<bool>>) -> Seq<Seq<(usize, usize)>> {
    Seq::new(8, |way: int| parts_of(oriented(boxed(shape), way)))
}

/// Makes the shape a box.
pub fn box_shape(shape: &Vec<Vec<bool>>) -> (r: Vec<Vec<bool>>)
    ensures
        rows(r@) == boxed(rows(shape@)),
        is_box(rows(r@), width_of(rows(r@)) as int),
{
    let ghost given = rows(shape@);
    let mut width: usize = 0;
    let mut i: usize = 0;
    while i < shape.len()
        invariant
            0 <= i <= shape@.len(),
            given == rows(shape@),
            width == widest(given, i as int),
        decreases shape@.len() - i,
    {
        if shape[i].len() > width {
            width = shape[i].len();
        }
        i += 1;
    }
    let mut made: Vec<Vec<bool>> = Vec::new();
    let mut r: usize = 0;
    while r < shape.len()
        invariant
            0 <= r <= shape@.len(),
            given == rows(shape@),
            width == widest(given, given.len() as int),
            made@.len() == r,
            forall|k: int| 0 <= k < r ==> (#[trigger] made@[k])@ == boxed(given)[k],
        decreases shape@.len() - r,
    {
        let mut row: Vec<bool> = Vec::new();
        let mut c: usize = 0;
        while c < width
            invariant
                0 <= r < shape@.len(),
                0 <= c <= width,
                given == rows(shape@),
                row@.len() == c,
                forall|k: int| 0 <= k < c ==> row@[k] == part_at(given, r as int, k),
            decreases width - c,
        {
            row.push(c < shape[r].len() && shape[r][c]);
            c += 1;
        }
        assert(row@ =~= boxed(given)[r as int]);
        made.push(row);
        r += 1;
    }
    assert(rows(made@) =~= boxed(given));
    made
}

/// Turns the box by a quarter.
pub fn turned(grid: &Vec<Vec<bool>>) -> (r: Vec<Vec<bool>>)
    requires
        is_box(rows(grid@), width_of(rows(grid@)) as int),
    ensures
        rows(r@) == turn(rows(grid@)),
        is_box(rows(r@), width_of(rows(r@)) as int),
{
    let ghost given = rows(grid@);
    let height = grid.len();
    let width = if height > 0 {
        grid[0].len()
    } else {
        0
    };
    let mut made: Vec<Vec<bool>> = Vec::new();
    let mut r: usize = 0;
    while r < width
        invariant
            0 <= r <= width,
            height == grid@.len(),
            width == width_of(given),
            given == rows(grid@),
            is_box(given, width as int),
            made@.len() == r,
            forall|k: int| 0 <= k < r ==> (#[trigger] made@[k])@ == turn(given)[k],
        decreases width - r,
    {
        let mut row: Vec<bool> = Vec::new();
        let mut c: usize = 0;
        while c < height
            invariant
                0 <= r < width,
                0 <= c <= height,
                height == grid@.len(),
                given == rows(grid@),
                is_box(given, width as int),
                row@.len() == c,
                forall|k: int| 0 <= k < c ==> row@[k] == given[height - 1 - k][r as int],
            decreases height - c,
        {
            assert(given[height - 1 - c].len() == width);
            row.push(grid[height - 1 - c][r]);
            c += 1;
        }
        assert(row@ =~= turn(given)[r as int]);
        made.push(row);
        r += 1;
    }
    assert(rows(made@) =~= turn(given));
    made
}

/// Mirrors the box.
pub fn mirrored(grid: &Vec<Vec<bool>>) -> (r: Vec<Vec<bool>>)
    requires
        is_box(rows(grid@), width_of(rows(grid@)) as int),
    ensures
        rows(r@) == mirror(rows(grid@)),
        is_box(rows(r@), width_of(rows(r@)) as int),
{
    let ghost given = rows(grid@);
    let height = grid.len();
    let width = if height > 0 {
        grid[0].len()
    } else {
        0
    };
    let mut made: Vec<Vec<bool>> = Vec::new();
    let mut r: usize = 0;
    while r < height
        invariant
            0 <= r <= height,
            height == grid@.len(),
            width == width_of(given),
            given == rows(grid@),
            is_box(given, width as int),
            made@.len() == r,
            forall|k: int| 0 <= k < r ==> (#[trigger] made@[k])@ == mirror(given)[k],
        decreases height - r,
    {
        let mut row: Vec<bool> = Vec::new();
        let mut c: usize = 0;
        assert(given[r as int].len() == width);
        while c < width
            invariant
                0 <= r < height,
                0 <= c <= width,
                height == grid@.len(),
                given == rows(grid@),
                given[r as int].len() == width,
                row@.len() == c,
                forall|k: int| 0 <= k < c ==> row@[k] == given[r as int][width - 1 - k],
            decreases width - c,
        {
            row.push(grid[r][width - 1 - c]);
            c += 1;
        }
        assert(row@ =~= mirror(given)[r as int]);
        made.push(row);
        r += 1;
    }
    assert(rows(made@) =~= mirror(given));
    made
}

/// Lists the parts of the box in reading order.
pub fn list_parts(grid: &Vec<Vec<bool>>) -> (r: Vec<(usize, usize)>)
    ensures
        r@ == parts_of(rows(grid@)),
{
    let ghost given = rows(grid@);
    let mut found: Vec<(usize, usize)> = Vec::new();
    let mut i: usize = 0;
    while i < grid.len()
        invariant
            0 <= i <= grid@.len(),
            given == rows(grid@),
            found@ == parts_in_rows(given, i as int),
        decreases grid@.len() - i,
    {
        let ghost before = found@;
        let mut j: usize = 0;
        while j < grid[i].len()
            invariant
                0 <= i < grid@.len(),
                0 <= j <= grid@[i as int]@.len(),
                given == rows(grid@),
                found@ == before + parts_in_row(given, i as int, j as int),
            decreases grid@[i as int]@.len() - j,
        {
            if grid[i][j] {
                found.push((i, j));
                assert(found@ =~= before + parts_in_row(given, i as int, j + 1));
            }
            j += 1;
        }
        i += 1;
    }
    found
}

/// Lists the eight ways in which a present of the shape can lie.
pub fn orientations(shape: &Vec<Vec<bool>>) -> (r: Vec<Vec<(usize, usize)>>)
    ensures
        rows(r@) == pieces_of(rows(shape@)),
{
    let ghost given = boxed(rows(shape@));
    let mut found: Vec<Vec<(usize, usize)>> = Vec::new();
    let mut grid = box_shape(shape);
    let mut way: usize = 0;
    while way < 8
        invariant
            0 <= way <= 8,
            given == boxed(rows(shape@)),
            way < 8 ==> rows(grid@) == oriented(given, way as int),
            way < 8 ==> is_box(rows(grid@), width_of(rows(grid@)) as int),
            found@.len() == way,
            forall|k: int| 0 <= k < way ==> (#[trigger] found@[k])@ == parts_of(oriented(given, k)),
        decreases 8 - way,
    {
        found.push(list_parts(&grid));
        way += 1;
        if way == 4 {
            let boxed_again = box_shape(shape);
            grid = mirrored(&boxed_again);
        } else if way < 8 {
            grid = turned(&grid);
        }
    }
    assert(rows(found@) =~= pieces_of(rows(shape@)));
    found
}

/// Whether the place in row `row` and column `col` is in the grid and free.
pub open spec fn free_at(grid: Seq<Seq<bool>>, row: int, col: int) -> bool {
    0 <= row < grid.len() && 0 <= col < grid[row].len() && !grid[row][col]
}

/// Where the part `t` of a piece lies when the first part of the piece lies
/// in row `y` and column `x`.
pub open spec fn place_of(y: int, x: int, piece: Seq<(usize, usize)>, t: int) -> (int, int) {
    (y + piece[t].0 - piece[0].0, x + piece[t].1 - piece[0].1)
}

/// Whether the piece can lie with its first part in row `y` and column `x`:
/// it has parts, and each of them comes to lie on a free place.
pub open spec fn fits(grid: Seq<Seq<bool>>, y: int, x: int, piece: Seq<(usize, usize)>) -> bool {
    &&& piece.len() > 0
    &&& forall|t: int|
        0 <= t < piece.len() ==> free_at(
            grid,
            #[trigger] place_of(y, x, piece, t).0,
            place_of(y, x, piece, t).1,
        )
}

/// The grid with the first `upto` parts of the piece laid on it.
pub open spec fn laid(
    grid: Seq<Seq<bool>>,
    y: int,
    x: int,
    piece: Seq<(usize, usize)>,
    upto: int,
) -> Seq<Seq<bool>>
    decreases upto,
{
    if upto <= 0 {
        grid
    } else {
        let before = laid(grid, y, x, piece, upto - 1);
        let (row, col) = place_of(y, x, piece, upto - 1);
        if 0 <= row < before.len() && 0 <= col < before[row].len() {
            before.update(row, before[row].update(col, true))
        } else {
            before
        }
    }
}

/// Laying parts leaves the rows as many and as long as they were.
pub proof fn lemma_laid_keeps_box(
    grid: Seq<Seq<bool>>,
    y: int,
    x: int,
    piece: Seq<(usize, usize)>,
    upto: int,
)
    ensures
        laid(grid, y, x, piece, upto).len() == grid.len(),
        forall|r: int|
            0 <= r < grid.len() ==> (#[trigger] laid(grid, y, x, piece, upto)[r]).len()
                == grid[r].len(),
    decreases upto,
{
    if upto > 0 {
        lemma_laid_keeps_box(grid, y, x, piece, upto - 1);
    }
}

/// Whether no present is left.
pub open spec fn none_left(left: Seq<u64>) -> bool {
    forall|i: int| 0 <= i < left.len() ==> #[trigger] left[i] == 0
}

/// Whether a present of the shape `i` can start in row `y` and column `x`,
/// lying in the way `way`: one is left, and it comes to lie on free places.
pub open spec fn can_start(
    pieces: Seq<Seq<Seq<(usize, usize)>>>,
    grid: Seq<Seq<bool>>,
    y: int,
    x: int,
    left: Seq<u64>,
    i: int,
    way: int,
) -> bool {
    &&& 0 <= i < left.len()
    &&& i < pieces.len()
    &&& left[i] > 0
    &&& 0 <= way < pieces[i].len()
    &&& fits(grid, y, x, pieces[i][way])
}

/// The grid once a present of the shape `i` lies on it in the way `way`,
/// with its first part in row `y` and column `x`.
pub open spec fn with_piece(
    pieces: Seq<Seq<Seq<(usize, usize)>>>,
    grid: Seq<Seq<bool>>,
    y: int,
    x: int,
    i: int,
    way: int,
) -> Seq<Seq<bool>> {
    laid(grid, y, x, pieces[i][way], pieces[i][way].len() as int)
}

/// Whether the presents that are left can be laid on the places from row `y`
/// and column `x` on, in reading order, with at most `spare` free places
/// left empty.  `pieces` holds for each shape the ways in which a present of
/// it can lie, and `left` how many presents of each shape are left.  At a
/// free place either a present starts, or the place stays empty and counts
/// against the spare places.
pub open spec fn lays(
    pieces: Seq<Seq<Seq<(usize, usize)>>>,
    grid: Seq<Seq<bool>>,
    width: int,
    y: int,
    x: int,
    left: Seq<u64>,
    spare: nat,
) -> bool
    decreases grid.len() - y, width - x,
{
    if none_left(left) {
        true
    } else if y < 0 || x < 0 || y >= grid.len() {
        false
    } else if x >= width {
        lays(pieces, grid, width, y + 1, 0, left, spare)
    } else if !free_at(grid, y, x) {
        lays(pieces, grid, width, y, x + 1, left, spare)
    } else {
        ||| (exists|i: int, way: int|
            #[trigger] can_start(pieces, grid, y, x, left, i, way) && with_piece(
                pieces,
                grid,
                y,
                x,
                i,
                way,
            ).len() == grid.len() && lays(
                pieces,
                with_piece(pieces, grid, y, x, i, way),
                width,
                y,
                x + 1,
                left.update(i, (left[i] - 1) as u64),
                spare,
            ))
        ||| (spare > 0 && lays(pieces, grid, width, y, x + 1, left, (spare - 1) as nat))
    }
}

/// Whether a present of the shape `i` can start in row `y` and column `x`,
/// lying in the way `way`, and the presents that are then left can be laid
/// on the places that follow.
pub open spec fn starts(
    pieces: Seq<Seq<Seq<(usize, usize)>>>,
    grid: Seq<Seq<bool>>,
    width: int,
    y: int,
    x: int,
    left: Seq<u64>,
    spare: nat,
    i: int,
    way: int,
) -> bool {
    &&& can_start(pieces, grid, y, x, left, i, way)
    &&& lays(
        pieces,
        with_piece(pieces, grid, y, x, i, way),
        width,
        y,
        x + 1,
        left.update(i, (left[i] - 1) as u64),
        spare,
    )
}

/// Tells whether the piece can lie with its first part in row `y` and column
/// `x`.
pub fn fits_at(grid: &Vec<Vec<bool>>, y: usize, x: usize, piece: &Vec<(usize, usize)>) -> (r: bool)
    ensures
        r == fits(rows(grid@), y as int, x as int, piece@),
{
    if piece.len() == 0 {
        return false;
    }
    let first = piece[0];
    let ghost g = rows(grid@);
    let mut t: usize = 0;
    while t < piece.len()
        invariant
            0 <= t <= piece@.len(),
            piece@.len() > 0,
            first == piece@[0],
            g == rows(grid@),
            forall|k: int|
                0 <= k < t ==> free_at(
                    g,
                    #[trigger] place_of(y as int, x as int, piece@, k).0,
                    place_of(y as int, x as int, piece@, k).1,
                ),
        decreases piece@.len() - t,
    {
        let part = piece[t];
        let ghost at = place_of(y as int, x as int, piece@, t as int);
        let down = y as u128 + part.0 as u128;
        let right = x as u128 + part.1 as u128;
        if down < first.0 as u128 || right < first.1 as u128 {
            assert(!free_at(g, at.0, at.1));
            return false;
        }
        let row = down - first.0 as u128;
        let col = right - first.1 as u128;
        if row >= grid.len() as u128 {
            assert(!free_at(g, at.0, at.1));
            return false;
        }
        if col >= grid[row as usize].len() as u128 || grid[row as usize][col as usize] {
            assert(!free_at(g, at.0, at.1));
            return false;
        }
        t += 1;
    }
    true
}

/// Makes a second grid that holds the same.
pub fn copy_grid(grid: &Vec<Vec<bool>>) -> (r: Vec<Vec<bool>>)
    ensures
        rows(r@) == rows(grid@),
{
    let mut made: Vec<Vec<bool>> = Vec::new();
    let mut r: usize = 0;
    while r < grid.len()
        invariant
            0 <= r <= grid@.len(),
            made@.len() == r,
            forall|k: int| 0 <= k < r ==> (#[trigger] made@[k])@ == grid@[k]@,
        decreases grid@.len() - r,
    {
        let mut row: Vec<bool> = Vec::new();
        let mut c: usize = 0;
        while c < grid[r].len()
            invariant
                0 <= r < grid@.len(),
                0 <= c <= grid@[r as int]@.len(),
                row@.len() == c,
                forall|k: int| 0 <= k < c ==> row@[k] == grid@[r as int]@[k],
            decreases grid@[r as int]@.len() - c,
        {
            row.push(grid[r][c]);
            c += 1;
        }
        assert(row@ =~= grid@[r as int]@);
        made.push(row);
        r += 1;
    }
    assert(rows(made@) =~= rows(grid@));
    made
}

/// The row with the place in column `col` taken.
pub fn marked(row: &Vec<bool>, col: usize) -> (r: Vec<bool>)
    requires
        col < row@.len(),
    ensures
        r@ == row@.update(col as int, true),
{
    let mut line: Vec<bool> = Vec::new();
    let mut c: usize = 0;
    while c < row.len()
        invariant
            0 <= c <= row@.len(),
            line@.len() == c,
            forall|k: int|
                0 <= k < c ==> line@[k] == (if k == col {
                    true
                } else {
                    row@[k]
                }),
        decreases row@.len() - c,
    {
        line.push(c == col || row[c]);
        c += 1;
    }
    assert(line@ =~= row@.update(col as int, true));
    line
}

/// Lays the piece with its first part in row `y` and column `x`.
pub fn lay_piece(grid: &Vec<Vec<bool>>, y: usize, x: usize, piece: &Vec<(usize, usize)>) -> (r: Vec<
    Vec<bool>,
>)
    requires
        fits(rows(grid@), y as int, x as int, piece@),
    ensures
        rows(r@) == laid(rows(grid@), y as int, x as int, piece@, piece@.len() as int),
        rows(r@).len() == rows(grid@).len(),
        forall|k: int| 0 <= k < grid@.len() ==> (#[trigger] rows(r@)[k]).len() == rows(grid@)[k].len(),
{
    let ghost g = rows(grid@);
    let mut made = copy_grid(grid);
    let first = piece[0];
    let mut t: usize = 0;
    while t < piece.len()
        invariant
            0 <= t <= piece@.len(),
            piece@.len() > 0,
            first == piece@[0],
            g == rows(grid@),
            fits(g, y as int, x as int, piece@),
            rows(made@) == laid(g, y as int, x as int, piece@, t as int),
        decreases piece@.len() - t,
    {
        let part = piece[t];
        let ghost at = place_of(y as int, x as int, piece@, t as int);
        let ghost before = rows(made@);
        proof {
            assert(free_at(g, at.0, at.1));
            lemma_laid_keeps_box(g, y as int, x as int, piece@, t as int);
            assert(before[at.0].len() == g[at.0].len());
        }
        let count = made.len();
        assert(at.0 < count);
        let row = (y as u128 + part.0 as u128 - first.0 as u128) as usize;
        assert(row as int == at.0);
        let length = made[row].len();
        assert(before[at.0] == made@[row as int]@);
        assert(at.1 < length);
        let col = (x as u128 + part.1 as u128 - first.1 as u128) as usize;
        assert(row as int == at.0 && col as int == at.1);
        assert(before[at.0] == made@[row as int]@);
        let line = marked(&made[row], col);
        made[row] = line;
        assert(rows(made@) =~= before.update(at.0, before[at.0].update(at.1, true)));
        t += 1;
    }
    proof {
        lemma_laid_keeps_box(g, y as int, x as int, piece@, piece@.len() as int);
    }
    made
}

/// At a free place the presents can be laid just where one of them starts
/// there, or the place is left empty and counts against the spare places.
pub proof fn lemma_free_place(
    pieces: Seq<Seq<Seq<(usize, usize)>>>,
    grid: Seq<Seq<bool>>,
    width: int,
    y: int,
    x: int,
    left: Seq<u64>,
    spare: nat,
)
    requires
        !none_left(left),
        0 <= y < grid.len(),
        0 <= x < width,
        free_at(grid, y, x),
    ensures
        lays(pieces, grid, width, y, x, left, spare) == ((exists|i: int, way: int| #[trigger]
            starts(pieces, grid, width, y, x, left, spare, i, way)) || (spare > 0 && lays(
            pieces,
            grid,
            width,
            y,
            x + 1,
            left,
            (spare - 1) as nat,
        ))),
{
    assert forall|i: int, way: int|
        can_start(pieces, grid, y, x, left, i, way) implies (#[trigger] with_piece(
        pieces,
        grid,
        y,
        x,
        i,
        way,
    )).len() == grid.len() by {
        lemma_laid_keeps_box(grid, y, x, pieces[i][way], pieces[i][way].len() as int);
    }
    if exists|i: int, way: int| #[trigger] starts(pieces, grid, width, y, x, left, spare, i, way) {
        let (i, way) = choose|i: int, way: int| #[trigger]
            starts(pieces, grid, width, y, x, left, spare, i, way);
        assert(can_start(pieces, grid, y, x, left, i, way));
        assert(lays(pieces, grid, width, y, x, left, spare));
    }
    if lays(pieces, grid, width, y, x, left, spare) && !(spare > 0 && lays(
        pieces,
        grid,
        width,
        y,
        x + 1,
        left,
        (spare - 1) as nat,
    )) {
        let (i, way) = choose|i: int, way: int|
            #[trigger] can_start(pieces, grid, y, x, left, i, way) && with_piece(
                pieces,
                grid,
                y,
                x,
                i,
                way,
            ).len() == grid.len() && lays(
                pieces,
                with_piece(pieces, grid, y, x, i, way),
                width,
                y,
                x + 1,
                left.update(i, (left[i] - 1) as u64),
                spare,
            );
        assert(starts(pieces, grid, width, y, x, left, spare, i, way));
    }
}

/// What the lists of parts hold: for each shape, for each way to lie, the
/// parts.
pub open spec fn ways(pieces: Seq<Vec<Vec<(usize, usize)>>>) -> Seq<Seq<Seq<(usize, usize)>>> {
    Seq::new(pieces.len(), |i: int| rows(pieces[i]@))
}

/// Whether the way `way` gives the same parts as a way before it.
pub open spec fn is_repeat(lies: Seq<Seq<(usize, usize)>>, way: int) -> bool {
    exists|earlier: int| 0 <= earlier < way && #[trigger] lies[earlier] == lies[way]
}

/// Whether every way that `fresh` does not hold gives the same parts as a
/// way before it.
pub open spec fn marks_repeats(pieces: Seq<Seq<Seq<(usize, usize)>>>, fresh: Seq<Seq<bool>>) -> bool {
    &&& fresh.len() == pieces.len()
    &&& forall|i: int| 0 <= i < pieces.len() ==> (#[trigger] fresh[i]).len() == pieces[i].len()
    &&& forall|i: int, way: int|
        0 <= i < pieces.len() && 0 <= way < pieces[i].len() && !(#[trigger] fresh[i][way])
            ==> is_repeat(pieces[i], way)
}

/// Tells whether the two lists hold the same parts.
pub fn same_parts(a: &Vec<(usize, usize)>, b: &Vec<(usize, usize)>) -> (r: bool)
    ensures
        r == (a@ == b@),
{
    if a.len() != b.len() {
        return false;
    }
    let mut t: usize = 0;
    while t < a.len()
        invariant
            0 <= t <= a@.len(),
            a@.len() == b@.len(),
            forall|k: int| 0 <= k < t ==> a@[k] == b@[k],
        decreases a@.len() - t,
    {
        if a[t].0 != b[t].0 || a[t].1 != b[t].1 {
            return false;
        }
        t += 1;
    }
    assert(a@ =~= b@);
    true
}

/// Tells of each way whether no way before it gives the same parts.
pub fn fresh_ways(lies: &Vec<Vec<(usize, usize)>>) -> (r: Vec<bool>)
    ensures
        r@.len() == lies@.len(),
        forall|way: int| 0 <= way < lies@.len() ==> #[trigger] r@[way] == !is_repeat(rows(lies@), way),
{
    let ghost held = rows(lies@);
    let mut found: Vec<bool> = Vec::new();
    let mut way: usize = 0;
    while way < lies.len()
        invariant
            0 <= way <= lies@.len(),
            found@.len() == way,
            held == rows(lies@),
            forall|k: int| 0 <= k < way ==> #[trigger] found@[k] == !is_repeat(held, k),
        decreases lies@.len() - way,
    {
        let mut seen = false;
        let mut earlier: usize = 0;
        while earlier < way && !seen
            invariant
                0 <= earlier <= way < lies@.len(),
                held == rows(lies@),
                seen ==> is_repeat(held, way as int),
                !seen ==> forall|k: int| 0 <= k < earlier ==> #[trigger] held[k] != held[way as int],
            decreases way - earlier,
        {
            if same_parts(&lies[earlier], &lies[way]) {
                assert(held[earlier as int] == held[way as int]);
                seen = true;
            }
            earlier += 1;
        }
        found.push(!seen);
        way += 1;
    }
    found
}

/// Tells whether no present is left.
pub fn all_laid(left: &Vec<u64>) -> (r: bool)
    ensures
        r == none_left(left@),
{
    let mut i: usize = 0;
    while i < left.len()
        invariant
            0 <= i <= left@.len(),
            forall|k: int| 0 <= k < i ==> #[trigger] left@[k] == 0,
        decreases left@.len() - i,
    {
        if left[i] != 0 {
            return false;
        }
        i += 1;
    }
    true
}

/// The numbers with one present fewer of the shape `i`.
pub fn one_fewer(left: &Vec<u64>, i: usize) -> (r: Vec<u64>)
    requires
        i < left@.len(),
        left@[i as int] > 0,
    ensures
        r@ == left@.update(i as int, (left@[i as int] - 1) as u64),
{
    let mut fewer: Vec<u64> = Vec::new();
    let mut k: usize = 0;
    while k < left.len()
        invariant
            0 <= k <= left@.len(),
            i < left@.len(),
            left@[i as int] > 0,
            fewer@.len() == k,
            forall|j: int|
                0 <= j < k ==> fewer@[j] == (if j == i {
                    (left@[j] - 1) as u64
                } else {
                    left@[j]
                }),
        decreases left@.len() - k,
    {
        fewer.push(
            if k == i {
                left[k] - 1
            } else {
                left[k]
            },
        );
        k += 1;
    }
    assert(fewer@ =~= left@.update(i as int, (left@[i as int] - 1) as u64));
    fewer
}

/// Tells whether the presents that are left can be laid on the places from
/// row `y` and column `x` on, with at most `spare` free places left empty.
/// A way that `fresh` does not hold is not tried, as a way before it gives
/// the same.
pub fn lay(
    pieces: &Vec<Vec<Vec<(usize, usize)>>>,
    fresh: &Vec<Vec<bool>>,
    grid: &Vec<Vec<bool>>,
    width: usize,
    y: usize,
    x: usize,
    left: &Vec<u64>,
    spare: u128,
) -> (r: bool)
    requires
        marks_repeats(ways(pieces@), rows(fresh@)),
        y <= grid@.len(),
        x <= width,
    ensures
        r == lays(ways(pieces@), rows(grid@), width as int, y as int, x as int, left@, spare as nat),
    decreases grid@.len() - y, width - x,
{
    let ghost lies = ways(pieces@);
    let ghost g = rows(grid@);
    if all_laid(left) {
        return true;
    }
    if y >= grid.len() {
        return false;
    }
    if x >= width {
        return lay(pieces, fresh, grid, width, y + 1, 0, left, spare);
    }
    if x >= grid[y].len() || grid[y][x] {
        return lay(pieces, fresh, grid, width, y, x + 1, left, spare);
    }
    assert(free_at(g, y as int, x as int));
    let mut i: usize = 0;
    while i < pieces.len() && i < left.len()
        invariant
            0 <= i,
            lies == ways(pieces@),
            g == rows(grid@),
            marks_repeats(lies, rows(fresh@)),
            !none_left(left@),
            free_at(g, y as int, x as int),
            y < grid@.len(),
            x < width,
            forall|k: int, way: int|
                0 <= k < i ==> !#[trigger] starts(
                    lies,
                    g,
                    width as int,
                    y as int,
                    x as int,
                    left@,
                    spare as nat,
                    k,
                    way,
                ),
        decreases pieces@.len() - i,
    {
        if left[i] > 0 {
            let mut way: usize = 0;
            while way < pieces[i].len()
                invariant
                    0 <= way,
                    i < pieces@.len(),
                    i < left@.len(),
                    left@[i as int] > 0,
                    lies == ways(pieces@),
                    g == rows(grid@),
                    marks_repeats(lies, rows(fresh@)),
                    !none_left(left@),
                    free_at(g, y as int, x as int),
                    y < grid@.len(),
                    x < width,
                    forall|w: int|
                        0 <= w < way ==> !#[trigger] starts(
                            lies,
                            g,
                            width as int,
                            y as int,
                            x as int,
                            left@,
                            spare as nat,
                            i as int,
                            w,
                        ),
                decreases pieces@[i as int]@.len() - way,
            {
                assert(lies[i as int][way as int] == pieces@[i as int]@[way as int]@);
                assert(rows(fresh@)[i as int] == fresh@[i as int]@);
                if !fresh[i][way] {
                    proof {
                        assert(!rows(fresh@)[i as int][way as int]);
                        assert(is_repeat(lies[i as int], way as int));
                        let earlier = choose|earlier: int|
                            0 <= earlier < way && #[trigger] lies[i as int][earlier]
                                == lies[i as int][way as int];
                        assert(!starts(
                            lies,
                            g,
                            width as int,
                            y as int,
                            x as int,
                            left@,
                            spare as nat,
                            i as int,
                            earlier,
                        ));
                    }
                } else if fits_at(grid, y, x, &pieces[i][way]) {
                    let next = lay_piece(grid, y, x, &pieces[i][way]);
                    let fewer = one_fewer(left, i);
                    if lay(pieces, fresh, &next, width, y, x + 1, &fewer, spare) {
                        assert(starts(
                            lies,
                            g,
                            width as int,
                            y as int,
                            x as int,
                            left@,
                            spare as nat,
                            i as int,
                            way as int,
                        ));
                        proof {
                            lemma_free_place(
                                lies,
                                g,
                                width as int,
                                y as int,
                                x as int,
                                left@,
                                spare as nat,
                            );
                        }
                        return true;
                    }
                }
                way += 1;
            }
        }
        i += 1;
    }
    proof {
        lemma_free_place(lies, g, width as int, y as int, x as int, left@, spare as nat);
    }
    if spare > 0 {
        return lay(pieces, fresh, grid, width, y, x + 1, left, spare - 1);
    }
    false
}

} // verus!
