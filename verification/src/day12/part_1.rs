//! The regions in which their presents can lie: each present turned or
//! turned over as need be, no two of them on one place.

use crate::day12::laid_out::{
    count_of, from_on, is_layout, lemma_lays_out, lemma_layout_lays, lemma_starts_free, lies_free,
};
use crate::day12::layout::{
    all_laid, fresh_ways, is_repeat, lay, lays, marks_repeats, orientations, pieces_of, ways,
};
use crate::day12::places::{
    evenly_made, free_from, lemma_all_free, lemma_spare_enough, made_evenly, needed_places,
    places_needed, size_of,
};
use crate::day12::{puzzle, puzzle_at, Region, Shape};
use crate::error::{Error, Stage};
use crate::text::rows;
use vstd::prelude::*;
use vstd::string::*;

verus! {

/// For each shape, the ways in which a present of it can lie.
pub open spec fn ways_to_lie(shapes: Seq<Seq<Seq<bool>>>) -> Seq<Seq<Seq<(usize, usize)>>> {
    Seq::new(shapes.len(), |i: int| pieces_of(shapes[i]))
}

/// How many presents of each shape are to be laid: those of a shape without
/// parts take no place and are left out.
pub open spec fn to_lay(pieces: Seq<Seq<Seq<(usize, usize)>>>, quantities: Seq<u64>) -> Seq<u64> {
    Seq::new(
        quantities.len(),
        |i: int|
            if i < pieces.len() && size_of(pieces[i]) == 0 {
                0u64
            } else {
                quantities[i]
            },
    )
}

/// A grid of `length` rows and `width` columns with every place free.
pub open spec fn clear(length: int, width: int) -> Seq<Seq<bool>> {
    Seq::new(length as nat, |r: int| Seq::new(width as nat, |c: int| false))
}

/// Whether presents can lie in a region of `length` rows and `width`
/// columns, of each shape as many as `left` says: each in one of the ways of
/// its shape, all of it inside the region, no two of them on one place.
pub open spec fn can_lie(
    pieces: Seq<Seq<Seq<(usize, usize)>>>,
    length: int,
    width: int,
    left: Seq<u64>,
) -> bool {
    exists|layout: Seq<(int, int, int, int)>| #[trigger]
        is_layout(pieces, clear(length, width), left, layout)
}

/// Whether the presents of the region can lie in it.
pub open spec fn has_room(pieces: Seq<Seq<Seq<(usize, usize)>>>, region: (u64, u64, Seq<u64>)) -> bool {
    can_lie(pieces, region.1 as int, region.0 as int, to_lay(pieces, region.2))
}

/// The number of the first `upto` regions in which their presents can lie.
pub open spec fn fitting(
    pieces: Seq<Seq<Seq<(usize, usize)>>>,
    regions: Seq<(u64, u64, Seq<u64>)>,
    upto: int,
) -> nat
    decreases upto,
{
    if upto <= 0 {
        0
    } else {
        fitting(pieces, regions, upto - 1) + if has_room(pieces, regions[upto - 1]) {
            1nat
        } else {
            0nat
        }
    }
}

/// Whether the region is wider or longer than a grid can be here.
pub open spec fn too_large(region: (u64, u64, Seq<u64>)) -> bool {
    region.0 > usize::MAX || region.1 > usize::MAX
}

/// Whether one of the regions is too large.
pub open spec fn any_too_large(regions: Seq<(u64, u64, Seq<u64>)>) -> bool {
    exists|i: int| 0 <= i < regions.len() && too_large(#[trigger] regions[i])
}

/// Presents can lie in a region just where they can be laid place by place
/// from its first place on, with as many places to leave empty as the region
/// has.
pub proof fn lemma_lie_as_laid(
    pieces: Seq<Seq<Seq<(usize, usize)>>>,
    length: int,
    width: int,
    left: Seq<u64>,
)
    requires
        0 <= length,
        0 <= width,
    ensures
        can_lie(pieces, length, width, left) == lays(
            pieces,
            clear(length, width),
            width,
            0,
            0,
            left,
            (length * width) as nat,
        ),
{
    let grid = clear(length, width);
    assert(length * width >= 0) by (nonlinear_arith)
        requires
            0 <= length,
            0 <= width,
    ;
    if can_lie(pieces, length, width, left) {
        let layout = choose|layout: Seq<(int, int, int, int)>| #[trigger]
            is_layout(pieces, grid, left, layout);
        assert forall|k: int| 0 <= k < layout.len() implies from_on(
            0,
            0,
            (#[trigger] layout[k]).2,
            layout[k].3,
        ) by {
            lemma_starts_free(pieces, grid, left, layout, k);
        }
        lemma_layout_lays(pieces, grid, width, 0, 0, left, (length * width) as nat, layout);
    }
    if lays(pieces, grid, width, 0, 0, left, (length * width) as nat) {
        let layout = lemma_lays_out(pieces, grid, width, 0, 0, left, (length * width) as nat);
        assert(is_layout(pieces, grid, left, layout));
    }
}

/// With evenly made pieces, presents that can lie in a region need no more
/// places than it has, and can be laid place by place leaving empty no more
/// places than the region has beyond those.
pub proof fn lemma_lie_with_less(
    pieces: Seq<Seq<Seq<(usize, usize)>>>,
    length: int,
    width: int,
    left: Seq<u64>,
)
    requires
        0 <= length,
        0 <= width,
        evenly_made(pieces),
        can_lie(pieces, length, width, left),
    ensures
        places_needed(pieces, left, left.len() as int) <= length * width,
        lays(
            pieces,
            clear(length, width),
            width,
            0,
            0,
            left,
            (length * width - places_needed(pieces, left, left.len() as int)) as nat,
        ),
{
    let grid = clear(length, width);
    let needed = places_needed(pieces, left, left.len() as int);
    assert(length * width >= 0) by (nonlinear_arith)
        requires
            0 <= length,
            0 <= width,
    ;
    lemma_lie_as_laid(pieces, length, width, left);
    lemma_all_free(length, width, 0, 0);
    assert(length == 0 ==> length * width == 0) by (nonlinear_arith);
    assert(free_from(grid, width, 0, 0) == length * width);
    let less: nat = if length * width >= needed {
        (length * width - needed) as nat
    } else {
        0
    };
    lemma_spare_enough(pieces, grid, width, 0, 0, left, (length * width) as nat, less);
}

/// Presents of a shape that is not there cannot lie anywhere.
pub proof fn lemma_no_such_shape(
    pieces: Seq<Seq<Seq<(usize, usize)>>>,
    length: int,
    width: int,
    left: Seq<u64>,
    i: int,
)
    requires
        pieces.len() <= i < left.len(),
        left[i] != 0,
    ensures
        !can_lie(pieces, length, width, left),
{
    if can_lie(pieces, length, width, left) {
        let layout = choose|layout: Seq<(int, int, int, int)>| #[trigger]
            is_layout(pieces, clear(length, width), left, layout);
        assert(count_of(layout, i) == left[i]);
        let k = lemma_one_of(layout, i);
        assert(lies_free(pieces, clear(length, width), layout[k]));
    }
}

/// Where there are presents of a shape, one of the presents is of it.
pub proof fn lemma_one_of(layout: Seq<(int, int, int, int)>, shape: int) -> (k: int)
    requires
        count_of(layout, shape) > 0,
    ensures
        0 <= k < layout.len(),
        layout[k].0 == shape,
    decreases layout.len(),
{
    if layout.last().0 == shape {
        layout.len() - 1
    } else {
        lemma_one_of(layout.drop_last(), shape)
    }
}

/// Lists for each shape the ways in which a present of it can lie, and
/// tells of each way whether no way before it gives the same.
pub fn all_ways(shapes: &Vec<Shape>) -> (r: (Vec<Vec<Vec<(usize, usize)>>>, Vec<Vec<bool>>))
    ensures
        ways(r.0@) == ways_to_lie(shapes.deep_view()),
        marks_repeats(ways(r.0@), rows(r.1@)),
{
    let mut pieces: Vec<Vec<Vec<(usize, usize)>>> = Vec::new();
    let mut fresh: Vec<Vec<bool>> = Vec::new();
    let mut i: usize = 0;
    while i < shapes.len()
        invariant
            0 <= i <= shapes@.len(),
            pieces@.len() == i,
            fresh@.len() == i,
            forall|k: int| 0 <= k < i ==> rows((#[trigger] pieces@[k])@) == pieces_of(shapes@[k].deep_view()),
            forall|k: int| 0 <= k < i ==> (#[trigger] fresh@[k])@.len() == pieces@[k]@.len(),
            forall|k: int, way: int|
                0 <= k < i && 0 <= way < pieces@[k]@.len() && !(#[trigger] fresh@[k]@[way])
                    ==> is_repeat(rows(pieces@[k]@), way),
        decreases shapes@.len() - i,
    {
        let lies = orientations(&shapes[i].parts);
        let marks = fresh_ways(&lies);
        pieces.push(lies);
        fresh.push(marks);
        i += 1;
    }
    assert(ways(pieces@) =~= ways_to_lie(shapes.deep_view()));
    assert(rows(fresh@).len() == ways(pieces@).len());
    assert forall|k: int, way: int|
        0 <= k < ways(pieces@).len() && 0 <= way < ways(pieces@)[k].len() && !(#[trigger] rows(
            fresh@,
        )[k][way]) implies is_repeat(ways(pieces@)[k], way) by {
        assert(!fresh@[k]@[way]);
    }
    (pieces, fresh)
}

/// Lists how many presents of each shape are to be laid.
pub fn presents_to_lay(pieces: &Vec<Vec<Vec<(usize, usize)>>>, quantities: &Vec<u64>) -> (r: Vec<
    u64,
>)
    ensures
        r@ == to_lay(ways(pieces@), quantities@),
{
    let ghost lies = ways(pieces@);
    let mut left: Vec<u64> = Vec::new();
    let mut i: usize = 0;
    while i < quantities.len()
        invariant
            0 <= i <= quantities@.len(),
            lies == ways(pieces@),
            left@.len() == i,
            forall|k: int| 0 <= k < i ==> left@[k] == to_lay(lies, quantities@)[k],
        decreases quantities@.len() - i,
    {
        let mut many = quantities[i];
        if i < pieces.len() {
            assert(lies[i as int] == rows(pieces@[i as int]@));
            if pieces[i].len() == 0 {
                many = 0;
            } else {
                assert(lies[i as int][0] == pieces@[i as int]@[0]@);
                if pieces[i][0].len() == 0 {
                    many = 0;
                }
            }
        }
        left.push(many);
        i += 1;
    }
    assert(left@ =~= to_lay(lies, quantities@));
    left
}

/// Tells whether the presents of the region can lie in it.
///
/// The presents are laid place by place.  Where the pieces are evenly made,
/// no more places are left empty on the way than the region has beyond
/// those that the presents need; else as many as the region has.
pub fn fits(pieces: &Vec<Vec<Vec<(usize, usize)>>>, fresh: &Vec<Vec<bool>>, region: &Region) -> (r:
    bool)
    requires
        marks_repeats(ways(pieces@), rows(fresh@)),
        !too_large(region.deep_view()),
    ensures
        r == has_room(ways(pieces@), region.deep_view()),
{
    let ghost lies = ways(pieces@);
    let ghost length = region.length as int;
    let ghost width = region.width as int;
    let left = presents_to_lay(pieces, &region.quantities);
    proof {
        lemma_lie_as_laid(lies, length, width, left@);
    }
    if all_laid(&left) {
        return true;
    }
    let mut i: usize = pieces.len();
    while i < left.len()
        invariant
            lies == ways(pieces@),
            length == region.length,
            width == region.width,
            left@ == to_lay(lies, region.quantities@),
            pieces@.len() <= i,
        decreases left@.len() - i,
    {
        if left[i] != 0 {
            proof {
                lemma_no_such_shape(lies, length, width, left@, i as int);
            }
            return false;
        }
        i += 1;
    }
    assert(region.width * region.length <= 0xffff_ffff_ffff_ffff * 0xffff_ffff_ffff_ffff)
        by (nonlinear_arith)
        requires
            0 <= region.width <= 0xffff_ffff_ffff_ffff,
            0 <= region.length <= 0xffff_ffff_ffff_ffff,
    ;
    assert(length * width == region.width * region.length) by (nonlinear_arith)
        requires
            length == region.length,
            width == region.width,
    ;
    let area = region.width as u128 * region.length as u128;
    let even = made_evenly(pieces);
    let spare = if even {
        match needed_places(pieces, &left, area) {
            Some(needed) => area - needed,
            None => {
                proof {
                    if can_lie(lies, length, width, left@) {
                        lemma_lie_with_less(lies, length, width, left@);
                    }
                }
                return false;
            },
        }
    } else {
        area
    };
    let grid = cleared(region.length as usize, region.width as usize);
    let found = lay(pieces, fresh, &grid, region.width as usize, 0, 0, &left, spare);
    proof {
        if found {
            let layout = lemma_lays_out(lies, rows(grid@), width, 0, 0, left@, spare as nat);
            assert(is_layout(lies, clear(length, width), left@, layout));
        } else if even && can_lie(lies, length, width, left@) {
            lemma_lie_with_less(lies, length, width, left@);
        }
    }
    found
}

/// Makes a grid of `length` rows and `width` columns with every place free.
pub fn cleared(length: usize, width: usize) -> (r: Vec<Vec<bool>>)
    ensures
        rows(r@) == clear(length as int, width as int),
{
    let mut grid: Vec<Vec<bool>> = Vec::new();
    let mut y: usize = 0;
    while y < length
        invariant
            0 <= y <= length,
            grid@.len() == y,
            forall|k: int| 0 <= k < y ==> (#[trigger] grid@[k])@ == Seq::new(width as nat, |c: int| false),
        decreases length - y,
    {
        let mut row: Vec<bool> = Vec::new();
        let mut x: usize = 0;
        while x < width
            invariant
                0 <= x <= width,
                row@.len() == x,
                forall|k: int| 0 <= k < x ==> !row@[k],
            decreases width - x,
        {
            row.push(false);
            x += 1;
        }
        assert(row@ =~= Seq::new(width as nat, |c: int| false));
        grid.push(row);
        y += 1;
    }
    assert(rows(grid@) =~= clear(length as int, width as int));
    grid
}

/// Reads the puzzle and counts the regions in which their presents can
/// lie.  Fails with `Parse` where the text is no puzzle, and with
/// `Overflow` where a region is too large.
pub fn solve(input: &str) -> (r: Result<u64, Error>)
    ensures
        match puzzle_at(input.spec_bytes(), 0) {
            None => r == Err::<u64, Error>(Error::Parse(Stage::Puzzle)),
            Some((shapes, regions)) => if any_too_large(regions) {
                r == Err::<u64, Error>(Error::Overflow)
            } else {
                r == Ok::<u64, Error>(
                    fitting(ways_to_lie(shapes), regions, regions.len() as int) as u64,
                ) && fitting(ways_to_lie(shapes), regions, regions.len() as int) <= u64::MAX
            },
        },
{
    let (shapes, regions) = match puzzle(input.as_bytes(), 0) {
        Some(found) => found,
        None => { return Err(Error::Parse(Stage::Puzzle)); },
    };
    let ghost read = regions.deep_view();
    let mut i: usize = 0;
    while i < regions.len()
        invariant
            0 <= i <= regions@.len(),
            read == regions.deep_view(),
            puzzle_at(input.spec_bytes(), 0) == Some((shapes.deep_view(), read)),
            forall|k: int| 0 <= k < i ==> !too_large(#[trigger] read[k]),
        decreases regions@.len() - i,
    {
        assert(read[i as int] == regions@[i as int].deep_view());
        if regions[i].width > usize::MAX as u64 || regions[i].length > usize::MAX as u64 {
            assert(too_large(read[i as int]));
            return Err(Error::Overflow);
        }
        i += 1;
    }
    let (pieces, fresh) = all_ways(&shapes);
    let ghost lies = ways(pieces@);
    let mut count: usize = 0;
    let mut i: usize = 0;
    while i < regions.len()
        invariant
            0 <= i <= regions@.len(),
            read == regions.deep_view(),
            lies == ways(pieces@),
            marks_repeats(lies, rows(fresh@)),
            forall|k: int| 0 <= k < read.len() ==> !too_large(#[trigger] read[k]),
            count == fitting(lies, read, i as int),
            count <= i,
        decreases regions@.len() - i,
    {
        assert(read[i as int] == regions@[i as int].deep_view());
        if fits(&pieces, &fresh, &regions[i]) {
            count += 1;
        }
        i += 1;
    }
    Ok(count as u64)
}

} // verus!
