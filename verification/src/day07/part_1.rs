//! How often a beam is split on its way through the manifold.

use crate::day07::{manifold, manifold_at, width};
use crate::error::{Error, Stage};
use crate::text::rows;
use vstd::prelude::*;
use vstd::string::*;

verus! {

/// Whether a beam meets a splitter at the place `i`.
pub open spec fn splits(beams: Seq<bool>, splitters: Seq<bool>, i: int) -> bool {
    0 <= i < beams.len() && i < splitters.len() && beams[i] && splitters[i]
}

/// The beams under a row of splitters: a beam is where one fell through, or
/// where a beam was split at the place next to it.  The new row is as wide
/// as the two rows have places in common.
pub open spec fn beams_below(beams: Seq<bool>, splitters: Seq<bool>) -> Seq<bool> {
    Seq::new(
        width(beams.len() as int, splitters.len() as int) as nat,
        |i: int|
            (beams[i] && !splitters[i]) || (i + 1 < width(
                beams.len() as int,
                splitters.len() as int,
            ) && splits(beams, splitters, i + 1)) || splits(beams, splitters, i - 1),
    )
}

/// The number of the first `upto` places at which a beam meets a splitter.
pub open spec fn hits(beams: Seq<bool>, splitters: Seq<bool>, upto: int) -> nat
    decreases upto,
{
    if upto <= 0 {
        0
    } else {
        hits(beams, splitters, upto - 1) + if splits(beams, splitters, upto - 1) {
            1nat
        } else {
            0nat
        }
    }
}

/// The beams under the first `depth` rows of the field.
pub open spec fn beams_at(beams: Seq<bool>, field: Seq<Seq<bool>>, depth: int) -> Seq<bool>
    decreases depth,
{
    if depth <= 0 {
        beams
    } else {
        beams_below(beams_at(beams, field, depth - 1), field[depth - 1])
    }
}

/// How often a beam meets a splitter in the first `depth` rows of the
/// field.
pub open spec fn total_hits(beams: Seq<bool>, field: Seq<Seq<bool>>, depth: int) -> nat
    decreases depth,
{
    if depth <= 0 {
        0
    } else {
        let above = beams_at(beams, field, depth - 1);
        total_hits(beams, field, depth - 1) + hits(
            above,
            field[depth - 1],
            width(above.len() as int, field[depth - 1].len() as int),
        )
    }
}

/// Lets the beams fall through a row of splitters, and counts the beams
/// that are split.
pub fn fall(beams: &Vec<bool>, splitters: &Vec<bool>) -> (r: (Vec<bool>, usize))
    ensures
        r.0@ == beams_below(beams@, splitters@),
        r.1 == hits(beams@, splitters@, width(beams@.len() as int, splitters@.len() as int)),
        r.1 <= beams@.len(),
{
    let common = if beams.len() <= splitters.len() {
        beams.len()
    } else {
        splitters.len()
    };
    let mut below: Vec<bool> = Vec::new();
    let mut count: usize = 0;
    let mut i: usize = 0;
    while i < common
        invariant
            0 <= i <= common,
            common == width(beams@.len() as int, splitters@.len() as int),
            below@.len() == i,
            forall|k: int| 0 <= k < i ==> below@[k] == beams_below(beams@, splitters@)[k],
            count == hits(beams@, splitters@, i as int),
            count <= i,
        decreases common - i,
    {
        let passed = beams[i] && !splitters[i];
        let from_right = i + 1 < common && beams[i + 1] && splitters[i + 1];
        let from_left = i >= 1 && beams[i - 1] && splitters[i - 1];
        below.push(passed || from_right || from_left);
        if beams[i] && splitters[i] {
            count += 1;
        }
        i += 1;
    }
    assert(below@ =~= beams_below(beams@, splitters@));
    (below, count)
}

/// Reads the manifold and counts how often a beam is split.  Fails with
/// `Parse` where the text is no manifold, and with `Overflow` where the
/// count does not fit 64 bits.
pub fn solve(input: &str) -> (r: Result<u64, Error>)
    ensures
        match manifold_at(input.spec_bytes(), 0) {
            None => r == Err::<u64, Error>(Error::Parse(Stage::Manifold)),
            Some((beams, field)) => match r {
                Ok(count) => count == total_hits(beams, field, field.len() as int),
                Err(e) => e == Error::Overflow && total_hits(beams, field, field.len() as int)
                    > u64::MAX,
            },
        },
{
    let (source, field) = match manifold(input.as_bytes(), 0) {
        Some(found) => found,
        None => { return Err(Error::Parse(Stage::Manifold)); },
    };
    let ghost start = source@;
    let ghost splitters = rows(field@);
    let mut beams = source;
    let mut count: u64 = 0;
    let mut depth: usize = 0;
    while depth < field.len()
        invariant
            0 <= depth <= field@.len(),
            splitters == rows(field@),
            manifold_at(input.spec_bytes(), 0) == Some((start, splitters)),
            beams@ == beams_at(start, splitters, depth as int),
            count == total_hits(start, splitters, depth as int),
        decreases field@.len() - depth,
    {
        let (below, more) = fall(&beams, &field[depth]);
        count = match count.checked_add(more as u64) {
            Some(count) => count,
            None => {
                proof {
                    lemma_total_hits_grows(start, splitters, depth + 1, field@.len() as int);
                }
                return Err(Error::Overflow);
            },
        };
        beams = below;
        depth += 1;
    }
    Ok(count)
}

/// Deeper in the field there are no fewer splits.
pub proof fn lemma_total_hits_grows(beams: Seq<bool>, field: Seq<Seq<bool>>, depth: int, end: int)
    requires
        0 <= depth <= end,
    ensures
        total_hits(beams, field, depth) <= total_hits(beams, field, end),
    decreases end - depth,
{
    if depth < end {
        lemma_total_hits_grows(beams, field, depth, end - 1);
    }
}

} // verus!
