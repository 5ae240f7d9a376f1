//! In how many ways a single particle can fall through the manifold, when
//! it goes left or right at every splitter.

use crate::day07::{manifold, manifold_at, width};
use crate::error::{Error, Stage};
use crate::text::rows;
use vstd::prelude::*;
use vstd::string::*;

verus! {

/// The number of ways that end at a splitter at the place `i`.
pub open spec fn split_ways(ways: Seq<nat>, splitters: Seq<bool>, i: int) -> nat {
    if 0 <= i < ways.len() && i < splitters.len() && splitters[i] {
        ways[i]
    } else {
        0
    }
}

/// The number of ways to each place under a row of splitters: the ways that
/// fall through, and the ways that were split at the place next to it.  The
/// new row is as wide as the two rows have places in common.
pub open spec fn ways_below(ways: Seq<nat>, splitters: Seq<bool>) -> Seq<nat> {
    Seq::new(
        width(ways.len() as int, splitters.len() as int) as nat,
        |i: int|
            (if splitters[i] {
                0nat
            } else {
                ways[i]
            }) + (if i + 1 < width(ways.len() as int, splitters.len() as int) {
                split_ways(ways, splitters, i + 1)
            } else {
                0nat
            }) + split_ways(ways, splitters, i - 1),
    )
}

/// The number of ways to each place of the first row: one where the beam
/// starts.
pub open spec fn ways_from(beams: Seq<bool>) -> Seq<nat> {
    Seq::new(
        beams.len(),
        |i: int|
            if beams[i] {
                1nat
            } else {
                0nat
            },
    )
}

/// The number of ways to each place under the first `depth` rows of the
/// field.
pub open spec fn ways_at(beams: Seq<bool>, field: Seq<Seq<bool>>, depth: int) -> Seq<nat>
    decreases depth,
{
    if depth <= 0 {
        ways_from(beams)
    } else {
        ways_below(ways_at(beams, field, depth - 1), field[depth - 1])
    }
}

/// The sum of the first `upto` numbers.
pub open spec fn sum(ways: Seq<nat>, upto: int) -> nat
    decreases upto,
{
    if upto <= 0 {
        0
    } else {
        sum(ways, upto - 1) + ways[upto - 1]
    }
}

/// Whether every number fits 64 bits.
pub open spec fn all_fit(ways: Seq<nat>) -> bool {
    forall|i: int| 0 <= i < ways.len() ==> #[trigger] ways[i] <= u64::MAX
}

/// Whether the numbers of ways under each row of the field fit 64 bits, and
/// so does the sum of the last.
pub open spec fn countable(beams: Seq<bool>, field: Seq<Seq<bool>>) -> bool {
    &&& forall|depth: int|
        0 <= depth <= field.len() ==> all_fit(#[trigger] ways_at(beams, field, depth))
    &&& sum(
        ways_at(beams, field, field.len() as int),
        ways_at(beams, field, field.len() as int).len() as int,
    ) <= u64::MAX
}

/// The numbers as numbers without bound.
pub open spec fn widened(ways: Seq<u64>) -> Seq<nat> {
    Seq::new(ways.len(), |i: int| ways[i] as nat)
}

/// Lets the ways fall through a row of splitters, or gives `None` where a
/// number of ways does not fit 64 bits.
pub fn fall(ways: &Vec<u64>, splitters: &Vec<bool>) -> (r: Option<Vec<u64>>)
    ensures
        r matches Some(below) ==> widened(below@) == ways_below(widened(ways@), splitters@),
        r is None ==> !all_fit(ways_below(widened(ways@), splitters@)),
{
    let common = if ways.len() <= splitters.len() {
        ways.len()
    } else {
        splitters.len()
    };
    let ghost wide = widened(ways@);
    let mut below: Vec<u64> = Vec::new();
    let mut i: usize = 0;
    while i < common
        invariant
            0 <= i <= common,
            common == width(ways@.len() as int, splitters@.len() as int),
            wide == widened(ways@),
            below@.len() == i,
            forall|k: int| 0 <= k < i ==> below@[k] == ways_below(wide, splitters@)[k],
        decreases common - i,
    {
        let passed: u64 = if splitters[i] {
            0
        } else {
            ways[i]
        };
        let from_right: u64 = if i + 1 < common && splitters[i + 1] {
            ways[i + 1]
        } else {
            0
        };
        let from_left: u64 = if i >= 1 && splitters[i - 1] {
            ways[i - 1]
        } else {
            0
        };
        let all = passed as u128 + from_right as u128 + from_left as u128;
        assert(all == ways_below(wide, splitters@)[i as int]);
        if all > u64::MAX as u128 {
            return None;
        }
        below.push(all as u64);
        i += 1;
    }
    assert(widened(below@) =~= ways_below(wide, splitters@));
    Some(below)
}

/// Reads the manifold and counts the ways through it.  Fails with `Parse`
/// where the text is no manifold, and with `Overflow` where a number of ways
/// to a place, or the sum of the ways, does not fit 64 bits.
pub fn solve(input: &str) -> (r: Result<u64, Error>)
    ensures
        match manifold_at(input.spec_bytes(), 0) {
            None => r == Err::<u64, Error>(Error::Parse(Stage::Manifold)),
            Some((beams, field)) => match r {
                Ok(count) => countable(beams, field) && count == sum(
                    ways_at(beams, field, field.len() as int),
                    ways_at(beams, field, field.len() as int).len() as int,
                ),
                Err(e) => e == Error::Overflow && !countable(beams, field),
            },
        },
{
    let (source, field) = match manifold(input.as_bytes(), 0) {
        Some(found) => found,
        None => { return Err(Error::Parse(Stage::Manifold)); },
    };
    let ghost start = source@;
    let ghost splitters = rows(field@);
    let mut ways: Vec<u64> = Vec::new();
    let mut i: usize = 0;
    while i < source.len()
        invariant
            0 <= i <= source@.len(),
            ways@.len() == i,
            forall|k: int| 0 <= k < i ==> ways@[k] == ways_from(source@)[k],
        decreases source@.len() - i,
    {
        ways.push(if source[i] { 1 } else { 0 });
        i += 1;
    }
    assert(widened(ways@) =~= ways_at(start, splitters, 0));
    let mut depth: usize = 0;
    while depth < field.len()
        invariant
            0 <= depth <= field@.len(),
            splitters == rows(field@),
            manifold_at(input.spec_bytes(), 0) == Some((start, splitters)),
            widened(ways@) == ways_at(start, splitters, depth as int),
            forall|d: int| 0 <= d <= depth ==> all_fit(#[trigger] ways_at(start, splitters, d)),
        decreases field@.len() - depth,
    {
        ways = match fall(&ways, &field[depth]) {
            Some(below) => below,
            None => {
                assert(!all_fit(ways_at(start, splitters, depth + 1)));
                return Err(Error::Overflow);
            },
        };
        depth += 1;
        assert(all_fit(widened(ways@)));
    }
    let ghost last = ways_at(start, splitters, splitters.len() as int);
    let mut count: u64 = 0;
    let mut i: usize = 0;
    while i < ways.len()
        invariant
            0 <= i <= ways@.len(),
            widened(ways@) == last,
            manifold_at(input.spec_bytes(), 0) == Some((start, splitters)),
            last == ways_at(start, splitters, splitters.len() as int),
            count == sum(last, i as int),
        decreases ways@.len() - i,
    {
        assert(last[i as int] == ways@[i as int]);
        count = match count.checked_add(ways[i]) {
            Some(count) => count,
            None => {
                proof {
                    lemma_sum_grows(last, i + 1, last.len() as int);
                }
                return Err(Error::Overflow);
            },
        };
        i += 1;
    }
    Ok(count)
}

/// More numbers make the sum no smaller.
pub proof fn lemma_sum_grows(ways: Seq<nat>, upto: int, end: int)
    requires
        0 <= upto <= end,
    ensures
        sum(ways, upto) <= sum(ways, end),
    decreases end - upto,
{
    if upto < end {
        lemma_sum_grows(ways, upto, end - 1);
    }
}

} // verus!
