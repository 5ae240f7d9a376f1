//! How often the dial points at 0 when a rotation ends.

use crate::day01::{dial_after, rotations, rotations_of, turn};
use crate::decimal::{decimal, to_text};
use crate::error::Error;
use crate::text::lines;
use vstd::prelude::*;
use vstd::string::*;

verus! {

/// The number of rotations after which the dial points at 0.
pub open spec fn zeros(rotations: Seq<i64>) -> nat
    decreases rotations.len(),
{
    if rotations.len() == 0 {
        0
    } else {
        zeros(rotations.drop_last()) + if dial_after(rotations) == 0 {
            1nat
        } else {
            0nat
        }
    }
}

/// Counts the rotations of the text after which the dial points at 0, and
/// writes the count in decimal.
pub fn solve(input: &str) -> (r: Result<String, Error>)
    ensures
        r matches Ok(text) && text@ == decimal(zeros(rotations_of(lines(input.spec_bytes())))),
{
    let turns = rotations(input);
    let mut dial: i64 = 50;
    let mut count: usize = 0;
    let mut i: usize = 0;
    while i < turns.len()
        invariant
            0 <= i <= turns@.len(),
            dial == dial_after(turns@.take(i as int)),
            0 <= dial < 100,
            count == zeros(turns@.take(i as int)),
            count <= i,
            forall|k: int|
                0 <= k < turns@.len() ==> -0x8000_0000 <= #[trigger] turns@[k] <= 0x8000_0000,
        decreases turns@.len() - i,
    {
        proof {
            assert(turns@.take(i + 1).drop_last() =~= turns@.take(i as int));
        }
        dial = turn(dial, turns[i]);
        if dial == 0 {
            count += 1;
        }
        i += 1;
    }
    proof {
        assert(turns@.take(i as int) =~= turns@);
    }
    Ok(to_text(count as u64))
}

} // verus!
