//! How often the dial points at 0 after any click, also in the middle of a
//! rotation.

use crate::day01::{dial_after, rotations, rotations_of, turn};
use crate::decimal::{decimal, to_text};
use crate::error::Error;
use crate::text::lines;
use vstd::prelude::*;
use vstd::string::*;

verus! {

/// The number of clicks of one rotation after which the dial points at 0,
/// when it pointed at `dial` before: the multiples of 100 that lie behind
/// `dial` and up to `dial + rotation`, in the direction of the turn.
pub open spec fn clicks(dial: int, rotation: int) -> int {
    if rotation >= 0 {
        (dial + rotation) / 100 - dial / 100
    } else {
        (dial - 1) / 100 - (dial + rotation - 1) / 100
    }
}

/// The number of clicks of all the rotations after which the dial points at 0.
pub open spec fn total_clicks(rotations: Seq<i64>) -> int
    decreases rotations.len(),
{
    if rotations.len() == 0 {
        0
    } else {
        total_clicks(rotations.drop_last()) + clicks(
            dial_after(rotations.drop_last()),
            rotations.last() as int,
        )
    }
}

/// A rotation never takes clicks back.
pub proof fn lemma_total_clicks_grows(rotations: Seq<i64>, k: int)
    requires
        0 <= k <= rotations.len(),
    ensures
        0 <= total_clicks(rotations.take(k)) <= total_clicks(rotations),
    decreases rotations.len() - k,
{
    if k == rotations.len() {
        assert(rotations.take(k) =~= rotations);
        lemma_total_nonnegative(rotations);
    } else {
        lemma_total_clicks_grows(rotations, k + 1);
        assert(rotations.take(k + 1).drop_last() =~= rotations.take(k));
        lemma_total_nonnegative(rotations.take(k));
    }
}

proof fn lemma_total_nonnegative(rotations: Seq<i64>)
    ensures
        0 <= total_clicks(rotations),
    decreases rotations.len(),
{
    if rotations.len() > 0 {
        lemma_total_nonnegative(rotations.drop_last());
    }
}

/// Counts the clicks of one rotation that leave the dial at 0.
pub fn count_clicks(dial: i64, rotation: i64) -> (r: u64)
    requires
        0 <= dial < 100,
        -0x8000_0000 <= rotation <= 0x8000_0000,
    ensures
        r == clicks(dial as int, rotation as int),
        r <= 21474837,
{
    let amount: u64 = if rotation >= 0 {
        rotation as u64
    } else {
        (-rotation) as u64
    };
    let overturns = amount / 100;
    let rest = (amount % 100) as i64;
    let extra = if rotation >= 0 {
        dial + rest >= 100
    } else {
        dial != 0 && dial - rest <= 0
    };
    if extra {
        overturns + 1
    } else {
        overturns
    }
}

/// Counts the clicks of the text's rotations after which the dial points at
/// 0, and writes the count in decimal.  Fails with `Overflow` where the count
/// does not fit 64 bits.
pub fn solve(input: &str) -> (r: Result<String, Error>)
    ensures
        match r {
            Ok(text) => {
                let count = total_clicks(rotations_of(lines(input.spec_bytes())));
                0 <= count <= u64::MAX && text@ == decimal(count as nat)
            },
            Err(e) => e == Error::Overflow && total_clicks(
                rotations_of(lines(input.spec_bytes())),
            ) > u64::MAX,
        },
{
    let turns = rotations(input);
    let mut dial: i64 = 50;
    let mut count: u64 = 0;
    let mut i: usize = 0;
    while i < turns.len()
        invariant
            0 <= i <= turns@.len(),
            turns@ == rotations_of(lines(input.spec_bytes())),
            dial == dial_after(turns@.take(i as int)),
            0 <= dial < 100,
            count == total_clicks(turns@.take(i as int)),
            forall|k: int|
                0 <= k < turns@.len() ==> -0x8000_0000 <= #[trigger] turns@[k] <= 0x8000_0000,
        decreases turns@.len() - i,
    {
        proof {
            assert(turns@.take(i + 1).drop_last() =~= turns@.take(i as int));
        }
        let more = count_clicks(dial, turns[i]);
        if more > u64::MAX - count {
            proof {
                lemma_total_clicks_grows(turns@, i + 1);
                assert(total_clicks(turns@.take(i + 1)) == count + more);
            }
            return Err(Error::Overflow);
        }
        count += more;
        dial = turn(dial, turns[i]);
        i += 1;
    }
    proof {
        assert(turns@.take(i as int) =~= turns@);
    }
    Ok(to_text(count))
}

} // verus!
