//! The ids whose digits are some string of digits twice.

use crate::day02::{ids_of, ranges_in, repeated_sum, sum_repeated, Rule};
use crate::decimal::decimal;
use crate::error::Error;
use vstd::prelude::*;
use vstd::string::*;

verus! {

/// Whether the first half of the string is the same as the second.  A
/// string of odd length has no halves.
pub open spec fn halves_equal(s: Seq<u8>) -> bool {
    s.subrange(0, s.len() as int / 2) == s.subrange(s.len() as int / 2, s.len() as int)
}

/// Tells whether the first half of the string is the same as the second.
pub fn is_repeating(s: &str) -> (r: bool)
    ensures
        r == halves_equal(s.spec_bytes()),
{
    let bytes = s.as_bytes();
    let half = bytes.len() / 2;
    let ghost left = bytes@.subrange(0, half as int);
    let ghost right = bytes@.subrange(half as int, bytes@.len() as int);
    if bytes.len() % 2 != 0 {
        assert(left.len() != right.len());
        return false;
    }
    let mut i: usize = 0;
    while i < half
        invariant
            0 <= i <= half,
            half * 2 == bytes@.len(),
            left == bytes@.subrange(0, half as int),
            right == bytes@.subrange(half as int, bytes@.len() as int),
            bytes@ == s.spec_bytes(),
            forall|k: int| 0 <= k < i ==> left[k] == right[k],
        decreases half - i,
    {
        if bytes[i] != bytes[half + i] {
            assert(left[i as int] == bytes@[i as int]);
            assert(right[i as int] == bytes@[half + i]);
            return false;
        }
        i += 1;
    }
    assert(left =~= right);
    true
}

/// Adds up the ids of the ranges in the text whose digits are some string
/// of digits twice, and writes the sum in decimal.  Fails with `Overflow`
/// where the sum does not fit 64 bits.
pub fn solve(input: &str) -> (r: Result<String, Error>)
    ensures
        match r {
            Ok(text) => text@ == decimal(
                repeated_sum(ids_of(ranges_in(input.spec_bytes())), Rule::Twice),
            ),
            Err(e) => e == Error::Overflow && repeated_sum(
                ids_of(ranges_in(input.spec_bytes())),
                Rule::Twice,
            ) > u64::MAX,
        },
{
    sum_repeated(input, Rule::Twice)
}

} // verus!
