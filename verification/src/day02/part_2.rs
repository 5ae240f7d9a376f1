//! The ids whose digits are some string of digits twice or more often.

use crate::day02::{ids_of, ranges_in, repeated_sum, sum_repeated, Rule};
use crate::decimal::decimal;
use crate::error::Error;
use vstd::prelude::*;
use vstd::string::*;

verus! {

/// Whether the byte at `i` is the same as the byte at its place in the first
/// piece of `length` bytes.
pub open spec fn as_in_first(s: Seq<u8>, i: int, length: int) -> bool {
    s[i] == s[i % length]
}

/// Whether the string has a piece of `length` bytes, and the pieces of that
/// length that it is made of, one after the other, are all the same as the
/// first.  What is left over after the last whole piece does not count.
pub open spec fn pieces_equal(s: Seq<u8>, length: int) -> bool {
    &&& 0 < length <= s.len()
    &&& forall|i: int|
        0 <= i < s.len() - s.len() % (length as nat) ==> #[trigger] as_in_first(s, i, length)
}

/// Whether the string is made of whole pieces of `length` bytes that are
/// all the same.
pub open spec fn repeats_by(s: Seq<u8>, length: int) -> bool {
    length > 0 && s.len() % (length as nat) == 0 && pieces_equal(s, length)
}

/// Whether the string is a shorter string twice or more often.
pub open spec fn repeats(s: Seq<u8>) -> bool {
    exists|length: int| 1 <= length <= s.len() / 2 && #[trigger] repeats_by(s, length)
}

/// Tells whether the pieces of `length` bytes that the string is made of are
/// all the same.
pub fn all_equal(s: &[u8], length: usize) -> (r: bool)
    requires
        length > 0,
    ensures
        r == pieces_equal(s@, length as int),
{
    if length > s.len() {
        return false;
    }
    let whole = s.len() - s.len() % length;
    let mut i: usize = 0;
    while i < whole
        invariant
            0 <= i <= whole,
            0 < length <= s@.len(),
            whole == s@.len() - s@.len() % (length as nat),
            forall|k: int| 0 <= k < i ==> #[trigger] as_in_first(s@, k, length as int),
        decreases whole - i,
    {
        if s[i] != s[i % length] {
            assert(!as_in_first(s@, i as int, length as int));
            return false;
        }
        i += 1;
    }
    true
}

/// Tells whether the string is a shorter string twice or more often.
pub fn is_repeating(s: &str) -> (r: bool)
    ensures
        r == repeats(s.spec_bytes()),
{
    let bytes = s.as_bytes();
    let most = bytes.len() / 2;
    let mut length: usize = 1;
    while length <= most
        invariant
            1 <= length <= most + 1,
            most == bytes@.len() / 2,
            bytes@ == s.spec_bytes(),
            forall|shorter: int| 1 <= shorter < length ==> !#[trigger] repeats_by(bytes@, shorter),
        decreases most + 1 - length,
    {
        let found = bytes.len() % length == 0 && all_equal(bytes, length);
        assert(found == repeats_by(bytes@, length as int));
        if found {
            return true;
        }
        length += 1;
    }
    false
}

/// Adds up the ids of the ranges in the text whose digits are some string
/// of digits twice or more often, and writes the sum in decimal.  Fails with
/// `Overflow` where the sum does not fit 64 bits.
pub fn solve(input: &str) -> (r: Result<String, Error>)
    ensures
        match r {
            Ok(text) => text@ == decimal(
                repeated_sum(ids_of(ranges_in(input.spec_bytes())), Rule::Often),
            ),
            Err(e) => e == Error::Overflow && repeated_sum(
                ids_of(ranges_in(input.spec_bytes())),
                Rule::Often,
            ) > u64::MAX,
        },
{
    sum_repeated(input, Rule::Often)
}

} // verus!
