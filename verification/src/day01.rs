//! A dial with the numbers 0 to 99 starts at 50 and is turned left and right.
//!
//! Every line of the text that starts with `L` or `R` and a number is a
//! rotation by that many clicks; other lines are passed over.

use crate::text::{byte_at, has_byte, lines, parse_i32, signed_at, split_lines, views};
use vstd::prelude::*;
use vstd::string::*;

pub mod part_1;
pub mod part_2;

verus! {

/// The rotation that a line starts with: `L` or `R`, then a signed number of
/// 32 bits.  A turn to the left counts negative.
pub open spec fn rotation(line: Seq<u8>) -> Option<i64> {
    let left = byte_at(line, 0, 0x4c);
    if left || byte_at(line, 0, 0x52) {
        match signed_at(line, 1, i32::MIN as int, i32::MAX as int) {
            Some((value, _)) => Some(
                (if left {
                    -value
                } else {
                    value
                }) as i64,
            ),
            None => None,
        }
    } else {
        None
    }
}

/// The rotations that the lines hold, in their order.
pub open spec fn rotations_of(lines: Seq<Seq<u8>>) -> Seq<i64>
    decreases lines.len(),
{
    if lines.len() == 0 {
        Seq::empty()
    } else {
        let before = rotations_of(lines.drop_last());
        match rotation(lines.last()) {
            Some(value) => before.push(value),
            None => before,
        }
    }
}

/// Every rotation is a number of 32 bits or its negative.
pub proof fn lemma_rotations_bounded(lines: Seq<Seq<u8>>)
    ensures
        forall|i: int|
            0 <= i < rotations_of(lines).len() ==> -0x8000_0000 <= #[trigger] rotations_of(
                lines,
            )[i] <= 0x8000_0000,
        rotations_of(lines).len() <= lines.len(),
    decreases lines.len(),
{
    if lines.len() > 0 {
        lemma_rotations_bounded(lines.drop_last());
    }
}

/// Where the dial points after the rotations.
pub open spec fn dial_after(rotations: Seq<i64>) -> int
    decreases rotations.len(),
{
    if rotations.len() == 0 {
        50
    } else {
        (dial_after(rotations.drop_last()) + rotations.last()) % 100
    }
}

/// The dial always points at one of its hundred numbers.
pub proof fn lemma_dial_in_range(rotations: Seq<i64>)
    ensures
        0 <= dial_after(rotations) < 100,
    decreases rotations.len(),
{
    if rotations.len() > 0 {
        lemma_dial_in_range(rotations.drop_last());
    }
}

/// Reads the rotation that a line starts with.
pub fn parse_rotation(line: &[u8]) -> (r: Option<i64>)
    ensures
        r == rotation(line@),
{
    let left = has_byte(line, 0, 0x4c);
    if left || has_byte(line, 0, 0x52) {
        match parse_i32(line, 1) {
            Some((value, _)) => Some(
                if left {
                    -(value as i64)
                } else {
                    value as i64
                },
            ),
            None => None,
        }
    } else {
        None
    }
}

/// Reads the rotations that the text holds.
pub fn rotations(input: &str) -> (r: Vec<i64>)
    ensures
        r@ == rotations_of(lines(input.spec_bytes())),
        forall|i: int| 0 <= i < r@.len() ==> -0x8000_0000 <= #[trigger] r@[i] <= 0x8000_0000,
{
    let pieces = split_lines(input.as_bytes());
    let mut found: Vec<i64> = Vec::new();
    let mut i: usize = 0;
    while i < pieces.len()
        invariant
            0 <= i <= pieces@.len(),
            found@ == rotations_of(views(pieces@).take(i as int)),
        decreases pieces@.len() - i,
    {
        proof {
            assert(views(pieces@).take(i + 1).drop_last() =~= views(pieces@).take(i as int));
        }
        match parse_rotation(pieces[i]) {
            Some(value) => {
                found.push(value);
            },
            None => {},
        }
        i += 1;
    }
    proof {
        assert(views(pieces@).take(i as int) =~= views(pieces@));
        lemma_rotations_bounded(lines(input.spec_bytes()));
    }
    found
}

/// Turns the dial by one rotation.
pub fn turn(dial: i64, rotation: i64) -> (r: i64)
    requires
        0 <= dial < 100,
        -0x8000_0000 <= rotation <= 0x8000_0000,
    ensures
        r == (dial + rotation) % 100,
        0 <= r < 100,
{
    // 2147483700 is a multiple of 100 that lifts every rotation above zero.
    let lifted = (dial + rotation + 2147483700) as u64;
    (lifted % 100) as i64
}

} // verus!
