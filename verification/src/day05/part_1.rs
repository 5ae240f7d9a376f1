//! The available ingredients that are fresh.
//!
//! After the ranges the text lists the available ingredients, one to a line.
//! A line that does not start with a number is passed over.

use crate::day05::{covers, fresh_at, fresh_ingredients, is_fresh, FreshRange};
use crate::decimal::{decimal, to_text};
use crate::error::Error;
use crate::text::{lines, number_at, parse_number, split_lines, views};
use vstd::prelude::*;
use vstd::slice::slice_subrange;
use vstd::string::*;

verus! {

/// The ingredients that the lines start with, in their order.
pub open spec fn available_of(lines: Seq<Seq<u8>>) -> Seq<u64>
    decreases lines.len(),
{
    if lines.len() == 0 {
        Seq::empty()
    } else {
        match number_at(lines.last(), 0, u64::MAX as nat) {
            Some((ingredient, _)) => available_of(lines.drop_last()).push(ingredient as u64),
            None => available_of(lines.drop_last()),
        }
    }
}

/// The number of the ingredients that are in one of the ranges.
pub open spec fn fresh_count(ranges: Seq<FreshRange>, available: Seq<u64>) -> nat
    decreases available.len(),
{
    if available.len() == 0 {
        0
    } else {
        fresh_count(ranges, available.drop_last()) + if is_fresh(ranges, available.last() as int) {
            1nat
        } else {
            0nat
        }
    }
}

/// Reads the ingredients that the lines of the text start with.
pub fn available_ingredients(input: &[u8]) -> (r: Vec<u64>)
    ensures
        r@ == available_of(lines(input@)),
{
    let pieces = split_lines(input);
    let mut found: Vec<u64> = Vec::new();
    let mut i: usize = 0;
    while i < pieces.len()
        invariant
            0 <= i <= pieces@.len(),
            found@ == available_of(views(pieces@).take(i as int)),
        decreases pieces@.len() - i,
    {
        proof {
            assert(views(pieces@).take(i + 1).drop_last() =~= views(pieces@).take(i as int));
        }
        match parse_number(pieces[i], 0, u64::MAX) {
            Some((ingredient, _)) => {
                found.push(ingredient);
            },
            None => {},
        }
        i += 1;
    }
    proof {
        assert(views(pieces@).take(i as int) =~= views(pieces@));
    }
    found
}

/// Tells whether the ingredient is in one of the ranges.
pub fn in_ranges(ranges: &Vec<FreshRange>, ingredient: u64) -> (r: bool)
    ensures
        r == is_fresh(ranges@, ingredient as int),
{
    let mut i: usize = 0;
    while i < ranges.len()
        invariant
            0 <= i <= ranges@.len(),
            forall|k: int| 0 <= k < i ==> !covers(#[trigger] ranges@[k], ingredient as int),
        decreases ranges@.len() - i,
    {
        if ranges[i].first <= ingredient && ingredient <= ranges[i].last {
            return true;
        }
        i += 1;
    }
    false
}

/// Reads the ranges and the available ingredients, counts the ingredients
/// that are in one of the ranges, and writes the count in decimal.
pub fn solve(input: &str) -> (r: Result<String, Error>)
    ensures
        r matches Ok(text) && ({
            let s = input.spec_bytes();
            let (ranges, end) = fresh_at(s, 0);
            text@ == decimal(
                fresh_count(ranges, available_of(lines(s.subrange(end, s.len() as int)))),
            )
        }),
{
    let bytes = input.as_bytes();
    let (ranges, end) = fresh_ingredients(bytes, 0);
    let available = available_ingredients(slice_subrange(bytes, end, bytes.len()));
    let mut count: usize = 0;
    let mut i: usize = 0;
    while i < available.len()
        invariant
            0 <= i <= available@.len(),
            count == fresh_count(ranges@, available@.take(i as int)),
            count <= i,
        decreases available@.len() - i,
    {
        proof {
            assert(available@.take(i + 1).drop_last() =~= available@.take(i as int));
        }
        if in_ranges(&ranges, available[i]) {
            count += 1;
        }
        i += 1;
    }
    proof {
        assert(available@.take(i as int) =~= available@);
    }
    Ok(to_text(count as u64))
}

} // verus!
