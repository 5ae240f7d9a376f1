//! Ranges of product ids, and the ids in them that are made of a repeated
//! string of digits.
//!
//! The text holds ranges with commas between them, each a first and a last
//! id with a hyphen between them.  What stands between two commas and does
//! not start with a range is passed over.

use crate::decimal::{decimal, digits, lemma_decimal_bytes, to_text};
use crate::error::Error;
use crate::text::{byte_at, has_byte, number_at, parse_number, split, split_at_byte, views};
use vstd::prelude::*;
use vstd::string::*;

pub mod part_1;
pub mod part_2;

verus! {

/// The ids from `first` to `last`, both included.
#[derive(Clone, Copy, Debug, PartialEq, Eq, Structural)]
pub struct IdRange {
    pub first: u64,
    pub last: u64,
}

/// The range that a piece of text starts with: two numbers of 64 bits with a
/// hyphen between them.
pub open spec fn range_of(piece: Seq<u8>) -> Option<IdRange> {
    match number_at(piece, 0, u64::MAX as nat) {
        Some((first, hyphen)) => if byte_at(piece, hyphen, 0x2d) {
            match number_at(piece, hyphen + 1, u64::MAX as nat) {
                Some((last, _)) => Some(IdRange { first: first as u64, last: last as u64 }),
                None => None,
            }
        } else {
            None
        },
        None => None,
    }
}

/// The ranges that the pieces start with, in their order.
pub open spec fn ranges_of(pieces: Seq<Seq<u8>>) -> Seq<IdRange>
    decreases pieces.len(),
{
    if pieces.len() == 0 {
        Seq::empty()
    } else {
        match range_of(pieces.last()) {
            Some(range) => ranges_of(pieces.drop_last()).push(range),
            None => ranges_of(pieces.drop_last()),
        }
    }
}

/// The ranges that the text holds.
pub open spec fn ranges_in(s: Seq<u8>) -> Seq<IdRange> {
    ranges_of(split(s, 0x2c))
}

/// The numbers from `first` to `last`, both included, in their order.
pub open spec fn span(first: u64, last: u64) -> Seq<u64> {
    if first <= last {
        Seq::new((last - first + 1) as nat, |i: int| (first + i) as u64)
    } else {
        Seq::empty()
    }
}

/// The ids of the ranges, range after range.
pub open spec fn ids_of(ranges: Seq<IdRange>) -> Seq<u64>
    decreases ranges.len(),
{
    if ranges.len() == 0 {
        Seq::empty()
    } else {
        ids_of(ranges.drop_last()) + span(ranges.last().first, ranges.last().last)
    }
}

/// Reads the range that a piece of text starts with.
pub fn id_range(piece: &[u8]) -> (r: Option<IdRange>)
    ensures
        r == range_of(piece@),
{
    let (first, hyphen) = match parse_number(piece, 0, u64::MAX) {
        Some(found) => found,
        None => { return None; },
    };
    if !has_byte(piece, hyphen, 0x2d) {
        return None;
    }
    match parse_number(piece, hyphen + 1, u64::MAX) {
        Some((last, _)) => Some(IdRange { first, last }),
        None => None,
    }
}

/// Reads the ranges that the text holds.
pub fn id_ranges(input: &str) -> (r: Vec<IdRange>)
    ensures
        r@ == ranges_in(input.spec_bytes()),
{
    let pieces = split_at_byte(input.as_bytes(), 0x2c);
    let mut found: Vec<IdRange> = Vec::new();
    let mut i: usize = 0;
    while i < pieces.len()
        invariant
            0 <= i <= pieces@.len(),
            found@ == ranges_of(views(pieces@).take(i as int)),
        decreases pieces@.len() - i,
    {
        proof {
            assert(views(pieces@).take(i + 1).drop_last() =~= views(pieces@).take(i as int));
        }
        match id_range(pieces[i]) {
            Some(range) => {
                found.push(range);
            },
            None => {},
        }
        i += 1;
    }
    proof {
        assert(views(pieces@).take(i as int) =~= views(pieces@));
    }
    found
}

/// Lists the ids of the ranges that the text holds, range after range.
pub fn ids(input: &str) -> (r: Vec<u64>)
    ensures
        r@ == ids_of(ranges_in(input.spec_bytes())),
{
    let ranges = id_ranges(input);
    let mut found: Vec<u64> = Vec::new();
    let mut i: usize = 0;
    while i < ranges.len()
        invariant
            0 <= i <= ranges@.len(),
            found@ == ids_of(ranges@.take(i as int)),
        decreases ranges@.len() - i,
    {
        let ghost before = found@;
        let range = ranges[i];
        proof {
            assert(ranges@.take(i + 1).drop_last() =~= ranges@.take(i as int));
        }
        if range.first <= range.last {
            let mut id = range.first;
            loop
                invariant_except_break
                    range.first <= id <= range.last,
                    found@ =~= before + span(range.first, id).drop_last(),
                ensures
                    found@ =~= before + span(range.first, range.last),
                decreases range.last - id,
            {
                found.push(id);
                assert(found@ =~= before + span(range.first, id));
                if id == range.last {
                    break ;
                }
                id += 1;
            }
        } else {
            assert(found@ =~= before + span(range.first, range.last));
        }
        i += 1;
    }
    assert(ranges@.take(i as int) =~= ranges@);
    found
}

/// The rules by which an id counts as made of a repeated string of digits.
#[derive(Clone, Copy, Debug, PartialEq, Eq, Structural)]
pub enum Rule {
    /// The digits are some string of digits twice.
    Twice,
    /// The digits are some string of digits twice or more often.
    Often,
}

impl Rule {
    /// Whether a string counts as repeated by the rule.
    pub open spec fn holds(self, s: Seq<u8>) -> bool {
        match self {
            Rule::Twice => part_1::halves_equal(s),
            Rule::Often => part_2::repeats(s),
        }
    }

    /// Tests whether a string counts as repeated by the rule.
    pub fn test(self, s: &str) -> (r: bool)
        ensures
            r == self.holds(s.spec_bytes()),
    {
        match self {
            Rule::Twice => part_1::is_repeating(s),
            Rule::Often => part_2::is_repeating(s),
        }
    }
}

/// The sum of the ids whose decimal digits count as repeated by the rule.
pub open spec fn repeated_sum(ids: Seq<u64>, rule: Rule) -> nat
    decreases ids.len(),
{
    if ids.len() == 0 {
        0
    } else {
        repeated_sum(ids.drop_last(), rule) + if rule.holds(digits(ids.last() as nat)) {
            ids.last() as nat
        } else {
            0nat
        }
    }
}

/// The sum over the first ids is no more than the sum over all.
pub proof fn lemma_repeated_sum_grows(ids: Seq<u64>, rule: Rule, k: int)
    requires
        0 <= k <= ids.len(),
    ensures
        repeated_sum(ids.take(k), rule) <= repeated_sum(ids, rule),
    decreases ids.len() - k,
{
    if k < ids.len() {
        assert(ids.take(k + 1).drop_last() =~= ids.take(k));
        lemma_repeated_sum_grows(ids, rule, k + 1);
    } else {
        assert(ids.take(k) =~= ids);
    }
}

/// Adds up the ids of the ranges in the text whose digits count as repeated
/// by the rule, and writes the sum in decimal.  Fails with `Overflow` where
/// the sum does not fit 64 bits.
pub fn sum_repeated(input: &str, rule: Rule) -> (r: Result<String, Error>)
    ensures
        match r {
            Ok(text) => text@ == decimal(repeated_sum(ids_of(ranges_in(input.spec_bytes())), rule)),
            Err(e) => e == Error::Overflow && repeated_sum(
                ids_of(ranges_in(input.spec_bytes())),
                rule,
            ) > u64::MAX,
        },
{
    let ranges = id_ranges(input);
    let ghost all = ids_of(ranges@);
    let mut sum: u64 = 0;
    let mut i: usize = 0;
    proof {
        lemma_ids_prefix(ranges@, 0);
    }
    while i < ranges.len()
        invariant
            0 <= i <= ranges@.len(),
            ranges@ == ranges_in(input.spec_bytes()),
            all == ids_of(ranges@),
            sum == repeated_sum(ids_of(ranges@.take(i as int)), rule),
            exists|k: int| 0 <= k <= all.len() && all.take(k) == ids_of(ranges@.take(i as int)),
        decreases ranges@.len() - i,
    {
        let range = ranges[i];
        let ghost before = ids_of(ranges@.take(i as int));
        let ghost whole = ids_of(ranges@.take(i + 1));
        proof {
            assert(ranges@.take(i + 1).drop_last() =~= ranges@.take(i as int));
            assert(whole == before + span(range.first, range.last));
            lemma_ids_prefix(ranges@, i + 1);
        }
        if range.first <= range.last {
            let mut id = range.first;
            loop
                invariant_except_break
                    range.first <= id <= range.last,
                    sum == repeated_sum(before + span(range.first, id).drop_last(), rule),
                invariant
                    whole == before + span(range.first, range.last),
                    all == ids_of(ranges@),
                    ranges@ == ranges_in(input.spec_bytes()),
                    exists|k: int| 0 <= k <= all.len() && all.take(k) == whole,
                ensures
                    sum == repeated_sum(whole, rule),
                decreases range.last - id,
            {
                let ghost done = before + span(range.first, id).drop_last();
                let text = to_text(id);
                proof {
                    lemma_decimal_bytes(id as nat);
                    assert((done.push(id)) =~= before + span(range.first, id));
                    assert(done.push(id).drop_last() =~= done);
                }
                if rule.test(text.as_str()) {
                    sum = match sum.checked_add(id) {
                        Some(sum) => sum,
                        None => {
                            proof {
                                let reached = before + span(range.first, id);
                                assert(reached =~= whole.take(reached.len() as int));
                                lemma_repeated_sum_grows(whole, rule, reached.len() as int);
                                let k = choose|k: int| 0 <= k <= all.len() && all.take(k) == whole;
                                lemma_repeated_sum_grows(all, rule, k);
                            }
                            return Err(Error::Overflow);
                        },
                    };
                }
                assert(sum == repeated_sum(before + span(range.first, id), rule));
                if id == range.last {
                    break ;
                }
                id += 1;
                proof {
                    assert(span(range.first, id).drop_last() =~= span(
                        range.first,
                        (id - 1) as u64,
                    ));
                }
            }
        } else {
            assert(whole =~= before);
        }
        i += 1;
    }
    assert(ranges@.take(i as int) =~= ranges@);
    Ok(to_text(sum))
}

/// The ids of the first ranges are the first ids of all the ranges.
pub proof fn lemma_ids_prefix(ranges: Seq<IdRange>, k: int)
    requires
        0 <= k <= ranges.len(),
    ensures
        exists|n: int|
            0 <= n <= ids_of(ranges).len() && ids_of(ranges).take(n) == ids_of(ranges.take(k)),
    decreases ranges.len() - k,
{
    if k == ranges.len() {
        assert(ranges.take(k) =~= ranges);
        assert(ids_of(ranges).take(ids_of(ranges).len() as int) =~= ids_of(ranges));
    } else {
        lemma_ids_prefix(ranges, k + 1);
        let n = choose|n: int|
            0 <= n <= ids_of(ranges).len() && ids_of(ranges).take(n) == ids_of(
                ranges.take(k + 1),
            );
        assert(ranges.take(k + 1).drop_last() =~= ranges.take(k));
        let shorter = ids_of(ranges.take(k));
        let longer = ids_of(ranges.take(k + 1));
        let whole = ids_of(ranges);
        assert(longer == shorter + span(ranges[k].first, ranges[k].last));
        assert(longer.take(shorter.len() as int) =~= shorter);
        assert(whole.take(n).take(shorter.len() as int) =~= whole.take(shorter.len() as int));
    }
}

} // verus!
