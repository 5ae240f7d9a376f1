//! The ingredients that are fresh: those that are in one of the ranges, each
//! counted once.
//!
//! The ranges are taken the largest first.  Of each range only what no
//! larger range holds is counted; since no range before it is smaller, that
//! is one stretch of the range, or nothing.

use crate::day05::{covers, fresh_at, fresh_ingredients, is_fresh, FreshRange};
use crate::decimal::{decimal, to_text};
use crate::error::Error;
use vstd::prelude::*;
use vstd::set_lib::{lemma_int_range, lemma_len_subset, lemma_set_disjoint_lens, set_int_range};
use vstd::string::*;

verus! {

/// The ingredients that are in the range.
pub open spec fn ids_in(range: FreshRange) -> Set<int> {
    Set::new(|x: int| covers(range, x))
}

/// The ingredients that are in one of the ranges.
pub open spec fn fresh_ids(ranges: Seq<FreshRange>) -> Set<int> {
    Set::new(|x: int| is_fresh(ranges, x))
}

/// The ingredients from `lo` to `hi`, both included.
pub open spec fn between(lo: int, hi: int) -> Set<int> {
    Set::new(|x: int| lo <= x <= hi)
}

/// The number of ingredients in the range.
pub open spec fn size(range: FreshRange) -> nat {
    if range.first <= range.last {
        (range.last - range.first + 1) as nat
    } else {
        0
    }
}

/// Whether no range is larger than a range before it.
pub open spec fn largest_first(ranges: Seq<FreshRange>) -> bool {
    forall|a: int, b: int|
        0 <= a < b < ranges.len() ==> size(#[trigger] ranges[a]) >= size(#[trigger] ranges[b])
}

/// There are as many ingredients from `lo` to `hi` as the numbers say.
pub proof fn lemma_between(lo: int, hi: int)
    requires
        lo <= hi + 1,
    ensures
        between(lo, hi).finite(),
        between(lo, hi).len() == hi + 1 - lo,
{
    lemma_int_range(lo, hi + 1);
    assert(between(lo, hi) =~= set_int_range(lo, hi + 1));
}

/// The ingredients of the first ranges and one more are those of the first
/// ranges and those of the one more.
pub proof fn lemma_fresh_ids_grow(ranges: Seq<FreshRange>, k: int)
    requires
        0 <= k < ranges.len(),
    ensures
        fresh_ids(ranges.take(k + 1)) == fresh_ids(ranges.take(k)).union(ids_in(ranges[k])),
{
    let more = ranges.take(k + 1);
    let fewer = ranges.take(k);
    assert forall|x: int| fresh_ids(more).contains(x) <==> fresh_ids(fewer).union(
        ids_in(ranges[k]),
    ).contains(x) by {
        if is_fresh(more, x) {
            let i = choose|i: int| 0 <= i < more.len() && covers(#[trigger] more[i], x);
            if i < k {
                assert(covers(fewer[i], x));
            }
        }
        if is_fresh(fewer, x) {
            let i = choose|i: int| 0 <= i < fewer.len() && covers(#[trigger] fewer[i], x);
            assert(covers(more[i], x));
        }
        if covers(ranges[k], x) {
            assert(covers(more[k], x));
        }
    }
    assert(fresh_ids(more) =~= fresh_ids(fewer).union(ids_in(ranges[k])));
}

/// The ingredients of the first ranges are finitely many, and are among the
/// ingredients of all the ranges.
pub proof fn lemma_fresh_ids_finite(ranges: Seq<FreshRange>, k: int)
    requires
        0 <= k <= ranges.len(),
    ensures
        fresh_ids(ranges.take(k)).finite(),
        fresh_ids(ranges.take(k)).subset_of(fresh_ids(ranges)),
    decreases k,
{
    assert forall|x: int| fresh_ids(ranges.take(k)).contains(x) implies fresh_ids(ranges).contains(
        x,
    ) by {
        let i = choose|i: int| 0 <= i < ranges.take(k).len() && covers(
            #[trigger] ranges.take(k)[i],
            x,
        );
        assert(covers(ranges[i], x));
    }
    if k == 0 {
        assert(fresh_ids(ranges.take(0)) =~= Set::empty());
    } else {
        lemma_fresh_ids_finite(ranges, k - 1);
        lemma_fresh_ids_grow(ranges, k - 1);
        lemma_between(ranges[k - 1].first as int, if ranges[k - 1].first <= ranges[k - 1].last {
            ranges[k - 1].last as int
        } else {
            ranges[k - 1].first - 1
        });
        assert(ids_in(ranges[k - 1]) =~= between(
            ranges[k - 1].first as int,
            if ranges[k - 1].first <= ranges[k - 1].last {
                ranges[k - 1].last as int
            } else {
                ranges[k - 1].first - 1
            },
        ));
    }
}

/// Ranges that are the same but for their order hold the same ingredients.
pub proof fn lemma_same_ids(a: Seq<FreshRange>, b: Seq<FreshRange>)
    requires
        a.to_multiset() == b.to_multiset(),
    ensures
        fresh_ids(a) == fresh_ids(b),
{
    a.to_multiset_ensures();
    b.to_multiset_ensures();
    assert forall|x: int| fresh_ids(a).contains(x) <==> fresh_ids(b).contains(x) by {
        if is_fresh(a, x) {
            let i = choose|i: int| 0 <= i < a.len() && covers(#[trigger] a[i], x);
            assert(a.contains(a[i]));
            assert(a.to_multiset().count(a[i]) > 0);
            assert(b.to_multiset().count(a[i]) > 0);
            assert(b.contains(a[i]));
            let j = choose|j: int| 0 <= j < b.len() && b[j] == a[i];
            assert(covers(b[j], x));
        }
        if is_fresh(b, x) {
            let i = choose|i: int| 0 <= i < b.len() && covers(#[trigger] b[i], x);
            assert(b.contains(b[i]));
            assert(b.to_multiset().count(b[i]) > 0);
            assert(a.to_multiset().count(b[i]) > 0);
            assert(a.contains(b[i]));
            let j = choose|j: int| 0 <= j < a.len() && a[j] == b[i];
            assert(covers(a[j], x));
        }
    }
    assert(fresh_ids(a) =~= fresh_ids(b));
}

/// Counts the ingredients in the range.
pub fn size_of(range: &FreshRange) -> (r: u128)
    ensures
        r == size(*range),
{
    if range.first <= range.last {
        (range.last - range.first) as u128 + 1
    } else {
        0
    }
}

/// The place of the range in the order of the ranges: the larger the
/// range, the smaller the number.
pub open spec fn rank(range: FreshRange) -> nat {
    (0x1_0000_0000_0000_0000 - size(range)) as nat
}

/// Whether no range has a smaller rank than a range before it.
pub open spec fn ranked(ranges: Seq<FreshRange>) -> bool {
    forall|a: int, b: int|
        0 <= a < b < ranges.len() ==> rank(#[trigger] ranges[a]) <= rank(#[trigger] ranges[b])
}

/// Computes the place of the range in the order of the ranges.
pub fn rank_of(range: &FreshRange) -> (r: u128)
    ensures
        r == rank(*range),
{
    0x1_0000_0000_0000_0000 - size_of(range)
}

/// Puts the ranges in the order of their ranks with `sort_unstable_by_key` of
/// the standard library.  The sorted vector holds what the vector held, each
/// range as often as before, and no range in it has a smaller rank than a
/// range before it.
#[verifier::external_body]
fn sort_by_rank(ranges: &mut Vec<FreshRange>)
    ensures
        ranked(final(ranges)@),
        final(ranges)@.to_multiset() == old(ranges)@.to_multiset(),
{
    ranges.sort_unstable_by_key(|range| rank_of(range));
}

/// Puts the ranges in order, the largest first.
pub fn sort_by_size(ranges: &mut Vec<FreshRange>)
    ensures
        largest_first(final(ranges)@),
        final(ranges)@.to_multiset() == old(ranges)@.to_multiset(),
{
    sort_by_rank(ranges);
    assert forall|a: int, b: int| 0 <= a < b < ranges@.len() implies size(
        #[trigger] ranges@[a],
    ) >= size(#[trigger] ranges@[b]) by {
        assert(rank(ranges@[a]) <= rank(ranges@[b]));
    }
}

/// Finds what of the range `i` none of the ranges before it holds: a
/// stretch from a first to a last ingredient, or nothing.
pub fn uncovered(ranges: &Vec<FreshRange>, i: usize) -> (r: Option<(u64, u64)>)
    requires
        i < ranges@.len(),
        largest_first(ranges@),
    ensures
        match r {
            Some((lo, hi)) => lo <= hi && between(lo as int, hi as int) == ids_in(
                ranges@[i as int],
            ).difference(fresh_ids(ranges@.take(i as int))),
            None => ids_in(ranges@[i as int]).difference(fresh_ids(ranges@.take(i as int)))
                == Set::<int>::empty(),
        },
{
    let range = ranges[i];
    if range.first > range.last {
        assert(ids_in(range).difference(fresh_ids(ranges@.take(i as int))) =~= Set::<int>::empty());
        return None;
    }
    let mut lo = range.first;
    let mut hi = range.last;
    let mut j: usize = 0;
    proof {
        assert(fresh_ids(ranges@.take(0)) =~= Set::empty());
        assert(between(lo as int, hi as int) =~= ids_in(range).difference(
            fresh_ids(ranges@.take(0)),
        ));
    }
    while j < i
        invariant
            0 <= j <= i < ranges@.len(),
            range == ranges@[i as int],
            largest_first(ranges@),
            range.first <= lo <= hi <= range.last,
            between(lo as int, hi as int) == ids_in(range).difference(
                fresh_ids(ranges@.take(j as int)),
            ),
        decreases i - j,
    {
        let prev = ranges[j];
        let lo_in = prev.first <= lo && lo <= prev.last;
        let hi_in = prev.first <= hi && hi <= prev.last;
        proof {
            lemma_fresh_ids_grow(ranges@, j as int);
            assert(size(ranges@[j as int]) >= size(ranges@[i as int]));
        }
        if lo_in && hi_in {
            proof {
                lemma_fresh_ids_finite(ranges@.take(i as int), j + 1);
                assert(ranges@.take(i as int).take(j + 1) =~= ranges@.take(j + 1));
                assert forall|x: int| !ids_in(range).difference(
                    fresh_ids(ranges@.take(i as int)),
                ).contains(x) by {
                    if ids_in(range).contains(x) && !fresh_ids(ranges@.take(i as int)).contains(x) {
                        assert(!fresh_ids(ranges@.take(j + 1)).contains(x));
                        assert(!fresh_ids(ranges@.take(j as int)).contains(x));
                        assert(between(lo as int, hi as int).contains(x));
                        assert(covers(prev, x));
                        assert(ids_in(prev).contains(x));
                    }
                }
                assert(ids_in(range).difference(fresh_ids(ranges@.take(i as int)))
                    =~= Set::<int>::empty());
            }
            return None;
        }
        let ghost old_lo = lo;
        let ghost old_hi = hi;
        if lo_in {
            lo = prev.last + 1;
        } else if hi_in {
            hi = prev.first - 1;
        }
        proof {
            assert forall|x: int| between(lo as int, hi as int).contains(x) <==> ids_in(
                range,
            ).difference(fresh_ids(ranges@.take(j + 1))).contains(x) by {
                assert(between(old_lo as int, old_hi as int).contains(x) <==> ids_in(
                    range,
                ).difference(fresh_ids(ranges@.take(j as int))).contains(x));
                assert(fresh_ids(ranges@.take(j + 1)).contains(x) <==> (fresh_ids(
                    ranges@.take(j as int),
                ).contains(x) || ids_in(prev).contains(x)));
                assert(ids_in(prev).contains(x) <==> covers(prev, x));
            }
            assert(between(lo as int, hi as int) =~= ids_in(range).difference(
                fresh_ids(ranges@.take(j + 1)),
            ));
        }
        j += 1;
    }
    Some((lo, hi))
}

/// Reads the ranges, counts the ingredients that are in one of them, and
/// writes the count in decimal.  Fails with `Overflow` where the count does
/// not fit 64 bits.
pub fn solve(input: &str) -> (r: Result<String, Error>)
    ensures
        fresh_ids(fresh_at(input.spec_bytes(), 0).0).finite(),
        match r {
            Ok(text) => text@ == decimal(fresh_ids(fresh_at(input.spec_bytes(), 0).0).len()),
            Err(e) => e == Error::Overflow && fresh_ids(fresh_at(input.spec_bytes(), 0).0).len()
                > u64::MAX,
        },
{
    let (mut ranges, _) = fresh_ingredients(input.as_bytes(), 0);
    let ghost read = ranges@;
    sort_by_size(&mut ranges);
    let mut count: u64 = 0;
    let mut i: usize = 0;
    proof {
        lemma_same_ids(ranges@, read);
        lemma_fresh_ids_finite(ranges@, ranges@.len() as int);
        lemma_fresh_ids_finite(ranges@, 0);
        assert(ranges@.take(ranges@.len() as int) =~= ranges@);
        assert(fresh_ids(ranges@.take(0)) =~= Set::empty());
    }
    while i < ranges.len()
        invariant
            0 <= i <= ranges@.len(),
            largest_first(ranges@),
            read == fresh_at(input.spec_bytes(), 0).0,
            fresh_ids(ranges@) == fresh_ids(read),
            fresh_ids(ranges@).finite(),
            fresh_ids(ranges@.take(i as int)).finite(),
            count == fresh_ids(ranges@.take(i as int)).len(),
        decreases ranges@.len() - i,
    {
        let ghost before = fresh_ids(ranges@.take(i as int));
        proof {
            lemma_fresh_ids_grow(ranges@, i as int);
            lemma_fresh_ids_finite(ranges@, i + 1);
        }
        match uncovered(&ranges, i) {
            None => {
                assert(fresh_ids(ranges@.take(i + 1)) =~= before) by {
                    assert forall|x: int| ids_in(ranges@[i as int]).contains(x) implies before.contains(
                        x,
                    ) by {
                        assert(!ids_in(ranges@[i as int]).difference(before).contains(x));
                    }
                }
            },
            Some((lo, hi)) => {
                let more = (hi - lo) as u128 + 1;
                proof {
                    let piece = between(lo as int, hi as int);
                    lemma_between(lo as int, hi as int);
                    assert(piece.disjoint(before));
                    lemma_set_disjoint_lens(before, piece);
                    assert(fresh_ids(ranges@.take(i + 1)) =~= before + piece) by {
                        assert forall|x: int| fresh_ids(ranges@.take(i + 1)).contains(x) <==> (
                        before + piece).contains(x) by {
                            assert(piece.contains(x) <==> ids_in(ranges@[i as int]).difference(
                                before,
                            ).contains(x));
                        }
                    }
                }
                if count as u128 + more > u64::MAX as u128 {
                    proof {
                        lemma_len_subset(fresh_ids(ranges@.take(i + 1)), fresh_ids(ranges@));
                    }
                    return Err(Error::Overflow);
                }
                count = count + more as u64;
            },
        }
        i += 1;
    }
    proof {
        assert(ranges@.take(i as int) =~= ranges@);
    }
    Ok(to_text(count))
}

} // verus!
