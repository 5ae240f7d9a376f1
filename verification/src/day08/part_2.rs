//! The link that joins the last two circuits into one.

use crate::day08::{
    arranged, join, joined, lemma_arranged_in_range, ordered_links, own_circuits, shortest_first,
    start_circuits, JunctionBox,
};
use crate::error::{Error, Stage};
use crate::text::{list_at, parse_list, Separator};
use vstd::prelude::*;
use vstd::string::*;

verus! {

/// Whether all the boxes are in one circuit.
pub open spec fn complete(circuits: Seq<usize>) -> bool {
    forall|k: int| 0 <= k < circuits.len() ==> #[trigger] circuits[k] == circuits[0]
}

/// The last link that is made when the links of `order` from the `k`th on
/// join the boxes until all are in one circuit; none where they are in one
/// circuit already, or no link is left.
pub open spec fn last_link(circuits: Seq<usize>, order: Seq<(u128, usize, usize)>, k: int) -> Option<
    (u128, usize, usize),
>
    decreases order.len() - k,
{
    if k < 0 || k >= order.len() || complete(circuits) {
        None
    } else {
        match last_link(joined(circuits, order[k].1 as int, order[k].2 as int), order, k + 1) {
            Some(later) => Some(later),
            None => Some(order[k]),
        }
    }
}

/// The product of the first coordinates of the two boxes that the last link
/// joins, or 0 where no link is made.
pub open spec fn last_product(boxes: Seq<JunctionBox>, order: Seq<(u128, usize, usize)>) -> nat {
    match last_link(own_circuits(boxes), order, 0) {
        Some(made) => (boxes[made.1 as int].x * boxes[made.2 as int].x) as nat,
        None => 0,
    }
}

/// Tells whether all the boxes are in one circuit.
pub fn all_joined(circuits: &Vec<usize>) -> (r: bool)
    ensures
        r == complete(circuits@),
{
    let mut k: usize = 0;
    while k < circuits.len()
        invariant
            0 <= k <= circuits@.len(),
            forall|m: int| 0 <= m < k ==> #[trigger] circuits@[m] == circuits@[0],
        decreases circuits@.len() - k,
    {
        if circuits[k] != circuits[0] {
            return false;
        }
        k += 1;
    }
    true
}

/// Reads the boxes, one to a line, joins them by the shortest links until
/// all are in one circuit, and multiplies the first coordinates of the two
/// boxes of the last link.  Fails with `Parse` where the text does not start
/// with a box.
pub fn solve(input: &str) -> (r: Result<u64, Error>)
    ensures
        match list_at::<JunctionBox>(input.spec_bytes(), 0, Separator::Line) {
            None => r == Err::<u64, Error>(Error::Parse(Stage::JunctionBoxes)),
            Some((boxes, _)) => r == Ok::<u64, Error>(
                last_product(boxes, shortest_first(boxes)) as u64,
            ) && last_product(boxes, shortest_first(boxes)) <= u64::MAX,
        },
{
    let boxes = match parse_list::<JunctionBox>(input.as_bytes(), 0, Separator::Line) {
        Some((boxes, _)) => boxes,
        None => { return Err(Error::Parse(Stage::JunctionBoxes)); },
    };
    assert(boxes.deep_view() =~= boxes@);
    assert(boxes@.len() == boxes.len());
    let order = ordered_links(&boxes);
    let mut circuits = start_circuits(&boxes);
    let mut last: Option<(u128, usize, usize)> = None;
    let mut k: usize = 0;
    while k < order.len() && !all_joined(&circuits)
        invariant
            0 <= k <= order@.len(),
            arranged(boxes@, order@),
            circuits@.len() == boxes@.len() <= usize::MAX,
            last matches Some(made) ==> made.2 < made.1 < boxes@.len(),
            last_link(own_circuits(boxes@), order@, 0) == match last_link(
                circuits@,
                order@,
                k as int,
            ) {
                Some(later) => Some(later),
                None => last,
            },
        decreases order@.len() - k,
    {
        proof {
            lemma_arranged_in_range(boxes@, order@, k as int);
        }
        join(&mut circuits, order[k].1, order[k].2);
        last = Some(order[k]);
        k += 1;
    }
    proof {
        let read = list_at::<JunctionBox>(input.spec_bytes(), 0, Separator::Line);
        assert(read.unwrap().0 == boxes@);
        assert(last_link(circuits@, order@, k as int) is None);
        assert(last_link(own_circuits(boxes@), order@, 0) == last);
    }
    match last {
        Some(made) => {
            let a = boxes[made.1].x;
            let b = boxes[made.2].x;
            assert(a * b <= 0xffff_ffff * 0xffff_ffff) by (nonlinear_arith)
                requires
                    0 <= a <= 0xffff_ffff,
                    0 <= b <= 0xffff_ffff,
            ;
            Ok(a as u64 * b as u64)
        },
        None => Ok(0),
    }
}

} // verus!
