//! The three largest circuits after a number of links.

use crate::day08::{
    arranged, connected, join, lemma_arranged_in_range, ordered_links, own_circuits,
    shortest_first, start_circuits, JunctionBox,
};
use crate::error::{Error, Stage};
use crate::text::{list_at, parse_list, Separator};
use vstd::prelude::*;
use vstd::string::*;

verus! {

/// How many circuits count.
pub const TAKE_LARGEST: usize = 3;

/// The number of different places among the first `upto` boxes that are in
/// the circuit `circuit`.  A place counts where `own` names it by its first
/// box.
pub open spec fn circuit_size(circuits: Seq<usize>, own: Seq<usize>, circuit: int, upto: int) -> nat
    decreases upto,
{
    if upto <= 0 {
        0
    } else {
        circuit_size(circuits, own, circuit, upto - 1) + if circuits[upto - 1] == circuit
            && own[upto - 1] == upto - 1 {
            1nat
        } else {
            0nat
        }
    }
}

/// The three largest of three sizes and one more, the largest first.
pub open spec fn ranked(best: (nat, nat, nat), size: nat) -> (nat, nat, nat) {
    if size > best.0 {
        (size, best.0, best.1)
    } else if size > best.1 {
        (best.0, size, best.1)
    } else if size > best.2 {
        (best.0, best.1, size)
    } else {
        best
    }
}

/// The sizes of the three largest circuits that are named by one of the
/// first `upto` boxes, the largest first; 1 stands where there are fewer
/// circuits.  A circuit is named by the box whose circuit is the box itself.
pub open spec fn three_largest(circuits: Seq<usize>, own: Seq<usize>, upto: int) -> (
    nat,
    nat,
    nat,
)
    decreases upto,
{
    if upto <= 0 {
        (1, 1, 1)
    } else {
        let best = three_largest(circuits, own, upto - 1);
        if circuits[upto - 1] == upto - 1 {
            ranked(best, circuit_size(circuits, own, upto - 1, circuits.len() as int))
        } else {
            best
        }
    }
}

/// The product of the sizes of the three largest circuits, after the first
/// `connections` links of `order` have joined the boxes.
pub open spec fn largest_product(
    boxes: Seq<JunctionBox>,
    order: Seq<(u128, usize, usize)>,
    connections: nat,
) -> nat {
    let made = if connections <= order.len() {
        connections
    } else {
        order.len()
    };
    let circuits = connected(own_circuits(boxes), order.take(made as int));
    let best = three_largest(circuits, own_circuits(boxes), boxes.len() as int);
    best.0 * best.1 * best.2
}

/// Counts the different places that are in the circuit `circuit`.
pub fn size_of_circuit(circuits: &Vec<usize>, own: &Vec<usize>, circuit: usize) -> (r: usize)
    requires
        circuits@.len() == own@.len(),
    ensures
        r == circuit_size(circuits@, own@, circuit as int, circuits@.len() as int),
{
    let mut size: usize = 0;
    let mut k: usize = 0;
    while k < circuits.len()
        invariant
            0 <= k <= circuits@.len(),
            circuits@.len() == own@.len(),
            size == circuit_size(circuits@, own@, circuit as int, k as int),
            size <= k,
        decreases circuits@.len() - k,
    {
        if circuits[k] == circuit && own[k] == k {
            size += 1;
        }
        k += 1;
    }
    size
}

/// Finds the sizes of the three largest circuits.
pub fn largest_circuits(circuits: &Vec<usize>, own: &Vec<usize>) -> (r: (usize, usize, usize))
    requires
        circuits@.len() == own@.len(),
    ensures
        (r.0 as nat, r.1 as nat, r.2 as nat) == three_largest(
            circuits@,
            own@,
            circuits@.len() as int,
        ),
{
    let mut best: (usize, usize, usize) = (1, 1, 1);
    let mut k: usize = 0;
    while k < circuits.len()
        invariant
            0 <= k <= circuits@.len(),
            circuits@.len() == own@.len(),
            (best.0 as nat, best.1 as nat, best.2 as nat) == three_largest(
                circuits@,
                own@,
                k as int,
            ),
        decreases circuits@.len() - k,
    {
        if circuits[k] == k {
            let size = size_of_circuit(circuits, own, k);
            if size > best.0 {
                best = (size, best.0, best.1);
            } else if size > best.1 {
                best = (best.0, size, best.1);
            } else if size > best.2 {
                best = (best.0, best.1, size);
            }
        }
        k += 1;
    }
    best
}

/// Multiplies three sizes, or gives `None` where the product does not fit
/// 64 bits.
pub fn checked_product(a: usize, b: usize, c: usize) -> (r: Option<u64>)
    ensures
        r matches Some(n) ==> n == a * b * c,
        r is None ==> a * b * c > u64::MAX,
{
    assert(a * b <= 0xffff_ffff_ffff_ffff * 0xffff_ffff_ffff_ffff) by (nonlinear_arith)
        requires
            0 <= a <= 0xffff_ffff_ffff_ffff,
            0 <= b <= 0xffff_ffff_ffff_ffff,
    ;
    let first = a as u128 * b as u128;
    if c == 0 {
        assert(a * b * c == 0) by (nonlinear_arith)
            requires
                c == 0,
        ;
        return Some(0);
    }
    if first > u64::MAX as u128 {
        assert(a * b * c > u64::MAX) by (nonlinear_arith)
            requires
                a * b > u64::MAX,
                c >= 1,
        ;
        return None;
    }
    assert(first * c <= 0xffff_ffff_ffff_ffff * 0xffff_ffff_ffff_ffff) by (nonlinear_arith)
        requires
            0 <= first <= 0xffff_ffff_ffff_ffff,
            0 <= c <= 0xffff_ffff_ffff_ffff,
    ;
    let all = first * c as u128;
    if all > u64::MAX as u128 {
        None
    } else {
        Some(all as u64)
    }
}

/// Reads the boxes, one to a line, joins them by the `connections` shortest
/// links, and multiplies the sizes of the three largest circuits.  Fails
/// with `Parse` where the text does not start with a box, and with
/// `Overflow` where the product does not fit 64 bits.
pub fn solve(input: &str, connections: usize) -> (r: Result<u64, Error>)
    ensures
        match list_at::<JunctionBox>(input.spec_bytes(), 0, Separator::Line) {
            None => r == Err::<u64, Error>(Error::Parse(Stage::JunctionBoxes)),
            Some((boxes, _)) => match r {
                Ok(product) => product == largest_product(
                    boxes,
                    shortest_first(boxes),
                    connections as nat,
                ),
                Err(e) => e == Error::Overflow && largest_product(
                    boxes,
                    shortest_first(boxes),
                    connections as nat,
                ) > u64::MAX,
            },
        },
{
    let boxes = match parse_list::<JunctionBox>(input.as_bytes(), 0, Separator::Line) {
        Some((boxes, _)) => boxes,
        None => { return Err(Error::Parse(Stage::JunctionBoxes)); },
    };
    assert(boxes.deep_view() =~= boxes@);
    let own = start_circuits(&boxes);
    assert(boxes@.len() == boxes.len());
    let order = ordered_links(&boxes);
    let mut circuits = start_circuits(&boxes);
    let made = if connections <= order.len() {
        connections
    } else {
        order.len()
    };
    let mut k: usize = 0;
    assert(order@.take(0) =~= Seq::empty());
    while k < made
        invariant
            0 <= k <= made <= order@.len(),
            arranged(boxes@, order@),
            circuits@.len() == boxes@.len() <= usize::MAX,
            circuits@ == connected(own_circuits(boxes@), order@.take(k as int)),
        decreases made - k,
    {
        proof {
            lemma_arranged_in_range(boxes@, order@, k as int);
            assert(order@.take(k + 1).drop_last() =~= order@.take(k as int));
        }
        join(&mut circuits, order[k].1, order[k].2);
        k += 1;
    }
    let best = largest_circuits(&circuits, &own);
    let found = checked_product(best.0, best.1, best.2);
    proof {
        let read = list_at::<JunctionBox>(input.spec_bytes(), 0, Separator::Line);
        assert(read.unwrap().0 == boxes@);
        assert(arranged(boxes@, order@));
    }
    match found {
        Some(product) => Ok(product),
        None => Err(Error::Overflow),
    }
}

} // verus!
