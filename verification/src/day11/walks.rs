//! Why a walk that runs into its bound has met a cycle.
//!
//! A walk goes from a device to one of its outputs, and takes along the
//! devices that are still to pass.  There are only so many devices with
//! outputs, and what is still to pass only gets shorter, so a walk that is
//! long enough comes to the same device twice with the same devices still to
//! pass.

use crate::day11::lists::{in_order, lemma_in_order_on, lemma_in_own_order, lemma_without_in_order};
use crate::day11::{outputs_of, paths, paths_sum, without};
use crate::error::Error;
use vstd::prelude::*;
use vstd::set_lib::{lemma_int_range, lemma_len_subset, set_int_range};

verus! {

/// What is still to pass when the walk is at its `i`th device: the devices to
/// pass without the devices that the walk has left.
pub open spec fn left_at(must_pass: Seq<Seq<u8>>, walk: Seq<Seq<u8>>, i: int) -> Seq<Seq<u8>>
    decreases i,
{
    if i <= 0 {
        must_pass
    } else {
        without(left_at(must_pass, walk, i - 1), walk[i - 1])
    }
}

/// Whether the walk goes on from the `i`th of its devices: the device has
/// outputs, and the walk has not arrived.
pub open spec fn goes_on(
    wiring: Seq<(Seq<u8>, Seq<Seq<u8>>)>,
    walk: Seq<Seq<u8>>,
    must_pass: Seq<Seq<u8>>,
    end: Seq<u8>,
    i: int,
) -> bool {
    &&& outputs_of(wiring, walk[i]) is Some
    &&& !(walk[i] == end && left_at(must_pass, walk, i).len() == 0)
    &&& i + 1 < walk.len() ==> outputs_of(wiring, walk[i]).unwrap().contains(walk[i + 1])
}

/// Whether the devices are a walk through the wiring: it goes on from each
/// of them, to the next.
pub open spec fn is_walk(
    wiring: Seq<(Seq<u8>, Seq<Seq<u8>>)>,
    walk: Seq<Seq<u8>>,
    must_pass: Seq<Seq<u8>>,
    end: Seq<u8>,
) -> bool {
    forall|i: int| 0 <= i < walk.len() ==> #[trigger] goes_on(wiring, walk, must_pass, end, i)
}

/// Whether a walk from `start` comes to a device twice with the same devices
/// still to pass.
pub open spec fn has_cycle(
    wiring: Seq<(Seq<u8>, Seq<Seq<u8>>)>,
    start: Seq<u8>,
    must_pass: Seq<Seq<u8>>,
    end: Seq<u8>,
) -> bool {
    exists|walk: Seq<Seq<u8>>, i: int, j: int|
        #![trigger walk[i], walk[j]]
        walk.len() > 0 && walk[0] == start && is_walk(wiring, walk, must_pass, end) && 0 <= i < j
            < walk.len() && walk[i] == walk[j] && left_at(must_pass, walk, i) == left_at(
            must_pass,
            walk,
            j,
        )
}

/// A list without a device is no longer than the list, and is the list where
/// it is as long.
pub proof fn lemma_without(list: Seq<Seq<u8>>, device: Seq<u8>)
    ensures
        without(list, device).len() <= list.len(),
        without(list, device).len() == list.len() ==> without(list, device) == list,
    decreases list.len(),
{
    if list.len() > 0 {
        lemma_without(list.drop_last(), device);
        if list.last() != device && without(list, device).len() == list.len() {
            assert(without(list.drop_last(), device).push(list.last()) =~= list);
        }
    }
}

/// What is still to pass gets no longer along a walk, and stays the same
/// where it is as long.
pub proof fn lemma_left_at(must_pass: Seq<Seq<u8>>, walk: Seq<Seq<u8>>, i: int, j: int)
    requires
        0 <= i <= j,
    ensures
        left_at(must_pass, walk, j).len() <= left_at(must_pass, walk, i).len(),
        left_at(must_pass, walk, j).len() == left_at(must_pass, walk, i).len() ==> left_at(
            must_pass,
            walk,
            j,
        ) == left_at(must_pass, walk, i),
    decreases j - i,
{
    if i < j {
        lemma_left_at(must_pass, walk, i, j - 1);
        lemma_without(left_at(must_pass, walk, j - 1), walk[j - 1]);
    }
}

/// A walk that starts one device later has the same still to pass, one step
/// later.
pub proof fn lemma_left_at_later(
    must_pass: Seq<Seq<u8>>,
    first: Seq<u8>,
    walk: Seq<Seq<u8>>,
    i: int,
)
    requires
        0 <= i <= walk.len(),
    ensures
        left_at(must_pass, seq![first] + walk, i + 1) == left_at(
            without(must_pass, first),
            walk,
            i,
        ),
    decreases i,
{
    let longer = seq![first] + walk;
    if i > 0 {
        lemma_left_at_later(must_pass, first, walk, i - 1);
        assert(longer[i] == walk[i - 1]);
    } else {
        assert(longer[0] == first);
        assert(left_at(must_pass, longer, 0) == must_pass);
    }
}

/// A sum that runs into the bound has an output whose walk runs into the
/// bound.
pub proof fn lemma_sum_meets_bound(
    wiring: Seq<(Seq<u8>, Seq<Seq<u8>>)>,
    outputs: Seq<Seq<u8>>,
    must_pass: Seq<Seq<u8>>,
    end: Seq<u8>,
    depth: nat,
    max: nat,
) -> (t: int)
    requires
        paths_sum(wiring, outputs, must_pass, end, depth, max) == Err::<nat, Error>(Error::Cycle),
    ensures
        0 <= t < outputs.len(),
        paths(wiring, outputs[t], must_pass, end, depth, max) == Err::<nat, Error>(Error::Cycle),
    decreases outputs.len(),
{
    if paths_sum(wiring, outputs.drop_last(), must_pass, end, depth, max) == Err::<nat, Error>(
        Error::Cycle,
    ) {
        lemma_sum_meets_bound(wiring, outputs.drop_last(), must_pass, end, depth, max)
    } else {
        outputs.len() - 1
    }
}

/// A walk that runs into its bound is one step longer than the bound.
pub proof fn lemma_long_walk(
    wiring: Seq<(Seq<u8>, Seq<Seq<u8>>)>,
    start: Seq<u8>,
    must_pass: Seq<Seq<u8>>,
    end: Seq<u8>,
    depth: nat,
    max: nat,
) -> (walk: Seq<Seq<u8>>)
    requires
        paths(wiring, start, must_pass, end, depth, max) == Err::<nat, Error>(Error::Cycle),
    ensures
        walk.len() == depth + 1,
        walk[0] == start,
        is_walk(wiring, walk, must_pass, end),
    decreases depth,
{
    let outputs = outputs_of(wiring, start).unwrap();
    if depth == 0 {
        let walk = seq![start];
        assert(goes_on(wiring, walk, must_pass, end, 0));
        walk
    } else {
        let left = without(must_pass, start);
        let t = lemma_sum_meets_bound(wiring, outputs, left, end, (depth - 1) as nat, max);
        let rest = lemma_long_walk(wiring, outputs[t], left, end, (depth - 1) as nat, max);
        let walk = seq![start] + rest;
        assert forall|i: int| 0 <= i < walk.len() implies #[trigger] goes_on(
            wiring,
            walk,
            must_pass,
            end,
            i,
        ) by {
            if i == 0 {
                assert(walk[1] == rest[0]);
                assert(outputs.contains(outputs[t]));
            } else {
                assert(goes_on(wiring, rest, left, end, i - 1));
                lemma_left_at_later(must_pass, start, rest, i - 1);
                assert(walk[i] == rest[i - 1]);
                if i + 1 < walk.len() {
                    assert(walk[i + 1] == rest[i]);
                }
            }
        }
        walk
    }
}

/// The place of the connection that gives `device` its outputs, or -1.
pub open spec fn connection_of(wiring: Seq<(Seq<u8>, Seq<Seq<u8>>)>, device: Seq<u8>) -> int
    decreases wiring.len(),
{
    if wiring.len() == 0 {
        -1
    } else if wiring.last().0 == device {
        wiring.len() - 1
    } else {
        connection_of(wiring.drop_last(), device)
    }
}

/// A device with outputs has a connection, which names it.
pub proof fn lemma_connection_of(wiring: Seq<(Seq<u8>, Seq<Seq<u8>>)>, device: Seq<u8>)
    requires
        outputs_of(wiring, device) is Some,
    ensures
        0 <= connection_of(wiring, device) < wiring.len(),
        wiring[connection_of(wiring, device)].0 == device,
    decreases wiring.len(),
{
    if wiring.len() > 0 && wiring.last().0 != device {
        lemma_connection_of(wiring.drop_last(), device);
    }
}

/// The number that stands for the walk at its `i`th device: one number for
/// each connection and each length of what is still to pass.
pub open spec fn state_at(
    wiring: Seq<(Seq<u8>, Seq<Seq<u8>>)>,
    walk: Seq<Seq<u8>>,
    must_pass: Seq<Seq<u8>>,
    i: int,
) -> int {
    connection_of(wiring, walk[i]) * (must_pass.len() + 1) + left_at(must_pass, walk, i).len()
}

/// A walk that is longer than there are connections, times one more than
/// there are devices to pass, comes to a device twice with the same devices
/// still to pass.
pub proof fn lemma_walk_repeats(
    wiring: Seq<(Seq<u8>, Seq<Seq<u8>>)>,
    walk: Seq<Seq<u8>>,
    must_pass: Seq<Seq<u8>>,
    end: Seq<u8>,
) -> (found: (int, int))
    requires
        is_walk(wiring, walk, must_pass, end),
        walk.len() > wiring.len() * (must_pass.len() + 1),
    ensures
        0 <= found.0 < found.1 < walk.len(),
        walk[found.0] == walk[found.1],
        left_at(must_pass, walk, found.0) == left_at(must_pass, walk, found.1),
{
    let width = must_pass.len() + 1;
    let room = wiring.len() * width;
    let states = Seq::new(walk.len(), |i: int| state_at(wiring, walk, must_pass, i));
    assert forall|i: int| 0 <= i < walk.len() implies 0 <= #[trigger] states[i] < room by {
        assert(goes_on(wiring, walk, must_pass, end, i));
        lemma_connection_of(wiring, walk[i]);
        lemma_left_at(must_pass, walk, 0, i);
        let place = connection_of(wiring, walk[i]);
        let left = left_at(must_pass, walk, i).len();
        assert(0 <= place * width + left < wiring.len() * width) by (nonlinear_arith)
            requires
                0 <= place < wiring.len(),
                0 <= left < width,
        ;
    }
    if states.no_duplicates() {
        states.unique_seq_to_set();
        lemma_int_range(0, room as int);
        assert(states.to_set().subset_of(set_int_range(0, room as int))) by {
            assert forall|x: int| states.to_set().contains(x) implies set_int_range(
                0,
                room as int,
            ).contains(x) by {
                let i = choose|i: int| 0 <= i < states.len() && states[i] == x;
                assert(0 <= states[i] < room);
            }
        }
        lemma_len_subset(states.to_set(), set_int_range(0, room as int));
        assert(false);
    }
    let (i, j) = choose|i: int, j: int|
        0 <= i < states.len() && 0 <= j < states.len() && i != j && states[i] == states[j];
    let (a, b) = if i < j {
        (i, j)
    } else {
        (j, i)
    };
    assert(goes_on(wiring, walk, must_pass, end, a));
    assert(goes_on(wiring, walk, must_pass, end, b));
    lemma_connection_of(wiring, walk[a]);
    lemma_connection_of(wiring, walk[b]);
    lemma_left_at(must_pass, walk, 0, a);
    lemma_left_at(must_pass, walk, 0, b);
    lemma_left_at(must_pass, walk, a, b);
    let place_a = connection_of(wiring, walk[a]);
    let place_b = connection_of(wiring, walk[b]);
    let left_a = left_at(must_pass, walk, a).len();
    let left_b = left_at(must_pass, walk, b).len();
    assert(states[a] == states[b]);
    assert(place_a == place_b && left_a == left_b) by (nonlinear_arith)
        requires
            place_a * width + left_a == place_b * width + left_b,
            0 <= left_a < width,
            0 <= left_b < width,
    ;
    (a, b)
}

/// A walk that runs into a bound of as many steps as there are connections,
/// times one more than there are devices to pass, has met a cycle.
pub proof fn lemma_bound_means_cycle(
    wiring: Seq<(Seq<u8>, Seq<Seq<u8>>)>,
    start: Seq<u8>,
    must_pass: Seq<Seq<u8>>,
    end: Seq<u8>,
    depth: nat,
    max: nat,
)
    requires
        paths(wiring, start, must_pass, end, depth, max) == Err::<nat, Error>(Error::Cycle),
        depth >= wiring.len() * (must_pass.len() + 1),
    ensures
        has_cycle(wiring, start, must_pass, end),
{
    let walk = lemma_long_walk(wiring, start, must_pass, end, depth, max);
    let (i, j) = lemma_walk_repeats(wiring, walk, must_pass, end);
    assert(walk[i] == walk[j]);
}

/// Whether the walk steps from the `i`th of its devices to one of the
/// outputs of that device.
pub open spec fn steps(wiring: Seq<(Seq<u8>, Seq<Seq<u8>>)>, walk: Seq<Seq<u8>>, i: int) -> bool {
    outputs_of(wiring, walk[i]) is Some && outputs_of(wiring, walk[i]).unwrap().contains(
        walk[i + 1],
    )
}

/// Whether the devices lead through the wiring from `start` to `device`,
/// each of them an output of the one before it.
pub open spec fn leads(
    wiring: Seq<(Seq<u8>, Seq<Seq<u8>>)>,
    walk: Seq<Seq<u8>>,
    start: Seq<u8>,
    device: Seq<u8>,
) -> bool {
    &&& walk.len() > 0
    &&& walk[0] == start
    &&& walk.last() == device
    &&& forall|i: int| 0 <= i < walk.len() - 1 ==> #[trigger] steps(wiring, walk, i)
}

/// Whether `device` can be reached from `start` with `left` still to pass
/// of the devices of `must_pass`: devices lead from `start` to it, and `left`
/// is `must_pass` without the devices that were left on the way.
pub open spec fn comes_to(
    wiring: Seq<(Seq<u8>, Seq<Seq<u8>>)>,
    start: Seq<u8>,
    must_pass: Seq<Seq<u8>>,
    device: Seq<u8>,
    left: Seq<Seq<u8>>,
) -> bool {
    exists|walk: Seq<Seq<u8>>| #[trigger]
        leads(wiring, walk, start, device) && left_at(must_pass, walk, walk.len() - 1) == left
}

/// A device is reached from itself with everything still to pass.
pub proof fn lemma_comes_to_itself(
    wiring: Seq<(Seq<u8>, Seq<Seq<u8>>)>,
    start: Seq<u8>,
    must_pass: Seq<Seq<u8>>,
)
    ensures
        comes_to(wiring, start, must_pass, start, must_pass),
{
    let walk = seq![start];
    assert(leads(wiring, walk, start, start));
    assert(left_at(must_pass, walk, 0) == must_pass);
}

/// What is reached from an output of `start` with `start` no longer to pass
/// is reached from `start`.
pub proof fn lemma_comes_on(
    wiring: Seq<(Seq<u8>, Seq<Seq<u8>>)>,
    start: Seq<u8>,
    must_pass: Seq<Seq<u8>>,
    next: Seq<u8>,
    device: Seq<u8>,
    left: Seq<Seq<u8>>,
)
    requires
        outputs_of(wiring, start) is Some,
        outputs_of(wiring, start).unwrap().contains(next),
        comes_to(wiring, next, without(must_pass, start), device, left),
    ensures
        comes_to(wiring, start, must_pass, device, left),
{
    let walk = choose|walk: Seq<Seq<u8>>| #[trigger]
        leads(wiring, walk, next, device) && left_at(
            without(must_pass, start),
            walk,
            walk.len() - 1,
        ) == left;
    let longer = seq![start] + walk;
    assert forall|i: int| 0 <= i < longer.len() - 1 implies #[trigger] steps(wiring, longer, i) by {
        if i > 0 {
            assert(steps(wiring, walk, i - 1));
            assert(longer[i] == walk[i - 1]);
            assert(longer[i + 1] == walk[i]);
        } else {
            assert(longer[0] == start);
            assert(longer[1] == walk[0]);
        }
    }
    assert(longer.last() == walk.last());
    assert(leads(wiring, longer, start, device));
    lemma_left_at_later(must_pass, start, walk, walk.len() - 1);
}

/// What is still to pass on a walk is in the order of the devices to pass.
pub proof fn lemma_left_in_order(must_pass: Seq<Seq<u8>>, walk: Seq<Seq<u8>>, i: int)
    ensures
        in_order(left_at(must_pass, walk, i), must_pass),
    decreases i,
{
    if i <= 0 {
        lemma_in_own_order(must_pass);
    } else {
        let before = left_at(must_pass, walk, i - 1);
        lemma_left_in_order(must_pass, walk, i - 1);
        lemma_without_in_order(before, walk[i - 1]);
        lemma_in_order_on(without(before, walk[i - 1]), before, must_pass);
    }
}

/// What is still to pass where a device is reached is in the order of the
/// devices to pass.
pub proof fn lemma_comes_in_order(
    wiring: Seq<(Seq<u8>, Seq<Seq<u8>>)>,
    start: Seq<u8>,
    must_pass: Seq<Seq<u8>>,
    device: Seq<u8>,
    left: Seq<Seq<u8>>,
)
    requires
        comes_to(wiring, start, must_pass, device, left),
    ensures
        in_order(left, must_pass),
{
    let walk = choose|walk: Seq<Seq<u8>>| #[trigger]
        leads(wiring, walk, start, device) && left_at(must_pass, walk, walk.len() - 1) == left;
    lemma_left_in_order(must_pass, walk, walk.len() - 1);
}

} // verus!
