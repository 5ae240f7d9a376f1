//! What the count of paths has to do with the list of devices to pass.
//!
//! The count depends on which devices are to be passed, not on their order
//! nor on how often the list names them.  Where the walk ends at a device
//! without outputs, more devices to pass leave no more paths.

use crate::day11::{outputs_of, paths, paths_sum, without};
use crate::error::Error;
use vstd::prelude::*;

verus! {

/// Whether every device of `list` is one of `all`.
pub open spec fn among(list: Seq<Seq<u8>>, all: Seq<Seq<u8>>) -> bool {
    forall|x: Seq<u8>| list.contains(x) ==> #[trigger] all.contains(x)
}

/// A list without a device holds the other devices of the list, and no
/// others.
pub proof fn lemma_without_holds(list: Seq<Seq<u8>>, device: Seq<u8>, x: Seq<u8>)
    ensures
        without(list, device).contains(x) <==> list.contains(x) && x != device,
    decreases list.len(),
{
    if list.len() > 0 {
        let shorter = list.drop_last();
        let rest = without(shorter, device);
        lemma_without_holds(shorter, device, x);
        if without(list, device).contains(x) {
            let at = choose|at: int|
                0 <= at < without(list, device).len() && without(list, device)[at] == x;
            if list.last() != device && at == rest.len() {
                assert(list[list.len() - 1] == x);
            } else {
                assert(rest[at] == x);
                assert(rest.contains(x));
                let there = choose|there: int| 0 <= there < shorter.len() && shorter[there] == x;
                assert(list[there] == x);
            }
        }
        if list.contains(x) && x != device {
            let at = choose|at: int| 0 <= at < list.len() && list[at] == x;
            if at < shorter.len() {
                assert(shorter[at] == x);
                assert(rest.contains(x));
                let there = choose|there: int| 0 <= there < rest.len() && rest[there] == x;
                assert(without(list, device)[there] == x);
            } else {
                assert(without(list, device)[rest.len() as int] == x);
            }
        }
    }
}

/// Lists of which each holds the devices of the other are left as such lists
/// when a device is taken out of both, and are both empty or both not.
pub proof fn lemma_among_without(a: Seq<Seq<u8>>, b: Seq<Seq<u8>>, device: Seq<u8>)
    requires
        among(a, b),
    ensures
        among(without(a, device), without(b, device)),
        b.len() == 0 ==> a.len() == 0,
{
    assert forall|x: Seq<u8>| without(a, device).contains(x) implies #[trigger] without(
        b,
        device,
    ).contains(x) by {
        lemma_without_holds(a, device, x);
        lemma_without_holds(b, device, x);
        assert(b.contains(x));
    }
    if a.len() > 0 {
        assert(a.contains(a[0]));
        assert(b.contains(a[0]));
    }
}

/// The walk finds the same, whatever the order of the devices to pass and
/// however often the list names them.
pub proof fn lemma_paths_any_order(
    wiring: Seq<(Seq<u8>, Seq<Seq<u8>>)>,
    start: Seq<u8>,
    a: Seq<Seq<u8>>,
    b: Seq<Seq<u8>>,
    end: Seq<u8>,
    depth: nat,
    max: nat,
)
    requires
        among(a, b),
        among(b, a),
    ensures
        paths(wiring, start, a, end, depth, max) == paths(wiring, start, b, end, depth, max),
    decreases depth, 0nat,
{
    lemma_among_without(a, b, start);
    lemma_among_without(b, a, start);
    if !(start == end && a.len() == 0) {
        match outputs_of(wiring, start) {
            None => {},
            Some(outputs) => {
                if depth > 0 {
                    lemma_sum_any_order(
                        wiring,
                        outputs,
                        without(a, start),
                        without(b, start),
                        end,
                        (depth - 1) as nat,
                        max,
                    );
                }
            },
        }
    }
}

/// The sum over the outputs is the same, whatever the order of the devices
/// to pass.
pub proof fn lemma_sum_any_order(
    wiring: Seq<(Seq<u8>, Seq<Seq<u8>>)>,
    outputs: Seq<Seq<u8>>,
    a: Seq<Seq<u8>>,
    b: Seq<Seq<u8>>,
    end: Seq<u8>,
    depth: nat,
    max: nat,
)
    requires
        among(a, b),
        among(b, a),
    ensures
        paths_sum(wiring, outputs, a, end, depth, max) == paths_sum(
            wiring,
            outputs,
            b,
            end,
            depth,
            max,
        ),
    decreases depth, 1 + outputs.len(),
{
    if outputs.len() > 0 {
        lemma_sum_any_order(wiring, outputs.drop_last(), a, b, end, depth, max);
        lemma_paths_any_order(wiring, outputs.last(), a, b, end, depth, max);
    }
}

/// Where the walk ends at a device without outputs, more devices to pass
/// leave no more paths.
pub proof fn lemma_paths_fewer(
    wiring: Seq<(Seq<u8>, Seq<Seq<u8>>)>,
    start: Seq<u8>,
    fewer: Seq<Seq<u8>>,
    more: Seq<Seq<u8>>,
    end: Seq<u8>,
    depth: nat,
    max: nat,
)
    requires
        among(fewer, more),
        outputs_of(wiring, end) is None,
        paths(wiring, start, fewer, end, depth, max) is Ok,
        paths(wiring, start, more, end, depth, max) is Ok,
    ensures
        paths(wiring, start, more, end, depth, max).unwrap() <= paths(
            wiring,
            start,
            fewer,
            end,
            depth,
            max,
        ).unwrap(),
    decreases depth, 0nat,
{
    lemma_among_without(fewer, more, start);
    if start != end {
        match outputs_of(wiring, start) {
            None => {},
            Some(outputs) => {
                lemma_sum_fewer(
                    wiring,
                    outputs,
                    without(fewer, start),
                    without(more, start),
                    end,
                    (depth - 1) as nat,
                    max,
                );
            },
        }
    }
}

/// Where the walk ends at a device without outputs, more devices to pass
/// leave no larger sum over the outputs.
pub proof fn lemma_sum_fewer(
    wiring: Seq<(Seq<u8>, Seq<Seq<u8>>)>,
    outputs: Seq<Seq<u8>>,
    fewer: Seq<Seq<u8>>,
    more: Seq<Seq<u8>>,
    end: Seq<u8>,
    depth: nat,
    max: nat,
)
    requires
        among(fewer, more),
        outputs_of(wiring, end) is None,
        paths_sum(wiring, outputs, fewer, end, depth, max) is Ok,
        paths_sum(wiring, outputs, more, end, depth, max) is Ok,
    ensures
        paths_sum(wiring, outputs, more, end, depth, max).unwrap() <= paths_sum(
            wiring,
            outputs,
            fewer,
            end,
            depth,
            max,
        ).unwrap(),
    decreases depth, 1 + outputs.len(),
{
    if outputs.len() > 0 {
        lemma_sum_fewer(wiring, outputs.drop_last(), fewer, more, end, depth, max);
        lemma_paths_fewer(wiring, outputs.last(), fewer, more, end, depth, max);
    }
}

/// Whether `list` holds devices of `all` in the order in which `all` holds
/// them: `list` is `all` with some of its places left out.
pub open spec fn in_order(list: Seq<Seq<u8>>, all: Seq<Seq<u8>>) -> bool
    decreases all.len(),
{
    if list.len() == 0 {
        true
    } else if all.len() == 0 {
        false
    } else if list.last() == all.last() {
        in_order(list.drop_last(), all.drop_last())
    } else {
        in_order(list, all.drop_last())
    }
}

/// A list is in its own order.
pub proof fn lemma_in_own_order(list: Seq<Seq<u8>>)
    ensures
        in_order(list, list),
    decreases list.len(),
{
    if list.len() > 0 {
        lemma_in_own_order(list.drop_last());
    }
}

/// A list that is in the order of another is so without its last device.
pub proof fn lemma_in_order_shorter(list: Seq<Seq<u8>>, all: Seq<Seq<u8>>)
    requires
        in_order(list, all),
        list.len() > 0,
    ensures
        in_order(list.drop_last(), all),
    decreases all.len(),
{
    let shorter = list.drop_last();
    if shorter.len() > 0 {
        if list.last() == all.last() {
            if shorter.last() == all.last() {
                lemma_in_order_shorter(shorter, all.drop_last());
            }
        } else {
            lemma_in_order_shorter(list, all.drop_last());
            if shorter.last() == all.last() {
                lemma_in_order_shorter(shorter, all.drop_last());
            }
        }
    }
}

/// A list in the order of a list that is in the order of a third is in the
/// order of the third.
pub proof fn lemma_in_order_on(list: Seq<Seq<u8>>, narrow: Seq<Seq<u8>>, wide: Seq<Seq<u8>>)
    requires
        in_order(list, narrow),
        in_order(narrow, wide),
    ensures
        in_order(list, wide),
    decreases wide.len(),
{
    if list.len() > 0 {
        if narrow.last() == wide.last() {
            if list.last() == narrow.last() {
                lemma_in_order_on(list.drop_last(), narrow.drop_last(), wide.drop_last());
            } else {
                lemma_in_order_on(list, narrow.drop_last(), wide.drop_last());
            }
        } else {
            lemma_in_order_on(list, narrow, wide.drop_last());
            if list.last() == wide.last() {
                lemma_in_order_shorter(list, wide.drop_last());
            }
        }
    }
}

/// A list without a device is in the order of the list.
pub proof fn lemma_without_in_order(list: Seq<Seq<u8>>, device: Seq<u8>)
    ensures
        in_order(without(list, device), list),
    decreases list.len(),
{
    if list.len() > 0 {
        let rest = without(list.drop_last(), device);
        lemma_without_in_order(list.drop_last(), device);
        if list.last() == device {
            if rest.len() > 0 {
                lemma_without_holds(list.drop_last(), device, rest.last());
                assert(rest[rest.len() - 1] == rest.last());
                assert(rest.contains(rest.last()));
            }
        } else {
            assert(rest.push(list.last()).drop_last() =~= rest);
        }
    }
}

} // verus!
