//! Devices and the wires between them: every line names a device and the
//! devices that its outputs lead to.
//!
//! The paths from one device to another are counted by following every
//! output in turn.  A wiring that leads back into itself has no finite
//! count, so the walk is bounded by a depth, and a walk that reaches the
//! bound is reported as a cycle.

use crate::error::Error;
use crate::text::{
    byte_at, has_byte, list_at, parse_list, run_end, same_bytes, skip_run, Class, Item, Separator,
};
use vstd::prelude::*;
use vstd::slice::slice_subrange;
use vstd::slice::slice_to_vec;
use vstd::string::*;

pub mod lists;
pub mod part_1;
pub mod part_2;
pub mod walks;


verus! {

/// A device, known by its name.
#[derive(Debug)]
pub struct Device {
    pub name: Vec<u8>,
}

/// A device and the devices that its outputs lead to.
#[derive(Debug)]
pub struct Connection {
    pub device: Device,
    pub outputs: Vec<Device>,
}

impl DeepView for Device {
    type V = Seq<u8>;

    open spec fn deep_view(&self) -> Seq<u8> {
        self.name@
    }
}

impl DeepView for Connection {
    type V = (Seq<u8>, Seq<Seq<u8>>);

    open spec fn deep_view(&self) -> (Seq<u8>, Seq<Seq<u8>>) {
        (self.device.deep_view(), self.outputs.deep_view())
    }
}

impl Item for Device {
    /// A name: one ASCII letter or more.
    open spec fn item_at(s: Seq<u8>, pos: int) -> Option<(Seq<u8>, int)> {
        let end = run_end(s, pos, Class::Alpha);
        if pos < end {
            Some((s.subrange(pos, end), end))
        } else {
            None
        }
    }

    fn parse(input: &[u8], pos: usize) -> (r: Option<(Device, usize)>) {
        let end = skip_run(input, pos, Class::Alpha);
        if pos < end {
            let name = slice_to_vec(slice_subrange(input, pos, end));
            Some((Device { name }, end))
        } else {
            None
        }
    }
}

impl Item for Connection {
    /// A name, a colon and a space, then names with spaces between them.
    open spec fn item_at(s: Seq<u8>, pos: int) -> Option<((Seq<u8>, Seq<Seq<u8>>), int)> {
        match Device::item_at(s, pos) {
            Some((device, colon)) => if byte_at(s, colon, 0x3a) && byte_at(s, colon + 1, 0x20) {
                match list_at::<Device>(s, colon + 2, Separator::Spaces) {
                    Some((outputs, end)) => Some(((device, outputs), end)),
                    None => None,
                }
            } else {
                None
            },
            None => None,
        }
    }

    fn parse(input: &[u8], pos: usize) -> (r: Option<(Connection, usize)>) {
        let (device, colon) = match Device::parse(input, pos) {
            Some(found) => found,
            None => { return None; },
        };
        if !(has_byte(input, colon, 0x3a) && has_byte(input, colon + 1, 0x20)) {
            return None;
        }
        match parse_list::<Device>(input, colon + 2, Separator::Spaces) {
            Some((outputs, end)) => Some((Connection { device, outputs }, end)),
            None => None,
        }
    }
}

impl Device {
    /// Makes the device of the name that `name` spells.
    pub fn named(name: &str) -> (r: Device)
        ensures
            r.deep_view() == name.spec_bytes(),
    {
        Device { name: slice_to_vec(name.as_bytes()) }
    }

    /// Makes a second device of the same name.
    pub fn duplicate(&self) -> (r: Device)
        ensures
            r.deep_view() == self.deep_view(),
    {
        Device { name: slice_to_vec(self.name.as_slice()) }
    }

    /// Tells whether two devices are the same.
    pub fn same(&self, other: &Device) -> (r: bool)
        ensures
            r == (self.deep_view() == other.deep_view()),
    {
        same_bytes(self.name.as_slice(), other.name.as_slice())
    }
}

/// The outputs of `device`: those of the last connection that names it, or
/// none where no connection does.
pub open spec fn outputs_of(wiring: Seq<(Seq<u8>, Seq<Seq<u8>>)>, device: Seq<u8>) -> Option<
    Seq<Seq<u8>>,
>
    decreases wiring.len(),
{
    if wiring.len() == 0 {
        None
    } else if wiring.last().0 == device {
        Some(wiring.last().1)
    } else {
        outputs_of(wiring.drop_last(), device)
    }
}

/// The devices of `list` other than `device`, in their order.
pub open spec fn without(list: Seq<Seq<u8>>, device: Seq<u8>) -> Seq<Seq<u8>>
    decreases list.len(),
{
    if list.len() == 0 {
        Seq::empty()
    } else if list.last() == device {
        without(list.drop_last(), device)
    } else {
        without(list.drop_last(), device).push(list.last())
    }
}

/// The number of paths from `start` to `end` that pass every device of
/// `must_pass`, as a walk of at most `depth` steps finds it.
///
/// At `end`, with nothing left to pass, there is one path.  Elsewhere the
/// paths are those of the outputs of `start`, which need not pass `start`
/// again; a device without a connection has none.  The walk fails with
/// `Cycle` where it is `depth` steps deep and there are outputs still, and
/// with `Overflow` where a sum of counts is more than `max`.
pub open spec fn paths(
    wiring: Seq<(Seq<u8>, Seq<Seq<u8>>)>,
    start: Seq<u8>,
    must_pass: Seq<Seq<u8>>,
    end: Seq<u8>,
    depth: nat,
    max: nat,
) -> Result<nat, Error>
    decreases depth, 0nat,
{
    if start == end && must_pass.len() == 0 {
        Ok(1)
    } else {
        match outputs_of(wiring, start) {
            None => Ok(0),
            Some(outputs) => if depth == 0 {
                Err(Error::Cycle)
            } else {
                paths_sum(
                    wiring,
                    outputs,
                    without(must_pass, start),
                    end,
                    (depth - 1) as nat,
                    max,
                )
            },
        }
    }
}

/// The sum of the paths from each of `outputs` to `end`, added up from the
/// first output on; the first failure on the way is the result.
pub open spec fn paths_sum(
    wiring: Seq<(Seq<u8>, Seq<Seq<u8>>)>,
    outputs: Seq<Seq<u8>>,
    must_pass: Seq<Seq<u8>>,
    end: Seq<u8>,
    depth: nat,
    max: nat,
) -> Result<nat, Error>
    decreases depth, 1 + outputs.len(),
{
    if outputs.len() == 0 {
        Ok(0)
    } else {
        match paths_sum(wiring, outputs.drop_last(), must_pass, end, depth, max) {
            Err(e) => Err(e),
            Ok(before) => match paths(wiring, outputs.last(), must_pass, end, depth, max) {
                Err(e) => Err(e),
                Ok(more) => if before + more > max {
                    Err(Error::Overflow)
                } else {
                    Ok(before + more)
                },
            },
        }
    }
}

/// A count that the walk finds is at most `max`, if `max` is not 0.
pub proof fn lemma_paths_bounded(
    wiring: Seq<(Seq<u8>, Seq<Seq<u8>>)>,
    start: Seq<u8>,
    must_pass: Seq<Seq<u8>>,
    end: Seq<u8>,
    depth: nat,
    max: nat,
)
    requires
        max >= 1,
    ensures
        paths(wiring, start, must_pass, end, depth, max) matches Ok(n) ==> n <= max,
    decreases depth,
{
    if start == end && must_pass.len() == 0 {
    } else {
        match outputs_of(wiring, start) {
            None => {},
            Some(outputs) => {
                if depth > 0 {
                    let rest = without(must_pass, start);
                    if outputs.len() > 0 {
                        assert(paths_sum(wiring, outputs, rest, end, (depth - 1) as nat, max)
                            matches Ok(n) ==> n <= max);
                    }
                }
            },
        }
    }
}

/// A failure among the first outputs is the failure of the whole sum.
pub proof fn lemma_sum_fails_early(
    wiring: Seq<(Seq<u8>, Seq<Seq<u8>>)>,
    outputs: Seq<Seq<u8>>,
    must_pass: Seq<Seq<u8>>,
    end: Seq<u8>,
    depth: nat,
    max: nat,
    k: int,
)
    requires
        0 <= k <= outputs.len(),
        paths_sum(wiring, outputs.take(k), must_pass, end, depth, max) is Err,
    ensures
        paths_sum(wiring, outputs, must_pass, end, depth, max) == paths_sum(
            wiring,
            outputs.take(k),
            must_pass,
            end,
            depth,
            max,
        ),
    decreases outputs.len() - k,
{
    if k < outputs.len() {
        assert(outputs.take(k + 1).drop_last() =~= outputs.take(k));
        lemma_sum_fails_early(wiring, outputs, must_pass, end, depth, max, k + 1);
    } else {
        assert(outputs.take(k) =~= outputs);
    }
}

/// A walk that did not run into its bound finds the same with a larger
/// bound.
pub proof fn lemma_paths_settle(
    wiring: Seq<(Seq<u8>, Seq<Seq<u8>>)>,
    start: Seq<u8>,
    must_pass: Seq<Seq<u8>>,
    end: Seq<u8>,
    depth: nat,
    deeper: nat,
    max: nat,
)
    requires
        depth <= deeper,
        paths(wiring, start, must_pass, end, depth, max) != Err::<nat, Error>(Error::Cycle),
    ensures
        paths(wiring, start, must_pass, end, deeper, max) == paths(
            wiring,
            start,
            must_pass,
            end,
            depth,
            max,
        ),
    decreases depth, 0nat,
{
    if start == end && must_pass.len() == 0 {
    } else {
        match outputs_of(wiring, start) {
            None => {},
            Some(outputs) => {
                lemma_sum_settles(
                    wiring,
                    outputs,
                    without(must_pass, start),
                    end,
                    (depth - 1) as nat,
                    (deeper - 1) as nat,
                    max,
                );
            },
        }
    }
}

/// A sum that did not run into its bound is the same with a larger bound.
pub proof fn lemma_sum_settles(
    wiring: Seq<(Seq<u8>, Seq<Seq<u8>>)>,
    outputs: Seq<Seq<u8>>,
    must_pass: Seq<Seq<u8>>,
    end: Seq<u8>,
    depth: nat,
    deeper: nat,
    max: nat,
)
    requires
        depth <= deeper,
        paths_sum(wiring, outputs, must_pass, end, depth, max) != Err::<nat, Error>(Error::Cycle),
    ensures
        paths_sum(wiring, outputs, must_pass, end, deeper, max) == paths_sum(
            wiring,
            outputs,
            must_pass,
            end,
            depth,
            max,
        ),
    decreases depth, 1 + outputs.len(),
{
    if outputs.len() > 0 {
        lemma_sum_settles(wiring, outputs.drop_last(), must_pass, end, depth, deeper, max);
        if paths_sum(wiring, outputs.drop_last(), must_pass, end, depth, max) is Ok {
            lemma_paths_settle(wiring, outputs.last(), must_pass, end, depth, deeper, max);
        }
    }
}

/// Finds the outputs of `device`.
pub fn find_outputs<'a>(connections: &'a Vec<Connection>, device: &Device) -> (r: Option<
    &'a Vec<Device>,
>)
    ensures
        match r {
            Some(outputs) => outputs_of(connections.deep_view(), device.deep_view()) == Some(
                outputs.deep_view(),
            ),
            None => outputs_of(connections.deep_view(), device.deep_view()) is None,
        },
{
    let mut i = connections.len();
    assert(connections.deep_view().take(i as int) =~= connections.deep_view());
    while i > 0
        invariant
            0 <= i <= connections@.len(),
            outputs_of(connections.deep_view(), device.deep_view()) == outputs_of(
                connections.deep_view().take(i as int),
                device.deep_view(),
            ),
        decreases i,
    {
        proof {
            assert(connections.deep_view().take(i as int).drop_last()
                =~= connections.deep_view().take(i - 1));
        }
        i -= 1;
        if connections[i].device.same(device) {
            return Some(&connections[i].outputs);
        }
    }
    None
}

/// Lists the devices of `list` other than `device`.
pub fn remove_device(list: &Vec<Device>, device: &Device) -> (r: Vec<Device>)
    ensures
        r.deep_view() == without(list.deep_view(), device.deep_view()),
{
    let mut rest: Vec<Device> = Vec::new();
    let mut i: usize = 0;
    assert(list.deep_view().take(0) =~= Seq::empty());
    assert(rest.deep_view() =~= Seq::empty());
    while i < list.len()
        invariant
            0 <= i <= list@.len(),
            rest.deep_view() == without(list.deep_view().take(i as int), device.deep_view()),
        decreases list@.len() - i,
    {
        proof {
            assert(list.deep_view().take(i + 1).drop_last() =~= list.deep_view().take(i as int));
        }
        if !list[i].same(device) {
            let ghost before = rest.deep_view();
            rest.push(list[i].duplicate());
            proof {
                assert(rest.deep_view() =~= before.push(list.deep_view()[i as int]));
            }
        }
        i += 1;
    }
    assert(list.deep_view().take(i as int) =~= list.deep_view());
    rest
}

/// Makes a second list of the same devices.
pub fn copy_devices(list: &Vec<Device>) -> (r: Vec<Device>)
    ensures
        r.deep_view() == list.deep_view(),
{
    let mut copy: Vec<Device> = Vec::new();
    let mut i: usize = 0;
    while i < list.len()
        invariant
            0 <= i <= list@.len(),
            copy@.len() == i,
            forall|k: int| 0 <= k < i ==> (#[trigger] copy@[k]).deep_view() == list@[k].deep_view(),
        decreases list@.len() - i,
    {
        copy.push(list[i].duplicate());
        i += 1;
    }
    assert(copy.deep_view() =~= list.deep_view());
    copy
}

/// Tells whether two lists hold the same devices in the same order.
pub fn same_devices(a: &Vec<Device>, b: &Vec<Device>) -> (r: bool)
    ensures
        r == (a.deep_view() == b.deep_view()),
{
    if a.len() != b.len() {
        assert(a.deep_view().len() != b.deep_view().len());
        return false;
    }
    let mut i: usize = 0;
    while i < a.len()
        invariant
            a@.len() == b@.len(),
            0 <= i <= a@.len(),
            forall|k: int| 0 <= k < i ==> (#[trigger] a@[k]).deep_view() == b@[k].deep_view(),
        decreases a@.len() - i,
    {
        if !a[i].same(&b[i]) {
            assert(a.deep_view()[i as int] != b.deep_view()[i as int]);
            return false;
        }
        i += 1;
    }
    assert(a.deep_view() =~= b.deep_view());
    true
}

/// What a count of 64 bits, or a failure, says of the number of paths.
pub open spec fn outcome(r: Result<u64, Error>) -> Result<nat, Error> {
    match r {
        Ok(n) => Ok(n as nat),
        Err(e) => Err(e),
    }
}

/// Counts the paths from `start` to `end` that pass every device of
/// `must_pass`, in a walk of at most `depth` steps, with sums up to `max`.
pub fn walk_paths(
    connections: &Vec<Connection>,
    start: &Device,
    must_pass: &Vec<Device>,
    end: &Device,
    depth: usize,
    max: u64,
) -> (r: Result<u64, Error>)
    ensures
        outcome(r) == paths(
            connections.deep_view(),
            start.deep_view(),
            must_pass.deep_view(),
            end.deep_view(),
            depth as nat,
            max as nat,
        ),
    decreases depth,
{
    if start.same(end) && must_pass.len() == 0 {
        return Ok(1);
    }
    let outputs = match find_outputs(connections, start) {
        None => { return Ok(0); },
        Some(outputs) => outputs,
    };
    if depth == 0 {
        return Err(Error::Cycle);
    }
    let rest = remove_device(must_pass, start);
    let mut total: u64 = 0;
    let mut k: usize = 0;
    let ghost wiring = connections.deep_view();
    let ghost targets = outputs.deep_view();
    assert(targets.take(0) =~= Seq::empty());
    while k < outputs.len()
        invariant
            0 <= k <= outputs@.len(),
            depth > 0,
            wiring == connections.deep_view(),
            targets == outputs.deep_view(),
            total <= max,
            !(start.deep_view() == end.deep_view() && must_pass.deep_view().len() == 0),
            outputs_of(wiring, start.deep_view()) == Some(targets),
            rest.deep_view() == without(must_pass.deep_view(), start.deep_view()),
            paths_sum(
                wiring,
                targets.take(k as int),
                rest.deep_view(),
                end.deep_view(),
                (depth - 1) as nat,
                max as nat,
            ) == Ok::<nat, Error>(total as nat),
        decreases outputs@.len() - k,
    {
        proof {
            assert(targets.take(k + 1).drop_last() =~= targets.take(k as int));
            assert(targets.take(k + 1).last() == outputs@[k as int].deep_view());
        }
        match walk_paths(connections, &outputs[k], &rest, end, depth - 1, max) {
            Err(e) => {
                proof {
                    lemma_sum_fails_early(
                        wiring,
                        targets,
                        rest.deep_view(),
                        end.deep_view(),
                        (depth - 1) as nat,
                        max as nat,
                        k + 1,
                    );
                }
                return Err(e);
            },
            Ok(more) => {
                if more > max - total {
                    proof {
                        lemma_sum_fails_early(
                            wiring,
                            targets,
                            rest.deep_view(),
                            end.deep_view(),
                            (depth - 1) as nat,
                            max as nat,
                            k + 1,
                        );
                    }
                    return Err(Error::Overflow);
                }
                total += more;
            },
        }
        k += 1;
    }
    proof {
        assert(targets.take(k as int) =~= targets);
    }
    Ok(total)
}

} // verus!
