//! The paths from the device `svr` to the device `out` that pass both `fft`
//! and `dac`.
//!
//! A walk meets the same device with the same devices still to pass many
//! times over, so the counts it has found are kept in a memo.

use crate::day11::{
    copy_devices, find_outputs, lemma_paths_settle, lemma_sum_fails_early, lemma_sum_settles,
    outcome, outputs_of, paths, paths_sum, remove_device, same_devices, walk_paths, without,
    Connection, Device,
};
use crate::day11::lists::{among, in_order, lemma_in_own_order, lemma_paths_any_order, lemma_paths_fewer};
use crate::day11::walks::{
    comes_to, has_cycle, lemma_bound_means_cycle, lemma_comes_in_order, lemma_comes_on,
    lemma_comes_to_itself,
};
use crate::error::{Error, Stage};
use crate::text::{list_at, parse_list, Separator};
use vstd::prelude::*;
use vstd::string::*;

verus! {

/// A count that a walk has found.
#[derive(Debug)]
pub struct MemoEntry {
    pub device: Device,
    pub must_pass: Vec<Device>,
    pub paths: u64,
}

/// The counts that a walk has found so far, each kept under a device and the
/// devices that were still to pass there.  The first entry under a key is
/// the one that counts; `insert` keeps one entry for a key.
#[derive(Debug)]
pub struct Memo {
    pub entries: Vec<MemoEntry>,
}

/// Whether `found` is what a walk from `start` finds that is deep enough not
/// to run into its bound: a count, or `Overflow`.
pub open spec fn settled(
    wiring: Seq<(Seq<u8>, Seq<Seq<u8>>)>,
    start: Seq<u8>,
    must_pass: Seq<Seq<u8>>,
    end: Seq<u8>,
    found: Result<nat, Error>,
) -> bool {
    &&& found != Err::<nat, Error>(Error::Cycle)
    &&& exists|depth: nat| #[trigger]
        paths(wiring, start, must_pass, end, depth, u64::MAX as nat) == found
}

/// Two walks that are deep enough find the same.
pub proof fn lemma_settled_once(
    wiring: Seq<(Seq<u8>, Seq<Seq<u8>>)>,
    start: Seq<u8>,
    must_pass: Seq<Seq<u8>>,
    end: Seq<u8>,
    first: Result<nat, Error>,
    second: Result<nat, Error>,
)
    requires
        settled(wiring, start, must_pass, end, first),
        settled(wiring, start, must_pass, end, second),
    ensures
        first == second,
{
    let a = choose|depth: nat| #[trigger]
        paths(wiring, start, must_pass, end, depth, u64::MAX as nat) == first;
    let b = choose|depth: nat| #[trigger]
        paths(wiring, start, must_pass, end, depth, u64::MAX as nat) == second;
    if a <= b {
        lemma_paths_settle(wiring, start, must_pass, end, a, b, u64::MAX as nat);
    } else {
        lemma_paths_settle(wiring, start, must_pass, end, b, a, u64::MAX as nat);
    }
}

/// What a walk of `depth` steps finds, if it is deep enough for the count
/// `found`: that count, or the bound.
proof fn lemma_found_or_bound(
    wiring: Seq<(Seq<u8>, Seq<Seq<u8>>)>,
    start: Seq<u8>,
    must_pass: Seq<Seq<u8>>,
    end: Seq<u8>,
    found: Result<nat, Error>,
    depth: nat,
)
    requires
        settled(wiring, start, must_pass, end, found),
    ensures
        paths(wiring, start, must_pass, end, depth, u64::MAX as nat) == found || paths(
            wiring,
            start,
            must_pass,
            end,
            depth,
            u64::MAX as nat,
        ) == Err::<nat, Error>(Error::Cycle),
{
    let here = paths(wiring, start, must_pass, end, depth, u64::MAX as nat);
    if here != Err::<nat, Error>(Error::Cycle) {
        assert(settled(wiring, start, must_pass, end, here));
        lemma_settled_once(wiring, start, must_pass, end, found, here);
    }
}

/// Whether the entry is the count from `device` with `must_pass` still to
/// pass.
pub open spec fn keyed(entry: MemoEntry, device: Seq<u8>, must_pass: Seq<Seq<u8>>) -> bool {
    entry.device.deep_view() == device && entry.must_pass.deep_view() == must_pass
}

/// Where the first entry at or after `from` stands that is the count from
/// `device` with `must_pass` still to pass; behind the entries where there is
/// none.
pub open spec fn place(
    entries: Seq<MemoEntry>,
    device: Seq<u8>,
    must_pass: Seq<Seq<u8>>,
    from: int,
) -> int
    decreases entries.len() - from,
{
    if 0 <= from < entries.len() && !keyed(entries[from], device, must_pass) {
        place(entries, device, must_pass, from + 1)
    } else {
        from
    }
}

/// The first entry from `from` on that is kept under a key stands inside the
/// entries or right behind them, no entry before it is kept under the key,
/// and it is where it stands.
pub proof fn lemma_place(
    entries: Seq<MemoEntry>,
    device: Seq<u8>,
    must_pass: Seq<Seq<u8>>,
    from: int,
)
    requires
        0 <= from <= entries.len(),
    ensures
        from <= place(entries, device, must_pass, from) <= entries.len(),
        forall|i: int|
            from <= i < place(entries, device, must_pass, from) ==> !keyed(
                #[trigger] entries[i],
                device,
                must_pass,
            ),
        place(entries, device, must_pass, from) < entries.len() ==> keyed(
            entries[place(entries, device, must_pass, from)],
            device,
            must_pass,
        ),
    decreases entries.len() - from,
{
    if from < entries.len() && !keyed(entries[from], device, must_pass) {
        lemma_place(entries, device, must_pass, from + 1);
    }
}

/// Entries that are kept under the same keys, place by place, have the first
/// entry under a key at the same place.
pub proof fn lemma_place_same(
    before: Seq<MemoEntry>,
    after: Seq<MemoEntry>,
    device: Seq<u8>,
    must_pass: Seq<Seq<u8>>,
    from: int,
)
    requires
        0 <= from <= before.len() <= after.len(),
        forall|i: int|
            0 <= i < before.len() ==> keyed(#[trigger] before[i], device, must_pass) == keyed(
                after[i],
                device,
                must_pass,
            ),
        forall|i: int|
            before.len() <= i < after.len() ==> !keyed(#[trigger] after[i], device, must_pass),
    ensures
        place(before, device, must_pass, from) < before.len() ==> place(
            after,
            device,
            must_pass,
            from,
        ) == place(before, device, must_pass, from),
        place(before, device, must_pass, from) >= before.len() ==> place(
            after,
            device,
            must_pass,
            from,
        ) == after.len(),
    decreases after.len() - from,
{
    if from < before.len() {
        assert(keyed(before[from], device, must_pass) == keyed(after[from], device, must_pass));
        if !keyed(before[from], device, must_pass) {
            lemma_place_same(before, after, device, must_pass, from + 1);
        }
    } else {
        lemma_place(after, device, must_pass, from);
        lemma_place(before, device, must_pass, from);
        if place(after, device, must_pass, from) < after.len() {
            assert(keyed(after[place(after, device, must_pass, from)], device, must_pass));
        }
    }
}

/// Whether the entry is kept on a walk from `start` with `must_pass` to
/// pass: its device can be reached from `start` with the devices of the
/// entry still to pass, and these are in the order of `must_pass`.
pub open spec fn on_walk(
    wiring: Seq<(Seq<u8>, Seq<Seq<u8>>)>,
    start: Seq<u8>,
    must_pass: Seq<Seq<u8>>,
    entry: MemoEntry,
) -> bool {
    &&& comes_to(wiring, start, must_pass, entry.device.deep_view(), entry.must_pass.deep_view())
    &&& in_order(entry.must_pass.deep_view(), must_pass)
}

impl Memo {
    /// Whether every count in the memo is what a walk to `end` finds that is
    /// deep enough.
    pub open spec fn sound(self, wiring: Seq<(Seq<u8>, Seq<Seq<u8>>)>, end: Seq<u8>) -> bool {
        forall|i: int|
            0 <= i < self.entries@.len() ==> settled(
                wiring,
                (#[trigger] self.entries@[i]).device.deep_view(),
                self.entries@[i].must_pass.deep_view(),
                end,
                Ok(self.entries@[i].paths as nat),
            )
    }

    /// The count that is kept from `device` with `must_pass` still to pass:
    /// that of the first entry under this key.
    pub open spec fn kept(self, device: Seq<u8>, must_pass: Seq<Seq<u8>>) -> Option<u64> {
        let at = place(self.entries@, device, must_pass, 0);
        if at < self.entries@.len() {
            Some(self.entries@[at].paths)
        } else {
            None
        }
    }

    /// Whether the memo has grown out of `before` in a walk from `start`
    /// with `must_pass` to pass: the entries of `before` stand at their
    /// places, and each entry behind them is kept under a device that the
    /// walk can reach, with what is still to pass there.
    pub open spec fn grown_from(
        self,
        before: Memo,
        wiring: Seq<(Seq<u8>, Seq<Seq<u8>>)>,
        start: Seq<u8>,
        must_pass: Seq<Seq<u8>>,
    ) -> bool {
        &&& before.entries@.len() <= self.entries@.len()
        &&& forall|i: int|
            0 <= i < before.entries@.len() ==> #[trigger] self.entries@[i] == before.entries@[i]
        &&& forall|i: int|
            before.entries@.len() <= i < self.entries@.len() ==> on_walk(
                wiring,
                start,
                must_pass,
                #[trigger] self.entries@[i],
            )
    }

    /// Makes an empty memo.
    pub fn new() -> (r: Memo)
        ensures
            r.entries@.len() == 0,
    {
        Memo { entries: Vec::new() }
    }

    /// Looks up the count from `device` with `must_pass` still to pass.
    pub fn get(&self, device: &Device, must_pass: &Vec<Device>) -> (r: Option<u64>)
        ensures
            r == self.kept(device.deep_view(), must_pass.deep_view()),
    {
        match self.find(device, must_pass) {
            Some(at) => Some(self.entries[at].paths),
            None => None,
        }
    }

    /// Finds the first entry from `device` with `must_pass` still to pass.
    pub fn find(&self, device: &Device, must_pass: &Vec<Device>) -> (r: Option<usize>)
        ensures
            match r {
                Some(at) => at < self.entries@.len() && at == place(
                    self.entries@,
                    device.deep_view(),
                    must_pass.deep_view(),
                    0,
                ),
                None => place(self.entries@, device.deep_view(), must_pass.deep_view(), 0)
                    == self.entries@.len(),
            },
    {
        let mut i: usize = 0;
        while i < self.entries.len()
            invariant
                0 <= i <= self.entries@.len(),
                place(self.entries@, device.deep_view(), must_pass.deep_view(), 0) == place(
                    self.entries@,
                    device.deep_view(),
                    must_pass.deep_view(),
                    i as int,
                ),
            decreases self.entries@.len() - i,
        {
            if self.entries[i].device.same(device) && same_devices(
                &self.entries[i].must_pass,
                must_pass,
            ) {
                return Some(i);
            }
            i += 1;
        }
        None
    }

    /// Keeps the count from `device` with `must_pass` still to pass, in place
    /// of the count that was kept under this key, if there was one.
    pub fn insert(&mut self, device: &Device, must_pass: &Vec<Device>, count: u64)
        ensures
            final(self).kept(device.deep_view(), must_pass.deep_view()) == Some(count),
            forall|other: Seq<u8>, others: Seq<Seq<u8>>|
                !(other == device.deep_view() && others == must_pass.deep_view()) ==> (
                #[trigger] final(self).kept(other, others)) == old(self).kept(other, others),
            final(self).entries@.len() == if place(
                old(self).entries@,
                device.deep_view(),
                must_pass.deep_view(),
                0,
            ) < old(self).entries@.len() {
                old(self).entries@.len()
            } else {
                old(self).entries@.len() + 1
            },
            forall|i: int|
                0 <= i < old(self).entries@.len() && i != place(
                    old(self).entries@,
                    device.deep_view(),
                    must_pass.deep_view(),
                    0,
                ) ==> #[trigger] final(self).entries@[i] == old(self).entries@[i],
            place(final(self).entries@, device.deep_view(), must_pass.deep_view(), 0) == place(
                old(self).entries@,
                device.deep_view(),
                must_pass.deep_view(),
                0,
            ),
            keyed(
                final(self).entries@[place(
                    old(self).entries@,
                    device.deep_view(),
                    must_pass.deep_view(),
                    0,
                )],
                device.deep_view(),
                must_pass.deep_view(),
            ),
    {
        let ghost before = self.entries@;
        let ghost key = device.deep_view();
        let ghost list = must_pass.deep_view();
        let entry = MemoEntry {
            device: device.duplicate(),
            must_pass: copy_devices(must_pass),
            paths: count,
        };
        proof {
            lemma_place(before, key, list, 0);
        }
        match self.find(device, must_pass) {
            Some(at) => {
                self.entries[at] = entry;
            },
            None => {
                self.entries.push(entry);
            },
        }
        proof {
            let after = self.entries@;
            let at = place(before, key, list, 0);
            assert forall|i: int| 0 <= i < before.len() implies keyed(
                #[trigger] before[i],
                key,
                list,
            ) == keyed(after[i], key, list) by {
                if i != at {
                    assert(after[i] == before[i]);
                }
            }
            lemma_place(after, key, list, 0);
            assert(place(after, key, list, 0) == at) by {
                if at < before.len() {
                    lemma_place_same(before, after, key, list, 0);
                } else {
                    assert forall|i: int| 0 <= i < at implies !keyed(
                        #[trigger] after[i],
                        key,
                        list,
                    ) by {
                        assert(after[i] == before[i]);
                    }
                    assert(keyed(after[at], key, list));
                }
            }
            assert forall|other: Seq<u8>, others: Seq<Seq<u8>>|
                !(other == key && others == list) implies (#[trigger] self.kept(other, others))
                == old(self).kept(other, others) by {
                assert forall|i: int| 0 <= i < before.len() implies keyed(
                    #[trigger] before[i],
                    other,
                    others,
                ) == keyed(after[i], other, others) by {
                    if i != at {
                        assert(after[i] == before[i]);
                    }
                }
                lemma_place(before, other, others, 0);
                lemma_place_same(before, after, other, others, 0);
                let there = place(before, other, others, 0);
                if there < before.len() {
                    assert(keyed(before[there], other, others));
                    assert(there != at);
                    assert(after[there] == before[there]);
                }
            }
        }
    }
}

/// How deep a walk through `connections` connections with `must_pass`
/// devices to pass can lead without meeting a device twice in the same
/// state: once through every connection for every number of devices still
/// to pass.
pub open spec fn depth_bound(connections: nat, must_pass: nat) -> nat {
    if connections * (must_pass + 1) <= usize::MAX {
        connections * (must_pass + 1)
    } else {
        usize::MAX as nat
    }
}

/// Computes the depth of the walks.
pub fn walk_depth(connections: usize, must_pass: usize) -> (r: usize)
    ensures
        r == depth_bound(connections as nat, must_pass as nat),
{
    assert(connections * (must_pass + 1) <= 0xffff_ffff_ffff_ffff * 0x1_0000_0000_0000_0000)
        by (nonlinear_arith)
        requires
            0 <= connections <= 0xffff_ffff_ffff_ffff,
            0 <= must_pass <= 0xffff_ffff_ffff_ffff,
    ;
    let product = connections as u128 * (must_pass as u128 + 1);
    if product <= usize::MAX as u128 {
        product as usize
    } else {
        usize::MAX
    }
}

/// Counts the paths from `start` to `end` that pass every device of
/// `must_pass`, with a memo.  What it returns is what a walk finds that is
/// deep enough, or `Cycle` where `depth_bound` steps are not deep enough,
/// which they are unless the walk has met a cycle.
pub fn number_of_paths(
    connections: &Vec<Connection>,
    start: &Device,
    must_pass: &Vec<Device>,
    end: &Device,
) -> (r: Result<u64, Error>)
    ensures
        match r {
            Err(Error::Cycle) => paths(
                connections.deep_view(),
                start.deep_view(),
                must_pass.deep_view(),
                end.deep_view(),
                depth_bound(connections@.len(), must_pass@.len()),
                u64::MAX as nat,
            ) == Err::<nat, Error>(Error::Cycle) && (connections@.len() * (must_pass@.len() + 1)
                <= usize::MAX ==> has_cycle(
                connections.deep_view(),
                start.deep_view(),
                must_pass.deep_view(),
                end.deep_view(),
            )),
            _ => settled(
                connections.deep_view(),
                start.deep_view(),
                must_pass.deep_view(),
                end.deep_view(),
                outcome(r),
            ),
        },
{
    let mut dp = Memo::new();
    let depth = walk_depth(connections.len(), must_pass.len());
    let found = number_of_paths_dp(&mut dp, connections, start, must_pass, end, depth);
    proof {
        if found == Err::<u64, Error>(Error::Cycle) && connections@.len() * (must_pass@.len() + 1)
            <= usize::MAX {
            lemma_bound_means_cycle(
                connections.deep_view(),
                start.deep_view(),
                must_pass.deep_view(),
                end.deep_view(),
                depth as nat,
                u64::MAX as nat,
            );
        }
    }
    found
}

/// A memo that has grown in a walk from an output of `start`, out of a memo
/// that has grown in the walk from `start`, has grown in the walk from
/// `start`.
pub proof fn lemma_grown_on(
    after: Memo,
    between: Memo,
    before: Memo,
    wiring: Seq<(Seq<u8>, Seq<Seq<u8>>)>,
    start: Seq<u8>,
    must_pass: Seq<Seq<u8>>,
    next: Seq<u8>,
)
    requires
        between.grown_from(before, wiring, start, must_pass),
        after.grown_from(between, wiring, next, without(must_pass, start)),
        outputs_of(wiring, start) is Some,
        outputs_of(wiring, start).unwrap().contains(next),
    ensures
        after.grown_from(before, wiring, start, must_pass),
{
    assert forall|i: int| 0 <= i < before.entries@.len() implies #[trigger] after.entries@[i]
        == before.entries@[i] by {
        assert(after.entries@[i] == between.entries@[i]);
    }
    assert forall|i: int| before.entries@.len() <= i < after.entries@.len() implies on_walk(
        wiring,
        start,
        must_pass,
        #[trigger] after.entries@[i],
    ) by {
        let entry = after.entries@[i];
        if i < between.entries@.len() {
            assert(entry == between.entries@[i]);
        } else {
            assert(on_walk(wiring, next, without(must_pass, start), entry));
            lemma_comes_on(
                wiring,
                start,
                must_pass,
                next,
                entry.device.deep_view(),
                entry.must_pass.deep_view(),
            );
            lemma_comes_in_order(
                wiring,
                start,
                must_pass,
                entry.device.deep_view(),
                entry.must_pass.deep_view(),
            );
        }
    }
}

/// Whether `r` is what a walk of at most `depth` steps with a sound memo
/// returns: what a walk finds that is deep enough, or `Cycle` where `depth`
/// steps are not deep enough.
pub open spec fn found_by_walk(
    r: Result<u64, Error>,
    wiring: Seq<(Seq<u8>, Seq<Seq<u8>>)>,
    start: Seq<u8>,
    must_pass: Seq<Seq<u8>>,
    end: Seq<u8>,
    depth: nat,
) -> bool {
    match r {
        Err(Error::Cycle) => paths(wiring, start, must_pass, end, depth, u64::MAX as nat) == Err::<
            nat,
            Error,
        >(Error::Cycle),
        _ => settled(wiring, start, must_pass, end, outcome(r)),
    }
}

/// Counts the paths from `start` to `end` that pass every device of
/// `must_pass`, in a walk of at most `depth` steps that looks every count up
/// in `dp` first and keeps there what it finds.
///
/// A count that `dp` keeps from `start` with `must_pass` still to pass is
/// returned as it is, and `dp` is left alone.  A count that is found is kept
/// in `dp`.  The entries of `dp` stay at their places, and each entry that
/// is added behind them is kept under a device that can be reached from
/// `start`, with what is still to pass there, in the order of `must_pass`.
/// Where the counts of `dp` are sound, so are the counts after the walk, and
/// so is the result.
pub fn number_of_paths_dp(
    dp: &mut Memo,
    connections: &Vec<Connection>,
    start: &Device,
    must_pass: &Vec<Device>,
    end: &Device,
    depth: usize,
) -> (r: Result<u64, Error>)
    ensures
        old(dp).kept(start.deep_view(), must_pass.deep_view()) matches Some(count) ==> r == Ok::<
            u64,
            Error,
        >(count) && *final(dp) == *old(dp),
        r matches Ok(count) ==> final(dp).kept(start.deep_view(), must_pass.deep_view()) == Some(
            count,
        ),
        final(dp).grown_from(
            *old(dp),
            connections.deep_view(),
            start.deep_view(),
            must_pass.deep_view(),
        ),
        old(dp).sound(connections.deep_view(), end.deep_view()) ==> final(dp).sound(
            connections.deep_view(),
            end.deep_view(),
        ) && found_by_walk(
            r,
            connections.deep_view(),
            start.deep_view(),
            must_pass.deep_view(),
            end.deep_view(),
            depth as nat,
        ),
    decreases depth,
{
    let ghost wiring = connections.deep_view();
    let ghost from = start.deep_view();
    let ghost pass = must_pass.deep_view();
    let ghost to = end.deep_view();
    let ghost max = u64::MAX as nat;
    let ghost before = *dp;
    let ghost trusted = dp.sound(wiring, to);
    proof {
        lemma_place(before.entries@, from, pass, 0);
    }
    match dp.get(start, must_pass) {
        Some(cached) => {
            return Ok(cached);
        },
        None => {},
    }
    let computed: u64 = if start.same(end) && must_pass.len() == 0 {
        assert(paths(wiring, from, pass, to, 0, max) == Ok::<nat, Error>(1));
        1
    } else {
        match find_outputs(connections, start) {
            None => {
                assert(paths(wiring, from, pass, to, 0, max) == Ok::<nat, Error>(0));
                0
            },
            Some(outputs) => {
                if depth == 0 {
                    return Err(Error::Cycle);
                }
                let rest = remove_device(must_pass, start);
                let ghost targets = outputs.deep_view();
                let ghost left = rest.deep_view();
                let ghost below = (depth - 1) as nat;
                let ghost mut witness: nat = 0;
                let mut total: u64 = 0;
                let mut k: usize = 0;
                proof {
                    assert(targets.take(0) =~= Seq::empty());
                }
                while k < outputs.len()
                    invariant
                        0 <= k <= outputs@.len(),
                        depth > 0,
                        below == depth - 1,
                        max == u64::MAX,
                        wiring == connections.deep_view(),
                        from == start.deep_view(),
                        pass == must_pass.deep_view(),
                        to == end.deep_view(),
                        targets == outputs.deep_view(),
                        left == rest.deep_view(),
                        !(from == to && pass.len() == 0),
                        outputs_of(wiring, from) == Some(targets),
                        left == without(pass, from),
                        before == *old(dp),
                        trusted == before.sound(wiring, to),
                        before.kept(from, pass) is None,
                        dp.grown_from(before, wiring, from, pass),
                        trusted ==> dp.sound(wiring, to),
                        trusted ==> paths_sum(
                            wiring,
                            targets.take(k as int),
                            left,
                            to,
                            witness,
                            max,
                        ) == Ok::<nat, Error>(total as nat),
                        trusted ==> paths_sum(wiring, targets.take(k as int), left, to, below, max)
                            == Ok::<nat, Error>(total as nat) || paths_sum(
                            wiring,
                            targets.take(k as int),
                            left,
                            to,
                            below,
                            max,
                        ) == Err::<nat, Error>(Error::Cycle),
                    decreases outputs@.len() - k,
                {
                    let ghost first = targets.take(k as int);
                    let ghost next = targets[k as int];
                    let ghost between = *dp;
                    proof {
                        assert(targets.take(k + 1).drop_last() =~= first);
                        assert(targets.take(k + 1).last() == next);
                        assert(next == outputs@[k as int].deep_view());
                    }
                    let sub = number_of_paths_dp(dp, connections, &outputs[k], &rest, end, depth - 1);
                    proof {
                        assert(targets.contains(next));
                        lemma_grown_on(*dp, between, before, wiring, from, pass, next);
                    }
                    match sub {
                        Err(Error::Cycle) => {
                            proof {
                                if trusted {
                                    assert(paths_sum(
                                        wiring,
                                        targets.take(k + 1),
                                        left,
                                        to,
                                        below,
                                        max,
                                    ) == Err::<nat, Error>(Error::Cycle));
                                    lemma_sum_fails_early(
                                        wiring,
                                        targets,
                                        left,
                                        to,
                                        below,
                                        max,
                                        k + 1,
                                    );
                                }
                            }
                            return Err(Error::Cycle);
                        },
                        Err(e) => {
                            proof {
                                if trusted {
                                    let found = outcome(sub);
                                    let deep = choose|d: nat| #[trigger]
                                        paths(wiring, next, left, to, d, max) == found;
                                    let both = if deep >= witness {
                                        deep
                                    } else {
                                        witness
                                    };
                                    lemma_sum_settles(wiring, first, left, to, witness, both, max);
                                    lemma_paths_settle(wiring, next, left, to, deep, both, max);
                                    assert(paths_sum(
                                        wiring,
                                        targets.take(k + 1),
                                        left,
                                        to,
                                        both,
                                        max,
                                    ) == found);
                                    lemma_sum_fails_early(
                                        wiring,
                                        targets,
                                        left,
                                        to,
                                        both,
                                        max,
                                        k + 1,
                                    );
                                    assert(paths(wiring, from, pass, to, both + 1, max) == found);
                                }
                            }
                            return Err(e);
                        },
                        Ok(more) => {
                            proof {
                                if trusted {
                                    let found = Ok::<nat, Error>(more as nat);
                                    let deep = choose|d: nat| #[trigger]
                                        paths(wiring, next, left, to, d, max) == found;
                                    let both = if deep >= witness {
                                        deep
                                    } else {
                                        witness
                                    };
                                    lemma_sum_settles(wiring, first, left, to, witness, both, max);
                                    lemma_paths_settle(wiring, next, left, to, deep, both, max);
                                    lemma_found_or_bound(wiring, next, left, to, found, below);
                                    witness = both;
                                }
                            }
                            if more > u64::MAX - total {
                                proof {
                                    if trusted {
                                        assert(paths_sum(
                                            wiring,
                                            targets.take(k + 1),
                                            left,
                                            to,
                                            witness,
                                            max,
                                        ) == Err::<nat, Error>(Error::Overflow));
                                        lemma_sum_fails_early(
                                            wiring,
                                            targets,
                                            left,
                                            to,
                                            witness,
                                            max,
                                            k + 1,
                                        );
                                        assert(paths(wiring, from, pass, to, witness + 1, max)
                                            == Err::<nat, Error>(Error::Overflow));
                                    }
                                }
                                return Err(Error::Overflow);
                            }
                            total += more;
                        },
                    }
                    k += 1;
                }
                proof {
                    assert(targets.take(k as int) =~= targets);
                    if trusted {
                        assert(paths(wiring, from, pass, to, witness + 1, max) == Ok::<nat, Error>(
                            total as nat,
                        ));
                    }
                }
                total
            },
        }
    };
    let ghost found = *dp;
    assert(trusted ==> settled(wiring, from, pass, to, Ok(computed as nat)));
    assert(found.grown_from(before, wiring, from, pass));
    proof {
        lemma_place(found.entries@, from, pass, 0);
    }
    dp.insert(start, must_pass, computed);
    proof {
        let at = place(found.entries@, from, pass, 0);
        assert(at >= before.entries@.len()) by {
            if at < before.entries@.len() {
                assert(found.entries@[at] == before.entries@[at]);
            }
        }
        assert(dp.grown_from(before, wiring, from, pass)) by {
            assert forall|i: int| 0 <= i < before.entries@.len() implies #[trigger] dp.entries@[i]
                == before.entries@[i] by {
                assert(dp.entries@[i] == found.entries@[i]);
            }
            assert forall|i: int|
                before.entries@.len() <= i < dp.entries@.len() implies on_walk(
                wiring,
                from,
                pass,
                #[trigger] dp.entries@[i],
            ) by {
                if i != at {
                    assert(dp.entries@[i] == found.entries@[i]);
                } else {
                    lemma_comes_to_itself(wiring, from, pass);
                    lemma_in_own_order(pass);
                }
            }
        }
        if trusted {
            assert(dp.sound(wiring, to)) by {
                assert forall|i: int| 0 <= i < dp.entries@.len() implies settled(
                    wiring,
                    (#[trigger] dp.entries@[i]).device.deep_view(),
                    dp.entries@[i].must_pass.deep_view(),
                    to,
                    Ok(dp.entries@[i].paths as nat),
                ) by {
                    if i != at {
                        assert(dp.entries@[i] == found.entries@[i]);
                    }
                }
            }
        }
    }
    Ok(computed)
}

/// Counts the paths from `start` to `end` that pass every device of
/// `must_pass`, in a walk of at most `depth_bound` steps without a memo.
pub fn number_of_paths_rec(
    connections: &Vec<Connection>,
    start: &Device,
    must_pass: &Vec<Device>,
    end: &Device,
) -> (r: Result<u64, Error>)
    ensures
        outcome(r) == walked(
            connections.deep_view(),
            start.deep_view(),
            must_pass.deep_view(),
            end.deep_view(),
        ),
{
    let depth = walk_depth(connections.len(), must_pass.len());
    walk_paths(connections, start, must_pass, end, depth, u64::MAX)
}

/// What the walk without a memo finds, with the depth that
/// `number_of_paths_rec` gives it.
pub open spec fn walked(
    wiring: Seq<(Seq<u8>, Seq<Seq<u8>>)>,
    start: Seq<u8>,
    must_pass: Seq<Seq<u8>>,
    end: Seq<u8>,
) -> Result<nat, Error> {
    paths(
        wiring,
        start,
        must_pass,
        end,
        depth_bound(wiring.len(), must_pass.len()),
        u64::MAX as nat,
    )
}

/// The count of the walk without a memo does not depend on the order of the
/// devices to pass, nor on how often the list names them.
pub proof fn lemma_count_any_order(
    wiring: Seq<(Seq<u8>, Seq<Seq<u8>>)>,
    start: Seq<u8>,
    a: Seq<Seq<u8>>,
    b: Seq<Seq<u8>>,
    end: Seq<u8>,
)
    requires
        among(a, b),
        among(b, a),
        walked(wiring, start, a, end) is Ok,
        walked(wiring, start, b, end) is Ok,
    ensures
        walked(wiring, start, a, end) == walked(wiring, start, b, end),
{
    let max = u64::MAX as nat;
    let deep_a = depth_bound(wiring.len(), a.len());
    let deep_b = depth_bound(wiring.len(), b.len());
    let deep = if deep_a >= deep_b {
        deep_a
    } else {
        deep_b
    };
    lemma_paths_settle(wiring, start, a, end, deep_a, deep, max);
    lemma_paths_settle(wiring, start, b, end, deep_b, deep, max);
    lemma_paths_any_order(wiring, start, a, b, end, deep, max);
}

/// Where the walk ends at a device without outputs, the count of the walk
/// without a memo does not grow with the devices to pass.
pub proof fn lemma_count_fewer(
    wiring: Seq<(Seq<u8>, Seq<Seq<u8>>)>,
    start: Seq<u8>,
    fewer: Seq<Seq<u8>>,
    more: Seq<Seq<u8>>,
    end: Seq<u8>,
)
    requires
        among(fewer, more),
        outputs_of(wiring, end) is None,
        walked(wiring, start, fewer, end) is Ok,
        walked(wiring, start, more, end) is Ok,
    ensures
        walked(wiring, start, more, end).unwrap() <= walked(wiring, start, fewer, end).unwrap(),
{
    let max = u64::MAX as nat;
    let deep_a = depth_bound(wiring.len(), fewer.len());
    let deep_b = depth_bound(wiring.len(), more.len());
    let deep = if deep_a >= deep_b {
        deep_a
    } else {
        deep_b
    };
    lemma_paths_settle(wiring, start, fewer, end, deep_a, deep, max);
    lemma_paths_settle(wiring, start, more, end, deep_b, deep, max);
    lemma_paths_fewer(wiring, start, fewer, more, end, deep, max);
}

/// The devices that a path has to pass: `fft`, then `dac`.
pub open spec fn stations() -> Seq<Seq<u8>> {
    seq!["fft".spec_bytes(), "dac".spec_bytes()]
}

/// Reads the connections, one to a line, and counts the paths from `svr` to
/// `out` that pass `fft` and `dac`.  Fails with `Parse` where the text does
/// not start with a connection, and as `number_of_paths` does.
pub fn solve(input: &str) -> (r: Result<u64, Error>)
    ensures
        match list_at::<Connection>(input.spec_bytes(), 0, Separator::Line) {
            None => r == Err::<u64, Error>(Error::Parse(Stage::Connections)),
            Some((wiring, _)) => match r {
                Err(Error::Cycle) => paths(
                    wiring,
                    "svr".spec_bytes(),
                    stations(),
                    "out".spec_bytes(),
                    depth_bound(wiring.len(), 2),
                    u64::MAX as nat,
                ) == Err::<nat, Error>(Error::Cycle) && (wiring.len() * 3 <= usize::MAX
                    ==> has_cycle(wiring, "svr".spec_bytes(), stations(), "out".spec_bytes())),
                _ => settled(wiring, "svr".spec_bytes(), stations(), "out".spec_bytes(), outcome(r)),
            },
        },
{
    let connections = match parse_list::<Connection>(input.as_bytes(), 0, Separator::Line) {
        Some((connections, _)) => connections,
        None => { return Err(Error::Parse(Stage::Connections)); },
    };
    let mut must_pass: Vec<Device> = Vec::new();
    must_pass.push(Device::named("fft"));
    must_pass.push(Device::named("dac"));
    assert(must_pass.deep_view() =~= stations());
    number_of_paths(&connections, &Device::named("svr"), &must_pass, &Device::named("out"))
}

} // verus!
