//! The fewest button presses that bring the lights of every machine from all
//! off to their goal.

use crate::day10::{is_wired, Button, Light, Machine};
use crate::error::{Error, Stage};
use crate::text::{list_at, parse_list, Separator};
use vstd::prelude::*;
use vstd::string::*;

verus! {

/// The lights after a press of the button: those that it is wired to have
/// switched.
pub open spec fn pressed(lights: Seq<Light>, button: Seq<usize>) -> Seq<Light> {
    Seq::new(
        lights.len(),
        |i: int|
            if button.contains(i as usize) {
                lights[i].toggled()
            } else {
                lights[i]
            },
    )
}

/// Whether `route` names buttons only.
pub open spec fn is_route(buttons: Seq<Seq<usize>>, route: Seq<int>) -> bool {
    forall|k: int| 0 <= k < route.len() ==> 0 <= #[trigger] route[k] < buttons.len()
}

/// The lights after the presses of `route`, one button after the other, when
/// all `count` lights were off before.
pub open spec fn lights_after(buttons: Seq<Seq<usize>>, count: nat, route: Seq<int>) -> Seq<Light>
    decreases route.len(),
{
    if route.len() == 0 {
        Seq::new(count, |i: int| Light::Off)
    } else {
        pressed(lights_after(buttons, count, route.drop_last()), buttons[route.last()])
    }
}

/// Whether some `presses` presses bring the lights from all off to `goal`.
pub open spec fn reachable_in(buttons: Seq<Seq<usize>>, goal: Seq<Light>, presses: nat) -> bool {
    exists|route: Seq<int>|
        route.len() == presses && is_route(buttons, route) && #[trigger] lights_after(
            buttons,
            goal.len(),
            route,
        ) == goal
}

/// Whether `presses` presses bring the lights to `goal` and fewer do not.
pub open spec fn is_fewest(buttons: Seq<Seq<usize>>, goal: Seq<Light>, presses: nat) -> bool {
    &&& reachable_in(buttons, goal, presses)
    &&& forall|fewer: nat| fewer < presses ==> !reachable_in(buttons, goal, fewer)
}

/// A state of the lights, and the fewest presses that lead to it.
#[derive(Debug)]
pub struct Reached {
    pub lights: Vec<Light>,
    pub presses: u64,
}

/// Presses a button.
pub fn press(lights: &Vec<Light>, button: &Button) -> (r: Vec<Light>)
    ensures
        r@ == pressed(lights@, button.wiring@),
{
    let mut after: Vec<Light> = Vec::new();
    let mut i: usize = 0;
    while i < lights.len()
        invariant
            0 <= i <= lights@.len(),
            after@.len() == i,
            forall|k: int| 0 <= k < i ==> #[trigger] after@[k] == pressed(lights@, button.wiring@)[k],
        decreases lights@.len() - i,
    {
        after.push(
            if is_wired(button, i) {
                lights[i].toggle()
            } else {
                lights[i]
            },
        );
        i += 1;
    }
    assert(after@ =~= pressed(lights@, button.wiring@));
    after
}

/// Tells whether two states of the lights are the same.
pub fn same_lights(a: &Vec<Light>, b: &Vec<Light>) -> (r: bool)
    ensures
        r == (a@ == b@),
{
    if a.len() != b.len() {
        return false;
    }
    let mut i: usize = 0;
    while i < a.len()
        invariant
            a@.len() == b@.len(),
            0 <= i <= a@.len(),
            forall|k: int| 0 <= k < i ==> a@[k] == b@[k],
        decreases a@.len() - i,
    {
        if a[i] != b[i] {
            return false;
        }
        i += 1;
    }
    assert(a@ =~= b@);
    true
}

/// Finds the state `lights` among those reached.
pub fn find_reached(reached: &Vec<Reached>, lights: &Vec<Light>) -> (r: Option<usize>)
    ensures
        r matches Some(at) ==> at < reached@.len() && reached@[at as int].lights@ == lights@,
        r is None ==> forall|e: int|
            0 <= e < reached@.len() ==> (#[trigger] reached@[e]).lights@ != lights@,
{
    let mut e: usize = 0;
    while e < reached.len()
        invariant
            0 <= e <= reached@.len(),
            forall|k: int| 0 <= k < e ==> (#[trigger] reached@[k]).lights@ != lights@,
        decreases reached@.len() - e,
    {
        if same_lights(&reached[e].lights, lights) {
            return Some(e);
        }
        e += 1;
    }
    None
}

/// Whether `route` leads to the state `entry` in as many presses as the
/// state says.
pub open spec fn leads_to(
    buttons: Seq<Seq<usize>>,
    count: nat,
    route: Seq<int>,
    entry: Reached,
) -> bool {
    &&& route.len() == entry.presses
    &&& is_route(buttons, route)
    &&& lights_after(buttons, count, route) == entry.lights@
}

/// Whether `lights` is among the states reached, with at most `presses`
/// presses.
pub open spec fn known(reached: Seq<Reached>, lights: Seq<Light>, presses: int) -> bool {
    exists|e: int|
        0 <= e < reached.len() && (#[trigger] reached[e]).lights@ == lights && reached[e].presses
            <= presses
}

/// Whether some route leads to the state `entry` in as many presses as the
/// state says.
pub open spec fn has_route(buttons: Seq<Seq<usize>>, count: nat, entry: Reached) -> bool {
    exists|route: Seq<int>| #[trigger] leads_to(buttons, count, route, entry)
}

/// Whether the states reached are different states, each with a route that
/// leads to it, and none with more than `rounds` presses.
pub open spec fn sound(
    buttons: Seq<Seq<usize>>,
    count: nat,
    reached: Seq<Reached>,
    rounds: int,
) -> bool {
    &&& forall|e: int|
        0 <= e < reached.len() ==> has_route(buttons, count, #[trigger] reached[e])
            && reached[e].presses <= rounds
    &&& forall|e: int, f: int|
        0 <= e < f < reached.len() ==> (#[trigger] reached[e]).lights@ != (
        #[trigger] reached[f]).lights@
}

/// Whether every state that at most `rounds` presses lead to is among the
/// states reached, with no more presses than lead to it.
pub open spec fn complete(
    buttons: Seq<Seq<usize>>,
    count: nat,
    reached: Seq<Reached>,
    rounds: int,
) -> bool {
    forall|route: Seq<int>|
        is_route(buttons, route) && route.len() <= rounds ==> known(
            reached,
            #[trigger] lights_after(buttons, count, route),
            route.len() as int,
        )
}

/// Whether the press of any button in any state with fewer than `rounds`
/// presses leads to a state that is among the states reached, with at most
/// one press more.
pub open spec fn settled(buttons: Seq<Seq<usize>>, reached: Seq<Reached>, rounds: int) -> bool {
    forall|e: int, b: int|
        #![trigger reached[e], buttons[b]]
        0 <= e < reached.len() && 0 <= b < buttons.len() && reached[e].presses < rounds ==> known(
            reached,
            pressed(reached[e].lights@, buttons[b]),
            reached[e].presses + 1,
        )
}

/// Whether the press of any button in any of the first `upto` states of
/// `from`, or of one of the first `button` buttons in the next, leads to a
/// state that is among `reached`, if the state has `rounds` presses.
pub open spec fn frontier_done(
    buttons: Seq<Seq<usize>>,
    from: Seq<Reached>,
    reached: Seq<Reached>,
    rounds: int,
    upto: int,
    button: int,
) -> bool {
    forall|e: int, b: int|
        #![trigger from[e], buttons[b]]
        0 <= e <= upto && e < from.len() && 0 <= b < buttons.len() && (e < upto || b < button)
            && from[e].presses == rounds ==> known(
            reached,
            pressed(from[e].lights@, buttons[b]),
            rounds + 1,
        )
}

/// Whether `longer` starts with the states of `shorter`, and the states that
/// follow have `presses` presses.
pub open spec fn grown_from(longer: Seq<Reached>, shorter: Seq<Reached>, presses: int) -> bool {
    &&& shorter.len() <= longer.len()
    &&& forall|e: int| 0 <= e < shorter.len() ==> #[trigger] longer[e] == shorter[e]
    &&& forall|e: int| shorter.len() <= e < longer.len() ==> (#[trigger] longer[e]).presses == presses
}

/// A state that is known stays known when more states are reached.
pub proof fn lemma_known_stays(
    shorter: Seq<Reached>,
    longer: Seq<Reached>,
    lights: Seq<Light>,
    presses: int,
    more: int,
)
    requires
        shorter.len() <= longer.len(),
        forall|e: int| 0 <= e < shorter.len() ==> #[trigger] longer[e] == shorter[e],
        known(shorter, lights, presses),
        presses <= more,
    ensures
        known(longer, lights, more),
{
    let e = choose|e: int|
        0 <= e < shorter.len() && (#[trigger] shorter[e]).lights@ == lights && shorter[e].presses
            <= presses;
    assert(longer[e] == shorter[e]);
}

/// The route without its last press is a route.
pub proof fn lemma_route_before(buttons: Seq<Seq<usize>>, route: Seq<int>)
    requires
        is_route(buttons, route),
        route.len() > 0,
    ensures
        is_route(buttons, route.drop_last()),
        0 <= route.last() < buttons.len(),
{
    assert forall|k: int| 0 <= k < route.drop_last().len() implies 0 <= #[trigger] route.drop_last()[k]
        < buttons.len() by {
        assert(route.drop_last()[k] == route[k]);
    }
    assert(0 <= route[route.len() - 1] < buttons.len());
}

/// Where the press of every button in every state reached leads to a state
/// reached, every route leads to a state reached.
pub proof fn lemma_closed(
    buttons: Seq<Seq<usize>>,
    count: nat,
    reached: Seq<Reached>,
    rounds: int,
    route: Seq<int>,
)
    requires
        is_route(buttons, route),
        settled(buttons, reached, rounds),
        forall|e: int| 0 <= e < reached.len() ==> (#[trigger] reached[e]).presses < rounds,
        known(reached, lights_after(buttons, count, Seq::empty()), 0),
    ensures
        exists|e: int|
            0 <= e < reached.len() && (#[trigger] reached[e]).lights@ == lights_after(
                buttons,
                count,
                route,
            ),
    decreases route.len(),
{
    if route.len() == 0 {
        assert(route =~= Seq::empty());
        let e = choose|e: int|
            0 <= e < reached.len() && (#[trigger] reached[e]).lights@ == lights_after(
                buttons,
                count,
                Seq::empty(),
            ) && reached[e].presses <= 0;
        assert(reached[e].lights@ == lights_after(buttons, count, route));
    } else {
        let before = route.drop_last();
        lemma_route_before(buttons, route);
        lemma_closed(buttons, count, reached, rounds, before);
        let e = choose|e: int|
            0 <= e < reached.len() && (#[trigger] reached[e]).lights@ == lights_after(
                buttons,
                count,
                before,
            );
        let b = route.last();
        assert(known(reached, pressed(reached[e].lights@, buttons[b]), reached[e].presses + 1));
        let f = choose|f: int|
            0 <= f < reached.len() && (#[trigger] reached[f]).lights@ == pressed(
                reached[e].lights@,
                buttons[b],
            ) && reached[f].presses <= reached[e].presses + 1;
        assert(reached[f].lights@ == lights_after(buttons, count, route));
    }
}

/// After a round in which every button was pressed in every state with
/// `rounds` presses, the states reached are all that `rounds + 1` presses
/// lead to.
pub proof fn lemma_round(
    buttons: Seq<Seq<usize>>,
    count: nat,
    from: Seq<Reached>,
    reached: Seq<Reached>,
    rounds: int,
)
    requires
        rounds >= 0,
        sound(buttons, count, from, rounds),
        complete(buttons, count, from, rounds),
        settled(buttons, from, rounds),
        grown_from(reached, from, rounds + 1),
        frontier_done(buttons, from, reached, rounds, from.len() as int, 0),
    ensures
        complete(buttons, count, reached, rounds + 1),
        settled(buttons, reached, rounds + 1),
{
    assert forall|e: int, b: int|
        #![trigger reached[e], buttons[b]]
        0 <= e < reached.len() && 0 <= b < buttons.len() && reached[e].presses < rounds
            + 1 implies known(
        reached,
        pressed(reached[e].lights@, buttons[b]),
        reached[e].presses + 1,
    ) by {
        if e < from.len() {
            assert(reached[e] == from[e]);
            if from[e].presses < rounds {
                assert(known(from, pressed(from[e].lights@, buttons[b]), from[e].presses + 1));
                lemma_known_stays(
                    from,
                    reached,
                    pressed(from[e].lights@, buttons[b]),
                    from[e].presses + 1,
                    from[e].presses + 1,
                );
            } else {
                assert(from[e].presses == rounds);
            }
        }
    }
    assert forall|route: Seq<int>|
        is_route(buttons, route) && route.len() <= rounds + 1 implies known(
        reached,
        #[trigger] lights_after(buttons, count, route),
        route.len() as int,
    ) by {
        if route.len() <= rounds {
            lemma_known_stays(
                from,
                reached,
                lights_after(buttons, count, route),
                route.len() as int,
                route.len() as int,
            );
        } else {
            let before = route.drop_last();
            lemma_route_before(buttons, route);
            assert(known(from, lights_after(buttons, count, before), before.len() as int));
            let e = choose|e: int|
                0 <= e < from.len() && (#[trigger] from[e]).lights@ == lights_after(
                    buttons,
                    count,
                    before,
                ) && from[e].presses <= before.len();
            let b = route.last();
            assert(reached[e] == from[e]);
            assert(known(reached, pressed(reached[e].lights@, buttons[b]), reached[e].presses + 1));
            let f = choose|f: int|
                0 <= f < reached.len() && (#[trigger] reached[f]).lights@ == pressed(
                    reached[e].lights@,
                    buttons[b],
                ) && reached[f].presses <= reached[e].presses + 1;
            assert(reached[f].lights@ == lights_after(buttons, count, route));
        }
    }
}

/// Presses every button in every state that `rounds` presses led to, and
/// adds the states that are new, with one press more.
fn expand(buttons: &Vec<Button>, reached: &mut Vec<Reached>, Ghost(count): Ghost<nat>, rounds: u64)
    requires
        rounds < u64::MAX,
        sound(buttons.deep_view(), count, old(reached)@, rounds as int),
    ensures
        sound(buttons.deep_view(), count, final(reached)@, rounds + 1),
        grown_from(final(reached)@, old(reached)@, rounds + 1),
        frontier_done(
            buttons.deep_view(),
            old(reached)@,
            final(reached)@,
            rounds as int,
            old(reached)@.len() as int,
            0,
        ),
{
    let ghost wiring = buttons.deep_view();
    let ghost from = reached@;
    let before = reached.len();
    let mut e: usize = 0;
    while e < before
        invariant
            0 <= e <= before,
            before == from.len(),
            rounds < u64::MAX,
            wiring == buttons.deep_view(),
            sound(wiring, count, from, rounds as int),
            sound(wiring, count, reached@, rounds + 1),
            grown_from(reached@, from, rounds + 1),
            frontier_done(wiring, from, reached@, rounds as int, e as int, 0),
        decreases before - e,
    {
        assert(reached@[e as int] == from[e as int]);
        if reached[e].presses == rounds {
            let mut b: usize = 0;
            while b < buttons.len()
                invariant
                    0 <= e < before,
                    0 <= b <= buttons@.len(),
                    before == from.len(),
                    rounds < u64::MAX,
                    from[e as int].presses == rounds,
                    wiring == buttons.deep_view(),
                    sound(wiring, count, from, rounds as int),
                    sound(wiring, count, reached@, rounds + 1),
                    grown_from(reached@, from, rounds + 1),
                    frontier_done(wiring, from, reached@, rounds as int, e as int, b as int),
                decreases buttons@.len() - b,
            {
                let ghost so_far = reached@;
                assert(reached@[e as int] == from[e as int]);
                let next = press(&reached[e].lights, &buttons[b]);
                let ghost target = pressed(from[e as int].lights@, wiring[b as int]);
                assert(next@ == target);
                match find_reached(reached, &next) {
                    Some(at) => {
                        assert(known(reached@, target, rounds + 1));
                    },
                    None => {
                        let entry = Reached { lights: next, presses: rounds + 1 };
                        reached.push(entry);
                        proof {
                            let route = choose|route: Seq<int>| #[trigger]
                                leads_to(wiring, count, route, from[e as int]);
                            let longer = route.push(b as int);
                            assert(longer.drop_last() =~= route);
                            assert(leads_to(wiring, count, longer, entry));
                            assert(sound(wiring, count, reached@, rounds + 1)) by {
                                assert forall|k: int| 0 <= k < reached@.len() implies has_route(
                                    wiring,
                                    count,
                                    #[trigger] reached@[k],
                                ) && reached@[k].presses <= rounds + 1 by {
                                    if k < so_far.len() {
                                        assert(reached@[k] == so_far[k]);
                                    }
                                }
                                assert forall|k: int, f: int|
                                    0 <= k < f < reached@.len() implies (
                                #[trigger] reached@[k]).lights@ != (
                                #[trigger] reached@[f]).lights@ by {
                                    assert(reached@[k] == so_far[k]);
                                    if f < so_far.len() {
                                        assert(reached@[f] == so_far[f]);
                                    }
                                }
                            }
                            assert(known(reached@, target, rounds + 1)) by {
                                assert(reached@[so_far.len() as int].lights@ == target);
                            }
                            assert(grown_from(reached@, from, rounds + 1)) by {
                                assert forall|k: int| 0 <= k < from.len() implies #[trigger] reached@[k]
                                    == from[k] by {
                                    assert(reached@[k] == so_far[k]);
                                }
                                assert forall|k: int| from.len() <= k < reached@.len() implies (
                                #[trigger] reached@[k]).presses == rounds + 1 by {
                                    if k < so_far.len() {
                                        assert(reached@[k] == so_far[k]);
                                    }
                                }
                            }
                        }
                    },
                }
                proof {
                    assert(frontier_done(wiring, from, reached@, rounds as int, e as int, b + 1)) by {
                        assert forall|k: int, c: int|
                            #![trigger from[k], wiring[c]]
                            0 <= k <= e && k < from.len() && 0 <= c < wiring.len() && (k < e || c
                                < b + 1) && from[k].presses == rounds implies known(
                            reached@,
                            pressed(from[k].lights@, wiring[c]),
                            rounds + 1,
                        ) by {
                            if k < e || c < b {
                                assert(known(so_far, pressed(from[k].lights@, wiring[c]), rounds + 1));
                                lemma_known_stays(
                                    so_far,
                                    reached@,
                                    pressed(from[k].lights@, wiring[c]),
                                    rounds + 1,
                                    rounds + 1,
                                );
                            }
                        }
                    }
                }
                b += 1;
            }
        }
        e += 1;
    }
}

/// Finds the fewest presses that bring the lights of the machine from all off
/// to their goal.  Fails with `Unsatisfiable` where no presses do, and with
/// `Overflow` where fewer presses than 64 bits count do not.
pub fn solve_machine(machine: &Machine<u64>) -> (r: Result<u64, Error>)
    ensures
        match r {
            Ok(presses) => is_fewest(machine.buttons.deep_view(), machine.lights@, presses as nat),
            Err(e) => (e == Error::Unsatisfiable || e == Error::Overflow) && forall|presses: nat|
                presses < u64::MAX || e == Error::Unsatisfiable ==> !reachable_in(
                    machine.buttons.deep_view(),
                    machine.lights@,
                    presses,
                ),
        },
{
    let ghost wiring = machine.buttons.deep_view();
    let ghost goal = machine.lights@;
    let ghost count = goal.len();
    let mut dark: Vec<Light> = Vec::new();
    let mut i: usize = 0;
    while i < machine.lights.len()
        invariant
            0 <= i <= machine.lights@.len(),
            dark@.len() == i,
            forall|k: int| 0 <= k < i ==> dark@[k] == Light::Off,
        decreases machine.lights@.len() - i,
    {
        dark.push(Light::Off);
        i += 1;
    }
    let mut reached: Vec<Reached> = Vec::new();
    reached.push(Reached { lights: dark, presses: 0 });
    let mut rounds: u64 = 0;
    proof {
        let nothing = Seq::<int>::empty();
        assert(reached@[0].lights@ =~= lights_after(wiring, count, nothing));
        assert(leads_to(wiring, count, nothing, reached@[0]));
        assert(complete(wiring, count, reached@, 0)) by {
            assert forall|route: Seq<int>|
                is_route(wiring, route) && route.len() <= 0 implies known(
                reached@,
                #[trigger] lights_after(wiring, count, route),
                route.len() as int,
            ) by {
                assert(route =~= nothing);
            }
        }
    }
    loop
        invariant
            wiring == machine.buttons.deep_view(),
            goal == machine.lights@,
            count == goal.len(),
            sound(wiring, count, reached@, rounds as int),
            complete(wiring, count, reached@, rounds as int),
            settled(wiring, reached@, rounds as int),
            rounds > 0 ==> !known(reached@, goal, rounds as int),
        decreases u64::MAX - rounds,
    {
        if rounds == u64::MAX {
            proof {
                assert forall|presses: nat| presses < u64::MAX implies !reachable_in(
                    wiring,
                    goal,
                    presses,
                ) by {
                    if reachable_in(wiring, goal, presses) {
                        let route = choose|route: Seq<int>|
                            route.len() == presses && is_route(wiring, route)
                                && #[trigger] lights_after(wiring, goal.len(), route) == goal;
                        assert(known(reached@, lights_after(wiring, count, route), presses as int));
                        lemma_known_stays(reached@, reached@, goal, presses as int, rounds as int);
                    }
                }
            }
            return Err(Error::Overflow);
        }
        let ghost from = reached@;
        let before = reached.len();
        expand(&machine.buttons, &mut reached, Ghost(count), rounds);
        proof {
            lemma_round(wiring, count, from, reached@, rounds as int);
        }
        rounds += 1;
        match find_reached(&reached, &machine.lights) {
            Some(at) => {
                let presses = reached[at].presses;
                proof {
                    let route = choose|route: Seq<int>| #[trigger]
                        leads_to(wiring, count, route, reached@[at as int]);
                    assert(lights_after(wiring, goal.len(), route) == goal);
                    assert(reachable_in(wiring, goal, presses as nat));
                    assert forall|fewer: nat| fewer < presses implies !reachable_in(
                        wiring,
                        goal,
                        fewer,
                    ) by {
                        if reachable_in(wiring, goal, fewer) {
                            let short = choose|short: Seq<int>|
                                short.len() == fewer && is_route(wiring, short)
                                    && #[trigger] lights_after(wiring, goal.len(), short) == goal;
                            assert(known(
                                reached@,
                                lights_after(wiring, count, short),
                                fewer as int,
                            ));
                            let f = choose|f: int|
                                0 <= f < reached@.len() && (#[trigger] reached@[f]).lights@ == goal
                                    && reached@[f].presses <= fewer;
                            if f < at {
                                assert(reached@[f].lights@ != reached@[at as int].lights@);
                            } else if at < f {
                                assert(reached@[at as int].lights@ != reached@[f].lights@);
                            }
                        }
                    }
                }
                return Ok(presses);
            },
            None => {},
        }
        if reached.len() == before {
            proof {
                assert forall|e: int| 0 <= e < reached@.len() implies (
                #[trigger] reached@[e]).presses < rounds by {
                    assert(reached@[e] == from[e]);
                }
                assert(known(reached@, lights_after(wiring, count, Seq::empty()), 0)) by {
                    assert(is_route(wiring, Seq::<int>::empty()));
                }
                assert forall|presses: nat| !reachable_in(wiring, goal, presses) by {
                    if reachable_in(wiring, goal, presses) {
                        let route = choose|route: Seq<int>|
                            route.len() == presses && is_route(wiring, route)
                                && #[trigger] lights_after(wiring, goal.len(), route) == goal;
                        lemma_closed(wiring, count, reached@, rounds as int, route);
                    }
                }
            }
            return Err(Error::Unsatisfiable);
        }
    }
}

/// The fewest presses that bring the lights from all off to `goal`, where
/// some presses do.
pub open spec fn fewest_presses(buttons: Seq<Seq<usize>>, goal: Seq<Light>) -> nat {
    choose|presses: nat| is_fewest(buttons, goal, presses)
}

/// There is one fewest number of presses at most.
pub proof fn lemma_fewest_presses(buttons: Seq<Seq<usize>>, goal: Seq<Light>, presses: nat)
    requires
        is_fewest(buttons, goal, presses),
    ensures
        fewest_presses(buttons, goal) == presses,
{
    let chosen = fewest_presses(buttons, goal);
    assert(is_fewest(buttons, goal, chosen));
    if chosen < presses {
        assert(!reachable_in(buttons, goal, chosen));
    } else if presses < chosen {
        assert(!reachable_in(buttons, goal, presses));
    }
}

/// The sum of the fewest presses of the first `upto` machines.
pub open spec fn total_presses(
    machines: Seq<(Seq<Light>, Seq<Seq<usize>>, Seq<u64>)>,
    upto: int,
) -> nat
    decreases upto,
{
    if upto <= 0 {
        0
    } else {
        total_presses(machines, upto - 1) + fewest_presses(
            machines[upto - 1].1,
            machines[upto - 1].0,
        )
    }
}

/// Whether some presses bring the lights of the machine to their goal, and
/// fewer than `limit` do.
pub open spec fn solvable(machine: (Seq<Light>, Seq<Seq<usize>>, Seq<u64>), limit: nat) -> bool {
    exists|presses: nat| presses < limit && #[trigger] reachable_in(machine.1, machine.0, presses)
}

/// Whether no presses bring the lights of the machine to their goal.
pub open spec fn unsolvable(machine: (Seq<Light>, Seq<Seq<usize>>, Seq<u64>)) -> bool {
    forall|presses: nat| !reachable_in(machine.1, machine.0, presses)
}

/// Whether the machines have no sum of fewest presses, for the reason `e`:
/// with `Unsatisfiable`, no presses bring the lights of one of them to their
/// goal; with `Overflow`, one of them needs more presses than 64 bits count,
/// or the sum up to it does not fit 64 bits.
pub open spec fn fails_with(machines: Seq<(Seq<Light>, Seq<Seq<usize>>, Seq<u64>)>, e: Error) -> bool {
    exists|i: int|
        0 <= i < machines.len() && if e == Error::Unsatisfiable {
            unsolvable(#[trigger] machines[i])
        } else {
            e == Error::Overflow && (!solvable(machines[i], u64::MAX as nat) || total_presses(
                machines,
                i + 1,
            ) > u64::MAX)
        }
}

/// Reads the machines, one to a line, and adds up the fewest presses that
/// bring the lights of each to their goal.  Fails with `Parse` where the
/// text does not start with a machine, with `Unsatisfiable` where no presses
/// bring the lights of a machine to their goal, and with `Overflow` where
/// the presses of a machine or the sum of the presses do not fit 64 bits.
pub fn solve(input: &str) -> (r: Result<u64, Error>)
    ensures
        match list_at::<Machine<u64>>(input.spec_bytes(), 0, Separator::Line) {
            None => r == Err::<u64, Error>(Error::Parse(Stage::Machines)),
            Some((machines, _)) => match r {
                Ok(total) => total == total_presses(machines, machines.len() as int) && forall|
                    i: int,
                | 0 <= i < machines.len() ==> solvable(#[trigger] machines[i], u64::MAX as nat),
                Err(e) => fails_with(machines, e),
            },
        },
{
    let (machines, end) = match parse_list::<Machine<u64>>(input.as_bytes(), 0, Separator::Line) {
        Some(found) => found,
        None => { return Err(Error::Parse(Stage::Machines)); },
    };
    let ghost read = machines.deep_view();
    let mut total: u64 = 0;
    let mut i: usize = 0;
    while i < machines.len()
        invariant
            0 <= i <= machines@.len(),
            read == machines.deep_view(),
            list_at::<Machine<u64>>(input.spec_bytes(), 0, Separator::Line) == Some(
                (read, end as int),
            ),
            total == total_presses(read, i as int),
            forall|k: int| 0 <= k < i ==> solvable(#[trigger] read[k], u64::MAX as nat),
        decreases machines@.len() - i,
    {
        assert(read[i as int] == machines@[i as int].deep_view());
        let presses = match solve_machine(&machines[i]) {
            Ok(presses) => presses,
            Err(e) => {
                assert(!solvable(read[i as int], u64::MAX as nat));
                assert(e == Error::Unsatisfiable ==> unsolvable(read[i as int]));
                assert(fails_with(read, e));
                return Err(e);
            },
        };
        proof {
            lemma_fewest_presses(read[i as int].1, read[i as int].0, presses as nat);
        }
        if presses == u64::MAX {
            assert(!solvable(read[i as int], u64::MAX as nat));
            assert(fails_with(read, Error::Overflow));
            return Err(Error::Overflow);
        }
        assert(reachable_in(read[i as int].1, read[i as int].0, presses as nat));
        total = match total.checked_add(presses) {
            Some(total) => total,
            None => {
                assert(total_presses(read, i + 1) > u64::MAX);
                assert(fails_with(read, Error::Overflow));
                return Err(Error::Overflow);
            },
        };
        i += 1;
    }
    Ok(total)
}

} // verus!
