//! The fewest button presses that bring the joltage counters of every
//! machine to their requirements.
//!
//! A press of a button raises each counter that the button is wired to by
//! one.  How often each button is to be pressed is a problem of whole
//! numbers: an unknown for each button, an equation for each counter, and
//! the sum of the unknowns to be made small.  The problem is written down as
//! plain values and put to the optimizer of z3.  Nothing is taken for
//! granted of what z3 answers: the presses that it names are checked against
//! the requirements before they are counted, so a number that is counted is
//! a number of presses that do bring the counters to their requirements.
//! That no fewer presses do rests on z3 alone; what follows if z3 answers
//! rightly is stated of `counted`.

use crate::day10::{is_wired, Button, Light, Machine};
use crate::error::{Error, Stage};
use crate::text::{list_at, parse_list, Separator};
use vstd::prelude::*;
use vstd::string::*;
use z3::ast::{Ast, Int};
use z3::Optimize;

verus! {

/// How many unknowns a problem can have: z3 takes numbers below 2^30 as
/// names.
pub const MOST_UNKNOWNS: u32 = 0x4000_0000;

/// An equation: the unknowns that are named add up to `sum`.
#[derive(Debug)]
pub struct Equation {
    pub unknowns: Vec<usize>,
    pub sum: u32,
}

/// A problem of whole numbers: `unknowns` unknowns with the numbers from 0
/// on as their names, each `at_least` or more, that meet every equation and
/// make the sum of the unknowns named by `minimized` as small as can be.
#[derive(Debug)]
pub struct Problem {
    pub unknowns: u32,
    pub at_least: u64,
    pub equations: Vec<Equation>,
    pub minimized: Vec<usize>,
}

/// Whether every number of the list names one of `unknowns` unknowns.
pub open spec fn names_below(list: Seq<usize>, unknowns: u32) -> bool {
    forall|i: int| 0 <= i < list.len() ==> #[trigger] list[i] < unknowns
}

/// The sum of the values of the unknowns that the list names.
pub open spec fn chosen_sum(values: Seq<u64>, chosen: Seq<usize>) -> nat
    decreases chosen.len(),
{
    if chosen.len() == 0 {
        0
    } else {
        chosen_sum(values, chosen.drop_last()) + values[chosen.last() as int] as nat
    }
}

impl Problem {
    /// Whether the problem can be put to the optimizer: it has no more
    /// unknowns than can be named, and names no unknown that it has not.
    pub open spec fn posed(self) -> bool {
        &&& self.unknowns <= MOST_UNKNOWNS
        &&& names_below(self.minimized@, self.unknowns)
        &&& forall|e: int|
            0 <= e < self.equations@.len() ==> names_below(
                (#[trigger] self.equations@[e]).unknowns@,
                self.unknowns,
            )
    }

    /// Whether the values, one for each unknown, are large enough and meet
    /// every equation.
    pub open spec fn solved_by(self, values: Seq<u64>) -> bool {
        &&& values.len() == self.unknowns
        &&& forall|i: int| 0 <= i < values.len() ==> #[trigger] values[i] >= self.at_least
        &&& forall|e: int|
            0 <= e < self.equations@.len() ==> chosen_sum(
                values,
                (#[trigger] self.equations@[e]).unknowns@,
            ) == self.equations@[e].sum
    }

    /// The sum that the problem wants small, for these values.
    pub open spec fn cost(self, values: Seq<u64>) -> nat {
        chosen_sum(values, self.minimized@)
    }

    /// Whether the answer is right: values that solve the problem with no
    /// larger sum than any other values that solve it, or no values where
    /// none solve it.
    pub open spec fn answered_by(self, answer: Option<Seq<u64>>) -> bool {
        match answer {
            Some(values) => self.solved_by(values) && forall|other: Seq<u64>|
                #[trigger] self.solved_by(other) ==> self.cost(values) <= self.cost(other),
            None => forall|other: Seq<u64>| !#[trigger] self.solved_by(other),
        }
    }

    /// Writes down the problem of the machine: an unknown for each button,
    /// none below 0, an equation for each counter, and all the unknowns in
    /// the sum.  A machine with more buttons than unknowns can be named has
    /// no problem.
    pub fn of(machine: &Machine<u32>) -> (r: Option<Problem>)
        ensures
            r is Some <==> machine.buttons@.len() <= MOST_UNKNOWNS,
            r matches Some(problem) ==> problem.posed() && is_problem_of(
                problem,
                machine.buttons.deep_view(),
                machine.joltage@,
            ),
    {
        if machine.buttons.len() > MOST_UNKNOWNS as usize {
            return None;
        }
        let unknowns = machine.buttons.len() as u32;
        let ghost wiring = machine.buttons.deep_view();
        let mut minimized: Vec<usize> = Vec::new();
        let mut b: usize = 0;
        while b < machine.buttons.len()
            invariant
                0 <= b <= machine.buttons@.len(),
                minimized@ == numbered(b as int),
            decreases machine.buttons@.len() - b,
        {
            minimized.push(b);
            b += 1;
        }
        let mut equations: Vec<Equation> = Vec::new();
        let mut counter: usize = 0;
        while counter < machine.joltage.len()
            invariant
                0 <= counter <= machine.joltage@.len(),
                unknowns == machine.buttons@.len(),
                unknowns <= MOST_UNKNOWNS,
                wiring == machine.buttons.deep_view(),
                equations@.len() == counter,
                forall|c: int|
                    0 <= c < counter ==> (#[trigger] equations@[c]).sum == machine.joltage@[c]
                        && equations@[c].unknowns@ == wired_to(wiring, c as usize, unknowns as int),
            decreases machine.joltage@.len() - counter,
        {
            let mut wired: Vec<usize> = Vec::new();
            let mut b: usize = 0;
            while b < machine.buttons.len()
                invariant
                    0 <= b <= machine.buttons@.len(),
                    wiring == machine.buttons.deep_view(),
                    wired@ == wired_to(wiring, counter, b as int),
                decreases machine.buttons@.len() - b,
            {
                assert(wiring[b as int] == machine.buttons@[b as int].wiring@);
                if is_wired(&machine.buttons[b], counter) {
                    wired.push(b);
                }
                b += 1;
            }
            equations.push(Equation { unknowns: wired, sum: machine.joltage[counter] });
            counter += 1;
        }
        let problem = Problem { unknowns, at_least: 0, equations, minimized };
        proof {
            lemma_numbered(unknowns as int);
            assert forall|e: int| 0 <= e < problem.equations@.len() implies names_below(
                (#[trigger] problem.equations@[e]).unknowns@,
                problem.unknowns,
            ) by {
                lemma_wired_to(wiring, e as usize, unknowns as int);
            }
        }
        Some(problem)
    }
}

/// The numbers from 0 up to `count`, as names of unknowns.
pub open spec fn numbered(count: int) -> Seq<usize>
    decreases count,
{
    if count <= 0 {
        Seq::empty()
    } else {
        numbered(count - 1).push((count - 1) as usize)
    }
}

/// The numbers of the first `upto` buttons that are wired to the counter, in
/// ascending order.
pub open spec fn wired_to(buttons: Seq<Seq<usize>>, counter: usize, upto: int) -> Seq<usize>
    decreases upto,
{
    if upto <= 0 {
        Seq::empty()
    } else if buttons[upto - 1].contains(counter) {
        wired_to(buttons, counter, upto - 1).push((upto - 1) as usize)
    } else {
        wired_to(buttons, counter, upto - 1)
    }
}

/// Whether the problem is that of a machine with these buttons and joltage
/// requirements.
pub open spec fn is_problem_of(
    problem: Problem,
    buttons: Seq<Seq<usize>>,
    joltage: Seq<u32>,
) -> bool {
    &&& problem.unknowns == buttons.len()
    &&& problem.at_least == 0
    &&& problem.minimized@ == numbered(buttons.len() as int)
    &&& problem.equations@.len() == joltage.len()
    &&& forall|c: int|
        0 <= c < joltage.len() ==> (#[trigger] problem.equations@[c]).sum == joltage[c]
            && problem.equations@[c].unknowns@ == wired_to(
            buttons,
            c as usize,
            buttons.len() as int,
        )
}

/// The numbers up to `count` are as many, and each is below `count`.
pub proof fn lemma_numbered(count: int)
    requires
        0 <= count <= u32::MAX,
    ensures
        numbered(count).len() == count,
        forall|i: int| 0 <= i < count ==> #[trigger] numbered(count)[i] == i,
    decreases count,
{
    if count > 0 {
        lemma_numbered(count - 1);
    }
}

/// The buttons wired to a counter are among the first `upto`, in ascending
/// order, and they are the buttons that are wired to it.
pub proof fn lemma_wired_to(buttons: Seq<Seq<usize>>, counter: usize, upto: int)
    requires
        0 <= upto <= u32::MAX,
    ensures
        forall|i: int|
            0 <= i < wired_to(buttons, counter, upto).len() ==> #[trigger] wired_to(
                buttons,
                counter,
                upto,
            )[i] < upto && buttons[wired_to(buttons, counter, upto)[i] as int].contains(counter),
        forall|i: int, j: int|
            0 <= i < j < wired_to(buttons, counter, upto).len() ==> wired_to(
                buttons,
                counter,
                upto,
            )[i] < wired_to(buttons, counter, upto)[j],
        forall|b: int|
            0 <= b < upto && buttons[b].contains(counter) ==> wired_to(
                buttons,
                counter,
                upto,
            ).contains(b as usize),
    decreases upto,
{
    if upto > 0 {
        lemma_wired_to(buttons, counter, upto - 1);
        let before = wired_to(buttons, counter, upto - 1);
        let all = wired_to(buttons, counter, upto);
        assert forall|b: int| 0 <= b < upto && buttons[b].contains(counter) implies all.contains(
            b as usize,
        ) by {
            if b < upto - 1 {
                assert(before.contains(b as usize));
                let at = choose|at: int| 0 <= at < before.len() && before[at] == b as usize;
                assert(all[at] == b as usize);
            } else {
                assert(all[all.len() - 1] == b as usize);
            }
        }
    }
}

/// Puts the problem to the optimizer of z3 and gives the values that it
/// names, one for each unknown.  The problem is written in z3's terms with
/// `Int::new_const`, `Int::from_u64`, `+`, `Int::ge` and `Ast::eq`, and given
/// to a new `Optimize` with `assert` and `minimize`.
/// `Optimize::check_and_get_model` then checks the problem and, where z3
/// finds it satisfiable, reads the value of each unknown from the model;
/// `Int::as_u64` turns each into a number.  Nothing is claimed of the answer:
/// z3 may give none for a problem that has one, and what it gives is checked
/// by who asks.
#[verifier::external_body]
fn least_values(problem: &Problem) -> Option<Vec<u64>>
    requires
        problem.posed(),
{
    let optimizer = Optimize::new();
    let unknowns: Vec<Int> = (0..problem.unknowns).map(Int::new_const).collect();
    let sum = |named: &Vec<usize>| named.iter().fold(Int::from_u64(0), |sum, i| sum + &unknowns[*i]);
    for unknown in &unknowns {
        optimizer.assert(&unknown.ge(problem.at_least));
    }
    for equation in &problem.equations {
        optimizer.assert(&sum(&equation.unknowns).eq(equation.sum));
    }
    optimizer.minimize(&sum(&problem.minimized));
    optimizer.check_and_get_model(&unknowns, true)?.iter().map(Int::as_u64).collect()
}

/// The joltage that the presses of the first `upto` buttons raise the
/// counter `counter` to: the sum of the presses of those that are wired to
/// it.
pub open spec fn joltage_raised(
    buttons: Seq<Seq<usize>>,
    presses: Seq<u64>,
    counter: usize,
    upto: int,
) -> nat
    decreases upto,
{
    if upto <= 0 {
        0
    } else {
        joltage_raised(buttons, presses, counter, upto - 1) + if buttons[upto - 1].contains(
            counter,
        ) {
            presses[upto - 1] as nat
        } else {
            0nat
        }
    }
}

/// The sum of the first `upto` numbers of presses.
pub open spec fn presses_sum(presses: Seq<u64>, upto: int) -> nat
    decreases upto,
{
    if upto <= 0 {
        0
    } else {
        presses_sum(presses, upto - 1) + presses[upto - 1] as nat
    }
}

/// Whether the presses, one number for each button, raise every counter to
/// its requirement.
pub open spec fn meets(buttons: Seq<Seq<usize>>, joltage: Seq<u32>, presses: Seq<u64>) -> bool {
    &&& presses.len() == buttons.len()
    &&& forall|counter: int|
        0 <= counter < joltage.len() ==> joltage_raised(
            buttons,
            presses,
            counter as usize,
            buttons.len() as int,
        ) == #[trigger] joltage[counter]
}

/// Whether `total` presses in all can raise every counter to its
/// requirement.
pub open spec fn achievable(buttons: Seq<Seq<usize>>, joltage: Seq<u32>, total: nat) -> bool {
    exists|presses: Seq<u64>| #[trigger]
        meets(buttons, joltage, presses) && presses_sum(presses, presses.len() as int) == total
}

/// More buttons raise a counter no lower.
pub proof fn lemma_joltage_grows(
    buttons: Seq<Seq<usize>>,
    presses: Seq<u64>,
    counter: usize,
    upto: int,
    end: int,
)
    requires
        0 <= upto <= end,
    ensures
        joltage_raised(buttons, presses, counter, upto) <= joltage_raised(
            buttons,
            presses,
            counter,
            end,
        ),
    decreases end - upto,
{
    if upto < end {
        lemma_joltage_grows(buttons, presses, counter, upto, end - 1);
    }
}

/// More buttons make the sum of the presses no smaller.
pub proof fn lemma_presses_sum_grows(presses: Seq<u64>, upto: int, end: int)
    requires
        0 <= upto <= end,
    ensures
        presses_sum(presses, upto) <= presses_sum(presses, end),
    decreases end - upto,
{
    if upto < end {
        lemma_presses_sum_grows(presses, upto, end - 1);
    }
}

/// Tells whether the presses raise the counter `counter` to `requirement`.
pub fn raises_to(buttons: &Vec<Button>, presses: &Vec<u64>, counter: usize, requirement: u32) -> (r:
    bool)
    requires
        presses@.len() == buttons@.len(),
    ensures
        r == (joltage_raised(buttons.deep_view(), presses@, counter, buttons@.len() as int)
            == requirement),
{
    let ghost wiring = buttons.deep_view();
    let mut raised: u64 = 0;
    let mut b: usize = 0;
    while b < buttons.len()
        invariant
            0 <= b <= buttons@.len(),
            presses@.len() == buttons@.len(),
            wiring == buttons.deep_view(),
            raised == joltage_raised(wiring, presses@, counter, b as int),
            raised <= requirement,
        decreases buttons@.len() - b,
    {
        assert(wiring[b as int] == buttons@[b as int].wiring@);
        if is_wired(&buttons[b], counter) {
            if presses[b] > requirement as u64 - raised {
                proof {
                    lemma_joltage_grows(wiring, presses@, counter, b + 1, buttons@.len() as int);
                }
                return false;
            }
            raised += presses[b];
        }
        b += 1;
    }
    raised == requirement as u64
}

/// Adds up the presses, if they raise every counter of the machine to its
/// requirement and their sum fits 64 bits.
pub fn checked_total(machine: &Machine<u32>, presses: &Vec<u64>) -> (r: Option<u64>)
    ensures
        r matches Some(total) ==> meets(machine.buttons.deep_view(), machine.joltage@, presses@)
            && total == presses_sum(presses@, presses@.len() as int),
        r is None ==> !meets(machine.buttons.deep_view(), machine.joltage@, presses@)
            || presses_sum(presses@, presses@.len() as int) > u64::MAX,
{
    if presses.len() != machine.buttons.len() {
        return None;
    }
    let mut counter: usize = 0;
    while counter < machine.joltage.len()
        invariant
            0 <= counter <= machine.joltage@.len(),
            presses@.len() == machine.buttons@.len(),
            forall|c: int|
                0 <= c < counter ==> joltage_raised(
                    machine.buttons.deep_view(),
                    presses@,
                    c as usize,
                    machine.buttons@.len() as int,
                ) == #[trigger] machine.joltage@[c],
        decreases machine.joltage@.len() - counter,
    {
        if !raises_to(&machine.buttons, presses, counter, machine.joltage[counter]) {
            assert(machine.joltage@[counter as int] != joltage_raised(
                machine.buttons.deep_view(),
                presses@,
                counter,
                machine.buttons@.len() as int,
            ));
            return None;
        }
        counter += 1;
    }
    let mut total: u64 = 0;
    let mut b: usize = 0;
    while b < presses.len()
        invariant
            0 <= b <= presses@.len(),
            total == presses_sum(presses@, b as int),
        decreases presses@.len() - b,
    {
        total = match total.checked_add(presses[b]) {
            Some(total) => total,
            None => {
                proof {
                    lemma_presses_sum_grows(presses@, b + 1, presses@.len() as int);
                }
                return None;
            },
        };
        b += 1;
    }
    Some(total)
}

/// The sum over the unknowns that a problem of a machine names is the joltage
/// that the presses raise the counter to.
pub proof fn lemma_chosen_is_raised(
    buttons: Seq<Seq<usize>>,
    values: Seq<u64>,
    counter: usize,
    upto: int,
)
    requires
        0 <= upto <= u32::MAX,
    ensures
        chosen_sum(values, wired_to(buttons, counter, upto)) == joltage_raised(
            buttons,
            values,
            counter,
            upto,
        ),
    decreases upto,
{
    if upto > 0 {
        lemma_chosen_is_raised(buttons, values, counter, upto - 1);
        if buttons[upto - 1].contains(counter) {
            assert(wired_to(buttons, counter, upto).drop_last() =~= wired_to(
                buttons,
                counter,
                upto - 1,
            ));
        }
    }
}

/// The sum over all the unknowns is the sum of the presses.
pub proof fn lemma_chosen_is_all(values: Seq<u64>, upto: int)
    requires
        0 <= upto <= u32::MAX,
    ensures
        chosen_sum(values, numbered(upto)) == presses_sum(values, upto),
    decreases upto,
{
    if upto > 0 {
        lemma_chosen_is_all(values, upto - 1);
        assert(numbered(upto).drop_last() =~= numbered(upto - 1));
    }
}

/// The problem of a machine is solved by the presses that raise every
/// counter of the machine to its requirement, and by no others, and wants
/// the sum of the presses small.
pub proof fn lemma_problem_of(
    problem: Problem,
    buttons: Seq<Seq<usize>>,
    joltage: Seq<u32>,
    values: Seq<u64>,
)
    requires
        is_problem_of(problem, buttons, joltage),
        buttons.len() <= MOST_UNKNOWNS,
    ensures
        problem.solved_by(values) == meets(buttons, joltage, values),
        problem.cost(values) == presses_sum(values, buttons.len() as int),
{
    lemma_chosen_is_all(values, buttons.len() as int);
    if problem.solved_by(values) {
        assert forall|counter: int| 0 <= counter < joltage.len() implies joltage_raised(
            buttons,
            values,
            counter as usize,
            buttons.len() as int,
        ) == #[trigger] joltage[counter] by {
            lemma_chosen_is_raised(buttons, values, counter as usize, buttons.len() as int);
            assert(problem.equations@[counter].sum == joltage[counter]);
        }
    }
    if meets(buttons, joltage, values) {
        assert forall|e: int| 0 <= e < problem.equations@.len() implies chosen_sum(
            values,
            (#[trigger] problem.equations@[e]).unknowns@,
        ) == problem.equations@[e].sum by {
            lemma_chosen_is_raised(buttons, values, e as usize, buttons.len() as int);
            assert(joltage_raised(buttons, values, e as usize, buttons.len() as int) == joltage[e]);
        }
    }
}

/// What an answer names, if it names values.
pub open spec fn named(answer: Option<Vec<u64>>) -> Option<Seq<u64>> {
    match answer {
        Some(values) => Some(values@),
        None => None,
    }
}

/// Whether the answer is right of the machine: presses that raise every
/// counter to its requirement with no more presses in all than any others
/// that do, or no presses where none do.
pub open spec fn answers_rightly(
    buttons: Seq<Seq<usize>>,
    joltage: Seq<u32>,
    answer: Option<Seq<u64>>,
) -> bool {
    match answer {
        Some(presses) => meets(buttons, joltage, presses) && forall|other: Seq<u64>|
            #[trigger] meets(buttons, joltage, other) ==> presses_sum(
                presses,
                presses.len() as int,
            ) <= presses_sum(other, other.len() as int),
        None => forall|other: Seq<u64>| !#[trigger] meets(buttons, joltage, other),
    }
}

/// Whether `total` presses in all can raise every counter to its
/// requirement, and no fewer can.
pub open spec fn is_least_total(buttons: Seq<Seq<usize>>, joltage: Seq<u32>, total: nat) -> bool {
    &&& achievable(buttons, joltage, total)
    &&& forall|other: Seq<u64>|
        #[trigger] meets(buttons, joltage, other) ==> total <= presses_sum(
            other,
            other.len() as int,
        )
}

/// An answer that is right of the problem of a machine is right of the
/// machine.
pub proof fn lemma_right_answer(
    problem: Problem,
    buttons: Seq<Seq<usize>>,
    joltage: Seq<u32>,
    answer: Option<Seq<u64>>,
)
    requires
        is_problem_of(problem, buttons, joltage),
        buttons.len() <= MOST_UNKNOWNS,
        problem.answered_by(answer),
    ensures
        answers_rightly(buttons, joltage, answer),
{
    match answer {
        Some(presses) => {
            lemma_problem_of(problem, buttons, joltage, presses);
            assert forall|other: Seq<u64>| #[trigger]
                meets(buttons, joltage, other) implies presses_sum(presses, presses.len() as int)
                <= presses_sum(other, other.len() as int) by {
                lemma_problem_of(problem, buttons, joltage, other);
                assert(problem.solved_by(other));
            }
        },
        None => {
            assert forall|other: Seq<u64>| !#[trigger] meets(buttons, joltage, other) by {
                lemma_problem_of(problem, buttons, joltage, other);
                assert(!problem.solved_by(other));
            }
        },
    }
}

/// The presses of a button that is wired to a counter are no more than the
/// joltage that the presses raise the counter to.
pub proof fn lemma_presses_within_joltage(
    buttons: Seq<Seq<usize>>,
    presses: Seq<u64>,
    counter: usize,
    upto: int,
    button: int,
)
    requires
        0 <= button < upto,
        buttons[button].contains(counter),
    ensures
        presses[button] <= joltage_raised(buttons, presses, counter, upto),
    decreases upto,
{
    if button < upto - 1 {
        lemma_presses_within_joltage(buttons, presses, counter, upto - 1, button);
    }
}

/// Other presses of a button that is not wired to a counter raise the
/// counter to the same joltage.
pub proof fn lemma_joltage_without(
    buttons: Seq<Seq<usize>>,
    presses: Seq<u64>,
    counter: usize,
    upto: int,
    button: int,
    other: u64,
)
    requires
        0 <= button < presses.len(),
        0 <= upto <= presses.len(),
        !buttons[button].contains(counter),
    ensures
        joltage_raised(buttons, presses.update(button, other), counter, upto) == joltage_raised(
            buttons,
            presses,
            counter,
            upto,
        ),
    decreases upto,
{
    if upto > 0 {
        lemma_joltage_without(buttons, presses, counter, upto - 1, button, other);
    }
}

/// Without the presses of one button, the sum of the presses is smaller by
/// these presses.
pub proof fn lemma_sum_without(presses: Seq<u64>, upto: int, button: int)
    requires
        0 <= button < presses.len(),
        0 <= upto <= presses.len(),
    ensures
        presses_sum(presses.update(button, 0), upto) == presses_sum(presses, upto) - if button
            < upto {
            presses[button] as int
        } else {
            0
        },
    decreases upto,
{
    if upto > 0 {
        lemma_sum_without(presses, upto - 1, button);
    }
}

/// The sum of presses that are each a number of 32 bits is no more than so
/// many such numbers.
pub proof fn lemma_sum_of_small(presses: Seq<u64>, upto: int)
    requires
        0 <= upto <= presses.len(),
        forall|i: int| 0 <= i < upto ==> #[trigger] presses[i] <= u32::MAX,
    ensures
        presses_sum(presses, upto) <= upto * u32::MAX,
    decreases upto,
{
    if upto > 0 {
        lemma_sum_of_small(presses, upto - 1);
        assert(presses[upto - 1] <= u32::MAX);
        assert((upto - 1) * u32::MAX + u32::MAX == upto * u32::MAX) by (nonlinear_arith);
    }
}

/// The fewest presses of a machine with no more buttons than unknowns can be
/// named fit 64 bits: a button that is wired to a counter is pressed no more
/// often than the counter requires, and a button that is wired to none is
/// not pressed.
pub proof fn lemma_least_fits(buttons: Seq<Seq<usize>>, joltage: Seq<u32>, presses: Seq<u64>)
    requires
        answers_rightly(buttons, joltage, Some(presses)),
        buttons.len() <= MOST_UNKNOWNS,
    ensures
        presses_sum(presses, presses.len() as int) <= u64::MAX,
{
    let count = buttons.len() as int;
    assert forall|i: int| 0 <= i < count implies #[trigger] presses[i] <= u32::MAX by {
        if exists|c: int| 0 <= c < joltage.len() && #[trigger] buttons[i].contains(c as usize) {
            let c = choose|c: int|
                0 <= c < joltage.len() && #[trigger] buttons[i].contains(c as usize);
            lemma_presses_within_joltage(buttons, presses, c as usize, count, i);
            assert(joltage_raised(buttons, presses, c as usize, count) == joltage[c]);
        } else if presses[i] > 0 {
            let other = presses.update(i, 0);
            assert(meets(buttons, joltage, other)) by {
                assert forall|c: int| 0 <= c < joltage.len() implies joltage_raised(
                    buttons,
                    other,
                    c as usize,
                    buttons.len() as int,
                ) == #[trigger] joltage[c] by {
                    assert(!buttons[i].contains(c as usize));
                    lemma_joltage_without(buttons, presses, c as usize, count, i, 0);
                    assert(joltage_raised(buttons, presses, c as usize, count) == joltage[c]);
                }
            }
            lemma_sum_without(presses, count, i);
            assert(presses_sum(presses, presses.len() as int) <= presses_sum(
                other,
                other.len() as int,
            ));
        }
    }
    lemma_sum_of_small(presses, count);
    assert(count * u32::MAX <= 0x4000_0000 * 0xffff_ffff) by (nonlinear_arith)
        requires
            0 <= count <= 0x4000_0000,
    ;
}

/// Counts the presses that an answer names: their sum, where they raise
/// every counter of the machine to its requirement and the sum fits 64 bits;
/// nothing where the answer names none.
///
/// Where the answer is right of the machine, and the machine has no more
/// buttons than unknowns can be named, the count is the least number of
/// presses in all, and there is none only where no presses raise the
/// counters to their requirements.
pub fn counted(machine: &Machine<u32>, answer: &Option<Vec<u64>>) -> (r: Option<u64>)
    ensures
        *answer is None ==> r is None,
        *answer matches Some(presses) ==> match r {
            Some(total) => meets(machine.buttons.deep_view(), machine.joltage@, presses@) && total
                == presses_sum(presses@, presses@.len() as int),
            None => !meets(machine.buttons.deep_view(), machine.joltage@, presses@) || presses_sum(
                presses@,
                presses@.len() as int,
            ) > u64::MAX,
        },
        answers_rightly(machine.buttons.deep_view(), machine.joltage@, named(*answer))
            && machine.buttons@.len() <= MOST_UNKNOWNS ==> match r {
            Some(total) => is_least_total(
                machine.buttons.deep_view(),
                machine.joltage@,
                total as nat,
            ),
            None => forall|presses: Seq<u64>|
                !#[trigger] meets(machine.buttons.deep_view(), machine.joltage@, presses),
        },
{
    let ghost buttons = machine.buttons.deep_view();
    let ghost joltage = machine.joltage@;
    match answer {
        None => None,
        Some(presses) => {
            let found = checked_total(machine, presses);
            proof {
                if answers_rightly(buttons, joltage, named(*answer)) && buttons.len()
                    <= MOST_UNKNOWNS {
                    lemma_least_fits(buttons, joltage, presses@);
                    assert(is_least_total(
                        buttons,
                        joltage,
                        presses_sum(presses@, presses@.len() as int),
                    ));
                }
            }
            found
        },
    }
}

/// Finds the presses that raise every counter of the machine to its
/// requirement with the fewest presses in all, and gives their sum: writes
/// down the problem of the machine, puts it to the optimizer, and counts the
/// presses that the optimizer names.  Gives nothing where the optimizer
/// names no presses, or names presses that do not stand the check, or the
/// machine has more buttons than the optimizer can name unknowns.
pub fn solve_machine(machine: &Machine<u32>) -> (r: Option<u64>)
    ensures
        r matches Some(total) ==> achievable(
            machine.buttons.deep_view(),
            machine.joltage@,
            total as nat,
        ),
        machine.buttons@.len() > MOST_UNKNOWNS ==> r is None,
{
    let problem = match Problem::of(machine) {
        Some(problem) => problem,
        None => { return None; },
    };
    let answer = least_values(&problem);
    counted(machine, &answer)
}

/// What the results of the machines add up to: `Unsatisfiable` where a
/// machine has no result and the results before it fit 64 bits together,
/// `Overflow` where the results up to some machine do not, and their sum
/// else.
pub open spec fn summed(results: Seq<Option<u64>>, upto: int) -> Result<nat, Error>
    decreases upto,
{
    if upto <= 0 {
        Ok(0)
    } else {
        match summed(results, upto - 1) {
            Err(e) => Err(e),
            Ok(before) => match results[upto - 1] {
                None => Err(Error::Unsatisfiable),
                Some(n) => if before + n > u64::MAX {
                    Err(Error::Overflow)
                } else {
                    Ok(before + n as nat)
                },
            },
        }
    }
}

/// A failure among the first results is the failure of the whole sum.
pub proof fn lemma_summed_fails_early(results: Seq<Option<u64>>, upto: int, end: int)
    requires
        0 <= upto <= end,
        summed(results, upto) is Err,
    ensures
        summed(results, end) == summed(results, upto),
    decreases end - upto,
{
    if upto < end {
        lemma_summed_fails_early(results, upto, end - 1);
    }
}

/// Adds up the results of the machines.
pub fn total_presses(results: &Vec<Option<u64>>) -> (r: Result<u64, Error>)
    ensures
        match r {
            Ok(total) => summed(results@, results@.len() as int) == Ok::<nat, Error>(total as nat),
            Err(e) => summed(results@, results@.len() as int) == Err::<nat, Error>(e),
        },
{
    let mut total: u64 = 0;
    let mut i: usize = 0;
    while i < results.len()
        invariant
            0 <= i <= results@.len(),
            summed(results@, i as int) == Ok::<nat, Error>(total as nat),
        decreases results@.len() - i,
    {
        let presses = match results[i] {
            Some(presses) => presses,
            None => {
                proof {
                    lemma_summed_fails_early(results@, i + 1, results@.len() as int);
                }
                return Err(Error::Unsatisfiable);
            },
        };
        total = match total.checked_add(presses) {
            Some(total) => total,
            None => {
                proof {
                    lemma_summed_fails_early(results@, i + 1, results@.len() as int);
                }
                return Err(Error::Overflow);
            },
        };
        i += 1;
    }
    Ok(total)
}

/// Whether each of the results that is a number is the number of presses
/// that can raise the counters of its machine to their requirements.
pub open spec fn all_achievable(
    machines: Seq<(Seq<Light>, Seq<Seq<usize>>, Seq<u32>)>,
    results: Seq<Option<u64>>,
) -> bool {
    &&& results.len() == machines.len()
    &&& forall|i: int|
        0 <= i < results.len() ==> (#[trigger] results[i] matches Some(total) ==> achievable(
            machines[i].1,
            machines[i].2,
            total as nat,
        ))
}

/// Reads the machines, one to a line, asks the optimizer for the fewest
/// presses of each, and adds them up.  Fails with `Parse` where the text
/// does not start with a machine.  What else it returns is what the results
/// of the machines add up to; each result that counts is a number of presses
/// that raise the counters of its machine to their requirements.
pub fn solve(input: &str) -> (r: Result<u64, Error>)
    ensures
        match list_at::<Machine<u32>>(input.spec_bytes(), 0, Separator::Line) {
            None => r == Err::<u64, Error>(Error::Parse(Stage::Machines)),
            Some((machines, _)) => exists|results: Seq<Option<u64>>|
                #![trigger all_achievable(machines, results)]
                all_achievable(machines, results) && match r {
                    Ok(total) => summed(results, results.len() as int) == Ok::<nat, Error>(
                        total as nat,
                    ),
                    Err(e) => summed(results, results.len() as int) == Err::<nat, Error>(e),
                },
        },
{
    let (machines, end) = match parse_list::<Machine<u32>>(input.as_bytes(), 0, Separator::Line) {
        Some(found) => found,
        None => { return Err(Error::Parse(Stage::Machines)); },
    };
    let ghost read = machines.deep_view();
    let mut results: Vec<Option<u64>> = Vec::new();
    let mut i: usize = 0;
    while i < machines.len()
        invariant
            0 <= i <= machines@.len(),
            read == machines.deep_view(),
            results@.len() == i,
            forall|k: int|
                0 <= k < i ==> (#[trigger] results@[k] matches Some(total) ==> achievable(
                    read[k].1,
                    read[k].2,
                    total as nat,
                )),
        decreases machines@.len() - i,
    {
        assert(read[i as int] == machines@[i as int].deep_view());
        assert(machines@[i as int].joltage.deep_view() =~= machines@[i as int].joltage@);
        let found = solve_machine(&machines[i]);
        results.push(found);
        i += 1;
    }
    let total = total_presses(&results);
    proof {
        let parsed = list_at::<Machine<u32>>(input.spec_bytes(), 0, Separator::Line);
        assert(parsed.unwrap().0 == read);
        assert(all_achievable(read, results@));
    }
    total
}

} // verus!
