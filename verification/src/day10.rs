//! Machines with indicator lights, buttons and joltage counters.
//!
//! A line of the text gives one machine: the goal of its lights in square
//! brackets, then its buttons, each a list in parentheses of what it is
//! wired to, then the joltage requirements in braces.

use crate::text::{byte_at, has_byte, list_at, parse_list, parse_row, row_at, Item, Separator};
use vstd::prelude::*;

pub mod part_1;
pub mod part_2;

verus! {

/// An indicator light.
#[derive(Clone, Copy, Debug, PartialEq, Eq, Structural)]
pub enum Light {
    On,
    Off,
}

impl Light {
    /// The other state of the light.
    pub open spec fn toggled(self) -> Light {
        match self {
            Light::On => Light::Off,
            Light::Off => Light::On,
        }
    }

    /// Switches the light.
    pub fn toggle(self) -> (r: Light)
        ensures
            r == self.toggled(),
    {
        match self {
            Light::On => Light::Off,
            Light::Off => Light::On,
        }
    }
}

/// A button, with the numbers of the lights or counters it is wired to.
#[derive(Debug)]
pub struct Button {
    pub wiring: Vec<usize>,
}

impl DeepView for Button {
    type V = Seq<usize>;

    open spec fn deep_view(&self) -> Seq<usize> {
        self.wiring@
    }
}

impl Item for Button {
    /// Numbers with commas between them, in parentheses.
    open spec fn item_at(s: Seq<u8>, pos: int) -> Option<(Seq<usize>, int)> {
        if byte_at(s, pos, 0x28) {
            match list_at::<usize>(s, pos + 1, Separator::Byte(0x2c)) {
                Some((wiring, close)) => if byte_at(s, close, 0x29) {
                    Some((wiring, close + 1))
                } else {
                    None
                },
                None => None,
            }
        } else {
            None
        }
    }

    fn parse(input: &[u8], pos: usize) -> (r: Option<(Button, usize)>) {
        if !has_byte(input, pos, 0x28) {
            return None;
        }
        let (wiring, close) = match parse_list::<usize>(input, pos + 1, Separator::Byte(0x2c)) {
            Some(found) => found,
            None => { return None; },
        };
        if !has_byte(input, close, 0x29) {
            return None;
        }
        assert(wiring.deep_view() =~= wiring@);
        Some((Button { wiring }, close + 1))
    }
}

/// A machine: the goal of its lights, its buttons, and its joltage
/// requirements.
#[derive(Debug)]
pub struct Machine<J> {
    pub lights: Vec<Light>,
    pub buttons: Vec<Button>,
    pub joltage: Vec<J>,
}

impl<J: DeepView> DeepView for Machine<J> {
    type V = (Seq<Light>, Seq<Seq<usize>>, Seq<J::V>);

    open spec fn deep_view(&self) -> (Seq<Light>, Seq<Seq<usize>>, Seq<J::V>) {
        (self.lights@, self.buttons.deep_view(), self.joltage.deep_view())
    }
}

/// The lights written at `pos`: one or more of `.` for off and `#` for on,
/// in square brackets.
pub open spec fn lights_at(s: Seq<u8>, pos: int) -> Option<(Seq<Light>, int)> {
    if byte_at(s, pos, 0x5b) {
        match row_at(s, pos + 1, 0x2e, 0x23, Light::Off, Light::On) {
            Some((lights, close)) => if byte_at(s, close, 0x5d) {
                Some((lights, close + 1))
            } else {
                None
            },
            None => None,
        }
    } else {
        None
    }
}

/// The joltage requirements written at `pos`: numbers with commas between
/// them, in braces.
pub open spec fn joltage_at<J: Item>(s: Seq<u8>, pos: int) -> Option<(Seq<J::V>, int)> {
    if byte_at(s, pos, 0x7b) {
        match list_at::<J>(s, pos + 1, Separator::Byte(0x2c)) {
            Some((joltage, close)) => if byte_at(s, close, 0x7d) {
                Some((joltage, close + 1))
            } else {
                None
            },
            None => None,
        }
    } else {
        None
    }
}

/// Where the spaces and tabs that start at `pos` end, if there is one.
pub open spec fn gap_at(s: Seq<u8>, pos: int) -> Option<int> {
    Separator::Spaces.at(s, pos)
}

/// Reads the lights at `pos`.
pub fn indicator_lights(input: &[u8], pos: usize) -> (r: Option<(Vec<Light>, usize)>)
    ensures
        r matches Some((lights, end)) ==> lights_at(input@, pos as int) == Some(
            (lights@, end as int),
        ) && pos <= end <= input@.len(),
        r is None ==> lights_at(input@, pos as int) is None,
{
    if !has_byte(input, pos, 0x5b) {
        return None;
    }
    let (lights, close) = match parse_row(input, pos + 1, 0x2e, 0x23, Light::Off, Light::On) {
        Some(found) => found,
        None => { return None; },
    };
    if !has_byte(input, close, 0x5d) {
        return None;
    }
    Some((lights, close + 1))
}

/// Reads the buttons at `pos`, with spaces between them.
pub fn button_wirings(input: &[u8], pos: usize) -> (r: Option<(Vec<Button>, usize)>)
    ensures
        r matches Some((buttons, end)) ==> list_at::<Button>(
            input@,
            pos as int,
            Separator::Spaces,
        ) == Some((buttons.deep_view(), end as int)) && pos <= end <= input@.len(),
        r is None ==> list_at::<Button>(input@, pos as int, Separator::Spaces) is None,
{
    parse_list::<Button>(input, pos, Separator::Spaces)
}

/// Reads the joltage requirements at `pos`.
pub fn joltage_requirements<J: Item>(input: &[u8], pos: usize) -> (r: Option<(Vec<J>, usize)>)
    ensures
        r matches Some((joltage, end)) ==> joltage_at::<J>(input@, pos as int) == Some(
            (joltage.deep_view(), end as int),
        ) && pos <= end <= input@.len(),
        r is None ==> joltage_at::<J>(input@, pos as int) is None,
{
    if !has_byte(input, pos, 0x7b) {
        return None;
    }
    let (joltage, close) = match parse_list::<J>(input, pos + 1, Separator::Byte(0x2c)) {
        Some(found) => found,
        None => { return None; },
    };
    if !has_byte(input, close, 0x7d) {
        return None;
    }
    Some((joltage, close + 1))
}

impl<J: Item> Item for Machine<J> {
    /// The lights, the buttons and the joltage requirements, with spaces
    /// between the three.
    open spec fn item_at(s: Seq<u8>, pos: int) -> Option<
        ((Seq<Light>, Seq<Seq<usize>>, Seq<J::V>), int),
    > {
        match lights_at(s, pos) {
            Some((lights, first)) => match gap_at(s, first) {
                Some(second) => match list_at::<Button>(s, second, Separator::Spaces) {
                    Some((buttons, third)) => match gap_at(s, third) {
                        Some(fourth) => match joltage_at::<J>(s, fourth) {
                            Some((joltage, end)) => Some(((lights, buttons, joltage), end)),
                            None => None,
                        },
                        None => None,
                    },
                    None => None,
                },
                None => None,
            },
            None => None,
        }
    }

    fn parse(input: &[u8], pos: usize) -> (r: Option<(Machine<J>, usize)>) {
        let (lights, first) = match indicator_lights(input, pos) {
            Some(found) => found,
            None => { return None; },
        };
        let second = match Separator::Spaces.parse(input, first) {
            Some(found) => found,
            None => { return None; },
        };
        let (buttons, third) = match button_wirings(input, second) {
            Some(found) => found,
            None => { return None; },
        };
        let fourth = match Separator::Spaces.parse(input, third) {
            Some(found) => found,
            None => { return None; },
        };
        match joltage_requirements::<J>(input, fourth) {
            Some((joltage, end)) => {
                let machine = Machine { lights, buttons, joltage };
                Some((machine, end))
            },
            None => None,
        }
    }
}

/// Tells whether the button is wired to the light or counter `index`.
pub fn is_wired(button: &Button, index: usize) -> (r: bool)
    ensures
        r == button.wiring@.contains(index),
{
    let mut i: usize = 0;
    while i < button.wiring.len()
        invariant
            0 <= i <= button.wiring@.len(),
            forall|k: int| 0 <= k < i ==> button.wiring@[k] != index,
        decreases button.wiring@.len() - i,
    {
        if button.wiring[i] == index {
            return true;
        }
        i += 1;
    }
    false
}

} // verus!
