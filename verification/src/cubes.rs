//! Sets of coloured cubes: how many cubes of each colour a text names.
//!
//! The text names cubes by a number, spaces, and one of the colours `red`,
//! `green` and `blue`, one naming directly after the other.  The set ends
//! where the text goes on with something else.

use crate::error::Error;
use crate::text::{list_at, number_at, parse_list, parse_number, Item, Separator};
use vstd::prelude::*;
use vstd::string::*;

verus! {

/// The colour of a cube.
#[derive(Clone, Copy, Debug, PartialEq, Eq, Structural)]
pub enum Color {
    Red,
    Green,
    Blue,
}

/// A number of cubes of one colour.
#[derive(Clone, Copy, Debug, PartialEq, Eq, Structural)]
pub struct Cubes {
    pub count: u32,
    pub color: Color,
}

/// How many cubes of each colour there are.
#[derive(Clone, Copy, Debug, PartialEq, Eq, Structural)]
pub struct CubeSet {
    pub r: usize,
    pub g: usize,
    pub b: usize,
}

/// Whether the bytes of `word` stand at `pos`.
pub open spec fn word_at(s: Seq<u8>, pos: int, word: Seq<u8>) -> bool {
    0 <= pos && pos + word.len() <= s.len() && s.subrange(pos, pos + word.len()) == word
}

/// The colour written at `pos`, and where it ends.
pub open spec fn color_at(s: Seq<u8>, pos: int) -> Option<(Color, int)> {
    if word_at(s, pos, seq![0x72u8, 0x65, 0x64]) {
        Some((Color::Red, pos + 3))
    } else if word_at(s, pos, seq![0x67u8, 0x72, 0x65, 0x65, 0x6e]) {
        Some((Color::Green, pos + 5))
    } else if word_at(s, pos, seq![0x62u8, 0x6c, 0x75, 0x65]) {
        Some((Color::Blue, pos + 4))
    } else {
        None
    }
}

/// Reads the colour at `pos`.
pub fn parse_color(input: &[u8], pos: usize) -> (r: Option<(Color, usize)>)
    ensures
        r matches Some((color, end)) ==> color_at(input@, pos as int) == Some(
            (color, end as int),
        ) && pos < end <= input@.len(),
        r is None ==> color_at(input@, pos as int) is None,
{
    if pos > input.len() {
        return None;
    }
    let left = input.len() - pos;
    let ghost s = input@;
    if left >= 3 && input[pos] == 0x72 && input[pos + 1] == 0x65 && input[pos + 2] == 0x64 {
        assert(s.subrange(pos as int, pos + 3) =~= seq![0x72u8, 0x65, 0x64]);
        return Some((Color::Red, pos + 3));
    }
    proof {
        let word = seq![0x72u8, 0x65, 0x64];
        if word_at(s, pos as int, word) {
            assert(s.subrange(pos as int, pos + 3)[0] == word[0]);
            assert(s.subrange(pos as int, pos + 3)[1] == word[1]);
            assert(s.subrange(pos as int, pos + 3)[2] == word[2]);
        }
    }
    if left >= 5 && input[pos] == 0x67 && input[pos + 1] == 0x72 && input[pos + 2] == 0x65
        && input[pos + 3] == 0x65 && input[pos + 4] == 0x6e {
        assert(s.subrange(pos as int, pos + 5) =~= seq![0x67u8, 0x72, 0x65, 0x65, 0x6e]);
        return Some((Color::Green, pos + 5));
    }
    proof {
        let word = seq![0x67u8, 0x72, 0x65, 0x65, 0x6e];
        if word_at(s, pos as int, word) {
            assert(s.subrange(pos as int, pos + 5)[0] == word[0]);
            assert(s.subrange(pos as int, pos + 5)[1] == word[1]);
            assert(s.subrange(pos as int, pos + 5)[2] == word[2]);
            assert(s.subrange(pos as int, pos + 5)[3] == word[3]);
            assert(s.subrange(pos as int, pos + 5)[4] == word[4]);
        }
    }
    if left >= 4 && input[pos] == 0x62 && input[pos + 1] == 0x6c && input[pos + 2] == 0x75
        && input[pos + 3] == 0x65 {
        assert(s.subrange(pos as int, pos + 4) =~= seq![0x62u8, 0x6c, 0x75, 0x65]);
        return Some((Color::Blue, pos + 4));
    }
    proof {
        let word = seq![0x62u8, 0x6c, 0x75, 0x65];
        if word_at(s, pos as int, word) {
            assert(s.subrange(pos as int, pos + 4)[0] == word[0]);
            assert(s.subrange(pos as int, pos + 4)[1] == word[1]);
            assert(s.subrange(pos as int, pos + 4)[2] == word[2]);
            assert(s.subrange(pos as int, pos + 4)[3] == word[3]);
        }
    }
    None
}

impl DeepView for Cubes {
    type V = Cubes;

    open spec fn deep_view(&self) -> Cubes {
        *self
    }
}

impl Item for Cubes {
    /// A number of 32 bits, spaces, and a colour.
    open spec fn item_at(s: Seq<u8>, pos: int) -> Option<(Cubes, int)> {
        match number_at(s, pos, u32::MAX as nat) {
            Some((count, gap)) => match Separator::Spaces.at(s, gap) {
                Some(start) => match color_at(s, start) {
                    Some((color, end)) => Some((Cubes { count: count as u32, color }, end)),
                    None => None,
                },
                None => None,
            },
            None => None,
        }
    }

    fn parse(input: &[u8], pos: usize) -> (r: Option<(Cubes, usize)>) {
        let (count, gap) = match parse_number(input, pos, 0xffff_ffff) {
            Some(found) => found,
            None => { return None; },
        };
        let start = match Separator::Spaces.parse(input, gap) {
            Some(start) => start,
            None => { return None; },
        };
        match parse_color(input, start) {
            Some((color, end)) => Some((Cubes { count: count as u32, color }, end)),
            None => None,
        }
    }
}

/// The cubes named at `pos`, none or more, and where the naming ends.
pub open spec fn cubes_at(s: Seq<u8>, pos: int) -> (Seq<Cubes>, int) {
    match list_at::<Cubes>(s, pos, Separator::Nothing) {
        Some(found) => found,
        None => (Seq::empty(), pos),
    }
}

/// The number of cubes of the colour among the first `upto` that are named.
pub open spec fn total(cubes: Seq<Cubes>, color: Color, upto: int) -> nat
    decreases upto,
{
    if upto <= 0 {
        0
    } else {
        total(cubes, color, upto - 1) + if cubes[upto - 1].color == color {
            cubes[upto - 1].count as nat
        } else {
            0nat
        }
    }
}

/// More cubes make the number of a colour no smaller.
pub proof fn lemma_total_grows(cubes: Seq<Cubes>, color: Color, upto: int, end: int)
    requires
        0 <= upto <= end,
    ensures
        total(cubes, color, upto) <= total(cubes, color, end),
    decreases end - upto,
{
    if upto < end {
        lemma_total_grows(cubes, color, upto, end - 1);
    }
}

/// Whether the numbers of cubes of each colour fit the machine's numbers.
pub open spec fn countable(cubes: Seq<Cubes>) -> bool {
    &&& total(cubes, Color::Red, cubes.len() as int) <= usize::MAX
    &&& total(cubes, Color::Green, cubes.len() as int) <= usize::MAX
    &&& total(cubes, Color::Blue, cubes.len() as int) <= usize::MAX
}

/// Reads the cubes that the text starts with, and adds them up colour by
/// colour.  Gives the set and where in the text it ends.  Fails with
/// `Overflow` where the number of cubes of a colour does not fit the
/// machine's numbers.
pub fn parse_set(s: &str) -> (r: Result<(usize, CubeSet), Error>)
    ensures
        match r {
            Ok((end, set)) => {
                let (cubes, stop) = cubes_at(s.spec_bytes(), 0);
                &&& end == stop
                &&& set.r == total(cubes, Color::Red, cubes.len() as int)
                &&& set.g == total(cubes, Color::Green, cubes.len() as int)
                &&& set.b == total(cubes, Color::Blue, cubes.len() as int)
            },
            Err(e) => e == Error::Overflow && !countable(cubes_at(s.spec_bytes(), 0).0),
        },
{
    let (cubes, end) = match parse_list::<Cubes>(s.as_bytes(), 0, Separator::Nothing) {
        Some(found) => found,
        None => (Vec::new(), 0),
    };
    assert(cubes.deep_view() =~= cubes@);
    let mut set = CubeSet { r: 0, g: 0, b: 0 };
    let mut i: usize = 0;
    while i < cubes.len()
        invariant
            0 <= i <= cubes@.len(),
            cubes@ == cubes_at(s.spec_bytes(), 0).0,
            set.r == total(cubes@, Color::Red, i as int),
            set.g == total(cubes@, Color::Green, i as int),
            set.b == total(cubes@, Color::Blue, i as int),
        decreases cubes@.len() - i,
    {
        let count = cubes[i].count as usize;
        let sum = match cubes[i].color {
            Color::Red => set.r.checked_add(count),
            Color::Green => set.g.checked_add(count),
            Color::Blue => set.b.checked_add(count),
        };
        let sum = match sum {
            Some(sum) => sum,
            None => {
                proof {
                    lemma_total_grows(cubes@, cubes@[i as int].color, i + 1, cubes@.len() as int);
                }
                return Err(Error::Overflow);
            },
        };
        match cubes[i].color {
            Color::Red => {
                set.r = sum;
            },
            Color::Green => {
                set.g = sum;
            },
            Color::Blue => {
                set.b = sum;
            },
        }
        i += 1;
    }
    Ok((end, set))
}

impl CubeSet {
    /// Reads the set that the text starts with, as `parse_set` does.
    pub fn parse(s: &str) -> (r: Result<(usize, CubeSet), Error>)
        ensures
            match r {
                Ok((end, set)) => {
                    let (cubes, stop) = cubes_at(s.spec_bytes(), 0);
                    &&& end == stop
                    &&& set.r == total(cubes, Color::Red, cubes.len() as int)
                    &&& set.g == total(cubes, Color::Green, cubes.len() as int)
                    &&& set.b == total(cubes, Color::Blue, cubes.len() as int)
                },
                Err(e) => e == Error::Overflow && !countable(cubes_at(s.spec_bytes(), 0).0),
            },
    {
        parse_set(s)
    }

    /// Reads the set that the text starts with, and passes over the rest of
    /// the text.
    pub fn from_str(s: &str) -> (r: Result<CubeSet, Error>)
        ensures
            match r {
                Ok(set) => {
                    let cubes = cubes_at(s.spec_bytes(), 0).0;
                    &&& set.r == total(cubes, Color::Red, cubes.len() as int)
                    &&& set.g == total(cubes, Color::Green, cubes.len() as int)
                    &&& set.b == total(cubes, Color::Blue, cubes.len() as int)
                },
                Err(e) => e == Error::Overflow && !countable(cubes_at(s.spec_bytes(), 0).0),
            },
    {
        match parse_set(s) {
            Ok((_, set)) => Ok(set),
            Err(e) => Err(e),
        }
    }
}

} // verus!
