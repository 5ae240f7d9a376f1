//! The ways in which solving a puzzle fails.

use vstd::prelude::*;

verus! {

/// The piece of puzzle text that a parser was reading when it gave up.
#[derive(Clone, Copy, Debug, PartialEq, Eq, Structural)]
pub enum Stage {
    ItemGrid,
    Worksheet,
    Manifold,
    JunctionBoxes,
    RedTiles,
    Machines,
    Connections,
    Puzzle,
}

/// Why a puzzle has no answer.
#[derive(Clone, Copy, Debug, PartialEq, Eq, Structural)]
pub enum Error {
    /// The text does not follow the grammar of the named stage.
    Parse(Stage),
    /// A number that the computation needs does not fit its machine integer.
    Overflow,
    /// No combination of button presses brings a machine to its goal.
    Unsatisfiable,
    /// The wiring leads back into itself, so there is no finite count of paths.
    Cycle,
}

impl Stage {
    /// The words that describe the stage.
    pub open spec fn description(self) -> Seq<char> {
        match self {
            Stage::ItemGrid => "parse item grid"@,
            Stage::Worksheet => "parse worksheet"@,
            Stage::Manifold => "parse manifold"@,
            Stage::JunctionBoxes => "parse junction boxes"@,
            Stage::RedTiles => "parse red tiles"@,
            Stage::Machines => "parse machines"@,
            Stage::Connections => "parse connections"@,
            Stage::Puzzle => "parse puzzle"@,
        }
    }

    /// A short description of the stage, for messages.
    pub fn describe(self) -> (r: &'static str)
        ensures
            r@ == self.description(),
    {
        match self {
            Stage::ItemGrid => "parse item grid",
            Stage::Worksheet => "parse worksheet",
            Stage::Manifold => "parse manifold",
            Stage::JunctionBoxes => "parse junction boxes",
            Stage::RedTiles => "parse red tiles",
            Stage::Machines => "parse machines",
            Stage::Connections => "parse connections",
            Stage::Puzzle => "parse puzzle",
        }
    }
}

} // verus!
