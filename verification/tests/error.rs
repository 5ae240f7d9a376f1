use daily_puzzles::error::{Error, Stage};

#[test]
fn stages_describe_themselves() {
    assert_eq!(Stage::ItemGrid.describe(), "parse item grid");
    assert_eq!(Stage::Worksheet.describe(), "parse worksheet");
    assert_eq!(Stage::Manifold.describe(), "parse manifold");
    assert_eq!(Stage::JunctionBoxes.describe(), "parse junction boxes");
    assert_eq!(Stage::RedTiles.describe(), "parse red tiles");
    assert_eq!(Stage::Machines.describe(), "parse machines");
    assert_eq!(Stage::Connections.describe(), "parse connections");
    assert_eq!(Stage::Puzzle.describe(), "parse puzzle");
    assert_ne!(Error::Parse(Stage::Puzzle), Error::Parse(Stage::Machines));
    assert_ne!(Error::Overflow, Error::Cycle);
}
