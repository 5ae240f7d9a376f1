use daily_puzzles::cubes::{parse_color, parse_set, Color, CubeSet, Cubes};
use daily_puzzles::error::Error;
use daily_puzzles::text::Item;

#[test]
fn set_is_read_until_the_text_goes_on_otherwise() {
    assert_eq!(parse_set("1 red6 blue2 green"), Ok((18, CubeSet { r: 1, g: 2, b: 6 })));
    assert_eq!(parse_set("3 blue, 4 red"), Ok((6, CubeSet { r: 0, g: 0, b: 3 })));
    assert_eq!(parse_set("3 blue4  red5\tred6 green 7 red"), Ok((24, CubeSet { r: 9, g: 6, b: 3 })));
    assert_eq!(parse_set(""), Ok((0, CubeSet { r: 0, g: 0, b: 0 })));
    assert_eq!(parse_set("Game 1: 3 blue"), Ok((0, CubeSet { r: 0, g: 0, b: 0 })));
    assert_eq!(parse_set("3blue"), Ok((0, CubeSet { r: 0, g: 0, b: 0 })));
    assert_eq!(parse_set("2 red4294967296 red"), Ok((5, CubeSet { r: 2, g: 0, b: 0 })));
}

#[test]
fn set_parse_and_from_str_agree_with_parse_set() {
    assert_eq!(CubeSet::parse("1 red6 blue2 green"), Ok((18, CubeSet { r: 1, g: 2, b: 6 })));
    assert_eq!(CubeSet::from_str("1 red6 blue2 green;"), Ok(CubeSet { r: 1, g: 2, b: 6 }));
}

#[test]
fn cubes_of_a_colour_add_up() {
    let many = "4294967295 green".repeat(3);
    let expected = 3 * 4294967295u64;
    if usize::MAX as u64 >= expected {
        assert_eq!(parse_set(&many), Ok((48, CubeSet { r: 0, g: expected as usize, b: 0 })));
    } else {
        assert_eq!(parse_set(&many), Err(Error::Overflow));
    }
}

#[test]
fn colours_and_cubes() {
    assert_eq!(parse_color(b"red", 0), Some((Color::Red, 3)));
    assert_eq!(parse_color(b"a green", 2), Some((Color::Green, 7)));
    assert_eq!(parse_color(b"blues", 0), Some((Color::Blue, 4)));
    assert_eq!(parse_color(b"gree", 0), None);
    assert_eq!(parse_color(b"Red", 0), None);
    assert_eq!(parse_color(b"", 0), None);
    assert_eq!(Cubes::parse(b"12 \t red", 0), Some((Cubes { count: 12, color: Color::Red }, 8)));
    assert_eq!(Cubes::parse(b"12red", 0), None);
    assert_eq!(Cubes::parse(b" 12 red", 0), None);
}
