//! Every grammar of the library, written once more with the combinators of
//! nom, and held against what the library reads.

use daily_puzzles::text::{parse_grid, parse_list, parse_row, Item, Separator};
use daily_puzzles::{cubes, day01, day02, day05, day06, day07, day08, day09, day10, day11, day12};
use nom::branch::alt;
use nom::bytes::complete::tag;
use nom::bytes::take;
use nom::character::complete::{alpha1, digit1, line_ending, space0, space1};
use nom::combinator::iterator;
use nom::multi::{many0, many1, separated_list1};
use nom::sequence::{delimited, preceded, separated_pair, terminated};
use nom::{IResult, Parser};

fn consumed(input: &str, rest: &str) -> usize {
    input.len() - rest.len()
}

fn number(input: &str) -> IResult<&str, u64> {
    nom::character::complete::u64(input)
}

#[test]
fn rotation_grammar() {
    fn rotation(input: &str) -> IResult<&str, i32> {
        (alt((tag("L"), tag("R"))), nom::character::complete::i32)
            .map(|(direction, value): (&str, i32)| if direction == "L" { value.wrapping_neg() } else { value })
            .parse(input)
    }
    for line in ["L68", "R48", "R", "L", "", "X5", "L-5", "R+7", "L 5", "R12x", "l3", "R2147483647", "R2147483648", "L-2147483647", "R-2147483648", "RL1", "L0"] {
        let expected = rotation(line).ok().map(|(_, value)| i64::from(value));
        assert_eq!(day01::parse_rotation(line.as_bytes()), expected, "{line:?}");
    }
}

#[test]
fn id_range_grammar() {
    fn id_range(input: &str) -> IResult<&str, (u64, u64)> {
        separated_pair(number, tag("-"), number).parse(input)
    }
    for piece in ["11-22", "95-115x", "", "-", "1-", "-2", "1--2", "1 - 2", "\n1-2", "1-2\n", "18446744073709551615-0", "18446744073709551616-0", "5-18446744073709551616"] {
        let expected = id_range(piece).ok().map(|(_, (first, last))| day02::IdRange { first, last });
        assert_eq!(day02::id_range(piece.as_bytes()), expected, "{piece:?}");
    }
}

#[test]
fn item_grid_grammar() {
    fn grid(input: &str) -> IResult<&str, Vec<Vec<bool>>> {
        separated_list1(line_ending, many1(alt((tag("."), tag("@"))).map(|item| item == "@"))).parse(input)
    }
    for input in ["", ".", "@@\n..", "@.\r\n.@\n", "@.\n\n.@", "@.x\n..", "x", "\n@", "@\r@", ".@\n@\n@@@@"] {
        let expected = grid(input).ok().map(|(rest, rows)| (rows, consumed(input, rest)));
        assert_eq!(parse_grid(input.as_bytes(), 0, b'.', b'@', false, true), expected, "{input:?}");
    }
}

#[test]
fn fresh_ranges_grammar() {
    fn ranges(input: &str) -> IResult<&str, Vec<(u64, u64)>> {
        many0(terminated(separated_pair(number, tag("-"), number), line_ending)).parse(input)
    }
    for input in ["", "3-5\n", "3-5", "3-5\n10-14\r\n\n1\n", "3-5\n10-14", "\n3-5\n", "3-5 \n", "3-5\n4\n", "1-2\n3-99999999999999999999\n"] {
        let (rest, found) = ranges(input).unwrap();
        let expected: Vec<_> = found.into_iter().map(|(first, last)| day05::FreshRange { first, last }).collect();
        assert_eq!(day05::fresh_ingredients(input.as_bytes(), 0), (expected, consumed(input, rest)), "{input:?}");
    }
}

const WORKSHEETS: [&str; 14] = [
    "",
    "123 328  51 64\n 45 64  387 23\n  6 98  215 314\n*   +   *   +  ",
    "123 328  51 64 \n 45 64  387 23 \n  6 98  215 314\n*   +   *   +  ",
    "1 2\n+ *",
    "1 2 \n+ *",
    "1 2\n3\n4 5 6\n* + *",
    "1\n",
    "1\n\n+",
    "12\n 3\n+",
    "  7\n*",
    "7\n *",
    "1 2\r\n3 4\r\n++",
    "99999999999999999999\n+",
    "1 2\n3 x\n+ +",
];

#[test]
fn worksheet_grammar_of_rows_of_numbers() {
    fn worksheet(input: &str) -> IResult<&str, (Vec<Vec<u64>>, Vec<bool>)> {
        separated_pair(
            separated_list1(line_ending, many1(preceded(space0, number))),
            line_ending,
            many1(preceded(space0, alt((tag("+"), tag("*"))).map(|sign| sign == "*"))),
        )
        .parse(input)
    }
    for input in WORKSHEETS {
        let expected = worksheet(input).ok().map(|(_, (rows, signs))| {
            let mut lists: Vec<Vec<u64>> = rows[0].iter().map(|n| vec![*n]).collect();
            for row in &rows[1..] {
                for (list, n) in lists.iter_mut().zip(row) {
                    list.push(*n);
                }
            }
            (lists, signs)
        });
        let found = day06::part_1::worksheet(input.as_bytes(), 0).map(|(lists, operations)| {
            (lists, operations.into_iter().map(|o| o == day06::Operation::Mul).collect::<Vec<_>>())
        });
        assert_eq!(found, expected, "{input:?}");
    }
}

#[test]
fn worksheet_grammar_of_rows_of_digits() {
    fn cell(input: &str) -> IResult<&str, Option<u8>> {
        take(1_usize)
            .and_then(alt((space1, digit1)))
            .map(|cell: &str| cell.parse::<u8>().ok())
            .parse(input)
    }
    fn rows(input: &str) -> IResult<&str, Vec<Vec<Option<u8>>>> {
        separated_list1(line_ending, many1(cell)).parse(input)
    }
    for input in WORKSHEETS.into_iter().chain(["1 2", " 1\t2\n3", "12x\n34", "é1", "1é", "1\n2\nx", "1\n2\n", "1\n2\r\n", "1\n2\rx", "12\n\n"]) {
        let expected = rows(input).ok().map(|(rest, _)| consumed(input, rest));
        let found = day06::part_2::numbers(input.as_bytes(), 0).unwrap().map(|(_, end)| end);
        assert_eq!(found, expected, "{input:?}");
    }
    // A row for itself ends where the text ends.
    let row = day06::Row::<Option<u8>>::parse(b"1 2", 0).unwrap();
    assert_eq!((row.0.cells, row.1), (vec![Some(1), None, Some(2)], 3));
}

#[test]
fn manifold_grammar() {
    fn manifold(input: &str) -> IResult<&str, (Vec<bool>, Vec<Vec<bool>>)> {
        separated_pair(
            many1(alt((tag(".").map(|_| false), tag("S").map(|_| true)))),
            line_ending,
            separated_list1(line_ending, many1(alt((tag(".").map(|_| false), tag("^").map(|_| true))))),
        )
        .parse(input)
    }
    for input in ["", ".S.", ".S.\n", ".S.\n.^.", ".S.\r\n.^.\n...\n", "S^\n..", ".S.\n\n.^.", ".S.\n.S.", "SS\n^^\n^", "^\n."] {
        let expected = manifold(input).ok().map(|(_, found)| found);
        assert_eq!(day07::manifold(input.as_bytes(), 0), expected, "{input:?}");
    }
}

#[test]
fn junction_box_and_tile_grammar() {
    fn junction_box(input: &str) -> IResult<&str, (u32, (u32, u32))> {
        separated_pair(
            nom::character::complete::u32,
            tag(","),
            separated_pair(nom::character::complete::u32, tag(","), nom::character::complete::u32),
        )
        .parse(input)
    }
    fn tile(input: &str) -> IResult<&str, (u64, u64)> {
        separated_pair(number, tag(","), number).parse(input)
    }
    for input in ["", "1,2,3", "1,2", "1,2,", "1,2,3,4", "1,2,3\n4,5,6", "1,2,3\n4,5", "1,2,3\r\n\r\n4,5,6", "4294967295,0,0", "4294967296,0,0", "0,0,4294967296", " 1,2,3", "1, 2,3", "7,1\n11,1\n", "18446744073709551615,18446744073709551615", "1,18446744073709551616"] {
        let theirs: IResult<&str, Vec<_>> = separated_list1(line_ending, junction_box).parse(input);
        let expected = theirs.ok().map(|(rest, boxes)| {
            (boxes.into_iter().map(|(x, (y, z))| day08::JunctionBox { x, y, z }).collect::<Vec<_>>(), consumed(input, rest))
        });
        assert_eq!(parse_list::<day08::JunctionBox>(input.as_bytes(), 0, Separator::Line), expected, "{input:?}");
        let theirs: IResult<&str, Vec<_>> = separated_list1(line_ending, tile).parse(input);
        let expected = theirs.ok().map(|(rest, tiles)| {
            (tiles.into_iter().map(|(x, y)| day09::TileCoordinate { x, y }).collect::<Vec<_>>(), consumed(input, rest))
        });
        assert_eq!(parse_list::<day09::TileCoordinate>(input.as_bytes(), 0, Separator::Line), expected, "{input:?}");
    }
}

#[test]
fn machine_grammar() {
    type Plain = (Vec<bool>, (Vec<Vec<usize>>, Vec<u64>));
    fn machine(input: &str) -> IResult<&str, Plain> {
        separated_pair(
            delimited(tag("["), many1(alt((tag("."), tag("#"))).map(|light| light == "#")), tag("]")),
            space1,
            separated_pair(
                separated_list1(
                    space1,
                    delimited(tag("("), separated_list1(tag(","), nom::character::complete::usize), tag(")")),
                ),
                space1,
                delimited(tag("{"), separated_list1(tag(","), number), tag("}")),
            ),
        )
        .parse(input)
    }
    for input in [
        "",
        "[.##.] (3) (1,3) (2) (2,3) (0,2) (0,1) {3,5,4,7}",
        "[.##.] (3) (1,3) {3,5,4,7}/\n",
        "[#]\t(0)  {1}\n[.] (0) {2}\r\n[.] (0) {2",
        "[] (0) {1}",
        "[.] () {1}",
        "[.] (0) {}",
        "[.](0) {1}",
        "[.] (0){1}",
        "[.] (0,) {1}",
        "[.] (0) (1 {1}",
        "[.x] (0) {1}",
        "[.] (0) {18446744073709551615}",
        "[.] (0) {18446744073709551616}",
        "[.] (18446744073709551616) {1}",
        "[.] (0)\n{1}",
    ] {
        let theirs: IResult<&str, Vec<Plain>> = separated_list1(line_ending, machine).parse(input);
        let expected = theirs.ok().map(|(rest, machines)| (machines, consumed(input, rest)));
        let found = parse_list::<day10::Machine<u64>>(input.as_bytes(), 0, Separator::Line).map(|(machines, end)| {
            let plain: Vec<Plain> = machines
                .into_iter()
                .map(|m| {
                    (
                        m.lights.into_iter().map(|light| light == day10::Light::On).collect(),
                        (m.buttons.into_iter().map(|b| b.wiring).collect(), m.joltage),
                    )
                })
                .collect();
            (plain, end)
        });
        assert_eq!(found, expected, "{input:?}");
    }
}

#[test]
fn connections_grammar() {
    fn connection(input: &str) -> IResult<&str, (&str, Vec<&str>)> {
        separated_pair(alpha1, tag(": "), separated_list1(space1, alpha1)).parse(input)
    }
    for input in ["", "aaa: you hhh", "you: bbb ccc\nbbb: ddd", "a: b\r\nc:  d", "a:b", "a: ", "a: b \n c: d", "a: b1\nc: d", "Ab: cD\teF\n", "a1: b", ": b", "a: b\n\nc: d"] {
        let theirs: IResult<&str, Vec<_>> = separated_list1(line_ending, connection).parse(input);
        let expected = theirs.ok().map(|(rest, found)| {
            let plain: Vec<(Vec<u8>, Vec<Vec<u8>>)> = found
                .into_iter()
                .map(|(device, outputs)| (device.as_bytes().to_vec(), outputs.into_iter().map(|o| o.as_bytes().to_vec()).collect()))
                .collect();
            (plain, consumed(input, rest))
        });
        let found = parse_list::<day11::Connection>(input.as_bytes(), 0, Separator::Line).map(|(found, end)| {
            let plain: Vec<(Vec<u8>, Vec<Vec<u8>>)> =
                found.into_iter().map(|c| (c.device.name, c.outputs.into_iter().map(|o| o.name).collect())).collect();
            (plain, end)
        });
        assert_eq!(found, expected, "{input:?}");
    }
}

#[test]
fn puzzle_grammar() {
    type Plain = (Vec<Vec<Vec<bool>>>, Vec<((u64, u64), Vec<u64>)>);
    fn shape(input: &str) -> IResult<&str, Vec<Vec<bool>>> {
        separated_list1(line_ending, many1(alt((tag("#").map(|_| true), tag(".").map(|_| false))))).parse(input)
    }
    fn puzzle(input: &str) -> IResult<&str, Plain> {
        separated_pair(
            separated_list1(
                line_ending,
                preceded(digit1, preceded(tag(":"), preceded(line_ending, terminated(shape, line_ending)))),
            ),
            line_ending,
            separated_list1(
                line_ending,
                separated_pair(
                    terminated(separated_pair(number, tag("x"), number), tag(":")),
                    space1,
                    separated_list1(space1, number),
                ),
            ),
        )
        .parse(input)
    }
    for input in [
        "",
        "0:\n###\n##.\n\n1:\n.#\n\n4x4: 0 0\n12x5: 1 0 1\n",
        "0:\n#\n\n4x4: 1",
        "0:\n#\n4x4: 1",
        "0:\n#\n\n\n4x4: 1",
        "0:\r\n#\r\n\r\n4x4:\t1  2\r\n5x5: 3\r\n",
        "99999999999999999999999:\n#\n\n1x1: 1",
        ":\n#\n\n1x1: 1",
        "0:\n\n\n1x1: 1",
        "0:\n#\n\n1x1:1",
        "0:\n#\n\n1x1: 1\n2x2 2",
        "0:\n#\n\n1:\n.\n\n",
        "0:\n#\n\n1y1: 1",
        "0: \n#\n\n1x1: 1",
    ] {
        let expected = puzzle(input).ok().map(|(_, found)| found);
        let found = day12::puzzle(input.as_bytes(), 0).map(|(shapes, regions)| {
            (
                shapes.into_iter().map(|shape| shape.parts).collect::<Vec<_>>(),
                regions.into_iter().map(|r| ((r.width, r.length), r.quantities)).collect::<Vec<_>>(),
            )
        });
        assert_eq!(found, expected, "{input:?}");
    }
}

#[test]
fn cubes_grammar() {
    fn sums(input: &str) -> (usize, (u64, u64, u64)) {
        let entry = separated_pair(nom::character::complete::u32, space1, alt((tag("red"), tag("green"), tag("blue"))));
        let mut entries = iterator(input, entry);
        let sums = entries.by_ref().fold((0, 0, 0), |(r, g, b), (count, color): (u32, &str)| match color {
            "red" => (r + u64::from(count), g, b),
            "green" => (r, g + u64::from(count), b),
            _ => (r, g, b + u64::from(count)),
        });
        let finished: IResult<&str, ()> = entries.finish();
        (consumed(input, finished.unwrap().0), sums)
    }
    for input in ["", "1 red6 blue2 green", "3 blue, 4 red", "3 blue4  red5\tred 6 green", "3blue", " 3 blue", "3 Blue", "3 bluegreen", "3 gre", "1 red4294967296 red", "7 red8", "1 green2 greenish3 blue"] {
        let (end, (r, g, b)) = sums(input);
        let expected = cubes::CubeSet { r: r as usize, g: g as usize, b: b as usize };
        assert_eq!(cubes::parse_set(input), Ok((end, expected)), "{input:?}");
    }
}

#[test]
fn rows_of_cells_take_the_blank_first() {
    assert_eq!(parse_row(b"..", 0, b'.', b'.', 1u8, 2u8), Some((vec![1, 1], 2)));
    assert!(day10::Button::parse(b"(1,2)", 0).is_some());
}
