use daily_puzzles::day07::{manifold, part_1, part_2};
use daily_puzzles::error::{Error, Stage};

const EXAMPLE: &str = "\
.......S.......
...............
.......^.......
...............
......^.^......
...............
.....^.^.^.....
...............
....^.^...^....
...............
...^.^...^.^...
...............
..^...^.....^..
...............
.^.^.^.^.^...^.
...............\
";

#[test]
fn day_7_part_1_example_works() {
    let expected = 21;
    let solution = part_1::solve(EXAMPLE).unwrap();
    assert_eq!(solution, expected);
}

#[test]
fn day_7_part_2_example_works() {
    let expected = 40;
    let solution = part_2::solve(EXAMPLE).unwrap();
    assert_eq!(solution, expected);
}

#[test]
fn day_7_rejects_what_is_no_manifold() {
    assert_eq!(part_1::solve(""), Err(Error::Parse(Stage::Manifold)));
    assert_eq!(part_1::solve(".S."), Err(Error::Parse(Stage::Manifold)));
    assert_eq!(part_1::solve(".S.\n"), Err(Error::Parse(Stage::Manifold)));
    assert_eq!(part_1::solve(".S^\n..."), Err(Error::Parse(Stage::Manifold)));
    assert_eq!(part_2::solve(".S.\nS.."), Err(Error::Parse(Stage::Manifold)));
}

#[test]
fn day_7_beam_without_splitter_falls_through() {
    assert_eq!(part_1::solve(".S.\n...\n..."), Ok(0));
    assert_eq!(part_2::solve(".S.\n...\n..."), Ok(1));
    assert_eq!(part_2::solve("...\n.^."), Ok(0));
}

#[test]
fn day_7_beams_leave_at_the_sides() {
    assert_eq!(part_1::solve("S.\n^.\n.^"), Ok(2));
    assert_eq!(part_2::solve("S.\n^.\n.^"), Ok(1));
    assert_eq!(part_2::solve("S\n^"), Ok(0));
}

#[test]
fn day_7_rows_narrow_the_manifold() {
    assert_eq!(part_1::solve(".S.\r\n.^\r\n^.^"), Ok(2));
    assert_eq!(part_2::solve(".S.\r\n.^\r\n^.^"), Ok(1));
    // Beams that meet under two splitters are one beam, but two ways.
    assert_eq!(part_1::solve("S.S\n^.^\n.^."), Ok(3));
    assert_eq!(part_2::solve("S.S\n^.^\n.^."), Ok(4));
}

#[test]
fn day_7_ways_double_until_they_overflow() {
    let mut text = String::from(".S.\n");
    for _ in 0..63 {
        text.push_str(".^.\n^.^\n");
    }
    text.push_str("...");
    assert_eq!(part_2::solve(&text), Ok(1 << 63));
    text.push_str("\n.^.\n^.^");
    assert_eq!(part_2::solve(&text), Err(Error::Overflow));
    assert_eq!(part_1::solve(&text), Ok(64 * 3));
}

#[test]
fn falls_are_counted_row_by_row() {
    assert_eq!(part_1::fall(&vec![false, true, true], &vec![false, true, false]), (vec![true, false, true], 1));
    assert_eq!(part_1::fall(&vec![true, true, true], &vec![true, true]), (vec![true, true], 2));
    assert_eq!(part_2::fall(&vec![1, 5, 2], &vec![false, true, false]), Some(vec![6, 0, 7]));
    assert_eq!(part_2::fall(&vec![u64::MAX, 1, 0], &vec![false, true, false]), None);
    assert_eq!(manifold(b".S\n.^\n^.\n", 0), Some((vec![false, true], vec![vec![false, true], vec![true, false]])));
}
