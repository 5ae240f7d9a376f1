use daily_puzzles::day04::part_2::clear_accessible;
use daily_puzzles::day04::{
    accessible_positions, count_neighbours, is_accessible, is_paper, part_1, part_2, Item,
};
use daily_puzzles::error::{Error, Stage};

const EXAMPLE: &str = "\
..@@.@@@@.
@@@.@.@.@@
@@@@@.@.@@
@.@@@@..@.
@@.@@@@.@@
.@@@@@@@.@
.@.@.@.@@@
@.@@@.@@@@
.@@@@@@@@.
@.@.@@@.@.";

fn grid(lines: &[&str]) -> Vec<Vec<Item>> {
    lines
        .iter()
        .map(|line| line.bytes().map(|b| if b == b'@' { Item::Paper } else { Item::Empty }).collect())
        .collect()
}

#[test]
fn day_4_part_1_example_works() {
    let expected = "13";
    let solution = part_1::solve(EXAMPLE).unwrap();
    assert_eq!(solution, expected);
}

#[test]
fn day_4_part_2_example_works() {
    let expected = "43";
    let solution = part_2::solve(EXAMPLE).unwrap();
    assert_eq!(solution, expected);
}

#[test]
fn day_4_rejects_text_without_grid() {
    assert_eq!(part_1::solve(""), Err(Error::Parse(Stage::ItemGrid)));
    assert_eq!(part_1::solve("\n.@"), Err(Error::Parse(Stage::ItemGrid)));
    assert_eq!(part_2::solve("x@"), Err(Error::Parse(Stage::ItemGrid)));
}

#[test]
fn day_4_grid_ends_where_the_rows_end() {
    assert_eq!(part_1::solve("@@\n@@\n\n@@@@@"), Ok(String::from("4")));
    assert_eq!(part_1::solve("@@@\r\n@@@\r\n@@@ and more"), Ok(String::from("4")));
    assert_eq!(part_2::solve("@@@\r\n@@@\r\n@@@ and more"), Ok(String::from("9")));
    assert_eq!(part_2::solve("....\n...."), Ok(String::from("0")));
}

#[test]
fn day_4_rows_of_different_length() {
    assert_eq!(part_1::solve("@@@@@\n@@@\n@@@@@"), Ok(String::from("6")));
    assert_eq!(part_2::solve("@@@@@\n@@@\n@@@@@"), Ok(String::from("13")));
}

#[test]
fn day_4_rolls_in_the_middle_stay() {
    let rows = ["@@@@@", "@@@@@", "@@@@@", "@@@@@", "@@@@@"];
    assert_eq!(part_1::accessible_rolls(&grid(&rows)), 4);
    assert_eq!(part_1::solve(&rows.join("\n")), Ok(String::from("4")));
    assert_eq!(part_2::solve(&rows.join("\n")), Ok(String::from("4")));
    let wide = vec!["@".repeat(9); 9];
    let text = wide.join("\n");
    assert_eq!(part_1::solve(&text), Ok(String::from("4")));
    assert_eq!(part_2::solve(&text), Ok(String::from("4")));
}

#[test]
fn neighbours_are_counted_around_the_place() {
    let g = grid(&["@@@", "@.@", "@@@"]);
    assert_eq!(count_neighbours(&g, 1, 1), 8);
    assert_eq!(count_neighbours(&g, 0, 0), 2);
    assert_eq!(count_neighbours(&g, 0, 1), 4);
    assert_eq!(count_neighbours(&g, 3, 1), 3);
    assert_eq!(count_neighbours(&g, 1, 3), 3);
    assert_eq!(count_neighbours(&g, 3, 3), 1);
    assert_eq!(count_neighbours(&g, usize::MAX, usize::MAX), 0);
    assert!(!is_accessible(&g, 3, 3));
    assert!(is_paper(&g, 2, 2));
    assert!(!is_paper(&g, 1, 1));
    assert!(!is_paper(&g, 3, 0));
    assert!(!is_paper(&g, 0, 3));
    assert!(is_accessible(&g, 0, 0));
    assert!(!is_accessible(&g, 0, 1));
    assert!(!is_accessible(&g, 1, 1));
    assert_eq!(accessible_positions(&g), vec![(0, 0), (0, 2), (2, 0), (2, 2)]);
    assert_eq!(part_2::accessible_rolls(&g), vec![(0, 0), (0, 2), (2, 0), (2, 2)]);
    assert_eq!(clear_accessible(&g), grid(&[".@.", "@.@", ".@."]));
}
