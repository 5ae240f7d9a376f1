use daily_puzzles::day08::part_1::{checked_product, largest_circuits, size_of_circuit};
use daily_puzzles::day08::part_2::all_joined;
use daily_puzzles::day08::{
    all_links, join, ordered_links, part_1, part_2, start_circuits, JunctionBox,
};
use daily_puzzles::error::{Error, Stage};

const EXAMPLE: &str = "\
162,817,812
57,618,57
906,360,560
592,479,940
352,342,300
466,668,158
542,29,236
431,825,988
739,650,466
52,470,668
216,146,977
819,987,18
117,168,530
805,96,715
346,949,466
970,615,88
941,993,340
862,61,35
984,92,344
425,690,689\
";

const CONNECTIONS: usize = 10;

fn at(x: u32, y: u32, z: u32) -> JunctionBox {
    JunctionBox { x, y, z }
}

#[test]
fn day_8_part_1_example_works() {
    let expected = 40;
    let solution = part_1::solve(EXAMPLE, CONNECTIONS).unwrap();
    assert_eq!(solution, expected);
}

#[test]
fn day_8_part_2_example_works() {
    let expected = 25272;
    let solution = part_2::solve(EXAMPLE).unwrap();
    assert_eq!(solution, expected);
}

#[test]
fn day_8_rejects_text_without_boxes() {
    assert_eq!(part_1::solve("", 3), Err(Error::Parse(Stage::JunctionBoxes)));
    assert_eq!(part_1::solve("1,2", 3), Err(Error::Parse(Stage::JunctionBoxes)));
    assert_eq!(part_2::solve("1,2,4294967296"), Err(Error::Parse(Stage::JunctionBoxes)));
}

#[test]
fn day_8_without_links_every_box_is_a_circuit() {
    assert_eq!(part_1::solve("0,0,0\n1,0,0\n5,0,0\n9,9,9", 0), Ok(1));
    assert_eq!(part_1::solve("0,0,0\n1,0,0\n5,0,0\n9,9,9", 1), Ok(2));
    assert_eq!(part_1::solve("0,0,0\n1,0,0\n5,0,0\n9,9,9", 2), Ok(3));
    assert_eq!(part_1::solve("0,0,0\n1,0,0\n5,0,0\n9,9,9", 100), Ok(4));
    assert_eq!(part_1::solve("0,0,0", 100), Ok(1));
}

#[test]
fn day_8_two_pairs_make_two_circuits() {
    assert_eq!(part_1::solve("0,0,0\n1,0,0\n50,0,0\n52,0,0\n200,0,0", 2), Ok(4));
}

#[test]
fn day_8_boxes_at_one_place_are_one_box() {
    // The link between the two boxes at 0,0,0 is the shortest and joins nothing.
    assert_eq!(part_1::solve("0,0,0\n0,0,0\n3,0,0", 1), Ok(1));
    assert_eq!(part_1::solve("0,0,0\n0,0,0\n3,0,0", 2), Ok(2));
    assert_eq!(part_2::solve("7,0,0\n7,0,0"), Ok(0));
    assert_eq!(part_2::solve("7,0,0\n7,0,0\n9,1,1"), Ok(63));
}

#[test]
fn day_8_last_link_closes_the_circuit() {
    assert_eq!(part_2::solve("2,0,0\n3,0,0\n10,0,0"), Ok(30));
    assert_eq!(part_2::solve("5,5,5"), Ok(0));
    assert_eq!(part_2::solve("4294967295,0,0\n4294967295,1,0"), Ok(18446744065119617025));
}

#[test]
fn links_come_shortest_first() {
    let boxes = vec![at(0, 0, 0), at(10, 0, 0), at(11, 0, 0), at(0, 1, 0)];
    assert_eq!(
        all_links(&boxes),
        vec![(100, 1, 0), (121, 2, 0), (1, 2, 1), (1, 3, 0), (101, 3, 1), (122, 3, 2)]
    );
    assert_eq!(
        ordered_links(&boxes),
        vec![(1, 2, 1), (1, 3, 0), (100, 1, 0), (101, 3, 1), (121, 2, 0), (122, 3, 2)]
    );
    assert_eq!(at(0, 0, 0).distance_squared(&at(4294967295, 4294967295, 4294967295)), 3 * 18446744065119617025u128);
}

#[test]
fn circuits_join_and_count() {
    let boxes = vec![at(0, 0, 0), at(1, 0, 0), at(0, 0, 0), at(5, 5, 5)];
    let own = start_circuits(&boxes);
    assert_eq!(own, vec![0, 1, 0, 3]);
    let mut circuits = start_circuits(&boxes);
    assert!(!all_joined(&circuits));
    join(&mut circuits, 3, 0);
    assert_eq!(circuits, vec![3, 1, 3, 3]);
    assert_eq!(size_of_circuit(&circuits, &own, 3), 2);
    assert_eq!(largest_circuits(&circuits, &own), (2, 1, 1));
    join(&mut circuits, 1, 2);
    assert_eq!(circuits, vec![1, 1, 1, 1]);
    assert!(all_joined(&circuits));
    assert_eq!(largest_circuits(&circuits, &own), (3, 1, 1));
}

#[test]
fn product_of_sizes_is_checked() {
    assert_eq!(checked_product(5, 4, 2), Some(40));
    assert_eq!(checked_product(1 << 32, 1 << 31, 1), Some(1 << 63));
    assert_eq!(checked_product(1 << 32, 1 << 31, 2), None);
    assert_eq!(checked_product(1 << 32, 1 << 32, 0), Some(0));
}
