use daily_puzzles::day12::layout::{
    all_laid, box_shape, copy_grid, fits_at, fresh_ways, lay, lay_piece, list_parts, marked, mirrored,
    one_fewer, orientations, same_parts, turned,
};
use daily_puzzles::day12::part_1::{all_ways, cleared, fits, presents_to_lay};
use daily_puzzles::day12::places::{is_well_made, made_evenly, needed_places};
use daily_puzzles::day12::{dimensions, part_1, puzzle, Region, Shape};
use daily_puzzles::error::{Error, Stage};
use daily_puzzles::text::Item;

const EXAMPLE: &str = "\
0:
###
##.
##.

1:
###
##.
.##

2:
.##
###
##.

3:
##.
###
##.

4:
###
#..
###

5:
###
.#.
###

4x4: 0 0 0 0 2 0
12x5: 1 0 1 0 2 2
12x5: 1 0 1 0 3 2
";

#[test]
fn day_12_part_1_example_works() {
    let expected = 2;
    let solution = part_1::solve(EXAMPLE).unwrap();
    assert_eq!(expected, solution);
}

#[test]
fn day_12_rejects_what_is_no_puzzle() {
    assert_eq!(part_1::solve(""), Err(Error::Parse(Stage::Puzzle)));
    assert_eq!(part_1::solve("4x4: 1 1"), Err(Error::Parse(Stage::Puzzle)));
    assert_eq!(part_1::solve("0:\n#\n"), Err(Error::Parse(Stage::Puzzle)));
    assert_eq!(part_1::solve("0:\n#\n\n4x4 1"), Err(Error::Parse(Stage::Puzzle)));
    assert_eq!(part_1::solve("0:\n#\n4x4: 1"), Err(Error::Parse(Stage::Puzzle)));
    assert_eq!(part_1::solve("0:\n#\n\n1:\n..\n\n"), Err(Error::Parse(Stage::Puzzle)));
}

#[test]
fn day_12_counts_the_regions_with_room() {
    assert_eq!(part_1::solve("7:\n#\n\n3x3: 1\n3x3: 0 0\n3x3: 1 1\n1x9: 0 1 0\n2x4: 1"), Ok(3));
    assert_eq!(part_1::solve("0:\r\n#.\r\n\r\n9x1:\t1  0 and more"), Ok(1));
    assert_eq!(
        part_1::solve("0:\n#\n\n18446744073709551615x18446744073709551615: 18446744073709551615 18446744073709551615"),
        Ok(0)
    );
    assert_eq!(part_1::solve("0:\n#\n\n0x5: 0 0\n0x5: 1"), Ok(1));
    assert_eq!(part_1::solve("0:\n#\n\n3x3: 9\n3x3: 10\n3x3: 0"), Ok(2));
}

#[test]
fn day_12_lays_presents_turned_and_turned_over() {
    // A bar of three lies in a region one place wide only when turned.
    assert_eq!(part_1::solve("0:\n###\n\n1x3: 1\n3x1: 1\n1x2: 1"), Ok(2));
    // Three of these lie in four by four only with one of them turned over.
    assert_eq!(part_1::solve("0:\n.##\n##.\n\n4x4: 3\n4x4: 4\n3x4: 3"), Ok(1));
    // Two of these fill two by four; nine places for each are not needed.
    assert_eq!(part_1::solve("0:\n#.\n#.\n##\n\n2x4: 2\n4x2: 2\n2x4: 3\n3x3: 2"), Ok(3));
    // Places are enough in number, and still the presents do not lie.
    assert_eq!(part_1::solve("0:\n###\n###\n###\n\n4x5: 2\n3x6: 2\n6x3: 2\n5x5: 2"), Ok(2));
}

#[test]
fn day_12_example_region_by_region() {
    let (shapes, regions) = puzzle(EXAMPLE.as_bytes(), 0).unwrap();
    let (pieces, fresh) = all_ways(&shapes);
    assert_eq!(pieces.len(), 6);
    assert!(fits(&pieces, &fresh, &regions[0]));
    assert!(fits(&pieces, &fresh, &regions[1]));
    assert!(!fits(&pieces, &fresh, &Region { width: 4, length: 4, quantities: vec![0, 0, 0, 0, 3, 0] }));
    assert!(!fits(&pieces, &fresh, &Region { width: 4, length: 4, quantities: vec![0, 0, 0, 0, 0, 0, 1] }));
    assert!(fits(&pieces, &fresh, &Region { width: 0, length: 0, quantities: vec![] }));
    assert!(fits(&pieces, &fresh, &Region { width: 3, length: 3, quantities: vec![0, 0, 1] }));
    assert!(!fits(&pieces, &fresh, &Region { width: 2, length: 30, quantities: vec![0, 0, 1] }));
}

#[test]
fn a_shape_lies_in_eight_ways() {
    let bar = orientations(&vec![vec![true, true, true]]);
    assert_eq!(bar.len(), 8);
    assert_eq!(bar[0], vec![(0, 0), (0, 1), (0, 2)]);
    assert_eq!(bar[1], vec![(0, 0), (1, 0), (2, 0)]);
    assert_eq!(fresh_ways(&bar), vec![true, true, false, false, false, false, false, false]);
    // Rows of unlike length are filled up, and the first part may stand
    // right of parts below it.
    let bent = orientations(&vec![vec![false, true], vec![true]]);
    assert_eq!(bent[0], vec![(0, 1), (1, 0)]);
    assert_eq!(bent[1], vec![(0, 0), (1, 1)]);
    assert_eq!(bent[4], vec![(0, 0), (1, 1)]);
    assert_eq!(fresh_ways(&bent), vec![true, true, false, false, false, false, false, false]);
    let corner = orientations(&vec![vec![true, true], vec![true, false]]);
    assert_eq!(fresh_ways(&corner), vec![true, true, true, true, false, false, false, false]);
    let nothing = orientations(&vec![vec![false, false]]);
    assert!(nothing.iter().all(|parts| parts.is_empty()));
}

#[test]
fn a_piece_is_laid_from_its_first_part() {
    let grid = vec![vec![false, false, true], vec![false, false, false]];
    let bent = vec![(0, 1), (1, 0)];
    assert!(fits_at(&grid, 0, 1, &bent));
    assert!(!fits_at(&grid, 0, 0, &bent));
    assert!(!fits_at(&grid, 1, 1, &bent));
    assert!(!fits_at(&grid, 0, 2, &bent));
    assert!(!fits_at(&grid, 0, 1, &vec![]));
    assert_eq!(
        lay_piece(&grid, 0, 1, &bent),
        vec![vec![false, true, true], vec![true, false, false]]
    );
    assert_eq!(cleared(2, 3), vec![vec![false; 3]; 2]);
}

#[test]
fn pieces_of_shapes_are_evenly_made() {
    let (shapes, _) = puzzle(EXAMPLE.as_bytes(), 0).unwrap();
    let (pieces, fresh) = all_ways(&shapes);
    assert!(made_evenly(&pieces));
    assert!(pieces.iter().all(|lies| lies.len() == 8 && lies.iter().all(|parts| parts.len() == 7)));
    assert_eq!(fresh[0], vec![true; 8]);
    assert_eq!(fresh[4], vec![true, true, true, true, false, false, false, false]);
    assert_eq!(fresh[5], vec![true, true, false, false, false, false, false, false]);
    assert_eq!(needed_places(&pieces, &vec![1, 0, 1, 0, 3, 2], 60), Some(49));
    assert_eq!(needed_places(&pieces, &vec![1, 0, 1, 0, 3, 2], 48), None);
    assert_eq!(needed_places(&pieces, &vec![0, 0, 0, 0, 0, 0, 5], 0), Some(0));
    assert_eq!(needed_places(&pieces, &vec![u64::MAX; 6], u128::MAX), Some(42 * (u64::MAX as u128)));
    assert!(is_well_made(&vec![(0, 1), (1, 0), (1, 1)]));
    assert!(!is_well_made(&vec![(1, 0), (0, 1)]));
    assert!(!is_well_made(&vec![(0, 1), (0, 0)]));
    assert!(!is_well_made(&vec![(0, 0), (1, 1), (1, 1)]));
    assert!(is_well_made(&vec![]));
    assert!(!made_evenly(&vec![vec![vec![(0, 0)], vec![(0, 0), (0, 1)]]]));
    assert!(made_evenly(&vec![vec![], vec![vec![(0, 0)], vec![(2, 2)]]]));
}

#[test]
fn pieces_that_are_not_evenly_made_are_laid_all_the_same() {
    // The first way takes three places, the second one: one present lies in two places.
    let pieces = vec![vec![vec![(0, 0), (0, 1), (0, 2)], vec![(0, 0)]]];
    let fresh = vec![vec![true, true]];
    assert!(fits(&pieces, &fresh, &Region { width: 2, length: 1, quantities: vec![1] }));
    assert!(fits(&pieces, &fresh, &Region { width: 2, length: 1, quantities: vec![2] }));
    assert!(!fits(&pieces, &fresh, &Region { width: 2, length: 1, quantities: vec![3] }));
    assert!(fits(&pieces, &fresh, &Region { width: 4, length: 1, quantities: vec![2] }));
    // The first part stands below the second.
    let pieces = vec![vec![vec![(1, 0), (0, 0)]]];
    let fresh = vec![vec![true]];
    assert!(fits(&pieces, &fresh, &Region { width: 1, length: 2, quantities: vec![1] }));
    assert!(!fits(&pieces, &fresh, &Region { width: 2, length: 1, quantities: vec![1] }));
    assert!(fits(&pieces, &fresh, &Region { width: 2, length: 2, quantities: vec![2] }));
    assert!(!fits(&pieces, &fresh, &Region { width: 2, length: 2, quantities: vec![3] }));
}

#[test]
fn presents_without_parts_take_no_place() {
    let (shapes, _) = puzzle(b"0:\n..\n\n1:\n#\n\n1x1: 5 1", 0).unwrap();
    let (pieces, _) = all_ways(&shapes);
    assert_eq!(presents_to_lay(&pieces, &vec![5, 1, 3]), vec![0, 1, 3]);
    assert_eq!(part_1::solve("0:\n..\n\n1x1: 5\n0x0: 1"), Ok(2));
    assert_eq!(part_1::solve("0:\n..\n\n1:\n#\n\n1x1: 5 1\n1x1: 5 2"), Ok(1));
}

#[test]
fn puzzle_is_read_piece_by_piece() {
    let (shapes, regions) = puzzle(b"0:\n#.\n.#\n\n12:\n###\n\n4x5: 1 22\n6x7: 3\n", 0).unwrap();
    assert_eq!(
        shapes.iter().map(|s| s.parts.clone()).collect::<Vec<_>>(),
        vec![vec![vec![true, false], vec![false, true]], vec![vec![true, true, true]]]
    );
    assert_eq!(
        regions.iter().map(|r| (r.width, r.length, r.quantities.clone())).collect::<Vec<_>>(),
        vec![(4, 5, vec![1, 22]), (6, 7, vec![3])]
    );
    assert_eq!(dimensions(b"12x5:", 0), Some(((12, 5), 4)));
    assert_eq!(dimensions(b"12X5:", 0), None);
    assert!(Shape::parse(b"3:\n#\n", 0).is_some());
    assert!(Shape::parse(b":\n#\n", 0).is_none());
    assert!(Shape::parse(b"3:\n#", 0).is_none());
    assert!(Region::parse(b"1x1:1", 0).is_none());
}

#[test]
fn a_box_is_turned_and_mirrored() {
    let boxed = box_shape(&vec![vec![true], vec![false, true, true], vec![]]);
    assert_eq!(boxed, vec![vec![true, false, false], vec![false, true, true], vec![false, false, false]]);
    let grid = vec![vec![true, false], vec![true, true], vec![false, false]];
    assert_eq!(turned(&grid), vec![vec![false, true, true], vec![false, true, false]]);
    assert_eq!(mirrored(&grid), vec![vec![false, true], vec![true, true], vec![false, false]]);
    assert_eq!(turned(&turned(&turned(&turned(&grid)))), grid);
    assert_eq!(mirrored(&mirrored(&grid)), grid);
    assert_eq!(list_parts(&grid), vec![(0, 0), (1, 0), (1, 1)]);
    assert_eq!(list_parts(&mirrored(&grid)), vec![(0, 1), (1, 0), (1, 1)]);
    assert_eq!(copy_grid(&grid), grid);
    assert_eq!(marked(&vec![false, false, true], 1), vec![false, true, true]);
    assert!(same_parts(&vec![(0, 1), (1, 0)], &vec![(0, 1), (1, 0)]));
    assert!(!same_parts(&vec![(0, 1), (1, 0)], &vec![(0, 1), (1, 1)]));
    assert!(!same_parts(&vec![(0, 1)], &vec![(0, 1), (1, 1)]));
}

#[test]
fn presents_are_laid_place_by_place() {
    assert!(all_laid(&vec![]));
    assert!(all_laid(&vec![0, 0]));
    assert!(!all_laid(&vec![0, 1]));
    assert_eq!(one_fewer(&vec![2, 1, 5], 1), vec![2, 0, 5]);
    // Two places side by side, in a grid of three by two with one place taken.
    let pieces = vec![vec![vec![(0, 0), (0, 1)]]];
    let fresh = vec![vec![true]];
    let grid = vec![vec![false, true, false], vec![false, false, false]];
    assert!(lay(&pieces, &fresh, &grid, 3, 0, 0, &vec![1], 3));
    assert!(!lay(&pieces, &fresh, &grid, 3, 0, 0, &vec![1], 1));
    assert!(lay(&pieces, &fresh, &grid, 3, 0, 0, &vec![1], 2));
    assert!(!lay(&pieces, &fresh, &grid, 3, 0, 0, &vec![2], 5));
    assert!(!lay(&pieces, &fresh, &grid, 2, 0, 0, &vec![1], 0));
    assert!(lay(&pieces, &fresh, &grid, 2, 1, 0, &vec![1], 0));
    assert!(!lay(&pieces, &fresh, &grid, 3, 1, 2, &vec![1], 5));
    assert!(lay(&pieces, &fresh, &grid, 3, 2, 0, &vec![0], 0));
}
