use daily_puzzles::day09::part_2::{fits_polygon, loop_edges, Edge, Rectangle};
use daily_puzzles::day09::{checked_area, part_1, part_2, TileCoordinate};
use daily_puzzles::error::{Error, Stage};

const EXAMPLE: &str = "\
7,1
11,1
11,7
9,7
9,5
2,5
2,3
7,3\
";

fn tile(x: u64, y: u64) -> TileCoordinate {
    TileCoordinate { x, y }
}

fn edge(a: (u64, u64), b: (u64, u64)) -> Edge {
    Edge { from: tile(a.0, a.1), to: tile(b.0, b.1) }
}

#[test]
fn day_9_part_1_example_works() {
    let expected = 50;
    let solution = part_1::solve(EXAMPLE).unwrap();
    assert_eq!(solution, expected);
}

#[test]
fn day_9_part_2_example_works() {
    let expected = 50;
    let solution = part_2::solve(EXAMPLE).unwrap();
    assert_eq!(solution, expected);
}

#[test]
fn day_9_part_2_sides_of_the_loop_stop_a_rectangle() {
    assert_eq!(part_2::solve("1,1\n6,1\n6,4\n1,4"), Ok(24));
    // The side of the loop from 6,6 to 6,2 cuts through the largest rectangles.
    let notched = "0,0\n10,0\n10,4\n8,4\n8,6\n6,6\n6,2\n4,2\n4,6\n0,6";
    assert_eq!(part_1::solve(notched), Ok(77));
    assert_eq!(part_2::solve(notched), Ok(63));
    // A side of the loop that runs along a side and ends inside it lets it be
    // only where it reaches over one of its ends.
    let tiles = vec![tile(0, 0), tile(4, 0), tile(4, 4), tile(0, 4)];
    let edges = loop_edges(&tiles);
    assert!(fits_polygon(&Rectangle::new(tile(0, 0), tile(4, 4)), &edges));
    let inner = vec![edge((1, 0), (3, 0))];
    assert!(!fits_polygon(&Rectangle::new(tile(0, 0), tile(4, 4)), &inner));
    let reaching = vec![edge((2, 0), (9, 0))];
    assert!(fits_polygon(&Rectangle::new(tile(0, 0), tile(4, 4)), &reaching));
}

#[test]
fn day_9_rejects_text_without_tiles() {
    assert_eq!(part_1::solve(""), Err(Error::Parse(Stage::RedTiles)));
    assert_eq!(part_1::solve("7;1"), Err(Error::Parse(Stage::RedTiles)));
    assert_eq!(part_2::solve("x"), Err(Error::Parse(Stage::RedTiles)));
    assert_eq!(part_2::solve("18446744073709551616,1"), Err(Error::Parse(Stage::RedTiles)));
}

#[test]
fn day_9_single_tile_has_no_rectangle() {
    assert_eq!(part_1::solve("3,4"), Ok(0));
    assert_eq!(part_2::solve("3,4"), Ok(0));
}

#[test]
fn day_9_stops_at_the_first_line_that_is_no_tile() {
    assert_eq!(part_1::solve("1,1\n3,3\nrest\n100,100"), Ok(9));
}

#[test]
fn day_9_area_overflow_is_reported() {
    assert_eq!(part_1::solve("0,0\n18446744073709551615,1"), Err(Error::Overflow));
    assert_eq!(part_1::solve("0,0\n4294967295,4294967294"), Ok(18446744069414584320));
    assert_eq!(part_1::solve("0,0\n4294967295,4294967295"), Err(Error::Overflow));
}

#[test]
fn area_counts_both_corners() {
    assert_eq!(checked_area(tile(2, 5), tile(11, 1)), Some(50));
    assert_eq!(checked_area(tile(7, 3), tile(7, 3)), Some(1));
    assert_eq!(Rectangle::new(tile(9, 7), tile(2, 3)).area(), Some(40));
    assert_eq!(Rectangle::new(tile(0, 0), tile(u64::MAX, 0)).area(), None);
}

#[test]
fn corners_pair_columns_with_rows() {
    let corners = Rectangle::new(tile(1, 2), tile(3, 4)).corners();
    assert_eq!(corners, vec![tile(1, 2), tile(1, 4), tile(3, 2), tile(3, 4)]);
}

#[test]
fn edges_join_neighbouring_corners() {
    let edges = Rectangle::new(tile(1, 2), tile(3, 4)).edges();
    let ends: Vec<_> = edges.iter().map(|e| ((e.from.x, e.from.y), (e.to.x, e.to.y))).collect();
    assert_eq!(
        ends,
        vec![((1, 4), (1, 2)), ((3, 2), (1, 2)), ((3, 4), (1, 4)), ((3, 4), (3, 2))]
    );
    assert_eq!(Rectangle::new(tile(5, 5), tile(5, 5)).edges().len(), 0);
}

#[test]
fn edge_from_its_other_end() {
    let turned = edge((2, 5), (9, 5)).reversed();
    assert_eq!((turned.from.x, turned.from.y, turned.to.x, turned.to.y), (9, 5, 2, 5));
}

#[test]
fn edge_directions() {
    assert!(edge((1, 1), (1, 9)).is_vertical());
    assert!(!edge((1, 1), (9, 1)).is_vertical());
    assert!(!edge((1, 1), (1, 1)).is_vertical());
}

#[test]
fn edges_intersect_only_strictly_inside() {
    assert!(edge((5, 0), (5, 10)).intersects(&edge((0, 5), (10, 5))));
    assert!(edge((0, 5), (10, 5)).intersects(&edge((5, 0), (5, 10))));
    assert!(!edge((5, 0), (5, 10)).intersects(&edge((5, 5), (10, 5))));
    assert!(!edge((5, 0), (5, 5)).intersects(&edge((0, 5), (10, 5))));
    assert!(edge((5, 0), (5, 10)).intersects(&edge((5, 4), (5, 20))));
    assert!(!edge((5, 0), (5, 10)).intersects(&edge((5, 10), (5, 20))));
    assert!(!edge((5, 0), (5, 10)).intersects(&edge((6, 4), (6, 20))));
    assert!(edge((0, 3), (10, 3)).intersects(&edge((2, 3), (4, 3))));
    assert!(!edge((0, 3), (10, 3)).intersects(&edge((0, 3), (10, 3))));
    assert!(!edge((u64::MAX, 0), (u64::MAX, u64::MAX)).intersects(&edge((0, 1), (5, 1))));
}

#[test]
fn edges_contain_along_their_direction() {
    assert!(edge((5, 0), (5, 10)).contains(&edge((7, 10), (7, 20))));
    assert!(!edge((5, 0), (5, 10)).contains(&edge((7, 11), (7, 20))));
    assert!(!edge((5, 0), (5, 10)).contains(&edge((0, 5), (10, 5))));
    assert!(edge((10, 2), (0, 2)).contains(&edge((10, 9), (3, 9))));
}

#[test]
fn loop_closes_on_the_first_tile() {
    let tiles = vec![tile(1, 1), tile(6, 1), tile(6, 4)];
    let edges = loop_edges(&tiles);
    assert_eq!(edges.len(), 3);
    assert_eq!((edges[2].from, edges[2].to), (tile(6, 4), tile(1, 1)));
    assert!(fits_polygon(&Rectangle::new(tile(1, 1), tile(6, 1)), &edges));
}
