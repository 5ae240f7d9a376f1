use daily_puzzles::day05::part_1::{available_ingredients, in_ranges};
use daily_puzzles::day05::part_2::{rank_of, size_of, sort_by_size, uncovered};
use daily_puzzles::day05::{fresh_ingredients, part_1, part_2, FreshRange};
use daily_puzzles::error::Error;

fn range(first: u64, last: u64) -> FreshRange {
    FreshRange { first, last }
}

#[test]
fn day_5_part_1_example_works() {
    let input = "\
3-5
10-14
16-20
12-18

1
5
8
11
17
32
";
    let expected = "3";
    let solution = part_1::solve(input).unwrap();
    assert_eq!(solution, expected);
}

#[test]
fn day_5_part_2_example_works() {
    let input = "\
3-5
10-14
16-20
12-18
";
    let expected = "14";
    let solution = part_2::solve(input).unwrap();
    assert_eq!(solution, expected);
}

#[test]
fn day_5_text_without_ranges_has_nothing_fresh() {
    assert_eq!(part_1::solve(""), Ok(String::from("0")));
    assert_eq!(part_1::solve("1\n2\n3\n"), Ok(String::from("0")));
    assert_eq!(part_2::solve(""), Ok(String::from("0")));
    assert_eq!(part_2::solve("\n3-5\n"), Ok(String::from("0")));
}

#[test]
fn day_5_range_without_line_ending_is_no_range() {
    assert_eq!(part_2::solve("3-5\n10-14"), Ok(String::from("3")));
    // The line that is no range is read as an available ingredient.
    assert_eq!(part_1::solve("3-5\n4-9"), Ok(String::from("1")));
    assert_eq!(part_1::solve("3-5\r\n10-14\r\n\r\n12\r\n4x\r\n6"), Ok(String::from("2")));
}

#[test]
fn day_5_ranges_that_overlap_count_once() {
    assert_eq!(part_2::solve("1-10\n1-10\n"), Ok(String::from("10")));
    assert_eq!(part_2::solve("0-10\n2-5\n"), Ok(String::from("11")));
    assert_eq!(part_2::solve("2-5\n0-10\n4-12\n11-13\n20-19\n"), Ok(String::from("14")));
    assert_eq!(part_2::solve("5-9\n1-5\n9-13\n3-11\n"), Ok(String::from("13")));
    assert_eq!(part_2::solve("7-7\n7-7\n8-8\n6-6\n"), Ok(String::from("3")));
}

#[test]
fn day_5_all_ingredients_do_not_fit_64_bits() {
    assert_eq!(part_2::solve("1-18446744073709551615\n"), Ok(String::from("18446744073709551615")));
    assert_eq!(part_2::solve("0-18446744073709551615\n"), Err(Error::Overflow));
    assert_eq!(part_2::solve("0-5\n3-18446744073709551615\n"), Err(Error::Overflow));
    assert_eq!(part_2::solve("1-5\n3-18446744073709551615\n"), Ok(String::from("18446744073709551615")));
}

#[test]
fn ranges_are_read_line_by_line() {
    assert_eq!(fresh_ingredients(b"3-5\n10-14\r\n\n1\n", 0), (vec![range(3, 5), range(10, 14)], 11));
    assert_eq!(fresh_ingredients(b"3-5", 0), (vec![], 0));
    assert_eq!(fresh_ingredients(b"3-18446744073709551616\n", 0), (vec![], 0));
    assert_eq!(available_ingredients(b"\n1\n5x\n\nx8\n 9\n11\r\n17"), vec![1, 5, 11, 17]);
}

#[test]
fn ingredients_are_looked_up_in_the_ranges() {
    let ranges = vec![range(3, 5), range(10, 14), range(9, 2)];
    assert!(in_ranges(&ranges, 3));
    assert!(in_ranges(&ranges, 14));
    assert!(!in_ranges(&ranges, 6));
    assert!(!in_ranges(&ranges, 9));
    assert_eq!(size_of(&range(3, 5)), 3);
    assert_eq!(size_of(&range(5, 3)), 0);
    assert_eq!(size_of(&range(0, u64::MAX)), 1 << 64);
}

#[test]
fn larger_ranges_cut_the_smaller() {
    let ranges = vec![range(10, 20), range(5, 12), range(18, 25), range(11, 13), range(0, 0)];
    assert_eq!(uncovered(&ranges, 0), Some((10, 20)));
    assert_eq!(uncovered(&ranges, 1), Some((5, 9)));
    assert_eq!(uncovered(&ranges, 2), Some((21, 25)));
    assert_eq!(uncovered(&ranges, 3), None);
    assert_eq!(uncovered(&ranges, 4), Some((0, 0)));
}

#[test]
fn count_agrees_with_counting_one_by_one() {
    // Every choice of three ranges with ends from 0 to 5.
    let ends: Vec<(u64, u64)> = (0..6).flat_map(|a| (0..6).map(move |b| (a, b))).collect();
    for a in &ends {
        for b in &ends {
            for c in &ends {
                let ranges = [a, b, c];
                let expected = (0..6u64).filter(|x| ranges.iter().any(|r| r.0 <= *x && *x <= r.1)).count();
                let text: String = ranges.iter().map(|r| format!("{}-{}\n", r.0, r.1)).collect();
                assert_eq!(part_2::solve(&text), Ok(expected.to_string()), "{text:?}");
            }
        }
    }
}

#[test]
fn ranges_are_sorted_the_largest_first() {
    let mut ranges = vec![range(3, 5), range(0, 100), range(9, 2), range(7, 7), range(10, 19)];
    sort_by_size(&mut ranges);
    assert_eq!(ranges, vec![range(0, 100), range(10, 19), range(3, 5), range(7, 7), range(9, 2)]);
    assert_eq!(rank_of(&range(0, u64::MAX)), 0);
    assert_eq!(rank_of(&range(1, 0)), 1 << 64);
}
