use daily_puzzles::day02::part_2::all_equal;
use daily_puzzles::day02::{id_range, id_ranges, ids, part_1, part_2, sum_repeated, IdRange, Rule};
use daily_puzzles::error::Error;

const EXAMPLE: &str = "\
11-22,95-115,998-1012,1188511880-1188511890,222220-222224,\
1698522-1698528,446443-446449,38593856-38593862,565653-565659,\
824824821-824824827,2121212118-2121212124\
";

#[test]
fn day_2_part_1_example_works() {
    let expected = "1227775554";
    let solution = part_1::solve(EXAMPLE).unwrap();
    assert_eq!(solution, expected);
}

#[test]
fn day_2_part_2_example_works() {
    let expected = "4174379265";
    let solution = part_2::solve(EXAMPLE).unwrap();
    assert_eq!(solution, expected);
}

#[test]
fn day_2_text_without_ranges_sums_to_nothing() {
    assert_eq!(part_1::solve(""), Ok(String::from("0")));
    assert_eq!(part_2::solve("no ranges, here"), Ok(String::from("0")));
    assert_eq!(part_1::solve("22-11"), Ok(String::from("0")));
}

#[test]
fn day_2_sum_that_overflows_is_reported() {
    assert_eq!(part_1::solve("11-11,11-11"), Ok(String::from("22")));
    let nines = ["999999999999999999-999999999999999999"; 19];
    assert_eq!(part_1::solve(&nines[..18].join(",")), Ok(String::from("17999999999999999982")));
    assert_eq!(part_1::solve(&nines.join(",")), Err(Error::Overflow));
    assert_eq!(
        part_2::solve("9999999999999999999-9999999999999999999,9999999999999999999-9999999999999999999"),
        Err(Error::Overflow)
    );
    assert_eq!(part_2::solve("18446744073709551615-18446744073709551615"), Ok(String::from("0")));
    assert_eq!(sum_repeated("18446744073709551614-18446744073709551615,7-12", Rule::Twice), Ok(String::from("11")));
}

#[test]
fn ranges_are_read_between_commas() {
    assert_eq!(
        id_ranges("11-22,,x,3-4tail, 5-6,7-,8-9\n,18446744073709551616-1,10-18446744073709551615"),
        vec![
            IdRange { first: 11, last: 22 },
            IdRange { first: 3, last: 4 },
            IdRange { first: 8, last: 9 },
            IdRange { first: 10, last: u64::MAX }
        ]
    );
    assert_eq!(id_range(b"95-115"), Some(IdRange { first: 95, last: 115 }));
    assert_eq!(id_range(b"95:115"), None);
    assert_eq!(id_range(b""), None);
}

#[test]
fn ids_run_through_every_range() {
    assert_eq!(ids("3-5,9-8,7-7,18446744073709551614-18446744073709551615"), vec![3, 4, 5, 7, u64::MAX - 1, u64::MAX]);
    assert_eq!(ids(""), Vec::<u64>::new());
}

#[test]
fn twice_means_two_equal_halves() {
    assert!(part_1::is_repeating("1010"));
    assert!(part_1::is_repeating("55"));
    assert!(part_1::is_repeating(""));
    assert!(!part_1::is_repeating("101"));
    assert!(!part_1::is_repeating("1011"));
    assert!(!part_1::is_repeating("111"));
    assert!(Rule::Twice.test("123123"));
    assert!(!Rule::Twice.test("121212"));
}

#[test]
fn often_means_equal_pieces() {
    assert!(part_2::is_repeating("1010"));
    assert!(part_2::is_repeating("111"));
    assert!(part_2::is_repeating("121212"));
    assert!(part_2::is_repeating("824824824"));
    assert!(!part_2::is_repeating("1"));
    assert!(!part_2::is_repeating(""));
    assert!(!part_2::is_repeating("12121"));
    assert!(!part_2::is_repeating("1231234"));
    assert!(Rule::Often.test("121212"));
    assert!(all_equal(b"abcabcabc", 3));
    assert!(all_equal(b"abcabcab", 3));
    assert!(all_equal(b"abc", 3));
    assert!(!all_equal(b"abcabd", 3));
    assert!(!all_equal(b"ab", 3));
}
