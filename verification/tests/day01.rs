use daily_puzzles::day01::{part_1, part_2, parse_rotation, rotations, turn};
use daily_puzzles::error::Error;

const EXAMPLE: &str = "\
L68
L30
R48
L5
R60
L55
L1
L99
R14
L82
";

#[test]
fn day_1_part_1_example_works() {
    let expected = "3";
    let solution = part_1::solve(EXAMPLE).unwrap();
    assert_eq!(solution, expected);
}

#[test]
fn day_1_part_2_example_works() {
    let expected = "6";
    let solution = part_2::solve(EXAMPLE).unwrap();
    assert_eq!(solution, expected);
}

#[test]
fn rotations_reads_signed_amounts() {
    assert_eq!(rotations(EXAMPLE), vec![-68, -30, 48, -5, 60, -55, -1, -99, 14, -82]);
}

#[test]
fn rotations_passes_over_other_lines() {
    assert_eq!(rotations("R5\r\n\nX7\nL\nL+3\nR-4\nL-2tail\nR12"), vec![5, -3, -4, 2, 12]);
}

#[test]
fn rotation_keeps_to_32_bits() {
    assert_eq!(parse_rotation(b"R2147483647"), Some(2147483647));
    assert_eq!(parse_rotation(b"R2147483648"), None);
    assert_eq!(parse_rotation(b"L-2147483648"), Some(2147483648));
    assert_eq!(parse_rotation(b"R-2147483649"), None);
    assert_eq!(parse_rotation(b"R"), None);
    assert_eq!(parse_rotation(b""), None);
}

#[test]
fn turn_wraps_both_ways() {
    assert_eq!(turn(50, -68), 82);
    assert_eq!(turn(0, -1), 99);
    assert_eq!(turn(99, 1), 0);
    assert_eq!(turn(5, -2147483648), 57);
}

#[test]
fn clicks_count_every_pass_of_zero() {
    assert_eq!(part_2::count_clicks(50, 1000), 10);
    assert_eq!(part_2::count_clicks(50, -150), 2);
    assert_eq!(part_2::count_clicks(0, -100), 1);
    assert_eq!(part_2::count_clicks(0, -5), 0);
    assert_eq!(part_2::count_clicks(5, -5), 1);
    assert_eq!(part_2::count_clicks(99, 1), 1);
    assert_eq!(part_2::count_clicks(0, 0), 0);
}

#[test]
fn empty_text_has_no_zeros() {
    assert_eq!(part_1::solve(""), Ok(String::from("0")));
    assert_eq!(part_2::solve(""), Ok::<String, Error>(String::from("0")));
}

#[test]
fn clicks_agree_with_turning_click_by_click() {
    for dial in 0..100i64 {
        for rotation in -350..=350i64 {
            let mut at = dial;
            let mut zeros = 0;
            for _ in 0..rotation.abs() {
                at = (at + rotation.signum()).rem_euclid(100);
                if at == 0 {
                    zeros += 1;
                }
            }
            assert_eq!(part_2::count_clicks(dial, rotation), zeros, "{dial} {rotation}");
            assert_eq!(turn(dial, rotation), at, "{dial} {rotation}");
        }
    }
    assert_eq!(part_2::count_clicks(1, -2147483648), 21474837);
    assert_eq!(part_2::count_clicks(99, 2147483648), 21474837);
    assert_eq!(part_2::count_clicks(0, 2147483648), 21474836);
}
