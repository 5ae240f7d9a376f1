use daily_puzzles::day06::part_2::{group_numbers, number_of_column, numbers};
use daily_puzzles::day06::{
    operation_row, part_1, part_2, solve_problem, total, transpose, Operation, Row,
};
use daily_puzzles::error::{Error, Stage};

#[test]
fn day_6_part_1_example_works() {
    let input = "\
123 328  51 64
 45 64  387 23
  6 98  215 314
*   +   *   +  \
";
    let expected = "4277556";
    let solution = part_1::solve(input).unwrap();
    assert_eq!(solution, expected);
}

#[test]
fn day_6_part_2_example_works() {
    let input = [
        "123 328  51 64 ",
        " 45 64  387 23 ",
        "  6 98  215 314",
        "*   +   *   +  ",
    ]
    .join("\n");
    let expected = "3263827";
    let solution = part_2::solve(&input).unwrap();
    assert_eq!(solution, expected);
}

#[test]
fn day_6_rejects_what_is_no_worksheet() {
    assert_eq!(part_1::solve(""), Err(Error::Parse(Stage::Worksheet)));
    assert_eq!(part_1::solve("1 2 3"), Err(Error::Parse(Stage::Worksheet)));
    assert_eq!(part_1::solve("1 2 3\n"), Err(Error::Parse(Stage::Worksheet)));
    assert_eq!(part_1::solve("1 2 3\n/ + +"), Err(Error::Parse(Stage::Worksheet)));
    // Blanks at the end of a row of numbers stand before the line ending.
    assert_eq!(part_1::solve("1 2 3 \n+ + +"), Err(Error::Parse(Stage::Worksheet)));
    assert_eq!(part_2::solve(""), Err(Error::Parse(Stage::Worksheet)));
    assert_eq!(part_2::solve("12\n"), Err(Error::Parse(Stage::Worksheet)));
    // A row of operations that starts with a blank is read as a row of digits.
    assert_eq!(part_2::solve("12\n +"), Err(Error::Parse(Stage::Worksheet)));
}

#[test]
fn day_6_short_rows_leave_problems_short() {
    assert_eq!(part_1::solve("1 2 3\n4 5\n6\n* * *"), Ok(String::from("37")));
    assert_eq!(part_1::solve("1 2\n3 4 5\n+ +"), Ok(String::from("10")));
    assert_eq!(part_1::solve("1 2 3\n+"), Ok(String::from("1")));
    assert_eq!(part_1::solve("7\r\n8\r\n*+*"), Ok(String::from("56")));
}

#[test]
fn day_6_overflow_is_reported() {
    assert_eq!(part_1::solve("18446744073709551615 1\n1 1\n+ +"), Err(Error::Overflow));
    assert_eq!(part_1::solve("18446744073709551613 1\n1 1\n* +"), Ok(String::from("18446744073709551615")));
    assert_eq!(part_1::solve("4294967296\n4294967296\n0\n*"), Err(Error::Overflow));
    assert_eq!(part_1::solve("18446744073709551615 1\n+ +"), Err(Error::Overflow));
    let tall = ["1"; 21].join("\n");
    assert_eq!(part_2::solve(&format!("{tall}\n+")), Err(Error::Overflow));
    let zeros = ["0"; 30].join("\n");
    assert_eq!(part_2::solve(&format!("{zeros}\n7\n+")), Ok(String::from("7")));
}

#[test]
fn columns_are_read_downwards() {
    assert_eq!(number_of_column(&vec![Some(1), None, Some(0), Some(7)]), Ok(Some(107)));
    assert_eq!(number_of_column(&vec![None, None]), Ok(None));
    assert_eq!(number_of_column(&vec![]), Ok(None));
    let mut digits: Vec<Option<u8>> = "18446744073709551615".bytes().map(|b| Some(b - b'0')).collect();
    assert_eq!(number_of_column(&digits), Ok(Some(u64::MAX)));
    digits[19] = Some(6);
    assert_eq!(number_of_column(&digits), Err(Error::Overflow));
}

#[test]
fn blank_columns_part_the_problems() {
    let found = vec![None, Some(1), Some(2), None, None, Some(3), None, Some(4), Some(5)];
    assert_eq!(group_numbers(&found), vec![vec![1, 2], vec![3], vec![4, 5]]);
    assert_eq!(group_numbers(&vec![None, None]), Vec::<Vec<u64>>::new());
    let (problems, end) = numbers(b"12 3\n 4 5\n*", 0).unwrap().unwrap();
    assert_eq!(problems, vec![vec![1, 24], vec![35]]);
    assert_eq!(end, 9);
    assert_eq!(numbers(b"*", 0), Ok(None));
    // Rows that the end of the text cuts off are no rows.
    assert_eq!(numbers(b"12 3\n 4 5", 0), Ok(None));
    assert_eq!(numbers(b"12 3\n 4 5\n", 0), Ok(None));
}

#[test]
fn rows_turn_into_columns() {
    let rows = vec![Row { cells: vec![1, 2, 3] }, Row { cells: vec![4] }, Row { cells: vec![5, 6, 7, 8] }];
    assert_eq!(transpose(&rows), vec![vec![1, 4, 5], vec![2, 6], vec![3, 7]]);
    assert_eq!(transpose(&Vec::<Row<u64>>::new()), Vec::<Vec<u64>>::new());
    assert_eq!(part_1::number_lists(b"1 2\n3 4\nx", 0), Some((vec![vec![1, 3], vec![2, 4]], 7)));
}

#[test]
fn problems_are_solved_from_the_left() {
    assert_eq!(solve_problem(&vec![2, 3, 4], Operation::Add), Some(9));
    assert_eq!(solve_problem(&vec![2, 3, 4], Operation::Mul), Some(24));
    assert_eq!(solve_problem(&vec![], Operation::Mul), Some(0));
    assert_eq!(solve_problem(&vec![u64::MAX, 2, 0], Operation::Mul), None);
    assert_eq!(total(&vec![vec![2, 3], vec![4, 5], vec![9]], &vec![Operation::Mul, Operation::Add]), Ok(15));
    assert_eq!(operation_row(b"  * +\t+ x", 0), Some((vec![Operation::Mul, Operation::Add, Operation::Add], 7)));
    assert_eq!(operation_row(b"  ", 0), None);
}
