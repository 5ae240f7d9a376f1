use daily_puzzles::decimal::to_text;
use daily_puzzles::text::{
    has_byte, parse_grid, parse_i32, parse_line_ending, parse_list, parse_number, parse_row,
    same_bytes, skip_run, split_at_byte, split_lines, Class, Item, Separator,
};
use nom::character::complete::{alpha1, digit1, line_ending, space0, space1};
use nom::multi::separated_list1;
use nom::{IResult, Parser};

const SAMPLES: [&str; 24] = [
    "",
    "0",
    "7",
    "007",
    "42abc",
    "abc",
    " 42",
    "-42",
    "+42",
    "-",
    "+",
    "--4",
    "255",
    "256",
    "4294967295",
    "4294967296",
    "2147483647",
    "2147483648",
    "-2147483648",
    "-2147483649",
    "18446744073709551615",
    "18446744073709551616",
    "000000000000000000000000000001x",
    "99999999999999999999999999",
];

fn consumed(input: &str, rest: &str) -> usize {
    input.len() - rest.len()
}

#[test]
fn numbers_are_read_as_nom_reads_them() {
    for input in SAMPLES {
        let theirs: IResult<&str, u64> = nom::character::complete::u64(input);
        let expected = theirs.ok().map(|(rest, value)| (value, consumed(input, rest)));
        assert_eq!(parse_number(input.as_bytes(), 0, u64::MAX), expected, "{input:?}");
        assert_eq!(u64::parse(input.as_bytes(), 0), expected, "{input:?}");

        let theirs: IResult<&str, u32> = nom::character::complete::u32(input);
        let expected = theirs.ok().map(|(rest, value)| (value, consumed(input, rest)));
        assert_eq!(u32::parse(input.as_bytes(), 0), expected, "{input:?}");

        let theirs: IResult<&str, usize> = nom::character::complete::usize(input);
        let expected = theirs.ok().map(|(rest, value)| (value, consumed(input, rest)));
        assert_eq!(usize::parse(input.as_bytes(), 0), expected, "{input:?}");

        let theirs: IResult<&str, u8> = nom::character::complete::u8(input);
        let expected = theirs.ok().map(|(rest, value)| (u64::from(value), consumed(input, rest)));
        assert_eq!(parse_number(input.as_bytes(), 0, 255), expected, "{input:?}");

        let theirs: IResult<&str, i32> = nom::character::complete::i32(input);
        let expected = theirs.ok().map(|(rest, value)| (value, consumed(input, rest)));
        assert_eq!(parse_i32(input.as_bytes(), 0), expected, "{input:?}");
    }
}

#[test]
fn numbers_are_read_from_a_position() {
    assert_eq!(parse_number(b"ab12cd", 2, 100), Some((12, 4)));
    assert_eq!(parse_number(b"ab12", 2, 11), None);
    assert_eq!(parse_number(b"ab12", 4, 100), None);
    assert_eq!(parse_i32(b"x-0012y", 1), Some((-12, 6)));
}

#[test]
fn runs_and_separators_are_read_as_nom_reads_them() {
    for input in ["", " ", "  \t x", "\tx", "x ", "\n", "\r\n", "\r", "\n\n", "\rx", "abcDEF1", "Zz", "1a", "é", "12 34"] {
        let theirs: IResult<&str, &str> = space0(input);
        assert_eq!(Separator::Blank.parse(input.as_bytes(), 0), theirs.ok().map(|(rest, _)| consumed(input, rest)));
        let theirs: IResult<&str, &str> = space1(input);
        assert_eq!(Separator::Spaces.parse(input.as_bytes(), 0), theirs.ok().map(|(rest, _)| consumed(input, rest)));
        let theirs: IResult<&str, &str> = line_ending(input);
        assert_eq!(Separator::Line.parse(input.as_bytes(), 0), theirs.ok().map(|(rest, _)| consumed(input, rest)));
        assert_eq!(parse_line_ending(input.as_bytes(), 0), Separator::Line.parse(input.as_bytes(), 0));
        let theirs: IResult<&str, &str> = alpha1(input);
        let end = skip_run(input.as_bytes(), 0, Class::Alpha);
        assert_eq!(if end > 0 { Some(end) } else { None }, theirs.ok().map(|(rest, _)| consumed(input, rest)));
        let theirs: IResult<&str, &str> = digit1(input);
        let end = skip_run(input.as_bytes(), 0, Class::Digit);
        assert_eq!(if end > 0 { Some(end) } else { None }, theirs.ok().map(|(rest, _)| consumed(input, rest)));
    }
    assert_eq!(Separator::Byte(b',').parse(b"a,b", 1), Some(2));
    assert_eq!(Separator::Byte(b',').parse(b"a,b", 0), None);
    assert_eq!(Separator::Nothing.parse(b"a,b", 3), Some(3));
    assert_eq!(skip_run(b"ab,,cd", 0, Class::Except(b',')), 2);
    assert_eq!(skip_run(b"..#.x", 0, Class::Either(b'.', b'#')), 4);
    assert_eq!(skip_run(b"1 2\t3\n", 0, Class::DigitOrSpace), 5);
    assert!(Class::Space.contains(b'\t'));
    assert!(!Class::Space.contains(b'\n'));
    assert!(has_byte(b"abc", 2, b'c'));
    assert!(!has_byte(b"abc", 3, b'c'));
}

#[test]
fn lists_are_read_as_nom_reads_them() {
    for input in ["1,2,3", "1,2,", "1,,2", ",1", "", "12", "1,2x", "1, 2", "1,99999999999999999999,3", "0,18446744073709551615"] {
        let theirs: IResult<&str, Vec<u64>> =
            separated_list1(nom::bytes::complete::tag(","), nom::character::complete::u64).parse(input);
        let expected = theirs.ok().map(|(rest, list)| (list, consumed(input, rest)));
        assert_eq!(parse_list::<u64>(input.as_bytes(), 0, Separator::Byte(b',')), expected, "{input:?}");
    }
    for input in ["1\n2\r\n3\n", "1\n\n2", "1 \n2", "1\r2"] {
        let theirs: IResult<&str, Vec<u32>> =
            separated_list1(line_ending, nom::character::complete::u32).parse(input);
        let expected = theirs.ok().map(|(rest, list)| (list, consumed(input, rest)));
        assert_eq!(parse_list::<u32>(input.as_bytes(), 0, Separator::Line), expected, "{input:?}");
    }
    for input in ["1 2  3 ", "1\t2 x", " 1 2"] {
        let theirs: IResult<&str, Vec<usize>> =
            separated_list1(space1, nom::character::complete::usize).parse(input);
        let expected = theirs.ok().map(|(rest, list)| (list, consumed(input, rest)));
        assert_eq!(parse_list::<usize>(input.as_bytes(), 0, Separator::Spaces), expected, "{input:?}");
    }
    assert_eq!(parse_list::<u64>(b"12  3 4x", 0, Separator::Blank), Some((vec![12, 3, 4], 7)));
    assert_eq!(parse_list::<u64>(b"1234", 0, Separator::Nothing), Some((vec![1234], 4)));
}

#[test]
fn lines_are_cut_as_the_standard_library_cuts_them() {
    for input in ["", "\n", "a", "a\n", "a\nb", "a\r\nb\r\n", "a\rb\n", "\n\na\n\n", "a\r", "\r\n", "a\n\r\nb\r", "\r\r\n"] {
        let expected: Vec<&[u8]> = input.lines().map(|line| line.as_bytes()).collect();
        assert_eq!(split_lines(input.as_bytes()), expected, "{input:?}");
    }
}

#[test]
fn pieces_are_cut_as_the_standard_library_cuts_them() {
    for input in ["", ",", "a", "a,", ",a", "a,b", "a,,b", ",,", "a\n,b,"] {
        let expected: Vec<&[u8]> = input.split(',').map(|piece| piece.as_bytes()).collect();
        assert_eq!(split_at_byte(input.as_bytes(), b','), expected, "{input:?}");
    }
}

#[test]
fn rows_and_grids_of_cells() {
    assert_eq!(parse_row(b".#.#x", 0, b'.', b'#', 0u8, 1u8), Some((vec![0, 1, 0, 1], 4)));
    assert_eq!(parse_row(b"x.#", 0, b'.', b'#', 0u8, 1u8), None);
    assert_eq!(parse_row(b"", 0, b'.', b'#', 0u8, 1u8), None);
    assert_eq!(
        parse_grid(b".#\r\n#\n\n..", 0, b'.', b'#', false, true),
        Some((vec![vec![false, true], vec![true]], 5))
    );
    assert_eq!(parse_grid(b".#\n", 0, b'.', b'#', false, true), Some((vec![vec![false, true]], 2)));
    assert_eq!(parse_grid(b"\n.#", 0, b'.', b'#', false, true), None);
}

#[test]
fn bytes_are_compared() {
    assert!(same_bytes(b"abc", b"abc"));
    assert!(same_bytes(b"", b""));
    assert!(!same_bytes(b"abc", b"abd"));
    assert!(!same_bytes(b"abc", b"ab"));
}

#[test]
fn numbers_are_written_in_decimal() {
    for n in [0u64, 1, 9, 10, 11, 99, 100, 101, 1234567890, 4294967296, u64::MAX - 1, u64::MAX] {
        assert_eq!(to_text(n), n.to_string());
    }
}
