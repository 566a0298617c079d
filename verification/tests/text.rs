use advent2023::text::{
    copy, intern, line_end, lookup, read_grid, read_number, read_numbers, read_signed, read_signed_numbers, same, split_lines,
};

#[test]
fn a_number_is_read_digit_by_digit() {
    assert_eq!(read_number(b"123 45", 0), (Some(123), 3));
    assert_eq!(read_number(b"123 45", 1), (Some(23), 3));
    assert_eq!(read_number(b"123 45", 3), (Some(0), 3));
    assert_eq!(read_number(b"123 45", 4), (Some(45), 6));
    assert_eq!(read_number(b"123 45", 6), (Some(0), 6));
    assert_eq!(read_number(b"007", 0), (Some(7), 3));
    assert_eq!(read_number(b"18446744073709551615", 0), (Some(u64::MAX as usize), 20));
    assert_eq!(read_number(b"18446744073709551616x", 0), (None, 20));
    assert_eq!(read_number(b"99999999999999999999999", 0), (None, 23));
}

#[test]
fn numbers_are_found_in_a_line() {
    assert_eq!(read_numbers(b"seeds: 79 14 55 13", 0, 18), Some(vec![79, 14, 55, 13]));
    assert_eq!(read_numbers(b"seeds: 79 14 55 13", 0, 12), Some(vec![79, 14]));
    assert_eq!(read_numbers(b"seeds: 79 14 55 13", 8, 11), Some(vec![9, 1]));
    assert_eq!(read_numbers(b"a1b22c333", 0, 9), Some(vec![1, 22, 333]));
    assert_eq!(read_numbers(b"no numbers", 0, 10), Some(vec![]));
    assert_eq!(read_numbers(b"", 0, 0), Some(vec![]));
    assert_eq!(read_numbers(b"1 99999999999999999999999 2", 0, 27), None);
}

#[test]
fn lines_end_at_the_feed() {
    let text = b"one\ntwo\n\nend";
    assert_eq!(line_end(text, 0), 3);
    assert_eq!(line_end(text, 3), 3);
    assert_eq!(line_end(text, 4), 7);
    assert_eq!(line_end(text, 8), 8);
    assert_eq!(line_end(text, 9), 12);
    assert_eq!(line_end(text, 12), 12);
}

#[test]
fn numbers_with_a_sign() {
    assert_eq!(read_signed(b"-12 7", 0), (Some(-12), 3));
    assert_eq!(read_signed(b"-12 7", 1), (Some(12), 3));
    assert_eq!(read_signed(b"-12 7", 4), (Some(7), 5));
    assert_eq!(read_signed(b"-", 0), (None, 1));
    assert_eq!(read_signed(b"x", 0), (None, 0));
    assert_eq!(read_signed(b"", 0), (None, 0));
    assert_eq!(read_signed(b"9223372036854775807", 0), (Some(isize::MAX), 19));
    assert_eq!(read_signed(b"9223372036854775808", 0), (None, 19));
    assert_eq!(read_signed(b"-9223372036854775807", 0), (Some(-isize::MAX), 20));
    assert_eq!(read_signed(b"-9223372036854775808", 0), (None, 20));
    assert_eq!(read_signed_numbers(b"0 3 -6 9 -12", 0, 12), Some(vec![0, 3, -6, 9, -12]));
    assert_eq!(read_signed_numbers(b"1-2--3 - 4", 0, 10), Some(vec![1, -2, -3, 4]));
    assert_eq!(read_signed_numbers(b"-", 0, 1), Some(vec![]));
    assert_eq!(read_signed_numbers(b"", 0, 0), Some(vec![]));
    assert_eq!(read_signed_numbers(b"5 99999999999999999999999", 0, 25), None);
}

fn rows(text: &str) -> Vec<String> {
    split_lines(text.as_bytes())
        .into_iter()
        .map(|row| String::from_utf8(row).unwrap())
        .collect()
}

#[test]
fn texts_are_split_into_lines() {
    assert_eq!(rows(""), Vec::<String>::new());
    assert_eq!(rows("ab"), vec!["ab"]);
    assert_eq!(rows("ab\n"), vec!["ab"]);
    assert_eq!(rows("ab\ncd"), vec!["ab", "cd"]);
    assert_eq!(rows("ab\n\ncd\n"), vec!["ab", "", "cd"]);
    assert_eq!(rows("\n"), vec![""]);
    assert_eq!(rows("\n\n"), vec!["", ""]);
    // A carriage return before a line feed ends the line with it.
    assert_eq!(rows("ab\r\ncd\r\n"), vec!["ab", "cd"]);
    assert_eq!(rows("ab\r\r\ncd\r"), vec!["ab\r", "cd\r"]);
    assert_eq!(rows("\r\n"), vec![""]);
    for text in ["", "a", "a\n", "\na", "a\r\n\r\nb", "x\ry\n\n\nz\r"] {
        let expected: Vec<String> = text.lines().map(String::from).collect();
        assert_eq!(rows(text), expected);
    }
}

#[test]
fn grids_are_read_byte_by_byte() {
    let digit = |byte: u8| if byte.is_ascii_digit() { Some(byte - b'0') } else { None };
    assert_eq!(read_grid(b"12\n3\n\n45", digit), Some(vec![vec![1, 2], vec![3], vec![], vec![4, 5]]));
    assert_eq!(read_grid(b"", digit), Some(vec![]));
    assert_eq!(read_grid(b"12\r\n34\n", digit), Some(vec![vec![1, 2], vec![3, 4]]));
    assert_eq!(read_grid(b"12\n3x", digit), None);
    assert_eq!(read_grid(b"12\r", digit), None);
}

#[test]
fn names_are_kept_under_numbers() {
    assert!(same(&b"abc".to_vec(), &b"abc".to_vec()));
    assert!(!same(&b"abc".to_vec(), &b"abd".to_vec()));
    assert!(!same(&b"abc".to_vec(), &b"ab".to_vec()));
    assert!(same(&vec![], &vec![]));
    let mut names: Vec<Vec<u8>> = Vec::new();
    assert_eq!(intern(&mut names, b"one".to_vec()), 0);
    assert_eq!(intern(&mut names, b"two".to_vec()), 1);
    assert_eq!(intern(&mut names, b"one".to_vec()), 0);
    assert_eq!(names, vec![b"one".to_vec(), b"two".to_vec()]);
    assert_eq!(lookup(&names, &b"two".to_vec()), Some(1));
    assert_eq!(lookup(&names, &b"three".to_vec()), None);
    assert_eq!(copy(b"abcdef", 2, 4), b"cd".to_vec());
    assert_eq!(copy(b"abcdef", 3, 3), Vec::<u8>::new());
}
