use advent2023::day_01::{match_digit, match_first_digit, match_last_digit, plain_value};

#[test]
fn digits_by_name_and_by_themselves() {
    let lines = [
        ("two1nine", 29),
        ("eightwothree", 83),
        ("abcone2threexyz", 13),
        ("xtwone3four", 24),
        ("4nineeightseven2", 42),
        ("zoneight234", 14),
        ("7pqrstsixteen", 76),
    ];
    let mut sum = 0;
    for (line, value) in lines {
        let first = match_first_digit(line.as_bytes()).unwrap();
        let last = match_last_digit(line.as_bytes()).unwrap();
        assert_eq!(first * 10 + last, value);
        sum += first * 10 + last;
    }
    assert_eq!(sum, 281);
}

#[test]
fn digits_at_a_place() {
    assert_eq!(match_digit(b"one", 0), Some(1));
    assert_eq!(match_digit(b"one", 1), None);
    assert_eq!(match_digit(b"xzero", 1), Some(0));
    assert_eq!(match_digit(b"0", 0), Some(0));
    assert_eq!(match_digit(b"9", 0), Some(9));
    assert_eq!(match_digit(b"nin", 0), None);
    assert_eq!(match_digit(b"nine", 0), Some(9));
    assert_eq!(match_digit(b"twone", 0), Some(2));
    assert_eq!(match_digit(b"twone", 2), Some(1));
    assert_eq!(match_digit(b"three", 0), Some(3));
    assert_eq!(match_digit(b"four", 0), Some(4));
    assert_eq!(match_digit(b"five", 0), Some(5));
    assert_eq!(match_digit(b"six", 0), Some(6));
    assert_eq!(match_digit(b"seven", 0), Some(7));
    assert_eq!(match_digit(b"eight", 0), Some(8));
    assert_eq!(match_digit(b"One", 0), None);
}

#[test]
fn lines_without_a_digit() {
    assert_eq!(match_first_digit(b""), None);
    assert_eq!(match_last_digit(b""), None);
    assert_eq!(match_first_digit(b"no digit"), None);
    assert_eq!(match_last_digit(b"no digit"), None);
    assert_eq!(match_first_digit(b"oneight"), Some(1));
    assert_eq!(match_last_digit(b"oneight"), Some(8));
    assert_eq!(match_first_digit(b"x5"), Some(5));
    assert_eq!(match_last_digit(b"5x"), Some(5));
}

#[test]
fn values_of_plain_digits() {
    assert_eq!(plain_value(b"1abc2"), Some(12));
    assert_eq!(plain_value(b"pqr3stu8vwx"), Some(38));
    assert_eq!(plain_value(b"a1b2c3d4e5f"), Some(15));
    assert_eq!(plain_value(b"treb7uchet"), Some(77));
    assert_eq!(plain_value(b"two1nine"), Some(11));
    assert_eq!(plain_value(b"seven"), None);
    assert_eq!(plain_value(b""), None);
}

#[test]
fn lines_are_summed() {
    assert_eq!(advent2023::day_01::solve_part1("1abc2\npqr3stu8vwx\na1b2c3d4e5f\ntreb7uchet"), Some(142));
    let spelled = "two1nine\neightwothree\nabcone2threexyz\nxtwone3four\n4nineeightseven2\nzoneight234\n7pqrstsixteen";
    assert_eq!(advent2023::day_01::solve_part2(spelled), Some(281));
    // The second of these lines holds no digit itself.
    assert_eq!(advent2023::day_01::solve_part1(spelled), None);
    assert_eq!(advent2023::day_01::solve_part1(""), Some(0));
    assert_eq!(advent2023::day_01::solve_part1("1\nx"), None);
    assert_eq!(advent2023::day_01::solve_part2("one\n\n2"), None);
}

#[test]
fn digits_up_to_a_place() {
    use_back();
}

fn use_back() {
    let line = b"xtwone3four";
    assert_eq!(advent2023::day_01::match_digit_back(line, 11), Some(4));
    assert_eq!(advent2023::day_01::match_digit_back(line, 7), Some(3));
    assert_eq!(advent2023::day_01::match_digit_back(line, 6), Some(1));
    assert_eq!(advent2023::day_01::match_digit_back(line, 4), Some(2));
    assert_eq!(advent2023::day_01::match_digit_back(line, 5), None);
    assert_eq!(advent2023::day_01::match_digit_back(line, 1), None);
    assert_eq!(advent2023::day_01::match_digit_back(b"zero", 4), Some(0));
    assert_eq!(advent2023::day_01::match_digit_back(b"0", 1), Some(0));
}

