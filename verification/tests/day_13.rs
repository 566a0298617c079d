use advent2023::day_13::{parse_patterns, Pattern};

const NOTES: &str = "#.##..##.
..#.##.#.
##......#
##......#
..#.##.#.
..##..##.
#.#.##.#.

#...##..#
#....#..#
..##..###
#####.##.
#####.##.
..##..###
#....#..#";

fn note(pattern: &Pattern, num_wrong: usize) -> usize {
    match pattern.check_row_reflection(num_wrong) {
        Some(above) => 100 * above,
        None => pattern.check_column_reflection(num_wrong).unwrap_or(0),
    }
}

#[test]
fn patterns_mirror_themselves() {
    let patterns = parse_patterns(NOTES).unwrap();
    assert_eq!(patterns.len(), 2);
    assert_eq!(patterns[0].check_row_reflection(0), None);
    assert_eq!(patterns[0].check_column_reflection(0), Some(5));
    assert_eq!(patterns[1].check_row_reflection(0), Some(4));
    assert_eq!(patterns[1].check_column_reflection(0), None);
    assert_eq!(patterns.iter().map(|p| note(p, 0)).sum::<usize>(), 405);
}

#[test]
fn patterns_mirror_themselves_but_for_a_smudge() {
    let patterns = parse_patterns(NOTES).unwrap();
    assert_eq!(patterns[0].check_row_reflection(1), Some(3));
    assert_eq!(patterns[1].check_row_reflection(1), Some(1));
    assert_eq!(patterns.iter().map(|p| note(p, 1)).sum::<usize>(), 400);
}

#[test]
fn patterns_at_the_edges() {
    let single = Pattern::from(b"#", 0, 1).unwrap();
    assert_eq!(single.check_row_reflection(0), None);
    assert_eq!(single.check_column_reflection(0), None);
    let pair = Pattern::from(b"##", 0, 2).unwrap();
    assert_eq!(pair.check_column_reflection(0), Some(1));
    assert_eq!(pair.check_column_reflection(1), None);
    assert_eq!(pair.check_row_reflection(0), None);
    let odd = Pattern::from(b"#.", 0, 2).unwrap();
    assert_eq!(odd.check_column_reflection(0), None);
    assert_eq!(odd.check_column_reflection(1), Some(1));
    let rows = Pattern::from(b"ab\nab\ncd", 0, 8).unwrap();
    assert_eq!(rows.check_row_reflection(0), Some(1));
    assert_eq!(rows.check_row_reflection(2), Some(2));
    assert_eq!(rows.check_row_reflection(1), None);
    assert!(Pattern::from(b"", 0, 0).is_none());
    assert!(Pattern::from(b"ab\nc", 0, 4).is_none());
    assert!(parse_patterns("ab\nc\n\nab").is_none());
    // A part without a line is no pattern.
    assert!(parse_patterns("").is_none());
    assert!(parse_patterns("ab\n\n\n\ncd\nef\n").is_none());
    assert!(parse_patterns("ab\n\n").is_none());
    assert_eq!(parse_patterns("ab\n\ncd\nef\n").unwrap().len(), 2);
    let two = parse_patterns("ab\r\ncd\n\nef").unwrap();
    assert_eq!(two[0].map, vec![vec![b'a', b'b'], vec![b'c', b'd']]);
    assert_eq!(two[1].map, vec![vec![b'e', b'f']]);
}

#[test]
fn patterns_are_summed() {
    assert_eq!(advent2023::day_13::solve_part1(NOTES), Some(405));
    assert_eq!(advent2023::day_13::solve_part2(NOTES), Some(400));
    assert_eq!(advent2023::day_13::solve_part1(""), None);
    assert_eq!(advent2023::day_13::solve_part1("ab\n\n##"), Some(1));
}
