use advent2023::day_12::{
    count_matches_internal, parse_row, solve_part1, solve_part2, unfold, Row, Spring,
};

const RECORD: &str = "???.### 1,1,3
.??..??...?##. 1,1,3
?#?#?#?#?#?#?#? 1,3,1,6
????.#...#... 4,1,1
????.######..#####. 1,6,5
?###???????? 3,2,1";

#[test]
fn test_part2() {
    assert_eq!(Some(525152), solve_part2(RECORD));
}

#[test]
fn day_12_test_part1() {
    assert_eq!(Some(21), solve_part1(RECORD));
}

fn springs(text: &str) -> Vec<Spring> {
    text.chars().map(Spring::from).collect()
}

#[test]
fn ways_line_by_line() {
    let ways: Vec<usize> = RECORD
        .lines()
        .map(|line| parse_row(line.as_bytes(), 0, line.len()).unwrap())
        .map(|(row, expected)| row.count_matches(&expected).unwrap())
        .collect();
    assert_eq!(ways, vec![1, 4, 1, 1, 4, 10]);
    let unfolded: Vec<usize> = RECORD
        .lines()
        .map(|line| parse_row(line.as_bytes(), 0, line.len()).unwrap())
        .map(|(row, expected)| unfold(&row, &expected))
        .map(|(row, expected)| row.count_matches(&expected).unwrap())
        .collect();
    assert_eq!(unfolded, vec![1, 16384, 1, 16, 2500, 506250]);
}

#[test]
fn ways_at_the_edges() {
    assert_eq!(count_matches_internal(&[], &[]), Some(1));
    assert_eq!(count_matches_internal(&[], &[1]), Some(0));
    assert_eq!(count_matches_internal(&springs("..."), &[]), Some(1));
    assert_eq!(count_matches_internal(&springs("???"), &[]), Some(1));
    assert_eq!(count_matches_internal(&springs(".#."), &[]), Some(0));
    assert_eq!(count_matches_internal(&springs("#"), &[1]), Some(1));
    assert_eq!(count_matches_internal(&springs("#"), &[2]), Some(0));
    assert_eq!(count_matches_internal(&springs("?"), &[1]), Some(1));
    assert_eq!(count_matches_internal(&springs("??"), &[1]), Some(2));
    assert_eq!(count_matches_internal(&springs("???"), &[1, 1]), Some(1));
    assert_eq!(count_matches_internal(&springs("????"), &[1, 1]), Some(3));
    assert_eq!(count_matches_internal(&springs("##"), &[1, 1]), Some(0));
    assert_eq!(count_matches_internal(&springs("#.#"), &[1, 1]), Some(1));
    assert_eq!(count_matches_internal(&springs("#?#"), &[3]), Some(1));
    assert_eq!(count_matches_internal(&springs("#?#"), &[1, 1]), Some(1));
    assert_eq!(count_matches_internal(&springs("#?#"), &[2]), Some(0));
    // Fifty single springs among 199 can be picked in more ways than the machine has numbers.
    let many = vec![Spring::Unknown; 199];
    let ones = vec![1usize; 50];
    assert_eq!(count_matches_internal(&many, &ones), None);
}

#[test]
fn lines_are_read() {
    let line = "?#. 1,22";
    let (row, expected) = parse_row(line.as_bytes(), 0, line.len()).unwrap();
    assert_eq!(row.springs, vec![Spring::Unknown, Spring::Broken, Spring::Working]);
    assert_eq!(expected, vec![1, 22]);
    assert!(parse_row(b"?x. 1", 0, 5).is_none());
    assert!(parse_row(b"?#. 99999999999999999999999999", 0, 30).is_none());
    let (row, expected) = parse_row(b"..", 0, 2).unwrap();
    assert_eq!(row.springs.len(), 2);
    assert!(expected.is_empty());
    let (row, expected) = parse_row(b"# 1\n## 2", 4, 8).unwrap();
    assert_eq!(row.springs, vec![Spring::Broken, Spring::Broken]);
    assert_eq!(expected, vec![2]);
}

#[test]
fn records_unfold_five_times() {
    let row = Row { springs: springs(".#") };
    let (more, sizes) = unfold(&row, &vec![1]);
    assert_eq!(more.springs, springs(".#?.#?.#?.#?.#"));
    assert_eq!(sizes, vec![1, 1, 1, 1, 1]);
    let (more, sizes) = unfold(&Row { springs: vec![] }, &vec![]);
    assert_eq!(more.springs, springs("????"));
    assert!(sizes.is_empty());
}

#[test]
fn records_that_are_none() {
    assert_eq!(solve_part1(""), Some(0));
    assert_eq!(solve_part1("??? 1\n"), Some(3));
    assert_eq!(solve_part1("??? 1\n?x? 1"), None);
    assert_eq!(solve_part2("? 1"), Some(1));
}
