use advent2023::day_04::match_count;

const CARDS: &str = "Card 1: 41 48 83 86 17 | 83 86  6 31 17  9 48 53
Card 2: 13 32 20 16 61 | 61 30 68 82 17 32 24 19
Card 3:  1 21 53 59 44 | 69 82 63 72 16 21 14  1
Card 4: 41 92 73 84 69 | 59 84 76 51 58  5 54 83
Card 5: 87 83 26 28 32 | 88 30 70 12 93 22 82 36
Card 6: 31 18 13 56 72 | 74 77 10 23 35 67 36 11";

#[test]
fn cards_are_matched() {
    let matches: Vec<usize> = CARDS.lines().map(|card| match_count(card).unwrap()).collect();
    assert_eq!(matches, vec![4, 2, 2, 1, 0, 0]);
    let points: usize =
        matches.iter().map(|&m| if m > 0 { 2usize.pow(m as u32 - 1) } else { 0 }).sum();
    assert_eq!(points, 13);
}

#[test]
fn cards_at_the_edges() {
    assert_eq!(match_count(""), Some(0));
    assert_eq!(match_count("Card 1:"), Some(0));
    assert_eq!(match_count("Card 1: 1 2 3"), Some(0));
    assert_eq!(match_count("Card 1: 1 2 3 |"), Some(0));
    assert_eq!(match_count("Card 1: | 1 2 3"), Some(0));
    assert_eq!(match_count("Card 1: 1 | 1 1 1"), Some(3));
    assert_eq!(match_count("Card 7: 7 | 7"), Some(1));
    assert_eq!(match_count("Card 1: 1 | 99999999999999999999999"), None);
    assert_eq!(match_count("Card 1: 99999999999999999999999 | 1"), None);
    assert_eq!(match_count("Card 99999999999999999999999: 1 | 1"), Some(1));
}

#[test]
fn cards_are_summed() {
    assert_eq!(advent2023::day_04::solve_part1(CARDS), Some(13));
    assert_eq!(advent2023::day_04::solve_part2(CARDS), Some(30));
    assert_eq!(advent2023::day_04::solve_part1(""), Some(0));
    assert_eq!(advent2023::day_04::solve_part2(""), Some(0));
    assert_eq!(advent2023::day_04::points_for(0), Some(0));
    assert_eq!(advent2023::day_04::points_for(1), Some(1));
    assert_eq!(advent2023::day_04::points_for(5), Some(16));
    assert_eq!(advent2023::day_04::points_for(usize::BITS as usize), Some(1 << (usize::BITS - 1)));
    assert_eq!(advent2023::day_04::points_for(usize::BITS as usize + 1), None);
    // Copies are won of cards that the table does not hold, too.
    assert_eq!(advent2023::day_04::solve_part2("Card 1: 1 2 | 1 2"), Some(3));
    assert_eq!(advent2023::day_04::solve_part2("Card 1: 1 | 1\nCard 2: 1 | 1"), Some(5));
}
