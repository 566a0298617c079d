use advent2023::day_21::{Direction, Garden, Point, Space};

const GARDEN: &str = "...........
.....###.#.
.###.##..#.
..#.#...#..
....#.#....
.##..S####.
.##..#...#.
.......##..
.##.#.####.
.##..##.##.
...........";

#[test]
fn plots_within_the_garden() {
    let garden = Garden::from(GARDEN).unwrap();
    assert_eq!(garden.available_spaces_part1(0), 1);
    assert_eq!(garden.available_spaces_part1(1), 2);
    assert_eq!(garden.available_spaces_part1(2), 4);
    assert_eq!(garden.available_spaces_part1(3), 6);
    assert_eq!(garden.available_spaces_part1(6), 16);
}

#[test]
fn plots_without_end() {
    let garden = Garden::from(GARDEN).unwrap();
    assert_eq!(garden.available_spaces_part2(6), 16);
    assert_eq!(garden.available_spaces_part2(10), 50);
    assert_eq!(garden.available_spaces_part2(50), 1594);
    assert_eq!(garden.available_spaces_part2(100), 6536);
}

#[test]
fn small_gardens() {
    let single = Garden::from("S").unwrap();
    assert_eq!(single.available_spaces_part1(0), 1);
    assert_eq!(single.available_spaces_part1(1), 0);
    assert_eq!(single.available_spaces_part1(2), 0);
    assert_eq!(single.available_spaces_part2(1), 4);
    assert_eq!(single.available_spaces_part2(2), 9);
    assert_eq!(single.available_spaces_part2(3), 16);
    let walled = Garden::from("###\n#S#\n###").unwrap();
    assert_eq!(walled.available_spaces_part1(1), 0);
    assert_eq!(walled.available_spaces_part2(5), 0);
    let pair = Garden::from("S.").unwrap();
    assert_eq!(pair.available_spaces_part1(1), 1);
    assert_eq!(pair.available_spaces_part1(2), 1);
    assert_eq!(pair.available_spaces_part1(7), 1);
    assert!(Garden::from("").is_none());
    assert!(Garden::from("...").is_none());
    assert!(Garden::from("S.\n.").is_none());
    assert!(Garden::from("S.x").is_none());
}

#[test]
fn steps_and_spaces() {
    let p = Point::new(0, 0);
    assert_eq!(p.shift(Direction::Up), Point::new(-1, 0));
    assert_eq!(p.shift(Direction::Down), Point::new(1, 0));
    assert_eq!(p.shift(Direction::Left), Point::new(0, -1));
    assert_eq!(p.shift(Direction::Right), Point::new(0, 1));
    assert_eq!(Space::from('.'), Space::Plot);
    assert_eq!(Space::from('#'), Space::Rock);
    assert_eq!(Space::from('S'), Space::Start);
}

#[test]
fn gardens_through_the_text() {
    let garden = Garden::from(GARDEN).unwrap();
    assert_eq!(advent2023::day_21::solve_part1(GARDEN), Some(garden.available_spaces_part1(64)));
    assert_eq!(advent2023::day_21::solve_part1(""), None);
    assert_eq!(advent2023::day_21::solve_part1("...\n.S.\n..."), Some(5));
    assert_eq!(advent2023::day_21::extrapolate(1, 4, 9, 3), Some(16));
    assert_eq!(advent2023::day_21::extrapolate(1, 4, 9, 0), Some(1));
    assert_eq!(advent2023::day_21::extrapolate(3, 8, 17, 10), Some(200 + 30 + 3));
    assert_eq!(advent2023::day_21::extrapolate(3, 8, 15, 0), None);
    assert_eq!(advent2023::day_21::extrapolate(5, 1, 0, 1), None);
    assert_eq!(advent2023::day_21::extrapolate(5, 1, 9, 1), None);
    assert_eq!(advent2023::day_21::extrapolate(0, usize::MAX, 0, 1), None);
    let y0 = garden.available_spaces_part2(65);
    let y1 = garden.available_spaces_part2(196);
    let y2 = garden.available_spaces_part2(327);
    assert_eq!(advent2023::day_21::solve_part2(GARDEN), advent2023::day_21::extrapolate(y0, y1, y2, 202_300));
}
