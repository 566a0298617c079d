use advent2023::day_11::{Point, Universe};

const IMAGE: &str = "...#......
.......#..
#.........
..........
......#...
.#........
.........#
..........
.......#..
#...#.....";

#[test]
fn the_universe_grows() {
    let mut universe = Universe::from(IMAGE);
    assert_eq!((universe.rows, universe.cols), (10, 10));
    assert_eq!(universe.galaxies.len(), 9);
    assert!(universe.has_galaxy(0, 3));
    assert!(universe.has_galaxy(9, 4));
    assert!(!universe.has_galaxy(0, 0));
    universe.expand(2);
    assert_eq!((universe.rows, universe.cols), (12, 13));
    assert!(universe.has_galaxy(0, 4));
    assert!(universe.has_galaxy(1, 9));
    assert!(universe.has_galaxy(2, 0));
    assert!(universe.has_galaxy(5, 8));
    assert!(universe.has_galaxy(11, 5));
    assert_eq!(universe.shortest_paths(), 374);
}

#[test]
fn the_universe_grows_more() {
    let mut universe = Universe::from(IMAGE);
    universe.expand(10);
    assert_eq!(universe.shortest_paths(), 1030);
    let mut universe = Universe::from(IMAGE);
    universe.expand(100);
    assert_eq!(universe.shortest_paths(), 8410);
    let mut universe = Universe::from(IMAGE);
    universe.expand(1);
    assert_eq!((universe.rows, universe.cols), (10, 10));
    let mut universe = Universe::from(IMAGE);
    universe.expand(1_000_000);
    assert_eq!(universe.shortest_paths(), 82000210);
}

#[test]
fn small_universes() {
    let mut none = Universe::from("");
    assert_eq!((none.rows, none.cols), (0, 0));
    none.expand(5);
    assert_eq!(none.shortest_paths(), 0);
    let mut one = Universe::from("..\n.#\n");
    assert_eq!((one.rows, one.cols), (2, 2));
    assert_eq!(one.galaxies, vec![Point::new(1, 1)]);
    one.expand(3);
    assert_eq!((one.rows, one.cols), (4, 4));
    assert_eq!(one.galaxies, vec![Point::new(3, 3)]);
    assert_eq!(one.shortest_paths(), 0);
    let mut two = Universe::from("#.#");
    two.expand(7);
    assert_eq!(two.galaxies, vec![Point::new(0, 0), Point::new(0, 8)]);
    assert_eq!(two.shortest_paths(), 8);
}

#[test]
fn distances_through_the_text() {
    assert_eq!(advent2023::day_11::solve_part1(IMAGE), Some(374));
    assert_eq!(advent2023::day_11::solve(IMAGE, 10), Some(1030));
    assert_eq!(advent2023::day_11::solve(IMAGE, 100), Some(8410));
    assert_eq!(advent2023::day_11::solve_part2(IMAGE), Some(82000210));
    assert_eq!(advent2023::day_11::solve_part1(""), Some(0));
    assert_eq!(advent2023::day_11::solve("#..#", usize::MAX), None);
    let universe = Universe { galaxies: vec![Point::new(0, 0), Point::new(usize::MAX, usize::MAX)], rows: 1, cols: 1 };
    assert_eq!(universe.try_shortest_paths(), None);
    let universe = Universe { galaxies: vec![Point::new(0, 0), Point::new(3, 4)], rows: 4, cols: 5 };
    assert_eq!(universe.try_shortest_paths(), Some(7));
}
