use advent2023::day_17::{Direction, Grid, Point, Position};
use advent2023::dijkstra::Value;

const CITY: &str = "2413432311323
3215453535623
3255245654254
3446585845452
4546657867536
1438598798454
4457876987766
3637877979653
4654967986887
4564679986453
1224686865563
2546548887735
4322674655533";

#[test]
fn crucible_loses_least_heat() {
    let grid = Grid::from(CITY).unwrap();
    assert_eq!(grid.least_heat_part1(), Some(102));
}

#[test]
fn ultra_crucible_loses_least_heat() {
    let grid = Grid::from(CITY).unwrap();
    assert_eq!(grid.least_heat_part2(), Some(94));
}

#[test]
fn a_single_block_costs_nothing() {
    let grid = Grid::new(vec![vec![7]]).unwrap();
    assert_eq!(grid.least_heat_part1(), Some(0));
    assert_eq!(grid.least_heat_part2(), Some(0));
}

#[test]
fn a_long_street_cannot_be_gone_straight() {
    // A crucible sets out as if it had come from the right, so in a single
    // row it cannot move at all.
    let grid = Grid::new(vec![vec![1, 1, 1, 1, 1]]).unwrap();
    assert_eq!(grid.least_heat_part1(), None);
    // Down a single column it must turn after three blocks, and cannot.
    let grid = Grid::new(vec![vec![1], vec![1], vec![1], vec![1], vec![1]]).unwrap();
    assert_eq!(grid.least_heat_part1(), None);
    let grid = Grid::new(vec![vec![1], vec![2], vec![3], vec![4]]).unwrap();
    assert_eq!(grid.least_heat_part1(), Some(9));
    let grid = Grid::new(vec![vec![1, 1], vec![1, 1]]).unwrap();
    assert_eq!(grid.least_heat_part1(), Some(2));
}

#[test]
fn cities_out_of_shape_are_refused() {
    assert!(Grid::new(vec![]).is_none());
    assert!(Grid::new(vec![vec![]]).is_none());
    assert!(Grid::new(vec![vec![1, 2], vec![3]]).is_none());
    assert!(Grid::from("12\n3x").is_none());
    assert!(Grid::from("").is_none());
    assert!(Grid::from("12\n34\n").is_some());
}

#[test]
fn moves_at_the_edge() {
    let grid = Grid::from("123\n456\n789").unwrap();
    assert_eq!(grid.shift(Point::new(0, 0), Direction::Up), None);
    assert_eq!(grid.shift(Point::new(0, 0), Direction::Left), None);
    assert_eq!(grid.shift(Point::new(0, 0), Direction::Down), Some(Point::new(1, 0)));
    assert_eq!(grid.shift(Point::new(2, 2), Direction::Right), None);
    assert_eq!(grid.shift(Point::new(2, 2), Direction::Down), None);
    assert_eq!(grid.shift(Point::new(1, 1), Direction::Right), Some(Point::new(1, 2)));
    assert!(grid.destination(Point::new(2, 2)));
    assert!(!grid.destination(Point::new(2, 1)));
    assert_eq!(
        grid.generate_neighbor(Point::new(1, 1), Direction::Up, 2),
        Some((Position { point: Point::new(0, 1), direction: Direction::Up, count: 2 }, 2))
    );
    assert_eq!(grid.generate_neighbor(Point::new(0, 1), Direction::Up, 1), None);
}

#[test]
fn crucible_moves() {
    let grid = Grid::from("123\n456\n789").unwrap();
    let at = |row, col, direction, count| Position { point: Point::new(row, col), direction, count };
    assert_eq!(
        grid.neighbors_part1(at(1, 1, Direction::Right, 1)),
        vec![
            (at(1, 2, Direction::Right, 2), 6),
            (at(0, 1, Direction::Up, 1), 2),
            (at(2, 1, Direction::Down, 1), 8),
        ]
    );
    assert_eq!(
        grid.neighbors_part1(at(1, 1, Direction::Down, 3)),
        vec![(at(1, 0, Direction::Left, 1), 4), (at(1, 2, Direction::Right, 1), 6)]
    );
    assert_eq!(
        grid.neighbors_part1(at(0, 0, Direction::Left, 0)),
        vec![(at(1, 0, Direction::Down, 1), 4)]
    );
    assert_eq!(
        grid.neighbors_part2(at(0, 0, Direction::Left, 0)),
        vec![(at(1, 0, Direction::Down, 1), 4), (at(0, 1, Direction::Right, 1), 2)]
    );
    assert_eq!(
        grid.neighbors_part2(at(1, 0, Direction::Right, 2)),
        vec![(at(1, 1, Direction::Right, 3), 5)]
    );
    assert_eq!(
        grid.neighbors_part2(at(1, 1, Direction::Right, 4)),
        vec![
            (at(1, 2, Direction::Right, 5), 6),
            (at(0, 1, Direction::Up, 1), 2),
            (at(2, 1, Direction::Down, 1), 8),
        ]
    );
    assert_eq!(
        grid.neighbors_part2(at(1, 1, Direction::Up, 10)),
        vec![(at(1, 0, Direction::Left, 1), 4), (at(1, 2, Direction::Right, 1), 6)]
    );
}

#[test]
fn positions_have_their_own_identity() {
    let a = Position { point: Point::new(3, 5), direction: Direction::Up, count: 2 };
    let b = Position { point: Point::new(3, 5), direction: Direction::Up, count: 3 };
    let c = Position { point: Point::new(5, 3), direction: Direction::Up, count: 2 };
    let d = Position { point: Point::new(3, 5), direction: Direction::Down, count: 2 };
    assert_eq!(a.id(), ((3 * 4096 + 5) * 4) * 16 + 2);
    assert_ne!(a.id(), b.id());
    assert_ne!(a.id(), c.id());
    assert_ne!(a.id(), d.id());
}

#[test]
fn heat_through_the_text() {
    assert_eq!(advent2023::day_17::solve_part1(CITY), Some(102));
    assert_eq!(advent2023::day_17::solve_part2(CITY), Some(94));
    assert_eq!(advent2023::day_17::solve_part1(""), None);
    assert_eq!(advent2023::day_17::solve_part1("12\n3"), None);
    assert_eq!(advent2023::day_17::solve_part1("12\n3x"), None);
    // The crucible sets out to the left, so that it cannot turn right about at once.
    assert_eq!(advent2023::day_17::solve_part1("12\r\n34\r\n"), Some(7));
}
