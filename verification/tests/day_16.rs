use advent2023::day_16::{Direction, Grid, Point, Tile};

const PLAN: &str = r#".|...\....
|.-.\.....
.....|-...
........|.
..........
.........\
..../.\\..
.-.-/..|..
.|....-|.\
..//.|...."#;

#[test]
fn day_16_test_part1() {
    let input = PLAN;

    assert_eq!(Some(46), advent2023::day_16::solve_part1(input));
}

#[test]
fn the_best_way_in() {
    let grid = Grid::from(PLAN).unwrap();
    assert_eq!(grid.most_lit(), 51);
    assert_eq!(grid.propagate_light(Point::new(0, 3), Direction::Down), 51);
}

#[test]
fn light_in_an_empty_room() {
    let grid = Grid::from("...\n...\n").unwrap();
    assert_eq!(grid.propagate_light(Point::new(0, 0), Direction::Right), 3);
    assert_eq!(grid.propagate_light(Point::new(0, 0), Direction::Down), 2);
    assert_eq!(grid.propagate_light(Point::new(1, 2), Direction::Left), 3);
    assert_eq!(grid.propagate_light(Point::new(1, 1), Direction::Up), 2);
    assert_eq!(grid.most_lit(), 3);
    let single = Grid::from("-").unwrap();
    assert_eq!(single.propagate_light(Point::new(0, 0), Direction::Down), 1);
    assert_eq!(single.most_lit(), 1);
}

#[test]
fn light_that_goes_round() {
    // Four mirrors send the light round for ever; it is counted once.
    let grid = Grid::from("/-\\\n|.|\n\\-/").unwrap();
    assert_eq!(grid.propagate_light(Point::new(0, 0), Direction::Up), 8);
    assert_eq!(grid.propagate_light(Point::new(1, 1), Direction::Right), 9);
}

#[test]
fn splitters_split_from_the_flat_side() {
    let grid = Grid::from(".|.\n...\n...").unwrap();
    assert_eq!(grid.propagate_light(Point::new(0, 0), Direction::Right), 4);
    assert_eq!(grid.propagate_light(Point::new(2, 1), Direction::Up), 3);
    let grid = Grid::from("...\n-..\n...").unwrap();
    assert_eq!(grid.propagate_light(Point::new(0, 0), Direction::Down), 4);
    assert_eq!(grid.propagate_light(Point::new(1, 2), Direction::Left), 3);
}

#[test]
fn plans_are_read() {
    assert_eq!(Tile::from('.'), Tile::Empty);
    assert_eq!(Tile::from('\\'), Tile::DownMirror);
    assert_eq!(Tile::from('/'), Tile::UpMirror);
    assert_eq!(Tile::from('|'), Tile::UpDownSplitter);
    assert_eq!(Tile::from('-'), Tile::LeftRightSplitter);
    assert!(Grid::from("").is_none());
    assert!(Grid::from("..\n.").is_none());
    assert!(Grid::from("..\n.x").is_none());
    assert!(Grid::new(vec![]).is_none());
    assert!(Grid::new(vec![vec![Tile::Empty], vec![]]).is_none());
    let grid = Grid::new(vec![vec![Tile::Empty, Tile::UpMirror]]).unwrap();
    assert_eq!(grid.shift(Point::new(0, 0), Direction::Right), Some(Point::new(0, 1)));
    assert_eq!(grid.shift(Point::new(0, 1), Direction::Right), None);
    assert_eq!(grid.shift(Point::new(0, 0), Direction::Down), None);
    assert_eq!(grid.shift(Point::new(0, 0), Direction::Up), None);
    assert_eq!(grid.shift(Point::new(0, 1), Direction::Left), Some(Point::new(0, 0)));
}

#[test]
fn plans_of_contraptions() {
    assert!(Grid::from(".|\r\n..\r\n").is_some());
    assert!(Grid::from(".|\n..").is_some());
    // An empty line is a row of no tile, and the rows are then not of one length.
    assert!(Grid::from(".|\n\n..").is_none());
    assert!(Grid::from(".|\n.").is_none());
    assert!(Grid::from(".|\n.x").is_none());
    assert!(Grid::from("").is_none());
    assert!(Grid::from("\n").is_none());
}

#[test]
fn light_from_every_side() {
    assert_eq!(advent2023::day_16::solve_part2(PLAN), Some(51));
    assert_eq!(advent2023::day_16::solve_part1("..\n."), None);
    assert_eq!(advent2023::day_16::solve_part2(""), None);
    let grid = Grid::from(PLAN).unwrap();
    assert_eq!(grid.propagate_light(Point::new(0, 0), Direction::Right), 46);
}
