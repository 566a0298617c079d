use advent2023::day_10::{parse_zone, Direction, LoopParity, Point, Tile};

const SQUARE: &str = ".....
.S-7.
.|.|.
.L-J.
.....";

const WINDING: &str = "..F7.
.FJ|.
SJ.L7
|F--J
LJ...";

const NEST: &str = "...........
.S-------7.
.|F-----7|.
.||.....||.
.||.....||.
.|L-7.F-J|.
.|..|.|..|.
.L--J.L--J.
...........";

#[test]
fn the_loop_is_walked() {
    let (zone, start) = parse_zone(SQUARE).unwrap();
    assert_eq!(start, Point::new(1, 1));
    let points = zone.traverse_loop(start, Direction::Down).unwrap();
    assert_eq!(points.len() / 2, 4);
    assert_eq!(points[0], start);
    assert_eq!(points[1], Point::new(2, 1));
    assert_eq!(points[7], Point::new(1, 2));
    let (zone, start) = parse_zone(WINDING).unwrap();
    assert_eq!(start, Point::new(2, 0));
    let points = zone.traverse_loop(start, Direction::Down).unwrap();
    assert_eq!(points.len() / 2, 8);
}

#[test]
fn a_walk_ends_where_no_pipe_leads_on() {
    let (zone, start) = parse_zone(SQUARE).unwrap();
    // Up from the start lies ground.
    assert_eq!(zone.traverse_loop(start, Direction::Up).unwrap(), vec![start]);
    // To the right the loop is walked the other way round.
    assert_eq!(zone.traverse_loop(start, Direction::Right).unwrap().len(), 8);
    // From the corner of the field the walk leaves the field.
    assert_eq!(zone.traverse_loop(Point::new(0, 0), Direction::Left).unwrap(), vec![Point::new(0, 0)]);
    // Without a start the walk goes round for ever, and is given up.
    let (round, _) = parse_zone("F7\nLJ").unwrap();
    assert_eq!(round.traverse_loop(Point::new(0, 0), Direction::Right), None);
}

#[test]
fn the_ground_within_the_loop() {
    let (zone, start) = parse_zone(NEST).unwrap();
    let points = zone.traverse_loop(start, Direction::Down).unwrap();
    let mut contained = 0;
    for row in 0..zone.rows {
        let mut parity = LoopParity::Out;
        for col in 0..zone.cols {
            let point = Point::new(row, col);
            if points.contains(&point) {
                let tile = match zone.tile(point) {
                    // Here the start stands for a bend from the bottom to the right.
                    Tile::Start => Tile::DownRight,
                    tile => tile,
                };
                parity = parity.next(tile);
            } else if parity.is_in() {
                contained += 1;
            }
        }
    }
    assert_eq!(contained, 4);
}

#[test]
fn fields_are_read() {
    let (zone, start) = parse_zone("S7\nLJ\n").unwrap();
    assert_eq!((zone.rows, zone.cols), (2, 2));
    assert_eq!(zone.tiles, vec![Tile::Start, Tile::DownLeft, Tile::UpRight, Tile::UpLeft]);
    assert_eq!(start, Point::new(0, 0));
    let (zone, start) = parse_zone("..\n.S").unwrap();
    assert_eq!(start, Point::new(1, 1));
    assert_eq!(zone.tile(start), Tile::Start);
    assert!(parse_zone("..\n.").is_none());
    assert!(parse_zone(".\n..").is_none());
    assert!(parse_zone(".x").is_none());
    let (none, start) = parse_zone("").unwrap();
    assert_eq!((none.rows, none.cols), (0, 0));
    assert_eq!(start, Point::new(0, 0));
}

#[test]
fn loops_through_the_text() {
    assert_eq!(advent2023::day_10::solve_part1(SQUARE), Some(4));
    assert_eq!(advent2023::day_10::solve_part1(WINDING), Some(8));
    assert_eq!(advent2023::day_10::solve_part2(SQUARE), Some(1));
    assert_eq!(advent2023::day_10::solve_part2(NEST), Some(4));
    assert_eq!(advent2023::day_10::solve_part1(""), None);
    assert_eq!(advent2023::day_10::solve_part1("..\n."), None);
}
