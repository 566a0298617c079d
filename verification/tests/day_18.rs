use advent2023::day_18::{DigInstruction, Direction, Plot, Point};

const PLAN: &str = "R 6 (#70c710)
D 5 (#0dc571)
L 2 (#5713f0)
D 2 (#d2c081)
R 2 (#59c680)
D 2 (#411b91)
L 5 (#8ceee2)
U 2 (#caa173)
L 1 (#1b58a2)
U 2 (#caa171)
R 2 (#7807d2)
U 3 (#a77fa3)
L 2 (#015232)
U 2 (#7a21e3)";

fn dug(orders: Vec<DigInstruction>) -> isize {
    let mut plot = Plot::default();
    plot.dig(&orders);
    plot.count_space()
}

#[test]
fn the_lagoon_as_planned() {
    let orders =
        PLAN.lines().map(|l| DigInstruction::from_part1(l.as_bytes(), 0, l.len()).unwrap()).collect();
    assert_eq!(dug(orders), 62);
}

#[test]
fn the_lagoon_by_the_colours() {
    let orders =
        PLAN.lines().map(|l| DigInstruction::from_part2(l.as_bytes(), 0, l.len()).unwrap()).collect();
    assert_eq!(dug(orders), 952408144115);
}

#[test]
fn orders_are_read() {
    let read1 = |l: &str| DigInstruction::from_part1(l.as_bytes(), 0, l.len());
    let read2 = |l: &str| DigInstruction::from_part2(l.as_bytes(), 0, l.len());
    assert_eq!(read1("R 6 (#70c710)"), Some(DigInstruction { direction: Direction::Right, distance: 6 }));
    assert_eq!(read1("U 12"), Some(DigInstruction { direction: Direction::Up, distance: 12 }));
    assert_eq!(read1("D 0"), Some(DigInstruction { direction: Direction::Down, distance: 0 }));
    assert_eq!(read1("L 3"), Some(DigInstruction { direction: Direction::Left, distance: 3 }));
    assert_eq!(read1("X 3"), None);
    assert_eq!(read1("R3"), None);
    assert_eq!(read1("R"), None);
    assert_eq!(read1("R 99999999999999999999999"), None);
    assert_eq!(
        read2("R 6 (#70c710)"),
        Some(DigInstruction { direction: Direction::Right, distance: 461937 })
    );
    assert_eq!(
        read2("D 5 (#0dc571)"),
        Some(DigInstruction { direction: Direction::Down, distance: 56407 })
    );
    assert_eq!(
        read2("#FFFFF2"),
        Some(DigInstruction { direction: Direction::Left, distance: 0xfffff })
    );
    assert_eq!(read2("#000003"), Some(DigInstruction { direction: Direction::Up, distance: 0 }));
    assert_eq!(read2("R 6 (#70c71)"), None);
    assert_eq!(read2("R 6 (#70c7g0)"), None);
    assert_eq!(read2("R 6 (#70c714)"), None);
    assert_eq!(read2("R 6"), None);
    assert_eq!(Direction::from(b'U'), Some(Direction::Up));
    assert_eq!(Direction::from(b'1'), Some(Direction::Down));
    assert_eq!(Direction::from(b'x'), None);
}

#[test]
fn corners_and_trenches() {
    let p = Point::new(3, -4);
    assert_eq!(p.shift(Direction::Up, 5), Point::new(-2, -4));
    assert_eq!(p.shift(Direction::Down, 5), Point::new(8, -4));
    assert_eq!(p.shift(Direction::Left, 5), Point::new(3, -9));
    assert_eq!(p.shift(Direction::Right, 5), Point::new(3, 1));
    let mut plot = Plot::default();
    assert_eq!(plot.count_space(), 1);
    plot.dig(&vec![
        DigInstruction { direction: Direction::Right, distance: 2 },
        DigInstruction { direction: Direction::Down, distance: 1 },
    ]);
    assert_eq!(plot.vertices, vec![Point::new(0, 0), Point::new(0, 2), Point::new(1, 2)]);
    assert_eq!(plot.perimeter, 3);
    // A square of two trenches each way holds nine cubes.
    let square = vec![
        DigInstruction { direction: Direction::Right, distance: 2 },
        DigInstruction { direction: Direction::Down, distance: 2 },
        DigInstruction { direction: Direction::Left, distance: 2 },
        DigInstruction { direction: Direction::Up, distance: 2 },
    ];
    assert_eq!(dug(square.clone()), 9);
    let mut back: Vec<DigInstruction> = square
        .iter()
        .rev()
        .map(|o| DigInstruction {
            direction: match o.direction {
                Direction::Up => Direction::Down,
                Direction::Down => Direction::Up,
                Direction::Left => Direction::Right,
                Direction::Right => Direction::Left,
            },
            distance: o.distance,
        })
        .collect();
    assert_eq!(dug(back.clone()), 9);
    back.truncate(0);
    assert_eq!(dug(back), 1);
}

#[test]
fn lagoons_through_the_text() {
    assert_eq!(advent2023::day_18::solve_part1(PLAN), Some(62));
    assert_eq!(advent2023::day_18::solve_part2(PLAN), Some(952408144115));
    assert_eq!(advent2023::day_18::solve_part1(""), Some(1));
    assert_eq!(advent2023::day_18::solve_part1("R 2 (#000000)\nX 2"), None);
    assert_eq!(advent2023::day_18::solve_part1(&format!("R {} (#000000)\nR 1 (#000000)", isize::MAX)), None);
    let far = vec![
        DigInstruction { direction: Direction::Right, distance: isize::MAX },
        DigInstruction { direction: Direction::Right, distance: 1 },
    ];
    assert!(!Plot::fits_orders(0, &far));
    assert!(Plot::fits_orders(0, &far[..1].to_vec()));
    assert!(!Plot::fits_orders(1, &far[..1].to_vec()));
    let mut plot = Plot::default();
    assert!(plot.fits_count());
    plot.dig(&vec![
        DigInstruction { direction: Direction::Right, distance: isize::MAX },
        DigInstruction { direction: Direction::Down, distance: isize::MAX },
    ]);
    assert!(!plot.fits_count());
}
