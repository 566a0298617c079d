use advent2023::day_22::{Brick, Point, Span, Stack};

const PILE: &str = "1,0,1~1,2,1
0,0,2~2,0,2
0,2,3~2,2,3
0,0,4~0,2,4
2,0,5~2,2,5
0,1,6~2,1,6
1,1,8~1,1,9";

#[test]
fn day_22_test_part1() {
    let input = PILE;

    assert_eq!(Some(7), advent2023::day_22::solve_part2(input));
}

#[test]
fn bricks_that_can_go() {
    let mut stack = Stack::from(PILE).unwrap();
    assert_eq!(stack.drop(), 5);
    assert_eq!(stack.count_disintegrations(), 5);
    let safe: Vec<bool> = (0..7).map(|i| stack.can_disintegrate(i)).collect();
    assert_eq!(safe, vec![false, true, true, true, true, false, true]);
    // At rest nothing falls any more.
    assert_eq!(stack.drop(), 0);
}

#[test]
fn bricks_come_to_rest() {
    let mut stack = Stack::from(PILE).unwrap();
    stack.drop();
    let heights: Vec<usize> = stack.bricks.iter().map(Brick::lowest_z).collect();
    assert_eq!(heights, vec![1, 2, 2, 3, 3, 4, 5]);
    assert_eq!(stack.bricks[6], Brick::Z { x: 1, y: 1, z: Span { start: 5, end: 6 } });
    let mut single = Stack { bricks: vec![Brick::Z { x: 0, y: 0, z: Span { start: 7, end: 9 } }] };
    assert_eq!(single.drop(), 1);
    assert_eq!(single.bricks[0], Brick::Z { x: 0, y: 0, z: Span { start: 1, end: 3 } });
    assert_eq!(Stack { bricks: vec![] }.drop(), 0);
}

#[test]
fn a_brick_knows_its_cubes() {
    let along_x = Brick::X { x: Span { start: 2, end: 4 }, y: 7, z: 3 };
    assert!(along_x.overlaps(Point { x: 2, y: 7, z: 3 }));
    assert!(along_x.overlaps(Point { x: 4, y: 7, z: 3 }));
    assert!(!along_x.overlaps(Point { x: 5, y: 7, z: 3 }));
    assert!(!along_x.overlaps(Point { x: 3, y: 6, z: 3 }));
    assert!(!along_x.overlaps(Point { x: 3, y: 7, z: 4 }));
    assert_eq!(
        along_x.footprint(),
        vec![Point { x: 2, y: 7, z: 3 }, Point { x: 3, y: 7, z: 3 }, Point { x: 4, y: 7, z: 3 }]
    );
    let along_y = Brick::Y { x: 1, y: Span { start: 0, end: 1 }, z: 9 };
    assert!(along_y.overlaps(Point { x: 1, y: 1, z: 9 }));
    assert!(!along_y.overlaps(Point { x: 1, y: 2, z: 9 }));
    assert_eq!(along_y.footprint(), vec![Point { x: 1, y: 0, z: 9 }, Point { x: 1, y: 1, z: 9 }]);
    let along_z = Brick::Z { x: 1, y: 1, z: Span { start: 8, end: 9 } };
    assert!(along_z.overlaps(Point { x: 1, y: 1, z: 9 }));
    assert!(!along_z.overlaps(Point { x: 1, y: 1, z: 7 }));
    assert_eq!(along_z.footprint(), vec![Point { x: 1, y: 1, z: 8 }]);
    assert_eq!(along_z.lowest_z(), 8);
    assert_eq!(along_x.lowest_z(), 3);
    assert_eq!(along_y.lowest_z(), 9);
    let mut falling = along_z;
    falling.drop();
    assert_eq!(falling, Brick::Z { x: 1, y: 1, z: Span { start: 7, end: 8 } });
    let mut falling = along_x;
    falling.drop();
    assert_eq!(falling, Brick::X { x: Span { start: 2, end: 4 }, y: 7, z: 2 });
    assert_eq!(Point { x: 1, y: 2, z: 3 }.drop(), Point { x: 1, y: 2, z: 2 });
}

#[test]
fn bricks_are_read() {
    let read = |text: &str| Brick::from(text.as_bytes(), 0, text.len());
    assert_eq!(read("1,0,1~1,2,1"), Some(Brick::Y { x: 1, y: Span { start: 0, end: 2 }, z: 1 }));
    assert_eq!(read("1,2,1~1,0,1"), Some(Brick::Y { x: 1, y: Span { start: 0, end: 2 }, z: 1 }));
    assert_eq!(read("0,0,2~2,0,2"), Some(Brick::X { x: Span { start: 0, end: 2 }, y: 0, z: 2 }));
    assert_eq!(read("2,0,2~0,0,2"), Some(Brick::X { x: Span { start: 0, end: 2 }, y: 0, z: 2 }));
    assert_eq!(read("1,1,8~1,1,9"), Some(Brick::Z { x: 1, y: 1, z: Span { start: 8, end: 9 } }));
    assert_eq!(read("1,1,9~1,1,8"), Some(Brick::Z { x: 1, y: 1, z: Span { start: 8, end: 9 } }));
    assert_eq!(read("3,4,5~3,4,5"), Some(Brick::X { x: Span { start: 3, end: 3 }, y: 4, z: 5 }));
    assert_eq!(read("3,4,5~3,4"), None);
    assert_eq!(read(""), None);
    assert!(Stack::from("0,0,0~0,0,1").is_none());
    assert!(Stack::from("1,1,1~").is_none());
    // An empty line holds no brick.
    assert!(Stack::from("0,0,5~0,0,6\n\n0,0,2~1,0,2\n").is_none());
    assert_eq!(Stack::from("").unwrap().bricks, vec![]);
    let stack = Stack::from("0,0,5~0,0,6\r\n0,0,2~1,0,2\n0,1,2~0,3,2\n").unwrap();
    assert_eq!(
        stack.bricks,
        vec![
            Brick::X { x: Span { start: 0, end: 1 }, y: 0, z: 2 },
            Brick::Y { x: 0, y: Span { start: 1, end: 3 }, z: 2 },
            Brick::Z { x: 0, y: 0, z: Span { start: 5, end: 6 } },
        ]
    );
}

#[test]
fn bricks_that_fall() {
    assert_eq!(advent2023::day_22::solve_part1(PILE), Some(5));
    assert_eq!(advent2023::day_22::solve_part2(PILE), Some(7));
    assert_eq!(advent2023::day_22::solve_part1(""), Some(0));
    assert_eq!(advent2023::day_22::solve_part1("1,1,1~"), None);
    let mut stack = Stack::from(PILE).unwrap();
    stack.drop();
    assert_eq!(stack.count_bricks_dropping(), 7);
}
