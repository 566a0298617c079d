use advent2023::day_24::{narrow, possible_speeds, within_test_area_2d, Hailstone, Vector};

#[test]
fn hailstones_are_read() {
    let read = |text: &str| Hailstone::from(text.as_bytes(), 0, text.len());
    assert_eq!(
        read("19, 13, 30 @ -2,  1, -2"),
        Some(Hailstone {
            position: Vector { x: 19, y: 13, z: 30 },
            velocity: Vector { x: -2, y: 1, z: -2 },
        })
    );
    assert_eq!(
        read("-1 -2 -3 4 5 6"),
        Some(Hailstone {
            position: Vector { x: -1, y: -2, z: -3 },
            velocity: Vector { x: 4, y: 5, z: 6 },
        })
    );
    assert_eq!(read("1, 2, 3 @ 4, 5"), None);
    assert_eq!(read("1, 2, 3 @ 4, 5, 6, 7"), None);
    assert_eq!(read("1, 2, 3 @ 4, 5, 99999999999999999999999"), None);
    assert_eq!(read("1, 2, 3 @ 4, 5, - 6"), Some(Hailstone {
        position: Vector { x: 1, y: 2, z: 3 },
        velocity: Vector { x: 4, y: 5, z: 6 },
    }));
    assert_eq!(read(""), None);
}

#[test]
fn the_test_area() {
    let at = |x, y| Vector { x, y, z: 0 };
    assert!(within_test_area_2d(at(200_000_000_000_000, 400_000_000_000_000)));
    assert!(within_test_area_2d(at(300_000_000_000_000, 300_000_000_000_000)));
    assert!(!within_test_area_2d(at(199_999_999_999_999, 300_000_000_000_000)));
    assert!(!within_test_area_2d(at(300_000_000_000_000, 400_000_000_000_001)));
    assert!(!within_test_area_2d(at(0, 0)));
}

#[test]
fn speeds_that_fit() {
    // Two hailstones 6 apart at speed 1: the rock is faster or slower by 1, 2, 3 or 6.
    assert_eq!(possible_speeds(6, 1), vec![-5, -2, -1, 0, 2, 3, 4, 7]);
    assert_eq!(possible_speeds(-6, 1), vec![-5, -2, -1, 0, 2, 3, 4, 7]);
    // No distance fits every speed but their own.
    let all = possible_speeds(0, 3);
    assert_eq!(all.len(), 1000);
    assert!(!all.contains(&3));
    assert_eq!(possible_speeds(1, 0), vec![-1, 1]);
    assert_eq!(possible_speeds(7, 600), vec![]);
    assert_eq!(possible_speeds(7, 499), vec![492, 498, 500]);
}

#[test]
fn speeds_are_narrowed() {
    assert_eq!(narrow(vec![], vec![3, 1, 2]), vec![3, 1, 2]);
    assert_eq!(narrow(vec![1, 2, 3, 4], vec![4, 2, 9]), vec![2, 4]);
    assert_eq!(narrow(vec![1, 2], vec![3]), vec![]);
    assert_eq!(narrow(vec![1, 2], vec![]), vec![]);
    assert_eq!(narrow(narrow(vec![1, 2], vec![3]), vec![7]), vec![7]);
}

fn stone(position: (i64, i64, i64), velocity: (i64, i64, i64)) -> Hailstone {
    Hailstone {
        position: Vector { x: position.0, y: position.1, z: position.2 },
        velocity: Vector { x: velocity.0, y: velocity.1, z: velocity.2 },
    }
}

#[test]
fn speeds_of_the_rock() {
    use_rock();
}

fn use_rock() {
    let sample = "19, 13, 30 @ -2,  1, -2\n18, 19, 22 @ -1, -1, -2\n20, 25, 34 @ -2, -2, -4\n12, 31, 28 @ -1, -2, -1\n20, 19, 15 @  1, -5, -3";
    let hailstones = advent2023::day_24::read_hailstones(sample).unwrap();
    assert_eq!(hailstones.len(), 5);
    assert_eq!(hailstones[0], stone((19, 13, 30), (-2, 1, -2)));
    assert_eq!(hailstones[4], stone((20, 19, 15), (1, -5, -3)));
    assert!(advent2023::day_24::read_hailstones("1, 2, 3 @ 4, 5").is_none());
    assert_eq!(advent2023::day_24::read_hailstones("").unwrap().len(), 0);

    // Two stones that are as fast along x, 6 apart: the rock is faster or slower by a divisor of 6.
    let pair = vec![stone((0, 0, 0), (10, 1, 2)), stone((6, 9, 9), (10, 3, 4))];
    let (x, y, z) = advent2023::day_24::rock_speeds(&pair).unwrap();
    assert_eq!(x, vec![4, 7, 8, 9, 11, 12, 13, 16]);
    assert_eq!(y, Vec::<i64>::new());
    assert_eq!(z, Vec::<i64>::new());
    // A third stone narrows the speeds: it is 4 from the first, and 2 back from the second.
    let three = vec![pair[0], pair[1], stone((4, 0, 0), (10, 7, 7))];
    let x = advent2023::day_24::axis_speeds(&three, advent2023::day_24::Axis::X).unwrap();
    assert_eq!(x, vec![8, 9, 11, 12]);
    assert!(advent2023::day_24::rock_speeds(&vec![]).is_none());
    assert_eq!(advent2023::day_24::rock_speeds(&vec![pair[0]]).unwrap().0, Vec::<i64>::new());
    let edge = vec![stone((i64::MIN, 0, 0), (1, 1, 1)), stone((1, 0, 0), (1, 2, 2))];
    assert!(advent2023::day_24::axis_speeds(&edge, advent2023::day_24::Axis::X).is_none());
    assert!(advent2023::day_24::axis_speeds(&edge, advent2023::day_24::Axis::Y).is_some());
}

#[test]
fn lines_that_hold_no_hailstone() {
    assert!(advent2023::day_24::read_hailstones("1, 2, 3 @ 4, 5, 6\n1, 2, 3 @ 4, 5, 6, 7").is_none());
    assert!(advent2023::day_24::read_hailstones("1, 2, 3 @ 4, 5, 99999999999999999999").is_none());
    assert!(advent2023::day_24::read_hailstones("1, 2, 3 @ 4, 5, -9223372036854775808").is_none());
    let read = advent2023::day_24::read_hailstones("1, 2, 3 @ 4, 5, -9223372036854775807").unwrap();
    assert_eq!(read[0].velocity.z, -9223372036854775807);
}

#[test]
fn speeds_at_the_edge() {
    let near = vec![stone((0, 0, 0), (i64::MAX - 500, 1, 1)), stone((5, 0, 0), (i64::MAX - 500, 2, 2))];
    assert!(advent2023::day_24::axis_speeds(&near, advent2023::day_24::Axis::X).is_none());
    assert!(advent2023::day_24::rock_speeds(&near).is_none());
    let far = vec![stone((i64::MAX, 0, 0), (3, 1, 1)), stone((-2, 0, 0), (3, 2, 2))];
    assert!(advent2023::day_24::axis_speeds(&far, advent2023::day_24::Axis::X).is_none());
    // Stones that differ in speed are not compared.
    let apart = vec![stone((i64::MAX, 0, 0), (3, 1, 1)), stone((-2, 0, 0), (4, 2, 2))];
    assert_eq!(advent2023::day_24::axis_speeds(&apart, advent2023::day_24::Axis::X), Some(vec![]));
}
