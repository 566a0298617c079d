use advent2023::day_03::{Point, Schematic};

const ENGINE: &str = "467..114..
...*......
..35..633.
......#...
617*......
.....+.58.
..592.....
......755.
...$.*....
.664.598..";

#[test]
fn part_numbers_next_to_symbols() {
    let mut schematic = Schematic::from(ENGINE);
    let mut sum = 0;
    for row in 0..10 {
        for col in 0..10 {
            let point = Point::new(row, col);
            if schematic.is_symbol(point) {
                for neighbor in point.neighbors() {
                    if schematic.is_digit(neighbor) {
                        let (number, already_seen) = schematic.read_part_number(neighbor).unwrap();
                        if !already_seen {
                            sum += number;
                        }
                    }
                }
            }
        }
    }
    assert_eq!(sum, 4361);
}

#[test]
fn gears_and_their_ratios() {
    let mut schematic = Schematic::from(ENGINE);
    let mut sum = 0;
    for row in 0..10 {
        for col in 0..10 {
            sum += schematic.read_gear(Point::new(row, col)).unwrap();
        }
    }
    assert_eq!(sum, 467835);
    assert_eq!(schematic.read_gear(Point::new(1, 3)), Some(16345));
    assert_eq!(schematic.read_gear(Point::new(4, 3)), Some(0));
    assert_eq!(schematic.read_gear(Point::new(8, 5)), Some(451490));
    assert_eq!(schematic.read_gear(Point::new(0, 0)), Some(0));
    assert_eq!(schematic.read_gear(Point::new(-1, 3)), Some(0));
}

#[test]
fn numbers_are_read_whole() {
    let mut schematic = Schematic::from("..123..\n45.*.67\n");
    assert!(schematic.is_digit(Point::new(0, 2)));
    assert!(schematic.is_digit(Point::new(0, 4)));
    assert!(!schematic.is_digit(Point::new(0, 5)));
    assert!(!schematic.is_digit(Point::new(0, 7)));
    assert!(!schematic.is_digit(Point::new(2, 0)));
    assert!(!schematic.is_digit(Point::new(0, -1)));
    assert!(schematic.is_symbol(Point::new(1, 3)));
    assert!(!schematic.is_symbol(Point::new(1, 2)));
    assert!(!schematic.is_symbol(Point::new(1, 0)));
    assert!(!schematic.is_symbol(Point::new(5, 5)));
    assert_eq!(schematic.read_part_number(Point::new(0, 3)), Some((123, false)));
    assert_eq!(schematic.read_part_number(Point::new(0, 2)), Some((123, true)));
    assert_eq!(schematic.read_part_number(Point::new(0, 4)), Some((123, true)));
    assert_eq!(schematic.read_part_number(Point::new(1, 1)), Some((45, false)));
    assert_eq!(schematic.read_part_number(Point::new(1, 5)), Some((67, false)));
    assert_eq!(schematic.read_part_number(Point::new(1, 6)), Some((67, true)));
    let mut long = Schematic::from("99999999999999999999999999");
    assert_eq!(long.read_part_number(Point::new(0, 7)), None);
    assert_eq!(long.read_part_number(Point::new(0, 7)), None);
}

#[test]
fn a_gear_needs_two_numbers() {
    // One number twice, and no other, is no gear.
    assert_eq!(Schematic::from("7.7\n.*.\n...").read_gear(Point::new(1, 1)), Some(0));
    assert_eq!(Schematic::from("7.8\n.*.\n...").read_gear(Point::new(1, 1)), Some(56));
    assert_eq!(Schematic::from("7.8\n.*.\n9..").read_gear(Point::new(1, 1)), Some(0));
    assert_eq!(Schematic::from("7.8\n.*.\n7.8").read_gear(Point::new(1, 1)), Some(56));
    assert_eq!(Schematic::from("...\n.*.\n...").read_gear(Point::new(1, 1)), Some(0));
    assert_eq!(Schematic::from("123\n.*.\n...").read_gear(Point::new(1, 1)), Some(0));
    assert_eq!(Schematic::from("*").read_gear(Point::new(0, 0)), Some(0));
    assert_eq!(
        Schematic::from("9999999999999\n.*...........\n9999999999998").read_gear(Point::new(1, 1)),
        None
    );
}

#[test]
fn schematics_are_summed() {
    assert_eq!(advent2023::day_03::solve_part1(ENGINE), Some(4361));
    assert_eq!(advent2023::day_03::solve_part2(ENGINE), Some(467835));
    assert_eq!(advent2023::day_03::solve_part1(""), Some(0));
    // A number next to two symbols counts once.
    assert_eq!(advent2023::day_03::solve_part1("*12*\n.34."), Some(46));
    assert_eq!(advent2023::day_03::solve_part1("99999999999999999999999*"), None);
}

#[test]
fn gears_that_cannot_be_read() {
    // A number next to a star that no machine number holds.
    assert_eq!(advent2023::day_03::solve_part2("99999999999999999999999*2"), None);
    // Away from every star the same number does no harm.
    assert_eq!(advent2023::day_03::solve_part2("99999999999999999999999.3*2"), Some(6));
    // A ratio that no machine number holds.
    assert_eq!(advent2023::day_03::solve_part2("9999999999999999*9999999999999998"), None);
    // The same number on both sides counts as one, and one number makes no gear.
    assert_eq!(advent2023::day_03::solve_part2("9999999999999999*9999999999999999"), Some(0));
    let mut schematic = Schematic::from("99999999999999999999999*2");
    assert_eq!(schematic.read_gear(Point::new(0, 23)), None);
}

#[test]
fn reading_a_gear_marks_its_numbers() {
    let mut schematic = Schematic::from("12*34\n.....");
    assert_eq!(schematic.read_gear(Point::new(0, 2)), Some(408));
    assert_eq!(schematic.seen_part_numbers[0], vec![true, false, false, true, false]);
    assert_eq!(schematic.seen_part_numbers[1], vec![false; 5]);
    // Where no star stands nothing is marked.
    let mut schematic = Schematic::from("12#34");
    assert_eq!(schematic.read_gear(Point::new(0, 2)), Some(0));
    assert_eq!(schematic.seen_part_numbers[0], vec![false; 5]);
}
