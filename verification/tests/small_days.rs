use advent2023::day_02::{Game, Pull};
use advent2023::day_03;
use advent2023::day_06::Race;
use advent2023::day_08::{greatest_common_divisor, lowest_common_multiple, Direction, Moves};
use advent2023::day_09::{next_value, previous_value, try_values};
use advent2023::day_10::{self, LoopParity, Tile, Zone};
use advent2023::day_11;
use advent2023::day_15::hash;

#[test]
fn pulls_are_built_by_colour() {
    assert_eq!(Pull::new_red(3), Pull { red: 3, green: 0, blue: 0 });
    assert_eq!(Pull::new_green(4), Pull { red: 0, green: 4, blue: 0 });
    assert_eq!(Pull::new_blue(5), Pull { red: 0, green: 0, blue: 5 });
    assert_eq!(Pull::default(), Pull { red: 0, green: 0, blue: 0 });
}

#[test]
fn pulls_combine() {
    let a = Pull { red: 1, green: 20, blue: 3 };
    let b = Pull { red: 10, green: 2, blue: 3 };
    assert_eq!(a.max(b), Pull { red: 10, green: 20, blue: 3 });
    assert_eq!(a.add(b), Pull { red: 11, green: 22, blue: 6 });
    assert_eq!(a.power(), 60);
    assert_eq!(Pull { red: 255, green: 255, blue: 255 }.power(), 16581375);
    assert_eq!(Pull { red: 0, green: 9, blue: 9 }.power(), 0);
}

#[test]
fn games_within_the_bag() {
    let game = |pulls: Vec<Pull>| Game { id: 1, pulls };
    assert!(game(vec![]).possible_part_1());
    assert!(game(vec![Pull { red: 12, green: 13, blue: 14 }]).possible_part_1());
    assert!(!game(vec![Pull { red: 13, green: 0, blue: 0 }]).possible_part_1());
    assert!(!game(vec![Pull { red: 0, green: 14, blue: 0 }]).possible_part_1());
    assert!(!game(vec![Pull { red: 0, green: 0, blue: 15 }]).possible_part_1());
    assert!(!game(vec![Pull { red: 1, green: 1, blue: 1 }, Pull { red: 20, green: 8, blue: 6 }])
        .possible_part_1());
    // Game 1 of the puzzle text: 3 blue, 4 red; 1 red, 2 green, 6 blue; 2 green.
    let first = game(vec![
        Pull { red: 4, green: 0, blue: 3 },
        Pull { red: 1, green: 2, blue: 6 },
        Pull { red: 0, green: 2, blue: 0 },
    ]);
    assert!(first.possible_part_1());
    let least = first.minimum_possible_pull();
    assert_eq!(least, Pull { red: 4, green: 2, blue: 6 });
    assert_eq!(least.power(), 48);
    assert_eq!(game(vec![]).minimum_possible_pull(), Pull::default());
}

#[test]
fn places_around_a_point() {
    let p = day_03::Point::new(5, -2);
    assert_eq!(p.left(), day_03::Point::new(5, -3));
    assert_eq!(p.right(), day_03::Point::new(5, -1));
    assert_eq!(
        p.neighbors(),
        vec![
            day_03::Point::new(4, -3),
            day_03::Point::new(4, -2),
            day_03::Point::new(4, -1),
            day_03::Point::new(5, -3),
            day_03::Point::new(5, -1),
            day_03::Point::new(6, -3),
            day_03::Point::new(6, -2),
            day_03::Point::new(6, -1),
        ]
    );
}

#[test]
fn races_are_won() {
    assert_eq!(Race { time: 7, length: 9 }.win_count(), 4);
    assert_eq!(Race { time: 15, length: 40 }.win_count(), 8);
    assert_eq!(Race { time: 30, length: 200 }.win_count(), 9);
    assert_eq!(Race { time: 71530, length: 940200 }.win_count(), 71503);
    assert_eq!(Race { time: 0, length: 0 }.win_count(), 0);
    assert_eq!(Race { time: 1, length: 0 }.win_count(), 0);
    assert_eq!(Race { time: 2, length: 0 }.win_count(), 1);
    assert_eq!(Race { time: 2, length: 1 }.win_count(), 0);
}

#[test]
fn common_divisors_and_multiples() {
    assert_eq!(greatest_common_divisor(12, 18), 6);
    assert_eq!(greatest_common_divisor(18, 12), 6);
    assert_eq!(greatest_common_divisor(17, 5), 1);
    assert_eq!(greatest_common_divisor(9, 9), 9);
    assert_eq!(greatest_common_divisor(1, 1000), 1);
    assert_eq!(lowest_common_multiple(4, 6), 12);
    assert_eq!(lowest_common_multiple(6, 4), 12);
    assert_eq!(lowest_common_multiple(7, 13), 91);
    assert_eq!(lowest_common_multiple(5, 5), 5);
}

#[test]
fn turns_come_round_again() {
    assert_eq!(Direction::from('L'), Direction::Left);
    assert_eq!(Direction::from('R'), Direction::Right);
    let mut moves = Moves { list: vec![Direction::Left, Direction::Left, Direction::Right], index: 0 };
    assert_eq!(moves.next(), Direction::Left);
    assert_eq!(moves.next(), Direction::Left);
    assert_eq!(moves.index, 2);
    assert_eq!(moves.next(), Direction::Right);
    assert_eq!(moves.index, 0);
    assert_eq!(moves.next(), Direction::Left);
}

#[test]
fn readings_are_carried_on() {
    assert_eq!(next_value(&[0, 3, 6, 9, 12, 15]), 18);
    assert_eq!(next_value(&[1, 3, 6, 10, 15, 21]), 28);
    assert_eq!(next_value(&[10, 13, 16, 21, 30, 45]), 68);
    assert_eq!(previous_value(&[0, 3, 6, 9, 12, 15]), -3);
    assert_eq!(previous_value(&[1, 3, 6, 10, 15, 21]), 0);
    assert_eq!(previous_value(&[10, 13, 16, 21, 30, 45]), 5);
    assert_eq!(next_value(&[]), 0);
    assert_eq!(next_value(&[5]), 0);
    assert_eq!(previous_value(&[5]), 0);
    assert_eq!(next_value(&[4, 4, 4]), 4);
    assert_eq!(previous_value(&[4, 4, 4]), 4);
    assert_eq!(next_value(&[9, 7, 5]), 3);
}

#[test]
fn pipes_lead_on() {
    let (up, down, left, right) = (
        day_10::Direction::Up,
        day_10::Direction::Down,
        day_10::Direction::Left,
        day_10::Direction::Right,
    );
    assert_eq!(Tile::UpDown.next_direction(up), Some(up));
    assert_eq!(Tile::UpDown.next_direction(down), Some(down));
    assert_eq!(Tile::UpDown.next_direction(left), None);
    assert_eq!(Tile::UpRight.next_direction(down), Some(right));
    assert_eq!(Tile::UpRight.next_direction(left), Some(up));
    assert_eq!(Tile::UpRight.next_direction(up), None);
    assert_eq!(Tile::UpLeft.next_direction(right), Some(up));
    assert_eq!(Tile::UpLeft.next_direction(down), Some(left));
    assert_eq!(Tile::LeftRight.next_direction(left), Some(left));
    assert_eq!(Tile::LeftRight.next_direction(right), Some(right));
    assert_eq!(Tile::DownRight.next_direction(up), Some(right));
    assert_eq!(Tile::DownRight.next_direction(left), Some(down));
    assert_eq!(Tile::DownLeft.next_direction(up), Some(left));
    assert_eq!(Tile::DownLeft.next_direction(right), Some(down));
    assert_eq!(Tile::Ground.next_direction(up), None);
    assert_eq!(Tile::Start.next_direction(down), None);
}

#[test]
fn tiles_are_read_and_found() {
    let text = ['S', '.', '|', 'L', 'J', '-', 'F', '7'];
    let tiles = [
        Tile::Start,
        Tile::Ground,
        Tile::UpDown,
        Tile::UpRight,
        Tile::UpLeft,
        Tile::LeftRight,
        Tile::DownRight,
        Tile::DownLeft,
    ];
    for (chr, tile) in text.iter().zip(tiles.iter()) {
        assert_eq!(Tile::from(*chr), *tile);
    }
    let zone = Zone { tiles: tiles.to_vec(), cols: 4, rows: 2 };
    assert_eq!(zone.tile(day_10::Point::new(0, 0)), Tile::Start);
    assert_eq!(zone.tile(day_10::Point::new(0, 3)), Tile::UpRight);
    assert_eq!(zone.tile(day_10::Point::new(1, 0)), Tile::UpLeft);
    assert_eq!(zone.tile(day_10::Point::new(1, 3)), Tile::DownLeft);
    let p = day_10::Point::new(4, 4);
    assert_eq!(p.shift(day_10::Direction::Up), day_10::Point::new(3, 4));
    assert_eq!(p.shift(day_10::Direction::Down), day_10::Point::new(5, 4));
    assert_eq!(p.shift(day_10::Direction::Left), day_10::Point::new(4, 3));
    assert_eq!(p.shift(day_10::Direction::Right), day_10::Point::new(4, 5));
}

#[test]
fn scans_know_their_side() {
    assert!(!LoopParity::Out.is_in());
    assert!(!LoopParity::OutUp.is_in());
    assert!(!LoopParity::OutDown.is_in());
    assert!(LoopParity::In.is_in());
    assert!(LoopParity::InUp.is_in());
    assert!(LoopParity::InDown.is_in());
    assert_eq!(LoopParity::Out.next(Tile::UpDown), LoopParity::In);
    assert_eq!(LoopParity::In.next(Tile::UpDown), LoopParity::Out);
    assert_eq!(LoopParity::Out.next(Tile::Ground), LoopParity::Out);
    assert_eq!(LoopParity::InUp.next(Tile::LeftRight), LoopParity::InUp);
    // F--J crosses the row, F--7 does not.
    let crossing = [Tile::DownRight, Tile::LeftRight, Tile::LeftRight, Tile::UpLeft];
    let touching = [Tile::DownRight, Tile::LeftRight, Tile::LeftRight, Tile::DownLeft];
    let run = |from: LoopParity, tiles: &[Tile]| tiles.iter().fold(from, |p, t| p.next(*t));
    assert_eq!(run(LoopParity::Out, &crossing), LoopParity::In);
    assert_eq!(run(LoopParity::In, &crossing), LoopParity::Out);
    assert_eq!(run(LoopParity::Out, &touching), LoopParity::Out);
    assert_eq!(run(LoopParity::In, &touching), LoopParity::In);
    assert_eq!(LoopParity::Out.next(Tile::Start), LoopParity::OutDown);
    assert_eq!(LoopParity::OutUp.next(Tile::Start), LoopParity::In);
}

#[test]
fn galaxies_are_apart() {
    let a = day_11::Point::new(1, 6);
    let b = day_11::Point::new(5, 11);
    assert_eq!(a.distance(b), 9);
    assert_eq!(b.distance(a), 9);
    assert_eq!(a.distance(a), 0);
    assert_eq!(day_11::Point::new(0, 4).distance(day_11::Point::new(10, 9)), 15);
}

#[test]
fn steps_are_hashed() {
    assert_eq!(hash("HASH"), 52);
    assert_eq!(hash(""), 0);
    assert_eq!(hash("rn=1"), 30);
    assert_eq!(hash("cm-"), 253);
    assert_eq!(hash("rn"), 0);
    assert_eq!(hash("qp"), 1);
    assert_eq!(hash("é"), (233 * 17) % 256);
}

#[test]
fn readings_that_leave_the_machine() {
    assert_eq!(try_values(&[0, 3, 6, 9, 12, 15]), Some((18, -3)));
    assert_eq!(try_values(&[1, 3, 6, 10, 15, 21]), Some((28, 0)));
    assert_eq!(try_values(&[10, 13, 16, 21, 30, 45]), Some((68, 5)));
    assert_eq!(try_values(&[]), Some((0, 0)));
    assert_eq!(try_values(&[isize::MAX, isize::MIN]), None);
    assert_eq!(try_values(&[0, isize::MAX]), Some((isize::MAX, 0)));
    assert_eq!(try_values(&[0, 1, isize::MAX]), None);
}

#[test]
fn readings_are_summed() {
    let report = "0 3 6 9 12 15\n1 3 6 10 15 21\n10 13 16 21 30 45";
    assert_eq!(advent2023::day_09::solve_part1(report), Some(114));
    assert_eq!(advent2023::day_09::solve_part2(report), Some(2));
    assert_eq!(advent2023::day_09::solve_part1(""), Some(0));
    assert_eq!(advent2023::day_09::solve_part1("-3 -5 -7"), Some(-9));
    assert_eq!(advent2023::day_09::solve_part1("1 99999999999999999999999"), None);
}

#[test]
fn the_races_of_the_sheet() {
    assert_eq!(advent2023::day_06::solve_part1(""), 1413720);
    assert_eq!(advent2023::day_06::solve_part1("anything"), 1413720);
    assert_eq!(advent2023::day_06::solve_part2(""), Some(30565288));
}
