use advent2023::day_14::{Platform, Space};

const PLATFORM: &str = "O....#....
O.OO#....#
.....##...
OO.#O....O
.O.....O#.
O.#..O.#.#
..O..#O..O
.......O..
#....###..
#OO..#....";

fn rows(platform: &Platform) -> Vec<String> {
    let text = platform.identity();
    let cols = platform.map[0].len();
    text.as_bytes().chunks(cols).map(|row| String::from_utf8(row.to_vec()).unwrap()).collect()
}

#[test]
fn rocks_roll_up() {
    let mut platform = Platform::from(PLATFORM).unwrap();
    platform.tilt_up();
    assert_eq!(
        rows(&platform),
        vec![
            "OOOO.#.O..",
            "OO..#....#",
            "OO..O##..O",
            "O..#.OO...",
            "........#.",
            "..#....#.#",
            "..O..#.O.O",
            "..O.......",
            "#....###..",
            "#....#....",
        ]
    );
    assert_eq!(platform.load_up(), 136);
}

#[test]
fn rocks_roll_round() {
    let mut platform = Platform::from(PLATFORM).unwrap();
    platform.cycle();
    assert_eq!(
        rows(&platform),
        vec![
            ".....#....",
            "....#...O#",
            "...OO##...",
            ".OO#......",
            ".....OOO#.",
            ".O#...O#.#",
            "....O#....",
            "......OOOO",
            "#...O###..",
            "#..OO#....",
        ]
    );
    platform.cycle();
    platform.cycle();
    assert_eq!(
        rows(&platform),
        vec![
            ".....#....",
            "....#...O#",
            ".....##...",
            "..O#......",
            ".....OOO#.",
            ".O#...O#.#",
            "....O#...O",
            ".......OOO",
            "#...O###.O",
            "#.OOO#...O",
        ]
    );
}

#[test]
fn the_load_after_many_cycles() {
    // The platform comes back to a state that it has been in: after 3 cycles it goes round
    // every 7, and a thousand million cycles leave it as 6 do.
    let mut platform = Platform::from(PLATFORM).unwrap();
    for _ in 0..6 {
        platform.cycle();
    }
    assert_eq!(platform.load_up(), 64);
}

#[test]
fn rocks_roll_each_way() {
    let mut platform = Platform::from("....\n.O#.\n....").unwrap();
    assert_eq!(platform.get(1, 1), Space::Rounded);
    assert_eq!(platform.get(1, 2), Space::Cube);
    assert_eq!(platform.get(0, 0), Space::Empty);
    platform.tilt_right();
    assert_eq!(rows(&platform), vec!["....", ".O#.", "...."]);
    platform.tilt_left();
    assert_eq!(rows(&platform), vec!["....", "O.#.", "...."]);
    platform.tilt_down();
    assert_eq!(rows(&platform), vec!["....", "..#.", "O..."]);
    platform.tilt_right();
    assert_eq!(rows(&platform), vec!["....", "..#.", "...O"]);
    platform.tilt_up();
    assert_eq!(rows(&platform), vec!["...O", "..#.", "...."]);
    assert_eq!(platform.load_up(), 3);
}

#[test]
fn one_rock_rolls_until_it_is_held() {
    let mut platform = Platform::from("..O.\n#...\nO.O.\nO...").unwrap();
    platform.shift_up(2, 2);
    assert_eq!(rows(&platform), vec!["..O.", "#.O.", "O...", "O..."]);
    platform.shift_up(2, 0);
    assert_eq!(rows(&platform), vec!["..O.", "#.O.", "O...", "O..."]);
    platform.shift_right(2, 0);
    assert_eq!(rows(&platform), vec!["..O.", "#.O.", "...O", "O..."]);
    platform.shift_down(1, 2);
    assert_eq!(rows(&platform), vec!["..O.", "#...", "...O", "O.O."]);
    platform.shift_left(3, 2);
    assert_eq!(rows(&platform), vec!["..O.", "#...", "...O", "OO.."]);
    platform.shift_left(0, 2);
    assert_eq!(rows(&platform), vec!["O...", "#...", "...O", "OO.."]);
}

#[test]
fn platforms_are_read() {
    assert_eq!(Space::from('.'), Space::Empty);
    assert_eq!(Space::from('O'), Space::Rounded);
    assert_eq!(Space::from('#'), Space::Cube);
    assert_eq!(Space::Empty.to_char(), '.');
    assert_eq!(Space::Rounded.to_char(), 'O');
    assert_eq!(Space::Cube.to_char(), '#');
    assert!(Platform::from("").is_none());
    assert!(Platform::from("..\n.").is_none());
    assert!(Platform::from(".x").is_none());
    let platform = Platform::from("O#\n.O\n").unwrap();
    assert_eq!(platform.identity(), "O#.O");
    assert_eq!(platform.load_up(), 3);
}

#[test]
fn loads_through_the_text() {
    assert_eq!(advent2023::day_14::solve_part1(PLATFORM), Some(136));
    assert_eq!(advent2023::day_14::solve_part2(PLATFORM), Some(64));
    assert_eq!(advent2023::day_14::solve_part1(""), None);
    assert_eq!(advent2023::day_14::solve_part2("O.\n#"), None);
    assert_eq!(advent2023::day_14::solve_part2("."), Some(0));
    assert_eq!(advent2023::day_14::solve_part2(".\nO"), Some(1));
}
