use advent2023::day_02::{parse_game, parse_pull, parse_pull_item, Pull};

const GAMES: &str = "Game 1: 3 blue, 4 red; 1 red, 2 green, 6 blue; 2 green
Game 2: 1 blue, 2 green; 3 green, 4 blue, 1 red; 1 green, 1 blue
Game 3: 8 green, 6 blue, 20 red; 5 blue, 4 red, 13 green; 5 green, 1 red
Game 4: 1 green, 3 red, 6 blue; 3 green, 6 red; 3 green, 15 blue, 14 red
Game 5: 6 red, 1 blue, 3 green; 2 blue, 1 red, 2 green";

#[test]
fn games_are_read_and_judged() {
    let games: Vec<_> = GAMES.lines().map(|line| parse_game(line).unwrap()).collect();
    assert_eq!(games.len(), 5);
    assert_eq!(games[0].id, 1);
    assert_eq!(
        games[0].pulls,
        vec![
            Pull { red: 4, green: 0, blue: 3 },
            Pull { red: 1, green: 2, blue: 6 },
            Pull { red: 0, green: 2, blue: 0 },
        ]
    );
    let possible: u16 = games.iter().filter(|g| g.possible_part_1()).map(|g| g.id).sum();
    assert_eq!(possible, 8);
    let power: usize = games.into_iter().map(|g| g.minimum_possible_pull().power()).sum();
    assert_eq!(power, 2286);
}

#[test]
fn draws_are_read() {
    let item = |text: &str| parse_pull_item(text.as_bytes(), 0, text.len());
    assert_eq!(item("3 blue"), Some((Pull { red: 0, green: 0, blue: 3 }, 6)));
    assert_eq!(item("255 red, 1 blue"), Some((Pull { red: 255, green: 0, blue: 0 }, 7)));
    assert_eq!(item("12 green"), Some((Pull { red: 0, green: 12, blue: 0 }, 8)));
    assert_eq!(item("256 red"), None);
    assert_eq!(item("3 pink"), None);
    assert_eq!(item("3blue"), None);
    assert_eq!(item("blue"), None);
    assert_eq!(item("3 "), None);
    assert_eq!(item(""), None);
    let pull = |text: &str| parse_pull(text.as_bytes(), 0, text.len());
    assert_eq!(pull("1 red, 2 green, 6 blue; 2 green"), Some((Pull { red: 1, green: 2, blue: 6 }, 22)));
    assert_eq!(pull("1 red, 2 red"), Some((Pull { red: 3, green: 0, blue: 0 }, 12)));
    assert_eq!(pull("200 red, 56 red"), None);
    assert_eq!(pull("1 red, x"), Some((Pull { red: 1, green: 0, blue: 0 }, 5)));
    assert_eq!(pull(""), None);
}

#[test]
fn games_out_of_form_are_refused() {
    assert!(parse_game("Game 1: 3 blue").is_some());
    assert_eq!(parse_game("Game 65535: 3 blue").unwrap().id, 65535);
    assert!(parse_game("Game 65536: 3 blue").is_none());
    assert!(parse_game("game 1: 3 blue").is_none());
    assert!(parse_game("Game : 3 blue").is_none());
    assert!(parse_game("Game 1 3 blue").is_none());
    assert!(parse_game("Game 1:3 blue").is_none());
    assert!(parse_game("Game 1: ").is_none());
    assert!(parse_game("Game 1: 3 blue;").is_none());
    assert!(parse_game("Game 1: 3 blue; ").is_none());
    assert!(parse_game("Game 1: 3 blue, ").is_none());
    assert!(parse_game("Game 1: 3 blue and more").is_none());
    assert!(parse_game("").is_none());
}

#[test]
fn games_are_summed() {
    assert_eq!(advent2023::day_02::solve_part1(GAMES), Some(8));
    assert_eq!(advent2023::day_02::solve_part2(GAMES), Some(2286));
    assert_eq!(advent2023::day_02::solve_part1(""), Some(0));
    assert_eq!(advent2023::day_02::solve_part1("Game 1: 3 blue\nGame 2"), None);
    // The sum of the numbers of the games is one of 16 bits.
    assert_eq!(advent2023::day_02::solve_part1("Game 65535: 1 red"), Some(65535));
    assert_eq!(advent2023::day_02::solve_part1("Game 65535: 1 red\nGame 1: 1 red"), None);
    assert_eq!(advent2023::day_02::solve_part1("Game 65535: 1 red\nGame 1: 13 red"), Some(65535));
}
