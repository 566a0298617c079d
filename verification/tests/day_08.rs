use advent2023::day_08::{Direction, Moves, Network};

const SHORT: &str = "AAA = (BBB, CCC)
BBB = (DDD, EEE)
CCC = (ZZZ, GGG)
DDD = (DDD, DDD)
EEE = (EEE, EEE)
GGG = (GGG, GGG)
ZZZ = (ZZZ, ZZZ)";

const ROUND: &str = "AAA = (BBB, BBB)
BBB = (AAA, ZZZ)
ZZZ = (ZZZ, ZZZ)";

const GHOSTS: &str = "11A = (11B, XXX)
11B = (XXX, 11Z)
11Z = (11B, XXX)
22A = (22B, XXX)
22B = (22C, 22C)
22C = (22Z, 22Z)
22Z = (22B, 22B)
XXX = (XXX, XXX)";

fn ends_at(network: &Network, last: impl Fn(&[u8]) -> bool) -> Vec<bool> {
    network.names.iter().map(|name| last(name)).collect()
}

#[test]
fn the_way_through_the_network() {
    let network = Network::from(SHORT).unwrap();
    let ends = ends_at(&network, |name| name == b"ZZZ");
    let start = network.node("AAA").unwrap();
    assert_eq!(network.run(start, &ends, Moves::from("RL").unwrap()), Some(2));
    let network = Network::from(ROUND).unwrap();
    let ends = ends_at(&network, |name| name == b"ZZZ");
    let start = network.node("AAA").unwrap();
    assert_eq!(network.run(start, &ends, Moves::from("LLR").unwrap()), Some(6));
    assert_eq!(network.run(start, &ends, Moves::from("L").unwrap()), None);
    assert_eq!(network.run(network.node("ZZZ").unwrap(), &ends, Moves::from("L").unwrap()), Some(0));
}

#[test]
fn ghosts_go_round() {
    let network = Network::from(GHOSTS).unwrap();
    let ends = ends_at(&network, |name| name.ends_with(b"Z"));
    let counts: Vec<usize> = network
        .names
        .iter()
        .enumerate()
        .filter(|(_, name)| name.ends_with(b"A"))
        .map(|(node, _)| network.run(node, &ends, Moves::from("LR").unwrap()).unwrap())
        .collect();
    assert_eq!(counts, vec![2, 3]);
    let all = counts
        .into_iter()
        .reduce(advent2023::day_08::lowest_common_multiple)
        .unwrap();
    assert_eq!(all, 6);
}

#[test]
fn networks_and_turns_are_read() {
    let network = Network::from(SHORT).unwrap();
    assert_eq!(network.names.len(), 7);
    assert_eq!(network.names[0], b"AAA");
    assert_eq!(network.edges[0], (1, 2));
    assert_eq!(network.edges[2], (6, 5));
    assert_eq!(network.edges[6], (6, 6));
    assert_eq!(network.node("GGG"), Some(5));
    assert_eq!(network.node("QQQ"), None);
    assert!(Network::from("AAA = (BBB, CCC)").is_none());
    assert_eq!(Network::from("").unwrap().names.len(), 0);
    assert_eq!(Network::from("\nA = (A, A)\n\n").unwrap().edges, vec![(0, 0)]);
    let moves = Moves::from("LRR").unwrap();
    assert_eq!(moves.list, vec![Direction::Left, Direction::Right, Direction::Right]);
    assert_eq!(moves.index, 0);
    assert!(Moves::from("").is_none());
    assert!(Moves::from("LxR").is_none());
}

#[test]
fn walks_through_the_text() {
    assert_eq!(advent2023::day_08::solve_part1(&format!("RL\n\n{SHORT}")), Some(2));
    assert_eq!(advent2023::day_08::solve_part1(&format!("LLR\n\n{ROUND}")), Some(6));
    assert_eq!(advent2023::day_08::solve_part2(&format!("LR\n\n{GHOSTS}")), Some(6));
    assert_eq!(advent2023::day_08::solve_part1(&format!("RL\n{SHORT}")), None);
    assert_eq!(advent2023::day_08::solve_part1(&format!("RX\n\n{SHORT}")), None);
    assert_eq!(advent2023::day_08::solve_part1(&format!("RL\n\n{GHOSTS}")), None);
    assert_eq!(advent2023::day_08::solve_part2(&format!("RL\n\n{SHORT}")), Some(2));
    assert_eq!(advent2023::day_08::solve_part2("L\n\nBBB = (BBB, BBB)"), None);
}
