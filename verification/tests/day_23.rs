use advent2023::day_23::{Direction, Mapping, Path, Point, Tile, Trails};

const FOREST: &str = "#.#######
#.......#
#.##.##.#
#.......#
#.##.##.#
#.......#
#######.#";

const SLOPES: &str = "#.#######
#.......#
#.##.##.#
#..>.<..#
#^##.##.#
#.......#
#######.#";

const WINDING: &str = "#.#########
#...>.....#
#v##.####v#
#.##.##...#
#.>..##.###
#.##v##.>.#
#.##......#
#.......#.#
#########.#";

#[test]
fn points_shift() {
    let point = Point::new(3, -2);
    assert_eq!(point.shift(Direction::Up), Point::new(2, -2));
    assert_eq!(point.shift(Direction::Down), Point::new(4, -2));
    assert_eq!(point.shift(Direction::Left), Point::new(3, -3));
    assert_eq!(point.shift(Direction::Right), Point::new(3, -1));
}

#[test]
fn tiles_are_read_both_ways() {
    assert_eq!(Tile::from_part1('.'), Some(Tile::Open));
    assert_eq!(Tile::from_part1('#'), Some(Tile::Forest));
    assert_eq!(Tile::from_part1('v'), Some(Tile::SlopeDown));
    assert_eq!(Tile::from_part1('<'), Some(Tile::SlopeLeft));
    assert_eq!(Tile::from_part1('>'), Some(Tile::SlopeRight));
    assert_eq!(Tile::from_part1('^'), Some(Tile::SlopeUp));
    assert_eq!(Tile::from_part1('x'), None);
    for slope in ['.', 'v', '<', '>', '^'] {
        assert_eq!(Tile::from_part2(slope), Some(Tile::Open));
    }
    assert_eq!(Tile::from_part2('#'), Some(Tile::Forest));
    assert_eq!(Tile::from_part2(' '), None);
}

#[test]
fn walks_come_to_no_place_twice() {
    let path = Path::new(7);
    assert_eq!((path.start(), path.end(), path.len()), (7, 7, 0));
    assert!(path.join(7).is_none());
    let longer = path.join(3).unwrap();
    assert_eq!((longer.start(), longer.end(), longer.len()), (7, 3, 1));
    let longest = longer.join(9).unwrap();
    assert_eq!((longest.start(), longest.end(), longest.len()), (7, 9, 2));
    assert!(longest.join(3).is_none());
    assert!(longest.join(7).is_none());
    // The shorter walks are as they were.
    assert_eq!((path.end(), longer.end()), (7, 3));
}

#[test]
fn forests_are_read() {
    let trails = Trails::from_part1(".#\n>v<\n^").unwrap();
    assert_eq!((trails.rows, trails.cols), (3, 3));
    assert_eq!(
        trails.spots,
        vec![
            vec![Tile::Open, Tile::Forest],
            vec![Tile::SlopeRight, Tile::SlopeDown, Tile::SlopeLeft],
            vec![Tile::SlopeUp],
        ]
    );
    assert_eq!(trails.get(Point::new(0, 1)), Some(Tile::Forest));
    assert_eq!(trails.get(Point::new(0, 2)), None);
    assert_eq!(trails.get(Point::new(-1, 0)), None);
    assert_eq!(trails.get(Point::new(3, 0)), None);
    assert_eq!(trails.place(Point::new(1, 2)), 5);
    assert_eq!(trails.spot(5), Point::new(1, 2));
    assert_eq!(trails.spot(6), Point::new(2, 0));

    let flat = Trails::from_part2(".#\n>v<\n^\n").unwrap();
    assert_eq!((flat.rows, flat.cols), (3, 3));
    assert_eq!(flat.spots[1], vec![Tile::Open, Tile::Open, Tile::Open]);

    assert!(Trails::from_part1(".#\n.x").is_none());
    let empty = Trails::from_part1("").unwrap();
    assert_eq!((empty.rows, empty.cols), (0, 0));
    assert_eq!(empty.start(), None);
    assert_eq!(empty.end(), None);
}

#[test]
fn steps_onto_slopes_go_their_way() {
    let trails = Trails::from_part1("#^#\n<.>\n#v#").unwrap();
    let centre = Point::new(1, 1);
    assert_eq!(
        trails.neighbors(centre),
        vec![Point::new(0, 1), Point::new(2, 1), Point::new(1, 0), Point::new(1, 2)]
    );
    let against = Trails::from_part1("#v#\n>.<\n#^#").unwrap();
    assert_eq!(against.neighbors(centre), vec![]);
    let flat = Trails::from_part2("#v#\n>.<\n#^#").unwrap();
    assert_eq!(flat.neighbors(centre).len(), 4);
    // From a corner only what lies in the forest is looked at.
    assert_eq!(flat.neighbors(Point::new(0, 0)), vec![Point::new(1, 0), Point::new(0, 1)]);
}

#[test]
fn walks_go_on_where_they_have_not_been() {
    let trails = Trails::from_part2("...\n...\n...").unwrap();
    let path = Path::new(4).join(1).unwrap();
    let onward: Vec<(usize, usize, usize)> = trails
        .possible_continuations(&path)
        .iter()
        .map(|walk| (walk.start(), walk.end(), walk.len()))
        .collect();
    assert_eq!(onward, vec![(4, 0, 2), (4, 2, 2)]);
}

#[test]
fn gates_are_the_first_open_ground() {
    let trails = Trails::from_part1(FOREST).unwrap();
    assert_eq!((trails.rows, trails.cols), (7, 9));
    assert_eq!(trails.start(), Some(Point::new(0, 1)));
    assert_eq!(trails.end(), Some(Point::new(6, 7)));
    let walled = Trails::from_part1("###\n#.#\n#.#").unwrap();
    assert_eq!(walled.start(), None);
    assert_eq!(walled.end(), Some(Point::new(2, 1)));
}

#[test]
fn the_longest_of_the_ways_is_kept() {
    let mut mapping = Mapping::new(4);
    assert!(!mapping.has_entry(0));
    assert_eq!(mapping.length(0, 1), None);
    mapping.note(0, 1, 2);
    mapping.note(0, 1, 1);
    assert_eq!(mapping.length(0, 1), Some(2));
    mapping.note(0, 1, 6);
    assert_eq!(mapping.length(0, 1), Some(6));
    mapping.note(0, 9, 0);
    assert_eq!(mapping.length(0, 9), Some(0));
    assert_eq!(mapping.length(1, 0), None);
    assert_eq!(mapping.length(7, 0), None);
    assert!(mapping.has_entry(0));
    assert!(!mapping.has_entry(1));
    assert!(!mapping.has_entry(9));
}

#[test]
fn the_longest_trail_in_a_mapping() {
    let mut mapping = Mapping::new(5);
    mapping.note(0, 1, 2);
    mapping.note(0, 2, 5);
    mapping.note(1, 2, 1);
    assert_eq!(mapping.longest_path(0, 2), Some(5));
    mapping.note(1, 3, 10);
    mapping.note(3, 2, 1);
    assert_eq!(mapping.longest_path(0, 2), Some(13));
    // A way back to where the walk has been is not taken.
    mapping.note(3, 0, 100);
    mapping.note(3, 1, 100);
    assert_eq!(mapping.longest_path(0, 2), Some(13));
    // A walk stops when it first comes to the end.
    mapping.note(2, 4, 50);
    mapping.note(4, 2, 50);
    assert_eq!(mapping.longest_path(0, 2), Some(13));
    assert_eq!(mapping.longest_path(0, 4), Some(63));
    // No way leads there, or from there.
    assert_eq!(mapping.longest_path(4, 0), Some(0));
    assert_eq!(mapping.longest_path(0, 7), Some(0));
    assert_eq!(mapping.longest_path(7, 0), Some(0));
    // Round to the start again.
    assert_eq!(mapping.longest_path(0, 0), Some(112));
}

#[test]
fn walks_longer_than_can_be_counted() {
    let mut mapping = Mapping::new(3);
    mapping.note(0, 1, usize::MAX);
    mapping.note(1, 2, 0);
    assert_eq!(mapping.longest_path(0, 2), Some(usize::MAX));
    mapping.note(1, 2, 1);
    assert_eq!(mapping.longest_path(0, 2), None);
    // The step back to where the walk has been is reckoned too.
    let mut mapping = Mapping::new(3);
    mapping.note(0, 1, usize::MAX);
    mapping.note(1, 0, 1);
    assert_eq!(mapping.longest_path(0, 2), None);
}

#[test]
fn the_ways_of_a_small_forest() {
    let trails = Trails::from_part1("#.###\n#...#\n#.#.#\n#...#\n###.#").unwrap();
    let mapping = trails.create_mapping(Point::new(0, 1), 100).unwrap();
    // From the start one step down to the parting of the ways at place 6.
    assert_eq!(mapping.length(1, 6), Some(1));
    // Both ways round the tree meet again at place 18, four steps on.
    assert_eq!(mapping.length(6, 18), Some(4));
    assert_eq!(mapping.length(18, 23), Some(1));
    assert!(mapping.has_entry(1) && mapping.has_entry(6) && mapping.has_entry(18));
    assert_eq!(mapping.longest_path(1, 23), Some(6));
    assert_eq!(trails.longest_path(100), Some(6));
    assert!(trails.create_mapping(Point::new(0, 1), 3).is_none());
    assert_eq!(trails.longest_path(3), None);
}

#[test]
fn day_23_longest_walks() {
    let open = Trails::from_part1(FOREST).unwrap();
    assert_eq!(open.longest_path(1_000_000), Some(24));
    assert_eq!(open.longest_path(76), Some(24));
    assert_eq!(open.longest_path(75), None);
    assert_eq!(Trails::from_part2(FOREST).unwrap().longest_path(76), Some(24));

    let steep = Trails::from_part1(SLOPES).unwrap();
    assert_eq!(steep.longest_path(81), Some(18));
    assert_eq!(steep.longest_path(80), None);
    assert_eq!(Trails::from_part2(SLOPES).unwrap().longest_path(76), Some(24));

    let winding = Trails::from_part2(WINDING).unwrap();
    assert_eq!(winding.longest_path(103), Some(38));
    assert_eq!(winding.longest_path(102), None);
    assert_eq!(Trails::from_part1("###\n#.#").unwrap().longest_path(100), None);
}

#[test]
fn ways_are_followed_from_each_parting_as_it_was_first_come_to() {
    // The ways that are noted lead over a place twice here: the walk of 26
    // steps is longer than any walk through the forest itself.
    let first = "#.#######\n#.<.....#\n#.##.##.#\n#.....>.#\n#.##.##.#\n#.......#\n#######.#";
    assert_eq!(Trails::from_part1(first).unwrap().longest_path(88), Some(26));
    assert_eq!(Trails::from_part1(first).unwrap().longest_path(87), None);
    let second = "#.#######\n#.......#\n#.##.##.#\n#.....>.#\n#.##.##v#\n#.......#\n#######.#";
    assert_eq!(Trails::from_part1(second).unwrap().longest_path(78), Some(28));
}

#[test]
fn forests_through_the_text() {
    assert_eq!(advent2023::day_23::solve_part1(FOREST), Some(24));
    assert_eq!(advent2023::day_23::solve_part2(FOREST), Some(24));
    assert_eq!(advent2023::day_23::solve_part1(SLOPES), Some(18));
    assert_eq!(advent2023::day_23::solve_part2(SLOPES), Some(24));
    assert_eq!(advent2023::day_23::solve_part2(WINDING), Some(38));
    assert_eq!(advent2023::day_23::solve_part1(""), None);
    assert_eq!(advent2023::day_23::solve_part1("#.#\n#x#"), None);
}
