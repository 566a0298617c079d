use advent2023::day_05::{Almanac, Conversion, Puzzle, Range, RangeMap};

fn line(destination_start: usize, source_start: usize, length: usize) -> RangeMap {
    RangeMap { source_start, destination_start, length }
}

/// A map of the lines given, in the order of the numbers that they map.
fn conversion(mut lines: Vec<RangeMap>) -> Conversion {
    lines.sort_by_key(|l| l.source_start);
    Conversion { ranges: lines }
}

/// The almanac of the puzzle text.
fn almanac() -> Almanac {
    Almanac {
        maps: vec![
            conversion(vec![line(50, 98, 2), line(52, 50, 48)]),
            conversion(vec![line(0, 15, 37), line(37, 52, 2), line(39, 0, 15)]),
            conversion(vec![line(49, 53, 8), line(0, 11, 42), line(42, 0, 7), line(57, 7, 4)]),
            conversion(vec![line(88, 18, 7), line(18, 25, 70)]),
            conversion(vec![line(45, 77, 23), line(81, 45, 19), line(68, 64, 13)]),
            conversion(vec![line(0, 69, 1), line(1, 0, 69)]),
            conversion(vec![line(60, 56, 37), line(56, 93, 4)]),
        ],
    }
}

#[test]
fn a_line_maps_its_numbers() {
    let l = line(50, 98, 2);
    assert_eq!(l.lookup(97), None);
    assert_eq!(l.lookup(98), Some(50));
    assert_eq!(l.lookup(99), Some(51));
    assert_eq!(l.lookup(100), None);
    assert_eq!(l.lookup(0), None);
}

#[test]
fn a_map_sends_what_no_line_maps_to_itself() {
    let map = conversion(vec![line(50, 98, 2), line(52, 50, 48)]);
    assert_eq!(map.lookup_single(79), 81);
    assert_eq!(map.lookup_single(14), 14);
    assert_eq!(map.lookup_single(55), 57);
    assert_eq!(map.lookup_single(13), 13);
    assert_eq!(map.lookup_single(98), 50);
    assert_eq!(map.lookup_single(99), 51);
    assert_eq!(map.lookup_single(100), 100);
    assert_eq!(Conversion { ranges: vec![] }.lookup_single(5), 5);
}

#[test]
fn seeds_find_their_location() {
    let almanac = almanac();
    assert_eq!(almanac.location_for_seed(79), 82);
    assert_eq!(almanac.location_for_seed(14), 43);
    assert_eq!(almanac.location_for_seed(55), 86);
    assert_eq!(almanac.location_for_seed(13), 35);
    assert_eq!(Almanac { maps: vec![] }.location_for_seed(13), 13);
}

#[test]
fn a_range_is_cut_at_the_lines() {
    let map = conversion(vec![line(50, 98, 2), line(52, 50, 48)]);
    assert_eq!(
        map.lookup_range(Range { start: 40, length: 70 }),
        vec![
            Range { start: 40, length: 10 },
            Range { start: 52, length: 48 },
            Range { start: 50, length: 2 },
            Range { start: 100, length: 10 },
        ]
    );
    assert_eq!(map.lookup_range(Range { start: 60, length: 5 }), vec![Range { start: 62, length: 5 }]);
    assert_eq!(map.lookup_range(Range { start: 0, length: 5 }), vec![Range { start: 0, length: 5 }]);
    assert_eq!(
        map.lookup_range(Range { start: 200, length: 5 }),
        vec![Range { start: 200, length: 5 }]
    );
    assert_eq!(
        map.lookup_range(Range { start: 97, length: 2 }),
        vec![Range { start: 99, length: 1 }, Range { start: 50, length: 1 }]
    );
    assert_eq!(map.lookup_range(Range { start: 60, length: 0 }), vec![]);
}

#[test]
fn the_least_location_of_a_range_of_seeds() {
    let almanac = almanac();
    assert_eq!(almanac.min_location_for_range(Range { start: 79, length: 14 }), 46);
    assert_eq!(almanac.min_location_for_range(Range { start: 55, length: 13 }), 56);
    for (start, length) in [(79usize, 14usize), (55, 13), (0, 100), (90, 15)] {
        let by_seed = (start..start + length).map(|s| almanac.location_for_seed(s)).min().unwrap();
        assert_eq!(almanac.min_location_for_range(Range { start, length }), by_seed);
    }
}

const TEXT: &str = "seeds: 79 14 55 13

seed-to-soil map:
50 98 2
52 50 48

soil-to-fertilizer map:
0 15 37
37 52 2
39 0 15

fertilizer-to-water map:
49 53 8
0 11 42
42 0 7
57 7 4

water-to-light map:
88 18 7
18 25 70

light-to-temperature map:
45 77 23
81 45 19
68 64 13

temperature-to-humidity map:
0 69 1
1 0 69

humidity-to-location map:
60 56 37
56 93 4";

#[test]
fn test_part_2() {
    let data = TEXT;

    assert_eq!(advent2023::day_05::solve_part2(data), Some(46));
}

#[test]
fn the_text_is_read() {
    let puzzle = Puzzle::from(TEXT).unwrap();
    assert_eq!(puzzle.seeds, vec![79, 14, 55, 13]);
    assert_eq!(puzzle.almanac.maps.len(), 7);
    let first = &puzzle.almanac.maps[0].ranges;
    assert_eq!(first.len(), 2);
    assert_eq!((first[0].source_start, first[0].destination_start, first[0].length), (50, 52, 48));
    assert_eq!((first[1].source_start, first[1].destination_start, first[1].length), (98, 50, 2));
    assert_eq!(puzzle.almanac.maps[2].ranges.len(), 4);
    assert_eq!(puzzle.solve_part1(), Some(35));
    let with_feed = format!("{}\n", TEXT);
    assert_eq!(Puzzle::from(&with_feed).unwrap().solve_part2(), Some(46));
}

#[test]
fn texts_out_of_order_are_refused() {
    // Two lines that map one number.
    assert!(Puzzle::from("seeds: 1\n\na map:\n5 10 4\n7 12 4").is_none());
    // A line of two numbers.
    assert!(Puzzle::from("seeds: 1\n\na map:\n5 10").is_none());
    // A line that maps nothing.
    assert!(Puzzle::from("seeds: 1\n\na map:\n5 10 0").is_none());
    // A number that is too large.
    assert!(Puzzle::from("seeds: 99999999999999999999999999").is_none());
    let none = Puzzle::from("seeds:").unwrap();
    assert_eq!(none.solve_part1(), None);
    assert_eq!(none.solve_part2(), None);
    assert_eq!(Puzzle::from("seeds: 3 4 5").unwrap().solve_part2(), None);
    assert_eq!(Puzzle::from("seeds: 3 0").unwrap().solve_part2(), None);
    assert_eq!(Puzzle::from("seeds: 3 2 9 1").unwrap().solve_part2(), Some(3));
}

#[test]
fn lines_are_sorted_into_a_map() {
    let map = Conversion::new(vec![line(0, 30, 5), line(0, 10, 5), line(0, 20, 5)]).unwrap();
    let starts: Vec<usize> = map.ranges.iter().map(|l| l.source_start).collect();
    assert_eq!(starts, vec![10, 20, 30]);
    assert!(Conversion::new(vec![line(0, 10, 11), line(0, 20, 5)]).is_none());
    assert!(Conversion::new(vec![line(0, 10, 10), line(0, 20, 5)]).is_some());
    assert!(Conversion::new(vec![line(0, usize::MAX, 1)]).is_none());
    assert!(Conversion::new(vec![]).is_some());
}

#[test]
fn the_least_locations() {
    assert_eq!(advent2023::day_05::solve_part1(TEXT), Some(35));
    assert_eq!(advent2023::day_05::solve_part2(TEXT), Some(46));
    assert_eq!(advent2023::day_05::solve_part1("seeds:"), None);
}
