use advent2023::day_19::{Condition, Part, PartRange, Sorter, Span, Target, Workflow};

fn part(x: usize, m: usize, a: usize, s: usize) -> Part {
    Part { x, m, a, s }
}

/// The sorter of the puzzle text, its workflows numbered in the order of the
/// text: px 0, pv 1, lnx 2, rfg 3, qs 4, qkq 5, crn 6, in 7, qqz 8, gd 9, hdj 10.
fn sorter() -> Sorter {
    let w = |predicates: Vec<(Condition, Target)>| Workflow { predicates };
    let to = Target::Workflow;
    let (a, r) = (Target::Accepted, Target::Rejected);
    Sorter {
        workflows: vec![
            w(vec![(Condition::ALess(2006), to(5)), (Condition::MGreater(2090), a), (Condition::Always, to(3))]),
            w(vec![(Condition::AGreater(1716), r), (Condition::Always, a)]),
            w(vec![(Condition::MGreater(1548), a), (Condition::Always, a)]),
            w(vec![(Condition::SLess(537), to(9)), (Condition::XGreater(2440), r), (Condition::Always, a)]),
            w(vec![(Condition::SGreater(3448), a), (Condition::Always, to(2))]),
            w(vec![(Condition::XLess(1416), a), (Condition::Always, to(6))]),
            w(vec![(Condition::XGreater(2662), a), (Condition::Always, r)]),
            w(vec![(Condition::SLess(1351), to(0)), (Condition::Always, to(8))]),
            w(vec![(Condition::SGreater(2770), to(4)), (Condition::MLess(1801), to(10)), (Condition::Always, r)]),
            w(vec![(Condition::AGreater(3333), r), (Condition::Always, r)]),
            w(vec![(Condition::MGreater(838), a), (Condition::Always, to(1))]),
        ],
        entry: 7,
    }
}

#[test]
fn ratings_add_up() {
    assert_eq!(part(787, 2655, 1222, 2876).rating(), 7540);
    assert_eq!(part(0, 0, 0, 0).rating(), 0);
}

#[test]
fn conditions_test_one_rating() {
    let p = part(10, 20, 30, 40);
    assert!(Condition::XLess(11).applies(p));
    assert!(!Condition::XLess(10).applies(p));
    assert!(Condition::XGreater(9).applies(p));
    assert!(!Condition::XGreater(10).applies(p));
    assert!(Condition::MLess(21).applies(p));
    assert!(!Condition::MGreater(20).applies(p));
    assert!(Condition::ALess(31).applies(p));
    assert!(Condition::AGreater(29).applies(p));
    assert!(!Condition::SLess(40).applies(p));
    assert!(Condition::SGreater(39).applies(p));
    assert!(Condition::Always.applies(p));
}

#[test]
fn a_workflow_takes_the_first_rule_that_fits() {
    let flow = Workflow {
        predicates: vec![
            (Condition::XGreater(10), Target::Workflow(1)),
            (Condition::MLess(20), Target::Workflow(2)),
            (Condition::AGreater(30), Target::Rejected),
            (Condition::Always, Target::Accepted),
        ],
    };
    assert_eq!(flow.apply(part(11, 0, 99, 0)), Target::Workflow(1));
    assert_eq!(flow.apply(part(10, 19, 99, 0)), Target::Workflow(2));
    assert_eq!(flow.apply(part(10, 20, 31, 0)), Target::Rejected);
    assert_eq!(flow.apply(part(10, 20, 30, 0)), Target::Accepted);
}

#[test]
fn parts_are_sorted() {
    let sorter = sorter();
    let parts = [
        (part(787, 2655, 1222, 2876), true),
        (part(1679, 44, 2067, 496), false),
        (part(2036, 264, 79, 2244), true),
        (part(2461, 1339, 466, 291), false),
        (part(2127, 1623, 2188, 1013), true),
    ];
    let mut sum = 0;
    for (p, accepted) in parts {
        assert_eq!(sorter.part_accepted(p), accepted);
        if accepted {
            sum += p.rating();
        }
    }
    assert_eq!(sum, 19114);
}

#[test]
fn a_part_that_goes_round_is_not_accepted() {
    let round = Sorter {
        workflows: vec![
            Workflow { predicates: vec![(Condition::XLess(5), Target::Accepted), (Condition::Always, Target::Workflow(1))] },
            Workflow { predicates: vec![(Condition::Always, Target::Workflow(0))] },
        ],
        entry: 0,
    };
    assert!(round.part_accepted(part(1, 1, 1, 1)));
    assert!(!round.part_accepted(part(9, 1, 1, 1)));
    let ranges = round.accepted_ranges();
    assert_eq!(ranges.iter().map(PartRange::combinations).sum::<usize>(), 4 * 4000 * 4000 * 4000);
}

#[test]
fn ranges_split_at_the_limit() {
    let all = PartRange::new();
    assert_eq!(all.x, Span { start: 1, end: 4000 });
    assert_eq!(all.combinations(), 256_000_000_000_000);
    assert_eq!(all.split_condition(Condition::Always), (Some(all), None));
    let (low, high) = all.split_condition(Condition::MLess(1801));
    assert_eq!(low, Some(PartRange { m: Span { start: 1, end: 1800 }, ..all }));
    assert_eq!(high, Some(PartRange { m: Span { start: 1801, end: 4000 }, ..all }));
    let (high, low) = all.split_condition(Condition::SGreater(2770));
    assert_eq!(high, Some(PartRange { s: Span { start: 2771, end: 4000 }, ..all }));
    assert_eq!(low, Some(PartRange { s: Span { start: 1, end: 2770 }, ..all }));
    assert_eq!(all.split_condition(Condition::XLess(1)), (None, Some(all)));
    assert_eq!(all.split_condition(Condition::XLess(2)).0.unwrap().combinations(), 64_000_000_000);
    assert_eq!(all.split_condition(Condition::XLess(4001)), (Some(all), None));
    assert_eq!(all.split_condition(Condition::AGreater(4000)), (None, Some(all)));
    assert_eq!(all.split_condition(Condition::AGreater(0)), (Some(all), None));
    assert_eq!(all.split_condition(Condition::AGreater(usize::MAX)), (None, Some(all)));
    assert_eq!(all.split_condition(Condition::XLess(0)), (None, Some(all)));
}

#[test]
fn accepted_ranges_hold_the_accepted_parts() {
    let sorter = sorter();
    let ranges = sorter.accepted_ranges();
    let total: usize = ranges.iter().map(PartRange::combinations).sum();
    assert_eq!(total, 167409079868000);
    let inside = |p: Part| {
        ranges
            .iter()
            .filter(|r| {
                r.x.start <= p.x && p.x <= r.x.end && r.m.start <= p.m && p.m <= r.m.end
                    && r.a.start <= p.a && p.a <= r.a.end && r.s.start <= p.s && p.s <= r.s.end
            })
            .count()
    };
    for x in [1usize, 1415, 1416, 2440, 2441, 2662, 2663, 4000] {
        for m in [1usize, 838, 839, 1548, 1800, 1801, 2090, 2091, 4000] {
            for a in [1usize, 1716, 1717, 2005, 2006, 3333, 4000] {
                for s in [1usize, 536, 537, 1350, 1351, 2770, 2771, 3448, 3449, 4000] {
                    let p = part(x, m, a, s);
                    assert_eq!(inside(p), if sorter.part_accepted(p) { 1 } else { 0 });
                }
            }
        }
    }
}

const SYSTEM: &str = "px{a<2006:qkq,m>2090:A,rfg}
pv{a>1716:R,A}
lnx{m>1548:A,A}
rfg{s<537:gd,x>2440:R,A}
qs{s>3448:A,lnx}
qkq{x<1416:A,crn}
crn{x>2662:A,R}
in{s<1351:px,qqz}
qqz{s>2770:qs,m<1801:hdj,R}
gd{a>3333:R,R}
hdj{m>838:A,pv}";

const PARTS: &str = "{x=787,m=2655,a=1222,s=2876}
{x=1679,m=44,a=2067,s=496}
{x=2036,m=264,a=79,s=2244}
{x=2461,m=1339,a=466,s=291}
{x=2127,m=1623,a=2188,s=1013}";

#[test]
fn the_system_is_read() {
    let read = Sorter::from(SYSTEM).unwrap();
    let built = sorter();
    assert_eq!(read.entry, built.entry);
    assert_eq!(read.workflows.len(), built.workflows.len());
    for (a, b) in read.workflows.iter().zip(built.workflows.iter()) {
        assert_eq!(a.predicates, b.predicates);
    }
    let sum: usize = PARTS
        .lines()
        .map(|line| Part::from(line.as_bytes(), 0, line.len()).unwrap())
        .filter(|part| read.part_accepted(*part))
        .map(Part::rating)
        .sum();
    assert_eq!(sum, 19114);
    let total: usize = read.accepted_ranges().iter().map(PartRange::combinations).sum();
    assert_eq!(total, 167409079868000);
}

#[test]
fn texts_out_of_form_are_refused() {
    assert!(Sorter::from("").is_none());
    assert!(Sorter::from("px{A}").is_none());
    assert!(Sorter::from("in{px}").is_none());
    assert!(Sorter::from("in{a<5:A}").is_none());
    assert!(Sorter::from("in{a<5:A,R").is_none());
    assert!(Sorter::from("in{a<5A,R}").is_none());
    assert!(Sorter::from("in{q<5:A,R}").is_none());
    assert!(Sorter::from("in{a=5:A,R}").is_none());
    assert!(Sorter::from("in{R,A}").is_none());
    assert!(Sorter::from("in{a<99999999999999999999999:A,R}").is_none());
    let small = Sorter::from("in{a<5:A,R}\n").unwrap();
    assert_eq!(small.workflows.len(), 1);
    assert_eq!(
        small.workflows[0].predicates,
        vec![(Condition::ALess(5), Target::Accepted), (Condition::Always, Target::Rejected)]
    );
    let read = |text: &str| Part::from(text.as_bytes(), 0, text.len());
    assert_eq!(read("{x=1,m=2,a=3,s=4}"), Some(part(1, 2, 3, 4)));
    assert_eq!(read("{s=4,x=1}"), Some(part(1, 0, 0, 4)));
    assert_eq!(read("{}"), Some(part(0, 0, 0, 0)));
    assert_eq!(read("{x=1,x=2}"), Some(part(2, 0, 0, 0)));
    assert_eq!(read("x=1"), None);
    assert_eq!(read("{x=1"), None);
    assert_eq!(read("{q=1}"), None);
    assert_eq!(read("{x=}"), None);
    assert_eq!(read("{x=1,}"), Some(part(1, 0, 0, 0)));
    assert_eq!(read("{x=1;m=2}"), None);
    assert_eq!(read(""), None);
    assert_eq!(Condition::from(b'x', b'<', 7), Some(Condition::XLess(7)));
    assert_eq!(Condition::from(b's', b'>', 7), Some(Condition::SGreater(7)));
    assert_eq!(Condition::from(b'q', b'>', 7), None);
    assert_eq!(Condition::from(b'x', b'=', 7), None);
}

#[test]
fn parts_through_the_text() {
    let text = format!("{SYSTEM}\n\n{PARTS}");
    assert_eq!(advent2023::day_19::solve_part1(&text), Some(19114));
    assert_eq!(advent2023::day_19::solve_part2(&text), Some(167409079868000));
    assert_eq!(advent2023::day_19::solve_part2(SYSTEM), Some(167409079868000));
    assert_eq!(advent2023::day_19::solve_part1(SYSTEM), None);
    assert_eq!(advent2023::day_19::solve_part1("in{A}\n\n{x=1,m=2,a=3,s=4}\n{x=5}"), Some(15));
    assert_eq!(advent2023::day_19::solve_part1("in{R}\n\n{x=1,m=2,a=3,s=4}"), Some(0));
    assert_eq!(advent2023::day_19::solve_part2("in{R}"), Some(0));
    assert_eq!(advent2023::day_19::solve_part2("in{x<11:A,R}"), Some(10 * 4000 * 4000 * 4000));
    let none = PartRange { x: Span { start: 5, end: 4 }, m: Span { start: 1, end: 2 }, a: Span { start: 1, end: 1 }, s: Span { start: 1, end: 1 } };
    assert_eq!(none.try_combinations(), Some(0));
    let all = Span { start: 0, end: usize::MAX };
    assert_eq!(PartRange { x: all, m: all, a: all, s: all }.try_combinations(), None);
    assert_eq!(PartRange::new().try_combinations(), Some(4000 * 4000 * 4000 * 4000));
}
