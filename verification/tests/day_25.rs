use advent2023::day_25::Contraption;

#[test]
fn test_split() {
    let mut con = Contraption::from(
        "jqt: rhn xhk nvd
rsh: frs pzl lsr
xhk: hfx
cmg: qnr nvd lhk bvb
rhn: xhk bvb hfx
bvb: xhk hfx
pzl: lsr hfx nvd
qnr: nvd
ntq: jqt hfx bvb xhk
nvd: lhk
lsr: lhk
rzs: qnr cmg lsr rsh
frs: qnr lhk lsr",
    );

    assert_eq!((9, 6), con.split());
}

#[test]
fn components_are_counted_once() {
    let con = Contraption::from("a: b c\nb: c a\nc: a");
    assert_eq!(con.len(), 3);
    assert_eq!(Contraption::from("").len(), 0);
    assert_eq!(Contraption::from("solo").len(), 1);
}

#[test]
fn two_components_split_one_to_one() {
    let mut con = Contraption::from("a: b");
    assert_eq!(con.split(), (1, 1));
    assert_eq!(con.len(), 1);
}

#[test]
fn fewer_than_two_components_do_not_split() {
    assert_eq!(Contraption::from("").split(), (0, 0));
    assert_eq!(Contraption::from("lonely").split(), (0, 0));
}

#[test]
fn a_chain_is_cut_at_a_single_wire() {
    // Two triangles joined by one wire.
    let mut con = Contraption::from("a: b c\nb: c\nc: d\nd: e f\ne: f");
    let (left, right) = con.split();
    assert_eq!((left, right), (3, 3));
}

#[test]
fn parts_without_a_wire_between_them_are_cut_there() {
    let mut con = Contraption::from("a: b\nc: d\nd: e");
    let (left, right) = con.split();
    assert_eq!(left + right, 5);
    assert_eq!((left, right), (2, 3));
}

#[test]
fn the_product_of_the_groups() {
    let diagram = "jqt: rhn xhk nvd
rsh: frs pzl lsr
xhk: hfx
cmg: qnr nvd lhk bvb
rhn: xhk bvb hfx
bvb: xhk hfx
pzl: lsr hfx nvd
qnr: nvd
ntq: jqt hfx bvb xhk
nvd: lhk
lsr: lhk
rzs: qnr cmg lsr rsh
frs: qnr lhk lsr";
    assert_eq!(advent2023::day_25::solve_part1(diagram), Some(54));
    assert_eq!(advent2023::day_25::solve_part1(""), Some(0));
    assert_eq!(advent2023::day_25::solve_part1(&"a".repeat(0x1_0000)), None);
}

#[test]
fn wires_are_read_once_and_never_to_itself() {
    // The same wire said twice, both ways, and a component named with itself.
    let mut con = Contraption::from("a: b b a\nb: a\nc: a");
    assert_eq!(con.len(), 3);
    assert_eq!(con.split(), (2, 1));
    // A line feed ends the line: `d` begins one and is wired to nothing, so
    // that no wire is cut where it is parted from the other three.
    let mut con = Contraption::from("a: b\nd\nb: c");
    assert_eq!(con.len(), 4);
    assert_eq!(con.split(), (1, 3));
}
