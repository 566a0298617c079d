use advent2023::day_15::{hash, LightArray, Operation, OperationKind};

const STEPS: &str = "rn=1,cm-,qp=3,cm=2,qp-,pc=4,ot=9,ab=5,pc-,pc=6,ot=7";

#[test]
fn steps_are_hashed_and_summed() {
    assert_eq!(STEPS.split(',').map(hash).sum::<usize>(), 1320);
}

#[test]
fn steps_are_read() {
    let op = Operation::from("rn=1").unwrap();
    assert_eq!(op.label, "rn");
    assert_eq!(op.kind, OperationKind::Equals(1));
    let op = Operation::from("cm-").unwrap();
    assert_eq!(op.label, "cm");
    assert_eq!(op.kind, OperationKind::Dash);
    let op = Operation::from("long=1234567").unwrap();
    assert_eq!(op.label, "long");
    assert_eq!(op.kind, OperationKind::Equals(1234567));
    let op = Operation::from("a=b=7").unwrap_or(Operation { label: String::new(), kind: OperationKind::Dash });
    assert_eq!(op.label, "");
    let op = Operation::from("=7").unwrap();
    assert_eq!(op.label, "");
    assert_eq!(op.kind, OperationKind::Equals(7));
    let op = Operation::from("a=-").unwrap();
    assert_eq!(op.label, "a=");
    assert_eq!(op.kind, OperationKind::Dash);
    assert!(Operation::from("rn").is_none());
    assert!(Operation::from("rn=").is_none());
    assert!(Operation::from("rn=x").is_none());
    assert!(Operation::from("rn=1x").is_none());
    assert!(Operation::from("rn=99999999999999999999999").is_none());
    assert!(Operation::from("").is_none());
}

#[test]
fn lenses_fill_the_boxes() {
    let mut array = LightArray::default();
    assert_eq!(array.focusing_power(), Some(0));
    for step in STEPS.split(',') {
        array.apply_operation(Operation::from(step).unwrap());
    }
    assert_eq!(array.focusing_power(), Some(145));
}

#[test]
fn a_lens_keeps_its_slot() {
    let step = |label: &str, kind| Operation { label: label.to_string(), kind };
    let mut array = LightArray::default();
    // rn and cm both hash to 0.
    array.apply_operation(step("rn", OperationKind::Equals(1)));
    array.apply_operation(step("cm", OperationKind::Equals(2)));
    assert_eq!(array.focusing_power(), Some(1 * 1 * 1 + 1 * 2 * 2));
    array.apply_operation(step("rn", OperationKind::Equals(9)));
    assert_eq!(array.focusing_power(), Some(1 * 1 * 9 + 1 * 2 * 2));
    array.apply_operation(step("rn", OperationKind::Dash));
    assert_eq!(array.focusing_power(), Some(1 * 1 * 2));
    array.apply_operation(step("rn", OperationKind::Dash));
    assert_eq!(array.focusing_power(), Some(1 * 1 * 2));
    array.apply_operation(step("rn", OperationKind::Equals(3)));
    assert_eq!(array.focusing_power(), Some(1 * 1 * 2 + 1 * 2 * 3));
    // qp hashes to 1.
    array.apply_operation(step("qp", OperationKind::Equals(5)));
    assert_eq!(array.focusing_power(), Some(1 * 1 * 2 + 1 * 2 * 3 + 2 * 1 * 5));
    array.apply_operation(step("qp", OperationKind::Equals(usize::MAX)));
    assert_eq!(array.focusing_power(), None);
    array.apply_operation(step("qp", OperationKind::Equals(0)));
    assert_eq!(array.focusing_power(), Some(1 * 1 * 2 + 1 * 2 * 3));
}

#[test]
fn steps_through_the_text() {
    assert_eq!(advent2023::day_15::solve_part1(STEPS), Some(1320));
    assert_eq!(advent2023::day_15::solve_part2(STEPS), Some(145));
    assert_eq!(advent2023::day_15::solve_part1("HASH"), Some(52));
    assert_eq!(advent2023::day_15::solve_part1(""), Some(0));
    assert_eq!(advent2023::day_15::solve_part1(","), Some(0));
    assert_eq!(advent2023::day_15::solve_part1("HASH,,HASH"), Some(104));
    assert_eq!(advent2023::day_15::solve_part2("rn=1,"), None);
    assert_eq!(advent2023::day_15::solve_part2("rn=1"), Some(1));
}
