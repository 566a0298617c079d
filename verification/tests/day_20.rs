use advent2023::day_20::{Array, FlipFlopState, Module, Pulse};

const FIRST: &str = "broadcaster -> a, b, c\n%a -> b\n%b -> c\n%c -> inv\n&inv -> a";

const SECOND: &str = "broadcaster -> a\n%a -> inv, con\n&inv -> b\n%b -> con\n&con -> output";

#[test]
fn flip_flops_toggle() {
    let mut state = FlipFlopState::Off;
    assert_eq!(state.toggle(), Pulse::High);
    assert_eq!(state, FlipFlopState::On);
    assert_eq!(state.toggle(), Pulse::Low);
    assert_eq!(state, FlipFlopState::Off);
}

#[test]
fn modules_take_pulses() {
    let mut module = Module::Broadcast;
    assert_eq!(module.process_pulse(Pulse::High, 3), Some(Pulse::High));
    assert_eq!(module.process_pulse(Pulse::Low, 3), Some(Pulse::Low));

    let mut module = Module::FlipFlop(FlipFlopState::Off);
    assert_eq!(module.process_pulse(Pulse::High, 0), None);
    assert!(matches!(module, Module::FlipFlop(FlipFlopState::Off)));
    assert_eq!(module.process_pulse(Pulse::Low, 0), Some(Pulse::High));
    assert!(matches!(module, Module::FlipFlop(FlipFlopState::On)));
    assert_eq!(module.process_pulse(Pulse::Low, 0), Some(Pulse::Low));

    let mut module = Module::Conjunction(vec![Some(Pulse::Low), None, Some(Pulse::Low)]);
    assert_eq!(module.process_pulse(Pulse::High, 0), Some(Pulse::High));
    assert_eq!(module.process_pulse(Pulse::High, 2), Some(Pulse::Low));
    assert_eq!(module.process_pulse(Pulse::Low, 0), Some(Pulse::High));
    // A source that was not known is remembered from then on.
    assert_eq!(module.process_pulse(Pulse::High, 0), Some(Pulse::Low));
    assert_eq!(module.process_pulse(Pulse::Low, 5), Some(Pulse::High));
    assert_eq!(module.process_pulse(Pulse::High, 5), Some(Pulse::Low));
    match module {
        Module::Conjunction(stored) => assert_eq!(
            stored,
            vec![Some(Pulse::High), None, Some(Pulse::High), None, None, Some(Pulse::High)]
        ),
        _ => panic!("a conjunction stays one"),
    }
}

#[test]
fn a_machine_is_read() {
    let array = Array::from(FIRST).unwrap();
    let names: Vec<&[u8]> = array.names.iter().map(|name| name.as_slice()).collect();
    let expected: Vec<&[u8]> = vec![b"broadcaster", b"a", b"b", b"c", b"inv", b"button"];
    assert_eq!(names, expected);
    assert_eq!(array.destinations, vec![vec![1, 2, 3], vec![2], vec![3], vec![4], vec![1], vec![0]]);
    assert_eq!(array.button, 5);
    assert_eq!(array.watched, None);
    assert_eq!((array.low_pulses, array.high_pulses), (0, 0));
    assert!(matches!(array.modules[0], Some(Module::Broadcast)));
    assert!(matches!(array.modules[1], Some(Module::FlipFlop(FlipFlopState::Off))));
    match &array.modules[4] {
        Some(Module::Conjunction(stored)) => {
            assert_eq!(stored, &vec![None, None, None, Some(Pulse::Low), None])
        }
        _ => panic!("inv is a conjunction"),
    }
    assert!(array.modules[5].is_none());

    assert!(Array::from("broadcaster a").is_none());
    assert!(Array::from("broadcaster -> a\n\n%a -> b").is_none());
    assert!(Array::from("a -> b").is_none());
    assert!(Array::from(" -> b").is_none());
}

#[test]
fn modules_without_a_line_only_count() {
    let mut array = Array::from(SECOND).unwrap();
    let output = array.names.iter().position(|name| name == b"output").unwrap();
    assert!(array.modules[output].is_none());
    assert_eq!(array.push_button(100), Some(None));
    assert_eq!((array.low_pulses, array.high_pulses), (4, 4));
    assert_eq!(array.push_button(100), Some(None));
    assert_eq!((array.low_pulses, array.high_pulses), (8, 6));
    assert_eq!(array.push_button(100), Some(None));
    assert_eq!((array.low_pulses, array.high_pulses), (13, 9));
    assert_eq!(array.push_button(100), Some(None));
    assert_eq!((array.low_pulses, array.high_pulses), (17, 11));
}

#[test]
fn a_thousand_presses() {
    let mut array = Array::from(FIRST).unwrap();
    assert_eq!(array.push_button(12), Some(None));
    assert_eq!((array.low_pulses, array.high_pulses), (8, 4));
    for _ in 1..1000 {
        assert_eq!(array.push_button(1000), Some(None));
    }
    assert_eq!((array.low_pulses, array.high_pulses), (8000, 4000));

    let mut array = Array::from(SECOND).unwrap();
    for _ in 0..1000 {
        assert_eq!(array.push_button(1000), Some(None));
    }
    assert_eq!((array.low_pulses, array.high_pulses), (4250, 2750));
    assert_eq!(array.low_pulses * array.high_pulses, 11_687_500);
}

#[test]
fn a_budget_that_does_not_suffice() {
    let mut array = Array::from(FIRST).unwrap();
    assert_eq!(array.push_button(11), None);
    let mut array = Array::from(FIRST).unwrap();
    assert_eq!(array.push_button(0), None);

    // A broadcaster that is wired to itself never comes to rest.
    let mut array = Array::from("broadcaster -> broadcaster").unwrap();
    assert_eq!(array.push_button(10_000), None);

    // Nothing is wired to the button's broadcaster where no line is for it.
    let mut array = Array::from("%a -> b").unwrap();
    assert_eq!(array.push_button(1), Some(None));
    assert_eq!((array.low_pulses, array.high_pulses), (1, 0));
}

#[test]
fn high_pulses_to_the_watched_module_are_noted() {
    let mut array = Array::from("broadcaster -> a\n%a -> kc\n&kc -> out").unwrap();
    let a = array.names.iter().position(|name| name == b"a").unwrap();
    let kc = array.names.iter().position(|name| name == b"kc").unwrap();
    assert_eq!(array.watched, Some(kc));
    assert_eq!(array.push_button(100), Some(Some(a)));
    assert_eq!((array.low_pulses, array.high_pulses), (3, 1));
    assert_eq!(array.push_button(100), Some(None));
    assert_eq!((array.low_pulses, array.high_pulses), (6, 2));
    assert_eq!(array.push_button(100), Some(Some(a)));
}

#[test]
fn presses_through_the_text() {
    assert_eq!(advent2023::day_20::solve_part1(FIRST), Some(32000000));
    assert_eq!(advent2023::day_20::solve_part1(SECOND), Some(11687500));
    assert_eq!(advent2023::day_20::solve_part1("x"), None);
    assert_eq!(advent2023::day_20::solve_part2("x"), None);
    // Four flip-flops count the presses, and each tells the watched module when it goes on.
    let counter = "broadcaster -> f1\n%f1 -> f2, kc\n%f2 -> f3, kc\n%f3 -> f4, kc\n%f4 -> kc\n&kc -> out";
    assert_eq!(advent2023::day_20::solve_part2(counter), Some(8));
}
