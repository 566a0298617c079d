use advent2023::dijkstra::{Dijkstra, Value};
use std::cell::{Cell, RefCell};
use std::collections::HashMap;

#[derive(Clone, Copy, Debug, PartialEq, Eq)]
struct Town(u32);

impl Value for Town {
    fn id(&self) -> u32 {
        self.0
    }
}

/// A state that carries more than its identity.
#[derive(Clone, Debug, PartialEq, Eq)]
struct Tagged {
    place: u32,
    note: &'static str,
}

impl Value for Tagged {
    fn id(&self) -> u32 {
        self.place
    }
}

fn roads(edges: &[(u32, u32, u32)], from: &Town) -> Vec<(Town, u32)> {
    edges.iter().filter(|e| e.0 == from.0).map(|e| (Town(e.1), e.2)).collect()
}

/// The cheapest cost from `origin` to each town, by relaxing every edge as
/// often as there are towns.
fn cheapest(edges: &[(u32, u32, u32)], origin: u32, towns: u32) -> HashMap<u32, u64> {
    let mut best: HashMap<u32, u64> = HashMap::new();
    best.insert(origin, 0);
    for _ in 0..towns {
        for &(a, b, w) in edges {
            if let Some(&d) = best.get(&a) {
                let through = d + w as u64;
                if best.get(&b).map_or(true, |&old| through < old) {
                    best.insert(b, through);
                }
            }
        }
    }
    best
}

const TRIANGLE: [(u32, u32, u32); 3] = [(0, 1, 2), (0, 2, 5), (1, 2, 1)];

#[test]
fn cheaper_way_round_wins() {
    let mut search = Dijkstra::new(Town(0), |t: &Town| t.0 == 2, |t: &Town| roads(&TRIANGLE, t));
    assert_eq!(search.next(), Some((Town(2), 3)));
    assert_eq!(search.next(), None);
}

#[test]
fn origin_that_is_a_goal_costs_nothing() {
    let calls = Cell::new(0u32);
    let mut search = Dijkstra::new(
        Town(7),
        |_t: &Town| true,
        |_t: &Town| {
            calls.set(calls.get() + 1);
            Vec::new()
        },
    );
    assert_eq!(search.next(), Some((Town(7), 0)));
    assert_eq!(calls.get(), 0);
    assert_eq!(search.next(), None);
    assert_eq!(calls.get(), 0);
}

#[test]
fn no_goal_in_five_towns() {
    let edges = [(0, 1, 1), (1, 2, 1), (2, 3, 1), (3, 4, 1), (4, 0, 1), (0, 2, 7), (1, 3, 2)];
    let calls = Cell::new(0u32);
    let mut search = Dijkstra::new(
        Town(0),
        |_t: &Town| false,
        |t: &Town| {
            calls.set(calls.get() + 1);
            roads(&edges, t)
        },
    );
    assert_eq!(search.next(), None);
    assert!(calls.get() <= 5);
    assert_eq!(calls.get(), 5);
}

#[test]
fn exhaustion_is_final() {
    let mut search = Dijkstra::new(Town(0), |t: &Town| t.0 == 2, |t: &Town| roads(&TRIANGLE, t));
    assert!(search.next().is_some());
    for _ in 0..10 {
        assert_eq!(search.next(), None);
    }
}

#[test]
fn costs_never_fall() {
    let edges = [
        (0, 1, 4),
        (0, 2, 1),
        (2, 1, 2),
        (1, 3, 1),
        (2, 3, 5),
        (3, 4, 3),
        (0, 5, 9),
        (5, 6, 1),
        (4, 6, 1),
    ];
    let mut search = Dijkstra::new(Town(0), |t: &Town| t.0 % 2 == 1, |t: &Town| roads(&edges, t));
    let mut found = Vec::new();
    while let Some(result) = search.next() {
        found.push(result);
    }
    assert_eq!(found, vec![(Town(1), 3), (Town(3), 6), (Town(5), 9)]);
    for pair in found.windows(2) {
        assert!(pair[0].1 <= pair[1].1);
    }
}

#[test]
fn all_goals_come_cheapest_first() {
    let edges = [(0, 1, 7), (0, 2, 3), (0, 3, 5), (0, 4, 3), (0, 5, 0)];
    let mut search = Dijkstra::new(Town(0), |t: &Town| t.0 != 0, |t: &Town| roads(&edges, t));
    let mut found = Vec::new();
    while let Some(result) = search.next() {
        found.push(result);
    }
    // Of two towns at one cost the one found first comes first.
    assert_eq!(found, vec![(Town(5), 0), (Town(2), 3), (Town(4), 3), (Town(3), 5), (Town(1), 7)]);
}

#[test]
fn first_result_is_the_true_cheapest_cost() {
    let graphs: [&[(u32, u32, u32)]; 4] = [
        &[(0, 1, 2), (0, 2, 5), (1, 2, 1)],
        &[(0, 1, 10), (0, 2, 1), (2, 3, 1), (3, 1, 1), (1, 4, 1), (2, 4, 9)],
        &[(0, 1, 1), (1, 0, 1), (1, 2, 1), (2, 1, 1), (2, 3, 4), (0, 3, 7), (3, 4, 0), (0, 4, 8)],
        &[(0, 1, 0), (1, 2, 0), (2, 0, 0), (2, 3, 6), (1, 3, 5), (0, 3, 9), (3, 4, 4294967295)],
    ];
    for edges in graphs {
        let best = cheapest(edges, 0, 5);
        for goal in 0..5u32 {
            let mut search =
                Dijkstra::new(Town(0), |t: &Town| t.0 == goal, |t: &Town| roads(edges, t));
            match best.get(&goal) {
                Some(&cost) => assert_eq!(search.next(), Some((Town(goal), cost))),
                None => assert_eq!(search.next(), None),
            }
        }
    }
}

#[test]
fn no_identity_is_expanded_twice() {
    let edges = [
        (0, 1, 1),
        (0, 2, 1),
        (1, 3, 1),
        (2, 3, 1),
        (3, 0, 1),
        (3, 4, 1),
        (1, 4, 5),
        (2, 4, 5),
        (4, 4, 1),
        (4, 0, 2),
    ];
    let seen: RefCell<HashMap<u32, u32>> = RefCell::new(HashMap::new());
    let mut search = Dijkstra::new(
        Town(0),
        |_t: &Town| false,
        |t: &Town| {
            *seen.borrow_mut().entry(t.0).or_insert(0) += 1;
            roads(&edges, t)
        },
    );
    assert_eq!(search.next(), None);
    assert_eq!(seen.borrow().len(), 5);
    for (_, &times) in seen.borrow().iter() {
        assert_eq!(times, 1);
    }
}

#[test]
fn runs_repeat_themselves() {
    let edges = [(0, 1, 2), (0, 2, 2), (1, 3, 2), (2, 3, 2), (2, 4, 2), (1, 4, 2), (3, 5, 1)];
    let run = || {
        let mut search =
            Dijkstra::new(Town(0), |t: &Town| t.0 >= 3, |t: &Town| roads(&edges, t));
        let mut found = Vec::new();
        while let Some(result) = search.next() {
            found.push(result);
        }
        found
    };
    let first = run();
    assert_eq!(first, vec![(Town(3), 4), (Town(4), 4)]);
    assert_eq!(run(), first);
    assert_eq!(run(), first);
}

#[test]
fn states_of_one_identity_are_one_node() {
    // Both ways lead to place 1; the dearer one is stale when its turn comes.
    let mut search = Dijkstra::new(
        Tagged { place: 0, note: "start" },
        |t: &Tagged| t.place == 2,
        |t: &Tagged| match t.place {
            0 => vec![
                (Tagged { place: 1, note: "dear" }, 9),
                (Tagged { place: 1, note: "cheap" }, 1),
            ],
            1 => vec![(Tagged { place: 2, note: t.note }, 1)],
            _ => Vec::new(),
        },
    );
    assert_eq!(search.next(), Some((Tagged { place: 2, note: "cheap" }, 2)));
    assert_eq!(search.next(), None);
}

#[test]
fn the_dearest_transitions_add_up() {
    let edges = [(0, 1, u32::MAX), (1, 2, u32::MAX), (2, 3, u32::MAX)];
    let mut search = Dijkstra::new(Town(0), |t: &Town| t.0 == 3, |t: &Town| roads(&edges, t));
    assert_eq!(search.next(), Some((Town(3), 3 * (u32::MAX as u64))));
}
