//! Pulses that run through a machine of modules, one press of the button at
//! a time.

use crate::text::{copy, intern, lemma_seek, lines, lookup, rows_of, seek, split_lines};
use std::collections::VecDeque;
use vstd::prelude::*;
use vstd::slice::*;
use vstd::string::*;

verus! {

#[derive(Clone, Copy, Debug, PartialEq, Eq, Structural)]
pub enum Pulse {
    High,
    Low,
}

#[derive(Clone, Copy, Debug, PartialEq, Eq, Structural)]
pub enum FlipFlopState {
    On,
    Off,
}

impl FlipFlopState {
    /// The other state.
    pub open spec fn toggled(self) -> Self {
        match self {
            FlipFlopState::On => FlipFlopState::Off,
            FlipFlopState::Off => FlipFlopState::On,
        }
    }

    /// What a flip-flop sends when it has come into this state.
    pub open spec fn sends(self) -> Pulse {
        match self {
            FlipFlopState::On => Pulse::High,
            FlipFlopState::Off => Pulse::Low,
        }
    }

    /// Goes over to the other state and says what is sent from there.
    pub fn toggle(&mut self) -> (r: Pulse)
        ensures
            *final(self) == old(self).toggled(),
            r == old(self).toggled().sends(),
    {
        match *self {
            FlipFlopState::On => {
                *self = FlipFlopState::Off;
                Pulse::Low
            },
            FlipFlopState::Off => {
                *self = FlipFlopState::On;
                Pulse::High
            },
        }
    }
}

/// A module of the machine. A conjunction keeps, under the number of each
/// module that has sent to it or is wired to it, the last pulse from there.
pub enum Module {
    Broadcast,
    FlipFlop(FlipFlopState),
    Conjunction(Vec<Option<Pulse>>),
}

/// What a module is: a conjunction by the pulses it remembers, each under the
/// number of the module that it came from.
pub ghost enum Circuit {
    Broadcast,
    FlipFlop(FlipFlopState),
    Conjunction(Map<usize, Pulse>),
}

/// The pulses that are kept, each under its place.
pub open spec fn remembered(stored: Seq<Option<Pulse>>) -> Map<usize, Pulse> {
    Map::new(|k: usize| k < stored.len() && stored[k as int] is Some, |k: usize| stored[k as int].unwrap())
}

/// Every pulse that is remembered is high.
pub open spec fn all_high(stored: Map<usize, Pulse>) -> bool {
    forall|k: usize| stored.contains_key(k) ==> #[trigger] stored[k] == Pulse::High
}

impl Circuit {
    /// The module after a pulse from `source` has come in, and what it sends
    /// on. A broadcaster sends the pulse on. A flip-flop lets a high pulse
    /// pass without a word, and toggles at a low one. A conjunction remembers
    /// the pulse, and sends a low one where all it remembers is high.
    pub open spec fn process(self, pulse: Pulse, source: usize) -> (Circuit, Option<Pulse>) {
        match self {
            Circuit::Broadcast => (self, Some(pulse)),
            Circuit::FlipFlop(state) => if pulse == Pulse::High {
                (self, None)
            } else {
                (Circuit::FlipFlop(state.toggled()), Some(state.toggled().sends()))
            },
            Circuit::Conjunction(stored) => {
                let kept = stored.insert(source, pulse);
                (
                    Circuit::Conjunction(kept),
                    Some(
                        if all_high(kept) {
                            Pulse::Low
                        } else {
                            Pulse::High
                        },
                    ),
                )
            },
        }
    }
}

impl View for Module {
    type V = Circuit;

    open spec fn view(&self) -> Circuit {
        match self {
            Module::Broadcast => Circuit::Broadcast,
            Module::FlipFlop(state) => Circuit::FlipFlop(*state),
            Module::Conjunction(stored) => Circuit::Conjunction(remembered(stored@)),
        }
    }
}

/// Keeps `pulse` at the place `source`, and says whether all that is kept is
/// high.
fn remember(stored: &mut Vec<Option<Pulse>>, pulse: Pulse, source: usize) -> (r: bool)
    ensures
        remembered(final(stored)@) == remembered(old(stored)@).insert(source, pulse),
        r == all_high(remembered(final(stored)@)),
{
    let ghost before = stored@;
    while stored.len() <= source
        invariant
            before.len() <= stored@.len(),
            forall|k: int| 0 <= k < before.len() ==> stored@[k] == before[k],
            forall|k: int| before.len() <= k < stored@.len() ==> stored@[k] is None,
        decreases source + 1 - stored@.len(),
    {
        stored.push(None);
    }
    proof {
        assert(remembered(stored@) =~= remembered(before));
    }
    let ghost grown = stored@;
    stored.set(source, Some(pulse));
    proof {
        assert(remembered(stored@) =~= remembered(grown).insert(source, pulse));
    }
    let mut i: usize = 0;
    while i < stored.len()
        invariant
            i <= stored@.len(),
            remembered(stored@) == remembered(old(stored)@).insert(source, pulse),
            forall|k: int| 0 <= k < i ==> stored@[k] != Some(Pulse::Low),
        decreases stored@.len() - i,
    {
        match stored[i] {
            Some(Pulse::Low) => {
                proof {
                    assert(remembered(stored@).contains_key(i));
                    assert(remembered(stored@)[i] == Pulse::Low);
                }
                return false;
            },
            _ => {},
        }
        i = i + 1;
    }
    true
}

impl Module {
    /// Takes a pulse from the module `source` and says what is sent on.
    pub fn process_pulse(&mut self, pulse: Pulse, source: usize) -> (r: Option<Pulse>)
        ensures
            (final(self)@, r) == old(self)@.process(pulse, source),
    {
        match self {
            Module::Broadcast => Some(pulse),
            Module::FlipFlop(state) => match pulse {
                Pulse::High => None,
                Pulse::Low => Some(state.toggle()),
            },
            Module::Conjunction(stored) => {
                if remember(stored, pulse, source) {
                    Some(Pulse::Low)
                } else {
                    Some(Pulse::High)
                }
            },
        }
    }
}

/// A pulse on its way from one module to another.
pub ghost struct Sent {
    pub source: usize,
    pub target: usize,
    pub pulse: Pulse,
}

/// What has come of the presses so far: the modules, how many low and high
/// pulses were sent, and the module that last sent a high pulse to the
/// module that is watched.
pub ghost struct Tally {
    pub circuits: Seq<Option<Circuit>>,
    pub low: nat,
    pub high: nat,
    pub found: Option<usize>,
}

/// The pulses that leave the module `source` when it sends `pulse`: one to
/// each module that it is wired to, in the order of the wires.
pub open spec fn fan(wires: Seq<Seq<usize>>, source: usize, pulse: Pulse) -> Seq<Sent> {
    if source < wires.len() {
        Seq::new(
            wires[source as int].len(),
            |k: int| Sent { source, target: wires[source as int][k], pulse },
        )
    } else {
        Seq::empty()
    }
}

/// The pulses that are on their way when the modules of `notes` have each
/// sent the pulse that is noted beside them.
pub open spec fn waiting(wires: Seq<Seq<usize>>, notes: Seq<(usize, Pulse)>) -> Seq<Sent>
    decreases notes.len(),
{
    if notes.len() == 0 {
        Seq::empty()
    } else {
        fan(wires, notes[0].0, notes[0].1) + waiting(wires, notes.drop_first())
    }
}

/// A pulse arrives: it is counted; where it is high and goes to the module
/// that is watched, its source is noted; and the module that it goes to, if
/// there is one, takes it and may send pulses of its own.
pub open spec fn arrive(
    wires: Seq<Seq<usize>>,
    watched: Option<usize>,
    tally: Tally,
    sent: Sent,
) -> (Tally, Seq<Sent>) {
    let counted = Tally {
        circuits: tally.circuits,
        low: if sent.pulse == Pulse::Low {
            tally.low + 1
        } else {
            tally.low
        },
        high: if sent.pulse == Pulse::High {
            tally.high + 1
        } else {
            tally.high
        },
        found: if sent.pulse == Pulse::High && watched == Some(sent.target) {
            Some(sent.source)
        } else {
            tally.found
        },
    };
    if sent.target < tally.circuits.len() && tally.circuits[sent.target as int] is Some {
        let taken = tally.circuits[sent.target as int].unwrap().process(sent.pulse, sent.source);
        (
            Tally { circuits: tally.circuits.update(sent.target as int, Some(taken.0)), ..counted },
            match taken.1 {
                Some(pulse) => fan(wires, sent.target, pulse),
                None => Seq::empty(),
            },
        )
    } else {
        (counted, Seq::empty())
    }
}

/// The pulses of `queue` arrive one after the other, each followed in time
/// by the pulses that it sets off, until none is on its way. `None` where
/// more than `fuel` pulses arrive.
pub open spec fn run(
    wires: Seq<Seq<usize>>,
    watched: Option<usize>,
    tally: Tally,
    queue: Seq<Sent>,
    fuel: nat,
) -> Option<Tally>
    decreases fuel,
{
    if queue.len() == 0 {
        Some(tally)
    } else if fuel == 0 {
        None
    } else {
        let next = arrive(wires, watched, tally, queue[0]);
        run(wires, watched, next.0, queue.skip(1) + next.1, (fuel - 1) as nat)
    }
}

proof fn lemma_waiting_push(wires: Seq<Seq<usize>>, notes: Seq<(usize, Pulse)>, note: (usize, Pulse))
    ensures
        waiting(wires, notes.push(note)) == waiting(wires, notes) + fan(wires, note.0, note.1),
    decreases notes.len(),
{
    if notes.len() == 0 {
        assert(notes.push(note).drop_first() =~= notes);
        assert(waiting(wires, notes.push(note)) =~= waiting(wires, notes) + fan(
            wires,
            note.0,
            note.1,
        ));
    } else {
        lemma_waiting_push(wires, notes.drop_first(), note);
        assert(notes.push(note).drop_first() =~= notes.drop_first().push(note));
        assert(waiting(wires, notes.push(note)) =~= waiting(wires, notes) + fan(
            wires,
            note.0,
            note.1,
        ));
    }
}

/// The machine: its modules by number, each with its name, what it is (if
/// it is anything) and the modules that it is wired to; the number of the
/// button; the module that is watched; and how many pulses were sent.
pub struct Array {
    pub names: Vec<Vec<u8>>,
    pub modules: Vec<Option<Module>>,
    pub destinations: Vec<Vec<usize>>,
    pub button: usize,
    pub watched: Option<usize>,
    pub low_pulses: usize,
    pub high_pulses: usize,
}

impl Array {
    /// What the modules are.
    pub open spec fn circuits(&self) -> Seq<Option<Circuit>> {
        Seq::new(
            self.modules@.len(),
            |i: int|
                match self.modules@[i] {
                    Some(module) => Some(module@),
                    None => None,
                },
        )
    }

    /// The wires that leave each module.
    pub open spec fn wires(&self) -> Seq<Seq<usize>> {
        Seq::new(self.destinations@.len(), |i: int| self.destinations@[i]@)
    }

    /// The modules and the counts, with a note of what was found.
    pub open spec fn tally(&self, found: Option<usize>) -> Tally {
        Tally {
            circuits: self.circuits(),
            low: self.low_pulses as nat,
            high: self.high_pulses as nat,
            found,
        }
    }

    /// What comes of one press of the button: the button sends a low pulse
    /// along its wires, and all that follows from it has arrived. `None`
    /// where more than `fuel` pulses arrive.
    pub open spec fn pressed(&self, fuel: nat) -> Option<Tally> {
        run(
            self.wires(),
            self.watched,
            self.tally(None),
            fan(self.wires(), self.button, Pulse::Low),
            fuel,
        )
    }

    /// Presses the button once and lets no more than `budget` pulses
    /// arrive. Gives the module that last sent a high pulse to the module
    /// that is watched, if one did; `None` where the budget did not suffice,
    /// and then the machine is left in the middle of the press.
    pub fn push_button(&mut self, budget: usize) -> (r: Option<Option<usize>>)
        requires
            old(self).low_pulses + budget <= usize::MAX,
            old(self).high_pulses + budget <= usize::MAX,
        ensures
            final(self).wires() == old(self).wires(),
            final(self).names == old(self).names,
            final(self).button == old(self).button,
            final(self).watched == old(self).watched,
            match old(self).pressed(budget as nat) {
                Some(tally) => r == Some(tally.found) && final(self).tally(tally.found) == tally,
                None => r is None,
            },
    {
        let ghost goal = self.pressed(budget as nat);
        let ghost wires = self.wires();
        let mut queue: VecDeque<(usize, Pulse)> = VecDeque::new();
        let mut found: Option<usize> = None;
        let mut left = budget;
        queue.push_back((self.button, Pulse::Low));
        proof {
            assert(queue@ =~= seq![(self.button, Pulse::Low)]);
            assert(queue@.drop_first() =~= Seq::empty());
            assert(waiting(wires, queue@.drop_first()) =~= Seq::empty());
            assert(waiting(wires, queue@) =~= fan(wires, self.button, Pulse::Low));
        }
        while queue.len() > 0
            invariant
                self.wires() == wires,
                wires == old(self).wires(),
                self.names == old(self).names,
                self.button == old(self).button,
                self.watched == old(self).watched,
                goal == old(self).pressed(budget as nat),
                run(wires, self.watched, self.tally(found), waiting(wires, queue@), left as nat)
                    == goal,
                self.low_pulses + left <= usize::MAX,
                self.high_pulses + left <= usize::MAX,
            decreases left, queue@.len(),
        {
            let ghost notes = queue@;
            let (source, pulse) = queue.pop_front().unwrap();
            proof {
                assert(queue@ =~= notes.drop_first());
            }
            if source < self.destinations.len() {
                let n = self.destinations[source].len();
                let mut k: usize = 0;
                let ghost start = left;
                proof {
                    assert(fan(wires, source, pulse).skip(0) =~= fan(wires, source, pulse));
                }
                while k < n
                    invariant
                        k <= n,
                        source < self.destinations@.len(),
                        n == self.destinations@[source as int]@.len(),
                        self.wires() == wires,
                        wires == old(self).wires(),
                        self.names == old(self).names,
                        self.button == old(self).button,
                        self.watched == old(self).watched,
                        goal == old(self).pressed(budget as nat),
                        run(
                            wires,
                            self.watched,
                            self.tally(found),
                            fan(wires, source, pulse).skip(k as int) + waiting(wires, queue@),
                            left as nat,
                        ) == goal,
                        self.low_pulses + left <= usize::MAX,
                        self.high_pulses + left <= usize::MAX,
                        left <= start,
                        k > 0 ==> left < start,
                        k == 0 ==> queue@ == notes.drop_first(),
                    decreases n - k,
                {
                    let ghost before = self.tally(found);
                    let ghost line = fan(wires, source, pulse).skip(k as int) + waiting(
                        wires,
                        queue@,
                    );
                    let ghost held = queue@;
                    if left == 0 {
                        proof {
                            assert(line.len() > 0);
                        }
                        return None;
                    }
                    left = left - 1;
                    let target = self.destinations[source][k];
                    let ghost sent = Sent { source, target, pulse };
                    proof {
                        assert(wires[source as int] == self.destinations@[source as int]@);
                        assert(line[0] == sent);
                    }
                    let ghost next = arrive(wires, self.watched, before, sent);
                    if target < self.modules.len() {
                        match &mut self.modules[target] {
                            Some(module) => {
                                match module.process_pulse(pulse, source) {
                                    Some(new_pulse) => {
                                        queue.push_back((target, new_pulse));
                                        proof {
                                            lemma_waiting_push(wires, held, (target, new_pulse));
                                        }
                                    },
                                    None => {},
                                }
                            },
                            None => {},
                        }
                    }
                    if pulse == Pulse::High && self.watched == Some(target) {
                        found = Some(source);
                    }
                    match pulse {
                        Pulse::High => {
                            self.high_pulses = self.high_pulses + 1;
                        },
                        Pulse::Low => {
                            self.low_pulses = self.low_pulses + 1;
                        },
                    }
                    k = k + 1;
                    proof {
                        assert(self.tally(found).circuits =~= next.0.circuits);
                        assert(self.tally(found) == next.0);
                        assert(fan(wires, source, pulse).skip(k as int) + waiting(wires, queue@)
                            =~= line.skip(1) + next.1);
                    }
                }
                proof {
                    assert(fan(wires, source, pulse).skip(k as int) + waiting(wires, queue@)
                        =~= waiting(wires, queue@));
                }
            } else {
                proof {
                    assert(waiting(wires, notes) =~= waiting(wires, queue@));
                }
            }
        }
        proof {
            assert(waiting(wires, queue@) =~= Seq::empty());
        }
        Some(found)
    }
}

/// How many bytes stand before the first ` -> ` of the text; where there is
/// none, as many as leave fewer than four.
pub open spec fn until_arrow(text: Seq<u8>) -> nat
    decreases text.len(),
{
    if text.len() < 4 || (text[0] == 0x20 && text[1] == 0x2d && text[2] == 0x3e && text[3] == 0x20) {
        0
    } else {
        1 + until_arrow(text.drop_first())
    }
}

/// How many bytes stand before the first comma with a blank behind it; all
/// where there is none.
pub open spec fn until_sep(text: Seq<u8>) -> nat
    decreases text.len(),
{
    if text.len() < 2 {
        text.len()
    } else if text[0] == 0x2c && text[1] == 0x20 {
        0
    } else {
        1 + until_sep(text.drop_first())
    }
}

/// The names that stand in the text with a comma and a blank between them.
pub open spec fn targets(text: Seq<u8>) -> Seq<Seq<u8>>
    decreases text.len(),
{
    let end = until_sep(text) as int;
    if end + 2 > text.len() {
        seq![text]
    } else {
        seq![text.take(end)] + targets(text.skip(end + 2))
    }
}

proof fn lemma_until_arrow(text: Seq<u8>, end: int)
    requires
        0 <= end <= text.len(),
        forall|k: int|
            0 <= k < end && k + 4 <= text.len() ==> !(#[trigger] text[k] == 0x20 && text[k + 1]
                == 0x2d && text[k + 2] == 0x3e && text[k + 3] == 0x20),
        end + 4 <= text.len() ==> text[end] == 0x20 && text[end + 1] == 0x2d && text[end + 2]
            == 0x3e && text[end + 3] == 0x20,
        end + 4 > text.len() ==> end + 3 >= text.len(),
    ensures
        until_arrow(text) + 4 <= text.len() <==> end + 4 <= text.len(),
        end + 4 <= text.len() ==> until_arrow(text) == end,
    decreases text.len(),
{
    if text.len() >= 4 && end > 0 {
        let rest = text.drop_first();
        assert(!(text[0] == 0x20 && text[1] == 0x2d && text[2] == 0x3e && text[3] == 0x20));
        assert forall|k: int| 0 <= k < end - 1 && k + 4 <= rest.len() implies !(#[trigger] rest[k]
            == 0x20 && rest[k + 1] == 0x2d && rest[k + 2] == 0x3e && rest[k + 3] == 0x20) by {
            assert(rest[k] == text[k + 1]);
            assert(rest[k + 1] == text[k + 2]);
            assert(rest[k + 2] == text[k + 3]);
            assert(rest[k + 3] == text[k + 4]);
            assert(!(text[k + 1] == 0x20 && text[k + 2] == 0x2d && text[k + 3] == 0x3e && text[k
                + 4] == 0x20));
        }
        if end + 4 <= text.len() {
            assert(rest[end - 1] == text[end]);
            assert(rest[end] == text[end + 1]);
            assert(rest[end + 1] == text[end + 2]);
            assert(rest[end + 2] == text[end + 3]);
        }
        lemma_until_arrow(rest, end - 1);
    }
}

proof fn lemma_until_sep(text: Seq<u8>, end: int)
    requires
        0 <= end <= text.len(),
        forall|k: int|
            0 <= k < end && k + 1 < text.len() ==> !(#[trigger] text[k] == 0x2c && text[k + 1]
                == 0x20),
        end < text.len() ==> end + 1 < text.len() && text[end] == 0x2c && text[end + 1] == 0x20,
    ensures
        until_sep(text) == end,
    decreases text.len(),
{
    if text.len() >= 2 && end > 0 {
        let rest = text.drop_first();
        assert(!(text[0] == 0x2c && text[1] == 0x20));
        assert forall|k: int| 0 <= k < end - 1 && k + 1 < rest.len() implies !(#[trigger] rest[k]
            == 0x2c && rest[k + 1] == 0x20) by {
            assert(rest[k] == text[k + 1]);
            assert(rest[k + 1] == text[k + 2]);
            assert(!(text[k + 1] == 0x2c && text[k + 2] == 0x20));
        }
        if end < text.len() {
            assert(rest[end - 1] == text[end]);
            assert(rest[end] == text[end + 1]);
        }
        lemma_until_sep(rest, end - 1);
    }
}

/// Where the first ` -> ` of the line starts, if it has one.
fn arrow(line: &[u8]) -> (r: Option<usize>)
    ensures
        match r {
            Some(at) => at == until_arrow(line@) && at + 4 <= line@.len(),
            None => until_arrow(line@) + 4 > line@.len(),
        },
{
    let n = line.len();
    let mut at: usize = 0;
    while n - at >= 4
        invariant
            at <= n,
            n == line@.len(),
            forall|k: int|
                0 <= k < at && k + 4 <= line@.len() ==> !(#[trigger] line@[k] == 0x20 && line@[k
                    + 1] == 0x2d && line@[k + 2] == 0x3e && line@[k + 3] == 0x20),
        decreases n - at,
    {
        if line[at] == 0x20 && line[at + 1] == 0x2d && line[at + 2] == 0x3e && line[at + 3]
            == 0x20 {
            proof {
                lemma_until_arrow(line@, at as int);
            }
            return Some(at);
        }
        at = at + 1;
    }
    proof {
        lemma_until_arrow(line@, at as int);
    }
    None
}

/// Where the next comma with a blank behind it stands, from `from` on; the
/// end of the line where there is none.
fn comma(line: &[u8], from: usize) -> (r: usize)
    requires
        from <= line@.len(),
    ensures
        from <= r <= line@.len(),
        r - from == until_sep(line@.skip(from as int)),
        r < line@.len() ==> r + 2 <= line@.len(),
{
    let n = line.len();
    let mut at = from;
    while at < n && !(line[at] == 0x2c && at + 1 < n && line[at + 1] == 0x20)
        invariant
            from <= at <= n,
            n == line@.len(),
            forall|k: int|
                from <= k < at && k + 1 < line@.len() ==> !(#[trigger] line@[k] == 0x2c && line@[k
                    + 1] == 0x20),
        decreases n - at,
    {
        at = at + 1;
    }
    proof {
        let rest = line@.skip(from as int);
        assert forall|k: int| 0 <= k < at - from && k + 1 < rest.len() implies !(#[trigger] rest[k]
            == 0x2c && rest[k + 1] == 0x20) by {
            assert(rest[k] == line@[from + k]);
            assert(rest[k + 1] == line@[from + k + 1]);
        }
        lemma_until_sep(rest, at - from);
    }
    at
}

/// Whether `wanted` is one of the numbers.
fn holds(numbers: &Vec<usize>, wanted: usize) -> (r: bool)
    ensures
        r == numbers@.contains(wanted),
{
    let mut i: usize = 0;
    while i < numbers.len()
        invariant
            i <= numbers@.len(),
            forall|k: int| 0 <= k < i ==> numbers@[k] != wanted,
        decreases numbers@.len() - i,
    {
        if numbers[i] == wanted {
            return true;
        }
        i = i + 1;
    }
    false
}

/// What kind of module a line is for.
pub ghost enum Kind {
    Broadcast,
    FlipFlop,
    Conjunction,
}

/// A machine as it is read: the names of its modules, what kind each is,
/// if a line was for it, and the modules that it is wired to.
pub ghost struct Plan {
    pub names: Seq<Seq<u8>>,
    pub kinds: Seq<Option<Kind>>,
    pub wires: Seq<Seq<usize>>,
}

/// The plan with a place for the module of the name.
pub open spec fn placed(plan: Plan, name: Seq<u8>) -> Plan {
    if seek(plan.names, name) < plan.names.len() {
        plan
    } else {
        Plan {
            names: plan.names.push(name),
            kinds: plan.kinds.push(None),
            wires: plan.wires.push(Seq::empty()),
        }
    }
}

/// The plan with places for the first `upto` of the modules that a line
/// names as wired to, and the places of these.
pub open spec fn wired(plan: Plan, named: Seq<Seq<u8>>, upto: int) -> (Plan, Seq<usize>)
    decreases upto,
{
    if upto <= 0 {
        (plan, Seq::empty())
    } else {
        let before = wired(plan, named, upto - 1);
        (
            placed(before.0, named[upto - 1]),
            before.1.push(seek(before.0.names, named[upto - 1]) as usize),
        )
    }
}

/// The name and the kind of the module that a line is for, where ` -> `
/// starts at `split`: a module that starts with `b` is the broadcaster, `%`
/// stands before the name of a flip-flop and `&` before that of a
/// conjunction.
pub open spec fn headed(line: Seq<u8>, split: int) -> Option<(Seq<u8>, Kind)> {
    if split <= 0 {
        None
    } else if line[0] == 0x62 {
        Some(("broadcaster".spec_bytes(), Kind::Broadcast))
    } else if line[0] == 0x25 {
        Some((line.subrange(1, split), Kind::FlipFlop))
    } else if line[0] == 0x26 {
        Some((line.subrange(1, split), Kind::Conjunction))
    } else {
        None
    }
}

/// The plan when a line has been read: its module has a place, a kind and
/// its wires, and so has each module that it is wired to a place. `None`
/// where the line has no ` -> `, or starts with none of the three.
pub open spec fn line_read(plan: Plan, line: Seq<u8>) -> Option<Plan> {
    let split = until_arrow(line) as int;
    if split + 4 > line.len() {
        None
    } else {
        match headed(line, split) {
            Some((name, kind)) => {
                let id = seek(plan.names, name) as int;
                let named = targets(line.skip(split + 4));
                let after = wired(placed(plan, name), named, named.len() as int);
                Some(
                    Plan {
                        names: after.0.names,
                        kinds: after.0.kinds.update(id, Some(kind)),
                        wires: after.0.wires.update(id, after.1),
                    },
                )
            },
            None => None,
        }
    }
}

/// The plan when the lines have been read, one after the other.
pub open spec fn plan_of(text: Seq<Seq<u8>>) -> Option<Plan>
    decreases text.len(),
{
    if text.len() == 0 {
        Some(Plan { names: Seq::empty(), kinds: Seq::empty(), wires: Seq::empty() })
    } else {
        match plan_of(text.drop_last()) {
            Some(before) => line_read(before, text.last()),
            None => None,
        }
    }
}

proof fn lemma_plan_none(text: Seq<Seq<u8>>, upto: int)
    requires
        0 <= upto <= text.len(),
        plan_of(text.take(upto)) is None,
    ensures
        plan_of(text) is None,
    decreases text.len() - upto,
{
    if upto < text.len() {
        assert(text.take(upto + 1).drop_last() =~= text.take(upto));
        lemma_plan_none(text, upto + 1);
    } else {
        assert(text.take(upto) =~= text);
    }
}

/// What the names are.
pub open spec fn named(names: Seq<Vec<u8>>) -> Seq<Seq<u8>> {
    names.map_values(|name: Vec<u8>| name@)
}

/// What the wires are.
pub open spec fn wiring(destinations: Seq<Vec<usize>>) -> Seq<Seq<usize>> {
    destinations.map_values(|wires: Vec<usize>| wires@)
}

/// What kind a module is.
pub open spec fn kind_of(module: Option<Module>) -> Option<Kind> {
    match module {
        Some(Module::Broadcast) => Some(Kind::Broadcast),
        Some(Module::FlipFlop(_)) => Some(Kind::FlipFlop),
        Some(Module::Conjunction(_)) => Some(Kind::Conjunction),
        None => None,
    }
}

/// What kinds the modules are.
pub open spec fn kinds(modules: Seq<Option<Module>>) -> Seq<Option<Kind>> {
    modules.map_values(|module: Option<Module>| kind_of(module))
}

impl Array {
    /// Each module has a name of its own, and every wire leads to a module
    /// that has a number.
    pub open spec fn tidy(&self) -> bool {
        &&& self.names@.len() == self.modules@.len()
        &&& self.names@.len() == self.destinations@.len()
        &&& forall|i: int, j: int|
            0 <= i < j < self.names@.len() ==> (#[trigger] self.names@[i])@ != (
            #[trigger] self.names@[j])@
        &&& forall|i: int, k: int|
            0 <= i < self.destinations@.len() && 0 <= k < self.destinations@[i]@.len() ==> (
            #[trigger] self.destinations@[i]@[k]) < self.names@.len()
    }

    /// The machine is in order: it is `tidy`, and the button and the module
    /// that is watched are modules of it.
    pub open spec fn wf(&self) -> bool {
        &&& self.tidy()
        &&& self.button < self.names@.len()
        &&& self.watched matches Some(watched) ==> watched < self.names@.len()
    }

    /// The machine as a plan.
    pub open spec fn plan(&self) -> Plan {
        Plan {
            names: named(self.names@),
            kinds: kinds(self.modules@),
            wires: wiring(self.destinations@),
        }
    }

    /// The number of the module of the name, which is given the next free
    /// number where it has none yet.
    fn place(&mut self, name: Vec<u8>) -> (at: usize)
        requires
            old(self).tidy(),
        ensures
            final(self).tidy(),
            at < final(self).names@.len(),
            at == seek(old(self).plan().names, name@),
            final(self).plan() == placed(old(self).plan(), name@),
            final(self).names@[at as int]@ == name@,
            old(self).names@.len() <= final(self).names@.len(),
            forall|k: int|
                0 <= k < old(self).names@.len() ==> #[trigger] final(self).names@[k] == old(
                    self,
                ).names@[k],
            forall|k: int|
                0 <= k < old(self).names@.len() ==> #[trigger] final(self).modules@[k] == old(
                    self,
                ).modules@[k],
            forall|k: int|
                old(self).names@.len() <= k < final(self).names@.len() ==> (#[trigger] final(self).modules@[k]) is None,
            final(self).button == old(self).button,
            final(self).watched == old(self).watched,
            final(self).low_pulses == old(self).low_pulses,
            final(self).high_pulses == old(self).high_pulses,
    {
        let ghost before = self.plan();
        let at = intern(&mut self.names, name);
        proof {
            assert forall|k: int| 0 <= k < at implies #[trigger] before.names[k] != name@ by {
                assert(self.names@[k]@ != name@);
                assert(self.names@[k] == old(self).names@[k]);
                assert(before.names[k] == old(self).names@[k]@);
            }
            if at < before.names.len() {
                assert(before.names[at as int] == old(self).names@[at as int]@);
            }
            lemma_seek(before.names, name@, at as int);
        }
        if at >= self.modules.len() {
            self.modules.push(None);
            self.destinations.push(Vec::new());
            proof {
                assert(self.plan().names =~= before.names.push(name@));
                assert(self.plan().kinds =~= before.kinds.push(None));
                assert(self.plan().wires =~= before.wires.push(Seq::empty()));
            }
        } else {
            proof {
                assert(self.plan().names =~= before.names);
                assert(self.plan().kinds =~= before.kinds);
                assert(self.plan().wires =~= before.wires);
            }
        }
        at
    }
}

impl Array {
    /// The machine is in order and as `from` leaves it: no pulse is
    /// counted, the button is wired to the broadcaster, and the module that
    /// is watched is `kc`.
    pub open spec fn fresh(&self) -> bool {
        &&& self.wf()
        &&& self.low_pulses == 0
        &&& self.high_pulses == 0
        &&& self.names@[self.button as int]@ == "button".spec_bytes()
        &&& self.destinations@[self.button as int]@.len() == 1
        &&& self.names@[self.destinations@[self.button as int]@[0] as int]@
            == "broadcaster".spec_bytes()
        &&& match self.watched {
            Some(watched) => self.names@[watched as int]@ == "kc".spec_bytes(),
            None => forall|k: int|
                0 <= k < self.names@.len() ==> (#[trigger] self.names@[k])@ != "kc".spec_bytes(),
        }
    }

    /// What the conjunction at `id` remembers at first: a low pulse from
    /// each module of the plan that is wired to it.
    pub open spec fn remembers(plan: Plan, id: int) -> Seq<Option<Pulse>> {
        Seq::new(
            plan.names.len(),
            |source: int|
                if plan.wires[source].contains(id as usize) {
                    Some(Pulse::Low)
                } else {
                    None
                },
        )
    }

    /// The module at `id` is as the plan says: a broadcaster, a flip-flop
    /// that is off, a conjunction with what it remembers at first; or none
    /// where no line was for it.
    pub open spec fn module_built(module: Option<Module>, plan: Plan, id: int) -> bool {
        if 0 <= id < plan.kinds.len() {
            match plan.kinds[id] {
                Some(Kind::Broadcast) => module == Some(Module::Broadcast),
                Some(Kind::FlipFlop) => module == Some(Module::FlipFlop(FlipFlopState::Off)),
                Some(Kind::Conjunction) => module matches Some(Module::Conjunction(stored))
                    && stored@ == Array::remembers(plan, id),
                None => module is None,
            }
        } else {
            module is None
        }
    }

    /// The machine is the one that is built from the plan: the modules of
    /// the plan, then the button and the broadcaster where they had no place
    /// yet; the button is wired to the broadcaster, and the module `kc` is
    /// watched, if there is one.
    pub open spec fn built(&self, plan: Plan) -> bool {
        let button = seek(plan.names, "button".spec_bytes());
        let with_button = placed(plan, "button".spec_bytes());
        let broadcaster = seek(with_button.names, "broadcaster".spec_bytes());
        let whole = placed(with_button, "broadcaster".spec_bytes());
        let watched = seek(whole.names, "kc".spec_bytes());
        &&& named(self.names@) == whole.names
        &&& self.button == button
        &&& wiring(self.destinations@) == whole.wires.update(
            button as int,
            seq![broadcaster as usize],
        )
        &&& self.watched == if watched < whole.names.len() {
            Some(watched as usize)
        } else {
            None
        }
        &&& self.low_pulses == 0
        &&& self.high_pulses == 0
        &&& self.modules@.len() == whole.names.len()
        &&& forall|id: int|
            0 <= id < self.modules@.len() ==> Array::module_built(
                #[trigger] self.modules@[id],
                plan,
                id,
            )
    }

    /// Reads a machine: in each line a module, ` -> `, and the names of the
    /// modules that it is wired to, with a comma and a blank between them.
    /// The modules are numbered as their names come up. `None` where a line
    /// has no ` -> `, or starts with none of `b`, `%` and `&`.
    pub fn from(value: &str) -> (r: Option<Self>)
        ensures
            match r {
                Some(array) => array.fresh() && (plan_of(lines(value.spec_bytes())) matches Some(
                    plan,
                ) && array.built(plan)),
                None => plan_of(lines(value.spec_bytes())) is None,
            },
    {
        Array::read(value.as_bytes())
    }

    /// No line has been for the module yet, or it is as the line for it
    /// says.
    pub open spec fn raw(module: Option<Module>) -> bool {
        match module {
            Some(Module::FlipFlop(state)) => state == FlipFlopState::Off,
            Some(Module::Conjunction(stored)) => stored@.len() == 0,
            _ => true,
        }
    }

    /// Reads the modules that a line names as wired to, from `from` on, and
    /// gives each a place.
    fn read_wires(&mut self, row: &Vec<u8>, from: usize) -> (wired_to: Vec<usize>)
        requires
            old(self).tidy(),
            from <= row@.len(),
            forall|k: int| 0 <= k < old(self).modules@.len() ==> Array::raw(
                #[trigger] old(self).modules@[k],
            ),
        ensures
            final(self).tidy(),
            (final(self).plan(), wired_to@) == wired(
                old(self).plan(),
                targets(row@.skip(from as int)),
                targets(row@.skip(from as int)).len() as int,
            ),
            old(self).names@.len() <= final(self).names@.len(),
            forall|k: int|
                0 <= k < old(self).names@.len() ==> #[trigger] final(self).names@[k] == old(
                    self,
                ).names@[k],
            forall|k: int|
                0 <= k < old(self).names@.len() ==> #[trigger] final(self).modules@[k] == old(
                    self,
                ).modules@[k],
            forall|k: int| 0 <= k < final(self).modules@.len() ==> Array::raw(
                #[trigger] final(self).modules@[k],
            ),
            forall|k: int| 0 <= k < wired_to@.len() ==> #[trigger] wired_to@[k] < final(self).names@.len(),
            final(self).button == old(self).button,
            final(self).watched == old(self).watched,
            final(self).low_pulses == old(self).low_pulses,
            final(self).high_pulses == old(self).high_pulses,
    {
        let ghost first = self.plan();
        let ghost all = targets(row@.skip(from as int));
        let ghost mut done: Seq<Seq<u8>> = Seq::empty();
        let mut wired_to: Vec<usize> = Vec::new();
        let mut at = from;
        let mut more = true;
        proof {
            assert(done + targets(row@.skip(at as int)) =~= all);
        }
        while more
            invariant
                at <= row@.len(),
                self.tidy(),
                all == targets(row@.skip(from as int)),
                first == old(self).plan(),
                more ==> done + targets(row@.skip(at as int)) == all,
                !more ==> done == all,
                (self.plan(), wired_to@) == wired(first, all, done.len() as int),
                old(self).names@.len() <= self.names@.len(),
                forall|k: int|
                    0 <= k < old(self).names@.len() ==> #[trigger] self.names@[k] == old(
                        self,
                    ).names@[k],
                forall|k: int|
                    0 <= k < old(self).names@.len() ==> #[trigger] self.modules@[k] == old(
                        self,
                    ).modules@[k],
                forall|k: int| 0 <= k < self.modules@.len() ==> Array::raw(
                    #[trigger] self.modules@[k],
                ),
                forall|k: int| 0 <= k < wired_to@.len() ==> #[trigger] wired_to@[k]
                    < self.names@.len(),
                self.button == old(self).button,
                self.watched == old(self).watched,
                self.low_pulses == old(self).low_pulses,
                self.high_pulses == old(self).high_pulses,
            decreases row@.len() - at, more as int,
        {
            let stop = comma(row.as_slice(), at);
            let piece = copy(row.as_slice(), at, stop);
            let ghost rest = row@.skip(at as int);
            let ghost before = done;
            let ghost held = wired_to@;
            let ghost plan = self.plan();
            proof {
                assert(rest.take(stop - at) =~= piece@);
                if stop >= row@.len() {
                    assert(piece@ =~= rest);
                }
                assert(all[before.len() as int] == piece@);
            }
            let ghost names_before = self.names@;
            let ghost modules_before = self.modules@;
            let target = self.place(piece);
            wired_to.push(target);
            proof {
                done = done.push(piece@);
                assert(wired(first, all, done.len() as int) == (
                    placed(plan, piece@),
                    held.push(seek(plan.names, piece@) as usize),
                ));
                assert forall|k: int| 0 <= k < self.modules@.len() implies Array::raw(
                    #[trigger] self.modules@[k],
                ) by {
                    if k < names_before.len() {
                        assert(self.modules@[k] == modules_before[k]);
                    }
                }
                assert forall|k: int| 0 <= k < old(self).names@.len() implies #[trigger] self.names@[k]
                    == old(self).names@[k] by {
                    assert(self.names@[k] == names_before[k]);
                }
                assert forall|k: int| 0 <= k < old(self).names@.len() implies #[trigger] self.modules@[k]
                    == old(self).modules@[k] by {
                    assert(self.modules@[k] == modules_before[k]);
                }
                assert forall|k: int| 0 <= k < wired_to@.len() implies #[trigger] wired_to@[k]
                    < self.names@.len() by {
                    if k < held.len() {
                        assert(wired_to@[k] == held[k]);
                    }
                }
            }
            if stop < row.len() {
                proof {
                    assert(rest.skip(stop - at + 2) =~= row@.skip(stop + 2));
                    assert(done + targets(row@.skip(stop + 2)) =~= before + targets(rest));
                }
                at = stop + 2;
            } else {
                proof {
                    assert(done =~= before + targets(rest));
                }
                at = stop;
                more = false;
            }
        }
        wired_to
    }

    /// Reads a machine from its bytes.
    fn read(bytes: &[u8]) -> (r: Option<Self>)
        ensures
            match r {
                Some(array) => array.fresh() && (plan_of(lines(bytes@)) matches Some(plan)
                    && array.built(plan)),
                None => plan_of(lines(bytes@)) is None,
            },
    {
        let rows = split_lines(bytes);
        let ghost text = lines(bytes@);
        let mut array = Array {
            names: Vec::new(),
            modules: Vec::new(),
            destinations: Vec::new(),
            button: 0,
            watched: None,
            low_pulses: 0,
            high_pulses: 0,
        };
        let mut i: usize = 0;
        proof {
            assert(text.take(0) =~= Seq::<Seq<u8>>::empty());
            assert(array.plan().names =~= Seq::<Seq<u8>>::empty());
            assert(array.plan().kinds =~= Seq::<Option<Kind>>::empty());
            assert(array.plan().wires =~= Seq::<Seq<usize>>::empty());
        }
        while i < rows.len()
            invariant
                i <= rows@.len(),
                text == rows_of(rows@),
                text == lines(bytes@),
                array.tidy(),
                array.low_pulses == 0,
                array.high_pulses == 0,
                plan_of(text.take(i as int)) == Some(array.plan()),
                forall|k: int| 0 <= k < array.modules@.len() ==> Array::raw(
                    #[trigger] array.modules@[k],
                ),
            decreases rows@.len() - i,
        {
            let row = &rows[i];
            let ghost before = array.plan();
            proof {
                assert(text.take(i + 1).drop_last() =~= text.take(i as int));
                assert(text.take(i + 1).last() == row@);
                assert(plan_of(text.take(i + 1)) == line_read(before, row@));
                if line_read(before, row@) is None {
                    lemma_plan_none(text, i + 1);
                }
            }
            let split = match arrow(row.as_slice()) {
                Some(split) => split,
                None => {
                    return None;
                },
            };
            if split == 0 {
                return None;
            }
            let (name, module) = if row[0] == 0x62 {
                ("broadcaster".as_bytes_vec(), Module::Broadcast)
            } else if row[0] == 0x25 {
                (copy(row.as_slice(), 1, split), Module::FlipFlop(FlipFlopState::Off))
            } else if row[0] == 0x26 {
                (copy(row.as_slice(), 1, split), Module::Conjunction(Vec::new()))
            } else {
                return None;
            };
            let ghost kind = kind_of(Some(module)).unwrap();
            proof {
                assert(headed(row@, split as int) == Some((name@, kind)));
            }
            let ghost names_before = array.names@;
            let ghost modules_before = array.modules@;
            let id = array.place(name);
            proof {
                assert forall|k: int| 0 <= k < array.modules@.len() implies Array::raw(
                    #[trigger] array.modules@[k],
                ) by {
                    if k < names_before.len() {
                        assert(array.modules@[k] == modules_before[k]);
                    }
                }
            }
            let length = row.len();
            let wired_to = array.read_wires(row, split + 4);
            let ghost after = array.plan();
            array.modules.set(id, Some(module));
            array.destinations.set(id, wired_to);
            proof {
                assert(array.plan().names =~= after.names);
                assert(array.plan().kinds =~= after.kinds.update(id as int, Some(kind)));
                assert(array.plan().wires =~= after.wires.update(id as int, wired_to@));
                assert(line_read(before, row@) == Some(array.plan()));
            }
            i = i + 1;
        }
        proof {
            assert(text.take(i as int) =~= text);
        }
        let ghost plan = array.plan();
        let n = array.names.len();
        let mut id: usize = 0;
        while id < n
            invariant
                id <= n,
                n == array.names@.len(),
                array.tidy(),
                array.low_pulses == 0,
                array.high_pulses == 0,
                array.plan() == plan,
                plan.names.len() == n,
                plan.kinds.len() == n,
                plan.wires.len() == n,
                forall|k: int| id <= k < n ==> Array::raw(#[trigger] array.modules@[k]),
                forall|k: int| 0 <= k < id ==> Array::module_built(
                    #[trigger] array.modules@[k],
                    plan,
                    k,
                ),
            decreases n - id,
        {
            let gathers = match &array.modules[id] {
                Some(Module::Conjunction(_)) => true,
                _ => false,
            };
            let ghost held = array.modules@;
            proof {
                assert(plan.kinds[id as int] == kind_of(array.modules@[id as int]));
            }
            if gathers {
                let mut stored: Vec<Option<Pulse>> = Vec::new();
                let mut source: usize = 0;
                while source < n
                    invariant
                        source <= n,
                        n == array.destinations@.len(),
                        array.plan() == plan,
                        plan.names.len() == n,
                        plan.wires.len() == n,
                        stored@.len() == source,
                        forall|k: int|
                            0 <= k < source ==> #[trigger] stored@[k] == Array::remembers(
                                plan,
                                id as int,
                            )[k],
                    decreases n - source,
                {
                    proof {
                        assert(plan.wires[source as int] == array.destinations@[source as int]@);
                    }
                    if holds(&array.destinations[source], id) {
                        stored.push(Some(Pulse::Low));
                    } else {
                        stored.push(None);
                    }
                    source = source + 1;
                }
                proof {
                    assert(stored@ =~= Array::remembers(plan, id as int));
                }
                array.modules.set(id, Some(Module::Conjunction(stored)));
                proof {
                    assert(array.plan().kinds =~= plan.kinds);
                    assert(array.plan().names =~= plan.names);
                    assert(array.plan().wires =~= plan.wires);
                }
            }
            proof {
                assert forall|k: int| 0 <= k < id + 1 implies Array::module_built(
                    #[trigger] array.modules@[k],
                    plan,
                    k,
                ) by {
                    if k < id {
                        assert(array.modules@[k] == held[k]);
                    }
                }
                assert forall|k: int| id + 1 <= k < n implies Array::raw(
                    #[trigger] array.modules@[k],
                ) by {
                    assert(array.modules@[k] == held[k]);
                }
            }
            id = id + 1;
        }
        let ghost built_modules = array.modules@;
        let button = array.place("button".as_bytes_vec());
        let ghost with_button = array.plan();
        let ghost middle_modules = array.modules@;
        let ghost middle = array.names@.len();
        let broadcaster = array.place("broadcaster".as_bytes_vec());
        let ghost whole = array.plan();
        let mut wired_to: Vec<usize> = Vec::new();
        wired_to.push(broadcaster);
        array.destinations.set(button, wired_to);
        array.button = button;
        let wanted = "kc".as_bytes_vec();
        array.watched = lookup(&array.names, &wanted);
        proof {
            assert(wiring(array.destinations@) =~= whole.wires.update(
                button as int,
                seq![broadcaster],
            ));
            assert(named(array.names@) =~= whole.names);
            let names = whole.names;
            match array.watched {
                Some(at) => {
                    assert forall|k: int| 0 <= k < at implies #[trigger] names[k] != wanted@ by {
                        assert(names[k] == array.names@[k]@);
                    }
                    assert(names[at as int] == array.names@[at as int]@);
                    lemma_seek(names, wanted@, at as int);
                },
                None => {
                    assert forall|k: int| 0 <= k < names.len() implies #[trigger] names[k]
                        != wanted@ by {
                        assert(names[k] == array.names@[k]@);
                    }
                    lemma_seek(names, wanted@, names.len() as int);
                },
            }
            assert forall|k: int| 0 <= k < array.modules@.len() implies Array::module_built(
                #[trigger] array.modules@[k],
                plan,
                k,
            ) by {
                if k < n {
                    assert(middle_modules[k] == built_modules[k]);
                    assert(array.modules@[k] == middle_modules[k]);
                } else if k < middle {
                    assert(middle_modules[k] is None);
                    assert(array.modules@[k] == middle_modules[k]);
                }
            }
            assert(array.built(plan));
        }
        Some(array)
    }
}

/// As many pulses as can still be counted.
pub open spec fn room(tally: Tally) -> nat {
    if tally.low >= tally.high {
        (usize::MAX - tally.low) as nat
    } else {
        (usize::MAX - tally.high) as nat
    }
}

/// What has come of `count` presses of the button, one after the other,
/// each with as many pulses as can still be counted. `None` where a press
/// does not come to rest within them.
pub open spec fn pressed_times(
    wires: Seq<Seq<usize>>,
    watched: Option<usize>,
    button: usize,
    tally: Tally,
    count: nat,
) -> Option<Tally>
    decreases count,
{
    if count == 0 {
        Some(tally)
    } else {
        match pressed_times(wires, watched, button, tally, (count - 1) as nat) {
            Some(before) => if before.low <= usize::MAX && before.high <= usize::MAX {
                run(
                    wires,
                    watched,
                    Tally { found: None, ..before },
                    fan(wires, button, Pulse::Low),
                    room(before),
                )
            } else {
                None
            },
            None => None,
        }
    }
}

impl Array {
    /// Presses the button once with as many pulses as can still be
    /// counted.
    fn press(&mut self) -> (r: Option<Option<usize>>)
        ensures
            final(self).wires() == old(self).wires(),
            final(self).names == old(self).names,
            final(self).button == old(self).button,
            final(self).watched == old(self).watched,
            match old(self).pressed(room(old(self).tally(None))) {
                Some(tally) => r == Some(tally.found) && final(self).tally(tally.found) == tally,
                None => r is None,
            },
    {
        let most = if self.low_pulses >= self.high_pulses {
            self.low_pulses
        } else {
            self.high_pulses
        };
        self.push_button(usize::MAX - most)
    }
}

impl Array {
    /// What has come of `count` presses of the button of this machine.
    pub open spec fn after(&self, count: nat) -> Option<Tally> {
        pressed_times(self.wires(), self.watched, self.button, self.tally(None), count)
    }

    /// The machine is the one that the lines stand for.
    pub open spec fn read_from(&self, text: Seq<Seq<u8>>) -> bool {
        self.fresh() && (plan_of(text) matches Some(plan) && self.built(plan))
    }
}

/// The product of the numbers of low and of high pulses that are sent when
/// the button of the machine of the text is pressed a thousand times. `None`
/// where the text holds no machine, where a press does not come to rest, or
/// where the product is no number of the machine.
pub fn solve_part1(input: &str) -> (r: Option<usize>)
    ensures
        match r {
            Some(product) => exists|array: Array, tally: Tally|
                #![trigger array.read_from(lines(input.spec_bytes())), tally.low * tally.high]
                array.read_from(lines(input.spec_bytes())) && array.after(1000) == Some(tally)
                    && product == tally.low * tally.high,
            None => plan_of(lines(input.spec_bytes())) is None || exists|array: Array|
                #![trigger array.read_from(lines(input.spec_bytes()))]
                array.read_from(lines(input.spec_bytes())) && ((exists|count: nat|
                    count <= 1000 && #[trigger] array.after(count) is None) || exists|
                    tally: Tally,
                |
                    #![trigger tally.low * tally.high]
                    array.after(1000) == Some(tally) && tally.low * tally.high > usize::MAX),
        },
{
    let mut array = match Array::read(input.as_bytes()) {
        Some(array) => array,
        None => {
            return None;
        },
    };
    let ghost first = array;
    let ghost mut found: Option<usize> = None;
    let mut i: usize = 0;
    while i < 1000
        invariant
            i <= 1000,
            first.read_from(lines(input.spec_bytes())),
            array.wires() == first.wires(),
            array.watched == first.watched,
            array.button == first.button,
            first.after(i as nat) == Some(array.tally(found)),
        decreases 1000 - i,
    {
        let ghost before = array.tally(found);
        proof {
            assert((Tally { found: None, ..before }) == array.tally(None));
            assert(room(before) == room(array.tally(None)));
        }
        match array.press() {
            Some(sender) => {
                proof {
                    found = sender;
                }
            },
            None => {
                proof {
                    assert(first.after((i + 1) as nat) is None);
                }
                return None;
            },
        }
        i = i + 1;
    }
    match array.low_pulses.checked_mul(array.high_pulses) {
        Some(product) => {
            proof {
                assert(array.tally(found).low * array.tally(found).high == product);
            }
            Some(product)
        },
        None => {
            proof {
                let tally = array.tally(found);
                assert(first.after(1000) == Some(tally) && tally.low * tally.high > usize::MAX);
            }
            None
        },
    }
}

/// The most presses of the button that are tried.
pub const MAX_PRESSES: usize = usize::MAX;

/// The module that was the last to send a high pulse to the watched module
/// at the press `press` of the machine, if one did.
pub open spec fn sender_at(array: Array, press: nat) -> Option<usize> {
    match array.after(press) {
        Some(tally) => tally.found,
        None => None,
    }
}

/// `firsts` are the presses at which a module was for the first time the
/// last to send a high pulse to the watched module, in their order, up to
/// the press `upto`.
#[verifier::opaque]
pub open spec fn first_highs(array: Array, firsts: Seq<nat>, upto: nat) -> bool {
    &&& forall|j: int| 0 <= j < firsts.len() ==> 1 <= #[trigger] firsts[j] <= upto
    &&& forall|i: int, j: int| 0 <= i < j < firsts.len() ==> firsts[i] < firsts[j]
    &&& forall|j: int|
        0 <= j < firsts.len() ==> sender_at(array, #[trigger] firsts[j]) is Some && forall|
            earlier: nat,
        |
            1 <= earlier < firsts[j] ==> #[trigger] sender_at(array, earlier) != sender_at(
                array,
                firsts[j],
            )
    &&& forall|press: nat|
        1 <= press <= upto && #[trigger] sender_at(array, press) is Some ==> exists|j: int|
            0 <= j < firsts.len() && #[trigger] firsts[j] <= press && sender_at(array, firsts[j])
                == sender_at(array, press)
}

/// The lowest common multiple of the numbers of the first presses at which
/// four modules send a high pulse to the module that is watched, each of
/// them the last to do so at its press. `None` where the text holds no
/// machine, or where its presses are `unanswered`.
pub fn solve_part2(input: &str) -> (r: Option<usize>)
    ensures
        match r {
            Some(presses) => exists|array: Array, firsts: Seq<nat>|
                #![trigger array.read_from(lines(input.spec_bytes())), crate::day_08::folded(firsts)]
                array.read_from(lines(input.spec_bytes())) && firsts.len() == 4 && first_highs(
                    array,
                    firsts,
                    firsts[3],
                ) && presses == crate::day_08::folded(firsts),
            None => plan_of(lines(input.spec_bytes())) is None || exists|array: Array|
                #![trigger array.read_from(lines(input.spec_bytes()))]
                array.read_from(lines(input.spec_bytes())) && unanswered(array),
        },
{
    let mut array = match Array::read(input.as_bytes()) {
        Some(array) => array,
        None => {
            return None;
        },
    };
    let ghost first = array;
    let ghost mut found: Option<usize> = None;
    let mut senders: Vec<usize> = Vec::new();
    let mut total: usize = 1;
    let ghost mut firsts: Seq<nat> = Seq::empty();
    let mut i: usize = 0;
    proof {
        assert(first_highs(first, firsts, 0)) by {
            reveal(first_highs);
        }
    }
    while i < MAX_PRESSES && senders.len() < 4
        invariant
            first.read_from(lines(input.spec_bytes())),
            array.wires() == first.wires(),
            array.watched == first.watched,
            array.button == first.button,
            first.after(i as nat) == Some(array.tally(found)),
            senders@.len() == firsts.len(),
            senders@.len() <= 4,
            total >= 1,
            firsts.len() >= 1 ==> total == crate::day_08::folded(firsts),
            first_highs(first, firsts, i as nat),
            forall|j: int|
                0 <= j < firsts.len() ==> sender_at(first, #[trigger] firsts[j]) == Some(
                    senders@[j],
                ),
            firsts.len() == 4 ==> firsts[3] == i,
        decreases MAX_PRESSES - i,
    {
        let ghost before = array.tally(found);
        proof {
            assert((Tally { found: None, ..before }) == array.tally(None));
            assert(room(before) == room(array.tally(None)));
        }
        i = i + 1;
        let sender = match array.press() {
            Some(sender) => sender,
            None => {
                proof {
                    assert(first.after(i as nat) is None);
                    lemma_unanswered(first, firsts, (i - 1) as nat);
                }
                return None;
            },
        };
        proof {
            found = sender;
            assert(first.after(i as nat) == Some(array.tally(found)));
            assert(sender_at(first, i as nat) == sender);
        }
        let ghost held = firsts;
        let mut known = false;
        match sender {
            Some(id) => {
                let mut k: usize = 0;
                while k < senders.len()
                    invariant
                        k <= senders@.len(),
                        known <==> exists|j: int| 0 <= j < k && #[trigger] senders@[j] == id,
                    decreases senders@.len() - k,
                {
                    if senders[k] == id {
                        known = true;
                    }
                    k = k + 1;
                }
                if !known {
                    let begun = senders.len() == 0;
                    senders.push(id);
                    proof {
                        firsts = firsts.push(i as nat);
                        assert(firsts.drop_last() =~= held);
                        assert forall|j: int| 0 <= j < firsts.len() implies sender_at(
                            first,
                            #[trigger] firsts[j],
                        ) == Some(senders@[j]) by {
                            if j < held.len() {
                                assert(firsts[j] == held[j]);
                            }
                        }
                    }
                    if begun {
                        total = i;
                    } else {
                        let step = total / crate::day_08::greatest_common_divisor(total, i);
                        proof {
                            crate::day_08::lemma_step(total as nat, i as nat);
                        }
                        total = match step.checked_mul(i) {
                            Some(next) => {
                                proof {
                                    assert(step * i >= 1) by (nonlinear_arith)
                                        requires
                                            step >= 1,
                                            i >= 1,
                                    ;
                                }
                                next
                            },
                            None => {
                                proof {
                                    lemma_first_highs(
                                        first,
                                        held,
                                        firsts,
                                        i as nat,
                                        sender,
                                        senders@,
                                        known,
                                    );
                                    assert(crate::day_08::folded(firsts) > usize::MAX);
                                    lemma_unanswered(first, firsts, i as nat);
                                }
                                return None;
                            },
                        };
                    }
                }
            },
            None => {},
        }
        proof {
            lemma_first_highs(first, held, firsts, i as nat, sender, senders@, known);
        }
    }
    if senders.len() < 4 {
        proof {
            lemma_unanswered(first, firsts, i as nat);
        }
        return None;
    }
    Some(total)
}

/// The presses of the button of the machine lead to no answer. Presses
/// have come to rest, and `firsts` are the first presses among them at which
/// a module sent a high pulse; and then the next press does not come to
/// rest, or the presses are `MAX_PRESSES` and the first presses fewer than
/// four, or the lowest common multiple of the first presses is no number of
/// the machine.
#[verifier::opaque]
pub open spec fn unanswered(array: Array) -> bool {
    exists|firsts: Seq<nat>, upto: nat|
        #![trigger first_highs(array, firsts, upto)]
        first_highs(array, firsts, upto) && upto <= MAX_PRESSES && firsts.len() <= 4 && ((
        firsts.len() < 4 && upto == MAX_PRESSES) || (firsts.len() < 4 && array.after(upto) is Some
            && array.after(upto + 1) is None) || (firsts.len() >= 1 && firsts.last() == upto
            && crate::day_08::folded(firsts) > usize::MAX))
}

/// Presses that end in one of the three ways are unanswered.
proof fn lemma_unanswered(array: Array, firsts: Seq<nat>, upto: nat)
    requires
        first_highs(array, firsts, upto),
        upto <= MAX_PRESSES,
        firsts.len() <= 4,
        (firsts.len() < 4 && upto == MAX_PRESSES) || (firsts.len() < 4 && array.after(upto) is Some
            && array.after(upto + 1) is None) || (firsts.len() >= 1 && firsts.last() == upto
            && crate::day_08::folded(firsts) > usize::MAX),
    ensures
        unanswered(array),
{
    reveal(unanswered);
}

/// The first presses stay the first when one press more is looked at: the
/// press is a first one where its sender is new, and none where it is not.
proof fn lemma_first_highs(
    array: Array,
    held: Seq<nat>,
    firsts: Seq<nat>,
    press: nat,
    sender: Option<usize>,
    senders: Seq<usize>,
    known: bool,
)
    requires
        press >= 1,
        first_highs(array, held, (press - 1) as nat),
        sender_at(array, press) == sender,
        senders.len() == firsts.len(),
        forall|j: int| 0 <= j < firsts.len() ==> sender_at(array, #[trigger] firsts[j]) == Some(
            senders[j],
        ),
        match sender {
            Some(id) => if exists|j: int| 0 <= j < held.len() && #[trigger] senders[j] == id {
                firsts == held
            } else {
                firsts == held.push(press)
            },
            None => firsts == held,
        },
    ensures
        first_highs(array, firsts, press),
{
    reveal(first_highs);
    assert forall|j: int| 0 <= j < firsts.len() implies 1 <= #[trigger] firsts[j] <= press by {
        if j < held.len() {
            assert(firsts[j] == held[j]);
        }
    }
    assert forall|i: int, j: int| 0 <= i < j < firsts.len() implies firsts[i] < firsts[j] by {
        if j < held.len() {
            assert(firsts[i] == held[i] && firsts[j] == held[j]);
        } else {
            assert(firsts[i] == held[i]);
        }
    }
    assert forall|j: int| 0 <= j < firsts.len() implies sender_at(array, #[trigger] firsts[j])
        is Some && forall|earlier: nat|
        1 <= earlier < firsts[j] ==> #[trigger] sender_at(array, earlier) != sender_at(
            array,
            firsts[j],
        ) by {
        if j < held.len() {
            assert(firsts[j] == held[j]);
        } else {
            assert forall|earlier: nat| 1 <= earlier < press implies #[trigger] sender_at(
                array,
                earlier,
            ) != sender_at(array, press) by {
                if sender_at(array, earlier) == sender_at(array, press) {
                    let j0 = choose|j0: int|
                        0 <= j0 < held.len() && #[trigger] held[j0] <= earlier && sender_at(
                            array,
                            held[j0],
                        ) == sender_at(array, earlier);
                    assert(firsts[j0] == held[j0]);
                    assert(sender_at(array, firsts[j0]) == Some(senders[j0]));
                }
            }
        }
    }
    assert forall|p: nat| 1 <= p <= press && #[trigger] sender_at(array, p) is Some implies exists|
        j: int,
    |
        0 <= j < firsts.len() && #[trigger] firsts[j] <= p && sender_at(array, firsts[j])
            == sender_at(array, p) by {
        if p < press {
            let j0 = choose|j0: int|
                0 <= j0 < held.len() && #[trigger] held[j0] <= p && sender_at(array, held[j0])
                    == sender_at(array, p);
            assert(firsts[j0] == held[j0]);
        } else {
            let id = sender.unwrap();
            if exists|j: int| 0 <= j < held.len() && #[trigger] senders[j] == id {
                let j0 = choose|j: int| 0 <= j < held.len() && #[trigger] senders[j] == id;
                assert(sender_at(array, firsts[j0]) == Some(senders[j0]));
                assert(firsts[j0] == held[j0]);
                assert(held[j0] <= press);
            } else {
                assert(firsts[held.len() as int] == press);
            }
        }
    }
}

} // verus!
