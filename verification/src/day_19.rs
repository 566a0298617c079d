//! Sorting machine parts by their ratings.

use crate::text::{
    copy, decimal, find_gap, lemma_seek, lemma_sum_prefix, lemma_sum_step, lines, lookup,
    read_number, rows_of, run, seek, split_lines, sum_of, until_gap,
};
use vstd::prelude::*;
use vstd::slice::*;
use vstd::string::*;

verus! {

/// A part with its four ratings.
#[derive(Clone, Copy, Debug, PartialEq, Eq, Structural)]
pub struct Part {
    pub x: usize,
    pub m: usize,
    pub a: usize,
    pub s: usize,
}

impl Part {
    /// The sum of the four ratings.
    pub fn rating(self) -> (r: usize)
        requires
            self.x + self.m + self.a + self.s <= usize::MAX,
        ensures
            r == self.x + self.m + self.a + self.s,
    {
        self.x + self.m + self.a + self.s
    }
}

/// Where a rule sends a part: it is accepted, rejected, or goes on to the
/// workflow of that number.
#[derive(Clone, Copy, Debug, PartialEq, Eq, Structural)]
pub enum Target {
    Accepted,
    Rejected,
    Workflow(usize),
}

/// A test of one rating against a limit, or no test at all.
#[derive(Clone, Copy, Debug, PartialEq, Eq, Structural)]
pub enum Condition {
    XLess(usize),
    XGreater(usize),
    MLess(usize),
    MGreater(usize),
    ALess(usize),
    AGreater(usize),
    SLess(usize),
    SGreater(usize),
    Always,
}

impl Condition {
    /// The part passes the test.
    pub open spec fn holds(self, part: Part) -> bool {
        match self {
            Condition::XLess(limit) => part.x < limit,
            Condition::XGreater(limit) => part.x > limit,
            Condition::MLess(limit) => part.m < limit,
            Condition::MGreater(limit) => part.m > limit,
            Condition::ALess(limit) => part.a < limit,
            Condition::AGreater(limit) => part.a > limit,
            Condition::SLess(limit) => part.s < limit,
            Condition::SGreater(limit) => part.s > limit,
            Condition::Always => true,
        }
    }

    /// Whether the part passes the test.
    pub fn applies(self, part: Part) -> (r: bool)
        ensures
            r == self.holds(part),
    {
        match self {
            Condition::XLess(limit) => part.x < limit,
            Condition::XGreater(limit) => part.x > limit,
            Condition::MLess(limit) => part.m < limit,
            Condition::MGreater(limit) => part.m > limit,
            Condition::ALess(limit) => part.a < limit,
            Condition::AGreater(limit) => part.a > limit,
            Condition::SLess(limit) => part.s < limit,
            Condition::SGreater(limit) => part.s > limit,
            Condition::Always => true,
        }
    }
}

/// The rules of a workflow, in the order in which they are tried.
pub struct Workflow {
    pub predicates: Vec<(Condition, Target)>,
}

/// Where the first of the rules from `from` on whose test the part passes
/// sends it; `None` where it passes none.
pub open spec fn first_match(rules: Seq<(Condition, Target)>, part: Part, from: int) -> Option<
    Target,
>
    decreases rules.len() - from,
{
    if from < 0 || from >= rules.len() {
        None
    } else if rules[from].0.holds(part) {
        Some(rules[from].1)
    } else {
        first_match(rules, part, from + 1)
    }
}

impl Workflow {
    /// Where the workflow sends the part: the target of the first rule whose
    /// test the part passes.
    pub fn apply(&self, part: Part) -> (r: Target)
        requires
            first_match(self.predicates@, part, 0) is Some,
        ensures
            Some(r) == first_match(self.predicates@, part, 0),
    {
        let mut i: usize = 0;
        let n = self.predicates.len();
        loop
            invariant
                n == self.predicates@.len(),
                i <= self.predicates@.len(),
                first_match(self.predicates@, part, i as int) is Some,
                first_match(self.predicates@, part, i as int) == first_match(
                    self.predicates@,
                    part,
                    0,
                ),
            decreases self.predicates@.len() - i,
        {
            let (condition, target) = self.predicates[i];
            if condition.applies(part) {
                return target;
            }
            i = i + 1;
        }
    }
}

/// The numbers from `start` to `end`, both among them; none where `start` is
/// above `end`.
#[derive(Clone, Copy, Debug, PartialEq, Eq, Structural)]
pub struct Span {
    pub start: usize,
    pub end: usize,
}

impl Span {
    /// `value` is one of the numbers.
    pub open spec fn has(self, value: usize) -> bool {
        self.start <= value <= self.end
    }

    /// How many numbers there are.
    pub open spec fn count(self) -> nat {
        if self.start <= self.end {
            (self.end - self.start + 1) as nat
        } else {
            0
        }
    }

    /// The numbers below `limit`, and the others.
    fn split_less(self, limit: usize) -> (r: (Option<Span>, Option<Span>))
        requires
            self.start <= self.end,
        ensures
            forall|value: usize|
                (r.0 matches Some(below) && below.has(value)) <==> self.has(value) && value
                    < limit,
            forall|value: usize|
                (r.1 matches Some(rest) && rest.has(value)) <==> self.has(value) && !(value
                    < limit),
            r.0 matches Some(below) ==> below.start <= below.end,
            r.1 matches Some(rest) ==> rest.start <= rest.end,
    {
        if limit <= self.start {
            (None, Some(self))
        } else if limit <= self.end {
            (
                Some(Span { start: self.start, end: limit - 1 }),
                Some(Span { start: limit, end: self.end }),
            )
        } else {
            (Some(self), None)
        }
    }

    /// The numbers above `limit`, and the others.
    fn split_greater(self, limit: usize) -> (r: (Option<Span>, Option<Span>))
        requires
            self.start <= self.end,
        ensures
            forall|value: usize|
                (r.0 matches Some(above) && above.has(value)) <==> self.has(value) && value
                    > limit,
            forall|value: usize|
                (r.1 matches Some(rest) && rest.has(value)) <==> self.has(value) && !(value
                    > limit),
            r.0 matches Some(above) ==> above.start <= above.end,
            r.1 matches Some(rest) ==> rest.start <= rest.end,
    {
        if limit >= self.end {
            (None, Some(self))
        } else if limit >= self.start {
            (
                Some(Span { start: limit + 1, end: self.end }),
                Some(Span { start: self.start, end: limit }),
            )
        } else {
            (Some(self), None)
        }
    }
}

/// Parts whose ratings lie each in a span of its own.
#[derive(Clone, Copy, Debug, PartialEq, Eq, Structural)]
pub struct PartRange {
    pub x: Span,
    pub m: Span,
    pub a: Span,
    pub s: Span,
}

/// One of the four ratings.
#[derive(Clone, Copy, Debug, PartialEq, Eq, Structural)]
pub enum Rating {
    X,
    M,
    A,
    S,
}

impl PartRange {
    /// `part` is one of the parts.
    pub open spec fn contains(self, part: Part) -> bool {
        self.x.has(part.x) && self.m.has(part.m) && self.a.has(part.a) && self.s.has(part.s)
    }

    /// No span is empty.
    pub open spec fn valid(self) -> bool {
        &&& self.x.start <= self.x.end
        &&& self.m.start <= self.m.end
        &&& self.a.start <= self.a.end
        &&& self.s.start <= self.s.end
    }

    /// The parts with every rating from 1 to 4000.
    pub fn new() -> (r: Self)
        ensures
            r.valid(),
            forall|part: Part|
                r.contains(part) <==> 1 <= part.x <= 4000 && 1 <= part.m <= 4000 && 1 <= part.a
                    <= 4000 && 1 <= part.s <= 4000,
    {
        PartRange {
            x: Span { start: 1, end: 4000 },
            m: Span { start: 1, end: 4000 },
            a: Span { start: 1, end: 4000 },
            s: Span { start: 1, end: 4000 },
        }
    }

    /// These parts with `span` in place of the span of one rating.
    fn with(&self, rating: Rating, span: Option<Span>) -> (r: Option<Self>)
        ensures
            r is Some == span is Some,
            span matches Some(span) ==> r == Some(
                match rating {
                    Rating::X => PartRange { x: span, ..*self },
                    Rating::M => PartRange { m: span, ..*self },
                    Rating::A => PartRange { a: span, ..*self },
                    Rating::S => PartRange { s: span, ..*self },
                },
            ),
    {
        match span {
            None => None,
            Some(span) => Some(
                match rating {
                    Rating::X => PartRange { x: span, m: self.m, a: self.a, s: self.s },
                    Rating::M => PartRange { x: self.x, m: span, a: self.a, s: self.s },
                    Rating::A => PartRange { x: self.x, m: self.m, a: span, s: self.s },
                    Rating::S => PartRange { x: self.x, m: self.m, a: self.a, s: span },
                },
            ),
        }
    }

    /// The span of one rating.
    fn span(&self, rating: Rating) -> (r: Span)
        ensures
            r == match rating {
                Rating::X => self.x,
                Rating::M => self.m,
                Rating::A => self.a,
                Rating::S => self.s,
            },
    {
        match rating {
            Rating::X => self.x,
            Rating::M => self.m,
            Rating::A => self.a,
            Rating::S => self.s,
        }
    }

    /// Those of the parts that pass the test of `condition`, and those that
    /// do not; `None` in place of either where there are none.
    pub fn split_condition(&self, condition: Condition) -> (r: (Option<Self>, Option<Self>))
        requires
            self.valid(),
        ensures
            forall|part: Part|
                (r.0 matches Some(matched) && matched.contains(part)) <==> self.contains(part)
                    && condition.holds(part),
            forall|part: Part|
                (r.1 matches Some(rest) && rest.contains(part)) <==> self.contains(part)
                    && !condition.holds(part),
            r.0 matches Some(matched) ==> matched.valid(),
            r.1 matches Some(rest) ==> rest.valid(),
    {
        let (rating, less, limit) = match condition {
            Condition::Always => {
                return (Some(*self), None);
            },
            Condition::XLess(limit) => (Rating::X, true, limit),
            Condition::XGreater(limit) => (Rating::X, false, limit),
            Condition::MLess(limit) => (Rating::M, true, limit),
            Condition::MGreater(limit) => (Rating::M, false, limit),
            Condition::ALess(limit) => (Rating::A, true, limit),
            Condition::AGreater(limit) => (Rating::A, false, limit),
            Condition::SLess(limit) => (Rating::S, true, limit),
            Condition::SGreater(limit) => (Rating::S, false, limit),
        };
        let (matched, rest) = if less {
            self.span(rating).split_less(limit)
        } else {
            self.span(rating).split_greater(limit)
        };
        (self.with(rating, matched), self.with(rating, rest))
    }

    /// How many parts there are.
    pub open spec fn size(self) -> nat {
        self.x.count() * self.m.count() * self.a.count() * self.s.count()
    }

    /// How many parts there are.
    pub fn combinations(&self) -> (r: usize)
        requires
            self.valid(),
            self.size() <= usize::MAX,
        ensures
            r == self.size(),
    {
        let x = self.x.end - self.x.start;
        let m = self.m.end - self.m.start;
        let a = self.a.end - self.a.start;
        let s = self.s.end - self.s.start;
        proof {
            let (cx, cm, ca, cs) = (
                self.x.count() as int,
                self.m.count() as int,
                self.a.count() as int,
                self.s.count() as int,
            );
            assert(cx <= cx * cm * ca * cs && cx * cm <= cx * cm * ca * cs && cx * cm * ca <= cx
                * cm * ca * cs && cm <= cx * cm * ca * cs && ca <= cx * cm * ca * cs && cs <= cx
                * cm * ca * cs) by (nonlinear_arith)
                requires
                    cx >= 1,
                    cm >= 1,
                    ca >= 1,
                    cs >= 1,
            ;
        }
        (x + 1) * (m + 1) * (a + 1) * (s + 1)
    }
}

/// The number of the workflow that `target` names; 0 where it names none.
pub open spec fn named(target: Target) -> usize {
    match target {
        Target::Workflow(id) => id,
        _ => 0,
    }
}

/// The workflows of a sorting machine, and the number of the one at which
/// every part starts.
pub struct Sorter {
    pub workflows: Vec<Workflow>,
    pub entry: usize,
}

impl Sorter {
    /// The sorter is in order: the workflow at which parts start is there,
    /// each workflow sends every part somewhere, and no rule names a
    /// workflow that is not there.
    pub open spec fn wf(&self) -> bool {
        &&& self.entry < self.workflows@.len()
        &&& forall|id: int, part: Part|
            0 <= id < self.workflows@.len() ==> #[trigger] first_match(
                self.workflows@[id].predicates@,
                part,
                0,
            ) is Some
        &&& forall|id: int, k: int|
            0 <= id < self.workflows@.len() && 0 <= k < self.workflows@[id].predicates@.len()
                ==> named((#[trigger] self.workflows@[id].predicates@[k]).1) < self.workflows@.len()
    }

    /// Where the part is after at most `steps` more workflows, being at `at`
    /// now.
    pub open spec fn fate(&self, part: Part, at: Target, steps: nat) -> Target
        decreases steps,
    {
        match at {
            Target::Workflow(id) if steps > 0 && id < self.workflows@.len() => self.fate(
                part,
                first_match(self.workflows@[id as int].predicates@, part, 0).unwrap(),
                (steps - 1) as nat,
            ),
            _ => at,
        }
    }

    /// The part is accepted after no more workflows than there are. A part
    /// that passes more has passed one twice, and goes round for ever.
    pub open spec fn accepts(&self, part: Part) -> bool {
        self.fate(part, Target::Workflow(self.entry), self.workflows@.len()) == Target::Accepted
    }

    /// Whether the part is accepted.
    pub fn part_accepted(&self, part: Part) -> (r: bool)
        requires
            self.wf(),
        ensures
            r == self.accepts(part),
    {
        let mut current = Target::Workflow(self.entry);
        let mut steps = self.workflows.len();
        while steps > 0
            invariant
                self.wf(),
                steps <= self.workflows@.len(),
                current matches Target::Workflow(id) ==> id < self.workflows@.len(),
                self.fate(part, current, steps as nat) == self.fate(
                    part,
                    Target::Workflow(self.entry),
                    self.workflows@.len(),
                ),
            decreases steps,
        {
            match current {
                Target::Workflow(id) => {
                    proof {
                        lemma_target_in_range(self.workflows@[id as int].predicates@, part, 0);
                    }
                    current = self.workflows[id].apply(part);
                    steps = steps - 1;
                },
                _ => {
                    steps = 0;
                },
            }
        }
        matches!(current, Target::Accepted)
    }
}

/// Where a part is sent is the target of one of the rules.
pub proof fn lemma_target_in_range(rules: Seq<(Condition, Target)>, part: Part, from: int)
    requires
        0 <= from,
        first_match(rules, part, from) is Some,
    ensures
        exists|k: int|
            from <= k < rules.len() && (#[trigger] rules[k]).1 == first_match(rules, part, from)->0
                && rules[k].0.holds(part),
    decreases rules.len() - from,
{
    if !rules[from].0.holds(part) {
        lemma_target_in_range(rules, part, from + 1);
    }
}

/// Every rating of the part lies between 1 and 4000.
pub open spec fn full(part: Part) -> bool {
    1 <= part.x <= 4000 && 1 <= part.m <= 4000 && 1 <= part.a <= 4000 && 1 <= part.s <= 4000
}

/// One of the ranges holds the part.
pub open spec fn covered(ranges: Seq<PartRange>, part: Part) -> bool {
    exists|k: int| 0 <= k < ranges.len() && #[trigger] ranges[k].contains(part)
}

/// No part is held by two of the ranges.
pub open spec fn apart(ranges: Seq<PartRange>) -> bool {
    forall|i: int, j: int, part: Part|
        0 <= i < j < ranges.len() ==> !(#[trigger] ranges[i].contains(part) && #[trigger] ranges[j].contains(part))
}

/// One of the pieces holds the part.
pub open spec fn placed(pieces: Seq<(PartRange, Target)>, part: Part) -> bool {
    exists|k: int| 0 <= k < pieces.len() && #[trigger] pieces[k].0.contains(part)
}

/// No part is held by two of the pieces, and no piece is empty.
pub open spec fn sorted_out(pieces: Seq<(PartRange, Target)>) -> bool {
    &&& forall|i: int, j: int, part: Part|
        0 <= i < j < pieces.len() ==> !(#[trigger] pieces[i].0.contains(part) && #[trigger] pieces[j].0.contains(part))
    &&& forall|k: int| 0 <= k < pieces.len() ==> (#[trigger] pieces[k]).0.valid()
}

impl Sorter {
    /// Where the part is after `steps` workflows, or where it came to rest
    /// before.
    pub open spec fn walk(&self, part: Part, steps: nat) -> Target
        decreases steps,
    {
        if steps == 0 {
            Target::Workflow(self.entry)
        } else {
            match self.walk(part, (steps - 1) as nat) {
                Target::Workflow(id) if id < self.workflows@.len() => first_match(
                    self.workflows@[id as int].predicates@,
                    part,
                    0,
                ).unwrap(),
                at => at,
            }
        }
    }

    /// The part is still on its way after `steps` workflows.
    pub open spec fn moving(&self, part: Part, steps: nat) -> bool {
        steps == 0 || self.walk(part, (steps - 1) as nat) is Workflow
    }

    /// Where a part goes it stays in order: it is sent to a workflow that is
    /// there.
    pub proof fn lemma_walk(&self, part: Part, steps: nat)
        requires
            self.wf(),
        ensures
            named(self.walk(part, steps)) < self.workflows@.len(),
            self.walk(part, steps) is Workflow ==> self.moving(part, steps),
        decreases steps,
    {
        if steps > 0 {
            self.lemma_walk(part, (steps - 1) as nat);
            match self.walk(part, (steps - 1) as nat) {
                Target::Workflow(id) => {
                    lemma_target_in_range(self.workflows@[id as int].predicates@, part, 0);
                },
                _ => {},
            }
        }
    }

    /// The fate of a part is where its walk has led it.
    pub proof fn lemma_fate(&self, part: Part, done: nat, left: nat)
        requires
            self.wf(),
        ensures
            self.fate(part, self.walk(part, done), left) == self.walk(part, done + left),
        decreases left,
    {
        self.lemma_walk(part, done);
        if left > 0 {
            match self.walk(part, done) {
                Target::Workflow(id) => {
                    self.lemma_fate(part, done + 1, (left - 1) as nat);
                },
                _ => {
                    self.lemma_rest(part, done, left);
                },
            }
        }
    }

    /// A part that has come to rest stays where it is.
    pub proof fn lemma_rest(&self, part: Part, done: nat, more: nat)
        requires
            !(self.walk(part, done) is Workflow),
        ensures
            self.walk(part, done + more) == self.walk(part, done),
        decreases more,
    {
        if more > 0 {
            self.lemma_rest(part, done, (more - 1) as nat);
        }
    }

    /// Sends the parts of `range` through the workflow `id`: each rule takes
    /// those that pass its test, and the rest goes on to the next rule.
    fn spread(&self, range: PartRange, id: usize, next: &mut Vec<(PartRange, Target)>)
        requires
            self.wf(),
            id < self.workflows@.len(),
            range.valid(),
        ensures
            final(next)@.len() >= old(next)@.len(),
            forall|k: int| 0 <= k < old(next)@.len() ==> final(next)@[k] == old(next)@[k],
            forall|k: int, part: Part|
                old(next)@.len() <= k < final(next)@.len() && #[trigger] final(next)@[k].0.contains(part) ==> range.contains(part) && Some(final(next)@[k].1) == first_match(
                    self.workflows@[id as int].predicates@,
                    part,
                    0,
                ),
            forall|part: Part|
                range.contains(part) ==> exists|k: int|
                    old(next)@.len() <= k < final(next)@.len() && #[trigger] final(next)@[k].0.contains(part),
            forall|i: int, j: int, part: Part|
                old(next)@.len() <= i < j < final(next)@.len() ==> !(#[trigger] final(next)@[i].0.contains(part) && #[trigger] final(next)@[j].0.contains(part)),
            forall|k: int|
                old(next)@.len() <= k < final(next)@.len() ==> (#[trigger] final(next)@[k]).0.valid(),
    {
        let workflow = &self.workflows[id];
        let ghost rules = workflow.predicates@;
        let ghost base = next@.len();
        let mut active_range = range;
        let mut i: usize = 0;
        let mut open = true;
        while open && i < workflow.predicates.len()
            invariant
                rules == self.workflows@[id as int].predicates@,
                rules == workflow.predicates@,
                base == old(next)@.len(),
                next@.len() >= base,
                i <= rules.len(),
                open ==> active_range.valid(),
                forall|k: int| 0 <= k < base ==> next@[k] == old(next)@[k],
                forall|part: Part|
                    open && #[trigger] active_range.contains(part) ==> range.contains(part)
                        && first_match(rules, part, i as int) == first_match(rules, part, 0),
                forall|part: Part|
                    #[trigger] range.contains(part) ==> (open && active_range.contains(part)) || (
                    exists|k: int| base <= k < next@.len() && #[trigger] next@[k].0.contains(part)),
                forall|k: int, part: Part|
                    base <= k < next@.len() && #[trigger] next@[k].0.contains(part)
                        ==> range.contains(part) && !(open && active_range.contains(part)) && Some(
                        next@[k].1,
                    ) == first_match(rules, part, 0),
                forall|a: int, b: int, part: Part|
                    base <= a < b < next@.len() ==> !(#[trigger] next@[a].0.contains(part) && #[trigger] next@[b].0.contains(part)),
                forall|k: int| base <= k < next@.len() ==> (#[trigger] next@[k]).0.valid(),
            decreases rules.len() - i, open as int,
        {
            let (condition, target) = workflow.predicates[i];
            let (matched, no_matched) = active_range.split_condition(condition);
            let ghost before = next@;
            let ghost was = active_range;
            match matched {
                Some(matched_range) => {
                    next.push((matched_range, target));
                },
                None => {},
            }
            match no_matched {
                Some(no_matched_range) => {
                    active_range = no_matched_range;
                },
                None => {
                    open = false;
                },
            }
            proof {
                assert forall|part: Part| #[trigger] range.contains(part) implies (open
                    && active_range.contains(part)) || (exists|k: int|
                    base <= k < next@.len() && #[trigger] next@[k].0.contains(part)) by {
                    if was.contains(part) {
                        if condition.holds(part) {
                            assert(next@[before.len() as int].0.contains(part));
                        }
                    } else {
                        let k = choose|k: int|
                            base <= k < before.len() && #[trigger] before[k].0.contains(part);
                        assert(next@[k] == before[k]);
                    }
                }
                assert forall|part: Part| open && #[trigger] active_range.contains(part) implies range.contains(
                    part,
                ) && first_match(rules, part, i + 1) == first_match(rules, part, 0) by {
                    assert(was.contains(part) && !condition.holds(part));
                    assert(rules[i as int] == (condition, target));
                    assert(first_match(rules, part, i as int) == first_match(rules, part, i + 1));
                }
                assert forall|k: int, part: Part|
                    base <= k < next@.len() && #[trigger] next@[k].0.contains(part) implies range.contains(
                    part,
                ) && !(open && active_range.contains(part)) && Some(next@[k].1) == first_match(
                    rules,
                    part,
                    0,
                ) by {
                    if k < before.len() {
                        assert(next@[k] == before[k]);
                        assert(before[k].0.contains(part));
                        assert(!was.contains(part));
                    } else {
                        assert(matched is Some && next@[k] == (matched->0, target));
                        assert(was.contains(part) && condition.holds(part));
                        assert(rules[i as int] == (condition, target));
                        assert(first_match(rules, part, i as int) == Some(target));
                    }
                }
                assert forall|a: int, b: int, part: Part| base <= a < b < next@.len() implies !(#[trigger] next@[a].0.contains(part) && #[trigger] next@[b].0.contains(part)) by {
                    if a < before.len() {
                        assert(next@[a] == before[a]);
                    }
                    if b < before.len() {
                        assert(next@[b] == before[b]);
                    }
                }
                assert forall|k: int| base <= k < next@.len() implies (#[trigger] next@[k]).0.valid() by {
                    if k < before.len() {
                        assert(next@[k] == before[k]);
                    }
                }
            }
            i = i + 1;
        }
        proof {
            assert forall|part: Part| range.contains(part) implies exists|k: int|
                base <= k < next@.len() && #[trigger] next@[k].0.contains(part) by {
                if open && active_range.contains(part) {
                    assert(first_match(rules, part, 0) is Some);
                }
            }
        }
    }
}

/// One of the first `upto` pieces holds the part.
pub open spec fn earlier(pieces: Seq<(PartRange, Target)>, upto: int, part: Part) -> bool {
    exists|j: int| 0 <= j < upto && j < pieces.len() && #[trigger] pieces[j].0.contains(part)
}

impl Sorter {
    /// The pieces are the parts that are still on their way after `steps`
    /// workflows, each piece with the place where its parts are then.
    pub open spec fn level_ok(&self, level: Seq<(PartRange, Target)>, steps: nat) -> bool {
        &&& sorted_out(level)
        &&& forall|k: int, part: Part|
            0 <= k < level.len() && #[trigger] level[k].0.contains(part) ==> full(part)
                && self.moving(part, steps) && self.walk(part, steps) == level[k].1
        &&& forall|part: Part|
            full(part) && self.moving(part, steps) ==> #[trigger] placed(level, part)
    }

    /// The ranges hold the parts that were accepted before `steps` workflows
    /// had been passed, each once.
    pub open spec fn done_ok(&self, accepted: Seq<PartRange>, steps: nat) -> bool {
        &&& apart(accepted)
        &&& forall|k: int, part: Part|
            0 <= k < accepted.len() && #[trigger] accepted[k].contains(part) ==> full(part)
                && steps >= 1 && self.walk(part, (steps - 1) as nat) == Target::Accepted
        &&& forall|part: Part|
            full(part) && steps >= 1 && self.walk(part, (steps - 1) as nat) == Target::Accepted
                ==> #[trigger] covered(accepted, part)
    }

    /// Takes up the pieces of one level: those that are accepted go to
    /// `accepted`, those on their way through a workflow are spread over the
    /// next level, unless `last` says that no workflow is passed any more.
    fn sweep(
        &self,
        level: &Vec<(PartRange, Target)>,
        Ghost(steps): Ghost<nat>,
        last: bool,
        accepted: &mut Vec<PartRange>,
    ) -> (next: Vec<(PartRange, Target)>)
        requires
            self.wf(),
            self.level_ok(level@, steps),
            self.done_ok(old(accepted)@, steps),
        ensures
            self.done_ok(final(accepted)@, steps + 1),
            !last ==> self.level_ok(next@, steps + 1),
    {
        let mut next: Vec<(PartRange, Target)> = Vec::new();
        let mut i: usize = 0;
        while i < level.len()
            invariant
                self.wf(),
                self.level_ok(level@, steps),
                i <= level@.len(),
                apart(accepted@),
                forall|k: int, part: Part|
                    0 <= k < accepted@.len() && #[trigger] accepted@[k].contains(part) ==> full(part)
                        && ((steps >= 1 && self.walk(part, (steps - 1) as nat) == Target::Accepted)
                        || (self.walk(part, steps) == Target::Accepted && earlier(
                        level@,
                        i as int,
                        part,
                    ))),
                forall|part: Part|
                    full(part) && steps >= 1 && self.walk(part, (steps - 1) as nat)
                        == Target::Accepted ==> #[trigger] covered(accepted@, part),
                forall|j: int, part: Part|
                    0 <= j < i && #[trigger] level@[j].0.contains(part) && level@[j].1
                        == Target::Accepted ==> covered(accepted@, part),
                sorted_out(next@),
                forall|m: int, part: Part|
                    0 <= m < next@.len() && #[trigger] next@[m].0.contains(part) ==> !last && earlier(
                        level@,
                        i as int,
                        part,
                    ) && full(part) && self.walk(part, steps) is Workflow && self.walk(
                        part,
                        steps + 1,
                    ) == next@[m].1,
                forall|j: int, part: Part|
                    0 <= j < i && #[trigger] level@[j].0.contains(part) && level@[j].1 is Workflow
                        && !last ==> placed(next@, part),
            decreases level@.len() - i,
        {
            let (range, target) = level[i];
            let ghost was = accepted@;
            let ghost before = next@;
            let ghost at = i as int;
            assert(level@[at].0.valid());
            match target {
                Target::Rejected => {},
                Target::Accepted => {
                    accepted.push(range);
                },
                Target::Workflow(id) => {
                    if !last {
                        proof {
                            lemma_valid_holds(range);
                            let part = choose|part: Part| range.contains(part);
                            assert(level@[at].0.contains(part));
                            self.lemma_walk(part, steps);
                        }
                        self.spread(range, id, &mut next);
                    }
                },
            }
            proof {
                assert forall|part: Part|
                    earlier(level@, at, part) implies #[trigger] earlier(level@, at + 1, part) by {
                    let j = choose|j: int|
                        0 <= j < at && j < level@.len() && #[trigger] level@[j].0.contains(part);
                    assert(level@[j].0.contains(part));
                }
                assert forall|part: Part| #[trigger] range.contains(part) implies earlier(
                    level@,
                    at + 1,
                    part,
                ) by {
                    assert(level@[at].0.contains(part));
                }
                assert forall|part: Part| covered(was, part) implies #[trigger] covered(
                    accepted@,
                    part,
                ) by {
                    let k = choose|k: int| 0 <= k < was.len() && #[trigger] was[k].contains(part);
                    assert(accepted@[k] == was[k]);
                }
                assert forall|part: Part| placed(before, part) implies #[trigger] placed(
                    next@,
                    part,
                ) by {
                    let k = choose|k: int|
                        0 <= k < before.len() && #[trigger] before[k].0.contains(part);
                    assert(next@[k] == before[k]);
                }
                assert forall|k: int, part: Part|
                    0 <= k < accepted@.len() && #[trigger] accepted@[k].contains(part) implies full(
                    part,
                ) && ((steps >= 1 && self.walk(part, (steps - 1) as nat) == Target::Accepted) || (
                self.walk(part, steps) == Target::Accepted && earlier(level@, at + 1, part))) by {
                    if k < was.len() {
                        assert(accepted@[k] == was[k]);
                        assert(was[k].contains(part));
                    } else {
                        assert(level@[at].0.contains(part));
                    }
                }
                assert(apart(accepted@)) by {
                    assert forall|a: int, b: int, part: Part|
                        0 <= a < b < accepted@.len() implies !(#[trigger] accepted@[a].contains(part)
                        && #[trigger] accepted@[b].contains(part)) by {
                        if b < was.len() {
                            assert(accepted@[a] == was[a]);
                            assert(accepted@[b] == was[b]);
                        } else if accepted@[a].contains(part) && accepted@[b].contains(part) {
                            assert(accepted@[a] == was[a]);
                            assert(was[a].contains(part));
                            assert(level@[at].0.contains(part));
                            if steps >= 1 && self.walk(part, (steps - 1) as nat)
                                == Target::Accepted {
                            } else {
                                let j = choose|j: int|
                                    0 <= j < at && j < level@.len() && #[trigger] level@[j].0.contains(
                                        part,
                                    );
                                assert(level@[j].0.contains(part));
                            }
                        }
                    }
                }
                assert forall|j: int, part: Part|
                    0 <= j < at + 1 && #[trigger] level@[j].0.contains(part) && level@[j].1
                        == Target::Accepted implies covered(accepted@, part) by {
                    if j == at {
                        assert(accepted@[was.len() as int].contains(part));
                    } else {
                        assert(covered(was, part));
                    }
                }
                assert forall|m: int, part: Part|
                    0 <= m < next@.len() && #[trigger] next@[m].0.contains(part) implies !last
                    && earlier(level@, at + 1, part) && full(part) && self.walk(part, steps)
                    is Workflow && self.walk(part, steps + 1) == next@[m].1 by {
                    if m < before.len() {
                        assert(next@[m] == before[m]);
                        assert(before[m].0.contains(part));
                    } else {
                        assert(range.contains(part));
                        assert(level@[at].0.contains(part));
                    }
                }
                assert(sorted_out(next@)) by {
                    assert forall|a: int, b: int, part: Part|
                        0 <= a < b < next@.len() implies !(#[trigger] next@[a].0.contains(part)
                        && #[trigger] next@[b].0.contains(part)) by {
                        if next@[a].0.contains(part) && next@[b].0.contains(part) {
                            if b < before.len() {
                                assert(next@[a] == before[a]);
                                assert(next@[b] == before[b]);
                            } else if a < before.len() {
                                assert(next@[a] == before[a]);
                                assert(before[a].0.contains(part));
                                assert(range.contains(part));
                                assert(level@[at].0.contains(part));
                                let j = choose|j: int|
                                    0 <= j < at && j < level@.len() && #[trigger] level@[j].0.contains(
                                        part,
                                    );
                                assert(level@[j].0.contains(part));
                            }
                        }
                    }
                    assert forall|k: int| 0 <= k < next@.len() implies (#[trigger] next@[k]).0.valid() by {
                        if k < before.len() {
                            assert(next@[k] == before[k]);
                        }
                    }
                }
                assert forall|j: int, part: Part|
                    0 <= j < at + 1 && #[trigger] level@[j].0.contains(part) && level@[j].1
                        is Workflow && !last implies placed(next@, part) by {
                    if j == at {
                        assert(range.contains(part));
                        let k = choose|k: int|
                            before.len() <= k < next@.len() && #[trigger] next@[k].0.contains(part);
                        assert(next@[k].0.contains(part));
                    } else {
                        assert(placed(before, part));
                    }
                }
            }
            i = i + 1;
        }
        proof {
            assert forall|k: int, part: Part|
                0 <= k < accepted@.len() && #[trigger] accepted@[k].contains(part) implies full(part)
                && self.walk(part, steps) == Target::Accepted by {
                if steps >= 1 && self.walk(part, (steps - 1) as nat) == Target::Accepted {
                    self.lemma_rest(part, (steps - 1) as nat, 1);
                }
            }
            assert forall|part: Part|
                full(part) && self.walk(part, steps) == Target::Accepted implies #[trigger] covered(
                accepted@,
                part,
            ) by {
                if steps >= 1 && self.walk(part, (steps - 1) as nat) == Target::Accepted {
                } else {
                    if steps >= 1 && !(self.walk(part, (steps - 1) as nat) is Workflow) {
                        self.lemma_rest(part, (steps - 1) as nat, 1);
                    }
                    assert(self.moving(part, steps));
                    assert(placed(level@, part));
                    let j = choose|j: int|
                        0 <= j < level@.len() && #[trigger] level@[j].0.contains(part);
                    assert(level@[j].0.contains(part));
                }
            }
            if !last {
                assert forall|part: Part|
                    full(part) && self.moving(part, steps + 1) implies #[trigger] placed(
                    next@,
                    part,
                ) by {
                    self.lemma_walk(part, steps);
                    assert(placed(level@, part));
                    let j = choose|j: int|
                        0 <= j < level@.len() && #[trigger] level@[j].0.contains(part);
                    assert(level@[j].0.contains(part));
                }
            }
        }
        next
    }

    /// The ranges of the parts that are accepted: between them they hold
    /// just the parts with ratings from 1 to 4000 that the sorter accepts, and
    /// none of them twice.
    pub fn accepted_ranges(&self) -> (accepted: Vec<PartRange>)
        requires
            self.wf(),
        ensures
            apart(accepted@),
            forall|k: int, part: Part|
                0 <= k < accepted@.len() && #[trigger] accepted@[k].contains(part) ==> full(part)
                    && self.accepts(part),
            forall|part: Part| full(part) && self.accepts(part) ==> #[trigger] covered(accepted@, part),
    {
        let mut accepted: Vec<PartRange> = Vec::new();
        let mut level: Vec<(PartRange, Target)> = Vec::new();
        level.push((PartRange::new(), Target::Workflow(self.entry)));
        let n = self.workflows.len();
        let mut depth: usize = 0;
        proof {
            assert forall|part: Part| full(part) implies #[trigger] placed(level@, part) by {
                assert(level@[0].0.contains(part));
            }
        }
        while depth < n
            invariant
                self.wf(),
                n == self.workflows@.len(),
                depth <= n,
                self.level_ok(level@, depth as nat),
                self.done_ok(accepted@, depth as nat),
            decreases n - depth,
        {
            let next = self.sweep(&level, Ghost(depth as nat), false, &mut accepted);
            level = next;
            depth = depth + 1;
        }
        let _ = self.sweep(&level, Ghost(n as nat), true, &mut accepted);
        proof {
            assert forall|part: Part| self.accepts(part) == (self.walk(part, n as nat)
                == Target::Accepted) by {
                self.lemma_fate(part, 0, n as nat);
            }
            assert forall|part: Part|
                full(part) && self.accepts(part) implies #[trigger] covered(accepted@, part) by {
                assert(self.walk(part, n as nat) == Target::Accepted);
            }
        }
        accepted
    }
}

/// A range without an empty span holds a part.
proof fn lemma_valid_holds(range: PartRange)
    requires
        range.valid(),
    ensures
        exists|part: Part| range.contains(part),
{
    let part = Part { x: range.x.start, m: range.m.start, a: range.a.start, s: range.s.start };
    assert(range.contains(part));
}

/// A byte of a name: a letter.
pub open spec fn is_letter(byte: u8) -> bool {
    0x41 <= byte <= 0x5a || 0x61 <= byte <= 0x7a
}

/// How many letters stand at the start of the text.
pub open spec fn letters(text: Seq<u8>) -> nat
    decreases text.len(),
{
    if text.len() == 0 || !is_letter(text[0]) {
        0
    } else {
        1 + letters(text.skip(1))
    }
}

/// Where letters stand up to a place and none stands at it, that many
/// letters stand at the start.
pub proof fn lemma_letters(text: Seq<u8>, count: int)
    requires
        0 <= count <= text.len(),
        forall|k: int| 0 <= k < count ==> is_letter(#[trigger] text[k]),
        count < text.len() ==> !is_letter(text[count]),
    ensures
        letters(text) == count,
    decreases count,
{
    if count > 0 {
        let rest = text.skip(1);
        assert(is_letter(text[0]));
        assert forall|k: int| 0 <= k < count - 1 implies is_letter(#[trigger] rest[k]) by {
            assert(rest[k] == text[k + 1]);
        }
        if count - 1 < rest.len() {
            assert(rest[count - 1] == text[count]);
        }
        lemma_letters(rest, count - 1);
    }
}

/// The letters that stand at `from`, and where they end.
fn read_word(bytes: &[u8], from: usize, to: usize) -> (r: (Vec<u8>, usize))
    requires
        from <= to <= bytes@.len(),
    ensures
        from <= r.1 <= to,
        r.1 == from + letters(bytes@.subrange(from as int, to as int)),
        r.0@ == bytes@.subrange(from as int, r.1 as int),
        forall|k: int| from <= k < r.1 ==> is_letter(#[trigger] bytes@[k]),
        r.1 < to ==> !is_letter(bytes@[r.1 as int]),
{
    let mut word: Vec<u8> = Vec::new();
    let mut at = from;
    while at < to && (0x41 <= bytes[at] && bytes[at] <= 0x5a || 0x61 <= bytes[at] && bytes[at]
        <= 0x7a)
        invariant
            from <= at <= to <= bytes@.len(),
            word@ == bytes@.subrange(from as int, at as int),
            forall|k: int| from <= k < at ==> is_letter(#[trigger] bytes@[k]),
        decreases to - at,
    {
        word.push(bytes[at]);
        at = at + 1;
        proof {
            assert(word@ =~= bytes@.subrange(from as int, at as int));
        }
    }
    proof {
        let part = bytes@.subrange(from as int, to as int);
        assert forall|k: int| 0 <= k < at - from implies is_letter(#[trigger] part[k]) by {
            assert(part[k] == bytes@[from + k]);
        }
        if at < to {
            assert(part[at - from] == bytes@[at as int]);
        }
        lemma_letters(part, at - from);
    }
    (word, at)
}

/// The test that a rating, a sign and a limit stand for.
pub open spec fn condition_of(rating: u8, sign: u8, limit: usize) -> Option<Condition> {
    if rating == 0x78 && sign == 0x3c {
        Some(Condition::XLess(limit))
    } else if rating == 0x78 && sign == 0x3e {
        Some(Condition::XGreater(limit))
    } else if rating == 0x6d && sign == 0x3c {
        Some(Condition::MLess(limit))
    } else if rating == 0x6d && sign == 0x3e {
        Some(Condition::MGreater(limit))
    } else if rating == 0x61 && sign == 0x3c {
        Some(Condition::ALess(limit))
    } else if rating == 0x61 && sign == 0x3e {
        Some(Condition::AGreater(limit))
    } else if rating == 0x73 && sign == 0x3c {
        Some(Condition::SLess(limit))
    } else if rating == 0x73 && sign == 0x3e {
        Some(Condition::SGreater(limit))
    } else {
        None
    }
}

impl Condition {
    /// The test that a rating, a sign and a limit stand for.
    pub fn from(rating: u8, sign: u8, limit: usize) -> (r: Option<Self>)
        ensures
            r == condition_of(rating, sign, limit),
    {
        if rating == 0x78 && sign == 0x3c {
            Some(Condition::XLess(limit))
        } else if rating == 0x78 && sign == 0x3e {
            Some(Condition::XGreater(limit))
        } else if rating == 0x6d && sign == 0x3c {
            Some(Condition::MLess(limit))
        } else if rating == 0x6d && sign == 0x3e {
            Some(Condition::MGreater(limit))
        } else if rating == 0x61 && sign == 0x3c {
            Some(Condition::ALess(limit))
        } else if rating == 0x61 && sign == 0x3e {
            Some(Condition::AGreater(limit))
        } else if rating == 0x73 && sign == 0x3c {
            Some(Condition::SLess(limit))
        } else if rating == 0x73 && sign == 0x3e {
            Some(Condition::SGreater(limit))
        } else {
            None
        }
    }
}

impl Part {
    /// The part with one rating set: `x`, `m`, `a` or `s`; `None` for
    /// another key.
    pub open spec fn with(self, key: u8, value: usize) -> Option<Part> {
        if key == 0x78 {
            Some(Part { x: value, ..self })
        } else if key == 0x6d {
            Some(Part { m: value, ..self })
        } else if key == 0x61 {
            Some(Part { a: value, ..self })
        } else if key == 0x73 {
            Some(Part { s: value, ..self })
        } else {
            None
        }
    }

    /// The part that the ratings from `at` on make of `self`: each is a
    /// letter, an equals sign and a number, and a comma parts it from the
    /// next. `None` where the text is not of that form.
    pub open spec fn rated(self, text: Seq<u8>, at: int) -> Option<Part>
        decreases text.len() - at,
    {
        let digits = run(text.skip(at + 2)) as int;
        let value = decimal(text.subrange(at + 2, at + 2 + digits));
        let after = at + 2 + digits;
        if at < 0 || at >= text.len() {
            Some(self)
        } else if text.len() - at < 3 || text[at + 1] != 0x3d || digits == 0 || value
            > usize::MAX {
            None
        } else {
            match self.with(text[at], value as usize) {
                Some(part) => if after >= text.len() {
                    Some(part)
                } else if text[after] != 0x2c {
                    None
                } else {
                    part.rated(text, after + 1)
                },
                None => None,
            }
        }
    }

    /// The part that a text stands for: within braces its ratings. A rating
    /// that is not given is 0; of one given twice the last counts.
    pub open spec fn of(text: Seq<u8>) -> Option<Part> {
        if text.len() < 2 || text[0] != 0x7b || text.last() != 0x7d {
            None
        } else {
            (Part { x: 0, m: 0, a: 0, s: 0 }).rated(text.subrange(1, text.len() - 1), 0)
        }
    }

    /// Reads a part.
    pub fn from(bytes: &[u8], from: usize, to: usize) -> (r: Option<Self>)
        requires
            from <= to <= bytes@.len(),
        ensures
            r == Part::of(bytes@.subrange(from as int, to as int)),
    {
        let mut part = Part { x: 0, m: 0, a: 0, s: 0 };
        if to - from < 2 || bytes[from] != 0x7b || bytes[to - 1] != 0x7d {
            return None;
        }
        let inner = slice_subrange(bytes, from + 1, to - 1);
        let ghost text = bytes@.subrange(from as int, to as int);
        proof {
            assert(inner@ =~= text.subrange(1, text.len() - 1));
        }
        let end = inner.len();
        let mut at: usize = 0;
        while at < end
            invariant
                at <= end,
                end == inner@.len(),
                text == bytes@.subrange(from as int, to as int),
                part.rated(inner@, at as int) == Part::of(text),
            decreases end - at,
        {
            if end - at < 3 || inner[at + 1] != 0x3d {
                return None;
            }
            let key = inner[at];
            let (value, after) = read_number(inner, at + 2);
            let value = match value {
                Some(value) => value,
                None => {
                    return None;
                },
            };
            if after == at + 2 {
                return None;
            }
            if key == 0x78 {
                part.x = value;
            } else if key == 0x6d {
                part.m = value;
            } else if key == 0x61 {
                part.a = value;
            } else if key == 0x73 {
                part.s = value;
            } else {
                return None;
            }
            if after < end {
                if inner[after] != 0x2c {
                    return None;
                }
                at = after + 1;
            } else {
                at = after;
            }
        }
        Some(part)
    }
}

/// A rule stands at the end of the rules that tests nothing.
pub open spec fn closes(rules: Seq<(Condition, Target)>) -> bool {
    rules.len() >= 1 && rules.last().0 == Condition::Always
}

/// Rules of which the last tests nothing send every part somewhere.
pub proof fn lemma_closes(rules: Seq<(Condition, Target)>, part: Part, from: int)
    requires
        closes(rules),
        0 <= from < rules.len(),
    ensures
        first_match(rules, part, from) is Some,
    decreases rules.len() - from,
{
    if !rules[from].0.holds(part) {
        lemma_closes(rules, part, from + 1);
    }
}

/// What a word names as a target: `A` accepts, `R` rejects, and any other
/// word is the first of the names that it is.
pub open spec fn target_of(word: Seq<u8>, names: Seq<Seq<u8>>) -> Option<Target> {
    if word.len() == 1 && word[0] == 0x41 {
        Some(Target::Accepted)
    } else if word.len() == 1 && word[0] == 0x52 {
        Some(Target::Rejected)
    } else if seek(names, word) < names.len() {
        Some(Target::Workflow(seek(names, word) as usize))
    } else {
        None
    }
}

/// The rules that stand in `body` from `at` on. A rule with a test is a
/// rating, `<` or `>`, a limit, a colon, a target and a comma; the last
/// rule is a target alone, and the body ends with it.
pub open spec fn rules_of(body: Seq<u8>, names: Seq<Seq<u8>>, at: int) -> Option<
    Seq<(Condition, Target)>,
>
    decreases body.len() - at,
{
    if at < 0 || at >= body.len() {
        None
    } else if at + 2 <= body.len() && (body[at + 1] == 0x3c || body[at + 1] == 0x3e) {
        let colon = at + 2 + run(body.skip(at + 2));
        let limit = decimal(body.subrange(at + 2, colon));
        if colon == at + 2 || limit > usize::MAX || colon >= body.len() || body[colon] != 0x3a {
            None
        } else {
            let comma = colon + 1 + letters(body.skip(colon + 1));
            if comma == colon + 1 || comma >= body.len() || body[comma] != 0x2c {
                None
            } else {
                match (
                    condition_of(body[at], body[at + 1], limit as usize),
                    target_of(body.subrange(colon + 1, comma), names),
                    rules_of(body, names, comma + 1),
                ) {
                    (Some(condition), Some(target), Some(rest)) => Some(
                        seq![(condition, target)] + rest,
                    ),
                    _ => None,
                }
            }
        }
    } else if letters(body.skip(at)) == 0 || at + letters(body.skip(at)) != body.len() {
        None
    } else {
        match target_of(body.skip(at), names) {
            Some(target) => Some(seq![(Condition::Always, target)]),
            None => None,
        }
    }
}

/// The line is that of a workflow: a name of letters, and behind it braces
/// that reach to the end of the line.
pub open spec fn headed(line: Seq<u8>) -> bool {
    letters(line) >= 1 && letters(line) + 2 <= line.len() && line[letters(line) as int] == 0x7b
        && line.last() == 0x7d
}

/// The name that a workflow's line starts with.
pub open spec fn name_of(line: Seq<u8>) -> Seq<u8> {
    line.take(letters(line) as int)
}

/// What stands within the braces of a workflow's line.
pub open spec fn body_of(line: Seq<u8>) -> Seq<u8> {
    line.subrange(letters(line) as int + 1, line.len() - 1)
}

/// Each line that is not empty is that of a workflow.
pub open spec fn well_headed(text: Seq<Seq<u8>>) -> bool {
    forall|k: int| 0 <= k < text.len() ==> text[k].len() == 0 || #[trigger] headed(text[k])
}

/// The names of the workflows in the first `upto` lines, in their order;
/// empty lines hold none.
pub open spec fn names_in(text: Seq<Seq<u8>>, upto: int) -> Seq<Seq<u8>>
    decreases upto,
{
    if upto <= 0 {
        Seq::empty()
    } else if text[upto - 1].len() == 0 {
        names_in(text, upto - 1)
    } else {
        names_in(text, upto - 1).push(name_of(text[upto - 1]))
    }
}

/// The rules of the workflows in the first `upto` lines, in their order,
/// the workflows being named `names`. `None` where the rules of a line are
/// not of the form of `rules_of`.
pub open spec fn workflows_in(text: Seq<Seq<u8>>, names: Seq<Seq<u8>>, upto: int) -> Option<
    Seq<Seq<(Condition, Target)>>,
>
    decreases upto,
{
    if upto <= 0 {
        Some(Seq::empty())
    } else if text[upto - 1].len() == 0 {
        workflows_in(text, names, upto - 1)
    } else {
        match (
            workflows_in(text, names, upto - 1),
            rules_of(body_of(text[upto - 1]), names, 0),
        ) {
            (Some(before), Some(rules)) => Some(before.push(rules)),
            _ => None,
        }
    }
}

/// Workflows that cannot be read from the first lines cannot be read from
/// more of them.
pub proof fn lemma_workflows_in(text: Seq<Seq<u8>>, names: Seq<Seq<u8>>, at: int, upto: int)
    requires
        0 <= at <= upto,
        workflows_in(text, names, at) is None,
    ensures
        workflows_in(text, names, upto) is None,
    decreases upto - at,
{
    if at < upto {
        lemma_workflows_in(text, names, at, upto - 1);
    }
}

/// The sorter that the lines describe: the rules of its workflows in the
/// order of their lines, and the place of the workflow named `in`. `None`
/// where a line is not that of a workflow, where the rules of one are not
/// of the form of `rules_of`, or where no workflow is named `in`.
pub open spec fn sorter_of(text: Seq<Seq<u8>>) -> Option<(Seq<Seq<(Condition, Target)>>, usize)> {
    let names = names_in(text, text.len() as int);
    if !well_headed(text) || seek(names, seq![0x69u8, 0x6eu8]) >= names.len() {
        None
    } else {
        match workflows_in(text, names, text.len() as int) {
            Some(workflows) => Some((workflows, seek(names, seq![0x69u8, 0x6eu8]) as usize)),
            None => None,
        }
    }
}

/// The rules of each of the workflows.
pub open spec fn ruled(workflows: Seq<Workflow>) -> Seq<Seq<(Condition, Target)>> {
    workflows.map_values(|workflow: Workflow| workflow.predicates@)
}

/// The target that a word names among the names.
fn read_target(word: &Vec<u8>, names: &Vec<Vec<u8>>) -> (r: Option<Target>)
    ensures
        r == target_of(word@, rows_of(names@)),
{
    if word.len() == 1 && word[0] == 0x41 {
        Some(Target::Accepted)
    } else if word.len() == 1 && word[0] == 0x52 {
        Some(Target::Rejected)
    } else {
        let found = lookup(names, word);
        proof {
            let known = rows_of(names@);
            let at: int = match found {
                Some(at) => at as int,
                None => known.len() as int,
            };
            assert forall|k: int| 0 <= k < at implies #[trigger] known[k] != word@ by {
                assert(known[k] == names@[k]@);
            }
            if at < known.len() {
                assert(known[at] == names@[at]@);
            }
            lemma_seek(known, word@, at);
        }
        match found {
            Some(next) => Some(Target::Workflow(next)),
            None => None,
        }
    }
}

/// The rules that stand within the braces of a workflow.
fn read_rules(body: &Vec<u8>, names: &Vec<Vec<u8>>) -> (r: Option<Vec<(Condition, Target)>>)
    requires
        names@.len() >= 1,
    ensures
        match r {
            Some(rules) => rules_of(body@, rows_of(names@), 0) == Some(rules@) && closes(rules@)
                && forall|k: int|
                0 <= k < rules@.len() ==> named((#[trigger] rules@[k]).1) < names@.len(),
            None => rules_of(body@, rows_of(names@), 0) is None,
        },
{
    let ghost known = rows_of(names@);
    let ghost goal = rules_of(body@, known, 0);
    let mut rules: Vec<(Condition, Target)> = Vec::new();
    let mut at: usize = 0;
    proof {
        match goal {
            Some(rest) => {
                assert(rules@ + rest =~= rest);
            },
            None => {},
        }
    }
    loop
        invariant_except_break
            match rules_of(body@, known, at as int) {
                Some(rest) => goal == Some(rules@ + rest),
                None => goal is None,
            },
        invariant
            at <= body@.len(),
            known == rows_of(names@),
            names@.len() >= 1,
            forall|k: int| 0 <= k < rules@.len() ==> named((#[trigger] rules@[k]).1) < names@.len(),
            goal == rules_of(body@, rows_of(names@), 0),
        ensures
            goal == Some(rules@),
            closes(rules@),
            forall|k: int| 0 <= k < rules@.len() ==> named((#[trigger] rules@[k]).1) < names@.len(),
        decreases body@.len() - at,
    {
        if at >= body.len() {
            return None;
        }
        let ghost before = rules@;
        if body.len() - at >= 2 && (body[at + 1] == 0x3c || body[at + 1] == 0x3e) {
            let (limit, colon) = read_number(body.as_slice(), at + 2);
            let limit = match limit {
                Some(limit) => limit,
                None => {
                    return None;
                },
            };
            if colon == at + 2 || colon >= body.len() || body[colon] != 0x3a {
                return None;
            }
            let (word, comma) = read_word(body.as_slice(), colon + 1, body.len());
            proof {
                assert(body@.subrange(colon + 1, body@.len() as int) =~= body@.skip(colon + 1));
            }
            if comma == colon + 1 || comma >= body.len() || body[comma] != 0x2c {
                return None;
            }
            let condition = match Condition::from(body[at], body[at + 1], limit) {
                Some(condition) => condition,
                None => {
                    return None;
                },
            };
            let target = match read_target(&word, names) {
                Some(target) => target,
                None => {
                    return None;
                },
            };
            rules.push((condition, target));
            proof {
                match rules_of(body@, known, comma + 1) {
                    Some(rest) => {
                        assert(rules@ + rest =~= before + (seq![(condition, target)] + rest));
                    },
                    None => {},
                }
            }
            at = comma + 1;
        } else {
            let (word, end) = read_word(body.as_slice(), at, body.len());
            proof {
                assert(body@.subrange(at as int, body@.len() as int) =~= body@.skip(at as int));
            }
            if end == at || end != body.len() {
                return None;
            }
            let target = match read_target(&word, names) {
                Some(target) => target,
                None => {
                    return None;
                },
            };
            rules.push((Condition::Always, target));
            proof {
                assert(rules@ =~= before + seq![(Condition::Always, target)]);
            }
            break ;
        }
    }
    Some(rules)
}

impl Sorter {
    /// The rules of each of the workflows.
    pub open spec fn rules(&self) -> Seq<Seq<(Condition, Target)>> {
        ruled(self.workflows@)
    }

    /// Reads a sorter: in each line the name of a workflow and, within
    /// braces, its rules with commas between them; a rule is a test, a colon
    /// and a target, the last rule a target alone; a target is `A`, `R` or the
    /// name of a workflow. The workflows are numbered in the order of their
    /// lines, and parts start at the one named `in`. `None` where the text is
    /// not of that form, where a rule names a workflow that no line is for,
    /// or where no workflow is named `in`.
    pub fn from(value: &str) -> (r: Option<Self>)
        ensures
            match r {
                Some(sorter) => sorter.wf() && sorter_of(lines(value.spec_bytes())) == Some(
                    (sorter.rules(), sorter.entry),
                ),
                None => sorter_of(lines(value.spec_bytes())) is None,
            },
    {
        Sorter::read(value.as_bytes())
    }

    /// Reads a sorter from its bytes.
    fn read(bytes: &[u8]) -> (r: Option<Self>)
        ensures
            match r {
                Some(sorter) => sorter.wf() && sorter_of(lines(bytes@)) == Some(
                    (sorter.rules(), sorter.entry),
                ),
                None => sorter_of(lines(bytes@)) is None,
            },
    {
        let rows = split_lines(bytes);
        let ghost text = lines(bytes@);
        let mut names: Vec<Vec<u8>> = Vec::new();
        let mut i: usize = 0;
        proof {
            assert(rows_of(names@) =~= names_in(text, 0));
        }
        while i < rows.len()
            invariant
                i <= rows@.len(),
                text == rows_of(rows@),
                text == lines(bytes@),
                rows_of(names@) == names_in(text, i as int),
                forall|k: int| 0 <= k < i ==> text[k].len() == 0 || #[trigger] headed(text[k]),
            decreases rows@.len() - i,
        {
            let row = &rows[i];
            proof {
                assert(text[i as int] == row@);
                assert(row@.subrange(0, row@.len() as int) =~= row@);
            }
            if row.len() > 0 {
                let (name, after) = read_word(row.as_slice(), 0, row.len());
                if name.len() == 0 || row.len() - after < 2 || row[after] != 0x7b || row[row.len()
                    - 1] != 0x7d {
                    proof {
                        assert(!headed(text[i as int]));
                    }
                    return None;
                }
                let ghost before = names@;
                names.push(name);
                proof {
                    assert(name@ =~= name_of(text[i as int]));
                    assert(rows_of(names@) =~= rows_of(before).push(name@));
                }
            }
            i = i + 1;
        }
        let ghost known = rows_of(names@);
        let mut wanted: Vec<u8> = Vec::new();
        wanted.push(0x69);
        wanted.push(0x6e);
        proof {
            assert(wanted@ =~= seq![0x69u8, 0x6eu8]);
        }
        let entry = match read_target(&wanted, &names) {
            Some(Target::Workflow(entry)) => entry,
            _ => {
                return None;
            },
        };
        let mut workflows: Vec<Workflow> = Vec::new();
        i = 0;
        proof {
            assert(ruled(workflows@) =~= Seq::empty());
        }
        while i < rows.len()
            invariant
                i <= rows@.len(),
                text == rows_of(rows@),
                text == lines(bytes@),
                known == rows_of(names@),
                known == names_in(text, text.len() as int),
                well_headed(text),
                names@.len() >= 1,
                workflows_in(text, known, i as int) == Some(ruled(workflows@)),
                workflows@.len() == names_in(text, i as int).len(),
                forall|w: int|
                    0 <= w < workflows@.len() ==> closes((#[trigger] workflows@[w]).predicates@),
                forall|w: int, k: int|
                    0 <= w < workflows@.len() && 0 <= k < workflows@[w].predicates@.len() ==> named(
                        (#[trigger] workflows@[w].predicates@[k]).1,
                    ) < names@.len(),
            decreases rows@.len() - i,
        {
            let row = &rows[i];
            proof {
                assert(text[i as int] == row@);
                assert(row@.subrange(0, row@.len() as int) =~= row@);
                assert(headed(text[i as int]) || row@.len() == 0);
            }
            if row.len() > 0 {
                let (_, after) = read_word(row.as_slice(), 0, row.len());
                let body = copy(row.as_slice(), after + 1, row.len() - 1);
                let predicates = match read_rules(&body, &names) {
                    Some(predicates) => predicates,
                    None => {
                        proof {
                            lemma_workflows_in(text, known, i + 1, text.len() as int);
                        }
                        return None;
                    },
                };
                let ghost done = workflows@;
                workflows.push(Workflow { predicates });
                proof {
                    assert(ruled(workflows@) =~= ruled(done).push(predicates@));
                    assert forall|w: int| 0 <= w < workflows@.len() implies closes(
                        (#[trigger] workflows@[w]).predicates@,
                    ) by {
                        if w < done.len() {
                            assert(workflows@[w] == done[w]);
                        }
                    }
                    assert forall|w: int, k: int|
                        0 <= w < workflows@.len() && 0 <= k
                            < workflows@[w].predicates@.len() implies named(
                        (#[trigger] workflows@[w].predicates@[k]).1,
                    ) < names@.len() by {
                        if w < done.len() {
                            assert(workflows@[w] == done[w]);
                        }
                    }
                }
            }
            i = i + 1;
        }
        let sorter = Sorter { workflows, entry };
        proof {
            assert forall|id: int, part: Part|
                0 <= id < sorter.workflows@.len() implies #[trigger] first_match(
                sorter.workflows@[id].predicates@,
                part,
                0,
            ) is Some by {
                lemma_closes(sorter.workflows@[id].predicates@, part, 0);
            }
        }
        Some(sorter)
    }
}

impl PartRange {
    /// How many parts there are; `None` where they are more than the
    /// machine can count.
    pub fn try_combinations(&self) -> (r: Option<usize>)
        ensures
            match r {
                Some(count) => count == self.size(),
                None => self.size() > usize::MAX,
            },
    {
        if self.x.start > self.x.end || self.m.start > self.m.end || self.a.start > self.a.end
            || self.s.start > self.s.end {
            proof {
                assert(self.x.count() * self.m.count() * self.a.count() * self.s.count() == 0)
                    by (nonlinear_arith)
                    requires
                        self.x.count() == 0 || self.m.count() == 0 || self.a.count() == 0
                            || self.s.count() == 0,
                ;
            }
            return Some(0);
        }
        let x = self.x.end - self.x.start;
        let m = self.m.end - self.m.start;
        let a = self.a.end - self.a.start;
        let s = self.s.end - self.s.start;
        let ghost cx = self.x.count() as int;
        let ghost cm = self.m.count() as int;
        let ghost ca = self.a.count() as int;
        let ghost cs = self.s.count() as int;
        proof {
            assert(cx <= cx * cm * ca * cs && cx * cm <= cx * cm * ca * cs && cx * cm * ca <= cx
                * cm * ca * cs && cm <= cx * cm * ca * cs && ca <= cx * cm * ca * cs && cs <= cx
                * cm * ca * cs) by (nonlinear_arith)
                requires
                    cx >= 1,
                    cm >= 1,
                    ca >= 1,
                    cs >= 1,
            ;
        }
        let cx = match x.checked_add(1) {
            Some(count) => count,
            None => {
                return None;
            },
        };
        let cm = match m.checked_add(1) {
            Some(count) => count,
            None => {
                return None;
            },
        };
        let ca = match a.checked_add(1) {
            Some(count) => count,
            None => {
                return None;
            },
        };
        let cs = match s.checked_add(1) {
            Some(count) => count,
            None => {
                return None;
            },
        };
        let two = match cx.checked_mul(cm) {
            Some(two) => two,
            None => {
                return None;
            },
        };
        let three = match two.checked_mul(ca) {
            Some(three) => three,
            None => {
                return None;
            },
        };
        three.checked_mul(cs)
    }
}

/// The sorter is the one that the text describes.
pub open spec fn reads_as(text: Seq<u8>, sorter: Sorter) -> bool {
    sorter.wf() && sorter_of(lines(text)) == Some((sorter.rules(), sorter.entry))
}

/// What the line adds to the sum: the ratings of its part where the sorter
/// accepts the part, else nothing. `None` where the line holds no part.
pub open spec fn worth(sorter: Sorter, line: Seq<u8>) -> Option<nat> {
    match Part::of(line) {
        Some(part) => Some(
            if sorter.accepts(part) {
                (part.x + part.m + part.a + part.s) as nat
            } else {
                0
            },
        ),
        None => None,
    }
}

/// The sum of the ratings of the parts of the text that its sorter
/// accepts; the sorter stands before the first empty line, the parts behind
/// it, one in each line. `None` where the text has no empty line, where no
/// sorter stands before it, where a line behind it holds no part, or where
/// a sum is no number of the machine.
pub fn solve_part1(input: &str) -> (r: Option<usize>)
    ensures
        match r {
            Some(total) => until_gap(input.spec_bytes()) < input.spec_bytes().len()
                && exists|sorter: Sorter|
                #[trigger] reads_as(
                    input.spec_bytes().take(until_gap(input.spec_bytes()) as int),
                    sorter,
                ) && sum_of(
                    lines(input.spec_bytes().skip(until_gap(input.spec_bytes()) as int + 2)),
                    |line: Seq<u8>| worth(sorter, line),
                    usize::MAX as nat,
                ) == Some(total as nat),
            None => until_gap(input.spec_bytes()) >= input.spec_bytes().len() || sorter_of(
                lines(input.spec_bytes().take(until_gap(input.spec_bytes()) as int)),
            ) is None || exists|sorter: Sorter|
                #[trigger] reads_as(
                    input.spec_bytes().take(until_gap(input.spec_bytes()) as int),
                    sorter,
                ) && sum_of(
                    lines(input.spec_bytes().skip(until_gap(input.spec_bytes()) as int + 2)),
                    |line: Seq<u8>| worth(sorter, line),
                    usize::MAX as nat,
                ) is None,
        },
{
    let bytes = input.as_bytes();
    let gap = find_gap(bytes, 0);
    proof {
        assert(bytes@.skip(0) =~= bytes@);
    }
    if gap >= bytes.len() {
        return None;
    }
    let head = slice_subrange(bytes, 0, gap);
    proof {
        assert(head@ =~= bytes@.take(gap as int));
    }
    let sorter = match Sorter::read(head) {
        Some(sorter) => sorter,
        None => {
            return None;
        },
    };
    let tail = slice_subrange(bytes, gap + 2, bytes.len());
    proof {
        assert(tail@ =~= bytes@.skip(gap + 2));
        assert(reads_as(head@, sorter));
    }
    let rows = split_lines(tail);
    let ghost text = lines(tail@);
    let ghost value = |line: Seq<u8>| worth(sorter, line);
    let mut total: usize = 0;
    let mut i: usize = 0;
    proof {
        assert(text.take(0) =~= Seq::<Seq<u8>>::empty());
    }
    while i < rows.len()
        invariant
            i <= rows@.len(),
            sorter.wf(),
            text == rows_of(rows@),
            value == |line: Seq<u8>| worth(sorter, line),
            bytes@ == input.spec_bytes(),
            gap == until_gap(bytes@),
            gap < bytes@.len(),
            reads_as(bytes@.take(gap as int), sorter),
            text == lines(bytes@.skip(gap + 2)),
            sum_of(text.take(i as int), value, usize::MAX as nat) == Some(total as nat),
        decreases rows@.len() - i,
    {
        let row = &rows[i];
        proof {
            assert(row@.subrange(0, row@.len() as int) =~= row@);
            assert(text[i as int] == row@);
            lemma_sum_step(text, value, usize::MAX as nat, i as int);
            lemma_sum_prefix(text, value, usize::MAX as nat, i + 1);
            assert(value(text[i as int]) == worth(sorter, text[i as int]));
        }
        let part = match Part::from(row.as_slice(), 0, row.len()) {
            Some(part) => part,
            None => {
                return None;
            },
        };
        if sorter.part_accepted(part) {
            let rating = match part.x.checked_add(part.m) {
                Some(sum) => match sum.checked_add(part.a) {
                    Some(sum) => sum.checked_add(part.s),
                    None => None,
                },
                None => None,
            };
            total = match rating {
                Some(rating) => match total.checked_add(rating) {
                    Some(total) => total,
                    None => {
                        return None;
                    },
                },
                None => {
                    return None;
                },
            };
        }
        i = i + 1;
    }
    proof {
        assert(text.take(i as int) =~= text);
    }
    Some(total)
}

/// The sum of the sizes of the first `upto` ranges.
pub open spec fn sized(ranges: Seq<PartRange>, upto: int) -> int
    decreases upto,
{
    if upto <= 0 {
        0
    } else {
        sized(ranges, upto - 1) + ranges[upto - 1].size()
    }
}

/// The sum of the sizes of more ranges is no less.
pub proof fn lemma_sized(ranges: Seq<PartRange>, at: int, upto: int)
    requires
        0 <= at <= upto,
    ensures
        sized(ranges, at) <= sized(ranges, upto),
    decreases upto - at,
{
    if at < upto {
        lemma_sized(ranges, at, upto - 1);
    }
}

/// The ranges lie apart and hold, between them, just the parts with ratings
/// from 1 to 4000 that the sorter accepts.
pub open spec fn sorts(sorter: Sorter, accepted: Seq<PartRange>) -> bool {
    &&& apart(accepted)
    &&& forall|k: int, part: Part|
        0 <= k < accepted.len() && #[trigger] accepted[k].contains(part) ==> full(part)
            && sorter.accepts(part)
    &&& forall|part: Part|
        full(part) && sorter.accepts(part) ==> #[trigger] covered(accepted, part)
}

/// How many of the parts with ratings from 1 to 4000 the sorter of the
/// text accepts: the sum of the sizes of ranges of parts that lie apart and
/// hold just the parts that it accepts. `None` where the text before the
/// first empty line holds no sorter, or where a sum is no number of the
/// machine.
pub fn solve_part2(input: &str) -> (r: Option<usize>)
    ensures
        match r {
            Some(total) => exists|sorter: Sorter, accepted: Seq<PartRange>|
                #![trigger sorts(sorter, accepted)]
                reads_as(input.spec_bytes().take(until_gap(input.spec_bytes()) as int), sorter)
                    && sorts(sorter, accepted) && total == sized(accepted, accepted.len() as int),
            None => sorter_of(
                lines(input.spec_bytes().take(until_gap(input.spec_bytes()) as int)),
            ) is None || exists|sorter: Sorter, accepted: Seq<PartRange>|
                #![trigger sorts(sorter, accepted)]
                reads_as(input.spec_bytes().take(until_gap(input.spec_bytes()) as int), sorter)
                    && sorts(sorter, accepted) && sized(accepted, accepted.len() as int)
                    > usize::MAX,
        },
{
    let bytes = input.as_bytes();
    let gap = find_gap(bytes, 0);
    let head = slice_subrange(bytes, 0, gap);
    proof {
        assert(bytes@.skip(0) =~= bytes@);
        assert(head@ =~= bytes@.take(gap as int));
    }
    let sorter = match Sorter::read(head) {
        Some(sorter) => sorter,
        None => {
            return None;
        },
    };
    let accepted = sorter.accepted_ranges();
    proof {
        assert(reads_as(head@, sorter));
        assert(sorts(sorter, accepted@));
    }
    let mut total: usize = 0;
    let mut i: usize = 0;
    while i < accepted.len()
        invariant
            i <= accepted@.len(),
            total == sized(accepted@, i as int),
            bytes@ == input.spec_bytes(),
            gap == until_gap(bytes@),
            reads_as(bytes@.take(gap as int), sorter),
            sorts(sorter, accepted@),
        decreases accepted@.len() - i,
    {
        proof {
            lemma_sized(accepted@, i + 1, accepted@.len() as int);
        }
        let count = match accepted[i].try_combinations() {
            Some(count) => count,
            None => {
                return None;
            },
        };
        total = match total.checked_add(count) {
            Some(total) => total,
            None => {
                return None;
            },
        };
        i = i + 1;
    }
    Some(total)
}

} // verus!
