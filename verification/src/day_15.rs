//! The hash of a step of the initialisation sequence, and the boxes of
//! lenses that the steps fill.

use crate::text::{decimal, is_digit, read_number};
use vstd::prelude::*;
use vstd::slice::*;
use vstd::string::*;

verus! {

/// The hash of `text`: from 0, for each character in turn, its code is
/// added, and the sum is multiplied by 17 and taken modulo 256.
pub open spec fn hash_of(text: Seq<char>) -> nat
    decreases text.len(),
{
    if text.len() == 0 {
        0
    } else {
        ((hash_of(text.drop_last()) + text.last() as nat) * 17 % 256) as nat
    }
}

/// The code of a character.
fn code(chr: char) -> (r: usize)
    ensures
        r == chr as nat,
        r <= 0x10FFFF,
{
    chr as usize
}

/// The hash of `input`.
pub fn hash(input: &str) -> (r: usize)
    ensures
        r == hash_of(input@),
        r < 256,
{
    let mut current: usize = 0;
    for chr in it: input.chars()
        invariant
            it.seq() == input@,
            current == hash_of(input@.take(it.index() as int)),
            current < 256,
    {
        proof {
            assert(input@.take(it.index() + 1).drop_last() =~= input@.take(it.index() as int));
        }
        current = current + code(chr);
        current = current * 17;
        current = current % 256;
    }
    proof {
        assert(input@.take(input@.len() as int) =~= input@);
    }
    current
}

/// What a step does: it takes a lens out, or puts one in with the focal
/// length given.
#[derive(Clone, Copy, Debug, PartialEq, Eq, Structural)]
pub enum OperationKind {
    Dash,
    Equals(usize),
}

/// A step: the label of a lens, and what to do with it.
pub struct Operation {
    pub label: String,
    pub kind: OperationKind,
}

/// A lens in a box.
pub struct Lens {
    pub label: String,
    pub focal_length: usize,
}

/// The 256 boxes, each with its lenses in their order.
pub struct LightArray {
    boxes: Vec<Vec<Lens>>,
}

/// A lens as contracts see it: its label and its focal length.
pub type Glass = (Seq<char>, usize);

/// The lenses of a box as contracts see them.
pub open spec fn glasses(lenses: Seq<Lens>) -> Seq<Glass> {
    lenses.map_values(|lens: Lens| (lens.label@, lens.focal_length))
}

/// Where the first lens with the label lies among the first `upto`; `upto`
/// where there is none.
pub open spec fn slot_of(lenses: Seq<Glass>, label: Seq<char>, upto: int) -> int
    decreases upto,
{
    if upto <= 0 {
        0
    } else if slot_of(lenses, label, upto - 1) < upto - 1 {
        slot_of(lenses, label, upto - 1)
    } else if lenses[upto - 1].0 == label {
        upto - 1
    } else {
        upto
    }
}

/// The lenses without those that have the label.
pub open spec fn without(lenses: Seq<Glass>, label: Seq<char>) -> Seq<Glass> {
    lenses.filter(|lens: Glass| lens.0 != label)
}

/// The lenses with one of the label and the focal length: in place of the
/// first that has the label, or behind all of them where none has it.
pub open spec fn with_lens(lenses: Seq<Glass>, label: Seq<char>, focal_length: usize) -> Seq<Glass> {
    let slot = slot_of(lenses, label, lenses.len() as int);
    if slot < lenses.len() {
        lenses.update(slot, (label, focal_length))
    } else {
        lenses.push((label, focal_length))
    }
}

/// The lenses of a box after a step.
pub open spec fn after_step(lenses: Seq<Glass>, label: Seq<char>, kind: OperationKind) -> Seq<Glass> {
    match kind {
        OperationKind::Dash => without(lenses, label),
        OperationKind::Equals(focal_length) => with_lens(lenses, label, focal_length),
    }
}

/// The focusing power of the first `upto` lenses of the box `number`: for
/// each the number of the box and one, times the slot and one, times the
/// focal length.
pub open spec fn box_power(lenses: Seq<Glass>, number: int, upto: int) -> int
    decreases upto,
{
    if upto <= 0 {
        0
    } else {
        box_power(lenses, number, upto - 1) + (number + 1) * upto * lenses[upto - 1].1
    }
}

/// The focusing power of the first `upto` boxes.
pub open spec fn power(boxes: Seq<Seq<Glass>>, upto: int) -> int
    decreases upto,
{
    if upto <= 0 {
        0
    } else {
        power(boxes, upto - 1) + box_power(boxes[upto - 1], upto - 1, boxes[upto - 1].len() as int)
    }
}

proof fn lemma_box_power(lenses: Seq<Glass>, number: int, at: int, upto: int)
    requires
        0 <= number,
        0 <= at <= upto,
    ensures
        0 <= box_power(lenses, number, at) <= box_power(lenses, number, upto),
    decreases upto,
{
    if at < upto {
        lemma_box_power(lenses, number, at, upto - 1);
        assert((number + 1) * upto * lenses[upto - 1].1 >= 0) by (nonlinear_arith)
            requires
                number >= 0,
                upto >= 0,
                lenses[upto - 1].1 >= 0,
        ;
    } else if at > 0 {
        lemma_box_power(lenses, number, at - 1, at - 1);
        assert((number + 1) * at * lenses[at - 1].1 >= 0) by (nonlinear_arith)
            requires
                number >= 0,
                at >= 0,
                lenses[at - 1].1 >= 0,
        ;
    }
}

proof fn lemma_power(boxes: Seq<Seq<Glass>>, at: int, upto: int)
    requires
        0 <= at <= upto,
    ensures
        0 <= power(boxes, at) <= power(boxes, upto),
    decreases upto,
{
    if at < upto {
        lemma_power(boxes, at, upto - 1);
        lemma_box_power(boxes[upto - 1], upto - 1, 0, boxes[upto - 1].len() as int);
    } else if at > 0 {
        lemma_power(boxes, at - 1, at - 1);
        lemma_box_power(boxes[at - 1], at - 1, 0, boxes[at - 1].len() as int);
    }
}

impl LightArray {
    /// The lenses of every box.
    pub closed spec fn view(&self) -> Seq<Seq<Glass>> {
        Seq::new(self.boxes@.len(), |number: int| glasses(self.boxes@[number]@))
    }

    /// The boxes are 256.
    pub closed spec fn wf(&self) -> bool {
        self.boxes@.len() == 256
    }

    /// 256 empty boxes.
    pub fn default() -> (r: Self)
        ensures
            r.wf(),
            r@.len() == 256,
            forall|number: int| 0 <= number < 256 ==> (#[trigger] r@[number]).len() == 0,
    {
        let mut boxes: Vec<Vec<Lens>> = Vec::new();
        while boxes.len() < 256
            invariant
                boxes@.len() <= 256,
                forall|number: int| 0 <= number < boxes@.len() ==> (#[trigger] boxes@[number])@.len()
                    == 0,
            decreases 256 - boxes@.len(),
        {
            boxes.push(Vec::new());
        }
        LightArray { boxes }
    }

    /// Does a step: in the box that the hash of the label names, the lenses
    /// with the label are taken out, or a lens with the label and the focal
    /// length given is put in, in place of the first that has the label, or
    /// behind all others where none has it.
    pub fn apply_operation(&mut self, op: Operation)
        requires
            old(self).wf(),
        ensures
            final(self).wf(),
            final(self)@ == old(self)@.update(
                hash_of(op.label@) as int,
                after_step(old(self)@[hash_of(op.label@) as int], op.label@, op.kind),
            ),
    {
        let hash_value = hash(op.label.as_str());
        let ghost before = self.boxes@[hash_value as int]@;
        let ghost shelves = self@;
        let mut lenses: Vec<Lens> = Vec::new();
        std::mem::swap(&mut lenses, &mut self.boxes[hash_value]);
        match op.kind {
            OperationKind::Dash => {
                let mut new_lenses: Vec<Lens> = Vec::new();
                let ghost all = lenses@;
                proof {
                    assert(glasses(all).take(0).filter(|lens: Glass| lens.0 != op.label@)
                        =~= Seq::<Glass>::empty());
                }
                for lens in it: lenses.into_iter()
                    invariant
                        it.seq() == all,
                        glasses(new_lenses@) == without(
                            glasses(all).take(it.index() as int),
                            op.label@,
                        ),
                {
                    let ghost so_far = glasses(new_lenses@);
                    let ghost glass = (lens.label@, lens.focal_length);
                    proof {
                        let done = glasses(all).take(it.index() as int);
                        let more = glasses(all).take(it.index() + 1);
                        assert(more =~= done.push(glass));
                        lemma_filter_push(done, glass, op.label@);
                    }
                    if lens.label != op.label {
                        new_lenses.push(lens);
                        proof {
                            assert(glasses(new_lenses@) =~= so_far.push(glass));
                        }
                    }
                }
                proof {
                    assert(glasses(all).take(all.len() as int) =~= glasses(all));
                }
                self.boxes[hash_value] = new_lenses;
            },
            OperationKind::Equals(focal_length) => {
                let mut found = false;
                let mut i: usize = 0;
                let ghost all = glasses(lenses@);
                while i < lenses.len() && !found
                    invariant
                        i <= lenses@.len(),
                        glasses(lenses@) == all,
                        !found ==> slot_of(all, op.label@, i as int) == i,
                        found ==> slot_of(all, op.label@, i as int + 1) == i && i < all.len(),
                    decreases lenses@.len() - i, !found as int,
                {
                    proof {
                        assert(all[i as int].0 == lenses@[i as int].label@);
                    }
                    if lenses[i].label == op.label {
                        found = true;
                    } else {
                        i = i + 1;
                    }
                }
                proof {
                    if found {
                        lemma_slot(all, op.label@, i as int + 1, all.len() as int);
                    }
                }
                if found {
                    lenses[i].focal_length = focal_length;
                    proof {
                        assert(glasses(lenses@) =~= all.update(i as int, (op.label@, focal_length)));
                    }
                } else {
                    lenses.push(Lens { label: op.label, focal_length });
                    proof {
                        assert(glasses(lenses@) =~= all.push((op.label@, focal_length)));
                    }
                }
                self.boxes[hash_value] = lenses;
            },
        }
        proof {
            assert(self@ =~= shelves.update(
                hash_value as int,
                after_step(shelves[hash_value as int], op.label@, op.kind),
            ));
        }
    }

    /// The focusing power of all lenses: for each the number of its box and
    /// one, times its slot and one, times its focal length. `None` where
    /// that is no number of the machine.
    pub fn focusing_power(&self) -> (r: Option<usize>)
        requires
            self.wf(),
        ensures
            match r {
                Some(sum) => sum == power(self@, 256),
                None => power(self@, 256) > usize::MAX,
            },
    {
        let mut sum: usize = 0;
        let mut number: usize = 0;
        while number < 256
            invariant
                self.wf(),
                number <= 256,
                sum == power(self@, number as int),
            decreases 256 - number,
        {
            let lenses = &self.boxes[number];
            let ghost shelf = self@[number as int];
            let ghost before = sum;
            let mut slot: usize = 0;
            proof {
                lemma_power(self@, number + 1, 256);
            }
            while slot < lenses.len()
                invariant
                    number < 256,
                    shelf == glasses(lenses@),
                    slot <= lenses@.len(),
                    sum == before + box_power(shelf, number as int, slot as int),
                    before + box_power(shelf, number as int, shelf.len() as int) <= power(self@, 256),
                    before >= 0,
                decreases lenses@.len() - slot,
            {
                let focal = lenses[slot].focal_length;
                proof {
                    assert(shelf[slot as int].1 == focal);
                    lemma_box_power(shelf, number as int, slot + 1, shelf.len() as int);
                    lemma_box_power(shelf, number as int, slot as int, slot as int);
                }
                let term = if focal == 0 {
                    Some(0)
                } else {
                    match (number + 1).checked_mul(slot + 1) {
                        Some(both) => both.checked_mul(focal),
                        None => None,
                    }
                };
                let next = match term {
                    Some(term) => sum.checked_add(term),
                    None => None,
                };
                proof {
                    assert((number + 1) * (slot + 1) >= 1) by (nonlinear_arith)
                        requires
                            number >= 0,
                            slot >= 0,
                    ;
                    if focal > 0 {
                        assert((number + 1) * (slot + 1) * focal >= (number + 1) * (slot + 1))
                            by (nonlinear_arith)
                            requires
                                (number + 1) * (slot + 1) >= 1,
                                focal >= 1,
                        ;
                    } else {
                        assert((number + 1) * (slot + 1) * focal == 0) by (nonlinear_arith)
                            requires
                                focal == 0,
                        ;
                    }
                }
                match next {
                    Some(next) => {
                        sum = next;
                    },
                    None => {
                        return None;
                    },
                }
                slot = slot + 1;
            }
            number = number + 1;
        }
        Some(sum)
    }
}

/// What is left of lenses and one more is what is left of the lenses, and
/// the one more unless it has the label.
proof fn lemma_filter_push(lenses: Seq<Glass>, lens: Glass, label: Seq<char>)
    ensures
        without(lenses.push(lens), label) == if lens.0 != label {
            without(lenses, label).push(lens)
        } else {
            without(lenses, label)
        },
{
    reveal(Seq::filter);
    assert(lenses.push(lens).drop_last() =~= lenses);
}

/// The first lens with a label stays the first when more lenses are looked
/// at.
proof fn lemma_slot(lenses: Seq<Glass>, label: Seq<char>, at: int, upto: int)
    requires
        0 <= at <= upto,
        slot_of(lenses, label, at) < at,
    ensures
        slot_of(lenses, label, upto) == slot_of(lenses, label, at),
    decreases upto - at,
{
    if at < upto {
        lemma_slot(lenses, label, at, upto - 1);
    }
}

/// What a step of the text says: ending in a dash, it takes out the lens of
/// the label before the dash; else the label stands before the first equals
/// sign, and the focal length, in digits, after it.
pub open spec fn step_of(text: Seq<char>, label: Seq<char>, kind: OperationKind) -> bool {
    match kind {
        OperationKind::Dash => text.len() >= 1 && text.last() == '-' && label == text.drop_last(),
        OperationKind::Equals(focal_length) => {
            &&& !(text.len() >= 1 && text.last() == '-')
            &&& label.len() < text.len()
            &&& label == text.take(label.len() as int)
            &&& text[label.len() as int] == '='
            &&& !label.contains('=')
        },
    }
}

/// The text is not just digits, at least one, that stand for a number of
/// the machine.
pub open spec fn no_number(text: &str) -> bool {
    text.spec_bytes().len() == 0 || (exists|k: int|
        0 <= k < text.spec_bytes().len() && !is_digit(#[trigger] text.spec_bytes()[k])) || decimal(
        text.spec_bytes(),
    ) > usize::MAX
}

/// The text is no step: it does not end in a dash, and it holds no equals
/// sign, or none with a number of the machine behind it.
pub open spec fn no_step(text: Seq<char>) -> bool {
    &&& !(text.len() >= 1 && text.last() == '-')
    &&& until_mark(text, '=') >= text.len() || exists|rest: &str|
        rest@ == text.skip(until_mark(text, '=') as int + 1) && #[trigger] no_number(rest)
}

impl Operation {
    /// Reads a step. `None` where the text neither ends in a dash nor holds
    /// an equals sign with nothing but digits after it, at least one, that
    /// stand for a number of the machine.
    pub fn from(value: &str) -> (r: Option<Self>)
        ensures
            r is None ==> no_step(value@),
            r matches Some(op) ==> step_of(value@, op.label@, op.kind),
            r matches Some(op) ==> (op.kind matches OperationKind::Equals(focal_length) ==> {
                let digits = value@.skip(op.label@.len() as int + 1);
                exists|rest: &str|
                    rest@ == digits && #[trigger] rest.spec_bytes().len() >= 1 && (forall|k: int|
                        0 <= k < rest.spec_bytes().len() ==> is_digit(#[trigger] rest.spec_bytes()[k]))
                        && focal_length == decimal(rest.spec_bytes())
            }),
    {
        let n = value.unicode_len();
        if n >= 1 && value.get_char(n - 1) == '-' {
            let label = value.substring_char(0, n - 1);
            proof {
                assert(value@.subrange(0, n - 1) =~= value@.drop_last());
            }
            return Some(Operation { label: label.to_owned(), kind: OperationKind::Dash });
        }
        let mut at: usize = 0;
        while at < n && value.get_char(at) != '='
            invariant
                n == value@.len(),
                at <= n,
                forall|k: int| 0 <= k < at ==> #[trigger] value@[k] != '=',
            decreases n - at,
        {
            at = at + 1;
        }
        proof {
            lemma_until_mark(value@, '=', at as int);
        }
        if at >= n {
            return None;
        }
        let label = value.substring_char(0, at);
        let rest = value.substring_char(at + 1, n);
        let digits = rest.as_bytes();
        proof {
            assert(value@.subrange(at + 1, n as int) =~= value@.skip(at + 1));
            assert(digits@.skip(0) =~= digits@);
            crate::text::lemma_run(digits@);
        }
        if digits.len() == 0 {
            proof {
                assert(no_number(rest));
            }
            return None;
        }
        let (focal_length, end) = read_number(digits, 0);
        if end != digits.len() {
            proof {
                assert(!is_digit(rest.spec_bytes()[end as int]));
                assert(no_number(rest));
            }
            return None;
        }
        proof {
            assert(digits@.subrange(0, end as int) =~= digits@);
            assert(value@.subrange(0, at as int) =~= value@.take(at as int));
            assert(value@.subrange(at + 1, n as int) =~= value@.skip(at + 1));
            assert(!label@.contains('=')) by {
                if label@.contains('=') {
                    let k = choose|k: int| 0 <= k < label@.len() && label@[k] == '=';
                    assert(value@[k] == '=');
                }
            }
        }
        match focal_length {
            Some(focal_length) => Some(
                Operation { label: label.to_owned(), kind: OperationKind::Equals(focal_length) },
            ),
            None => {
                proof {
                    assert(no_number(rest));
                }
                None
            },
        }
    }
}

/// How many characters stand before the first `mark` of the text.
pub open spec fn until_mark(text: Seq<char>, mark: char) -> nat
    decreases text.len(),
{
    if text.len() == 0 || text[0] == mark {
        0
    } else {
        1 + until_mark(text.drop_first(), mark)
    }
}

/// The steps of a text: what stands between its commas.
pub open spec fn steps(text: Seq<char>) -> Seq<Seq<char>>
    decreases text.len(),
{
    let end = until_mark(text, ',') as int;
    if end >= text.len() {
        seq![text]
    } else {
        seq![text.take(end)] + steps(text.skip(end + 1))
    }
}

proof fn lemma_until_mark(text: Seq<char>, mark: char, end: int)
    requires
        0 <= end <= text.len(),
        forall|k: int| 0 <= k < end ==> #[trigger] text[k] != mark,
        end < text.len() ==> text[end] == mark,
    ensures
        until_mark(text, mark) == end,
    decreases text.len(),
{
    if end > 0 {
        let rest = text.drop_first();
        assert(text[0] != mark);
        assert forall|k: int| 0 <= k < end - 1 implies #[trigger] rest[k] != mark by {
            assert(rest[k] == text[k + 1]);
        }
        lemma_until_mark(rest, mark, end - 1);
    }
}

/// Where the step that starts at `from` ends: at the next comma, or at the
/// end of the text.
fn step_end(input: &str, from: usize) -> (end: usize)
    requires
        from <= input@.len(),
    ensures
        from <= end <= input@.len(),
        end - from == until_mark(input@.skip(from as int), ','),
{
    let n = input.unicode_len();
    let mut end = from;
    while end < n && input.get_char(end) != ','
        invariant
            from <= end <= n,
            n == input@.len(),
            forall|k: int| from <= k < end ==> #[trigger] input@[k] != ',',
        decreases n - end,
    {
        end = end + 1;
    }
    proof {
        let rest = input@.skip(from as int);
        assert forall|k: int| 0 <= k < end - from implies #[trigger] rest[k] != ',' by {
            assert(rest[k] == input@[from + k]);
        }
        lemma_until_mark(rest, ',', end - from);
    }
    end
}

/// The sum of the hashes of the first `upto` steps.
pub open spec fn hashed(parts: Seq<Seq<char>>, upto: int) -> int
    decreases upto,
{
    if upto <= 0 {
        0
    } else {
        hashed(parts, upto - 1) + hash_of(parts[upto - 1])
    }
}

/// The sum of the hashes of the steps of the text. `None` where it is no
/// number of the machine.
pub fn solve_part1(input: &str) -> (r: Option<usize>)
    ensures
        match r {
            Some(total) => total == hashed(steps(input@), steps(input@).len() as int),
            None => exists|upto: int|
                0 <= upto <= steps(input@).len() && #[trigger] hashed(steps(input@), upto)
                    > usize::MAX,
        },
{
    let n = input.unicode_len();
    let mut total: usize = 0;
    let mut from: usize = 0;
    let ghost mut done: Seq<Seq<char>> = Seq::empty();
    let mut more = true;
    proof {
        assert(input@.skip(0) =~= input@);
        assert(done + steps(input@.skip(0)) =~= steps(input@));
    }
    while more
        invariant
            from <= n,
            n == input@.len(),
            more ==> done + steps(input@.skip(from as int)) == steps(input@),
            !more ==> done == steps(input@),
            total == hashed(done, done.len() as int),
        decreases n - from, more as int,
    {
        let end = step_end(input, from);
        let piece = input.substring_char(from, end);
        let ghost rest = input@.skip(from as int);
        let ghost before = done;
        proof {
            assert(rest.take(end - from) =~= input@.subrange(from as int, end as int));
            if end >= n {
                assert(rest.take(end - from) =~= rest);
            }
            done = done.push(piece@);
            assert(done.drop_last() =~= before);
            lemma_hashed(before, done, before.len() as int);
        }
        total = match total.checked_add(hash(piece)) {
            Some(total) => total,
            None => {
                proof {
                    let all = steps(input@);
                    let upto = done.len() as int;
                    assert(all.len() >= upto);
                    assert forall|k: int| 0 <= k < upto implies done[k] == all[k] by {
                        if end < n {
                            assert(all == before + steps(rest));
                        }
                    }
                    lemma_hashed(done, all, upto);
                }
                return None;
            },
        };
        if end < n {
            proof {
                assert(rest.skip(end - from + 1) =~= input@.skip(end + 1));
                assert(done + steps(input@.skip(end + 1)) =~= before + steps(rest));
            }
            from = end + 1;
        } else {
            proof {
                assert(done =~= before + steps(rest));
            }
            from = end;
            more = false;
        }
    }
    Some(total)
}

/// The sum over the first steps is the same where the first steps are.
proof fn lemma_hashed(before: Seq<Seq<char>>, after: Seq<Seq<char>>, upto: int)
    requires
        0 <= upto <= before.len(),
        upto <= after.len(),
        forall|k: int| 0 <= k < upto ==> before[k] == after[k],
    ensures
        hashed(before, upto) == hashed(after, upto),
    decreases upto,
{
    if upto > 0 {
        lemma_hashed(before, after, upto - 1);
    }
}

/// The boxes after the first `upto` of the steps, each read as a label and
/// what to do with its lens.
pub open spec fn arranged(ops: Seq<(Seq<char>, OperationKind)>, upto: int) -> Seq<Seq<Glass>>
    decreases upto,
{
    if upto <= 0 {
        Seq::new(256, |k: int| Seq::<Glass>::empty())
    } else {
        let before = arranged(ops, upto - 1);
        let (label, kind) = ops[upto - 1];
        before.update(hash_of(label) as int, after_step(before[hash_of(label) as int], label, kind))
    }
}

/// The focusing power of the lenses when the steps of the text have been
/// followed. `None` where a step is none, or where the power is no number
/// of the machine.
pub fn solve_part2(input: &str) -> (r: Option<usize>)
    ensures
        r matches Some(total) ==> exists|ops: Seq<(Seq<char>, OperationKind)>|
            #![trigger arranged(ops, ops.len() as int)]
            ops.len() == steps(input@).len() && (forall|i: int|
                0 <= i < ops.len() ==> step_of(
                    steps(input@)[i],
                    (#[trigger] ops[i]).0,
                    ops[i].1,
                )) && total == power(arranged(ops, ops.len() as int), 256),
        r is None ==> (exists|i: int|
            0 <= i < steps(input@).len() && no_step(#[trigger] steps(input@)[i])) || exists|
            ops: Seq<(Seq<char>, OperationKind)>,
        |
            #![trigger arranged(ops, ops.len() as int)]
            ops.len() == steps(input@).len() && (forall|i: int|
                0 <= i < ops.len() ==> step_of(
                    steps(input@)[i],
                    (#[trigger] ops[i]).0,
                    ops[i].1,
                )) && power(arranged(ops, ops.len() as int), 256) > usize::MAX,
{
    let n = input.unicode_len();
    let mut array = LightArray::default();
    let mut from: usize = 0;
    let ghost mut done: Seq<Seq<char>> = Seq::empty();
    let ghost mut ops: Seq<(Seq<char>, OperationKind)> = Seq::empty();
    let mut more = true;
    proof {
        assert(input@.skip(0) =~= input@);
        assert(done + steps(input@.skip(0)) =~= steps(input@));
        assert forall|number: int| 0 <= number < 256 implies (#[trigger] array@[number])
            =~= Seq::<Glass>::empty() by {
            assert(array@[number].len() == 0);
        }
        assert(array@ =~= arranged(ops, 0));
    }
    while more
        invariant
            from <= n,
            n == input@.len(),
            more ==> done + steps(input@.skip(from as int)) == steps(input@),
            !more ==> done == steps(input@),
            array.wf(),
            ops.len() == done.len(),
            forall|i: int| 0 <= i < ops.len() ==> step_of(done[i], (#[trigger] ops[i]).0, ops[i].1),
            array@ == arranged(ops, ops.len() as int),
        decreases n - from, more as int,
    {
        let end = step_end(input, from);
        let piece = input.substring_char(from, end);
        let ghost rest = input@.skip(from as int);
        let ghost before = done;
        let ghost read = ops;
        proof {
            assert(rest.take(end - from) =~= input@.subrange(from as int, end as int));
            if end >= n {
                assert(rest.take(end - from) =~= rest);
            }
        }
        let op = match Operation::from(piece) {
            Some(op) => op,
            None => {
                proof {
                    assert(steps(input@)[before.len() as int] == piece@);
                }
                return None;
            },
        };
        proof {
            done = done.push(piece@);
            ops = ops.push((op.label@, op.kind));
            assert(done.drop_last() =~= before);
            assert forall|i: int| 0 <= i < ops.len() implies step_of(
                done[i],
                (#[trigger] ops[i]).0,
                ops[i].1,
            ) by {
                if i < read.len() {
                    assert(ops[i] == read[i]);
                    assert(done[i] == before[i]);
                }
            }
            lemma_arranged(read, ops, read.len() as int);
        }
        array.apply_operation(op);
        if end < n {
            proof {
                assert(rest.skip(end - from + 1) =~= input@.skip(end + 1));
                assert(done + steps(input@.skip(end + 1)) =~= before + steps(rest));
            }
            from = end + 1;
        } else {
            proof {
                assert(done =~= before + steps(rest));
            }
            from = end;
            more = false;
        }
    }
    array.focusing_power()
}

/// The boxes after the first steps are the same where the first steps are.
proof fn lemma_arranged(
    before: Seq<(Seq<char>, OperationKind)>,
    after: Seq<(Seq<char>, OperationKind)>,
    upto: int,
)
    requires
        0 <= upto <= before.len(),
        upto <= after.len(),
        forall|k: int| 0 <= k < upto ==> before[k] == after[k],
    ensures
        arranged(before, upto) == arranged(after, upto),
    decreases upto,
{
    if upto > 0 {
        lemma_arranged(before, after, upto - 1);
    }
}

} // verus!
