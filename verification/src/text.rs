//! Reading numbers and lines out of the text of a puzzle.

use vstd::prelude::*;
use vstd::slice::*;

verus! {

/// The byte is a decimal digit.
pub open spec fn is_digit(byte: u8) -> bool {
    0x30 <= byte <= 0x39
}

/// The number that a row of digits stands for.
pub open spec fn decimal(digits: Seq<u8>) -> nat
    decreases digits.len(),
{
    if digits.len() == 0 {
        0
    } else {
        decimal(digits.drop_last()) * 10 + (digits.last() - 0x30) as nat
    }
}

/// How many digits stand at the start of the text.
pub open spec fn run(text: Seq<u8>) -> nat
    decreases text.len(),
{
    if text.len() == 0 || !is_digit(text[0]) {
        0
    } else {
        1 + run(text.skip(1))
    }
}

/// The numbers that the rows of digits in the text stand for, in their order.
pub open spec fn numbers_in(text: Seq<u8>) -> Seq<nat>
    decreases text.len(),
{
    if text.len() == 0 {
        Seq::empty()
    } else if is_digit(text[0]) && 1 <= run(text) <= text.len() {
        seq![decimal(text.take(run(text) as int))] + numbers_in(text.skip(run(text) as int))
    } else {
        numbers_in(text.skip(1))
    }
}

/// The digits at the start of a text are no more than the text.
pub proof fn lemma_run(text: Seq<u8>)
    ensures
        run(text) <= text.len(),
        forall|k: int| 0 <= k < run(text) ==> is_digit(#[trigger] text[k]),
        run(text) < text.len() ==> !is_digit(text[run(text) as int]),
    decreases text.len(),
{
    if text.len() != 0 && is_digit(text[0]) {
        let rest = text.skip(1);
        lemma_run(rest);
        assert forall|k: int| 0 <= k < run(text) implies is_digit(#[trigger] text[k]) by {
            if k > 0 {
                assert(text[k] == rest[k - 1]);
            }
        }
        if run(text) < text.len() {
            assert(text[run(text) as int] == rest[run(rest) as int]);
        }
    }
}

/// Digits up to a byte that is none are all the digits at the start.
pub proof fn lemma_run_is(text: Seq<u8>, n: int)
    requires
        0 <= n <= text.len(),
        forall|k: int| 0 <= k < n ==> is_digit(#[trigger] text[k]),
        n < text.len() ==> !is_digit(text[n]),
    ensures
        run(text) == n,
    decreases n,
{
    if n > 0 {
        let rest = text.skip(1);
        assert forall|k: int| 0 <= k < n - 1 implies is_digit(#[trigger] rest[k]) by {
            assert(rest[k] == text[k + 1]);
        }
        lemma_run_is(rest, n - 1);
    }
}

/// The number that the digits from `from` on stand for, and where they end.
/// No number comes back where it is not one of the machine.
pub fn read_number(bytes: &[u8], from: usize) -> (r: (Option<usize>, usize))
    requires
        from <= bytes@.len(),
    ensures
        r.1 == from + run(bytes@.skip(from as int)),
        r.1 <= bytes@.len(),
        r.0 is Some <==> decimal(bytes@.subrange(from as int, r.1 as int)) <= usize::MAX,
        r.0 matches Some(value) ==> value == decimal(bytes@.subrange(from as int, r.1 as int)),
{
    let mut value: usize = 0;
    let mut fits = true;
    let mut end = from;
    while end < bytes.len() && 0x30 <= bytes[end] && bytes[end] <= 0x39
        invariant
            from <= end <= bytes@.len(),
            forall|k: int| from <= k < end ==> is_digit(#[trigger] bytes@[k]),
            fits ==> value == decimal(bytes@.subrange(from as int, end as int)),
            fits <==> decimal(bytes@.subrange(from as int, end as int)) <= usize::MAX,
        decreases bytes@.len() - end,
    {
        let digit = (bytes[end] - 0x30) as usize;
        proof {
            let longer = bytes@.subrange(from as int, end + 1);
            assert(longer.drop_last() =~= bytes@.subrange(from as int, end as int));
            assert(longer.last() == bytes@[end as int]);
        }
        if fits {
            if value > (usize::MAX - digit) / 10 {
                fits = false;
                proof {
                    assert(value * 10 + digit > usize::MAX) by (nonlinear_arith)
                        requires
                            value > (usize::MAX - digit) / 10,
                            0 <= digit <= 9,
                    ;
                }
            } else {
                proof {
                    assert(value * 10 + digit <= usize::MAX) by (nonlinear_arith)
                        requires
                            value <= (usize::MAX - digit) / 10,
                            0 <= digit <= 9,
                    ;
                }
                value = value * 10 + digit;
            }
        }
        end = end + 1;
    }
    proof {
        let rest = bytes@.skip(from as int);
        assert forall|k: int| 0 <= k < end - from implies is_digit(#[trigger] rest[k]) by {
            assert(rest[k] == bytes@[from + k]);
        }
        lemma_run_is(rest, end - from);
    }
    if fits {
        (Some(value), end)
    } else {
        (None, end)
    }
}

/// The numbers that the rows of digits between `from` and `to` stand for;
/// `None` where one of them is no number of the machine.
pub fn read_numbers(bytes: &[u8], from: usize, to: usize) -> (r: Option<Vec<usize>>)
    requires
        from <= to <= bytes@.len(),
    ensures
        r matches Some(numbers) ==> numbers@.map_values(|n: usize| n as nat) == numbers_in(
            bytes@.subrange(from as int, to as int),
        ),
        r is None ==> exists|k: int|
            0 <= k < numbers_in(bytes@.subrange(from as int, to as int)).len() && numbers_in(
                bytes@.subrange(from as int, to as int),
            )[k] > usize::MAX,
{
    let mut numbers: Vec<usize> = Vec::new();
    let mut at = from;
    let ghost text = bytes@.subrange(from as int, to as int);
    proof {
        assert(text.skip(0) =~= text);
    }
    while at < to
        invariant
            from <= at <= to <= bytes@.len(),
            text == bytes@.subrange(from as int, to as int),
            numbers_in(text) == numbers@.map_values(|n: usize| n as nat) + numbers_in(
                text.skip(at - from),
            ),
        decreases to - at,
    {
        let ghost rest = text.skip(at - from);
        let ghost done = numbers@.map_values(|n: usize| n as nat);
        proof {
            assert(rest[0] == bytes@[at as int]);
        }
        if 0x30 <= bytes[at] && bytes[at] <= 0x39 {
            let line = slice_subrange(bytes, at, to);
            let (value, end) = read_number(line, 0);
            proof {
                assert(line@ =~= rest);
                assert(line@.skip(0) =~= rest);
                lemma_run(rest);
                assert(line@.subrange(0, end as int) =~= rest.take(run(rest) as int));
                assert(rest.skip(run(rest) as int) =~= text.skip(at - from + end));
            }
            match value {
                Some(value) => {
                    numbers.push(value);
                    proof {
                        assert(numbers@.map_values(|n: usize| n as nat) =~= done.push(value as nat));
                        assert(done.push(value as nat) + numbers_in(rest.skip(run(rest) as int))
                            =~= done + (seq![value as nat] + numbers_in(
                            rest.skip(run(rest) as int),
                        )));
                    }
                },
                None => {
                    proof {
                        let all = numbers_in(text);
                        let k = done.len() as int;
                        assert(all[k] == decimal(rest.take(run(rest) as int)));
                    }
                    return None;
                },
            }
            at = at + end;
        } else {
            proof {
                assert(rest.skip(1) =~= text.skip(at - from + 1));
            }
            at = at + 1;
        }
    }
    proof {
        assert(text.skip(to - from).len() == 0);
        assert(numbers@.map_values(|n: usize| n as nat) + Seq::<nat>::empty()
            =~= numbers@.map_values(|n: usize| n as nat));
    }
    Some(numbers)
}

/// Where the line that starts at `from` ends: at the next line feed, or at
/// the end of the text.
pub fn line_end(bytes: &[u8], from: usize) -> (end: usize)
    requires
        from <= bytes@.len(),
    ensures
        from <= end <= bytes@.len(),
        forall|k: int| from <= k < end ==> #[trigger] bytes@[k] != 0x0a,
        end < bytes@.len() ==> bytes@[end as int] == 0x0a,
{
    let mut end = from;
    while end < bytes.len() && bytes[end] != 0x0a
        invariant
            from <= end <= bytes@.len(),
            forall|k: int| from <= k < end ==> #[trigger] bytes@[k] != 0x0a,
        decreases bytes@.len() - end,
    {
        end = end + 1;
    }
    end
}

/// The number, with or without a minus sign before it, that stands at
/// `from`, and where it ends. No number comes back where there is no digit,
/// or where the number is none of the machine.
pub fn read_signed(bytes: &[u8], from: usize) -> (r: (Option<isize>, usize))
    requires
        from <= bytes@.len(),
    ensures
        from <= r.1 <= bytes@.len(),
        ({
            let minus = from < bytes@.len() && bytes@[from as int] == 0x2d;
            let start = if minus {
                from + 1
            } else {
                from as int
            };
            let digits = bytes@.subrange(start, start + run(bytes@.skip(start)));
            let value = if minus {
                -(decimal(digits) as int)
            } else {
                decimal(digits) as int
            };
            &&& r.1 == start + digits.len()
            &&& r.0 is Some <==> digits.len() >= 1 && isize::MIN < value <= isize::MAX
            &&& r.0 matches Some(number) ==> number == value
        }),
{
    let minus = from < bytes.len() && bytes[from] == 0x2d;
    let start = if minus {
        from + 1
    } else {
        from
    };
    let (value, end) = read_number(bytes, start);
    if end == start {
        return (None, end);
    }
    match value {
        Some(value) => {
            if value > isize::MAX as usize {
                (None, end)
            } else if minus {
                (Some(-(value as isize)), end)
            } else {
                (Some(value as isize), end)
            }
        },
        None => (None, end),
    }
}

/// A number starts at the start of the text: a digit stands there, or a
/// minus sign with a digit after it.
pub open spec fn starts_number(text: Seq<u8>) -> bool {
    text.len() >= 1 && (is_digit(text[0]) || (text[0] == 0x2d && text.len() >= 2 && is_digit(
        text[1],
    )))
}

/// How many bytes the number at the start of the text takes.
pub open spec fn signed_len(text: Seq<u8>) -> nat {
    if text.len() >= 1 && text[0] == 0x2d {
        1 + run(text.skip(1))
    } else {
        run(text)
    }
}

/// The number at the start of the text.
pub open spec fn signed_value(text: Seq<u8>) -> int {
    if text.len() >= 1 && text[0] == 0x2d {
        -(decimal(text.subrange(1, 1 + run(text.skip(1)) as int)) as int)
    } else {
        decimal(text.take(run(text) as int)) as int
    }
}

/// The numbers, with or without a minus sign, that the text holds, in their
/// order. A minus sign counts only where a digit follows it.
pub open spec fn signed_in(text: Seq<u8>) -> Seq<int>
    decreases text.len(),
{
    if text.len() == 0 {
        Seq::empty()
    } else if starts_number(text) && 1 <= signed_len(text) <= text.len() {
        seq![signed_value(text)] + signed_in(text.skip(signed_len(text) as int))
    } else {
        signed_in(text.skip(1))
    }
}

/// The numbers, with or without a minus sign, between `from` and `to`.
/// `None` where one of them is no number of the machine.
pub fn read_signed_numbers(bytes: &[u8], from: usize, to: usize) -> (r: Option<Vec<isize>>)
    requires
        from <= to <= bytes@.len(),
    ensures
        r matches Some(numbers) ==> numbers@.map_values(|n: isize| n as int) == signed_in(
            bytes@.subrange(from as int, to as int),
        ),
        r is None ==> exists|k: int|
            0 <= k < signed_in(bytes@.subrange(from as int, to as int)).len() && !(isize::MIN
                < #[trigger] signed_in(bytes@.subrange(from as int, to as int))[k] <= isize::MAX),
        r is Some <==> all_fit(signed_in(bytes@.subrange(from as int, to as int))),
{
    let mut numbers: Vec<isize> = Vec::new();
    let mut at = from;
    let ghost text = bytes@.subrange(from as int, to as int);
    proof {
        assert(text.skip(0) =~= text);
    }
    while at < to
        invariant
            from <= at <= to <= bytes@.len(),
            text == bytes@.subrange(from as int, to as int),
            signed_in(text) == numbers@.map_values(|n: isize| n as int) + signed_in(
                text.skip(at - from),
            ),
            forall|k: int| 0 <= k < numbers@.len() ==> isize::MIN < #[trigger] numbers@[k],
        decreases to - at,
    {
        let ghost rest = text.skip(at - from);
        let ghost done = numbers@.map_values(|n: isize| n as int);
        proof {
            assert(rest[0] == bytes@[at as int]);
            if at + 1 < to {
                assert(rest[1] == bytes@[at + 1]);
            }
        }
        let digit = 0x30 <= bytes[at] && bytes[at] <= 0x39;
        let minus = bytes[at] == 0x2d && to - at >= 2 && 0x30 <= bytes[at + 1] && bytes[at + 1]
            <= 0x39;
        if digit || minus {
            let line = slice_subrange(bytes, at, to);
            let (value, end) = read_signed(line, 0);
            proof {
                assert(line@ =~= rest);
                assert(line@.skip(0) =~= rest);
                assert(starts_number(rest));
                lemma_run(rest);
                lemma_run(rest.skip(1));
                assert(end == signed_len(rest));
                if minus {
                    assert(rest.skip(1)[0] == rest[1]);
                    assert(line@.skip(1) =~= rest.skip(1));
                    assert(line@.subrange(1, 1 + run(line@.skip(1)) as int) =~= rest.subrange(
                        1,
                        1 + run(rest.skip(1)) as int,
                    ));
                } else {
                    assert(line@.subrange(0, 0 + run(line@.skip(0)) as int) =~= rest.take(run(rest) as int));
                }
                assert(rest.skip(signed_len(rest) as int) =~= text.skip(at - from + end));
            }
            match value {
                Some(value) => {
                    numbers.push(value);
                    proof {
                        assert(value == signed_value(rest));
                        assert(numbers@.map_values(|n: isize| n as int) =~= done.push(value as int));
                        assert(done.push(value as int) + signed_in(rest.skip(signed_len(rest) as int))
                            =~= done + (seq![value as int] + signed_in(
                            rest.skip(signed_len(rest) as int),
                        )));
                    }
                },
                None => {
                    proof {
                        let all = signed_in(text);
                        let k = done.len() as int;
                        assert(all[k] == signed_value(rest));
                    }
                    return None;
                },
            }
            at = at + end;
        } else {
            proof {
                assert(!starts_number(rest));
                assert(rest.skip(1) =~= text.skip(at - from + 1));
            }
            at = at + 1;
        }
    }
    proof {
        assert(text.skip(to - from).len() == 0);
        assert(numbers@.map_values(|n: isize| n as int) + Seq::<int>::empty()
            =~= numbers@.map_values(|n: isize| n as int));
        assert forall|k: int| 0 <= k < signed_in(text).len() implies isize::MIN < #[trigger] signed_in(
            text,
        )[k] <= isize::MAX by {
            assert(signed_in(text)[k] == numbers@[k] as int);
        }
    }
    Some(numbers)
}

/// Each of the numbers is a number of the machine, and not the least of
/// them.
pub open spec fn all_fit(numbers: Seq<int>) -> bool {
    forall|k: int| 0 <= k < numbers.len() ==> isize::MIN < #[trigger] numbers[k] <= isize::MAX
}

/// Whether two names are one.
pub fn same(a: &Vec<u8>, b: &Vec<u8>) -> (r: bool)
    ensures
        r == (a@ == b@),
{
    if a.len() != b.len() {
        return false;
    }
    let mut i: usize = 0;
    while i < a.len()
        invariant
            a@.len() == b@.len(),
            i <= a@.len(),
            forall|k: int| 0 <= k < i ==> a@[k] == b@[k],
        decreases a@.len() - i,
    {
        if a[i] != b[i] {
            return false;
        }
        i = i + 1;
    }
    proof {
        assert(a@ =~= b@);
    }
    true
}

/// The place of the first of the names that is `name`; `None` where none
/// is.
pub fn lookup(names: &Vec<Vec<u8>>, name: &Vec<u8>) -> (r: Option<usize>)
    ensures
        match r {
            Some(node) => node < names@.len() && names@[node as int]@ == name@ && forall|k: int|
                0 <= k < node ==> (#[trigger] names@[k])@ != name@,
            None => forall|k: int| 0 <= k < names@.len() ==> (#[trigger] names@[k])@ != name@,
        },
{
    let mut i: usize = 0;
    while i < names.len()
        invariant
            i <= names@.len(),
            forall|k: int| 0 <= k < i ==> (#[trigger] names@[k])@ != name@,
        decreases names@.len() - i,
    {
        if same(&names[i], name) {
            return Some(i);
        }
        i = i + 1;
    }
    None
}

/// The number of `name` among `names`: that of the first name equal to it, or,
/// where there is none, the next free number, under which it is then kept.
pub fn intern(names: &mut Vec<Vec<u8>>, name: Vec<u8>) -> (at: usize)
    ensures
        at < final(names).len(),
        final(names)[at as int]@ == name@,
        forall|k: int| 0 <= k < at ==> (#[trigger] final(names)[k])@ != name@,
        at < old(names).len() ==> *final(names) == *old(names),
        at >= old(names).len() ==> at == old(names).len() && final(names)@ == old(names)@.push(
            name,
        ),
{
    let mut i: usize = 0;
    while i < names.len()
        invariant
            i <= names.len(),
            *names == *old(names),
            forall|k: int| 0 <= k < i ==> (#[trigger] names[k])@ != name@,
        decreases names.len() - i,
    {
        if same(&names[i], &name) {
            return i;
        }
        i = i + 1;
    }
    names.push(name);
    i
}

/// How many bytes stand before the first line feed of the text.
pub open spec fn until_feed(text: Seq<u8>) -> nat
    decreases text.len(),
{
    if text.len() == 0 || text[0] == 0x0a {
        0
    } else {
        1 + until_feed(text.drop_first())
    }
}

/// The line without the carriage return at its end, if it has one.
pub open spec fn trimmed(line: Seq<u8>) -> Seq<u8> {
    if line.len() > 0 && line.last() == 0x0d {
        line.drop_last()
    } else {
        line
    }
}

/// The lines of a text. A line ends at a line feed, or at a carriage return
/// with a line feed behind it, and what ends it is no part of it. What
/// stands behind the last line feed is a line too, unless it is empty.
pub open spec fn lines(text: Seq<u8>) -> Seq<Seq<u8>>
    decreases text.len(),
{
    if text.len() == 0 {
        Seq::empty()
    } else {
        let end = until_feed(text) as int;
        if end >= text.len() {
            seq![text]
        } else {
            seq![trimmed(text.take(end))] + lines(text.skip(end + 1))
        }
    }
}

/// The lines have the shape of a field: there is a line, each line is as
/// long as the first, and neither are there more than `side` of them nor is
/// one longer.
pub open spec fn rectangle(text: Seq<Seq<u8>>, side: nat) -> bool {
    &&& 1 <= text.len() <= side
    &&& 1 <= text[0].len() <= side
    &&& forall|row: int| 0 <= row < text.len() ==> (#[trigger] text[row]).len() == text[0].len()
}

/// What each of the rows holds.
pub open spec fn rows_of(rows: Seq<Vec<u8>>) -> Seq<Seq<u8>> {
    rows.map_values(|row: Vec<u8>| row@)
}

/// Before the first line feed stand the bytes up to the first place that
/// holds one.
pub proof fn lemma_until_feed(text: Seq<u8>, end: int)
    requires
        0 <= end <= text.len(),
        forall|k: int| 0 <= k < end ==> #[trigger] text[k] != 0x0a,
        end < text.len() ==> text[end] == 0x0a,
    ensures
        until_feed(text) == end,
    decreases text.len(),
{
    if end > 0 {
        let rest = text.drop_first();
        assert(text[0] != 0x0a);
        assert forall|k: int| 0 <= k < end - 1 implies #[trigger] rest[k] != 0x0a by {
            assert(rest[k] == text[k + 1]);
        }
        lemma_until_feed(rest, end - 1);
    }
}

/// The bytes from `from` up to `to`.
pub fn copy(bytes: &[u8], from: usize, to: usize) -> (r: Vec<u8>)
    requires
        from <= to <= bytes@.len(),
    ensures
        r@ == bytes@.subrange(from as int, to as int),
{
    let mut r: Vec<u8> = Vec::new();
    let mut at = from;
    while at < to
        invariant
            from <= at <= to <= bytes@.len(),
            r@ == bytes@.subrange(from as int, at as int),
        decreases to - at,
    {
        r.push(bytes[at]);
        at = at + 1;
        proof {
            assert(r@ =~= bytes@.subrange(from as int, at as int));
        }
    }
    r
}

/// The lines of a text.
pub fn split_lines(bytes: &[u8]) -> (r: Vec<Vec<u8>>)
    ensures
        rows_of(r@) == lines(bytes@),
{
    let mut rows: Vec<Vec<u8>> = Vec::new();
    let mut at: usize = 0;
    proof {
        assert(bytes@.skip(0) =~= bytes@);
        assert(rows_of(rows@) + lines(bytes@.skip(0)) =~= lines(bytes@));
    }
    while at < bytes.len()
        invariant
            at <= bytes@.len(),
            rows_of(rows@) + lines(bytes@.skip(at as int)) == lines(bytes@),
        decreases bytes@.len() - at,
    {
        let end = line_end(bytes, at);
        let ghost rest = bytes@.skip(at as int);
        let ghost before = rows@;
        proof {
            assert forall|k: int| 0 <= k < end - at implies #[trigger] rest[k] != 0x0a by {
                assert(rest[k] == bytes@[at + k]);
            }
            lemma_until_feed(rest, end - at);
        }
        if end < bytes.len() {
            let stop = if end > at && bytes[end - 1] == 0x0d {
                end - 1
            } else {
                end
            };
            rows.push(copy(bytes, at, stop));
            proof {
                assert(rest.take(end - at) =~= bytes@.subrange(at as int, end as int));
                assert(rows@.last()@ =~= trimmed(rest.take(end - at)));
                assert(rest.skip(end - at + 1) =~= bytes@.skip(end + 1));
                assert(rows_of(rows@) =~= rows_of(before).push(rows@.last()@));
                assert(rows_of(rows@) + lines(bytes@.skip(end + 1)) =~= rows_of(before) + lines(
                    rest,
                ));
            }
            at = end + 1;
        } else {
            rows.push(copy(bytes, at, end));
            proof {
                assert(rows@.last()@ =~= rest);
                assert(bytes@.skip(end as int).len() == 0);
                assert(rows_of(rows@) =~= rows_of(before).push(rest));
                assert(rows_of(rows@) + lines(bytes@.skip(end as int)) =~= rows_of(before)
                    + lines(rest));
            }
            at = end;
        }
    }
    proof {
        assert(bytes@.skip(at as int).len() == 0);
        assert(rows_of(rows@) + lines(bytes@.skip(at as int)) =~= rows_of(rows@));
    }
    rows
}

/// Reads the text line by line and byte by byte with `read`: what it makes
/// of each byte, row by row. `None` where it makes nothing of a byte.
pub fn read_grid<T, F: Fn(u8) -> Option<T>>(bytes: &[u8], read: F) -> (r: Option<Vec<Vec<T>>>)
    requires
        forall|byte: u8| #[trigger] read.requires((byte,)),
    ensures
        match r {
            Some(grid) => {
                &&& grid@.len() == lines(bytes@).len()
                &&& forall|row: int|
                    0 <= row < grid@.len() ==> (#[trigger] grid@[row])@.len() == lines(
                        bytes@,
                    )[row].len()
                &&& forall|row: int, col: int|
                    0 <= row < grid@.len() && 0 <= col < grid@[row]@.len() ==> read.ensures(
                        (lines(bytes@)[row][col],),
                        Some(#[trigger] grid@[row]@[col]),
                    )
            },
            None => exists|row: int, col: int|
                0 <= row < lines(bytes@).len() && 0 <= col < lines(bytes@)[row].len()
                    && read.ensures((#[trigger] lines(bytes@)[row][col],), None),
        },
{
    let rows = split_lines(bytes);
    let ghost text = lines(bytes@);
    let mut grid: Vec<Vec<T>> = Vec::new();
    let mut i: usize = 0;
    while i < rows.len()
        invariant
            i <= rows@.len(),
            text == rows_of(rows@),
            text == lines(bytes@),
            grid@.len() == i,
            forall|byte: u8| #[trigger] read.requires((byte,)),
            forall|row: int| 0 <= row < i ==> (#[trigger] grid@[row])@.len() == text[row].len(),
            forall|row: int, col: int|
                0 <= row < i && 0 <= col < grid@[row]@.len() ==> read.ensures(
                    (text[row][col],),
                    Some(#[trigger] grid@[row]@[col]),
                ),
        decreases rows@.len() - i,
    {
        let line = &rows[i];
        let mut row: Vec<T> = Vec::new();
        let mut j: usize = 0;
        while j < line.len()
            invariant
                j <= line@.len(),
                i < rows@.len(),
                text == rows_of(rows@),
                text == lines(bytes@),
                line@ == text[i as int],
                row@.len() == j,
                forall|byte: u8| #[trigger] read.requires((byte,)),
                forall|col: int|
                    0 <= col < j ==> read.ensures((line@[col],), Some(#[trigger] row@[col])),
            decreases line@.len() - j,
        {
            match read(line[j]) {
                Some(item) => {
                    row.push(item);
                },
                None => {
                    proof {
                        assert(read.ensures((text[i as int][j as int],), None));
                    }
                    return None;
                },
            }
            j = j + 1;
        }
        grid.push(row);
        i = i + 1;
    }
    Some(grid)
}

/// The length of the longest line.
pub open spec fn widest(text: Seq<Seq<u8>>) -> nat
    decreases text.len(),
{
    if text.len() == 0 {
        0
    } else if text.last().len() > widest(text.drop_last()) {
        text.last().len()
    } else {
        widest(text.drop_last())
    }
}

/// No line is longer than the longest.
pub proof fn lemma_widest(text: Seq<Seq<u8>>)
    ensures
        forall|row: int| 0 <= row < text.len() ==> (#[trigger] text[row]).len() <= widest(text),
    decreases text.len(),
{
    if text.len() > 0 {
        lemma_widest(text.drop_last());
        assert forall|row: int| 0 <= row < text.len() implies (#[trigger] text[row]).len()
            <= widest(text) by {
            if row < text.len() - 1 {
                assert(text.drop_last()[row] == text[row]);
            }
        }
    }
}

/// How many bytes stand before the first `stop` of the text.
pub open spec fn until(text: Seq<u8>, stop: u8) -> nat
    decreases text.len(),
{
    if text.len() == 0 || text[0] == stop {
        0
    } else {
        1 + until(text.drop_first(), stop)
    }
}

/// Before the first `stop` stand the bytes up to the first place that holds
/// one.
pub proof fn lemma_until(text: Seq<u8>, stop: u8, end: int)
    requires
        0 <= end <= text.len(),
        forall|k: int| 0 <= k < end ==> #[trigger] text[k] != stop,
        end < text.len() ==> text[end] == stop,
    ensures
        until(text, stop) == end,
    decreases text.len(),
{
    if end > 0 {
        let rest = text.drop_first();
        assert(text[0] != stop);
        assert forall|k: int| 0 <= k < end - 1 implies #[trigger] rest[k] != stop by {
            assert(rest[k] == text[k + 1]);
        }
        lemma_until(rest, stop, end - 1);
    }
}

/// Before the first `stop` stand all the bytes at the front that are not
/// one.
pub proof fn lemma_until_least(text: Seq<u8>, stop: u8, least: int)
    requires
        0 <= least <= text.len(),
        forall|k: int| 0 <= k < least ==> #[trigger] text[k] != stop,
    ensures
        least <= until(text, stop) <= text.len(),
    decreases text.len(),
{
    if text.len() > 0 && text[0] != stop {
        let rest = text.drop_first();
        if least > 0 {
            assert forall|k: int| 0 <= k < least - 1 implies #[trigger] rest[k] != stop by {
                assert(rest[k] == text[k + 1]);
            }
            lemma_until_least(rest, stop, least - 1);
        } else {
            lemma_until_least(rest, stop, 0);
        }
    }
}

/// The sum of what `value` makes of each line. `None` where it makes
/// nothing of a line, or where the sum of the first lines is above `limit`.
pub open spec fn sum_of(
    text: Seq<Seq<u8>>,
    value: spec_fn(Seq<u8>) -> Option<nat>,
    limit: nat,
) -> Option<nat>
    decreases text.len(),
{
    if text.len() == 0 {
        Some(0)
    } else {
        match (sum_of(text.drop_last(), value, limit), value(text.last())) {
            (Some(before), Some(more)) => if before + more <= limit {
                Some(before + more)
            } else {
                None
            },
            _ => None,
        }
    }
}

/// A sum that fails for the first lines fails for all.
pub proof fn lemma_sum_none(
    text: Seq<Seq<u8>>,
    value: spec_fn(Seq<u8>) -> Option<nat>,
    limit: nat,
    upto: int,
)
    requires
        0 <= upto <= text.len(),
        sum_of(text.take(upto), value, limit) is None,
    ensures
        sum_of(text, value, limit) is None,
    decreases text.len() - upto,
{
    if upto < text.len() {
        assert(text.take(upto + 1).drop_last() =~= text.take(upto));
        lemma_sum_none(text, value, limit, upto + 1);
    } else {
        assert(text.take(upto) =~= text);
    }
}

/// The sum over one line more.
pub proof fn lemma_sum_step(
    text: Seq<Seq<u8>>,
    value: spec_fn(Seq<u8>) -> Option<nat>,
    limit: nat,
    upto: int,
)
    requires
        0 <= upto < text.len(),
    ensures
        sum_of(text.take(upto + 1), value, limit) == match (
            sum_of(text.take(upto), value, limit),
            value(text[upto]),
        ) {
            (Some(before), Some(more)) => if before + more <= limit {
                Some(before + more)
            } else {
                None
            },
            _ => None,
        },
{
    assert(text.take(upto + 1).drop_last() =~= text.take(upto));
    assert(text.take(upto + 1).last() == text[upto]);
}

/// A sum that fails for the first lines fails for all.
pub proof fn lemma_sum_prefix(
    text: Seq<Seq<u8>>,
    value: spec_fn(Seq<u8>) -> Option<nat>,
    limit: nat,
    upto: int,
)
    requires
        0 <= upto <= text.len(),
    ensures
        sum_of(text.take(upto), value, limit) is None ==> sum_of(text, value, limit) is None,
{
    if sum_of(text.take(upto), value, limit) is None {
        lemma_sum_none(text, value, limit, upto);
    }
}

/// How many bytes stand before the first empty line of the text: before the
/// first line feed that has another behind it.
pub open spec fn until_gap(text: Seq<u8>) -> nat
    decreases text.len(),
{
    if text.len() < 2 {
        text.len()
    } else if text[0] == 0x0a && text[1] == 0x0a {
        0
    } else {
        1 + until_gap(text.drop_first())
    }
}

/// The parts of a text between its empty lines, that is, between one pair
/// of line feeds and the next.
pub open spec fn blocks(text: Seq<u8>) -> Seq<Seq<u8>>
    decreases text.len(),
{
    let end = until_gap(text) as int;
    if end + 2 > text.len() {
        seq![text]
    } else {
        seq![text.take(end)] + blocks(text.skip(end + 2))
    }
}

pub proof fn lemma_until_gap(text: Seq<u8>, end: int)
    requires
        0 <= end <= text.len(),
        forall|k: int| 0 <= k < end && k + 1 < text.len() ==> !(#[trigger] text[k] == 0x0a && text[k
            + 1] == 0x0a),
        end < text.len() ==> end + 1 < text.len() && text[end] == 0x0a && text[end + 1] == 0x0a,
    ensures
        until_gap(text) == end,
        end < text.len() ==> end + 2 <= text.len(),
    decreases text.len(),
{
    if text.len() >= 2 && end > 0 {
        let rest = text.drop_first();
        assert(!(text[0] == 0x0a && text[1] == 0x0a));
        assert forall|k: int| 0 <= k < end - 1 && k + 1 < rest.len() implies !(#[trigger] rest[k]
            == 0x0a && rest[k + 1] == 0x0a) by {
            assert(rest[k] == text[k + 1]);
            assert(rest[k + 1] == text[k + 2]);
            assert(!(text[k + 1] == 0x0a && text[k + 2] == 0x0a));
        }
        if end < text.len() {
            assert(rest[end - 1] == text[end]);
            assert(rest[end] == text[end + 1]);
        }
        lemma_until_gap(rest, end - 1);
    }
}

/// Where the first empty line at or after `from` begins: the place of the
/// first line feed that has another behind it, or the end of the text.
pub fn find_gap(bytes: &[u8], from: usize) -> (end: usize)
    requires
        from <= bytes@.len(),
    ensures
        from <= end <= bytes@.len(),
        end - from == until_gap(bytes@.skip(from as int)),
        end < bytes@.len() ==> end + 2 <= bytes@.len(),
{
    let mut end = from;
    while end < bytes.len() && !(bytes[end] == 0x0a && end + 1 < bytes.len() && bytes[end + 1]
        == 0x0a)
        invariant
            from <= end <= bytes@.len(),
            forall|k: int|
                from <= k < end && k + 1 < bytes@.len() ==> !(#[trigger] bytes@[k] == 0x0a
                    && bytes@[k + 1] == 0x0a),
        decreases bytes@.len() - end,
    {
        end = end + 1;
    }
    proof {
        let rest = bytes@.skip(from as int);
        assert forall|k: int| 0 <= k < end - from && k + 1 < rest.len() implies !(
        #[trigger] rest[k] == 0x0a && rest[k + 1] == 0x0a) by {
            assert(rest[k] == bytes@[from + k]);
            assert(rest[k + 1] == bytes@[from + k + 1]);
        }
        lemma_until_gap(rest, end - from);
    }
    end
}

/// The sum of the numbers.
pub open spec fn added(values: Seq<nat>) -> nat
    decreases values.len(),
{
    if values.len() == 0 {
        0
    } else {
        added(values.drop_last()) + values.last()
    }
}

/// `relation` allows the value for the line.
pub open spec fn allows(relation: spec_fn(Seq<u8>, nat) -> bool, line: Seq<u8>, value: nat) -> bool {
    relation(line, value)
}

/// `relation` allows no value for the line.
pub open spec fn barren(relation: spec_fn(Seq<u8>, nat) -> bool, line: Seq<u8>) -> bool {
    forall|value: nat| !#[trigger] allows(relation, line, value)
}

/// Each of the values is what `relation` allows for the line at its place.
pub open spec fn valued(
    text: Seq<Seq<u8>>,
    relation: spec_fn(Seq<u8>, nat) -> bool,
    values: Seq<nat>,
) -> bool {
    values.len() <= text.len() && forall|i: int|
        0 <= i < values.len() ==> relation(text[i], #[trigger] values[i])
}

/// `total` is the sum of values that `relation` allows for the lines, one
/// for each.
pub open spec fn sums_to(
    text: Seq<Seq<u8>>,
    relation: spec_fn(Seq<u8>, nat) -> bool,
    total: nat,
) -> bool {
    exists|values: Seq<nat>|
        #![trigger added(values)]
        values.len() == text.len() && valued(text, relation, values) && total == added(values)
}

/// Values that `relation` allows for the first lines add up to more than
/// `limit`.
pub open spec fn overflows(
    text: Seq<Seq<u8>>,
    relation: spec_fn(Seq<u8>, nat) -> bool,
    limit: nat,
) -> bool {
    exists|values: Seq<nat>|
        #![trigger added(values)]
        valued(text, relation, values) && added(values) > limit
}

/// `relation` allows no value for one of the lines.
pub open spec fn valueless(text: Seq<Seq<u8>>, relation: spec_fn(Seq<u8>, nat) -> bool) -> bool {
    exists|i: int| 0 <= i < text.len() && #[trigger] barren(relation, text[i])
}

/// One value more.
pub proof fn lemma_valued_push(
    text: Seq<Seq<u8>>,
    relation: spec_fn(Seq<u8>, nat) -> bool,
    values: Seq<nat>,
    value: nat,
)
    requires
        valued(text, relation, values),
        values.len() < text.len(),
        relation(text[values.len() as int], value),
    ensures
        valued(text, relation, values.push(value)),
        added(values.push(value)) == added(values) + value,
{
    let more = values.push(value);
    assert(more.drop_last() =~= values);
    assert forall|i: int| 0 <= i < more.len() implies relation(text[i], #[trigger] more[i]) by {
        if i < values.len() {
            assert(more[i] == values[i]);
        }
    }
}

/// The place of the first of the names that is `name`; where none is, the
/// next free place.
pub open spec fn seek(names: Seq<Seq<u8>>, name: Seq<u8>) -> nat
    decreases names.len(),
{
    if names.len() == 0 || names[0] == name {
        0
    } else {
        1 + seek(names.drop_first(), name)
    }
}

/// The place of a name is that of the first of the names that is the name.
pub proof fn lemma_seek(names: Seq<Seq<u8>>, name: Seq<u8>, at: int)
    requires
        0 <= at <= names.len(),
        forall|k: int| 0 <= k < at ==> #[trigger] names[k] != name,
        at < names.len() ==> names[at] == name,
    ensures
        seek(names, name) == at,
    decreases names.len(),
{
    if at > 0 {
        let rest = names.drop_first();
        assert(names[0] != name);
        assert forall|k: int| 0 <= k < at - 1 implies #[trigger] rest[k] != name by {
            assert(rest[k] == names[k + 1]);
        }
        if at < names.len() {
            assert(rest[at - 1] == names[at]);
        }
        lemma_seek(rest, name, at - 1);
    }
}

} // verus!
