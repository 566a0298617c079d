//! Carrying a row of readings on by its differences.

use crate::text::{lines, read_signed_numbers, rows_of, signed_in, split_lines};
use vstd::prelude::*;
use vstd::slice::*;
use vstd::string::*;

verus! {

/// The readings as numbers.
pub open spec fn values(sequence: Seq<isize>) -> Seq<int> {
    sequence.map_values(|value: isize| value as int)
}

/// The difference of each two neighbours.
pub open spec fn differences(sequence: Seq<int>) -> Seq<int> {
    Seq::new((sequence.len() - 1) as nat, |i: int| sequence[i + 1] - sequence[i])
}

/// Every number is 0.
pub open spec fn all_zero(sequence: Seq<int>) -> bool {
    forall|i: int| 0 <= i < sequence.len() ==> sequence[i] == 0
}

/// What comes after the readings: the last of them plus what comes after
/// their differences; 0 after fewer than two readings, and after differences
/// that are all 0.
pub open spec fn next_of(sequence: Seq<int>) -> int
    decreases sequence.len(),
{
    if sequence.len() <= 1 {
        0
    } else if all_zero(differences(sequence)) {
        sequence.last()
    } else {
        sequence.last() + next_of(differences(sequence))
    }
}

/// What comes before the readings: the first of them minus what comes
/// before their differences; 0 before fewer than two readings, and before
/// differences that are all 0.
pub open spec fn previous_of(sequence: Seq<int>) -> int
    decreases sequence.len(),
{
    if sequence.len() <= 1 {
        0
    } else if all_zero(differences(sequence)) {
        sequence[0]
    } else {
        sequence[0] - previous_of(differences(sequence))
    }
}

/// `value` is a number of the machine.
pub open spec fn fits(value: int) -> bool {
    isize::MIN <= value <= isize::MAX
}

/// The readings can be carried on without leaving the numbers of the
/// machine: their differences fit, what comes after and before them fits,
/// and so on for the differences.
pub open spec fn tame(sequence: Seq<int>) -> bool
    decreases sequence.len(),
{
    if sequence.len() <= 1 {
        true
    } else {
        &&& forall|i: int|
            0 <= i < differences(sequence).len() ==> fits(#[trigger] differences(sequence)[i])
        &&& fits(next_of(sequence))
        &&& fits(previous_of(sequence))
        &&& all_zero(differences(sequence)) || tame(differences(sequence))
    }
}

/// The difference of each two neighbours.
fn diffs(sequence: &[isize]) -> (r: Vec<isize>)
    requires
        sequence@.len() >= 2,
        forall|i: int|
            0 <= i < differences(values(sequence@)).len() ==> fits(
                #[trigger] differences(values(sequence@))[i],
            ),
    ensures
        values(r@) == differences(values(sequence@)),
{
    let mut diffs: Vec<isize> = Vec::with_capacity(sequence.len() - 1);
    let mut i: usize = 1;
    while i < sequence.len()
        invariant
            1 <= i <= sequence@.len(),
            diffs@.len() == i - 1,
            forall|k: int|
                0 <= k < differences(values(sequence@)).len() ==> fits(
                    #[trigger] differences(values(sequence@))[k],
                ),
            forall|k: int| 0 <= k < i - 1 ==> #[trigger] diffs@[k] == sequence@[k + 1] - sequence@[k],
        decreases sequence@.len() - i,
    {
        proof {
            assert(fits(differences(values(sequence@))[i - 1]));
        }
        diffs.push(sequence[i] - sequence[i - 1]);
        i = i + 1;
    }
    proof {
        assert(values(diffs@) =~= differences(values(sequence@)));
    }
    diffs
}

/// Whether every number is 0.
fn zeros(sequence: &Vec<isize>) -> (r: bool)
    ensures
        r == all_zero(values(sequence@)),
{
    let mut i: usize = 0;
    while i < sequence.len()
        invariant
            i <= sequence@.len(),
            forall|k: int| 0 <= k < i ==> sequence@[k] == 0,
        decreases sequence@.len() - i,
    {
        if sequence[i] != 0 {
            proof {
                assert(values(sequence@)[i as int] != 0);
            }
            return false;
        }
        i = i + 1;
    }
    proof {
        assert forall|k: int| 0 <= k < values(sequence@).len() implies values(sequence@)[k]
            == 0 by {
            assert(sequence@[k] == 0);
        }
    }
    true
}

/// What comes after the readings.
pub fn next_value(sequence: &[isize]) -> (r: isize)
    requires
        tame(values(sequence@)),
    ensures
        r == next_of(values(sequence@)),
    decreases sequence@.len(),
{
    if sequence.len() <= 1 {
        return 0;
    }
    let diffs = diffs(sequence);
    let last = sequence[sequence.len() - 1];
    proof {
        assert(values(sequence@).last() == last);
    }
    let diff = if zeros(&diffs) {
        0
    } else {
        next_value(diffs.as_slice())
    };
    last + diff
}

/// What comes before the readings.
pub fn previous_value(sequence: &[isize]) -> (r: isize)
    requires
        tame(values(sequence@)),
    ensures
        r == previous_of(values(sequence@)),
    decreases sequence@.len(),
{
    if sequence.len() <= 1 {
        return 0;
    }
    let diffs = diffs(sequence);
    let first = sequence[0];
    proof {
        assert(values(sequence@)[0] == first);
    }
    let diff = if zeros(&diffs) {
        0
    } else {
        previous_value(diffs.as_slice())
    };
    first - diff
}

/// The difference of each two neighbours; `None` where one of them is no
/// number of the machine.
fn try_diffs(sequence: &[isize]) -> (r: Option<Vec<isize>>)
    requires
        sequence@.len() >= 2,
    ensures
        match r {
            Some(diffs) => values(diffs@) == differences(values(sequence@)),
            None => exists|i: int|
                0 <= i < differences(values(sequence@)).len() && !fits(
                    #[trigger] differences(values(sequence@))[i],
                ),
        },
{
    let mut diffs: Vec<isize> = Vec::with_capacity(sequence.len() - 1);
    let mut i: usize = 1;
    while i < sequence.len()
        invariant
            1 <= i <= sequence@.len(),
            diffs@.len() == i - 1,
            forall|k: int| 0 <= k < i - 1 ==> #[trigger] diffs@[k] == sequence@[k + 1] - sequence@[k],
        decreases sequence@.len() - i,
    {
        match sequence[i].checked_sub(sequence[i - 1]) {
            Some(diff) => {
                diffs.push(diff);
            },
            None => {
                proof {
                    assert(!fits(differences(values(sequence@))[i - 1]));
                }
                return None;
            },
        }
        i = i + 1;
    }
    proof {
        assert(values(diffs@) =~= differences(values(sequence@)));
    }
    Some(diffs)
}

/// What comes after the readings, and what comes before them; `None` where
/// the readings are not `tame`.
pub fn try_values(sequence: &[isize]) -> (r: Option<(isize, isize)>)
    ensures
        match r {
            Some((next, previous)) => tame(values(sequence@)) && next == next_of(
                values(sequence@),
            ) && previous == previous_of(values(sequence@)),
            None => !tame(values(sequence@)),
        },
    decreases sequence@.len(),
{
    if sequence.len() <= 1 {
        return Some((0, 0));
    }
    let diffs = match try_diffs(sequence) {
        Some(diffs) => diffs,
        None => {
            return None;
        },
    };
    let last = sequence[sequence.len() - 1];
    let first = sequence[0];
    proof {
        assert(values(sequence@).last() == last);
        assert(values(sequence@)[0] == first);
    }
    let (after, before) = if zeros(&diffs) {
        (0, 0)
    } else {
        match try_values(diffs.as_slice()) {
            Some(both) => both,
            None => {
                return None;
            },
        }
    };
    match (last.checked_add(after), first.checked_sub(before)) {
        (Some(next), Some(previous)) => Some((next, previous)),
        _ => None,
    }
}

/// The sum, over the first `upto` lines, of what comes after the readings
/// of each, or of what comes before them where `back` holds.
pub open spec fn forecast(text: Seq<Seq<u8>>, upto: int, back: bool) -> int
    decreases upto,
{
    if upto <= 0 {
        0
    } else {
        forecast(text, upto - 1, back) + if back {
            previous_of(signed_in(text[upto - 1]))
        } else {
            next_of(signed_in(text[upto - 1]))
        }
    }
}

/// The readings of a line, or what comes of them, leave the numbers of the
/// machine, or the sum up to the line does.
pub open spec fn astray(text: Seq<Seq<u8>>, back: bool) -> bool {
    exists|i: int|
        0 <= i < text.len() && ((exists|k: int|
            0 <= k < signed_in(text[i]).len() && !(isize::MIN < #[trigger] signed_in(text[i])[k]
                <= isize::MAX)) || !tame(signed_in(#[trigger] text[i])) || !fits(
            forecast(text, i + 1, back),
        ))
}

/// The sum of what comes after the readings of each line of the text, or
/// of what comes before them where `back` holds. `None` where a reading, a
/// difference or a sum is no number of the machine.
fn solve(input: &str, back: bool) -> (r: Option<isize>)
    ensures
        match r {
            Some(total) => total == forecast(
                lines(input.spec_bytes()),
                lines(input.spec_bytes()).len() as int,
                back,
            ),
            None => astray(lines(input.spec_bytes()), back),
        },
{
    let rows = split_lines(input.as_bytes());
    let ghost text = lines(input.spec_bytes());
    let mut total: isize = 0;
    let mut i: usize = 0;
    while i < rows.len()
        invariant
            i <= rows@.len(),
            text == rows_of(rows@),
            text == lines(input.spec_bytes()),
            total == forecast(text, i as int, back),
        decreases rows@.len() - i,
    {
        let row = &rows[i];
        proof {
            assert(row@.subrange(0, row@.len() as int) =~= row@);
            assert(text[i as int] == row@);
        }
        let readings = match read_signed_numbers(row.as_slice(), 0, row.len()) {
            Some(readings) => readings,
            None => {
                proof {
                    let k = choose|k: int|
                        0 <= k < signed_in(row@).len() && !(isize::MIN < #[trigger] signed_in(
                            row@,
                        )[k] <= isize::MAX);
                    assert(!(isize::MIN < signed_in(text[i as int])[k] <= isize::MAX));
                }
                return None;
            },
        };
        proof {
            assert(values(readings@) =~= signed_in(row@));
        }
        let (after, before) = match try_values(readings.as_slice()) {
            Some(both) => both,
            None => {
                proof {
                    assert(!tame(signed_in(text[i as int])));
                }
                return None;
            },
        };
        let more = if back {
            before
        } else {
            after
        };
        total = match total.checked_add(more) {
            Some(total) => total,
            None => {
                proof {
                    assert(!fits(forecast(text, i + 1, back)));
                }
                return None;
            },
        };
        i = i + 1;
    }
    Some(total)
}

/// The sum of what comes after the readings of each line of the text.
pub fn solve_part1(input: &str) -> (r: Option<isize>)
    ensures
        match r {
            Some(total) => total == forecast(
                lines(input.spec_bytes()),
                lines(input.spec_bytes()).len() as int,
                false,
            ),
            None => astray(lines(input.spec_bytes()), false),
        },
{
    solve(input, false)
}

/// The sum of what comes before the readings of each line of the text.
pub fn solve_part2(input: &str) -> (r: Option<isize>)
    ensures
        match r {
            Some(total) => total == forecast(
                lines(input.spec_bytes()),
                lines(input.spec_bytes()).len() as int,
                true,
            ),
            None => astray(lines(input.spec_bytes()), true),
        },
{
    solve(input, true)
}

} // verus!
