//! Rows of springs, some of them of unknown condition.

use crate::text::{
    lemma_sum_none, lemma_sum_step, lines, read_numbers, rows_of, split_lines, sum_of,
};
use vstd::prelude::*;
use vstd::slice::*;
use vstd::string::*;

verus! {

/// The condition of a spring.
#[derive(Clone, Copy, Debug, PartialEq, Eq, Structural)]
pub enum Spring {
    Working,
    Broken,
    Unknown,
}

impl Spring {
    /// What a character of the record stands for.
    pub open spec fn of(value: char) -> Option<Spring> {
        if value == '.' {
            Some(Spring::Working)
        } else if value == '#' {
            Some(Spring::Broken)
        } else if value == '?' {
            Some(Spring::Unknown)
        } else {
            None
        }
    }

    /// What a character of the record stands for.
    pub fn from(value: char) -> (r: Self)
        requires
            Spring::of(value) is Some,
        ensures
            Some(r) == Spring::of(value),
    {
        if value == '.' {
            Spring::Working
        } else if value == '#' {
            Spring::Broken
        } else {
            Spring::Unknown
        }
    }
}

/// A row of springs.
pub struct Row {
    pub springs: Vec<Spring>,
}

/// A run of `size` broken springs can stand at the start of the row: the
/// row is long enough, none of its first `size` springs is known to work, and
/// the one after them, if there is one, is not known to be broken.
pub open spec fn fits(springs: Seq<Spring>, size: int) -> bool {
    &&& 0 <= size <= springs.len()
    &&& forall|i: int| 0 <= i < size ==> springs[i] != Spring::Working
    &&& springs.len() == size || springs[size] != Spring::Broken
}

/// The row after a run of `size` broken springs at its start and the spring
/// that parts it from the next run.
pub open spec fn beyond(springs: Seq<Spring>, size: int) -> Seq<Spring> {
    if springs.len() <= size {
        Seq::empty()
    } else {
        springs.skip(size + 1)
    }
}

/// In how many ways the unknown springs can be working or broken so that the
/// runs of broken springs are of the sizes in `sets`, in their order.
///
/// A row of no springs has one way if no run is asked for. Else the first
/// spring works, unless it is known to be broken, and the rest holds all the
/// runs; or it starts the first run, unless it is known to work, and the runs
/// after that one stand beyond it.
pub open spec fn arrangements(springs: Seq<Spring>, sets: Seq<usize>) -> nat
    decreases springs.len(),
{
    if springs.len() == 0 {
        if sets.len() == 0 {
            1
        } else {
            0
        }
    } else {
        (if springs[0] != Spring::Broken {
            arrangements(springs.skip(1), sets)
        } else {
            0
        }) + (if springs[0] != Spring::Working && sets.len() > 0 && sets[0] >= 1 && fits(
            springs,
            sets[0] as int,
        ) {
            arrangements(beyond(springs, sets[0] as int), sets.skip(1))
        } else {
            0
        })
    }
}

/// Whether a run of `size` broken springs can stand at `from`.
fn fits_at(springs: &[Spring], from: usize, size: usize) -> (r: bool)
    requires
        from <= springs@.len(),
    ensures
        r == fits(springs@.skip(from as int), size as int),
{
    let n = springs.len();
    let ghost rest = springs@.skip(from as int);
    if size > n - from {
        return false;
    }
    let mut i: usize = 0;
    while i < size
        invariant
            from + size <= n,
            n == springs@.len(),
            i <= size,
            rest == springs@.skip(from as int),
            forall|k: int| 0 <= k < i ==> rest[k] != Spring::Working,
        decreases size - i,
    {
        proof {
            assert(rest[i as int] == springs@[from + i]);
        }
        if springs[from + i] == Spring::Working {
            return false;
        }
        i = i + 1;
    }
    if from + size < n {
        proof {
            assert(rest[size as int] == springs@[from + size]);
        }
        springs[from + size] != Spring::Broken
    } else {
        true
    }
}

/// The ways of the row, or of an end of it with the last of the runs, are
/// more than the numbers of the machine, or the row or the runs are as many
/// as those numbers.
pub open spec fn too_many(springs: Seq<Spring>, sets: Seq<usize>) -> bool {
    ||| springs.len() >= usize::MAX
    ||| sets.len() >= usize::MAX
    ||| exists|i: int, j: int|
        0 <= i <= springs.len() && 0 <= j <= sets.len() && #[trigger] arrangements(
            springs.skip(i),
            sets.skip(j),
        ) > usize::MAX
}

/// In how many ways the unknown springs can be working or broken so that the
/// runs of broken springs are of the sizes in `broken_sets`. `None` where
/// they are `too_many`.
pub fn count_matches_internal(springs: &[Spring], broken_sets: &[usize]) -> (r: Option<usize>)
    ensures
        r matches Some(count) ==> count == arrangements(springs@, broken_sets@),
        r is None <==> too_many(springs@, broken_sets@),
{
    let n = springs.len();
    let m = broken_sets.len();
    if n == usize::MAX || m == usize::MAX {
        return None;
    }
    // table[n - i][m - j] holds the ways of the springs from `i` on with the
    // runs from `j` on.
    let mut table: Vec<Vec<usize>> = Vec::new();
    let mut done: usize = 0;
    while done <= n
        invariant
            n == springs@.len(),
            m == broken_sets@.len(),
            n < usize::MAX,
            m < usize::MAX,
            done <= n + 1,
            table@.len() == done,
            forall|a: int| 0 <= a < done ==> (#[trigger] table@[a])@.len() == m + 1,
            forall|a: int, b: int|
                0 <= a < done && 0 <= b <= m ==> (#[trigger] table@[a]@[b]) == arrangements(
                    springs@.skip(n - a),
                    broken_sets@.skip(m - b),
                ),
        decreases n + 1 - done,
    {
        let i = n - done;
        let ghost rest = springs@.skip(i as int);
        let mut line: Vec<usize> = Vec::new();
        let mut runs: usize = 0;
        while runs <= m
            invariant
                n == springs@.len(),
                m == broken_sets@.len(),
                m < usize::MAX,
                done <= n,
                i == n - done,
                rest == springs@.skip(i as int),
                table@.len() == done,
                forall|a: int| 0 <= a < done ==> (#[trigger] table@[a])@.len() == m + 1,
                forall|a: int, b: int|
                    0 <= a < done && 0 <= b <= m ==> (#[trigger] table@[a]@[b]) == arrangements(
                        springs@.skip(n - a),
                        broken_sets@.skip(m - b),
                    ),
                runs <= m + 1,
                line@.len() == runs,
                forall|b: int|
                    0 <= b < runs ==> #[trigger] line@[b] == arrangements(
                        rest,
                        broken_sets@.skip(m - b),
                    ),
            decreases m + 1 - runs,
        {
            let j = m - runs;
            let ghost sets = broken_sets@.skip(j as int);
            let ways = if done == 0 {
                if runs == 0 {
                    1
                } else {
                    0
                }
            } else {
                proof {
                    assert(rest[0] == springs@[i as int]);
                    assert(rest.skip(1) =~= springs@.skip(i + 1));
                }
                let skipped = if springs[i] != Spring::Broken {
                    table[done - 1][runs]
                } else {
                    0
                };
                let placed = if springs[i] != Spring::Working && runs > 0 && broken_sets[j] >= 1
                    && fits_at(springs, i, broken_sets[j]) {
                    let size = broken_sets[j];
                    proof {
                        assert(sets[0] == broken_sets@[j as int]);
                        assert(sets.skip(1) =~= broken_sets@.skip(j + 1));
                        if rest.len() <= size {
                            assert(beyond(rest, size as int) =~= springs@.skip(n as int));
                        } else {
                            assert(beyond(rest, size as int) =~= springs@.skip(i + size + 1));
                        }
                    }
                    if done - size == 0 {
                        table[0][runs - 1]
                    } else {
                        table[done - size - 1][runs - 1]
                    }
                } else {
                    proof {
                        if runs > 0 {
                            assert(sets[0] == broken_sets@[j as int]);
                        }
                    }
                    0
                };
                if skipped > usize::MAX - placed {
                    proof {
                        assert(arrangements(springs@.skip(i as int), broken_sets@.skip(j as int))
                            > usize::MAX);
                    }
                    return None;
                }
                skipped + placed
            };
            line.push(ways);
            runs = runs + 1;
        }
        table.push(line);
        done = done + 1;
    }
    proof {
        assert(springs@.skip(0) =~= springs@);
        assert(broken_sets@.skip(0) =~= broken_sets@);
        assert forall|i: int, j: int| 0 <= i <= n && 0 <= j <= m implies #[trigger] arrangements(
            springs@.skip(i),
            broken_sets@.skip(j),
        ) <= usize::MAX by {
            assert(table@[n - i]@[m - j] == arrangements(
                springs@.skip(n - (n - i)),
                broken_sets@.skip(m - (m - j)),
            ));
        }
    }
    Some(table[n][m])
}

impl Row {
    /// In how many ways the unknown springs of the row can be working or
    /// broken so that the runs of broken springs are of the sizes expected.
    pub fn count_matches(&self, expected: &[usize]) -> (r: Option<usize>)
        ensures
            r matches Some(count) ==> count == arrangements(self.springs@, expected@),
            r is None <==> too_many(self.springs@, expected@),
    {
        count_matches_internal(self.springs.as_slice(), expected)
    }
}

/// `times` copies of the springs, with a spring of unknown condition
/// between each two.
pub open spec fn unfolded_springs(springs: Seq<Spring>, times: nat) -> Seq<Spring>
    decreases times,
{
    if times == 0 {
        Seq::empty()
    } else if times == 1 {
        springs
    } else {
        unfolded_springs(springs, (times - 1) as nat) + seq![Spring::Unknown] + springs
    }
}

/// `times` copies of the sizes, one after the other.
pub open spec fn unfolded_sets(sets: Seq<usize>, times: nat) -> Seq<usize>
    decreases times,
{
    if times == 0 {
        Seq::empty()
    } else {
        unfolded_sets(sets, (times - 1) as nat) + sets
    }
}

/// The record unfolded: five copies of the springs with a spring of unknown
/// condition between each two, and five copies of the sizes.
pub fn unfold(row: &Row, expected: &Vec<usize>) -> (r: (Row, Vec<usize>))
    ensures
        r.0.springs@ == unfolded_springs(row.springs@, 5),
        r.1@ == unfolded_sets(expected@, 5),
{
    let mut more_expected: Vec<usize> = Vec::new();
    let mut more_springs: Vec<Spring> = Vec::new();
    let mut i: usize = 0;
    while i < 5
        invariant
            i <= 5,
            more_springs@ == unfolded_springs(row.springs@, i as nat),
            more_expected@ == unfolded_sets(expected@, i as nat),
        decreases 5 - i,
    {
        let ghost springs_before = more_springs@;
        let ghost expected_before = more_expected@;
        let mut k: usize = 0;
        while k < expected.len()
            invariant
                k <= expected@.len(),
                more_expected@ == expected_before + expected@.take(k as int),
            decreases expected@.len() - k,
        {
            more_expected.push(expected[k]);
            proof {
                assert(expected@.take(k + 1) =~= expected@.take(k as int).push(expected@[k as int]));
                assert(more_expected@ =~= expected_before + expected@.take(k + 1));
            }
            k = k + 1;
        }
        if i > 0 {
            more_springs.push(Spring::Unknown);
        }
        let ghost joined = more_springs@;
        let mut k: usize = 0;
        while k < row.springs.len()
            invariant
                k <= row.springs@.len(),
                more_springs@ == joined + row.springs@.take(k as int),
            decreases row.springs@.len() - k,
        {
            more_springs.push(row.springs[k]);
            proof {
                assert(row.springs@.take(k + 1) =~= row.springs@.take(k as int).push(
                    row.springs@[k as int],
                ));
                assert(more_springs@ =~= joined + row.springs@.take(k + 1));
            }
            k = k + 1;
        }
        proof {
            assert(expected@.take(expected@.len() as int) =~= expected@);
            assert(row.springs@.take(row.springs@.len() as int) =~= row.springs@);
            if i == 0 {
                assert(more_springs@ =~= row.springs@);
            } else {
                assert(joined =~= springs_before + seq![Spring::Unknown]);
            }
        }
        i = i + 1;
    }
    (Row { springs: more_springs }, more_expected)
}

/// The spring that a byte of the record stands for.
pub open spec fn spring_of(byte: u8) -> Option<Spring> {
    if byte == 0x2e {
        Some(Spring::Working)
    } else if byte == 0x23 {
        Some(Spring::Broken)
    } else if byte == 0x3f {
        Some(Spring::Unknown)
    } else {
        None
    }
}

/// Where the first blank of the line stands; its end where it has none.
pub open spec fn blank_of(line: Seq<u8>) -> nat
    decreases line.len(),
{
    if line.len() == 0 || line[0] == 0x20 {
        0
    } else {
        1 + blank_of(line.skip(1))
    }
}

/// What a line of the record says: the springs before the first blank, and
/// the numbers after them. `None` where a byte before the blank stands for no
/// spring, or where a number is none of the machine.
pub open spec fn row_of(line: Seq<u8>) -> Option<(Seq<Spring>, Seq<nat>)> {
    let blank = blank_of(line);
    let sizes = crate::text::numbers_in(line.skip(blank as int));
    if (forall|k: int| 0 <= k < blank ==> spring_of(#[trigger] line[k]) is Some) && (forall|
        k: int,
    | 0 <= k < sizes.len() ==> #[trigger] sizes[k] <= usize::MAX) {
        Some((Seq::new(blank, |k: int| spring_of(line[k])->0), sizes))
    } else {
        None
    }
}

proof fn lemma_blank(line: Seq<u8>, at: int)
    requires
        0 <= at <= line.len(),
        forall|k: int| 0 <= k < at ==> #[trigger] line[k] != 0x20,
        at < line.len() ==> line[at] == 0x20,
    ensures
        blank_of(line) == at,
    decreases at,
{
    if at > 0 {
        let rest = line.skip(1);
        assert forall|k: int| 0 <= k < at - 1 implies #[trigger] rest[k] != 0x20 by {
            assert(rest[k] == line[k + 1]);
        }
        lemma_blank(rest, at - 1);
    }
}

/// Reads a line of the record: the springs, then, after a blank, the sizes
/// of the runs of broken springs.
pub fn parse_row(bytes: &[u8], from: usize, to: usize) -> (r: Option<(Row, Vec<usize>)>)
    requires
        from <= to <= bytes@.len(),
    ensures
        match r {
            Some(read) => row_of(bytes@.subrange(from as int, to as int)) == Some(
                (read.0.springs@, numbers(read.1@)),
            ),
            None => row_of(bytes@.subrange(from as int, to as int)) is None,
        },
{
    let ghost line = bytes@.subrange(from as int, to as int);
    let mut springs: Vec<Spring> = Vec::new();
    let mut at = from;
    while at < to && bytes[at] != 0x20
        invariant
            from <= at <= to <= bytes@.len(),
            line == bytes@.subrange(from as int, to as int),
            springs@.len() == at - from,
            forall|k: int| 0 <= k < at - from ==> #[trigger] line[k] != 0x20 && spring_of(line[k])
                == Some(springs@[k]),
        decreases to - at,
    {
        let byte = bytes[at];
        proof {
            assert(line[at - from] == byte);
        }
        let ghost before = springs@;
        if byte == 0x2e {
            springs.push(Spring::Working);
        } else if byte == 0x23 {
            springs.push(Spring::Broken);
        } else if byte == 0x3f {
            springs.push(Spring::Unknown);
        } else {
            proof {
                let blank = blank_of(line);
                lemma_blank_after(line, at - from);
                assert(spring_of(line[at - from]) is None);
            }
            return None;
        }
        proof {
            assert forall|k: int| 0 <= k < at + 1 - from implies #[trigger] line[k] != 0x20
                && spring_of(line[k]) == Some(springs@[k]) by {
                if k < at - from {
                    assert(springs@[k] == before[k]);
                }
            }
        }
        at = at + 1;
    }
    proof {
        if at < to {
            assert(line[at - from] == bytes@[at as int]);
        }
        lemma_blank(line, at - from);
        assert(line.skip(at - from) =~= bytes@.subrange(at as int, to as int));
    }
    match read_numbers(bytes, at, to) {
        Some(counts) => {
            proof {
                let sizes = crate::text::numbers_in(line.skip(at - from));
                assert(numbers(counts@) == sizes);
                assert forall|k: int| 0 <= k < sizes.len() implies #[trigger] sizes[k]
                    <= usize::MAX by {
                    assert(sizes[k] == counts@[k]);
                }
                assert(springs@ =~= Seq::new((at - from) as nat, |k: int| spring_of(line[k])->0));
            }
            Some((Row { springs }, counts))
        },
        None => None,
    }
}

/// The first blank of a line stands after every byte that is none.
proof fn lemma_blank_after(line: Seq<u8>, at: int)
    requires
        0 <= at < line.len(),
        forall|k: int| 0 <= k <= at ==> #[trigger] line[k] != 0x20,
    ensures
        blank_of(line) > at,
    decreases at,
{
    if at > 0 {
        let rest = line.skip(1);
        assert forall|k: int| 0 <= k <= at - 1 implies #[trigger] rest[k] != 0x20 by {
            assert(rest[k] == line[k + 1]);
        }
        lemma_blank_after(rest, at - 1);
    } else {
        assert(line[0] != 0x20);
    }
}

/// The sizes as numbers.
pub open spec fn numbers(sets: Seq<usize>) -> Seq<nat> {
    sets.map_values(|n: usize| n as nat)
}

/// The sizes as numbers of the machine.
pub open spec fn sizes(sets: Seq<nat>) -> Seq<usize> {
    sets.map_values(|n: nat| n as usize)
}

/// In how many ways the springs of a line can be broken and whole as its
/// sizes say, the record being unfolded first where `unfolded` holds. `None`
/// where the line holds no record, or where the ways are `too_many`.
pub open spec fn ways_of(line: Seq<u8>, unfolded: bool) -> Option<nat> {
    match row_of(line) {
        Some((springs, sets)) => if unfolded {
            if too_many(unfolded_springs(springs, 5), unfolded_sets(sizes(sets), 5)) {
                None
            } else {
                Some(arrangements(unfolded_springs(springs, 5), unfolded_sets(sizes(sets), 5)))
            }
        } else {
            if too_many(springs, sizes(sets)) {
                None
            } else {
                Some(arrangements(springs, sizes(sets)))
            }
        },
        None => None,
    }
}

/// The sum of the ways of the lines. `None` where a line has none, or where
/// the sum is no number of the machine.
pub open spec fn answer(text: Seq<Seq<u8>>, unfolded: bool) -> Option<nat> {
    sum_of(text, |line: Seq<u8>| ways_of(line, unfolded), usize::MAX as nat)
}

/// The sum of the ways of the lines of the text.
fn solve(input: &str, unfolded: bool) -> (r: Option<usize>)
    ensures
        match r {
            Some(total) => answer(lines(input.spec_bytes()), unfolded) == Some(total as nat),
            None => answer(lines(input.spec_bytes()), unfolded) is None,
        },
{
    let rows = split_lines(input.as_bytes());
    let ghost text = lines(input.spec_bytes());
    let ghost value = |line: Seq<u8>| ways_of(line, unfolded);
    let mut total: usize = 0;
    let mut i: usize = 0;
    proof {
        assert(text.take(0) =~= Seq::<Seq<u8>>::empty());
    }
    while i < rows.len()
        invariant
            i <= rows@.len(),
            text == rows_of(rows@),
            text == lines(input.spec_bytes()),
            value == |line: Seq<u8>| ways_of(line, unfolded),
            sum_of(text.take(i as int), value, usize::MAX as nat) == Some(total as nat),
        decreases rows@.len() - i,
    {
        let line = &rows[i];
        proof {
            assert(line@.subrange(0, line@.len() as int) =~= line@);
            lemma_sum_step(text, value, usize::MAX as nat, i as int);
        }
        let (row, expected) = match parse_row(line.as_slice(), 0, line.len()) {
            Some(read) => read,
            None => {
                proof {
                    lemma_sum_none(text, value, usize::MAX as nat, i + 1);
                }
                return None;
            },
        };
        proof {
            assert(sizes(numbers(expected@)) =~= expected@);
        }
        let count = if unfolded {
            let (row, expected) = unfold(&row, &expected);
            row.count_matches(expected.as_slice())
        } else {
            row.count_matches(expected.as_slice())
        };
        let count = match count {
            Some(count) => count,
            None => {
                proof {
                    lemma_sum_none(text, value, usize::MAX as nat, i + 1);
                }
                return None;
            },
        };
        total = match total.checked_add(count) {
            Some(total) => total,
            None => {
                proof {
                    lemma_sum_none(text, value, usize::MAX as nat, i + 1);
                }
                return None;
            },
        };
        i = i + 1;
    }
    proof {
        assert(text.take(i as int) =~= text);
    }
    Some(total)
}

/// The sum, over the records of the text, of the ways in which the springs
/// can be broken and whole. `None` where a line holds no record or has
/// too many ways, or where the sum is no number of the machine.
pub fn solve_part1(input: &str) -> (r: Option<usize>)
    ensures
        match r {
            Some(total) => answer(lines(input.spec_bytes()), false) == Some(total as nat),
            None => answer(lines(input.spec_bytes()), false) is None,
        },
{
    solve(input, false)
}

/// The same sum with each record unfolded first, and `None` on the same
/// grounds.
pub fn solve_part2(input: &str) -> (r: Option<usize>)
    ensures
        match r {
            Some(total) => answer(lines(input.spec_bytes()), true) == Some(total as nat),
            None => answer(lines(input.spec_bytes()), true) is None,
        },
{
    solve(input, true)
}

} // verus!
