//! Patterns of ash and rock, and the lines in which they mirror themselves.

use crate::text::{added, blocks, find_gap, lines, rows_of, split_lines};
use vstd::prelude::*;
use vstd::slice::*;
use vstd::string::*;

verus! {

/// A pattern, row by row.
pub struct Pattern {
    pub map: Vec<Vec<u8>>,
}

impl Pattern {
    /// The pattern is in order: it has a row, its rows are of one length, and
    /// twice its rows and columns are numbers of the machine.
    pub open spec fn wf(&self) -> bool {
        &&& 1 <= self.map@.len()
        &&& 2 * self.map@.len() <= usize::MAX
        &&& 2 * self.map@[0]@.len() <= usize::MAX
        &&& forall|row: int|
            0 <= row < self.map@.len() ==> (#[trigger] self.map@[row])@.len() == self.map@[0]@.len()
    }

    /// How many lines the pattern has: rows, or columns where `across` holds.
    pub open spec fn lines(&self, across: bool) -> nat {
        if across {
            self.map@[0]@.len()
        } else {
            self.map@.len()
        }
    }

    /// How long the lines of the pattern are.
    pub open spec fn span(&self, across: bool) -> nat {
        self.lines(!across)
    }

    /// What stands at the place `at` of the line `line`.
    pub open spec fn cell(&self, across: bool, line: int, at: int) -> u8 {
        if across {
            self.map@[at]@[line]
        } else {
            self.map@[line]@[at]
        }
    }

    /// At how many of their first `upto` places the lines `a` and `b` differ.
    pub open spec fn differ(&self, across: bool, a: int, b: int, upto: int) -> nat
        decreases upto,
    {
        if upto <= 0 {
            0
        } else {
            self.differ(across, a, b, upto - 1) + if self.cell(across, a, upto - 1) != self.cell(
                across,
                b,
                upto - 1,
            ) {
                1nat
            } else {
                0nat
            }
        }
    }

    /// How many places are wrong for the pattern to mirror itself between the
    /// lines `gap` and `gap + 1`, as far as the first `upto` lines go: the
    /// places at which a line and its image differ.
    pub open spec fn wrong(&self, across: bool, gap: int, upto: int) -> nat
        decreases upto,
    {
        if upto <= 0 {
            0
        } else {
            let line = upto - 1;
            let image = 2 * gap - line + 1;
            self.wrong(across, gap, upto - 1) + if image < self.lines(across) {
                self.differ(across, line, image, self.span(across) as int)
            } else {
                0
            }
        }
    }

    /// How many places are wrong for the pattern to mirror itself between the
    /// lines `gap` and `gap + 1`.
    pub open spec fn smudges(&self, across: bool, gap: int) -> nat {
        self.wrong(across, gap, gap + 1)
    }

    /// `found` is the first line after which the pattern mirrors itself but
    /// for `num_wrong` places, counted from 1; `None` where there is none.
    pub open spec fn mirrors(&self, across: bool, num_wrong: usize, found: Option<usize>) -> bool {
        match found {
            Some(after) => {
                &&& 1 <= after < self.lines(across)
                &&& self.smudges(across, after - 1) == num_wrong
                &&& forall|gap: int|
                    0 <= gap < after - 1 ==> #[trigger] self.smudges(across, gap) != num_wrong
            },
            None => forall|gap: int|
                0 <= gap < self.lines(across) - 1 ==> #[trigger] self.smudges(across, gap)
                    != num_wrong,
        }
    }

    fn get(&self, across: bool, line: usize, at: usize) -> (r: u8)
        requires
            self.wf(),
            line < self.lines(across),
            at < self.span(across),
        ensures
            r == self.cell(across, line as int, at as int),
    {
        if across {
            self.map[at][line]
        } else {
            self.map[line][at]
        }
    }

    /// The first line after which the pattern mirrors itself but for
    /// `num_wrong` places.
    fn check(&self, across: bool, num_wrong: usize) -> (r: Option<usize>)
        requires
            self.wf(),
        ensures
            self.mirrors(across, num_wrong, r),
    {
        let lines = if across {
            self.map[0].len()
        } else {
            self.map.len()
        };
        let span = if across {
            self.map.len()
        } else {
            self.map[0].len()
        };
        if lines == 0 {
            return None;
        }
        let mut gap: usize = 0;
        while gap < lines - 1
            invariant
                self.wf(),
                lines == self.lines(across),
                span == self.span(across),
                lines >= 1,
                gap <= lines - 1,
                forall|g: int| 0 <= g < gap ==> #[trigger] self.smudges(across, g) != num_wrong,
            decreases lines - gap,
        {
            let mut wrong_count: usize = 0;
            let mut over = false;
            let mut line: usize = 0;
            while line <= gap && !over
                invariant
                    self.wf(),
                    lines == self.lines(across),
                    span == self.span(across),
                    gap < lines - 1,
                    line <= gap + 1,
                    !over ==> wrong_count == self.wrong(across, gap as int, line as int)
                        && wrong_count <= num_wrong,
                    over ==> self.wrong(across, gap as int, line as int) > num_wrong,
                decreases gap + 1 - line, !over as int,
            {
                let image = 2 * gap - line + 1;
                if image < lines {
                    let mut at: usize = 0;
                    let ghost before = wrong_count;
                    while at < span && !over
                        invariant
                            self.wf(),
                            lines == self.lines(across),
                            span == self.span(across),
                            line < lines,
                            image < lines,
                            at <= span,
                            before <= num_wrong,
                            !over ==> wrong_count == before + self.differ(
                                across,
                                line as int,
                                image as int,
                                at as int,
                            ) && wrong_count <= num_wrong,
                            over ==> before + self.differ(
                                across,
                                line as int,
                                image as int,
                                at as int,
                            ) > num_wrong,
                        decreases span - at, !over as int,
                    {
                        if self.get(across, line, at) != self.get(across, image, at) {
                            if wrong_count >= num_wrong {
                                over = true;
                            } else {
                                wrong_count = wrong_count + 1;
                            }
                        }
                        at = at + 1;
                    }
                    proof {
                        if over {
                            self.lemma_differ(across, line as int, image as int, at as int, span as int);
                        }
                    }
                }
                line = line + 1;
            }
            proof {
                if over {
                    self.lemma_wrong(across, gap as int, line as int, gap + 1);
                }
            }
            if !over && wrong_count == num_wrong {
                return Some(gap + 1);
            }
            gap = gap + 1;
        }
        None
    }

    /// Lines differ at no fewer places the more places are looked at.
    proof fn lemma_differ(&self, across: bool, a: int, b: int, at: int, upto: int)
        requires
            at <= upto,
        ensures
            self.differ(across, a, b, at) <= self.differ(across, a, b, upto),
        decreases upto - at,
    {
        if at < upto {
            self.lemma_differ(across, a, b, at, upto - 1);
        }
    }

    /// No fewer places are wrong the more lines are looked at.
    proof fn lemma_wrong(&self, across: bool, gap: int, at: int, upto: int)
        requires
            at <= upto,
        ensures
            self.wrong(across, gap, at) <= self.wrong(across, gap, upto),
        decreases upto - at,
    {
        if at < upto {
            self.lemma_wrong(across, gap, at, upto - 1);
        }
    }

    /// The first column after which the pattern mirrors itself but for
    /// `num_wrong` places, counted from 1.
    pub fn check_column_reflection(&self, num_wrong: usize) -> (r: Option<usize>)
        requires
            self.wf(),
        ensures
            self.mirrors(true, num_wrong, r),
    {
        self.check(true, num_wrong)
    }

    /// The first row after which the pattern mirrors itself but for
    /// `num_wrong` places, counted from 1.
    pub fn check_row_reflection(&self, num_wrong: usize) -> (r: Option<usize>)
        requires
            self.wf(),
        ensures
            self.mirrors(false, num_wrong, r),
    {
        self.check(false, num_wrong)
    }

    /// Reads a pattern from the bytes between `from` and `to`: a row for
    /// each line, a place for each byte. `None` where the lines have not
    /// the shape of a pattern.
    pub fn from(bytes: &[u8], from: usize, to: usize) -> (r: Option<Self>)
        requires
            from <= to <= bytes@.len(),
        ensures
            match r {
                Some(pattern) => pattern.wf() && rows_of(pattern.map@) == lines(
                    bytes@.subrange(from as int, to as int),
                ),
                None => !shaped(lines(bytes@.subrange(from as int, to as int))),
            },
    {
        let map = split_lines(slice_subrange(bytes, from, to));
        let ghost text = lines(bytes@.subrange(from as int, to as int));
        proof {
            assert forall|row: int| 0 <= row < map@.len() implies (#[trigger] map@[row])@
                == text[row] by {
                assert(rows_of(map@)[row] == map@[row]@);
            }
        }
        if map.len() == 0 || map.len() > usize::MAX / 2 || map[0].len() > usize::MAX / 2 {
            return None;
        }
        let cols = map[0].len();
        let mut k: usize = 0;
        while k < map.len()
            invariant
                k <= map@.len(),
                map@.len() >= 1,
                cols == map@[0]@.len(),
                rows_of(map@) == text,
                text == lines(bytes@.subrange(from as int, to as int)),
                forall|row: int| 0 <= row < map@.len() ==> (#[trigger] map@[row])@ == text[row],
                forall|i: int| 0 <= i < k ==> (#[trigger] map@[i])@.len() == cols,
            decreases map@.len() - k,
        {
            if map[k].len() != cols {
                proof {
                    assert(text[k as int].len() != text[0].len());
                }
                return None;
            }
            k = k + 1;
        }
        Some(Pattern { map })
    }
}

/// The lines have the shape of a pattern: there is a line, each line is as
/// long as the first, and twice their number and twice their length are
/// numbers of the machine.
pub open spec fn shaped(text: Seq<Seq<u8>>) -> bool {
    &&& 1 <= text.len()
    &&& 2 * text.len() <= usize::MAX
    &&& 2 * text[0].len() <= usize::MAX
    &&& forall|row: int| 0 <= row < text.len() ==> (#[trigger] text[row]).len() == text[0].len()
}

/// Each of the patterns is the one that the lines of its part draw.
pub open spec fn drawn(patterns: Seq<Pattern>, parts: Seq<Seq<u8>>) -> bool {
    &&& patterns.len() == parts.len()
    &&& forall|i: int|
        0 <= i < patterns.len() ==> (#[trigger] patterns[i]).wf() && rows_of(patterns[i].map@)
            == lines(parts[i])
}

/// Reads the patterns of a text, each parted from the next by an empty line.
/// `None` where the lines of a part have not the shape of a pattern.
pub fn parse_patterns(input: &str) -> (r: Option<Vec<Pattern>>)
    ensures
        match r {
            Some(patterns) => drawn(patterns@, blocks(input.spec_bytes())),
            None => exists|i: int|
                0 <= i < blocks(input.spec_bytes()).len() && !shaped(
                    lines(#[trigger] blocks(input.spec_bytes())[i]),
                ),
        },
{
    let bytes = input.as_bytes();
    let mut patterns: Vec<Pattern> = Vec::new();
    let mut at: usize = 0;
    let mut more = true;
    let ghost all = blocks(bytes@);
    let ghost mut done: Seq<Seq<u8>> = Seq::empty();
    proof {
        assert(bytes@.skip(0) =~= bytes@);
        assert(done + blocks(bytes@.skip(0)) =~= all);
    }
    while more
        invariant
            at <= bytes@.len(),
            bytes@ == input.spec_bytes(),
            all == blocks(bytes@),
            more ==> done + blocks(bytes@.skip(at as int)) == all,
            !more ==> done == all,
            drawn(patterns@, done),
        decreases bytes@.len() - at, more as int,
    {
        let end = find_gap(bytes, at);
        let ghost rest = bytes@.skip(at as int);
        let ghost part = bytes@.subrange(at as int, end as int);
        proof {
            assert(rest.take(end - at) =~= part);
            if end >= bytes@.len() {
                assert(part =~= rest);
            }
        }
        match Pattern::from(bytes, at, end) {
            Some(pattern) => {
                patterns.push(pattern);
            },
            None => {
                proof {
                    assert(all[done.len() as int] == part);
                }
                return None;
            },
        }
        proof {
            let before = done;
            done = done.push(part);
            assert forall|i: int| 0 <= i < patterns@.len() implies (#[trigger] patterns@[i]).wf()
                && rows_of(patterns@[i].map@) == lines(done[i]) by {
                if i < before.len() {
                    assert(done[i] == before[i]);
                }
            }
        }
        if end < bytes.len() {
            proof {
                assert(rest.skip(end - at + 2) =~= bytes@.skip(end + 2));
                assert(done + blocks(bytes@.skip(end + 2)) =~= (done.drop_last()) + blocks(rest));
            }
            at = end + 2;
        } else {
            proof {
                assert(done =~= done.drop_last() + blocks(rest));
            }
            at = end;
            more = false;
        }
    }
    Some(patterns)
}

/// `value` is what a pattern counts for: 100 for each row above the line
/// across which it mirrors itself but for `num_wrong` places; where there is
/// no such line, 1 for each column to the left of the line down which it
/// does; and 0 where there is none either.
pub open spec fn counts_for(pattern: Pattern, num_wrong: usize, value: nat) -> bool {
    exists|across: Option<usize>, down: Option<usize>|
        #![trigger pattern.mirrors(false, num_wrong, across), pattern.mirrors(true, num_wrong, down)]
        pattern.mirrors(false, num_wrong, across) && pattern.mirrors(true, num_wrong, down)
            && value == match (across, down) {
            (Some(above), _) => 100 * above,
            (None, Some(left)) => left as int,
            (None, None) => 0,
        }
}

/// `total` is what the patterns of the text count for together.
pub open spec fn summed(text: Seq<u8>, num_wrong: usize, total: nat) -> bool {
    exists|patterns: Seq<Pattern>, values: Seq<nat>|
        #![trigger drawn(patterns, blocks(text)), added(values)]
        drawn(patterns, blocks(text)) && values.len() == patterns.len() && (forall|i: int|
            0 <= i < patterns.len() ==> counts_for(patterns[i], num_wrong, #[trigger] values[i]))
            && total == added(values)
}

/// A part of the text is no pattern, or what the first patterns count for
/// is more than the machine can count.
pub open spec fn unsummed(text: Seq<u8>, num_wrong: usize) -> bool {
    (exists|i: int| 0 <= i < blocks(text).len() && !shaped(lines(#[trigger] blocks(text)[i])))
        || exists|patterns: Seq<Pattern>, values: Seq<nat>|
        #![trigger drawn(patterns, blocks(text)), added(values)]
        drawn(patterns, blocks(text)) && values.len() <= patterns.len() && (forall|i: int|
            0 <= i < values.len() ==> counts_for(patterns[i], num_wrong, #[trigger] values[i]))
            && added(values) > usize::MAX
}

/// What the patterns of the text count for together, each mirroring itself
/// but for `num_wrong` places. `None` where a part of the text is no
/// pattern, or where the sum is no number of the machine.
pub fn solve(input: &str, num_wrong: usize) -> (r: Option<usize>)
    ensures
        match r {
            Some(total) => summed(input.spec_bytes(), num_wrong, total as nat),
            None => unsummed(input.spec_bytes(), num_wrong),
        },
{
    let patterns = match parse_patterns(input) {
        Some(patterns) => patterns,
        None => {
            return None;
        },
    };
    let mut total: usize = 0;
    let ghost mut values: Seq<nat> = Seq::empty();
    let mut i: usize = 0;
    while i < patterns.len()
        invariant
            i <= patterns@.len(),
            drawn(patterns@, blocks(input.spec_bytes())),
            values.len() == i,
            forall|k: int|
                0 <= k < i ==> counts_for(patterns@[k], num_wrong, #[trigger] values[k]),
            total == added(values),
        decreases patterns@.len() - i,
    {
        let pattern = &patterns[i];
        let across = pattern.check_row_reflection(num_wrong);
        let down = pattern.check_column_reflection(num_wrong);
        let ghost value: nat = match (across, down) {
            (Some(above), _) => (100 * above) as nat,
            (None, Some(left)) => left as nat,
            (None, None) => 0,
        };
        let ghost before = values;
        proof {
            values = values.push(value);
            assert(values.drop_last() =~= before);
            assert forall|k: int| 0 <= k < i + 1 implies counts_for(
                patterns@[k],
                num_wrong,
                #[trigger] values[k],
            ) by {
                if k < i {
                    assert(values[k] == before[k]);
                }
            }
        }
        let counted = match across {
            Some(above) => above.checked_mul(100),
            None => match down {
                Some(left) => Some(left),
                None => Some(0),
            },
        };
        proof {
            assert(added(values) == total + value);
        }
        total = match counted {
            Some(counted) => match total.checked_add(counted) {
                Some(total) => total,
                None => {
                    proof {
                        assert(drawn(patterns@, blocks(input.spec_bytes())) && added(values)
                            > usize::MAX);
                    }
                    return None;
                },
            },
            None => {
                proof {
                    assert(drawn(patterns@, blocks(input.spec_bytes())) && added(values)
                        > usize::MAX);
                }
                return None;
            },
        };
        i = i + 1;
    }
    Some(total)
}

/// What the patterns of the text count for as they stand.
pub fn solve_part1(input: &str) -> (r: Option<usize>)
    ensures
        match r {
            Some(total) => summed(input.spec_bytes(), 0, total as nat),
            None => unsummed(input.spec_bytes(), 0),
        },
{
    solve(input, 0)
}

/// What the patterns of the text count for with one place of each wrong.
pub fn solve_part2(input: &str) -> (r: Option<usize>)
    ensures
        match r {
            Some(total) => summed(input.spec_bytes(), 1, total as nat),
            None => unsummed(input.spec_bytes(), 1),
        },
{
    solve(input, 1)
}

} // verus!
