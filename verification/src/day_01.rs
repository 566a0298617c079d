//! Calibration values hidden in lines of text.

use crate::text::{
    added, allows, barren, lemma_valued_push, lines, overflows, rows_of, split_lines, sums_to, valued, valueless,
};
use vstd::prelude::*;
use vstd::slice::*;
use vstd::string::*;

verus! {

/// The word for a digit.
pub open spec fn word(digit: int) -> Seq<u8> {
    if digit == 0 {
        seq![0x7au8, 0x65, 0x72, 0x6f]
    } else if digit == 1 {
        seq![0x6fu8, 0x6e, 0x65]
    } else if digit == 2 {
        seq![0x74u8, 0x77, 0x6f]
    } else if digit == 3 {
        seq![0x74u8, 0x68, 0x72, 0x65, 0x65]
    } else if digit == 4 {
        seq![0x66u8, 0x6f, 0x75, 0x72]
    } else if digit == 5 {
        seq![0x66u8, 0x69, 0x76, 0x65]
    } else if digit == 6 {
        seq![0x73u8, 0x69, 0x78]
    } else if digit == 7 {
        seq![0x73u8, 0x65, 0x76, 0x65, 0x6e]
    } else if digit == 8 {
        seq![0x65u8, 0x69, 0x67, 0x68, 0x74]
    } else {
        seq![0x6eu8, 0x69, 0x6e, 0x65]
    }
}

/// The text names the digit at `at`: there stands its word, or the digit
/// itself.
pub open spec fn names(text: Seq<u8>, at: int, digit: int) -> bool {
    &&& 0 <= at < text.len()
    &&& 0 <= digit <= 9
    &&& text[at] == 0x30 + digit || (at + word(digit).len() <= text.len() && text.subrange(
        at,
        at + word(digit).len(),
    ) == word(digit))
}

/// The text names a digit at `at`.
pub open spec fn names_any(text: Seq<u8>, at: int) -> bool {
    exists|digit: int| #[trigger] names(text, at, digit)
}

/// Whether the word stands in the text at `at`.
fn stands(text: &[u8], at: usize, word: &[u8]) -> (r: bool)
    requires
        at <= text@.len(),
    ensures
        r == (at + word@.len() <= text@.len() && text@.subrange(at as int, at + word@.len())
            == word@),
{
    let n = text.len();
    if word.len() > n - at {
        return false;
    }
    let mut k: usize = 0;
    while k < word.len()
        invariant
            n == text@.len(),
            at + word@.len() <= text@.len(),
            k <= word@.len(),
            forall|j: int| 0 <= j < k ==> text@[at + j] == word@[j],
        decreases word@.len() - k,
    {
        if text[at + k] != word[k] {
            proof {
                assert(text@.subrange(at as int, at + word@.len())[k as int] == text@[at + k]);
            }
            return false;
        }
        k = k + 1;
    }
    proof {
        assert(text@.subrange(at as int, at + word@.len()) =~= word@);
    }
    true
}

/// The word for a digit.
fn letters(digit: usize) -> (r: Vec<u8>)
    requires
        digit <= 9,
    ensures
        r@ == word(digit as int),
{
    let r = if digit == 0 {
        vec![0x7au8, 0x65, 0x72, 0x6f]
    } else if digit == 1 {
        vec![0x6fu8, 0x6e, 0x65]
    } else if digit == 2 {
        vec![0x74u8, 0x77, 0x6f]
    } else if digit == 3 {
        vec![0x74u8, 0x68, 0x72, 0x65, 0x65]
    } else if digit == 4 {
        vec![0x66u8, 0x6f, 0x75, 0x72]
    } else if digit == 5 {
        vec![0x66u8, 0x69, 0x76, 0x65]
    } else if digit == 6 {
        vec![0x73u8, 0x69, 0x78]
    } else if digit == 7 {
        vec![0x73u8, 0x65, 0x76, 0x65, 0x6e]
    } else if digit == 8 {
        vec![0x65u8, 0x69, 0x67, 0x68, 0x74]
    } else {
        vec![0x6eu8, 0x69, 0x6e, 0x65]
    };
    proof {
        assert(r@ =~= word(digit as int));
    }
    r
}

/// The digit that the text names at `at`, the lowest where it names more
/// than one; `None` where it names none.
pub fn match_digit(line: &[u8], at: usize) -> (r: Option<usize>)
    requires
        at < line@.len(),
    ensures
        match r {
            Some(digit) => names(line@, at as int, digit as int) && forall|lower: int|
                0 <= lower < digit ==> !names(line@, at as int, lower),
            None => !names_any(line@, at as int),
        },
{
    let mut digit: usize = 0;
    while digit <= 9
        invariant
            at < line@.len(),
            digit <= 10,
            forall|lower: int| 0 <= lower < digit ==> !names(line@, at as int, lower),
        decreases 10 - digit,
    {
        let word = letters(digit);
        if line[at] as usize == 0x30 + digit || stands(line, at, word.as_slice()) {
            return Some(digit);
        }
        digit = digit + 1;
    }
    None
}

/// The text names the digit up to `end`: there ends its word, or there
/// stands the digit itself.
pub open spec fn names_back(text: Seq<u8>, end: int, digit: int) -> bool {
    &&& 1 <= end <= text.len()
    &&& 0 <= digit <= 9
    &&& text[end - 1] == 0x30 + digit || (word(digit).len() <= end && text.subrange(
        end - word(digit).len(),
        end,
    ) == word(digit))
}

/// The digit that the text names up to `end`, the lowest where it names
/// more than one; `None` where it names none.
pub fn match_digit_back(line: &[u8], end: usize) -> (r: Option<usize>)
    requires
        1 <= end <= line@.len(),
    ensures
        match r {
            Some(digit) => names_back(line@, end as int, digit as int) && forall|lower: int|
                0 <= lower < digit ==> !names_back(line@, end as int, lower),
            None => forall|digit: int| !names_back(line@, end as int, digit),
        },
{
    let mut digit: usize = 0;
    while digit <= 9
        invariant
            1 <= end <= line@.len(),
            digit <= 10,
            forall|lower: int| 0 <= lower < digit ==> !names_back(line@, end as int, lower),
        decreases 10 - digit,
    {
        let word = letters(digit);
        if line[end - 1] as usize == 0x30 + digit || (word.len() <= end && stands(
            line,
            end - word.len(),
            word.as_slice(),
        )) {
            return Some(digit);
        }
        digit = digit + 1;
    }
    None
}

/// The first digit that the line names, by word or by itself; `None` where
/// it names none.
pub fn match_first_digit(line: &[u8]) -> (r: Option<usize>)
    ensures
        match r {
            Some(digit) => exists|at: int|
                #![trigger names(line@, at, digit as int)]
                names(line@, at, digit as int) && (forall|lower: int|
                    0 <= lower < digit ==> !names(line@, at, lower)) && forall|before: int|
                    0 <= before < at ==> !names_any(line@, before),
            None => forall|at: int| 0 <= at < line@.len() ==> !names_any(line@, at),
        },
{
    let mut at: usize = 0;
    while at < line.len()
        invariant
            at <= line@.len(),
            forall|before: int| 0 <= before < at ==> !names_any(line@, before),
        decreases line@.len() - at,
    {
        match match_digit(line, at) {
            Some(digit) => {
                proof {
                    assert(names(line@, at as int, digit as int));
                }
                return Some(digit);
            },
            None => {},
        }
        at = at + 1;
    }
    None
}

/// The last digit that the line names, by word or by itself: the one whose
/// name ends last; `None` where it names none.
pub fn match_last_digit(line: &[u8]) -> (r: Option<usize>)
    ensures
        match r {
            Some(digit) => exists|end: int|
                #![trigger names_back(line@, end, digit as int)]
                names_back(line@, end, digit as int) && (forall|lower: int|
                    0 <= lower < digit ==> !names_back(line@, end, lower)) && forall|
                    after: int,
                    other: int,
                | end < after <= line@.len() ==> !names_back(line@, after, other),
            None => forall|end: int, digit: int| !names_back(line@, end, digit),
        },
{
    let mut end: usize = line.len();
    while end > 0
        invariant
            end <= line@.len(),
            forall|after: int, other: int|
                end < after <= line@.len() ==> !names_back(line@, after, other),
        decreases end,
    {
        match match_digit_back(line, end) {
            Some(digit) => {
                proof {
                    assert(names_back(line@, end as int, digit as int));
                }
                return Some(digit);
            },
            None => {},
        }
        end = end - 1;
    }
    None
}

/// The value of a line by its digits alone: ten times the first digit and
/// the last; `None` where the line holds no digit.
pub fn plain_value(line: &[u8]) -> (r: Option<usize>)
    ensures
        match r {
            Some(value) => exists|first: int, last: int|
                0 <= first <= last < line@.len() && crate::text::is_digit(#[trigger] line@[first])
                    && crate::text::is_digit(#[trigger] line@[last]) && (forall|k: int|
                    0 <= k < first || last < k < line@.len() ==> !crate::text::is_digit(
                        #[trigger] line@[k],
                    )) && value == (line@[first] - 0x30) * 10 + (line@[last] - 0x30),
            None => forall|k: int| 0 <= k < line@.len() ==> !crate::text::is_digit(#[trigger] line@[k]),
        },
{
    let mut first: usize = 0;
    while first < line.len() && !(0x30 <= line[first] && line[first] <= 0x39)
        invariant
            first <= line@.len(),
            forall|k: int| 0 <= k < first ==> !crate::text::is_digit(#[trigger] line@[k]),
        decreases line@.len() - first,
    {
        first = first + 1;
    }
    if first >= line.len() {
        return None;
    }
    let mut last: usize = line.len() - 1;
    while !(0x30 <= line[last] && line[last] <= 0x39)
        invariant
            first <= last < line@.len(),
            crate::text::is_digit(line@[first as int]),
            forall|k: int| last < k < line@.len() ==> !crate::text::is_digit(#[trigger] line@[k]),
        decreases last,
    {
        last = last - 1;
    }
    Some((line[first] - 0x30) as usize * 10 + (line[last] - 0x30) as usize)
}

/// `digit` is the first digit that the line names, or, where `back` holds,
/// the one whose name ends last: the lowest that is named there.
pub open spec fn named(line: Seq<u8>, back: bool, digit: int) -> bool {
    if back {
        exists|end: int|
            #![trigger names_back(line, end, digit)]
            names_back(line, end, digit) && (forall|lower: int|
                0 <= lower < digit ==> !names_back(line, end, lower)) && forall|
                after: int,
                other: int,
            | end < after <= line.len() ==> !names_back(line, after, other)
    } else {
        exists|at: int|
            #![trigger names(line, at, digit)]
            names(line, at, digit) && (forall|lower: int|
                0 <= lower < digit ==> !names(line, at, lower)) && forall|before: int|
                0 <= before < at ==> !names_any(line, before)
    }
}

/// `value` is what a line counts for: ten times its first digit and its
/// last, where only the digits themselves count, or, where `spelled` holds,
/// their names too.
pub open spec fn counts_for(line: Seq<u8>, spelled: bool, value: nat) -> bool {
    if spelled {
        exists|first: int, last: int|
            #![trigger named(line, false, first), named(line, true, last)]
            0 <= first && 0 <= last && named(line, false, first) && named(line, true, last)
                && value == first * 10 + last
    } else {
        exists|first: int, last: int|
            0 <= first <= last < line.len() && crate::text::is_digit(#[trigger] line[first])
                && crate::text::is_digit(#[trigger] line[last]) && (forall|k: int|
                0 <= k < first || last < k < line.len() ==> !crate::text::is_digit(
                    #[trigger] line[k],
                )) && value == (line[first] - 0x30) * 10 + (line[last] - 0x30)
    }
}

/// What a line may count for.
pub open spec fn counting(spelled: bool) -> spec_fn(Seq<u8>, nat) -> bool {
    |line: Seq<u8>, value: nat| counts_for(line, spelled, value)
}

/// The sum of what the lines of the text count for. `None` where a line
/// holds no digit, or where the sum is no number of the machine.
fn solve(input: &str, spelled: bool) -> (r: Option<usize>)
    ensures
        match r {
            Some(total) => sums_to(lines(input.spec_bytes()), counting(spelled), total as nat),
            None => valueless(lines(input.spec_bytes()), counting(spelled)) || overflows(
                lines(input.spec_bytes()),
                counting(spelled),
                usize::MAX as nat,
            ),
        },
{
    let rows = split_lines(input.as_bytes());
    let ghost text = lines(input.spec_bytes());
    let ghost relation = counting(spelled);
    let mut total: usize = 0;
    let ghost mut values: Seq<nat> = Seq::empty();
    let mut i: usize = 0;
    while i < rows.len()
        invariant
            i <= rows@.len(),
            text == rows_of(rows@),
            text == lines(input.spec_bytes()),
            relation == counting(spelled),
            values.len() == i,
            valued(text, relation, values),
            total == added(values),
        decreases rows@.len() - i,
    {
        let row = rows[i].as_slice();
        proof {
            assert(text[i as int] == row@);
        }
        let value = if spelled {
            let first = match match_first_digit(row) {
                Some(first) => first,
                None => {
                    proof {
                        assert forall|value: nat| !#[trigger] allows(relation, text[i as int], value) by {
                            if counts_for(row@, true, value) {
                                let (first, last) = choose|first: int, last: int|
                                    #![trigger named(row@, false, first), named(row@, true, last)]
                                    0 <= first && 0 <= last && named(row@, false, first) && named(
                                        row@,
                                        true,
                                        last,
                                    ) && value == first * 10 + last;
                                let at = choose|at: int|
                                    #![trigger names(row@, at, first)]
                                    names(row@, at, first);
                                assert(names_any(row@, at));
                            }
                        }
                    }
                    proof {
                        assert(barren(relation, text[i as int]));
                    }
                    return None;
                },
            };
            let last = match match_last_digit(row) {
                Some(last) => last,
                None => {
                    proof {
                        assert forall|value: nat| !#[trigger] allows(relation, text[i as int], value) by {
                            if counts_for(row@, true, value) {
                                let (first, last) = choose|first: int, last: int|
                                    #![trigger named(row@, false, first), named(row@, true, last)]
                                    0 <= first && 0 <= last && named(row@, false, first) && named(
                                        row@,
                                        true,
                                        last,
                                    ) && value == first * 10 + last;
                                let end = choose|end: int|
                                    #![trigger names_back(row@, end, last)]
                                    names_back(row@, end, last);
                                assert(names_back(row@, end, last));
                            }
                        }
                    }
                    proof {
                        assert(barren(relation, text[i as int]));
                    }
                    return None;
                },
            };
            proof {
                assert(named(row@, false, first as int));
                assert(named(row@, true, last as int));
            }
            first * 10 + last
        } else {
            match plain_value(row) {
                Some(value) => value,
                None => {
                    proof {
                        assert forall|value: nat| !#[trigger] allows(relation, text[i as int], value) by {
                            if counts_for(row@, false, value) {
                                let (first, last) = choose|first: int, last: int|
                                    0 <= first <= last < row@.len() && crate::text::is_digit(
                                        #[trigger] row@[first],
                                    ) && crate::text::is_digit(#[trigger] row@[last]);
                                assert(crate::text::is_digit(row@[first]));
                            }
                        }
                        assert(barren(relation, text[i as int]));
                    }
                    return None;
                },
            }
        };
        proof {
            lemma_valued_push(text, relation, values, value as nat);
            values = values.push(value as nat);
        }
        total = match total.checked_add(value) {
            Some(total) => total,
            None => {
                return None;
            },
        };
        i = i + 1;
    }
    Some(total)
}

/// The sum, over the lines of the text, of ten times the first digit of
/// the line and its last. `None` where a line holds no digit, or where the
/// sum is no number of the machine.
pub fn solve_part1(input: &str) -> (r: Option<usize>)
    ensures
        match r {
            Some(total) => sums_to(lines(input.spec_bytes()), counting(false), total as nat),
            None => valueless(lines(input.spec_bytes()), counting(false)) || overflows(
                lines(input.spec_bytes()),
                counting(false),
                usize::MAX as nat,
            ),
        },
{
    solve(input, false)
}

/// The same sum where the names of the digits count like the digits.
pub fn solve_part2(input: &str) -> (r: Option<usize>)
    ensures
        match r {
            Some(total) => sums_to(lines(input.spec_bytes()), counting(true), total as nat),
            None => valueless(lines(input.spec_bytes()), counting(true)) || overflows(
                lines(input.spec_bytes()),
                counting(true),
                usize::MAX as nat,
            ),
        },
{
    solve(input, true)
}

} // verus!
