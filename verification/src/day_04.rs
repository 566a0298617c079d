//! Scratchcards and the numbers that win.

use crate::text::{
    lemma_sum_prefix, lemma_sum_step, lines, numbers_in, read_numbers, rows_of, split_lines,
    sum_of,
};
use vstd::prelude::*;
use vstd::slice::*;
use vstd::string::*;

verus! {

/// Where the byte first stands in the text; the length of the text where it
/// does not.
pub open spec fn first(text: Seq<u8>, byte: u8) -> nat
    decreases text.len(),
{
    if text.len() == 0 || text[0] == byte {
        0
    } else {
        1 + first(text.skip(1), byte)
    }
}

/// How many of the first `upto` numbers that one has are among the winning
/// ones.
pub open spec fn hits(winning: Seq<nat>, have: Seq<nat>, upto: int) -> nat
    decreases upto,
{
    if upto <= 0 {
        0
    } else {
        hits(winning, have, upto - 1) + if winning.contains(have[upto - 1]) {
            1nat
        } else {
            0nat
        }
    }
}

/// One of the numbers is none of the machine.
pub open spec fn too_large(numbers: Seq<nat>) -> bool {
    exists|k: int| 0 <= k < numbers.len() && #[trigger] numbers[k] > usize::MAX
}

/// The winning numbers of a card: those between the first colon and the
/// first bar after it.
pub open spec fn winning_of(card: Seq<u8>) -> Seq<nat> {
    let colon = first(card, 0x3a) as int;
    let rest = card.skip(colon);
    numbers_in(rest.take(first(rest, 0x7c) as int))
}

/// The numbers that one has on a card: those after the first bar that
/// follows the first colon.
pub open spec fn have_of(card: Seq<u8>) -> Seq<nat> {
    let colon = first(card, 0x3a) as int;
    let rest = card.skip(colon);
    numbers_in(rest.skip(first(rest, 0x7c) as int))
}

proof fn lemma_first(text: Seq<u8>, byte: u8, at: int)
    requires
        0 <= at <= text.len(),
        forall|k: int| 0 <= k < at ==> #[trigger] text[k] != byte,
        at < text.len() ==> text[at] == byte,
    ensures
        first(text, byte) == at,
    decreases at,
{
    if at > 0 {
        let rest = text.skip(1);
        assert forall|k: int| 0 <= k < at - 1 implies #[trigger] rest[k] != byte by {
            assert(rest[k] == text[k + 1]);
        }
        lemma_first(rest, byte, at - 1);
    }
}

proof fn lemma_hits(winning: Seq<nat>, have: Seq<nat>, upto: int)
    requires
        0 <= upto,
    ensures
        hits(winning, have, upto) <= upto,
    decreases upto,
{
    if upto > 0 {
        lemma_hits(winning, have, upto - 1);
    }
}

/// Where the byte first stands from `from` on.
fn find(bytes: &[u8], from: usize, byte: u8) -> (at: usize)
    requires
        from <= bytes@.len(),
    ensures
        from <= at <= bytes@.len(),
        at - from == first(bytes@.skip(from as int), byte),
{
    let mut at = from;
    let ghost rest = bytes@.skip(from as int);
    while at < bytes.len() && bytes[at] != byte
        invariant
            from <= at <= bytes@.len(),
            rest == bytes@.skip(from as int),
            forall|k: int| 0 <= k < at - from ==> #[trigger] rest[k] != byte,
        decreases bytes@.len() - at,
    {
        proof {
            assert(rest[at - from] == bytes@[at as int]);
        }
        at = at + 1;
    }
    proof {
        if at < bytes.len() {
            assert(rest[at - from] == bytes@[at as int]);
        }
        lemma_first(rest, byte, at - from);
    }
    at
}

/// How many of the numbers that one has on the card are winning numbers.
/// `None` where a number of the card is no number of the machine.
pub fn match_count(card: &str) -> (r: Option<usize>)
    ensures
        match r {
            Some(count) => count == hits(
                winning_of(card.spec_bytes()),
                have_of(card.spec_bytes()),
                have_of(card.spec_bytes()).len() as int,
            ),
            None => too_large(winning_of(card.spec_bytes())) || too_large(
                have_of(card.spec_bytes()),
            ),
        },
{
    count_matches(card.as_bytes())
}

/// How many of the numbers that a card has are winning numbers.
pub open spec fn matches_of(card: Seq<u8>) -> nat {
    hits(winning_of(card), have_of(card), have_of(card).len() as int)
}

/// One of the numbers of the card is no number of the machine.
pub open spec fn unread(card: Seq<u8>) -> bool {
    too_large(winning_of(card)) || too_large(have_of(card))
}

/// How many of the numbers that the card of these bytes has are winning
/// numbers.
fn count_matches(bytes: &[u8]) -> (r: Option<usize>)
    ensures
        match r {
            Some(count) => count == matches_of(bytes@),
            None => unread(bytes@),
        },
{
    let colon = find(bytes, 0, 0x3a);
    let bar = find(bytes, colon, 0x7c);
    proof {
        assert(bytes@.skip(0) =~= bytes@);
        let rest = bytes@.skip(colon as int);
        assert(rest.take(bar - colon) =~= bytes@.subrange(colon as int, bar as int));
        assert(rest.skip(bar - colon) =~= bytes@.subrange(bar as int, bytes@.len() as int));
    }
    let ghost won = winning_of(bytes@);
    let ghost had = have_of(bytes@);
    proof {
        assert(won == numbers_in(bytes@.subrange(colon as int, bar as int)));
        assert(had == numbers_in(bytes@.subrange(bar as int, bytes@.len() as int)));
    }
    let winning = match read_numbers(bytes, colon, bar) {
        Some(winning) => winning,
        None => {
            proof {
                assert(too_large(won));
            }
            return None;
        },
    };
    let have = match read_numbers(bytes, bar, bytes.len()) {
        Some(have) => have,
        None => {
            proof {
                assert(too_large(had));
            }
            return None;
        },
    };
    let mut count: usize = 0;
    let mut i: usize = 0;
    while i < have.len()
        invariant
            won == winning@.map_values(|n: usize| n as nat),
            had == have@.map_values(|n: usize| n as nat),
            i <= have@.len(),
            count <= i,
            count == hits(won, had, i as int),
        decreases have@.len() - i,
    {
        let mut found = false;
        let mut k: usize = 0;
        while k < winning.len() && !found
            invariant
                won == winning@.map_values(|n: usize| n as nat),
                i < have@.len(),
                k <= winning@.len(),
                found ==> won.contains(have@[i as int] as nat),
                !found ==> forall|j: int| 0 <= j < k ==> won[j] != have@[i as int],
            decreases winning@.len() - k, !found as int,
        {
            if winning[k] == have[i] {
                found = true;
                proof {
                    assert(won[k as int] == have@[i as int]);
                }
            } else {
                k = k + 1;
            }
        }
        proof {
            lemma_hits(won, had, i as int);
            assert(had[i as int] == have@[i as int]);
        }
        if found {
            count = count + 1;
        }
        i = i + 1;
    }
    Some(count)
}

/// 2 to the power of `k`.
pub open spec fn doubled(k: nat) -> nat
    decreases k,
{
    if k == 0 {
        1
    } else {
        2 * doubled((k - 1) as nat)
    }
}

/// The points of a card with `matches` matches: 1 for the first and twice
/// as many for each more.
pub open spec fn points(matches: nat) -> nat {
    if matches == 0 {
        0
    } else {
        doubled((matches - 1) as nat)
    }
}

/// The points of a card with `matches` matches; `None` where they are no
/// number of the machine.
pub fn points_for(matches: usize) -> (r: Option<usize>)
    ensures
        match r {
            Some(value) => value == points(matches as nat),
            None => points(matches as nat) > usize::MAX,
        },
{
    if matches == 0 {
        return Some(0);
    }
    let mut value: usize = 1;
    let mut k: usize = 1;
    while k < matches
        invariant
            1 <= k <= matches,
            value == doubled((k - 1) as nat),
        decreases matches - k,
    {
        value = match value.checked_mul(2) {
            Some(value) => value,
            None => {
                proof {
                    lemma_doubled_grows(k as nat, (matches - 1) as nat);
                }
                return None;
            },
        };
        k = k + 1;
    }
    Some(value)
}

proof fn lemma_doubled_grows(a: nat, b: nat)
    requires
        a <= b,
    ensures
        doubled(a) <= doubled(b),
    decreases b,
{
    if a < b {
        lemma_doubled_grows(a, (b - 1) as nat);
    }
}

/// What the lines of cards are worth in points.
pub open spec fn answer1(text: Seq<Seq<u8>>) -> Option<nat> {
    sum_of(text, |line: Seq<u8>| Some(points(matches_of(line))), usize::MAX as nat)
}

/// The points of the cards of the text. `None` where a number of a card or
/// the points are no number of the machine.
pub fn solve_part1(input: &str) -> (r: Option<usize>)
    ensures
        r matches Some(total) ==> answer1(lines(input.spec_bytes())) == Some(total as nat),
        r is None ==> answer1(lines(input.spec_bytes())) is None || exists|i: int|
            0 <= i < lines(input.spec_bytes()).len() && unread(
                #[trigger] lines(input.spec_bytes())[i],
            ),
{
    let rows = split_lines(input.as_bytes());
    let ghost text = lines(input.spec_bytes());
    let ghost value = |line: Seq<u8>| Some(points(matches_of(line)));
    let mut total: usize = 0;
    let mut i: usize = 0;
    proof {
        assert(text.take(0) =~= Seq::<Seq<u8>>::empty());
    }
    while i < rows.len()
        invariant
            i <= rows@.len(),
            text == rows_of(rows@),
            text == lines(input.spec_bytes()),
            value == |line: Seq<u8>| Some(points(matches_of(line))),
            sum_of(text.take(i as int), value, usize::MAX as nat) == Some(total as nat),
        decreases rows@.len() - i,
    {
        proof {
            lemma_sum_step(text, value, usize::MAX as nat, i as int);
            lemma_sum_prefix(text, value, usize::MAX as nat, i + 1);
        }
        let wins = match count_matches(rows[i].as_slice()) {
            Some(wins) => wins,
            None => {
                proof {
                    assert(unread(text[i as int]));
                }
                return None;
            },
        };
        let more = match points_for(wins) {
            Some(more) => more,
            None => {
                return None;
            },
        };
        total = match total.checked_add(more) {
            Some(total) => total,
            None => {
                return None;
            },
        };
        i = i + 1;
    }
    proof {
        assert(text.take(i as int) =~= text);
    }
    Some(total)
}

/// How many copies of the card `card` there are when the first `upto` cards
/// have been scratched: each card is there once, and each copy of a card
/// with `m` wins wins one copy more of each of the next `m` cards.
pub open spec fn copies(text: Seq<Seq<u8>>, upto: int, card: int) -> nat
    decreases upto,
{
    if upto <= 0 {
        0
    } else {
        let before = copies(text, upto - 1, card);
        let last = upto - 1;
        if card == last {
            before + 1
        } else if last < card <= last + matches_of(text[last]) {
            before + copies(text, upto - 1, last) + 1
        } else {
            before
        }
    }
}

/// How many cards there are in all when the first `upto` cards have been
/// scratched, those that were won of later cards too.
pub open spec fn cards(text: Seq<Seq<u8>>, upto: int) -> nat
    decreases upto,
{
    if upto <= 0 {
        0
    } else {
        let last = upto - 1;
        cards(text, last) + 1 + matches_of(text[last]) * (copies(text, last, last) + 1)
    }
}

/// A number of a card, or a number of cards or of copies of a card, is no
/// number of the machine.
pub open spec fn overdealt(text: Seq<Seq<u8>>) -> bool {
    exists|i: int|
        0 <= i < text.len() && (unread(#[trigger] text[i]) || i + matches_of(text[i]) > usize::MAX
            || cards(text, i + 1) > usize::MAX || exists|card: int| #[trigger]
            copies(text, i + 1, card) > usize::MAX)
}

/// How many cards there are in the end, the cards of the text and all
/// copies that are won. `None` where a number of a card or a number of cards
/// is no number of the machine.
pub fn solve_part2(input: &str) -> (r: Option<usize>)
    ensures
        match r {
            Some(total) => total == cards(
                lines(input.spec_bytes()),
                lines(input.spec_bytes()).len() as int,
            ),
            None => overdealt(lines(input.spec_bytes())),
        },
{
    let rows = split_lines(input.as_bytes());
    let ghost text = lines(input.spec_bytes());
    let mut won: Vec<usize> = Vec::new();
    let mut total: usize = 0;
    let mut i: usize = 0;
    while i < rows.len()
        invariant
            i <= rows@.len(),
            i <= won@.len(),
            text == rows_of(rows@),
            text == lines(input.spec_bytes()),
            total == cards(text, i as int),
            forall|card: int|
                i <= card < won@.len() ==> #[trigger] won@[card] == copies(text, i as int, card),
            forall|card: int| card >= won@.len() && card >= i ==> copies(text, i as int, card) == 0,
        decreases rows@.len() - i,
    {
        let ghost next = i + 1;
        let ghost here = text[i as int];
        let wins = match count_matches(rows[i].as_slice()) {
            Some(wins) => wins,
            None => {
                proof {
                    assert(unread(text[i as int]));
                }
                return None;
            },
        };
        let reach = match i.checked_add(wins) {
            Some(reach) => reach,
            None => {
                proof {
                    assert(i + matches_of(text[i as int]) > usize::MAX);
                }
                return None;
            },
        };
        while won.len() <= reach
            invariant
                i <= rows@.len(),
                i <= won@.len(),
                forall|card: int|
                    i <= card < won@.len() ==> #[trigger] won@[card] == copies(
                        text,
                        i as int,
                        card,
                    ),
                forall|card: int|
                    card >= won@.len() && card >= i ==> copies(text, i as int, card) == 0,
            decreases reach + 1 - won@.len(),
        {
            won.push(0);
        }
        proof {
            assert(won@[i as int] == copies(text, i as int, i as int));
            assert(copies(text, next, i as int) == copies(text, i as int, i as int) + 1);
            assert(cards(text, next) == cards(text, i as int) + 1 + matches_of(here) * (copies(
                text,
                i as int,
                i as int,
            ) + 1));
        }
        let count = match won[i].checked_add(1) {
            Some(count) => count,
            None => {
                proof {
                    assert(copies(text, next, i as int) > usize::MAX);
                }
                return None;
            },
        };
        let gain = match wins.checked_mul(count) {
            Some(gain) => gain,
            None => {
                proof {
                    assert(cards(text, next) > usize::MAX);
                }
                return None;
            },
        };
        let more = match gain.checked_add(1) {
            Some(more) => more,
            None => {
                proof {
                    assert(cards(text, next) > usize::MAX);
                }
                return None;
            },
        };
        total = match total.checked_add(more) {
            Some(total) => total,
            None => {
                proof {
                    assert(cards(text, next) > usize::MAX);
                }
                return None;
            },
        };
        let ghost before = won@;
        let mut step: usize = 1;
        let room = won.len();
        while step <= wins
            invariant
                1 <= step <= wins + 1,
                wins < room,
                i < rows@.len(),
                i + wins == reach,
                reach < won@.len(),
                won@.len() == before.len(),
                text == lines(input.spec_bytes()),
                text == rows_of(rows@),
                next == i + 1,
                wins == matches_of(text[i as int]),
                count == before[i as int] + 1,
                before[i as int] == copies(text, i as int, i as int),
                forall|card: int|
                    i <= card < before.len() ==> #[trigger] before[card] == copies(
                        text,
                        i as int,
                        card,
                    ),
                forall|card: int|
                    0 <= card < won@.len() ==> #[trigger] won@[card] == if i < card < i + step {
                        before[card] + count
                    } else {
                        before[card] as int
                    },
            decreases wins + 1 - step,
        {
            let sum = match won[i + step].checked_add(count) {
                Some(sum) => sum,
                None => {
                    proof {
                        let card = i + step;
                        assert(before[card] == copies(text, i as int, card));
                        assert(copies(text, next, card) == copies(text, i as int, card) + copies(
                            text,
                            i as int,
                            i as int,
                        ) + 1);
                        assert(copies(text, next, card) > usize::MAX);
                    }
                    return None;
                },
            };
            won.set(i + step, sum);
            step = step + 1;
        }
        proof {
            assert forall|card: int| next <= card < won@.len() implies #[trigger] won@[card]
                == copies(text, next, card) by {
                assert(before[card] == copies(text, i as int, card));
                assert(before[i as int] == copies(text, i as int, i as int));
            }
            assert forall|card: int| card >= won@.len() && card >= next implies #[trigger] copies(
                text,
                next,
                card,
            ) == 0 by {
                assert(copies(text, i as int, card) == 0);
            }
            assert(before[i as int] == copies(text, i as int, i as int));
            assert(wins * count == matches_of(text[i as int]) * (copies(
                text,
                i as int,
                i as int,
            ) + 1));
        }
        i = i + 1;
    }
    Some(total)
}

} // verus!
