//! Hands of camel cards.

use crate::text::{
    decimal, lemma_until, lemma_until_least, lines, read_number, rows_of, run, split_lines, until,
};
use vstd::multiset::group_multiset_axioms;
use vstd::prelude::*;
use vstd::seq_lib::{to_multiset_build, to_multiset_remove};
use vstd::slice::*;
use vstd::string::*;

verus! {

broadcast use group_multiset_axioms;

/// A card, from the weakest to the strongest. The joker stands for whatever
/// card makes a hand strongest, and is itself the weakest.
#[derive(Clone, Copy, Debug, PartialEq, Eq, PartialOrd, Ord, Hash, Structural)]
pub enum Card {
    Joker,
    Two,
    Three,
    Four,
    Five,
    Six,
    Seven,
    Eight,
    Nine,
    Ten,
    Jack,
    Queen,
    King,
    Ace,
}

impl Card {
    /// The card that a character stands for, `J` being the jack; `None` for
    /// a character that stands for no card.
    pub open spec fn of(value: char) -> Option<Card> {
        if value == '2' {
            Some(Card::Two)
        } else if value == '3' {
            Some(Card::Three)
        } else if value == '4' {
            Some(Card::Four)
        } else if value == '5' {
            Some(Card::Five)
        } else if value == '6' {
            Some(Card::Six)
        } else if value == '7' {
            Some(Card::Seven)
        } else if value == '8' {
            Some(Card::Eight)
        } else if value == '9' {
            Some(Card::Nine)
        } else if value == 'T' {
            Some(Card::Ten)
        } else if value == 'J' {
            Some(Card::Jack)
        } else if value == 'Q' {
            Some(Card::Queen)
        } else if value == 'K' {
            Some(Card::King)
        } else if value == 'A' {
            Some(Card::Ace)
        } else {
            None
        }
    }

    /// The card that a character stands for, `J` being the jack.
    pub fn for_part_1(value: char) -> (r: Self)
        requires
            Card::of(value) is Some,
        ensures
            Some(r) == Card::of(value),
    {
        if value == '2' {
            Card::Two
        } else if value == '3' {
            Card::Three
        } else if value == '4' {
            Card::Four
        } else if value == '5' {
            Card::Five
        } else if value == '6' {
            Card::Six
        } else if value == '7' {
            Card::Seven
        } else if value == '8' {
            Card::Eight
        } else if value == '9' {
            Card::Nine
        } else if value == 'T' {
            Card::Ten
        } else if value == 'J' {
            Card::Jack
        } else if value == 'Q' {
            Card::Queen
        } else if value == 'K' {
            Card::King
        } else {
            Card::Ace
        }
    }

    /// The card that a character stands for, `J` being the joker.
    pub fn for_part_2(value: char) -> (r: Self)
        requires
            Card::of(value) is Some,
        ensures
            r == if value == 'J' {
                Card::Joker
            } else {
                Card::of(value)->0
            },
    {
        if value == 'J' {
            Card::Joker
        } else {
            Card::for_part_1(value)
        }
    }

    /// The place of the card among the fourteen, from the weakest.
    pub open spec fn rank(self) -> int {
        match self {
            Card::Joker => 0,
            Card::Two => 1,
            Card::Three => 2,
            Card::Four => 3,
            Card::Five => 4,
            Card::Six => 5,
            Card::Seven => 6,
            Card::Eight => 7,
            Card::Nine => 8,
            Card::Ten => 9,
            Card::Jack => 10,
            Card::Queen => 11,
            Card::King => 12,
            Card::Ace => 13,
        }
    }

    fn index(self) -> (r: usize)
        ensures
            r == self.rank(),
    {
        match self {
            Card::Joker => 0,
            Card::Two => 1,
            Card::Three => 2,
            Card::Four => 3,
            Card::Five => 4,
            Card::Six => 5,
            Card::Seven => 6,
            Card::Eight => 7,
            Card::Nine => 8,
            Card::Ten => 9,
            Card::Jack => 10,
            Card::Queen => 11,
            Card::King => 12,
            Card::Ace => 13,
        }
    }
}

/// The kind of a hand, from the weakest to the strongest.
#[derive(Clone, Copy, Debug, PartialEq, Eq, PartialOrd, Ord, Structural)]
pub enum Category {
    HighCard,
    OnePair,
    TwoPair,
    Trips,
    Boat,
    Quads,
    Quints,
}

/// How many of the first `upto` cards are of rank `rank`.
pub open spec fn copies(cards: Seq<Card>, rank: int, upto: int) -> nat
    decreases upto,
{
    if upto <= 0 {
        0
    } else {
        copies(cards, rank, upto - 1) + if cards[upto - 1].rank() == rank {
            1nat
        } else {
            0nat
        }
    }
}

/// How many of the ranks from 1 up to, not including, `upto` occur among the
/// cards just `times` times, where `times` is not 0, or at all, where it is.
pub open spec fn kinds(cards: Seq<Card>, times: nat, upto: int) -> nat
    decreases upto,
{
    if upto <= 1 {
        0
    } else {
        let found = copies(cards, upto - 1, cards.len() as int);
        kinds(cards, times, upto - 1) + if found > 0 && (times == 0 || found == times) {
            1nat
        } else {
            0nat
        }
    }
}

/// The kind of a hand in which `kinds` cards other than jokers occur, `single`
/// of them once. The jokers side with the card that occurs most.
pub open spec fn category_of(kinds: nat, single: nat) -> Category {
    if kinds <= 1 {
        Category::Quints
    } else if kinds == 2 {
        if single >= 1 {
            Category::Quads
        } else {
            Category::Boat
        }
    } else if kinds == 3 {
        if single >= 2 {
            Category::Trips
        } else {
            Category::TwoPair
        }
    } else if kinds == 4 {
        Category::OnePair
    } else {
        Category::HighCard
    }
}

/// No rank occurs more often than there are cards.
pub proof fn lemma_copies(cards: Seq<Card>, rank: int, upto: int)
    requires
        0 <= upto,
    ensures
        copies(cards, rank, upto) <= upto,
    decreases upto,
{
    if upto > 0 {
        lemma_copies(cards, rank, upto - 1);
    }
}

/// No more kinds occur than there are ranks.
pub proof fn lemma_kinds(cards: Seq<Card>, times: nat, upto: int)
    requires
        1 <= upto,
    ensures
        kinds(cards, times, upto) <= upto - 1,
    decreases upto,
{
    if upto > 1 {
        lemma_kinds(cards, times, upto - 1);
    }
}

impl Category {
    /// The kind of a hand of up to five cards, with the jokers standing for
    /// whatever makes it strongest.
    pub fn for_cards(cards: &[Card]) -> (r: Category)
        ensures
            r == category_of(kinds(cards@, 0, 14), kinds(cards@, 1, 14)),
    {
        let mut found: usize = 0;
        let mut single: usize = 0;
        let mut rank: usize = 1;
        while rank < 14
            invariant
                1 <= rank <= 14,
                found == kinds(cards@, 0, rank as int),
                single == kinds(cards@, 1, rank as int),
            decreases 14 - rank,
        {
            proof {
                lemma_kinds(cards@, 0, rank as int);
                lemma_kinds(cards@, 1, rank as int);
            }
            let times = count(cards, rank);
            if times > 0 {
                found = found + 1;
            }
            if times == 1 {
                single = single + 1;
            }
            rank = rank + 1;
        }
        if found <= 1 {
            Category::Quints
        } else if found == 2 {
            if single >= 1 {
                Category::Quads
            } else {
                Category::Boat
            }
        } else if found == 3 {
            if single >= 2 {
                Category::Trips
            } else {
                Category::TwoPair
            }
        } else if found == 4 {
            Category::OnePair
        } else {
            Category::HighCard
        }
    }
}

/// How many of the cards are of rank `rank`.
fn count(cards: &[Card], rank: usize) -> (r: usize)
    ensures
        r == copies(cards@, rank as int, cards@.len() as int),
{
    let mut r: usize = 0;
    let mut i: usize = 0;
    while i < cards.len()
        invariant
            i <= cards@.len(),
            r == copies(cards@, rank as int, i as int),
        decreases cards@.len() - i,
    {
        proof {
            lemma_copies(cards@, rank as int, i as int);
        }
        if cards[i].index() == rank {
            r = r + 1;
        }
        i = i + 1;
    }
    r
}

/// A hand: its cards, its kind, and the bid made on it.
pub struct Hand {
    pub category: Category,
    pub cards: Vec<Card>,
    pub bid: usize,
}

impl Hand {
    /// The hand of these cards with this bid.
    pub fn new(cards: Vec<Card>, bid: usize) -> (r: Self)
        ensures
            r.cards == cards,
            r.bid == bid,
            r.category == category_of(kinds(cards@, 0, 14), kinds(cards@, 1, 14)),
    {
        let category = Category::for_cards(cards.as_slice());
        Hand { category, cards, bid }
    }
}

/// The card that a byte stands for, `J` being the jack.
pub open spec fn card_of(byte: u8) -> Option<Card> {
    if 0x32 <= byte <= 0x39 || byte == 0x54 || byte == 0x4a || byte == 0x51 || byte == 0x4b || byte
        == 0x41 {
        Card::of(byte as char)
    } else {
        None
    }
}

/// The ranks of the cards of a hand.
pub open spec fn ranks(cards: Seq<Card>) -> Seq<int> {
    cards.map_values(|card: Card| card.rank())
}

/// The first row of numbers comes before the second in the order of the
/// dictionary.
pub open spec fn before(a: Seq<int>, b: Seq<int>) -> bool
    decreases a.len(),
{
    if a.len() == 0 {
        b.len() > 0
    } else if b.len() == 0 {
        false
    } else if a[0] != b[0] {
        a[0] < b[0]
    } else {
        before(a.skip(1), b.skip(1))
    }
}

/// The number of a kind of hand, from the weakest.
pub open spec fn strength(category: Category) -> int {
    match category {
        Category::HighCard => 0,
        Category::OnePair => 1,
        Category::TwoPair => 2,
        Category::Trips => 3,
        Category::Boat => 4,
        Category::Quads => 5,
        Category::Quints => 6,
    }
}

/// The first hand is weaker than the second: of a weaker kind, or of the
/// same kind with cards that come before in the order of the dictionary.
pub open spec fn weaker(a: Hand, b: Hand) -> bool {
    strength(a.category) < strength(b.category) || (a.category == b.category && before(
        ranks(a.cards@),
        ranks(b.cards@),
    ))
}

/// No hand is weaker than one before it.
pub open spec fn ranked(hands: Seq<Hand>) -> bool {
    forall|i: int, j: int| 0 <= i < j < hands.len() ==> !weaker(#[trigger] hands[j], #[trigger] hands[i])
}

/// The winnings of the first `upto` hands: for each its bid times its place,
/// counted from 1.
pub open spec fn winnings(hands: Seq<Hand>, upto: int) -> int
    decreases upto,
{
    if upto <= 0 {
        0
    } else {
        winnings(hands, upto - 1) + upto * hands[upto - 1].bid
    }
}

fn level(category: Category) -> (r: u8)
    ensures
        r == strength(category),
{
    match category {
        Category::HighCard => 0,
        Category::OnePair => 1,
        Category::TwoPair => 2,
        Category::Trips => 3,
        Category::Boat => 4,
        Category::Quads => 5,
        Category::Quints => 6,
    }
}

proof fn lemma_winnings(hands: Seq<Hand>, at: int, upto: int)
    requires
        0 <= at <= upto,
    ensures
        0 <= winnings(hands, at) <= winnings(hands, upto),
    decreases upto,
{
    if at < upto {
        lemma_winnings(hands, at, upto - 1);
        assert(upto * hands[upto - 1].bid >= 0) by (nonlinear_arith)
            requires
                upto >= 0,
                hands[upto - 1].bid >= 0,
        ;
    } else if at > 0 {
        lemma_winnings(hands, at - 1, at - 1);
        assert(at * hands[at - 1].bid >= 0) by (nonlinear_arith)
            requires
                at >= 0,
                hands[at - 1].bid >= 0,
        ;
    }
}

impl Hand {
    /// Whether this hand is weaker than the other.
    pub fn loses_to(&self, other: &Hand) -> (r: bool)
        ensures
            r == weaker(*self, *other),
    {
        let mine = level(self.category);
        let theirs = level(other.category);
        if mine != theirs {
            return mine < theirs;
        }
        let mut i: usize = 0;
        let ghost a = ranks(self.cards@);
        let ghost b = ranks(other.cards@);
        proof {
            assert(a.skip(0) =~= a);
            assert(b.skip(0) =~= b);
        }
        while i < self.cards.len() && i < other.cards.len()
            invariant
                self.category == other.category,
                a == ranks(self.cards@),
                b == ranks(other.cards@),
                i <= a.len(),
                i <= b.len(),
                before(a, b) == before(a.skip(i as int), b.skip(i as int)),
            decreases a.len() - i,
        {
            let x = self.cards[i].index();
            let y = other.cards[i].index();
            proof {
                assert(a.skip(i as int)[0] == x);
                assert(b.skip(i as int)[0] == y);
                assert(a.skip(i as int).skip(1) =~= a.skip(i + 1));
                assert(b.skip(i as int).skip(1) =~= b.skip(i + 1));
            }
            if x != y {
                return x < y;
            }
            i = i + 1;
        }
        i < other.cards.len()
    }

    /// What a line of the list stands for: the cards that its bytes before
    /// the first blank stand for, where `wild` holds with the joker for `J`,
    /// and the bid that the digits behind the blank stand for. `None` where
    /// there is no blank, where a byte before it stands for no card, or
    /// where no digit follows it or the bid is no number of the machine.
    pub open spec fn read_of(text: Seq<u8>, wild: bool) -> Option<(Seq<Card>, nat)> {
        let n = until(text, 0x20) as int;
        let digits = run(text.skip(n + 1)) as int;
        let bid = decimal(text.subrange(n + 1, n + 1 + digits));
        if n >= text.len() || digits == 0 || bid > usize::MAX || exists|k: int|
            0 <= k < n && card_of(#[trigger] text[k]) is None {
            None
        } else {
            Some(
                (
                    Seq::new(
                        n as nat,
                        |k: int|
                            if wild && text[k] == 0x4a {
                                Card::Joker
                            } else {
                                card_of(text[k]).unwrap()
                            },
                    ),
                    bid,
                ),
            )
        }
    }

    /// Reads a hand from a line of the list.
    pub fn read(value: &str, wild: bool) -> (r: Option<Self>)
        ensures
            match r {
                Some(hand) => Hand::read_of(value.spec_bytes(), wild) == Some(
                    (hand.cards@, hand.bid as nat),
                ) && hand.category == category_of(
                    kinds(hand.cards@, 0, 14),
                    kinds(hand.cards@, 1, 14),
                ),
                None => Hand::read_of(value.spec_bytes(), wild) is None,
            },
    {
        Hand::read_bytes(value.as_bytes(), wild)
    }

    /// The hand is the one that the line stands for.
    pub open spec fn dealt(self, line: Seq<u8>, wild: bool) -> bool {
        Hand::read_of(line, wild) == Some((self.cards@, self.bid as nat)) && self.category
            == category_of(kinds(self.cards@, 0, 14), kinds(self.cards@, 1, 14))
    }

    /// Reads a hand from the bytes of a line of the list.
    fn read_bytes(bytes: &[u8], wild: bool) -> (r: Option<Self>)
        ensures
            match r {
                Some(hand) => hand.dealt(bytes@, wild),
                None => Hand::read_of(bytes@, wild) is None,
            },
    {
        let mut cards: Vec<Card> = Vec::new();
        let mut at: usize = 0;
        while at < bytes.len() && bytes[at] != 0x20
            invariant
                at <= bytes@.len(),
                cards@.len() == at,
                forall|k: int| 0 <= k < at ==> #[trigger] bytes@[k] != 0x20,
                forall|k: int|
                    0 <= k < at ==> card_of(#[trigger] bytes@[k]) is Some && (cards@[k] == if wild
                        && bytes@[k] == 0x4a {
                        Card::Joker
                    } else {
                        card_of(bytes@[k])->0
                    }),
            decreases bytes@.len() - at,
        {
            let byte = bytes[at];
            if !(0x32 <= byte && byte <= 0x39 || byte == 0x54 || byte == 0x4a || byte == 0x51
                || byte == 0x4b || byte == 0x41) {
                proof {
                    lemma_until_least(bytes@, 0x20, at + 1);
                    assert(card_of(bytes@[at as int]) is None);
                }
                return None;
            }
            let card = if wild {
                Card::for_part_2(byte as char)
            } else {
                Card::for_part_1(byte as char)
            };
            cards.push(card);
            at = at + 1;
        }
        proof {
            lemma_until(bytes@, 0x20, at as int);
        }
        if at >= bytes.len() {
            return None;
        }
        let (bid, end) = read_number(bytes, at + 1);
        match bid {
            Some(bid) => {
                if end == at + 1 {
                    None
                } else {
                    let hand = Hand::new(cards, bid);
                    proof {
                        assert(hand.cards@ =~= Hand::read_of(bytes@, wild).unwrap().0);
                    }
                    Some(hand)
                }
            },
            None => None,
        }
    }

    /// Reads a hand in which `J` is the jack.
    pub fn for_part_1(value: &str) -> (r: Option<Self>)
        ensures
            match r {
                Some(hand) => Hand::read_of(value.spec_bytes(), false) == Some(
                    (hand.cards@, hand.bid as nat),
                ) && hand.category == category_of(
                    kinds(hand.cards@, 0, 14),
                    kinds(hand.cards@, 1, 14),
                ),
                None => Hand::read_of(value.spec_bytes(), false) is None,
            },
    {
        Hand::read(value, false)
    }

    /// Reads a hand in which `J` is the joker.
    pub fn for_part_2(value: &str) -> (r: Option<Self>)
        ensures
            match r {
                Some(hand) => Hand::read_of(value.spec_bytes(), true) == Some(
                    (hand.cards@, hand.bid as nat),
                ) && hand.category == category_of(
                    kinds(hand.cards@, 0, 14),
                    kinds(hand.cards@, 1, 14),
                ),
                None => Hand::read_of(value.spec_bytes(), true) is None,
            },
    {
        Hand::read(value, true)
    }
}

/// Brings the hands into order, the weakest first; hands of which neither
/// is weaker keep their order.
pub fn sort_hands(hands: Vec<Hand>) -> (sorted: Vec<Hand>)
    ensures
        ranked(sorted@),
        sorted@.to_multiset() == hands@.to_multiset(),
{
    let ghost all = hands@;
    let mut sorted: Vec<Hand> = Vec::new();
    proof {
        assert(all.take(0) =~= Seq::<Hand>::empty());
    }
    for hand in it: hands.into_iter()
        invariant
            it.seq() == all,
            ranked(sorted@),
            sorted@.to_multiset() == all.take(it.index() as int).to_multiset(),
    {
        let mut at: usize = sorted.len();
        while at > 0 && hand.loses_to(&sorted[at - 1])
            invariant
                at <= sorted@.len(),
                forall|k: int| at <= k < sorted@.len() ==> weaker(hand, #[trigger] sorted@[k]),
            decreases at,
        {
            at = at - 1;
        }
        let ghost before_seq = sorted@;
        sorted.insert(at, hand);
        proof {
            let after = sorted@;
            let done = all.take(it.index() as int);
            let more = all.take(it.index() + 1);
            assert(more =~= done.push(hand));
            to_multiset_build(done, hand);
            assert(after.remove(at as int) =~= before_seq);
            to_multiset_remove(after, at as int);
            assert(after[at as int] == hand);
            assert(after.contains(hand));
            after.to_multiset_ensures();
            assert(after.to_multiset() =~= before_seq.to_multiset().insert(hand));
            assert forall|i: int, j: int| 0 <= i < j < after.len() implies !weaker(
                #[trigger] after[j],
                #[trigger] after[i],
            ) by {
                if j < at {
                    assert(after[i] == before_seq[i]);
                    assert(after[j] == before_seq[j]);
                } else if j == at {
                    assert(after[i] == before_seq[i]);
                    lemma_not_weaker(hand, before_seq, at as int, i);
                } else if i == at {
                    assert(after[j] == before_seq[j - 1]);
                    lemma_one_way(hand, before_seq[j - 1]);
                } else if i < at {
                    assert(after[i] == before_seq[i]);
                    assert(after[j] == before_seq[j - 1]);
                } else {
                    assert(after[i] == before_seq[i - 1]);
                    assert(after[j] == before_seq[j - 1]);
                }
            }
        }
    }
    proof {
        assert(all.take(all.len() as int) =~= all);
    }
    sorted
}

/// Of two hands at most one is weaker than the other.
proof fn lemma_one_way(a: Hand, b: Hand)
    requires
        weaker(a, b),
    ensures
        !weaker(b, a),
{
    if a.category == b.category {
        lemma_before_one_way(ranks(a.cards@), ranks(b.cards@));
    }
}

proof fn lemma_before_one_way(a: Seq<int>, b: Seq<int>)
    requires
        before(a, b),
    ensures
        !before(b, a),
    decreases a.len(),
{
    if a.len() > 0 && b.len() > 0 && a[0] == b[0] {
        lemma_before_one_way(a.skip(1), b.skip(1));
    }
}

proof fn lemma_before_chain(a: Seq<int>, b: Seq<int>, c: Seq<int>)
    requires
        !before(b, a),
        !before(c, b),
    ensures
        !before(c, a),
    decreases a.len(),
{
    if a.len() > 0 && b.len() > 0 && c.len() > 0 {
        if a[0] == b[0] && b[0] == c[0] {
            lemma_before_chain(a.skip(1), b.skip(1), c.skip(1));
        }
    }
}

/// A hand that is put behind the hands that it is not weaker than is weaker
/// than none before it.
proof fn lemma_not_weaker(hand: Hand, sorted: Seq<Hand>, at: int, i: int)
    requires
        ranked(sorted),
        0 <= i < at <= sorted.len(),
        at > 0 ==> !weaker(hand, sorted[at - 1]),
    ensures
        !weaker(hand, sorted[i]),
{
    if i < at - 1 {
        assert(!weaker(sorted[at - 1], sorted[i]));
        let a = sorted[i];
        let b = sorted[at - 1];
        if strength(hand.category) < strength(a.category) {
        } else if hand.category == a.category && a.category == b.category {
            lemma_before_chain(ranks(a.cards@), ranks(b.cards@), ranks(hand.cards@));
        }
    }
}

/// The winnings of the hands in the order in which they stand: for each its
/// bid times its place, counted from 1. `None` where that is no number of the
/// machine.
pub fn total_winnings(hands: &Vec<Hand>) -> (r: Option<usize>)
    ensures
        match r {
            Some(sum) => sum == winnings(hands@, hands@.len() as int),
            None => winnings(hands@, hands@.len() as int) > usize::MAX,
        },
{
    let mut sum: usize = 0;
    let mut i: usize = 0;
    while i < hands.len()
        invariant
            i <= hands@.len(),
            sum == winnings(hands@, i as int),
        decreases hands@.len() - i,
    {
        proof {
            lemma_winnings(hands@, i + 1, hands@.len() as int);
            lemma_winnings(hands@, i as int, i as int);
        }
        let bid = hands[i].bid;
        let term = if bid == 0 {
            Some(0)
        } else {
            match i.checked_add(1) {
                Some(place) => place.checked_mul(bid),
                None => None,
            }
        };
        proof {
            if bid == 0 {
                assert((i + 1) * bid == 0) by (nonlinear_arith)
                    requires
                        bid == 0,
                ;
            } else {
                assert((i + 1) * bid >= i + 1) by (nonlinear_arith)
                    requires
                        bid >= 1,
                        i >= 0,
                ;
            }
        }
        let next = match term {
            Some(term) => sum.checked_add(term),
            None => None,
        };
        match next {
            Some(next) => {
                sum = next;
            },
            None => {
                return None;
            },
        }
        i = i + 1;
    }
    Some(sum)
}

/// The hands are the ones that the lines stand for, one for each.
pub open spec fn all_dealt(hands: Seq<Hand>, text: Seq<Seq<u8>>, wild: bool) -> bool {
    hands.len() == text.len() && forall|i: int|
        0 <= i < hands.len() ==> (#[trigger] hands[i]).dealt(text[i], wild)
}

/// `total` is what the hands of the lines win: the sum of the bid of each
/// times its place when the hands stand in the order of their strength, the
/// weakest first.
pub open spec fn won(text: Seq<Seq<u8>>, wild: bool, total: nat) -> bool {
    exists|hands: Seq<Hand>, sorted: Seq<Hand>|
        #![trigger all_dealt(hands, text, wild), ranked(sorted)]
        all_dealt(hands, text, wild) && ranked(sorted) && sorted.to_multiset()
            == hands.to_multiset() && total == winnings(sorted, sorted.len() as int)
}

/// A line stands for no hand, or the hands of the lines win more than the
/// machine can count.
pub open spec fn lost(text: Seq<Seq<u8>>, wild: bool) -> bool {
    (exists|i: int| 0 <= i < text.len() && Hand::read_of(#[trigger] text[i], wild) is None)
        || exists|hands: Seq<Hand>, sorted: Seq<Hand>|
        #![trigger all_dealt(hands, text, wild), ranked(sorted)]
        all_dealt(hands, text, wild) && ranked(sorted) && sorted.to_multiset()
            == hands.to_multiset() && winnings(sorted, sorted.len() as int) > usize::MAX
}

/// What the hands of the text win, with the joker for `J` where `wild`
/// holds. `None` where a line stands for no hand, or where the winnings
/// are no number of the machine.
fn solve(input: &str, wild: bool) -> (r: Option<usize>)
    ensures
        match r {
            Some(total) => won(lines(input.spec_bytes()), wild, total as nat),
            None => lost(lines(input.spec_bytes()), wild),
        },
{
    let rows = split_lines(input.as_bytes());
    let ghost text = lines(input.spec_bytes());
    let mut hands: Vec<Hand> = Vec::new();
    let mut i: usize = 0;
    while i < rows.len()
        invariant
            i <= rows@.len(),
            text == rows_of(rows@),
            text == lines(input.spec_bytes()),
            hands@.len() == i,
            forall|k: int| 0 <= k < i ==> (#[trigger] hands@[k]).dealt(text[k], wild),
        decreases rows@.len() - i,
    {
        proof {
            assert(text[i as int] == rows@[i as int]@);
        }
        match Hand::read_bytes(rows[i].as_slice(), wild) {
            Some(hand) => {
                hands.push(hand);
            },
            None => {
                proof {
                    assert(Hand::read_of(lines(input.spec_bytes())[i as int], wild) is None);
                }
                return None;
            },
        }
        i = i + 1;
    }
    let ghost read = hands@;
    let sorted = sort_hands(hands);
    proof {
        assert(all_dealt(read, text, wild));
    }
    total_winnings(&sorted)
}

/// What the hands of the text win where `J` is the jack.
pub fn solve_part1(input: &str) -> (r: Option<usize>)
    ensures
        match r {
            Some(total) => won(lines(input.spec_bytes()), false, total as nat),
            None => lost(lines(input.spec_bytes()), false),
        },
{
    solve(input, false)
}

/// What the hands of the text win where `J` is the joker.
pub fn solve_part2(input: &str) -> (r: Option<usize>)
    ensures
        match r {
            Some(total) => won(lines(input.spec_bytes()), true, total as nat),
            None => lost(lines(input.spec_bytes()), true),
        },
{
    solve(input, true)
}

} // verus!
