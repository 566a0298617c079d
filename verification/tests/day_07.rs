use advent2023::day_07::{Card, Category, Hand};

fn hand(text: &str) -> Vec<Card> {
    text.chars().map(Card::for_part_1).collect()
}

fn wild(text: &str) -> Vec<Card> {
    text.chars().map(Card::for_part_2).collect()
}

#[test]
fn cards_are_read() {
    let all = "23456789TJQKA";
    let cards = [
        Card::Two,
        Card::Three,
        Card::Four,
        Card::Five,
        Card::Six,
        Card::Seven,
        Card::Eight,
        Card::Nine,
        Card::Ten,
        Card::Jack,
        Card::Queen,
        Card::King,
        Card::Ace,
    ];
    assert_eq!(hand(all), cards.to_vec());
    let mut with_joker = cards.to_vec();
    with_joker[9] = Card::Joker;
    assert_eq!(wild(all), with_joker);
    assert!(Card::Joker < Card::Two);
    assert!(Card::King < Card::Ace);
}

#[test]
fn hands_have_their_kind() {
    assert_eq!(Category::for_cards(&hand("AAAAA")), Category::Quints);
    assert_eq!(Category::for_cards(&hand("AA8AA")), Category::Quads);
    assert_eq!(Category::for_cards(&hand("23332")), Category::Boat);
    assert_eq!(Category::for_cards(&hand("TTT98")), Category::Trips);
    assert_eq!(Category::for_cards(&hand("23432")), Category::TwoPair);
    assert_eq!(Category::for_cards(&hand("A23A4")), Category::OnePair);
    assert_eq!(Category::for_cards(&hand("23456")), Category::HighCard);
    assert_eq!(Category::for_cards(&hand("32T3K")), Category::OnePair);
    assert_eq!(Category::for_cards(&hand("KK677")), Category::TwoPair);
    assert_eq!(Category::for_cards(&hand("T55J5")), Category::Trips);
    assert_eq!(Category::for_cards(&hand("QQQJA")), Category::Trips);
}

#[test]
fn jokers_side_with_the_most() {
    assert_eq!(Category::for_cards(&wild("32T3K")), Category::OnePair);
    assert_eq!(Category::for_cards(&wild("KK677")), Category::TwoPair);
    assert_eq!(Category::for_cards(&wild("T55J5")), Category::Quads);
    assert_eq!(Category::for_cards(&wild("KTJJT")), Category::Quads);
    assert_eq!(Category::for_cards(&wild("QQQJA")), Category::Quads);
    assert_eq!(Category::for_cards(&wild("JJJJJ")), Category::Quints);
    assert_eq!(Category::for_cards(&wild("JJJJ2")), Category::Quints);
    assert_eq!(Category::for_cards(&wild("2345J")), Category::OnePair);
    assert_eq!(Category::for_cards(&wild("2245J")), Category::Trips);
    assert_eq!(Category::for_cards(&wild("2244J")), Category::Boat);
    assert_eq!(Category::for_cards(&wild("234JJ")), Category::Trips);
    assert!(Category::HighCard < Category::OnePair);
    assert!(Category::Quads < Category::Quints);
}

#[test]
fn a_hand_keeps_cards_and_bid() {
    let h = Hand::new(hand("KTJJT"), 220);
    assert_eq!(h.category, Category::TwoPair);
    assert_eq!(h.cards, hand("KTJJT"));
    assert_eq!(h.bid, 220);
}

const HANDS: &str = "32T3K 765
T55J5 684
KK677 28
KTJJT 220
QQQJA 483";

#[test]
fn hands_are_ranked_and_paid() {
    let hands: Vec<Hand> = HANDS.lines().map(|line| Hand::for_part_1(line).unwrap()).collect();
    let sorted = advent2023::day_07::sort_hands(hands);
    let bids: Vec<usize> = sorted.iter().map(|h| h.bid).collect();
    assert_eq!(bids, vec![765, 220, 28, 684, 483]);
    assert_eq!(advent2023::day_07::total_winnings(&sorted), Some(6440));
    let hands: Vec<Hand> = HANDS.lines().map(|line| Hand::for_part_2(line).unwrap()).collect();
    let sorted = advent2023::day_07::sort_hands(hands);
    let bids: Vec<usize> = sorted.iter().map(|h| h.bid).collect();
    assert_eq!(bids, vec![765, 28, 684, 483, 220]);
    assert_eq!(advent2023::day_07::total_winnings(&sorted), Some(5905));
}

#[test]
fn hands_are_compared() {
    let read = |text: &str| Hand::for_part_1(text).unwrap();
    assert!(!read("33332 1").loses_to(&read("2AAAA 1")));
    assert!(read("2AAAA 1").loses_to(&read("33332 1")));
    assert!(read("77788 1").loses_to(&read("77888 1")));
    assert!(!read("77888 1").loses_to(&read("77788 1")));
    assert!(!read("77888 1").loses_to(&read("77888 9")));
    assert!(read("23456 1").loses_to(&read("22345 1")));
    // Four cards of four kinds count as a pair with a card to come.
    assert!(read("23456 1").loses_to(&read("2345 1")));
    assert!(read("2345 1").loses_to(&read("23457 1")) == false);
    assert!(read("2345 1").loses_to(&read("2346 1")));
    // With the joker a J is the weakest card.
    let wild = |text: &str| Hand::for_part_2(text).unwrap();
    assert!(wild("JKKK2 1").loses_to(&wild("QQQQ2 1")));
    assert!(read("JKKK2 1").loses_to(&read("QQQQ2 1")));
    assert!(!wild("QQQQ2 1").loses_to(&wild("JKKK2 1")));
}

#[test]
fn hands_out_of_form_are_refused() {
    assert!(Hand::for_part_1("32T3K").is_none());
    assert!(Hand::for_part_1("32T3K ").is_none());
    assert!(Hand::for_part_1("32X3K 5").is_none());
    assert!(Hand::for_part_1("32T3K 99999999999999999999999").is_none());
    assert!(Hand::for_part_1("").is_none());
    let hand = Hand::for_part_1(" 5").unwrap();
    assert!(hand.cards.is_empty());
    assert_eq!(hand.category, Category::Quints);
    assert_eq!(advent2023::day_07::total_winnings(&vec![]), Some(0));
    assert_eq!(
        advent2023::day_07::total_winnings(&vec![Hand::new(vec![], usize::MAX), Hand::new(vec![], 1)]),
        None
    );
    assert_eq!(
        advent2023::day_07::total_winnings(&vec![Hand::new(vec![], 0), Hand::new(vec![], 7)]),
        Some(14)
    );
}

#[test]
fn hands_are_summed() {
    assert_eq!(advent2023::day_07::solve_part1(HANDS), Some(6440));
    assert_eq!(advent2023::day_07::solve_part2(HANDS), Some(5905));
    assert_eq!(advent2023::day_07::solve_part1(""), Some(0));
    assert_eq!(advent2023::day_07::solve_part1("32T3K 765\n32T3X 1"), None);
}
