use advent::camel_cards::{classify, total_winnings, Card, Hand, HandType};
use advent::error::GenericError;

const EXAMPLE: [(&str, usize); 5] = [("32T3K", 765), ("T55J5", 684), ("KK677", 28), ("KTJJT", 220), ("QQQJA", 483)];

fn hands(jokers: bool) -> Vec<(Hand, usize)> {
    EXAMPLE.iter().map(|(h, b)| (Hand::parse(h, jokers).unwrap(), *b)).collect()
}

#[test]
fn day7_run_test_1() {
    assert_eq!(total_winnings(&hands(false)), Ok(6440));
}

#[test]
fn day7_run_test_2() {
    assert_eq!(total_winnings(&hands(true)), Ok(5905));
}

#[test]
fn hand_kinds() {
    let kind = |s: &str, j: bool| Hand::parse(s, j).unwrap().hand_type;
    assert_eq!(kind("AAAAA", false), HandType::FiveOfAKind);
    assert_eq!(kind("AA8AA", false), HandType::FourOfAKind);
    assert_eq!(kind("23332", false), HandType::FullHouse);
    assert_eq!(kind("TTT98", false), HandType::ThreeOfAKind);
    assert_eq!(kind("23432", false), HandType::TwoPair);
    assert_eq!(kind("A23A4", false), HandType::OnePair);
    assert_eq!(kind("23456", false), HandType::HighCard);
    assert_eq!(kind("JJJJJ", true), HandType::FiveOfAKind);
    assert_eq!(kind("KTJJT", true), HandType::FourOfAKind);
    assert_eq!(kind("T55J5", true), HandType::FourOfAKind);
    assert_eq!(kind("2233J", true), HandType::FullHouse);
    assert_eq!(kind("2345J", true), HandType::OnePair);
    assert_eq!(classify(&vec![Card::Two, Card::Two, Card::Three, Card::Three, Card::Four]), HandType::TwoPair);
}

#[test]
fn hand_order() {
    let a = Hand::parse("33332", false).unwrap();
    let b = Hand::parse("2AAAA", false).unwrap();
    assert!(b.is_weaker_than(&a));
    assert!(!a.is_weaker_than(&b));
    assert!(!a.is_weaker_than(&a));
    let j = Hand::parse("JKKK2", true).unwrap();
    let q = Hand::parse("QQQQ2", true).unwrap();
    assert!(j.is_weaker_than(&q));
}

#[test]
fn bad_hands_are_rejected() {
    assert_eq!(Hand::parse("2345", false), Err(GenericError::InvalidInput));
    assert_eq!(Hand::parse("234567", false), Err(GenericError::InvalidInput));
    assert_eq!(Hand::parse("2345X", false), Err(GenericError::InvalidInput));
    assert_eq!(Card::from_char('J', false), Some(Card::Jack));
    assert_eq!(Card::from_char('J', true), Some(Card::Joker));
}

#[test]
fn equal_hands_rank_in_given_order() {
    let h = Hand::parse("23456", false).unwrap();
    assert_eq!(total_winnings(&vec![(h, 10), (h, 1)]), Ok(10 + 2));
}
