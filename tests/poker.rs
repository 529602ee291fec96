use poker::{winning_hands, Card, Hand, Rank, Suit};
use std::collections::HashSet;

fn hs_from<'a>(input: &[&'a str]) -> HashSet<&'a str> {
    let mut hs = HashSet::new();
    for item in input.iter() {
        hs.insert(*item);
    }
    hs
}

fn test(input: &[&str], expected: &[&str]) {
    assert_eq!(hs_from(&winning_hands(input)), hs_from(expected))
}

#[test]
fn test_from_str() {
    assert_eq!(Suit::from_str("H"), Some(Suit::Hearts));
    assert_eq!(Suit::from_str("D"), Some(Suit::Diamonds));
    assert_eq!(Suit::from_str("C"), Some(Suit::Clubs));
    assert_eq!(Suit::from_str("S"), Some(Suit::Spades));
    assert_eq!(Suit::from_str("Z"), None);

    assert_eq!(Rank::from_str("2"), Some(Rank::Two));
    assert_eq!(Rank::from_str("3"), Some(Rank::Three));
    assert_eq!(Rank::from_str("4"), Some(Rank::Four));
    assert_eq!(Rank::from_str("5"), Some(Rank::Five));
    assert_eq!(Rank::from_str("6"), Some(Rank::Six));
    assert_eq!(Rank::from_str("7"), Some(Rank::Seven));
    assert_eq!(Rank::from_str("8"), Some(Rank::Eight));
    assert_eq!(Rank::from_str("9"), Some(Rank::Nine));
    assert_eq!(Rank::from_str("10"), Some(Rank::Ten));
    assert_eq!(Rank::from_str("J"), Some(Rank::Jack));
    assert_eq!(Rank::from_str("Q"), Some(Rank::Queen));
    assert_eq!(Rank::from_str("K"), Some(Rank::King));
    assert_eq!(Rank::from_str("A"), Some(Rank::Ace));
    assert_eq!(Rank::from_str("Z"), None);

    assert_eq!(
        Card::from_str("2H"),
        Some(Card {
            rank: Rank::Two,
            suit: Suit::Hearts
        })
    );
    assert_eq! {
        Card::from_str("10D"),
        Some(Card {
            rank: Rank::Ten,
            suit: Suit::Diamonds
        })
    };
    assert_eq! {
        Card::from_str("QH"),
        Some(Card {
            rank: Rank::Queen,
            suit: Suit::Hearts
        })
    };
    assert_eq! {
        Card::from_str("AS"),
        Some(Card {
            rank: Rank::Ace,
            suit: Suit::Spades
        })
    };
    assert_eq!(Card::from_str("1H"), None);
    assert_eq!(Card::from_str("QH2"), None);

    assert_eq!(
        Hand::from_str("2H 3H 4H 5H 6H").unwrap(),
        Hand::new(
            Card {
                rank: Rank::Two,
                suit: Suit::Hearts
            },
            Card {
                rank: Rank::Three,
                suit: Suit::Hearts
            },
            Card {
                rank: Rank::Four,
                suit: Suit::Hearts
            },
            Card {
                rank: Rank::Five,
                suit: Suit::Hearts
            },
            Card {
                rank: Rank::Six,
                suit: Suit::Hearts
            }
        )
        .unwrap()
    );

    assert_eq!(Hand::from_str("bunch of garbage"), None);

    assert_eq!(Hand::from_str("2H 3H 4H 4H 6H"), None);

    assert_eq!(Hand::from_str("2H 3H 4H 5H"), None);

    assert_eq!(Hand::from_str("2H 3H 4H 5H 6H 7H"), None);

    assert_eq!(
        Hand::from_str("2H 3D 4C 5S 10H").unwrap(),
        Hand::new(
            Card {
                rank: Rank::Two,
                suit: Suit::Hearts
            },
            Card {
                rank: Rank::Three,
                suit: Suit::Diamonds
            },
            Card {
                rank: Rank::Four,
                suit: Suit::Clubs
            },
            Card {
                rank: Rank::Five,
                suit: Suit::Spades
            },
            Card {
                rank: Rank::Ten,
                suit: Suit::Hearts
            }
        )
        .unwrap()
    );
}

#[test]
fn flush() {
    assert!(Hand::from_str("2H 3H 4H 5H 6H").unwrap().is_flush());
    assert!(Hand::from_str("2H 3H 4H 5H QH").unwrap().is_flush());
    assert!(!Hand::from_str("2H 3H 4H 5S 10H").unwrap().is_flush());
}

#[test]
fn single_hand_always_wins() {
    test(&["4S 5S 7H 8D JC"], &["4S 5S 7H 8D JC"])
}

#[test]
fn duplicate_hands_always_tie() {
    let input = &["3S 4S 5D 6H JH", "3S 4S 5D 6H JH", "3S 4S 5D 6H JH"];
    assert_eq!(&winning_hands(input), input)
}

#[test]
fn highest_card_of_all_hands_wins() {
    test(
        &["4D 5S 6S 8D 3C", "2S 4C 7S 9H 10H", "3S 4S 5D 6H JH"],
        &["3S 4S 5D 6H JH"],
    )
}

#[test]
fn a_tie_has_multiple_winners() {
    test(
        &[
            "4D 5S 6S 8D 3C",
            "2S 4C 7S 9H 10H",
            "3S 4S 5D 6H JH",
            "3H 4H 5C 6C JD",
        ],
        &["3S 4S 5D 6H JH", "3H 4H 5C 6C JD"],
    )
}

#[test]
fn high_card_can_be_low_card_in_an_otherwise_tie() {
    test(&["3S 5H 6S 8D 7H", "2S 5D 6D 8C 7S"], &["3S 5H 6S 8D 7H"])
}

#[test]
fn one_pair_beats_high_card() {
    test(&["4S 5H 6C 8D KH", "2S 4H 6S 4D JH"], &["2S 4H 6S 4D JH"])
}

#[test]
fn highest_pair_wins() {
    test(&["4S 2H 6S 2D JH", "2S 4H 6C 4D JD"], &["2S 4H 6C 4D JD"])
}

#[test]
fn two_pairs_beats_one_pair() {
    test(&["2S 8H 6S 8D JH", "4S 5H 4C 8C 5C"], &["4S 5H 4C 8C 5C"])
}

#[test]
fn two_pair_ranks() {
    test(&["2S 8H 2D 8D 3H", "4S 5H 4C 8S 5D"], &["2S 8H 2D 8D 3H"])
}

#[test]
fn two_pairs_second_pair_cascade() {
    test(&["2S QS 2C QD JH", "JD QH JS 8D QC"], &["JD QH JS 8D QC"])
}

#[test]
fn two_pairs_last_card_cascade() {
    test(&["JD QH JS 8D QC", "JS QS JC 2D QD"], &["JD QH JS 8D QC"])
}

#[test]
fn three_of_a_kind_beats_two_pair() {
    test(&["2S 8H 2H 8D JH", "4S 5H 4C 8S 4H"], &["4S 5H 4C 8S 4H"])
}

#[test]
fn three_of_a_kind_ranks() {
    test(&["2S 2H 2C 8D JH", "4S AH AS 8C AD"], &["4S AH AS 8C AD"])
}

#[test]
fn low_three_of_a_kind_beats_high_two_pair() {
    test(&["2H 2D 2C 8H 5H", "AS AC KS KC 6S"], &["2H 2D 2C 8H 5H"])
}

#[test]
fn three_of_a_kind_cascade_ranks() {
    test(&["4S AH AS 7C AD", "4S AH AS 8C AD"], &["4S AH AS 8C AD"])
}

#[test]
fn straight_beats_three_of_a_kind() {
    test(&["4S 5H 4C 8D 4H", "3S 4D 2S 6D 5C"], &["3S 4D 2S 6D 5C"])
}

#[test]
fn aces_can_end_a_straight_high() {
    test(&["4S 5H 4C 8D 4H", "10D JH QS KD AC"], &["10D JH QS KD AC"])
}

#[test]
fn aces_can_start_a_straight_low() {
    test(&["4S 5H 4C 8D 4H", "4D AH 3S 2D 5C"], &["4D AH 3S 2D 5C"])
}

#[test]
fn no_ace_in_middle_of_straight() {
    test(&["2C 3D 7H 5H 2S", "QS KH AC 2D 3S"], &["2C 3D 7H 5H 2S"])
}

#[test]
fn straight_ranks() {
    test(&["4S 6C 7S 8D 5H", "5S 7H 8S 9D 6H"], &["5S 7H 8S 9D 6H"])
}

#[test]
fn straight_scoring() {
    test(&["2H 3C 4D 5D 6H", "4S AH 3S 2D 5H"], &["2H 3C 4D 5D 6H"])
}

#[test]
fn flush_beats_a_straight() {
    test(&["4C 6H 7D 8D 5H", "2S 4S 5S 6S 7S"], &["2S 4S 5S 6S 7S"])
}

#[test]
fn flush_cascade() {
    test(&["4H 7H 8H 9H 6H", "2S 4S 5S 6S 7S"], &["4H 7H 8H 9H 6H"])
}

#[test]
fn full_house_beats_a_flush() {
    test(&["3H 6H 7H 8H 5H", "4S 5C 4C 5D 4H"], &["4S 5C 4C 5D 4H"])
}

#[test]
fn full_house_ranks() {
    test(&["4H 4S 4D 9S 9D", "5H 5S 5D 8S 8D"], &["5H 5S 5D 8S 8D"])
}

#[test]
fn full_house_cascade() {
    test(&["5H 5S 5D 9S 9D", "5H 5S 5D 8S 8D"], &["5H 5S 5D 9S 9D"])
}

#[test]
fn four_of_a_kind_beats_full_house() {
    test(&["4S 5H 4D 5D 4H", "3S 3H 2S 3D 3C"], &["3S 3H 2S 3D 3C"])
}

#[test]
fn four_of_a_kind_ranks() {
    test(&["2S 2H 2C 8D 2D", "4S 5H 5S 5D 5C"], &["4S 5H 5S 5D 5C"])
}

#[test]
fn four_of_a_kind_cascade() {
    test(&["3S 3H 2S 3D 3C", "3S 3H 4S 3D 3C"], &["3S 3H 4S 3D 3C"])
}

#[test]
fn straight_flush_beats_four_of_a_kind() {
    test(&["4S 5H 5S 5D 5C", "7S 8S 9S 6S 10S"], &["7S 8S 9S 6S 10S"])
}

#[test]
fn aces_can_end_a_straight_flush_high() {
    test(&["KC AH AS AD AC", "10C JC QC KC AC"], &["10C JC QC KC AC"])
}

#[test]
fn aces_can_start_a_straight_flush_low() {
    test(&["KS AH AS AD AC", "4H AH 3H 2H 5H"], &["4H AH 3H 2H 5H"])
}

#[test]
fn no_ace_in_middle_of_straight_flush() {
    test(&["2C AC QC 10C KC", "QH KH AH 2H 3H"], &["2C AC QC 10C KC"])
}

#[test]
fn straight_flush_ranks() {
    test(&["4H 6H 7H 8H 5H", "5S 7S 8S 9S 6S"], &["5S 7S 8S 9S 6S"])
}

#[test]
fn straight_flush_scoring() {
    test(&["2H 3H 4H 5H 6H", "4D AD 3D 2D 5D"], &["2H 3H 4H 5H 6H"])
}
