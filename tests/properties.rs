use poker::{winning_hands, Card, Category, Hand, KindGroups, Rank, Suit};
use std::cmp::Ordering;

fn hand(s: &str) -> Hand {
    Hand::from_str(s).unwrap()
}

fn write_hand(h: &Hand) -> String {
    String::from_utf8(h.to_bytes()).unwrap()
}

#[test]
fn parse_then_write_then_parse_gives_same_hand() {
    for text in ["KD 10S 2H AC 3C", "4S 4H 4D 4C 9S", "QH JH 10H KH AH"] {
        let h = hand(text);
        let written = write_hand(&h);
        assert_eq!(Hand::from_str(&written), Some(h));
    }
}

#[test]
fn parsing_sorts_cards_ascending() {
    let h = hand("6S 5H 4D 3C 2H");
    assert_eq!(write_hand(&h), "2H 3C 4D 5H 6S");
    let h = hand("2S 2H 2D 2C AH");
    assert_eq!(write_hand(&h), "2H 2D 2C 2S AH");
    let h = hand("AH 10S 2C 3D 4H");
    assert_eq!(write_hand(&h), "2C 3D 4H 10S AH");
}

#[test]
fn parsing_accepts_any_ascii_whitespace() {
    assert_eq!(
        Hand::from_str("  2H\t3H\n4H   5H 6H "),
        Hand::from_str("2H 3H 4H 5H 6H")
    );
}

#[test]
fn parsing_accepts_unicode_whitespace() {
    let expected = Hand::from_str("2H 3H 4H 5H 6H");
    assert!(expected.is_some());
    assert_eq!(Hand::from_str("2H\u{a0}3H 4H 5H 6H"), expected);
    assert_eq!(Hand::from_str("6H\u{3000}5H\u{2003}4H\u{85}3H\u{2028}2H"), expected);
    assert_eq!(Hand::from_str("2H\u{1680}3H\u{202f}4H\u{205f}5H\u{2029}6H"), expected);
    assert_eq!(Hand::from_str("2H\u{200a}3H\u{2000}4H\u{b}5H\u{c}6H"), expected);
}

#[test]
fn non_whitespace_characters_do_not_separate() {
    assert_eq!(Hand::from_str("2H\u{200b}3H 4H 5H 6H"), None);
    assert_eq!(Hand::from_str("2H\u{e9}3H 4H 5H 6H"), None);
    assert_eq!(Hand::from_str("2H\u{2010}3H 4H 5H 6H"), None);
}

#[test]
fn parsing_rejects_bad_words_and_counts() {
    assert_eq!(Hand::from_str(""), None);
    assert_eq!(Hand::from_str("2H 3H 4H 5H XH"), None);
    assert_eq!(Hand::from_str("2H 3H 4H 5H 11H"), None);
    assert_eq!(Hand::from_str("2H 3H 4H 5H 6H 7H XX"), None);
}

#[test]
fn card_parse_examples() {
    assert_eq!(Card::from_str("1H"), None);
    assert_eq!(Card::from_str("QH2"), None);
    assert_eq!(
        Card::from_str("10D"),
        Some(Card {
            rank: Rank::Ten,
            suit: Suit::Diamonds
        })
    );
    assert_eq!(Card::from_str("H"), None);
    assert_eq!(Card::from_str("10DD"), None);
    assert_eq!(Card::from_str("20D"), None);
    assert_eq!(Card::from_str("2X"), None);
    assert_eq!(Rank::from_str("1"), None);
    assert_eq!(Rank::from_str(""), None);
    assert_eq!(Suit::from_str("HH"), None);
}

#[test]
fn rank_numbers_are_two_to_fourteen() {
    assert_eq!(Rank::Two.value(), 2);
    assert_eq!(Rank::Ten.value(), 10);
    assert_eq!(Rank::Jack.value(), 11);
    assert_eq!(Rank::Queen.value(), 12);
    assert_eq!(Rank::King.value(), 13);
    assert_eq!(Rank::Ace.value(), 14);
    assert_eq!(Rank::from_value(7), Rank::Seven);
    assert_eq!(Category::HighCard.index(), 0);
    assert_eq!(Category::StraightFlush.index(), 8);
}

#[test]
fn card_keys_order_by_rank_then_suit() {
    let two_hearts = Card::from_str("2H").unwrap();
    let ace_spades = Card::from_str("AS").unwrap();
    assert_eq!(two_hearts.key(), 8);
    assert_eq!(ace_spades.key(), 59);
    assert_eq!(Card::from_key(59), ace_spades);
    assert!(Card::from_str("5S").unwrap().key() < Card::from_str("6H").unwrap().key());
}

#[test]
fn new_rejects_unordered_cards() {
    let a = Card::from_str("2H").unwrap();
    let b = Card::from_str("3H").unwrap();
    let c = Card::from_str("4H").unwrap();
    let d = Card::from_str("5H").unwrap();
    let e = Card::from_str("6H").unwrap();
    assert!(Hand::new(a, b, c, d, e).is_ok());
    assert_eq!(Hand::new(b, a, c, d, e), Err("Cards are not in order"));
    assert_eq!(Hand::new(a, b, c, e, d), Err("Cards are not in order"));
    assert!(Hand::new(a, a, c, d, e).is_err());
}

#[test]
fn kind_groups_of_full_house() {
    let (groups, rest) = hand("2H 2D 4H 4C 4S").kind_groups();
    assert_eq!(groups, KindGroups(vec![(3, Rank::Four), (2, Rank::Two)]));
    assert_eq!(rest, vec![]);
}

#[test]
fn kind_groups_of_two_pairs_and_kicker() {
    let (groups, rest) = hand("JD QH JS 8D QC").kind_groups();
    assert_eq!(groups, KindGroups(vec![(2, Rank::Queen), (2, Rank::Jack)]));
    assert_eq!(rest, vec![Rank::Eight]);
}

#[test]
fn kind_groups_of_high_card() {
    let (groups, rest) = hand("2H 3D 4H 5C 7S").kind_groups();
    assert_eq!(groups, KindGroups(vec![]));
    assert_eq!(
        rest,
        vec![Rank::Seven, Rank::Five, Rank::Four, Rank::Three, Rank::Two]
    );
}

#[test]
fn kind_groups_compare() {
    let four_twos = KindGroups(vec![(4, Rank::Two)]);
    let four_threes = KindGroups(vec![(4, Rank::Three)]);
    let three_twos = KindGroups(vec![(3, Rank::Two)]);
    assert_eq!(four_twos.partial_cmp(&four_threes), Some(Ordering::Less));
    assert_eq!(four_threes.partial_cmp(&four_twos), Some(Ordering::Greater));
    assert_eq!(four_twos.partial_cmp(&four_twos), Some(Ordering::Equal));
    assert_eq!(three_twos.partial_cmp(&four_twos), None);
    assert_eq!(three_twos.partial_cmp(&KindGroups(vec![])), None);
    let a = KindGroups(vec![(2, Rank::Five), (2, Rank::Two)]);
    let b = KindGroups(vec![(2, Rank::Five), (2, Rank::Three)]);
    assert_eq!(a.partial_cmp(&b), Some(Ordering::Less));
}

#[test]
fn straight_type_cases() {
    let run = vec![Rank::Six, Rank::Five, Rank::Four, Rank::Three, Rank::Two];
    assert_eq!(Hand::straight_type(&run), (true, false));
    let wheel = vec![Rank::Ace, Rank::Five, Rank::Four, Rank::Three, Rank::Two];
    assert_eq!(Hand::straight_type(&wheel), (true, true));
    let broadway = vec![Rank::Ace, Rank::King, Rank::Queen, Rank::Jack, Rank::Ten];
    assert_eq!(Hand::straight_type(&broadway), (true, false));
    let middle = vec![Rank::Ace, Rank::King, Rank::Queen, Rank::Three, Rank::Two];
    assert_eq!(Hand::straight_type(&middle), (false, false));
}

#[test]
fn categories_of_each_kind() {
    let cases = [
        ("2H 3D 5S 9C KD", Category::HighCard),
        ("2H 2D 5S 9C KD", Category::OnePair),
        ("2H 2D 5S 5C KD", Category::TwoPairs),
        ("2H 2D 2S 9C KD", Category::ThreeOfAKind),
        ("3S 4D 2S 6D 5C", Category::Straight),
        ("2S 4S 5S 6S 7S", Category::Flush),
        ("4S 5C 4C 5D 4H", Category::FullHouse),
        ("3S 3H 2S 3D 3C", Category::FourOfAKind),
        ("7S 8S 9S 6S 10S", Category::StraightFlush),
    ];
    for (text, category) in cases {
        assert_eq!(hand(text).categorize().0, category);
    }
}

#[test]
fn ace_high_and_wheel_straight_flushes() {
    let royal = hand("10H JH QH KH AH").categorize();
    assert_eq!(royal.0, Category::StraightFlush);
    assert!(!royal.3);
    let wheel = hand("4D AD 3D 2D 5D").categorize();
    assert_eq!(wheel.0, Category::StraightFlush);
    assert!(wheel.3);
    let six_high = hand("2H 3H 4H 5H 6H");
    assert_eq!(hand("4D AD 3D 2D 5D").compare(&six_high), Ordering::Less);
}

#[test]
fn no_ace_between_king_and_two() {
    assert_eq!(hand("QS KH AC 2D 3S").categorize().0, Category::HighCard);
    assert_eq!(hand("QH KH AH 2H 3H").categorize().0, Category::Flush);
    assert_eq!(hand("KS KH AC 2D 3S").categorize().0, Category::OnePair);
}

#[test]
fn comparison_is_antisymmetric_and_ties_ignore_suits() {
    let hands = [
        hand("4S 5H 4C 8D 4H"),
        hand("3S 4D 2S 6D 5C"),
        hand("4D AH 3S 2D 5C"),
        hand("2S QS 2C QD JH"),
        hand("3S 4S 5D 6H JH"),
        hand("3H 4H 5C 6C JD"),
    ];
    for a in hands.iter() {
        assert_eq!(a.compare(a), Ordering::Equal);
        for b in hands.iter() {
            assert_eq!(a.compare(b), b.compare(a).reverse());
        }
    }
    assert_eq!(hands[4].compare(&hands[5]), Ordering::Equal);
    assert_eq!(hands[2].compare(&hands[1]), Ordering::Less);
}

#[test]
fn winners_keep_input_order_and_strings() {
    let input = ["3H 4H 5C 6C JD", "4D 5S 6S 8D 3C", "3S   4S 5D 6H JH"];
    assert_eq!(winning_hands(&input), vec!["3H 4H 5C 6C JD", "3S   4S 5D 6H JH"]);
}

#[test]
fn no_hands_no_winners() {
    let input: [&str; 0] = [];
    assert_eq!(winning_hands(&input), Vec::<&str>::new());
}

#[test]
fn sole_hand_wins() {
    assert_eq!(winning_hands(&["4S 5S 7H 8D JC"]), vec!["4S 5S 7H 8D JC"]);
}

#[test]
fn highest_high_card_wins_exactly() {
    assert_eq!(
        winning_hands(&["4D 5S 6S 8D 3C", "2S 4C 7S 9H 10H", "3S 4S 5D 6H JH"]),
        vec!["3S 4S 5D 6H JH"]
    );
}

#[test]
fn six_high_straight_flush_beats_wheel() {
    assert_eq!(
        winning_hands(&["2H 3H 4H 5H 6H", "4D AD 3D 2D 5D"]),
        vec!["2H 3H 4H 5H 6H"]
    );
}

#[test]
fn flush_test_on_hands() {
    assert!(hand("2S 4S 5S 6S 7S").is_flush());
    assert!(!hand("2S 4S 5S 6S 7H").is_flush());
}
