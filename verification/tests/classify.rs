use poker::{Hand, Hands, Number, ParseError};
use std::cmp::Ordering;

fn ranks(values: &[u8]) -> Vec<Number> {
    values.iter().map(|v| Number(*v)).collect()
}

fn hand(text: &str) -> Hand {
    Hand::from(text).unwrap()
}

#[test]
fn hands_of_other_than_five_cards_are_refused() {
    assert_eq!(Hand::from("4S 5H 5S 5D").unwrap_err(), ParseError::WrongCardCount);
    assert_eq!(Hand::from("4S 5H 5S 5D 5C 6C").unwrap_err(), ParseError::WrongCardCount);
    assert_eq!(Hand::from("4S").unwrap_err(), ParseError::WrongCardCount);
}

#[test]
fn the_first_bad_token_decides_the_error() {
    assert_eq!(Hand::from("").unwrap_err(), ParseError::TooShort);
    assert_eq!(Hand::from("4S  5H 5S 5D 5C").unwrap_err(), ParseError::TooShort);
    assert_eq!(Hand::from("4S 5H 5S 5D 5C ").unwrap_err(), ParseError::TooShort);
    assert_eq!(Hand::from(" 4S 5H 5S 5D 5C").unwrap_err(), ParseError::TooShort);
    assert_eq!(Hand::from("4S 5H 1S 5D XX").unwrap_err(), ParseError::UnknownRank);
    assert_eq!(Hand::from("4S 5X 1S 5D 5C").unwrap_err(), ParseError::UnknownSuit);
    assert_eq!(Hand::from("4S 5H 5S 5D A").unwrap_err(), ParseError::TooShort);
    assert_eq!(Hand::from("4S 5H XH").unwrap_err(), ParseError::UnknownRank);
    assert_eq!(Hand::from("4S\t5H 5S 5D 5C").unwrap_err(), ParseError::UnknownRank);
    assert_eq!(Hand::from("4S 5H\t5S 5D 5C").unwrap_err(), ParseError::UnknownRank);
    assert_eq!(Hand::from("4S 5H 5S 5D 5C\n").unwrap_err(), ParseError::UnknownSuit);
}

#[test]
fn four_of_a_kind_is_classified() {
    let (category, key) = hand("4S 5H 5S 5D 5C").hand();
    assert_eq!(category, Hands::FourOfAKind);
    assert_eq!(key, ranks(&[5, 4]));
}

#[test]
fn full_house_is_classified() {
    let (category, key) = hand("4H 4S 4D 9S 9D").hand();
    assert_eq!(category, Hands::FullHouse);
    assert_eq!(key, ranks(&[4, 9]));
    let (category, key) = hand("9S 4H 9D 4S 4D").hand();
    assert_eq!(category, Hands::FullHouse);
    assert_eq!(key, ranks(&[4, 9]));
}

#[test]
fn three_of_a_kind_is_classified() {
    let (category, key) = hand("7S 7H 7D 2C AH").hand();
    assert_eq!(category, Hands::ThreeOfAKind);
    assert_eq!(key, ranks(&[7, 1, 2]));
}

#[test]
fn two_pairs_are_classified() {
    let (category, key) = hand("2S 8H 2D 8D 3H").hand();
    assert_eq!(category, Hands::TwoPair);
    assert_eq!(key, ranks(&[8, 2, 3]));
    let (category, key) = hand("AS AH 3D 3C KH").hand();
    assert_eq!(category, Hands::TwoPair);
    assert_eq!(key, ranks(&[1, 3, 13]));
}

#[test]
fn one_pair_is_classified() {
    let (category, key) = hand("2S 4H 6S 4D JH").hand();
    assert_eq!(category, Hands::OnePair);
    assert_eq!(key, ranks(&[4, 11, 6, 2]));
    let (category, key) = hand("KS AH 6S AD JH").hand();
    assert_eq!(category, Hands::OnePair);
    assert_eq!(key, ranks(&[1, 13, 11, 6]));
}

#[test]
fn high_card_is_classified() {
    let (category, key) = hand("4D 5S 6S 8D 3C").hand();
    assert_eq!(category, Hands::HighCard);
    assert_eq!(key, ranks(&[2]));
}

#[test]
fn straights_are_classified() {
    let (category, key) = hand("AS 2H 3C 4D 5H").hand();
    assert_eq!(category, Hands::Straight);
    assert_eq!(key, ranks(&[5, 4, 3, 2, 1]));
    let (category, key) = hand("10D JH QS KD AC").hand();
    assert_eq!(category, Hands::Straight);
    assert_eq!(key, ranks(&[1, 13, 12, 11, 10]));
    let (category, key) = hand("6D 4H 5S 8D 7C").hand();
    assert_eq!(category, Hands::Straight);
    assert_eq!(key, ranks(&[8, 7, 6, 5, 4]));
}

#[test]
fn a_run_round_the_ace_is_no_straight() {
    assert_eq!(hand("QS KH AC 2D 3H").hand().0, Hands::HighCard);
    assert_eq!(hand("KS AH 2C 3D 4H").hand().0, Hands::HighCard);
    assert!(hand("JS QS KH AC 2D").is_straight().is_none());
    assert!(hand("AS AH 2C 3D 4H").is_straight().is_none());
}

#[test]
fn flush_is_classified() {
    let (category, key) = hand("2S 4S 5S 6S 7S").hand();
    assert_eq!(category, Hands::Flush);
    assert_eq!(key, ranks(&[7, 6, 5, 4, 2]));
    let (category, key) = hand("2D AD 5D 6D KD").hand();
    assert_eq!(category, Hands::Flush);
    assert_eq!(key, ranks(&[1, 13, 6, 5, 2]));
}

#[test]
fn straight_flush_is_classified() {
    let (category, key) = hand("7H 8H 9H 10H JH").hand();
    assert_eq!(category, Hands::StraightFlush);
    assert_eq!(key, ranks(&[11, 10, 9, 8, 7]));
    let (category, key) = hand("4C AC 3C 2C 5C").hand();
    assert_eq!(category, Hands::StraightFlush);
    assert_eq!(key, ranks(&[5, 4, 3, 2, 1]));
}

#[test]
fn a_flush_with_a_pair_is_a_flush() {
    let (category, key) = hand("5H 5H 3H 2H 9H").hand();
    assert_eq!(category, Hands::Flush);
    assert_eq!(key, ranks(&[9, 5, 5, 3, 2]));
    let (category, key) = hand("5H 5H 5H 9H 9H").hand();
    assert_eq!(category, Hands::Flush);
    assert_eq!(key, ranks(&[9, 9, 5, 5, 5]));
    assert_eq!(hand("5H 5H 5H 5H 5H").hand().0, Hands::Flush);
}

#[test]
fn five_cards_of_one_rank_are_a_high_card_hand() {
    let five = hand("5H 5S 5D 5C 5H");
    assert_eq!(five.hand().0, Hands::HighCard);
    assert_eq!(five.hand().1, ranks(&[2]));
    assert_eq!(five.count_same_number_combination().0, 10);
}

#[test]
fn classifying_twice_gives_one_answer() {
    let h = hand("2S 8H 2D 8D 3H");
    assert_eq!(h.hand(), h.hand());
    assert_eq!(hand("2S 8H 2D 8D 3H").hand(), h.hand());
}

#[test]
fn flush_is_found() {
    assert_eq!(hand("2S 4S 5S 6S 7S").is_flush(), Some(ranks(&[7, 6, 5, 4, 2])));
    assert_eq!(hand("2S 4S AS 6S 7S").is_flush(), Some(ranks(&[1, 7, 6, 4, 2])));
    assert_eq!(hand("2S 4S 5S 6S 7H").is_flush(), None);
    assert_eq!(hand("2H 4S 5S 6S 7S").is_flush(), None);
    assert_eq!(hand("2S 4S 5D 6S 7S").is_flush(), None);
}

#[test]
fn straight_is_found() {
    assert_eq!(hand("3S 4D 2S 6D 5C").is_straight(), Some(ranks(&[6, 5, 4, 3, 2])));
    assert_eq!(hand("AS 2H 3C 4D 5H").is_straight(), Some(ranks(&[5, 4, 3, 2, 1])));
    assert_eq!(hand("10D JH QS KD AC").is_straight(), Some(ranks(&[1, 13, 12, 11, 10])));
    assert_eq!(hand("9D JH QS KD AC").is_straight(), None);
    assert_eq!(hand("2D 3H 4S 5D 5C").is_straight(), None);
    assert_eq!(hand("2D 3H 4S 5D 7C").is_straight(), None);
}

#[test]
fn straight_flush_is_found() {
    assert_eq!(hand("7H 8H 9H 10H JH").is_straight_flush(), Some(ranks(&[11, 10, 9, 8, 7])));
    assert_eq!(hand("7H 8H 9H 10H JS").is_straight_flush(), None);
    assert_eq!(hand("7H 8H 9H 10H QH").is_straight_flush(), None);
    assert_eq!(hand("7H 8S 9H 2H QH").is_straight_flush(), None);
}

#[test]
fn equal_pairs_are_counted() {
    assert_eq!(hand("4S 5H 5S 5D 5C").count_same_number_combination(), (6, ranks(&[5, 4])));
    assert_eq!(hand("4H 4S 4D 9S 9D").count_same_number_combination(), (4, ranks(&[4, 9])));
    assert_eq!(hand("5H 5S 5D 8S 8D").count_same_number_combination(), (4, ranks(&[5, 8])));
    assert_eq!(hand("7S 7H 7D 2C AH").count_same_number_combination(), (3, ranks(&[7, 1, 2])));
    assert_eq!(hand("2S 8H 2D 8D 3H").count_same_number_combination(), (2, ranks(&[8, 2, 3])));
    assert_eq!(hand("2S 4H 6S 4D JH").count_same_number_combination(), (1, ranks(&[4, 11, 6, 2])));
    assert_eq!(
        hand("4D 5S 6S 8D 3C").count_same_number_combination(),
        (0, ranks(&[8, 6, 5, 4, 3]))
    );
    assert_eq!(
        hand("4D AS 6S 8D KC").count_same_number_combination(),
        (0, ranks(&[1, 13, 8, 6, 4]))
    );
    assert_eq!(hand("5H 5S 5D 5C 5H").count_same_number_combination(), (10, ranks(&[5])));
}

#[test]
fn the_higher_category_wins() {
    let texts = [
        "4D 5S 6S 8D 3C",
        "2S 4H 6S 4D JH",
        "2S 8H 2D 8D 3H",
        "7S 7H 7D 2C AH",
        "3S 4D 2S 6D 5C",
        "2S 4S 5S 6S 7S",
        "4H 4S 4D 9S 9D",
        "4S 5H 5S 5D 5C",
        "7H 8H 9H 10H JH",
    ];
    for i in 0..texts.len() {
        for j in 0..texts.len() {
            let expected = i.cmp(&j);
            assert_eq!(hand(texts[i]).compare(&hand(texts[j])), expected);
            assert_eq!(hand(texts[i]).partial_cmp(&hand(texts[j])), Some(expected));
        }
    }
}

#[test]
fn within_a_category_the_key_decides() {
    assert_eq!(hand("4H 4S 4D 9S 9D").compare(&hand("5H 5S 5D 8S 8D")), Ordering::Less);
    assert_eq!(hand("AS 2H 3C 4D 5H").compare(&hand("10D JH QS KD AC")), Ordering::Less);
    assert_eq!(hand("AS 2H 3C 4D 5H").compare(&hand("2H 3C 4D 5H 6S")), Ordering::Less);
    assert_eq!(hand("2S 8H 2D 8D 3H").compare(&hand("4S 5H 4C 8S 5D")), Ordering::Greater);
    assert_eq!(hand("2S QS 2C QD JH").compare(&hand("JD QH JS 8D QC")), Ordering::Less);
    assert_eq!(hand("JD QH JS 8D QC").compare(&hand("JS QS JC 2D QD")), Ordering::Greater);
    assert_eq!(hand("2S 4H 6S 4D JH").compare(&hand("2S 4H 6C 4D JD")), Ordering::Equal);
    assert_eq!(hand("4H 7H 8H 9H 6H").compare(&hand("2S 4S 5S 6S 7S")), Ordering::Greater);
    assert_eq!(hand("2S 2H 2C 8D JH").compare(&hand("4S AH AS 8C AD")), Ordering::Less);
    assert_eq!(hand("5S AH AS 7C AD").compare(&hand("4S AH AS 8C AD")), Ordering::Less);
}

#[test]
fn high_card_hands_are_compared_card_by_card() {
    assert_eq!(hand("4D 5S 6S 8D 3C").compare(&hand("2S 4C 7S 9H 10H")), Ordering::Less);
    assert_eq!(hand("3S 5H 6S 8D 7H").compare(&hand("2S 5D 6D 8C 7S")), Ordering::Greater);
    assert_eq!(hand("3S 4S 5D 6H JH").compare(&hand("3H 4H 5C 6C JD")), Ordering::Equal);
    assert_eq!(hand("3S 4S 5D 6H AH").compare(&hand("3H 4H 5C KC QD")), Ordering::Greater);
}

#[test]
fn comparison_is_a_total_order_on_sample_hands() {
    let texts = [
        "4D 5S 6S 8D 3C",
        "3S 4S 5D 6H JH",
        "3H 4H 5C 6C JD",
        "2S 4H 6S 4D JH",
        "2S 8H 2D 8D 3H",
        "AS 2H 3C 4D 5H",
        "10D JH QS KD AC",
        "5H 5H 3H 2H 9H",
        "4H 4S 4D 9S 9D",
        "5H 5S 5D 8S 8D",
        "5H 5S 5D 5C 5H",
    ];
    let hands: Vec<Hand> = texts.iter().map(|t| hand(t)).collect();
    for a in &hands {
        assert_eq!(a.compare(a), Ordering::Equal);
        assert!(a == a);
        for b in &hands {
            assert_eq!(a.compare(b), b.compare(a).reverse());
            assert_eq!(a == b, a.compare(b) == Ordering::Equal);
            for c in &hands {
                if a.compare(b) != Ordering::Greater && b.compare(c) != Ordering::Greater {
                    assert_ne!(a.compare(c), Ordering::Greater);
                }
            }
        }
    }
}

#[test]
fn the_same_text_read_twice_ties() {
    for text in ["4S 5H 5S 5D 5C", "AS 2H 3C 4D 5H", "4D 5S 6S 8D 3C"] {
        let a = hand(text);
        let b = hand(text);
        assert_eq!(a.compare(&b), Ordering::Equal);
        assert!(a == b);
        assert_eq!(a.cards(), b.cards());
    }
}

#[test]
fn categories_stand_in_order() {
    let scale = [
        Hands::HighCard,
        Hands::OnePair,
        Hands::TwoPair,
        Hands::ThreeOfAKind,
        Hands::Straight,
        Hands::Flush,
        Hands::FullHouse,
        Hands::FourOfAKind,
        Hands::StraightFlush,
        Hands::FiveOfAKind,
    ];
    for (i, a) in scale.iter().enumerate() {
        assert_eq!(a.ordinal_value() as usize, i + 1);
        for (j, b) in scale.iter().enumerate() {
            assert_eq!(a.partial_cmp(b), Some(i.cmp(&j)));
        }
    }
}
