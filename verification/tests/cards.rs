use poker::card::number::Number;
use poker::{Card, Kind2, ParseError};
use std::cmp::Ordering;

#[test]
fn every_rank_token_is_read() {
    let tokens = ["A", "2", "3", "4", "5", "6", "7", "8", "9", "10", "J", "Q", "K"];
    for (i, token) in tokens.iter().enumerate() {
        assert_eq!(Number::from(token), Ok(Number(i as u8 + 1)));
    }
}

#[test]
fn other_rank_tokens_are_refused() {
    for token in ["", "1", "0", "11", "a", "j", "10 ", " 10", "AA", "X", "01", "1O"] {
        assert_eq!(Number::from(token), Err(ParseError::UnknownRank));
    }
}

#[test]
fn every_suit_token_is_read() {
    assert_eq!(Kind2::from("H"), Ok(Kind2::Heart));
    assert_eq!(Kind2::from("D"), Ok(Kind2::Diamond));
    assert_eq!(Kind2::from("C"), Ok(Kind2::Clover));
    assert_eq!(Kind2::from("S"), Ok(Kind2::Spade));
}

#[test]
fn other_suit_tokens_are_refused() {
    for token in ["", "h", "J", "X", "HH", " H", "1"] {
        assert_eq!(Kind2::from(token), Err(ParseError::UnknownSuit));
    }
}

#[test]
fn suits_group_by_pairs() {
    assert!(Kind2::Heart.eq_suit(&Kind2::Diamond));
    assert!(Kind2::Diamond.eq_suit(&Kind2::Heart));
    assert!(Kind2::Heart.eq_suit(&Kind2::Heart));
    assert!(Kind2::Clover.eq_suit(&Kind2::Spade));
    assert!(Kind2::Spade.eq_suit(&Kind2::Clover));
    assert!(Kind2::Joker.eq_suit(&Kind2::Joker));
    assert!(!Kind2::Heart.eq_suit(&Kind2::Spade));
    assert!(!Kind2::Heart.eq_suit(&Kind2::Clover));
    assert!(!Kind2::Spade.eq_suit(&Kind2::Diamond));
    assert!(!Kind2::Joker.eq_suit(&Kind2::Heart));
    assert!(!Kind2::Clover.eq_suit(&Kind2::Joker));
}

#[test]
fn cards_are_read() {
    let ace = Card::from("AS").unwrap();
    assert_eq!(ace.kind, Kind2::Spade);
    assert_eq!(ace.num, Number(1));
    let ten = Card::from("10D").unwrap();
    assert_eq!(ten.kind, Kind2::Diamond);
    assert_eq!(ten.num, Number(10));
    let king = Card::from("KC").unwrap();
    assert_eq!(king.kind, Kind2::Clover);
    assert_eq!(king.num, Number(13));
    let two = Card::from("2H").unwrap();
    assert_eq!(two.kind, Kind2::Heart);
    assert_eq!(two.num, Number(2));
}

#[test]
fn malformed_cards_are_reported() {
    assert_eq!(Card::from("1S").unwrap_err(), ParseError::UnknownRank);
    assert_eq!(Card::from("XH").unwrap_err(), ParseError::UnknownRank);
    assert_eq!(Card::from("A").unwrap_err(), ParseError::TooShort);
    assert_eq!(Card::from("").unwrap_err(), ParseError::TooShort);
    assert_eq!(Card::from("S").unwrap_err(), ParseError::TooShort);
    assert_eq!(Card::from("AX").unwrap_err(), ParseError::UnknownSuit);
    assert_eq!(Card::from("As").unwrap_err(), ParseError::UnknownSuit);
    assert_eq!(Card::from("XX").unwrap_err(), ParseError::UnknownSuit);
    assert_eq!(Card::from("11S").unwrap_err(), ParseError::UnknownRank);
    assert_eq!(Card::from("aS").unwrap_err(), ParseError::UnknownRank);
    assert_eq!(Card::from("SA").unwrap_err(), ParseError::UnknownSuit);
    assert_eq!(Card::from("10").unwrap_err(), ParseError::UnknownSuit);
    assert_eq!(Card::from("A♠").unwrap_err(), ParseError::UnknownSuit);
    assert_eq!(Card::from("éS").unwrap_err(), ParseError::UnknownRank);
}

#[test]
fn cards_compare_by_rank_alone() {
    let a = Card { kind: Kind2::Clover, num: Number(9) };
    let b = Card { kind: Kind2::Heart, num: Number(9) };
    let c = Card { kind: Kind2::Heart, num: Number(10) };
    let ace = Card { kind: Kind2::Spade, num: Number(1) };
    assert!(a == b);
    assert!(a != c);
    assert_eq!(a.partial_cmp(&b), Some(Ordering::Equal));
    assert_eq!(a.partial_cmp(&c), Some(Ordering::Less));
    assert_eq!(c.partial_cmp(&a), Some(Ordering::Greater));
    assert_eq!(ace.partial_cmp(&c), Some(Ordering::Greater));
    assert!(a < c);
    assert!(ace > c);
}

#[test]
fn the_ace_is_the_strongest_rank() {
    assert_eq!(Number(1).strength_value(), 14);
    assert_eq!(Number(2).strength_value(), 2);
    assert_eq!(Number(13).strength_value(), 13);
    assert_eq!(Number(1).cmp(&Number(13)), Ordering::Greater);
    assert_eq!(Number(13).cmp(&Number(1)), Ordering::Less);
    assert_eq!(Number(13).cmp(&Number(12)), Ordering::Greater);
    assert_eq!(Number(7).cmp(&Number(7)), Ordering::Equal);
    assert_eq!(Number(1).cmp(&Number(1)), Ordering::Equal);
    assert_eq!(Number(2).partial_cmp(&Number(1)), Some(Ordering::Less));
    assert!(Number(13) < Number(1));
    assert!(Number(2) < Number(3));
}

#[test]
fn after_the_king_comes_the_ace() {
    assert_eq!(Number(13).succ(), Number(1));
    assert_eq!(Number(1).succ(), Number(2));
    assert_eq!(Number(12).succ(), Number(13));
    assert_eq!(Number(9).succ(), Number(10));
}

#[test]
fn addition_wraps_round_thirteen_ranks() {
    assert_eq!(Number(13) + 1u8, Number(1));
    assert_eq!(Number(12) + 1u8, Number(13));
    assert_eq!(Number(1) + 1u8, Number(2));
    assert_eq!(Number(5) + Number(8), Number(13));
    assert_eq!(Number(1) + Number(13), Number(1));
    assert_eq!(Number(10) + Number(10), Number(7));
    assert_eq!(Number(4) + 13u8, Number(4));
    assert_eq!(Number(4) + 26u8, Number(4));
    assert_eq!(Number(13) + 255u8, Number(8));
    assert_eq!(Number(200) + Number(200), Number(10));
}

#[test]
fn addition_and_order_treat_the_ace_differently() {
    let king = Number(13);
    let next = king + 1u8;
    assert_eq!(next, Number(1));
    assert_eq!(next.cmp(&king), Ordering::Greater);
    let after = next + 1u8;
    assert_eq!(after, Number(2));
    assert_eq!(after.cmp(&next), Ordering::Less);
}
