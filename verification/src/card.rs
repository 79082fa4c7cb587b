//! A playing card: a rank and a suit.

pub mod number;
pub mod suit;

pub use number::Number;
pub use suit::Kind2;

use crate::error::ParseError;
use number::{rank_of_token, strength_order};
use std::cmp::Ordering;
use suit::suit_of_token;
use vstd::prelude::*;
use vstd::string::*;

verus! {

/// A playing card. Two cards are equal, and ordered, by rank alone: the suit
/// takes no part in either.
#[derive(Debug, Clone, Copy)]
pub struct Card {
    pub kind: Kind2,
    pub num: Number,
}

/// The card that a token names. The last character is the suit and what
/// stands before it the rank; the suit is looked at first.
pub open spec fn card_of_token(token: Seq<char>) -> Result<Card, ParseError> {
    if token.len() < 2 {
        Err(ParseError::TooShort)
    } else {
        match suit_of_token(token.subrange(token.len() - 1, token.len() as int)) {
            None => Err(ParseError::UnknownSuit),
            Some(kind) => match rank_of_token(token.subrange(0, token.len() - 1)) {
                None => Err(ParseError::UnknownRank),
                Some(num) => Ok(Card { kind, num }),
            },
        }
    }
}

impl Card {
    /// The rank is one of the thirteen and the suit is not the Joker.
    pub open spec fn wf(self) -> bool {
        self.num.wf() && self.kind != Kind2::Joker
    }

    /// Reads a card from a token such as `AS`, `10D` or `KC`.
    pub fn from(value: &str) -> (r: Result<Card, ParseError>)
        ensures
            r == card_of_token(value@),
            r matches Ok(card) ==> card.wf(),
    {
        let len = value.unicode_len();
        if len < 2 {
            return Err(ParseError::TooShort);
        }
        let kind = match Kind2::from(value.substring_char(len - 1, len)) {
            Ok(kind) => kind,
            Err(e) => {
                return Err(e);
            },
        };
        let num = match Number::from(value.substring_char(0, len - 1)) {
            Ok(num) => num,
            Err(e) => {
                return Err(e);
            },
        };
        Ok(Card { kind, num })
    }
}

impl PartialEq for Card {
    /// Two cards are equal when their ranks are, whatever their suits.
    fn eq(&self, other: &Card) -> (same: bool) {
        self.num.0 == other.num.0
    }
}

impl vstd::std_specs::cmp::PartialEqSpecImpl for Card {
    open spec fn obeys_eq_spec() -> bool {
        true
    }

    open spec fn eq_spec(&self, other: &Card) -> bool {
        self.num == other.num
    }
}

impl PartialOrd for Card {
    /// Orders two cards by the strength of their ranks; always `Some`.
    fn partial_cmp(&self, other: &Card) -> (o: Option<Ordering>) {
        self.num.partial_cmp(&other.num)
    }
}

impl vstd::std_specs::cmp::PartialOrdSpecImpl for Card {
    open spec fn obeys_partial_cmp_spec() -> bool {
        true
    }

    open spec fn partial_cmp_spec(&self, other: &Card) -> Option<Ordering> {
        Some(strength_order(self.num.strength(), other.num.strength()))
    }
}

} // verus!
