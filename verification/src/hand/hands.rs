//! The categories of poker hands.

use crate::card::number::strength_order;
use std::cmp::Ordering;
use vstd::prelude::*;

verus! {

/// The category of a hand, from the lowest to the highest. No hand of five
/// cards is ever classified as `FiveOfAKind`: it marks the top of the scale.
#[derive(Debug, Clone, Copy, PartialEq, Eq, Structural)]
pub enum Hands {
    HighCard,
    OnePair,
    TwoPair,
    ThreeOfAKind,
    Straight,
    Flush,
    FullHouse,
    FourOfAKind,
    StraightFlush,
    FiveOfAKind,
}

impl Hands {
    /// The place of the category on the scale, 1 for the lowest.
    pub open spec fn ordinal(self) -> int {
        match self {
            Hands::HighCard => 1,
            Hands::OnePair => 2,
            Hands::TwoPair => 3,
            Hands::ThreeOfAKind => 4,
            Hands::Straight => 5,
            Hands::Flush => 6,
            Hands::FullHouse => 7,
            Hands::FourOfAKind => 8,
            Hands::StraightFlush => 9,
            Hands::FiveOfAKind => 10,
        }
    }

    /// The place of the category on the scale, as a machine integer.
    pub fn ordinal_value(&self) -> (n: u8)
        ensures
            n == self.ordinal(),
    {
        match self {
            Hands::HighCard => 1,
            Hands::OnePair => 2,
            Hands::TwoPair => 3,
            Hands::ThreeOfAKind => 4,
            Hands::Straight => 5,
            Hands::Flush => 6,
            Hands::FullHouse => 7,
            Hands::FourOfAKind => 8,
            Hands::StraightFlush => 9,
            Hands::FiveOfAKind => 10,
        }
    }
}

/// Two categories are the same exactly when they hold the same place.
pub proof fn lemma_ordinal_injective(a: Hands, b: Hands)
    ensures
        a.ordinal() == b.ordinal() <==> a == b,
        1 <= a.ordinal() <= 10,
{
}

impl PartialOrd for Hands {
    /// Orders two categories by their place on the scale; always `Some`.
    fn partial_cmp(&self, other: &Hands) -> (o: Option<Ordering>) {
        let a = self.ordinal_value();
        let b = other.ordinal_value();
        if a < b {
            Some(Ordering::Less)
        } else if a > b {
            Some(Ordering::Greater)
        } else {
            Some(Ordering::Equal)
        }
    }
}

impl vstd::std_specs::cmp::PartialOrdSpecImpl for Hands {
    open spec fn obeys_partial_cmp_spec() -> bool {
        true
    }

    open spec fn partial_cmp_spec(&self, other: &Hands) -> Option<Ordering> {
        Some(strength_order(self.ordinal(), other.ordinal()))
    }
}

} // verus!
