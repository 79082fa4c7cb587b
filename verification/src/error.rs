//! Why a piece of text is not a card or a hand.

use vstd::prelude::*;

verus! {

/// The ways in which reading a card or a hand from text can fail.
#[derive(Debug, Clone, Copy, PartialEq, Eq, Structural)]
pub enum ParseError {
    /// A card token has fewer than two characters.
    TooShort,
    /// The last character of a card token is not one of `H`, `D`, `C`, `S`.
    UnknownSuit,
    /// What precedes the suit is not one of `A`, `2` to `10`, `J`, `Q`, `K`.
    UnknownRank,
    /// Every token is a card, but there are not exactly five of them.
    WrongCardCount,
}

} // verus!
