//! The suit of a card.

use crate::error::ParseError;
use vstd::prelude::*;
use vstd::string::*;

verus! {

/// The suit of a card. No card read from text is a `Joker`.
#[derive(Debug, Clone, Copy, PartialEq, Eq, Structural)]
pub enum Kind2 {
    Heart,
    Diamond,
    Clover,
    Spade,
    Joker,
}

/// The suit that a token names: `H`, `D`, `C` and `S` name the four suits,
/// and nothing else names one.
pub open spec fn suit_of_token(token: Seq<char>) -> Option<Kind2> {
    if token == seq!['H'] {
        Some(Kind2::Heart)
    } else if token == seq!['D'] {
        Some(Kind2::Diamond)
    } else if token == seq!['C'] {
        Some(Kind2::Clover)
    } else if token == seq!['S'] {
        Some(Kind2::Spade)
    } else {
        None
    }
}

impl Kind2 {
    /// The group a suit belongs to: Hearts go with Diamonds, Clovers with
    /// Spades, and the Joker stands alone.
    pub open spec fn group(self) -> int {
        match self {
            Kind2::Heart | Kind2::Diamond => 0,
            Kind2::Clover | Kind2::Spade => 1,
            Kind2::Joker => 2,
        }
    }

    /// Reads a suit from its one-letter token.
    pub fn from(value: &str) -> (r: Result<Kind2, ParseError>)
        ensures
            r == match suit_of_token(value@) {
                Some(kind) => Ok::<Kind2, ParseError>(kind),
                None => Err(ParseError::UnknownSuit),
            },
            r matches Ok(kind) ==> kind != Kind2::Joker,
    {
        if value.unicode_len() != 1 {
            return Err(ParseError::UnknownSuit);
        }
        let c = value.get_char(0);
        assert(value@ =~= seq![c]);
        match c {
            'H' => Ok(Kind2::Heart),
            'D' => Ok(Kind2::Diamond),
            'C' => Ok(Kind2::Clover),
            'S' => Ok(Kind2::Spade),
            _ => {
                assert(seq!['H'][0] == 'H' && seq!['D'][0] == 'D' && seq!['C'][0] == 'C' && seq!['S'][0] == 'S');
                Err(ParseError::UnknownSuit)
            },
        }
    }

    /// Whether two suits belong to the same group. This is a looser relation
    /// than equality of suits; a flush asks for equal suits, not for this.
    pub fn eq_suit(&self, rhs: &Kind2) -> (same: bool)
        ensures
            same == (self.group() == rhs.group()),
    {
        match self {
            Kind2::Heart | Kind2::Diamond => matches!(rhs, Kind2::Heart | Kind2::Diamond),
            Kind2::Clover | Kind2::Spade => matches!(rhs, Kind2::Clover | Kind2::Spade),
            Kind2::Joker => matches!(rhs, Kind2::Joker),
        }
    }
}

} // verus!
