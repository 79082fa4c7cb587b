//! The rank of a card.

use crate::error::ParseError;
use std::cmp::Ordering;
use vstd::prelude::*;
use vstd::string::*;

verus! {

/// The rank of a card: 1 is the Ace, 2 to 10 the pip cards, 11 the Jack,
/// 12 the Queen and 13 the King.
#[derive(Debug, Clone, Copy, Hash, PartialEq, Eq, Structural)]
pub struct Number(pub u8);

impl Number {
    /// The raw value is one of the thirteen ranks.
    pub open spec fn wf(self) -> bool {
        1 <= self.0 <= 13
    }

    /// The value a rank has when ranks are compared: the Ace counts as 14,
    /// above the King.
    pub open spec fn strength(self) -> int {
        if self.0 == 1 {
            14
        } else {
            self.0 as int
        }
    }

    /// The rank that follows `self` in the cycle A, 2, ..., K, A.
    pub open spec fn succ_spec(&self) -> Number {
        Number(((self.0 % 13) + 1) as u8)
    }

    /// The rank that follows this one; after the King comes the Ace. This
    /// is one step of the wrapping addition, and has no part in the order
    /// of ranks, where the Ace stands above the King.
    #[verifier::when_used_as_spec(succ_spec)]
    pub fn succ(&self) -> (next: Number)
        ensures
            next == self.succ_spec(),
            next == wrapped_sum(self.0, 1),
            next.wf(),
    {
        *self + 1u8
    }

    /// Reads a rank from its token: `A`, `2` to `10`, `J`, `Q` or `K`, and
    /// nothing else.
    pub fn from(value: &str) -> (r: Result<Number, ParseError>)
        ensures
            r == match rank_of_token(value@) {
                Some(n) => Ok::<Number, ParseError>(n),
                None => Err(ParseError::UnknownRank),
            },
            r matches Ok(n) ==> n.wf(),
    {
        let len = value.unicode_len();
        let found: Option<u8> = if len == 1 {
            face_value(value.get_char(0))
        } else if len == 2 && value.get_char(0) == '1' && value.get_char(1) == '0' {
            Some(10)
        } else {
            None
        };
        proof {
            lemma_rank_tokens_distinct();
            let table = rank_tokens();
            match found {
                Some(v) => {
                    assert(table[v - 1] =~= value@);
                },
                None => {
                    assert forall|i: int| 0 <= i < table.len() implies table[i] != value@ by {
                        if table[i] == value@ {
                            assert(table[i].len() == len);
                            assert(table[i][0] == value@[0]);
                        }
                    }
                },
            }
        }
        match found {
            Some(v) => Ok(Number(v)),
            None => Err(ParseError::UnknownRank),
        }
    }

    /// The strength of the rank as a machine integer.
    pub fn strength_value(&self) -> (v: u8)
        ensures
            v == self.strength(),
    {
        if self.0 == 1 {
            14
        } else {
            self.0
        }
    }

    /// Orders two ranks by strength, Ace high.
    pub fn cmp(&self, other: &Number) -> (o: Ordering)
        ensures
            o == strength_order(self.strength(), other.strength()),
    {
        let sn: u8 = self.strength_value();
        let on: u8 = other.strength_value();
        if sn < on {
            Ordering::Less
        } else if sn > on {
            Ordering::Greater
        } else {
            Ordering::Equal
        }
    }
}

/// The thirteen rank tokens: the token of rank `r` stands at position `r - 1`.
pub open spec fn rank_tokens() -> Seq<Seq<char>> {
    seq![
        seq!['A'],
        seq!['2'],
        seq!['3'],
        seq!['4'],
        seq!['5'],
        seq!['6'],
        seq!['7'],
        seq!['8'],
        seq!['9'],
        seq!['1', '0'],
        seq!['J'],
        seq!['Q'],
        seq!['K'],
    ]
}

/// The rank that a token names: one more than the token's position among
/// the rank tokens, or nothing where it is none of them.
pub open spec fn rank_of_token(token: Seq<char>) -> Option<Number> {
    if rank_tokens().contains(token) {
        Some(Number((rank_tokens().index_of(token) + 1) as u8))
    } else {
        None
    }
}

/// No token stands twice among the rank tokens.
pub proof fn lemma_rank_tokens_distinct()
    ensures
        rank_tokens().len() == 13,
        rank_tokens().no_duplicates(),
{
    let table = rank_tokens();
    assert forall|i: int, j: int|
        0 <= i < table.len() && 0 <= j < table.len() && i != j implies table[i] != table[j] by {
        if table[i] == table[j] {
            assert(table[i].len() == table[j].len());
            assert(table[i][0] == table[j][0]);
        }
    }
}

/// The raw value of the rank that the one-character token `c` names.
fn face_value(c: char) -> (v: Option<u8>)
    ensures
        v matches Some(n) ==> 1 <= n <= 13 && rank_tokens()[n - 1] == seq![c],
        v is None ==> !rank_tokens().contains(seq![c]),
{
    let v: Option<u8> = match c {
        'A' => Some(1),
        '2' => Some(2),
        '3' => Some(3),
        '4' => Some(4),
        '5' => Some(5),
        '6' => Some(6),
        '7' => Some(7),
        '8' => Some(8),
        '9' => Some(9),
        'J' => Some(11),
        'Q' => Some(12),
        'K' => Some(13),
        _ => None,
    };
    proof {
        lemma_rank_tokens_distinct();
        let table = rank_tokens();
        match v {
            Some(n) => {
                assert(table[n - 1] =~= seq![c]);
            },
            None => {
                assert forall|i: int| 0 <= i < table.len() implies table[i] != seq![c] by {
                    if table[i] == seq![c] {
                        assert(table[i].len() == 1);
                        assert(table[i][0] == c);
                    }
                }
            },
        }
    }
    v
}

/// How two integers stand to each other.
pub open spec fn strength_order(a: int, b: int) -> Ordering {
    if a < b {
        Ordering::Less
    } else if a > b {
        Ordering::Greater
    } else {
        Ordering::Equal
    }
}

/// The rank reached from raw value `a` by `b` steps round the cycle of
/// thirteen ranks.
pub open spec fn wrapped_sum(a: u8, b: u8) -> Number {
    if (a + b) % 13 == 0 {
        Number(13)
    } else {
        Number(((a + b) % 13) as u8)
    }
}

impl core::ops::Add for Number {
    type Output = Number;

    /// Adds two ranks round the cycle: the sum of the raw values modulo 13,
    /// with 13 in place of 0.
    fn add(self, rhs: Number) -> (sum: Number)
        ensures
            sum.wf(),
    {
        let wide: u16 = (self.0 as u16 + rhs.0 as u16) % 13;
        if wide == 0 {
            Number(13)
        } else {
            Number(wide as u8)
        }
    }
}

impl vstd::std_specs::ops::AddSpecImpl for Number {
    open spec fn obeys_add_spec() -> bool {
        true
    }

    open spec fn add_req(self, rhs: Number) -> bool {
        true
    }

    open spec fn add_spec(self, rhs: Number) -> Number {
        wrapped_sum(self.0, rhs.0)
    }
}

impl core::ops::Add<u8> for Number {
    type Output = Number;

    /// Steps `rhs` ranks forward round the cycle.
    fn add(self, rhs: u8) -> (sum: Number)
        ensures
            sum.wf(),
    {
        self + Number(rhs)
    }
}

impl vstd::std_specs::ops::AddSpecImpl<u8> for Number {
    open spec fn obeys_add_spec() -> bool {
        true
    }

    open spec fn add_req(self, rhs: u8) -> bool {
        true
    }

    open spec fn add_spec(self, rhs: u8) -> Number {
        wrapped_sum(self.0, rhs)
    }
}

impl PartialOrd for Number {
    /// Orders two ranks by strength, Ace high; always `Some`.
    fn partial_cmp(&self, other: &Number) -> (o: Option<Ordering>) {
        Some(self.cmp(other))
    }
}

impl vstd::std_specs::cmp::PartialOrdSpecImpl for Number {
    open spec fn obeys_partial_cmp_spec() -> bool {
        true
    }

    open spec fn partial_cmp_spec(&self, other: &Number) -> Option<Ordering> {
        Some(strength_order(self.strength(), other.strength()))
    }
}

} // verus!
