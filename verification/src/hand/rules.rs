//! What a hand is worth, stated over the strengths of its cards.
//!
//! A hand has a category and a key. Between two hands the higher category
//! wins; within a category the keys are compared position by position.

use super::hands::Hands;
use super::pairs::equal_pairs;
use crate::card::number::strength_order;
use crate::card::{Card, Number};
use crate::order::{lex_order, strengths_of};
use crate::outside::occurrences;
use crate::sorting::descending;
use std::cmp::Ordering;
use vstd::prelude::*;

verus! {

/// The ranks of a sequence of cards, position by position.
pub open spec fn ranks_of(cards: Seq<Card>) -> Seq<Number> {
    Seq::new(cards.len(), |i: int| cards[i].num)
}

/// The strengths of a sequence of cards, position by position.
pub open spec fn strengths(cards: Seq<Card>) -> Seq<int> {
    strengths_of(ranks_of(cards))
}

/// Five cards, each with one of the thirteen ranks and one of the four
/// suits.
pub open spec fn is_hand(cards: Seq<Card>) -> bool {
    &&& cards.len() == 5
    &&& forall|i: int| 0 <= i < cards.len() ==> cards[i].wf()
}

/// All cards have the same suit.
pub open spec fn one_suit(cards: Seq<Card>) -> bool {
    forall|i: int, j: int|
        0 <= i < cards.len() && 0 <= j < cards.len() ==> cards[i].kind == cards[j].kind
}

/// Each position holds one more than the next.
pub open spec fn steps_down(d: Seq<int>) -> bool {
    forall|i: int| 0 <= i < d.len() - 1 ==> d[i] == #[trigger] d[i + 1] + 1
}

/// An Ace on top of a run that steps down to the two: the Ace plays low.
pub open spec fn is_wheel(d: Seq<int>) -> bool {
    &&& d.len() >= 2
    &&& d[0] == 14
    &&& d.last() == 2
    &&& steps_down(d.drop_first())
}

/// The key of a straight: the strengths in descending order where they
/// step down one by one; for an Ace that plays low, the run below it with
/// the Ace last. `None` where the strengths form no straight.
pub open spec fn straight_key(s: Seq<int>) -> Option<Seq<int>> {
    let d = descending(s);
    if steps_down(d) {
        Some(d)
    } else if is_wheel(d) {
        Some(d.drop_first().push(14))
    } else {
        None
    }
}

/// How many positions of `s` hold `v`.
pub open spec fn repeats(s: Seq<int>, v: int) -> nat {
    occurrences(s, v)
}

/// How many pairs of positions of `s` hold equal values.
pub open spec fn pair_count(s: Seq<int>) -> nat {
    equal_pairs(s)
}

/// The order of the key of a grouped hand: a strength comes before those
/// that repeat less often, and among those that repeat as often before the
/// lower ones.
pub open spec fn by_repeats(s: Seq<int>) -> spec_fn(int, int) -> bool {
    |a: int, b: int| repeats(s, a) > repeats(s, b) || (repeats(s, a) == repeats(s, b) && a >= b)
}

/// The key of a grouped hand: its distinct strengths, the most repeated
/// first and the higher first among those repeated as often.
pub open spec fn group_key(s: Seq<int>) -> Seq<int> {
    s.to_set().to_sorted_seq(by_repeats(s))
}

/// The category that a number of equal pairs stands for, where the hand is
/// neither a straight nor a flush.
pub open spec fn group_category(pairs: nat) -> Hands {
    if pairs == 6 {
        Hands::FourOfAKind
    } else if pairs == 4 {
        Hands::FullHouse
    } else if pairs == 3 {
        Hands::ThreeOfAKind
    } else if pairs == 2 {
        Hands::TwoPair
    } else if pairs == 1 {
        Hands::OnePair
    } else {
        Hands::HighCard
    }
}

/// The category of a hand. Straights and flushes are looked for first and
/// take precedence over every grouping.
pub open spec fn category(cards: Seq<Card>) -> Hands {
    let s = strengths(cards);
    if straight_key(s) is Some {
        if one_suit(cards) {
            Hands::StraightFlush
        } else {
            Hands::Straight
        }
    } else if one_suit(cards) {
        Hands::Flush
    } else {
        group_category(pair_count(s))
    }
}

/// The key that a hand carries with its category. A straight carries its
/// straight key, a flush its strengths in descending order, a grouped hand
/// its group key, and a high-card hand a fixed key that takes no part in
/// comparisons.
pub open spec fn tiebreak(cards: Seq<Card>) -> Seq<int> {
    let s = strengths(cards);
    match category(cards) {
        Hands::StraightFlush | Hands::Straight => straight_key(s).unwrap(),
        Hands::Flush => descending(s),
        Hands::HighCard => seq![2int],
        _ => group_key(s),
    }
}

/// The key by which a hand is compared with another of its category: for a
/// high-card hand all its strengths in descending order, for every other
/// hand the key it carries.
pub open spec fn contest_key(cards: Seq<Card>) -> Seq<int> {
    if category(cards) == Hands::HighCard {
        descending(strengths(cards))
    } else {
        tiebreak(cards)
    }
}

/// How hand `a` stands to hand `b`: the higher category wins, and within a
/// category the contest keys decide, the earlier position first.
pub open spec fn hand_order(a: Seq<Card>, b: Seq<Card>) -> Ordering {
    if category(a) != category(b) {
        strength_order(category(a).ordinal(), category(b).ordinal())
    } else if category(a) == Hands::FiveOfAKind {
        Ordering::Equal
    } else {
        lex_order(contest_key(a), contest_key(b))
    }
}

/// Hand `a` wins against hand `b`.
pub open spec fn beats(a: Seq<Card>, b: Seq<Card>) -> bool {
    hand_order(a, b) == Ordering::Greater
}

/// Neither of the hands `a` and `b` wins against the other.
pub open spec fn ties(a: Seq<Card>, b: Seq<Card>) -> bool {
    hand_order(a, b) == Ordering::Equal
}

} // verus!
