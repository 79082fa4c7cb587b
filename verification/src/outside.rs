//! Choosing and counting, done by the `itertools` crate.

use crate::card::{Card, Number};
use crate::hand::rules::{beats, ties};
use crate::hand::Hand;
use itertools::Itertools;
use std::collections::HashMap;
use vstd::prelude::*;

verus! {

/// Each sequence of `tails` with `head` put in front of it.
pub open spec fn prefixed<T>(head: T, tails: Seq<Seq<T>>) -> Seq<Seq<T>> {
    Seq::new(tails.len(), |i: int| seq![head] + tails[i])
}

/// All ways to choose `k` items of `s`, each choice keeping the order of
/// `s`, listed in lexicographic order of the chosen positions: first the
/// choices that take the first item, then those that leave it.
pub open spec fn combinations_of<T>(s: Seq<T>, k: nat) -> Seq<Seq<T>>
    decreases s.len(),
{
    if k == 0 {
        seq![Seq::empty()]
    } else if s.len() == 0 {
        Seq::empty()
    } else {
        prefixed(s[0], combinations_of(s.drop_first(), (k - 1) as nat)) + combinations_of(
            s.drop_first(),
            k,
        )
    }
}

/// Being the item `x`.
pub open spec fn is_item<T>(x: T) -> spec_fn(T) -> bool {
    |y: T| y == x
}

/// How often `x` stands in `s`.
pub open spec fn occurrences<T>(s: Seq<T>, x: T) -> nat {
    s.filter(is_item(x)).len()
}

/// The `k`-item combinations of `items`, by `Itertools::combinations`, which
/// lists them in lexicographic order of the chosen positions and keeps the
/// items of each in the order in which they stand in `items`.
#[verifier::external_body]
pub(crate) fn combinations(items: &Vec<Number>, k: usize) -> (chosen: Vec<Vec<Number>>)
    ensures
        chosen@.len() == combinations_of(items@, k as nat).len(),
        forall|i: int|
            0 <= i < chosen@.len() ==> (#[trigger] chosen@[i])@ == combinations_of(
                items@,
                k as nat,
            )[i],
{
    items.iter().copied().combinations(k).collect()
}

/// How often each raw rank value stands in `items`, by `Itertools::counts`:
/// the map holds the values that occur, each with the number of times it
/// occurs.
#[verifier::external_body]
pub(crate) fn counts(items: &Vec<Number>) -> (tally: HashMap<u8, usize>)
    ensures
        forall|k: u8| #[trigger] tally@.contains_key(k) <==> occurrences(items@, Number(k)) > 0,
        forall|k: u8| #[trigger]
            tally@.contains_key(k) ==> tally@[k] == occurrences(items@, Number(k)),
{
    items.iter().map(|n| n.0).counts()
}

/// The cards of the hand at a position of `hands`.
pub open spec fn cards_at(hands: Seq<Hand>, position: usize) -> Seq<Card> {
    hands[position as int]@
}

/// The positions of `hands` in ascending order of the hands, by
/// `Itertools::sorted_by`: every position stands in the result, none comes
/// before the position of a hand that its own hand beats, and the positions
/// of hands that tie keep their order, the sort being stable.
///
/// The comparison handed to the sort is a total order of the hands, so that
/// the sort neither panics nor leaves the order open.
#[verifier::external_body]
pub(crate) fn sorted_by_rank(hands: &Vec<Hand>) -> (order: Vec<usize>)
    ensures
        order.len() == hands.len(),
        forall|i: int| 0 <= i < order.len() ==> (#[trigger] order[i]) < hands.len(),
        forall|k: usize| k < hands.len() ==> #[trigger] order@.contains(k),
        forall|i: int, j: int|
            0 <= i < j < order.len() ==> !beats(
                cards_at(hands@, #[trigger] order[i]),
                cards_at(hands@, #[trigger] order[j]),
            ),
        forall|i: int, j: int|
            0 <= i < j < order.len() && ties(
                cards_at(hands@, #[trigger] order[i]),
                cards_at(hands@, #[trigger] order[j]),
            ) ==> order[i] < order[j],
{
    hands.iter().enumerate().sorted_by(|a, b| a.1.compare(b.1)).map(|a| a.0).collect()
}

} // verus!
