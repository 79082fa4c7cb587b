//! The order of hands is a total order of their categories and keys.

use super::hand_of_text;
use super::hands::{lemma_ordinal_injective, Hands};
use super::rules::{
    beats, category, contest_key, hand_order, one_suit, straight_key, strengths, tiebreak, ties,
};
use crate::card::{Card, Number};
use crate::error::ParseError;
use crate::order::{
    lemma_lex_order_equal, lemma_lex_order_flip, lemma_lex_order_transitive, strengths_of,
    valid_ranks,
};
use std::cmp::Ordering;
use vstd::prelude::*;

verus! {

/// The cards of a hand determine its classification: the category is a
/// function of the cards, and two sequences of ranks that both carry the
/// key of the cards are one sequence.
pub proof fn lemma_classification_determined(cards: Seq<Card>, a: Seq<Number>, b: Seq<Number>)
    requires
        valid_ranks(a),
        valid_ranks(b),
        strengths_of(a) == tiebreak(cards),
        strengths_of(b) == tiebreak(cards),
    ensures
        a == b,
{
    assert(a.len() == strengths_of(a).len());
    assert(b.len() == strengths_of(b).len());
    assert forall|i: int| 0 <= i < a.len() implies a[i] == b[i] by {
        assert(a[i].wf() && b[i].wf());
        assert(strengths_of(a)[i] == a[i].strength());
        assert(strengths_of(b)[i] == b[i].strength());
    }
    assert(a =~= b);
}

/// No cards are classified as five of a kind.
pub proof fn lemma_never_five_of_a_kind(cards: Seq<Card>)
    ensures
        category(cards) != Hands::FiveOfAKind,
{
}

/// A flush is a flush whatever groups its ranks form: cards of one suit
/// are a straight flush where they form a straight, and a flush where they
/// do not.
pub proof fn lemma_flush_takes_precedence(cards: Seq<Card>)
    requires
        one_suit(cards),
    ensures
        category(cards) == if straight_key(strengths(cards)) is Some {
            Hands::StraightFlush
        } else {
            Hands::Flush
        },
{
}

/// Reading one text twice gives two hands that tie.
pub proof fn lemma_same_text_ties(text: Seq<char>, a: Seq<Card>, b: Seq<Card>)
    requires
        hand_of_text(text) == Ok::<Seq<Card>, ParseError>(a),
        hand_of_text(text) == Ok::<Seq<Card>, ParseError>(b),
    ensures
        a == b,
        ties(a, b),
{
    lemma_hand_order_reflexive(a);
}

/// Every hand ties with itself.
pub proof fn lemma_hand_order_reflexive(a: Seq<Card>)
    ensures
        hand_order(a, a) == Ordering::Equal,
{
    lemma_lex_order_equal(contest_key(a), contest_key(a));
}

/// Two hands tie exactly when they have one category and one contest key
/// (or are both five of a kind).
pub proof fn lemma_hand_order_equal(a: Seq<Card>, b: Seq<Card>)
    ensures
        hand_order(a, b) == Ordering::Equal <==> category(a) == category(b) && (category(a)
            == Hands::FiveOfAKind || contest_key(a) == contest_key(b)),
{
    lemma_lex_order_equal(contest_key(a), contest_key(b));
    lemma_ordinal_injective(category(a), category(b));
}

/// Where `a` loses to `b`, `b` wins against `a`, and the other way round;
/// where they tie, they tie both ways.
pub proof fn lemma_hand_order_antisymmetric(a: Seq<Card>, b: Seq<Card>)
    ensures
        hand_order(a, b) == Ordering::Less <==> hand_order(b, a) == Ordering::Greater,
        hand_order(a, b) == Ordering::Greater <==> hand_order(b, a) == Ordering::Less,
        hand_order(a, b) == Ordering::Equal <==> hand_order(b, a) == Ordering::Equal,
{
    lemma_lex_order_flip(contest_key(a), contest_key(b));
    lemma_ordinal_injective(category(a), category(b));
}

/// Where `a` does not win against `b` nor `b` against `c`, `a` does not win
/// against `c`; and `a` loses to `c` as soon as it loses to `b` or `b` to
/// `c`.
pub proof fn lemma_hand_order_transitive(a: Seq<Card>, b: Seq<Card>, c: Seq<Card>)
    requires
        hand_order(a, b) != Ordering::Greater,
        hand_order(b, c) != Ordering::Greater,
    ensures
        hand_order(a, c) != Ordering::Greater,
        hand_order(a, b) == Ordering::Less || hand_order(b, c) == Ordering::Less ==> hand_order(a, c)
            == Ordering::Less,
{
    lemma_ordinal_injective(category(a), category(b));
    lemma_ordinal_injective(category(b), category(c));
    lemma_ordinal_injective(category(a), category(c));
    if category(a) == category(b) && category(b) == category(c) && category(a)
        != Hands::FiveOfAKind {
        lemma_lex_order_transitive(contest_key(a), contest_key(b), contest_key(c));
    }
}

/// No hand beats itself.
pub proof fn lemma_ties_with_itself(a: Seq<Card>)
    ensures
        ties(a, a),
        !beats(a, a),
{
    lemma_hand_order_reflexive(a);
}

/// A hand that ties with one that no hand of `all` beats is beaten by no
/// hand of `all` either; and a hand that no hand of `all` beats ties with
/// every such hand of `all`.
pub proof fn lemma_ties_with_best(all: Seq<Seq<Card>>, best: Seq<Card>, a: Seq<Card>)
    requires
        forall|j: int| 0 <= j < all.len() ==> !beats(#[trigger] all[j], best),
        all.contains(best),
        all.contains(a),
    ensures
        ties(a, best) <==> forall|j: int| 0 <= j < all.len() ==> !beats(#[trigger] all[j], a),
{
    lemma_hand_order_antisymmetric(a, best);
    if ties(a, best) {
        assert forall|j: int| 0 <= j < all.len() implies !beats(#[trigger] all[j], a) by {
            lemma_hand_order_antisymmetric(best, a);
            lemma_hand_order_transitive(all[j], best, a);
        }
    }
    if forall|j: int| 0 <= j < all.len() ==> !beats(#[trigger] all[j], a) {
        let i = choose|i: int| 0 <= i < all.len() && all[i] == best;
        let k = choose|k: int| 0 <= k < all.len() && all[k] == a;
        assert(!beats(all[i], a));
        assert(!beats(all[k], best));
    }
}

} // verus!
