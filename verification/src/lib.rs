//! Ranking of five-card poker hands.
//!
//! A hand is read from text such as `"4S 5H 5S 5D 5C"`, classified into a
//! category with a tie-break key, and ordered against other hands.
//! [`winning_hands`] picks, from a list of hands, those that tie for best.

pub mod card;
pub mod error;
pub mod hand;
pub mod order;
pub mod outside;
pub mod sorting;
pub mod text;

pub use card::{Card, Kind2, Number};
pub use error::ParseError;
pub use hand::{Hand, Hands};

use hand::laws::{
    lemma_hand_order_antisymmetric, lemma_hand_order_transitive, lemma_ties_with_best,
    lemma_ties_with_itself,
};
use hand::hand_of_text;
use hand::rules::{beats, ties};
use outside::{cards_at, sorted_by_rank};
use text::{first_where, lemma_first_where_is};
use vstd::prelude::*;

verus! {

/// The texts of the hands, position by position.
pub open spec fn hand_texts(hands: Seq<&str>) -> Seq<Seq<char>> {
    Seq::new(hands.len(), |i: int| hands[i]@)
}

/// Naming no hand.
pub open spec fn names_no_hand() -> spec_fn(Seq<char>) -> bool {
    |text: Seq<char>| hand_of_text(text) is Err
}

/// The hands that the texts name, position by position.
pub open spec fn hands_of(texts: Seq<Seq<char>>) -> Seq<Seq<Card>> {
    Seq::new(texts.len(), |i: int| hand_of_text(texts[i])->Ok_0)
}

/// Naming a hand that none of the hands named by `texts` beats.
pub open spec fn wins_among<'a>(texts: Seq<Seq<char>>) -> spec_fn(&'a str) -> bool {
    |text: &'a str|
        forall|j: int|
            0 <= j < texts.len() ==> !beats(
                #[trigger] hands_of(texts)[j],
                hand_of_text(text@)->Ok_0,
            )
}

/// What `winning_hands` owes for the given texts: the error of the first
/// text that names no hand, or else the texts whose hand no other hand
/// beats, in the order of the list.
pub open spec fn winners<'a>(hands: Seq<&'a str>) -> Result<Seq<&'a str>, ParseError> {
    let texts = hand_texts(hands);
    let bad = first_where(texts, names_no_hand());
    if bad < texts.len() {
        Err(hand_of_text(texts[bad as int])->Err_0)
    } else {
        Ok(hands.filter(wins_among(texts)))
    }
}

/// Hands that tie win together: of two texts whose hands tie, either both
/// are winners or neither is.
pub proof fn lemma_tied_hands_win_together<'a>(hands: Seq<&'a str>, i: int, j: int)
    requires
        winners(hands) is Ok,
        0 <= i < hands.len(),
        0 <= j < hands.len(),
        ties(hands_of(hand_texts(hands))[i], hands_of(hand_texts(hands))[j]),
    ensures
        wins_among(hand_texts(hands))(hands[i]) <==> wins_among(hand_texts(hands))(hands[j]),
{
    let texts = hand_texts(hands);
    let all = hands_of(texts);
    let a = all[i];
    let b = all[j];
    assert(texts[i] == hands[i]@ && texts[j] == hands[j]@);
    lemma_hand_order_antisymmetric(a, b);
    if wins_among(texts)(hands[i]) {
        assert forall|k: int| 0 <= k < texts.len() implies !beats(#[trigger] all[k], b) by {
            assert(!beats(all[k], a));
            lemma_hand_order_transitive(all[k], a, b);
        }
    }
    if wins_among(texts)(hands[j]) {
        assert forall|k: int| 0 <= k < texts.len() implies !beats(#[trigger] all[k], a) by {
            assert(!beats(all[k], b));
            lemma_hand_order_transitive(all[k], b, a);
        }
    }
}

/// Given a list of poker hands, returns those that win: every hand that no
/// other hand of the list beats, in the order of the list. The texts handed
/// back are the ones handed in.
///
/// Where a text names no hand, the error of the first such text is
/// returned and no hand is judged.
pub fn winning_hands<'a>(hands_strs: &[&'a str]) -> (r: Result<Vec<&'a str>, ParseError>)
    ensures
        match r {
            Ok(won) => winners(hands_strs@) == Ok::<Seq<&str>, ParseError>(won@),
            Err(e) => winners(hands_strs@) == Err::<Seq<&str>, ParseError>(e),
        },
        r matches Ok(won) ==> (won.len() == 0 <==> hands_strs.len() == 0),
{
    let ghost texts = hand_texts(hands_strs@);
    let n = hands_strs.len();
    let mut hands: Vec<Hand> = Vec::new();
    let mut i: usize = 0;
    while i < n
        invariant
            n == hands_strs.len(),
            i <= n,
            texts == hand_texts(hands_strs@),
            hands.len() == i,
            forall|j: int|
                0 <= j < i ==> hand_of_text(texts[j]) == Ok::<Seq<Card>, ParseError>(
                    (#[trigger] hands[j])@,
                ),
        decreases n - i,
    {
        match Hand::from(hands_strs[i]) {
            Ok(hand) => {
                assert(texts[i as int] == hands_strs[i as int]@);
                hands.push(hand);
            },
            Err(e) => {
                proof {
                    assert(texts[i as int] == hands_strs[i as int]@);
                    assert forall|j: int| 0 <= j < i implies !names_no_hand()(texts[j]) by {
                        assert(hand_of_text(texts[j]) == Ok::<Seq<Card>, ParseError>(hands[j]@));
                    }
                    lemma_first_where_is(texts, names_no_hand(), i as int);
                }
                return Err(e);
            },
        }
        i += 1;
    }
    let ghost all = hands_of(texts);
    proof {
        assert forall|j: int| 0 <= j < texts.len() implies !names_no_hand()(texts[j]) by {
            assert(hand_of_text(texts[j]) == Ok::<Seq<Card>, ParseError>(hands[j]@));
        }
        lemma_first_where_is(texts, names_no_hand(), texts.len() as int);
        reveal(Seq::filter);
        assert(hands_strs@.take(0) =~= Seq::<&str>::empty());
    }
    let mut won: Vec<&'a str> = Vec::new();
    if n == 0 {
        assert(hands_strs@ =~= Seq::<&str>::empty());
        return Ok(won);
    }
    let order = sorted_by_rank(&hands);
    let max = order[n - 1];
    proof {
        assert forall|j: int| 0 <= j < all.len() implies hands[j]@ == #[trigger] all[j] by {
            assert(hand_of_text(texts[j]) == Ok::<Seq<Card>, ParseError>(hands[j]@));
        }
        assert forall|j: int| 0 <= j < all.len() implies !beats(#[trigger] all[j], all[max as int]) by {
            let k = j as usize;
            assert(order@.contains(k));
            let p = choose|p: int| 0 <= p < order.len() && order[p] == k;
            if p < n - 1 {
                assert(!beats(cards_at(hands@, order[p]), cards_at(hands@, order[n - 1])));
            } else {
                lemma_ties_with_itself(all[j]);
            }
        }
        assert(all.contains(all[max as int]));
    }
    let mut i: usize = 0;
    while i < n
        invariant
            n == hands_strs.len(),
            n == hands.len(),
            i <= n,
            max < n,
            texts == hand_texts(hands_strs@),
            all == hands_of(texts),
            all.len() == n,
            forall|j: int| 0 <= j < all.len() ==> hands[j]@ == #[trigger] all[j],
            forall|j: int| 0 <= j < all.len() ==> !beats(#[trigger] all[j], all[max as int]),
            won@ == hands_strs@.take(i as int).filter(wins_among(texts)),
            i > max ==> won.len() > 0,
        decreases n - i,
    {
        proof {
            let text = hands_strs[i as int];
            assert(hands_strs@.take(i + 1) =~= hands_strs@.take(i as int).push(text));
            hands_strs@.take(i as int).lemma_filter_push(text, wins_among(texts));
            assert(texts[i as int] == text@);
            assert(all[i as int] == hand_of_text(text@)->Ok_0);
            assert(all.contains(all[i as int]));
            assert(all.contains(all[max as int]));
            lemma_ties_with_best(all, all[max as int], all[i as int]);
        }
        if hands[i] == hands[max] {
            won.push(hands_strs[i]);
        }
        i += 1;
    }
    assert(hands_strs@.take(i as int) =~= hands_strs@);
    Ok(won)
}

} // verus!
