//! A hand of five cards, its classification and its place among hands.

pub mod grouping;
pub mod hands;
pub mod laws;
pub mod pairs;
pub mod rules;

pub use hands::Hands;

use crate::card::{card_of_token, Card, Number};
use crate::error::ParseError;
use crate::order::{compare_ranks, strengths_of, valid_ranks};
use crate::outside::{combinations, combinations_of, counts, occurrences};
use crate::sorting::{
    descending, lemma_ascending, lemma_ascending_reversed, lemma_descending, reverse,
    sort_by_weight, sort_heaviest_first, weights_of,
};
use crate::text::{first_where, lemma_first_where_is, split, split_at_each, texts_of};
use grouping::{
    lemma_group_key_parts, lemma_rearranged_entries, lemma_repeated_ranks, lemma_single_ranks,
    not_among, ranks_of_tallies, tallies, tally_ranks, unlisted, Tally,
};
use hands::lemma_ordinal_injective;
use pairs::{
    lemma_combination_len, lemma_combinations_len, lemma_pairs_among_grows,
    lemma_strength_occurrences, lemma_twins_of_pairs, matching_pairs, pair_views, pairs_among,
};
use rules::{
    category, group_key, hand_order, is_hand, is_wheel, one_suit, pair_count, ranks_of,
    steps_down, straight_key, strengths, tiebreak,
};
use std::cmp::Ordering;
use vstd::prelude::*;

verus! {

/// A hand of five cards. It carries its classification from the moment it
/// is made, so that comparing hands does not work it out again.
#[derive(Debug)]
pub struct Hand {
    cards: Vec<Card>,
    rank: Option<(Hands, Vec<Number>)>,
}

impl View for Hand {
    type V = Seq<Card>;

    closed spec fn view(&self) -> Seq<Card> {
        self.cards@
    }
}

/// Naming no card.
pub open spec fn names_no_card() -> spec_fn(Seq<char>) -> bool {
    |token: Seq<char>| card_of_token(token) is Err
}

/// The cards that the tokens name, in their order, or the error of the
/// first token that names none.
pub open spec fn cards_of_tokens(tokens: Seq<Seq<char>>) -> Result<Seq<Card>, ParseError> {
    let bad = first_where(tokens, names_no_card());
    if bad < tokens.len() {
        Err(card_of_token(tokens[bad as int])->Err_0)
    } else {
        Ok(Seq::new(tokens.len(), |i: int| card_of_token(tokens[i])->Ok_0))
    }
}

/// The cards of the hand that a text names. The text is cut at each space
/// and each piece read as a card; where all pieces are cards, there must be
/// five of them.
pub open spec fn hand_of_text(text: Seq<char>) -> Result<Seq<Card>, ParseError> {
    match cards_of_tokens(split(text, ' ')) {
        Err(e) => Err(e),
        Ok(cards) => if cards.len() == 5 {
            Ok(cards)
        } else {
            Err(ParseError::WrongCardCount)
        },
    }
}

/// The ranks from the strongest to the weakest.
pub fn strongest_first(ranks: Vec<Number>) -> (sorted: Vec<Number>)
    ensures
        strengths_of(sorted@) == descending(strengths_of(ranks@)),
        sorted@.to_multiset() == ranks@.to_multiset(),
        valid_ranks(ranks@) ==> valid_ranks(sorted@),
{
    let mut sorted = ranks;
    sort_heaviest_first(&mut sorted);
    proof {
        assert(weights_of(ranks@) =~= strengths_of(ranks@));
        assert(weights_of(sorted@) =~= strengths_of(sorted@));
        if valid_ranks(ranks@) {
            assert forall|i: int| 0 <= i < sorted.len() implies (#[trigger] sorted[i]).wf() by {
                let x = sorted[i];
                assert(sorted@.contains(x));
                vstd::seq_lib::to_multiset_contains(sorted@, x);
                vstd::seq_lib::to_multiset_contains(ranks@, x);
                let k = choose|k: int| 0 <= k < ranks.len() && ranks[k] == x;
                assert(ranks[k].wf());
            }
        }
    }
    sorted
}

/// Each rank is followed by its successor in the cycle of ranks.
pub open spec fn in_succession(ranks: Seq<Number>) -> bool {
    forall|i: int| 0 <= i < ranks.len() - 1 ==> (#[trigger] ranks[i]).succ_spec() == ranks[i + 1]
}

/// Whether each rank of `ranks` is followed by its successor.
fn follows_in_turn(ranks: &Vec<Number>) -> (b: bool)
    ensures
        b == in_succession(ranks@),
{
    let mut i: usize = 1;
    while i < ranks.len()
        invariant
            1 <= i,
            forall|j: int| 0 <= j < i - 1 && j < ranks.len() - 1 ==> (#[trigger] ranks[j]).succ_spec()
                == ranks[j + 1],
        decreases ranks.len() - i,
    {
        if ranks[i - 1].succ() != ranks[i] {
            return false;
        }
        i += 1;
    }
    true
}

/// Among ranks in ascending order of strength, each is followed by its
/// successor exactly where the strengths, read backwards, step down one by
/// one.
proof fn lemma_succession_steps(up: Seq<Number>)
    requires
        valid_ranks(up),
        forall|i: int, j: int| 0 <= i < j < up.len() ==> up[i].strength() <= up[j].strength(),
    ensures
        in_succession(up) <==> steps_down(strengths_of(up).reverse()),
{
    let d = strengths_of(up).reverse();
    let n = up.len() as int;
    if in_succession(up) {
        assert forall|i: int| 0 <= i < d.len() - 1 implies d[i] == #[trigger] d[i + 1] + 1 by {
            let k = n - 2 - i;
            assert(up[k].succ_spec() == up[k + 1]);
            assert(up[k].strength() <= up[k + 1].strength());
        }
    }
    if steps_down(d) {
        assert forall|i: int| 0 <= i < up.len() - 1 implies (#[trigger] up[i]).succ_spec() == up[i
            + 1] by {
            let k = n - 2 - i;
            assert(d[k] == d[k + 1] + 1);
            assert(d[k] == up[i + 1].strength());
            assert(d[k + 1] == up[i].strength());
        }
    }
}

impl Hand {
    #[verifier::type_invariant]
    spec fn well_formed(&self) -> bool {
        &&& is_hand(self.cards@)
        &&& self.rank matches Some(r) ==> {
            &&& r.0 == category(self.cards@)
            &&& strengths_of(r.1@) == tiebreak(self.cards@)
            &&& valid_ranks(r.1@)
        }
    }

    /// Reads a hand from text such as `"4S 5H 5S 5D 5C"`: five card tokens
    /// with one space between each two.
    pub fn from(value: &str) -> (r: Result<Hand, ParseError>)
        ensures
            match r {
                Ok(hand) => hand_of_text(value@) == Ok::<Seq<Card>, ParseError>(hand@),
                Err(e) => hand_of_text(value@) == Err::<Seq<Card>, ParseError>(e),
            },
            r matches Ok(hand) ==> is_hand(hand@),
    {
        let tokens = split_at_each(value, ' ');
        let ghost texts = texts_of(tokens@);
        let mut cards: Vec<Card> = Vec::new();
        let mut i: usize = 0;
        while i < tokens.len()
            invariant
                i <= tokens.len(),
                texts == texts_of(tokens@),
                texts == split(value@, ' '),
                cards.len() == i,
                forall|j: int| 0 <= j < i ==> card_of_token(texts[j]) == Ok::<Card, ParseError>(cards[j]),
                forall|j: int| 0 <= j < i ==> (#[trigger] cards[j]).wf(),
            decreases tokens.len() - i,
        {
            match Card::from(tokens[i]) {
                Ok(card) => {
                    assert(texts[i as int] == tokens[i as int]@);
                    cards.push(card);
                },
                Err(e) => {
                    proof {
                        assert(texts[i as int] == tokens[i as int]@);
                        assert forall|j: int| 0 <= j < i implies !names_no_card()(texts[j]) by {
                            assert(card_of_token(texts[j]) is Ok);
                        }
                        lemma_first_where_is(texts, names_no_card(), i as int);
                    }
                    return Err(e);
                },
            }
            i += 1;
        }
        proof {
            assert forall|j: int| 0 <= j < texts.len() implies !names_no_card()(texts[j]) by {
                assert(card_of_token(texts[j]) is Ok);
            }
            lemma_first_where_is(texts, names_no_card(), texts.len() as int);
            assert(cards@ =~= cards_of_tokens(texts)->Ok_0);
        }
        if cards.len() != 5 {
            return Err(ParseError::WrongCardCount);
        }
        let mut hand = Hand { cards, rank: None };
        let rank = hand.hand();
        hand.rank = Some(rank);
        Ok(hand)
    }

    /// The cards of the hand, in the order of the text they were read from.
    pub fn cards(&self) -> (cards: &Vec<Card>)
        ensures
            cards@ == self@,
            is_hand(self@),
    {
        proof {
            use_type_invariant(self);
        }
        &self.cards
    }

    /// The ranks of the cards, in the order of the cards.
    fn ranks(&self) -> (ranks: Vec<Number>)
        ensures
            ranks@ == ranks_of(self@),
            is_hand(self@),
            valid_ranks(ranks@),
    {
        proof {
            use_type_invariant(self);
        }
        let mut ranks: Vec<Number> = Vec::new();
        let mut i: usize = 0;
        while i < self.cards.len()
            invariant
                i <= self.cards.len(),
                ranks@ == ranks_of(self.cards@.take(i as int)),
            decreases self.cards.len() - i,
        {
            ranks.push(self.cards[i].num);
            assert(ranks@ =~= ranks_of(self.cards@.take(i + 1)));
            i += 1;
        }
        assert(self.cards@.take(i as int) =~= self.cards@);
        assert forall|i: int| 0 <= i < ranks.len() implies (#[trigger] ranks[i]).wf() by {
            assert(self.cards@[i].wf());
        }
        ranks
    }

    /// The ranks of a flush, strongest first: `Some` exactly when all five
    /// cards have one suit.
    pub fn is_flush(&self) -> (flush: Option<Vec<Number>>)
        ensures
            match flush {
                Some(key) => {
                    &&& one_suit(self@)
                    &&& strengths_of(key@) == descending(strengths(self@))
                    &&& valid_ranks(key@)
                },
                None => !one_suit(self@),
            },
    {
        let ghost cards = self.cards@;
        let mut i: usize = 1;
        while i < self.cards.len()
            invariant
                1 <= i,
                cards == self.cards@,
                forall|j: int| 0 <= j < i && j < cards.len() ==> (#[trigger] cards[j]).kind
                    == cards[0].kind,
            decreases self.cards.len() - i,
        {
            if self.cards[i - 1].kind != self.cards[i].kind {
                assert(cards[i - 1].kind != cards[i as int].kind);
                return None;
            }
            i += 1;
        }
        let ranks = self.ranks();
        Some(strongest_first(ranks))
    }

    /// The ranks of a straight, its top card first: `Some` exactly when the
    /// five ranks follow one another, the Ace above the King or below the
    /// two.
    pub fn is_straight(&self) -> (straight: Option<Vec<Number>>)
        ensures
            match straight {
                Some(key) => {
                    &&& straight_key(strengths(self@)) == Some(strengths_of(key@))
                    &&& valid_ranks(key@)
                },
                None => straight_key(strengths(self@)) is None,
            },
    {
        let mut tmp = self.ranks();
        let ghost ranks = tmp@;
        let ghost s = strengths_of(ranks);
        sort_by_weight(&mut tmp);
        let ghost up = tmp@;
        proof {
            assert(weights_of(ranks) =~= s);
            assert(weights_of(up) =~= strengths_of(up));
            lemma_ascending(s);
            lemma_ascending_reversed(s);
            assert(up.len() == 5);
            assert forall|i: int| 0 <= i < up.len() implies up[i].wf() by {
                assert(up.contains(up[i]));
                vstd::seq_lib::to_multiset_contains(up, up[i]);
                vstd::seq_lib::to_multiset_contains(ranks, up[i]);
                assert(ranks.contains(up[i]));
            }
            assert forall|i: int, j: int| 0 <= i < j < up.len() implies up[i].strength()
                <= up[j].strength() by {
                assert(strengths_of(up)[i] <= strengths_of(up)[j]);
            }
            lemma_succession_steps(up);
        }
        if follows_in_turn(&tmp) {
            reverse(&mut tmp);
            proof {
                assert(strengths_of(tmp@) =~= strengths_of(up).reverse());
                assert forall|i: int| 0 <= i < tmp.len() implies (#[trigger] tmp[i]).wf() by {
                    assert(tmp[i] == up[4 - i]);
                }
            }
            return Some(tmp);
        }
        let ace = tmp.pop().unwrap();
        if ace.0 == 1 {
            tmp.insert(0, ace);
            let ghost low = tmp@;
            let found = follows_in_turn(&tmp);
            proof {
                let d = descending(s);
                assert(d =~= strengths_of(up).reverse());
                assert(low =~= seq![up[4], up[0], up[1], up[2], up[3]]);
                assert(d.drop_first() =~= seq![d[1], d[2], d[3], d[4]]);
                if found {
                    assert(low[0].succ_spec() == low[1]);
                    assert(low[1].succ_spec() == low[2]);
                    assert(low[2].succ_spec() == low[3]);
                    assert(low[3].succ_spec() == low[4]);
                    assert(is_wheel(d));
                }
                if is_wheel(d) {
                    assert(d.drop_first()[0] == d.drop_first()[1] + 1);
                    assert(d.drop_first()[1] == d.drop_first()[2] + 1);
                    assert(d.drop_first()[2] == d.drop_first()[3] + 1);
                    assert(in_succession(low));
                }
            }
            if found {
                reverse(&mut tmp);
                proof {
                    let d = descending(s);
                    assert(strengths_of(tmp@) =~= d.drop_first().push(14));
                    assert forall|i: int| 0 <= i < tmp.len() implies (#[trigger] tmp[i]).wf() by {
                        assert(tmp[i] == low[4 - i]);
                    }
                }
                Some(tmp)
            } else {
                None
            }
        } else {
            proof {
                let d = descending(s);
                assert(d =~= strengths_of(up).reverse());
                assert(d[0] == up[4].strength());
            }
            None
        }
    }

    /// The number of pairs of cards of equal rank among the ten pairs of
    /// cards, and the key of the hand as a grouped hand: its distinct ranks,
    /// the most repeated first and the stronger first among those repeated
    /// as often.
    ///
    /// Six pairs are four of a kind, four a full house, three are three of
    /// a kind, two are two pairs and one is one pair.
    pub fn count_same_number_combination(&self) -> (found: (i32, Vec<Number>))
        ensures
            found.0 == pair_count(strengths(self@)),
            0 <= found.0 <= 10,
            strengths_of(found.1@) == group_key(strengths(self@)),
            valid_ranks(found.1@),
    {
        let ranks = self.ranks();
        let ghost s = strengths_of(ranks@);
        let pairs = combinations(&ranks, 2);
        proof {
            lemma_combination_len(ranks@, 2);
            lemma_combinations_len(ranks@);
            assert(pair_views(pairs@) =~= combinations_of(ranks@, 2));
            assert(pairs_among(5) == 10) by {
                reveal_with_fuel(pairs_among, 6);
            }
        }
        let duped = matching_pairs(&pairs);
        let count = duped.len();
        let tally = counts(&duped);
        let mut counted = tallies(&tally);
        let ghost walked = counted@;
        sort_heaviest_first(&mut counted);
        let mut nums = ranks_of_tallies(&counted);
        let ghost listed = nums@;
        let remained = unlisted(&ranks, &nums);
        proof {
            lemma_rearranged_entries(walked, counted@);
            assert forall|i: int| 0 <= i < counted.len() implies (#[trigger] counted[i]).pairs > 0
                && counted[i].pairs == pairs_among(occurrences(ranks@, counted[i].rank)) by {
                let e = counted[i];
                assert(counted@.contains(e));
                assert(walked.contains(e));
                let k = choose|k: int| 0 <= k < walked.len() && walked[k] == e;
                assert(tally@.contains_key(walked[k].rank.0));
                assert(Number(e.rank.0) == e.rank);
                lemma_twins_of_pairs(ranks@, e.rank);
            }
            assert forall|x: Number| occurrences(ranks@, x) >= 2 implies tally_ranks(
                counted@,
            ).contains(x) by {
                lemma_twins_of_pairs(ranks@, x);
                lemma_pairs_among_grows(1, occurrences(ranks@, x));
                assert(Number(x.0) == x);
                assert(tally@.contains_key(x.0));
                let e = Tally { rank: x, pairs: tally@[x.0] };
                assert(walked.contains(e));
                assert(counted@.contains(e));
                let i = choose|i: int| 0 <= i < counted.len() && counted[i] == e;
                assert(tally_ranks(counted@)[i] == x);
            }
            lemma_descending(weights_of(walked));
            lemma_repeated_ranks(ranks@, counted@);
            assert forall|i: int| 0 <= i < remained.len() implies (#[trigger] remained[i]).wf() by {
                let x = remained[i];
                assert(remained@.contains(x));
                ranks@.lemma_filter_contains_rev(not_among(listed), x);
                let k = choose|k: int| 0 <= k < ranks.len() && ranks[k] == x;
                assert(ranks[k].wf());
            }
        }
        let mut remained = strongest_first(remained);
        proof {
            lemma_single_ranks(ranks@, listed, remained@);
            lemma_group_key_parts(s, strengths_of(listed), strengths_of(remained@));
            assert(strengths_of(listed + remained@) =~= strengths_of(listed) + strengths_of(
                remained@,
            ));
            assert forall|i: int| 0 <= i < (listed + remained@).len() implies (#[trigger] (listed
                + remained@)[i]).wf() by {
                if i < listed.len() {
                    assert(tally_ranks(counted@)[i].wf());
                } else {
                    assert(remained@[i - listed.len()].wf());
                }
            }
            lemma_twins_of_pairs(ranks@, Number(1));
            lemma_strength_occurrences(ranks@, Number(1));
        }
        nums.append(&mut remained);
        (count as i32, nums)
    }

    /// The ranks of a straight flush, its top card first: `Some` exactly
    /// when the hand is a flush and a straight.
    pub fn is_straight_flush(&self) -> (found: Option<Vec<Number>>)
        ensures
            match found {
                Some(key) => {
                    &&& one_suit(self@)
                    &&& straight_key(strengths(self@)) == Some(strengths_of(key@))
                    &&& valid_ranks(key@)
                },
                None => !one_suit(self@) || straight_key(strengths(self@)) is None,
            },
    {
        match self.is_flush() {
            Some(_) => self.is_straight(),
            None => None,
        }
    }

    /// The classification of the hand: its category and the key that goes
    /// with it. It is worked out when the hand is made and kept with it.
    ///
    /// A straight or a flush is what it is whatever else the ranks show;
    /// only a hand that is neither is classified by its groups of equal
    /// ranks.
    pub fn hand(&self) -> (rank: (Hands, Vec<Number>))
        ensures
            rank.0 == category(self@),
            strengths_of(rank.1@) == tiebreak(self@),
            valid_ranks(rank.1@),
    {
        proof {
            use_type_invariant(self);
        }
        if let Some(kept) = &self.rank {
            return (kept.0, kept.1.clone());
        }
        let flush = self.is_flush();
        let straight = self.is_straight();
        let comb = self.count_same_number_combination();
        let mut def: Vec<Number> = Vec::new();
        def.push(Number(2));
        assert(strengths_of(def@) =~= seq![2int]);
        match (flush, straight, comb.0) {
            (Some(_), Some(num), _) => (Hands::StraightFlush, num),
            (None, Some(num), _) => (Hands::Straight, num),
            (Some(num), None, _) => (Hands::Flush, num),
            (_, _, 6) => (Hands::FourOfAKind, comb.1),
            (_, _, 4) => (Hands::FullHouse, comb.1),
            (_, _, 3) => (Hands::ThreeOfAKind, comb.1),
            (_, _, 2) => (Hands::TwoPair, comb.1),
            (_, _, 1) => (Hands::OnePair, comb.1),
            _ => (Hands::HighCard, def),
        }
    }

    /// How this hand stands to `other`: the higher category wins, and
    /// within a category the keys decide, the earlier position first. Two
    /// high-card hands are compared by all their ranks, strongest first.
    pub fn compare(&self, other: &Hand) -> (o: Ordering)
        ensures
            o == hand_order(self@, other@),
    {
        let sh = self.hand();
        let oh = other.hand();
        let sc = sh.0.ordinal_value();
        let oc = oh.0.ordinal_value();
        proof {
            lemma_ordinal_injective(sh.0, oh.0);
        }
        if sc < oc {
            Ordering::Less
        } else if sc > oc {
            Ordering::Greater
        } else {
            match sh.0 {
                Hands::FiveOfAKind => Ordering::Equal,
                Hands::HighCard => {
                    let sn = strongest_first(self.ranks());
                    let on = strongest_first(other.ranks());
                    compare_ranks(&sn, &on)
                },
                _ => compare_ranks(&sh.1, &oh.1),
            }
        }
    }
}

impl PartialEq for Hand {
    /// Two hands are equal when neither beats the other.
    fn eq(&self, other: &Hand) -> (same: bool) {
        matches!(self.compare(other), Ordering::Equal)
    }
}

impl vstd::std_specs::cmp::PartialEqSpecImpl for Hand {
    open spec fn obeys_eq_spec() -> bool {
        true
    }

    open spec fn eq_spec(&self, other: &Hand) -> bool {
        hand_order(self@, other@) == Ordering::Equal
    }
}

impl PartialOrd for Hand {
    /// How this hand stands to `other`; always `Some`.
    fn partial_cmp(&self, other: &Hand) -> (o: Option<Ordering>) {
        Some(self.compare(other))
    }
}

impl vstd::std_specs::cmp::PartialOrdSpecImpl for Hand {
    open spec fn obeys_partial_cmp_spec() -> bool {
        true
    }

    open spec fn partial_cmp_spec(&self, other: &Hand) -> Option<Ordering> {
        Some(hand_order(self@, other@))
    }
}

} // verus!
