//! Sorting by weight.
//!
//! Whatever has an integer weight can be put in order of weight. Ranks
//! weigh their strength; the hand module weighs a rank together with the
//! number of pairs it forms.

use crate::card::Number;
use vstd::prelude::*;
use vstd::relations::{sorted_by, total_ordering};
use vstd::seq_lib::lemma_sorted_unique;

verus! {

/// An item with an integer weight by which it is ordered.
pub trait Weighted: Copy {
    /// The weight of the item.
    spec fn weight(&self) -> int;

    /// Whether this item weighs no more than `other`.
    fn no_heavier(&self, other: &Self) -> (b: bool)
        ensures
            b == (self.weight() <= other.weight()),
    ;
}

impl Weighted for Number {
    open spec fn weight(&self) -> int {
        self.strength()
    }

    fn no_heavier(&self, other: &Number) -> (b: bool) {
        self.strength_value() <= other.strength_value()
    }
}

/// The weights of a sequence of items, position by position.
pub open spec fn weights_of<T: Weighted>(items: Seq<T>) -> Seq<int> {
    Seq::new(items.len(), |i: int| items[i].weight())
}

/// The integers of `s` from the least to the greatest.
pub open spec fn ascending(s: Seq<int>) -> Seq<int> {
    s.sort_by(|a: int, b: int| a <= b)
}

/// The integers of `s` from the greatest to the least.
pub open spec fn descending(s: Seq<int>) -> Seq<int> {
    s.sort_by(|a: int, b: int| a >= b)
}

/// No position of `s` holds more than a later one.
pub open spec fn is_ascending(s: Seq<int>) -> bool {
    forall|i: int, j: int| 0 <= i < j < s.len() ==> s[i] <= s[j]
}

/// No position of `s` holds less than a later one.
pub open spec fn is_descending(s: Seq<int>) -> bool {
    forall|i: int, j: int| 0 <= i < j < s.len() ==> s[i] >= s[j]
}

/// `ascending(s)` is the one rearrangement of `s` that ascends.
pub proof fn lemma_ascending(s: Seq<int>)
    ensures
        is_ascending(ascending(s)),
        ascending(s).to_multiset() == s.to_multiset(),
        ascending(s).len() == s.len(),
        forall|r: Seq<int>| is_ascending(r) && r.to_multiset() == s.to_multiset() ==> r == ascending(s),
{
    let leq = |a: int, b: int| a <= b;
    assert(total_ordering(leq));
    s.lemma_sort_by_ensures(leq);
    let sorted = ascending(s);
    assert(is_ascending(sorted)) by {
        assert forall|i: int, j: int| 0 <= i < j < sorted.len() implies sorted[i] <= sorted[j] by {
            assert(leq(sorted[i], sorted[j]));
        }
    }
    vstd::seq_lib::to_multiset_len(s);
    vstd::seq_lib::to_multiset_len(sorted);
    assert forall|r: Seq<int>| is_ascending(r) && r.to_multiset() == s.to_multiset() implies r
        == ascending(s) by {
        assert(sorted_by(r, leq)) by {
            assert forall|i: int, j: int| 0 <= i < j < r.len() implies #[trigger] leq(r[i], r[j]) by {
                assert(r[i] <= r[j]);
            }
        }
        lemma_sorted_unique(r, sorted, leq);
    }
}

/// `descending(s)` is the one rearrangement of `s` that descends.
pub proof fn lemma_descending(s: Seq<int>)
    ensures
        is_descending(descending(s)),
        descending(s).to_multiset() == s.to_multiset(),
        descending(s).len() == s.len(),
        forall|r: Seq<int>|
            is_descending(r) && r.to_multiset() == s.to_multiset() ==> r == descending(s),
{
    let geq = |a: int, b: int| a >= b;
    assert(total_ordering(geq));
    s.lemma_sort_by_ensures(geq);
    let sorted = descending(s);
    assert(is_descending(sorted)) by {
        assert forall|i: int, j: int| 0 <= i < j < sorted.len() implies sorted[i] >= sorted[j] by {
            assert(geq(sorted[i], sorted[j]));
        }
    }
    vstd::seq_lib::to_multiset_len(s);
    vstd::seq_lib::to_multiset_len(sorted);
    assert forall|r: Seq<int>| is_descending(r) && r.to_multiset() == s.to_multiset() implies r
        == descending(s) by {
        assert(sorted_by(r, geq)) by {
            assert forall|i: int, j: int| 0 <= i < j < r.len() implies #[trigger] geq(r[i], r[j]) by {
                assert(r[i] >= r[j]);
            }
        }
        lemma_sorted_unique(r, sorted, geq);
    }
}

/// Read backwards, the ascending arrangement is the descending one.
pub proof fn lemma_ascending_reversed(s: Seq<int>)
    ensures
        ascending(s).reverse() == descending(s),
{
    lemma_ascending(s);
    lemma_descending(s);
    let up = ascending(s);
    up.lemma_reverse_to_multiset();
    assert(is_descending(up.reverse()));
}

/// Exchanging two positions of a sequence leaves its multiset as it was.
pub proof fn lemma_exchange<A>(s: Seq<A>, i: int, j: int)
    requires
        0 <= i < s.len(),
        0 <= j < s.len(),
    ensures
        s.update(i, s[j]).update(j, s[i]).to_multiset() == s.to_multiset(),
{
    broadcast use vstd::multiset::group_multiset_axioms;

    vstd::seq_lib::to_multiset_update(s, i, s[j]);
    vstd::seq_lib::to_multiset_update(s.update(i, s[j]), j, s[i]);
    vstd::seq_lib::to_multiset_contains(s, s[i]);
    vstd::seq_lib::to_multiset_contains(s, s[j]);
    assert(s.contains(s[i]));
    assert(s.contains(s[j]));
    assert(s.update(i, s[j]).update(j, s[i]).to_multiset() =~= s.to_multiset());
}

/// Puts the items of `v` in order of weight, the lightest first.
pub fn sort_by_weight<T: Weighted>(v: &mut Vec<T>)
    ensures
        final(v)@.to_multiset() == old(v)@.to_multiset(),
        weights_of(final(v)@) == ascending(weights_of(old(v)@)),
{
    let ghost before = v@;
    let n = v.len();
    let mut i: usize = 0;
    while i < n
        invariant
            n == v.len(),
            i <= n,
            v@.to_multiset() == before.to_multiset(),
            weights_of(v@).to_multiset() == weights_of(before).to_multiset(),
            forall|a: int, b: int| 0 <= a < b < i ==> v[a].weight() <= v[b].weight(),
        decreases n - i,
    {
        let mut j: usize = i;
        while j > 0 && !v[j - 1].no_heavier(&v[j])
            invariant
                n == v.len(),
                j <= i < n,
                v@.to_multiset() == before.to_multiset(),
                weights_of(v@).to_multiset() == weights_of(before).to_multiset(),
                forall|a: int, b: int| 0 <= a < b <= i && a != j && b != j ==> v[a].weight() <= v[b].weight(),
                forall|b: int| j < b <= i ==> v[j as int].weight() <= v[b].weight(),
            decreases j,
        {
            let ghost prior = v@;
            let lower = v[j - 1];
            let upper = v[j];
            v.set(j - 1, upper);
            v.set(j, lower);
            proof {
                lemma_exchange(prior, j - 1, j as int);
                lemma_exchange(weights_of(prior), j - 1, j as int);
                assert(weights_of(v@) =~= weights_of(prior).update(j - 1, weights_of(prior)[j as int]).update(
                    j as int,
                    weights_of(prior)[j - 1],
                ));
            }
            j -= 1;
        }
        i += 1;
    }
    proof {
        let sorted = weights_of(v@);
        assert(is_ascending(sorted));
        lemma_ascending(weights_of(before));
    }
}

/// Puts the items of `v` in order of weight, the heaviest first.
pub fn sort_heaviest_first<T: Weighted>(v: &mut Vec<T>)
    ensures
        final(v)@.to_multiset() == old(v)@.to_multiset(),
        weights_of(final(v)@) == descending(weights_of(old(v)@)),
{
    sort_by_weight(v);
    let ghost up = v@;
    reverse(v);
    proof {
        up.lemma_reverse_to_multiset();
        assert(weights_of(v@) =~= weights_of(up).reverse());
        lemma_ascending_reversed(weights_of(old(v)@));
    }
}

/// Turns `v` back to front.
pub fn reverse<T: Copy>(v: &mut Vec<T>)
    ensures
        final(v)@ == old(v)@.reverse(),
{
    let ghost before = v@;
    let n = v.len();
    let mut i: usize = 0;
    while i < n / 2
        invariant
            n == v.len(),
            n == before.len(),
            i <= n / 2,
            forall|k: int| 0 <= k < i ==> v[k] == before[n - 1 - k],
            forall|k: int| n - i <= k < n ==> v[k] == before[n - 1 - k],
            forall|k: int| i <= k < n - i ==> v[k] == before[k],
        decreases n - i,
    {
        let front = v[i];
        let back = v[n - 1 - i];
        v.set(i, back);
        v.set(n - 1 - i, front);
        i += 1;
    }
    assert(v@ =~= before.reverse());
}

} // verus!
