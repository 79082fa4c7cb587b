//! The key of a hand by its groups of equal ranks.

use super::pairs::{
    lemma_filter_occurrences, lemma_occurrences_contains, lemma_pairs_among_grows,
    lemma_single_occurrences, lemma_strength_occurrences, pairs_among,
};
use super::rules::{by_repeats, group_key, repeats};
use crate::card::Number;
use crate::order::{strengths_of, valid_ranks};
use crate::outside::occurrences;
use crate::sorting::{descending, is_descending, lemma_descending, weights_of, Weighted};
use std::collections::HashMap;
use vstd::prelude::*;
use vstd::relations::{sorted_by, total_ordering};
use vstd::seq_lib::lemma_sorted_unique;

verus! {

/// A rank together with the number of pairs that the cards of that rank
/// form among themselves.
#[derive(Debug, Clone, Copy)]
pub struct Tally {
    pub rank: Number,
    pub pairs: usize,
}

impl Weighted for Tally {
    /// More pairs weigh more, and among as many pairs the stronger rank.
    open spec fn weight(&self) -> int {
        self.pairs * 256 + self.rank.strength()
    }

    fn no_heavier(&self, other: &Tally) -> (b: bool) {
        self.pairs < other.pairs || (self.pairs == other.pairs && self.rank.strength_value()
            <= other.rank.strength_value())
    }
}

/// The ranks of the entries, position by position.
pub open spec fn tally_ranks(entries: Seq<Tally>) -> Seq<Number> {
    Seq::new(entries.len(), |i: int| entries[i].rank)
}

/// Not being one of `listed`.
pub open spec fn not_among(listed: Seq<Number>) -> spec_fn(Number) -> bool {
    |x: Number| !listed.contains(x)
}

/// The entries of `tally` as a list, in whatever order the map hands them
/// out: each key once, with its count.
pub fn tallies(tally: &HashMap<u8, usize>) -> (entries: Vec<Tally>)
    ensures
        forall|i: int|
            0 <= i < entries.len() ==> tally@.contains_key((#[trigger] entries[i]).rank.0)
                && tally@[entries[i].rank.0] == entries[i].pairs,
        forall|i: int, j: int|
            0 <= i < entries.len() && 0 <= j < entries.len() && i != j ==> entries[i].rank
                != entries[j].rank,
        forall|k: u8|
            tally@.contains_key(k) ==> entries@.contains(Tally { rank: Number(k), pairs: tally@[k] }),
{
    broadcast use vstd::std_specs::hash::group_hash_axioms;

    let mut entries: Vec<Tally> = Vec::new();
    for kv in it: tally.iter()
        invariant
            entries.len() == it.index(),
            it.seq().no_duplicates(),
            forall|i: int|
                0 <= i < it.seq().len() ==> tally@.contains_key(*(#[trigger] it.seq()[i]).0)
                    && tally@[*it.seq()[i].0] == *it.seq()[i].1,
            forall|k: u8| #[trigger] tally@.contains_key(k) ==> it.seq().contains((&k, &tally@[k])),
            forall|i: int|
                0 <= i < entries.len() ==> (#[trigger] entries[i]) == (Tally {
                    rank: Number(*it.seq()[i].0),
                    pairs: *it.seq()[i].1,
                }),
            forall|i: int|
                0 <= i < entries.len() ==> entries@.contains(
                    Tally { rank: Number(*(#[trigger] it.seq()[i]).0), pairs: *it.seq()[i].1 },
                ),
        ensures
            forall|i: int|
                0 <= i < entries.len() ==> tally@.contains_key((#[trigger] entries[i]).rank.0)
                    && tally@[entries[i].rank.0] == entries[i].pairs,
            forall|i: int, j: int|
                0 <= i < entries.len() && 0 <= j < entries.len() && i != j ==> entries[i].rank
                    != entries[j].rank,
            forall|k: u8|
                tally@.contains_key(k) ==> entries@.contains(
                    Tally { rank: Number(k), pairs: tally@[k] },
                ),
    {
        entries.push(Tally { rank: Number(*kv.0), pairs: *kv.1 });
        proof {
            assert forall|i: int| 0 <= i < entries.len() implies entries@.contains(
                Tally { rank: Number(*(#[trigger] it.seq()[i]).0), pairs: *it.seq()[i].1 },
            ) by {
                assert(entries@[i] == Tally { rank: Number(*it.seq()[i].0), pairs: *it.seq()[i].1 });
            }
        }
    }
    entries
}

/// The ranks of the entries, in the order of the entries.
pub fn ranks_of_tallies(entries: &Vec<Tally>) -> (ranks: Vec<Number>)
    ensures
        ranks@ == tally_ranks(entries@),
{
    let mut ranks: Vec<Number> = Vec::new();
    let mut i: usize = 0;
    while i < entries.len()
        invariant
            i <= entries.len(),
            ranks@ == tally_ranks(entries@.take(i as int)),
        decreases entries.len() - i,
    {
        ranks.push(entries[i].rank);
        assert(ranks@ =~= tally_ranks(entries@.take(i + 1)));
        i += 1;
    }
    assert(entries@.take(i as int) =~= entries@);
    ranks
}

/// Whether `x` is one of `listed`.
pub fn is_listed(listed: &Vec<Number>, x: Number) -> (b: bool)
    ensures
        b == listed@.contains(x),
{
    let mut i: usize = 0;
    while i < listed.len()
        invariant
            i <= listed.len(),
            forall|j: int| 0 <= j < i ==> listed[j] != x,
        decreases listed.len() - i,
    {
        if listed[i] == x {
            return true;
        }
        i += 1;
    }
    false
}

/// The ranks of `ranks` that are none of `listed`, in the order of `ranks`.
pub fn unlisted(ranks: &Vec<Number>, listed: &Vec<Number>) -> (rest: Vec<Number>)
    ensures
        rest@ == ranks@.filter(not_among(listed@)),
{
    let mut rest: Vec<Number> = Vec::new();
    let mut i: usize = 0;
    proof {
        reveal(Seq::filter);
        assert(ranks@.take(0) =~= Seq::<Number>::empty());
    }
    while i < ranks.len()
        invariant
            i <= ranks.len(),
            rest@ == ranks@.take(i as int).filter(not_among(listed@)),
        decreases ranks.len() - i,
    {
        proof {
            assert(ranks@.take(i + 1) =~= ranks@.take(i as int).push(ranks[i as int]));
            ranks@.take(i as int).lemma_filter_push(ranks[i as int], not_among(listed@));
        }
        if !is_listed(listed, ranks[i]) {
            rest.push(ranks[i]);
        }
        i += 1;
    }
    assert(ranks@.take(i as int) =~= ranks@);
    rest
}

/// A finite set laid out as a sequence shows no item twice.
proof fn lemma_to_seq_no_duplicates<A>(set: Set<A>)
    requires
        set.finite(),
    ensures
        set.to_seq().no_duplicates(),
        set.to_seq().to_set() == set,
    decreases set.len(),
{
    set.lemma_to_seq_to_set_id();
    if set.len() != 0 {
        let x = set.choose();
        let rest = set.remove(x);
        lemma_to_seq_no_duplicates(rest);
        let tail = rest.to_seq();
        assert(set.to_seq() =~= seq![x] + tail);
        assert(!tail.contains(x)) by {
            if tail.contains(x) {
                assert(tail.to_set().contains(x));
            }
        }
        assert forall|i: int, j: int|
            0 <= i < set.to_seq().len() && 0 <= j < set.to_seq().len() && i != j implies set.to_seq()[i]
            != set.to_seq()[j] by {
            if i == 0 {
                assert(tail[j - 1] == set.to_seq()[j]);
            } else if j == 0 {
                assert(tail[i - 1] == set.to_seq()[i]);
            } else {
                assert(tail[i - 1] == set.to_seq()[i]);
                assert(tail[j - 1] == set.to_seq()[j]);
            }
        }
    }
}

/// Two sequences without duplicates that hold the same items are
/// rearrangements of each other.
proof fn lemma_same_items_same_multiset<A>(a: Seq<A>, b: Seq<A>)
    requires
        a.no_duplicates(),
        b.no_duplicates(),
        forall|x: A| a.contains(x) <==> b.contains(x),
    ensures
        a.to_multiset() == b.to_multiset(),
{
    a.lemma_multiset_has_no_duplicates();
    b.lemma_multiset_has_no_duplicates();
    assert forall|x: A| a.to_multiset().count(x) == b.to_multiset().count(x) by {
        vstd::seq_lib::to_multiset_contains(a, x);
        vstd::seq_lib::to_multiset_contains(b, x);
    }
    assert(a.to_multiset() =~= b.to_multiset());
}

/// Ordering by repeats and then by strength is a total order.
pub proof fn lemma_by_repeats_total(s: Seq<int>)
    ensures
        total_ordering(by_repeats(s)),
{
    let leq = by_repeats(s);
    assert forall|x: int, y: int| #[trigger] leq(x, y) && #[trigger] leq(y, x) implies x == y by {}
    assert forall|x: int, y: int, z: int| #[trigger] leq(x, y) && #[trigger] leq(y, z) implies leq(
        x,
        z,
    ) by {}
    assert forall|x: int, y: int| #[trigger] leq(x, y) || #[trigger] leq(y, x) by {}
    assert forall|x: int| #[trigger] leq(x, x) by {}
}

/// The group key is the one listing of the strengths of `s`, each once,
/// in which a strength comes before those that repeat less often and
/// before the lower ones that repeat as often.
pub proof fn lemma_group_key(s: Seq<int>, key: Seq<int>)
    requires
        key.no_duplicates(),
        forall|v: int| key.contains(v) <==> s.contains(v),
        forall|i: int, j: int| 0 <= i < j < key.len() ==> by_repeats(s)(key[i], key[j]),
    ensures
        key == group_key(s),
{
    let leq = by_repeats(s);
    let set = s.to_set();
    let base = set.to_seq();
    vstd::seq_lib::seq_to_set_is_finite(s);
    lemma_to_seq_no_duplicates(set);
    lemma_by_repeats_total(s);
    base.lemma_sort_by_ensures(leq);
    assert forall|x: int| key.contains(x) <==> base.contains(x) by {
        assert(base.contains(x) <==> base.to_set().contains(x));
        assert(s.contains(x) <==> s.to_set().contains(x));
    }
    lemma_same_items_same_multiset(key, base);
    assert(sorted_by(key, leq));
    lemma_sorted_unique(key, base.sort_by(leq), leq);
}

/// The strengths that repeat, most repeated first, followed by the
/// strengths that stand once, in descending order, are the group key.
pub proof fn lemma_group_key_parts(s: Seq<int>, repeated: Seq<int>, single: Seq<int>)
    requires
        repeated.no_duplicates(),
        forall|v: int| repeated.contains(v) <==> repeats(s, v) >= 2,
        forall|i: int, j: int| 0 <= i < j < repeated.len() ==> by_repeats(s)(repeated[i], repeated[j]),
        single.no_duplicates(),
        forall|v: int| single.contains(v) <==> repeats(s, v) == 1,
        is_descending(single),
    ensures
        repeated + single == group_key(s),
{
    let key = repeated + single;
    assert forall|i: int, j: int| 0 <= i < repeated.len() && 0 <= j < single.len() implies repeated[i]
        != single[j] by {
        assert(repeated.contains(repeated[i]));
        assert(single.contains(single[j]));
    }
    vstd::seq_lib::lemma_no_dup_in_concat(repeated, single);
    assert forall|v: int| key.contains(v) <==> s.contains(v) by {
        lemma_occurrences_contains(s, v);
        if key.contains(v) {
            let i = choose|i: int| 0 <= i < key.len() && key[i] == v;
            if i < repeated.len() {
                assert(repeated.contains(repeated[i]));
            } else {
                assert(single.contains(single[i - repeated.len()]));
            }
        }
        if s.contains(v) {
            if repeats(s, v) >= 2 {
                assert(repeated.contains(v));
                let i = choose|i: int| 0 <= i < repeated.len() && repeated[i] == v;
                assert(key[i] == v);
            } else {
                assert(repeats(s, v) == 1);
                assert(single.contains(v));
                let i = choose|i: int| 0 <= i < single.len() && single[i] == v;
                assert(key[repeated.len() + i] == v);
            }
        }
    }
    assert forall|i: int, j: int| 0 <= i < j < key.len() implies by_repeats(s)(key[i], key[j]) by {
        if j < repeated.len() {
            assert(by_repeats(s)(repeated[i], repeated[j]));
        } else if i < repeated.len() {
            assert(repeated.contains(repeated[i]));
            assert(single.contains(single[j - repeated.len()]));
        } else {
            assert(single.contains(single[i - repeated.len()]));
            assert(single.contains(single[j - repeated.len()]));
            assert(single[i - repeated.len()] >= single[j - repeated.len()]);
        }
    }
    lemma_group_key(s, key);
}

/// A rearrangement of entries with distinct ranks holds the same entries,
/// and still no rank twice.
pub proof fn lemma_rearranged_entries(before: Seq<Tally>, after: Seq<Tally>)
    requires
        before.to_multiset() == after.to_multiset(),
        forall|i: int, j: int|
            0 <= i < before.len() && 0 <= j < before.len() && i != j ==> before[i].rank
                != before[j].rank,
    ensures
        forall|e: Tally| before.contains(e) <==> after.contains(e),
        forall|i: int, j: int|
            0 <= i < after.len() && 0 <= j < after.len() && i != j ==> after[i].rank
                != after[j].rank,
{
    assert forall|e: Tally| before.contains(e) <==> after.contains(e) by {
        vstd::seq_lib::to_multiset_contains(before, e);
        vstd::seq_lib::to_multiset_contains(after, e);
    }
    assert(before.no_duplicates());
    before.lemma_multiset_has_no_duplicates();
    after.lemma_multiset_has_no_duplicates_conv();
    assert forall|i: int, j: int|
        0 <= i < after.len() && 0 <= j < after.len() && i != j implies after[i].rank
        != after[j].rank by {
        if after[i].rank == after[j].rank {
            assert(after.contains(after[i]));
            assert(after.contains(after[j]));
            assert(before.contains(after[i]));
            assert(before.contains(after[j]));
            let a = choose|a: int| 0 <= a < before.len() && before[a] == after[i];
            let b = choose|b: int| 0 <= b < before.len() && before[b] == after[j];
            assert(a == b);
        }
    }
}

/// Entries that hold each repeated rank of `ranks` once, with the pairs it
/// forms, the heaviest first, list the repeated strengths in the order of
/// the group key.
pub proof fn lemma_repeated_ranks(ranks: Seq<Number>, entries: Seq<Tally>)
    requires
        valid_ranks(ranks),
        forall|i: int|
            0 <= i < entries.len() ==> (#[trigger] entries[i]).pairs > 0 && entries[i].pairs
                == pairs_among(occurrences(ranks, entries[i].rank)),
        forall|i: int, j: int|
            0 <= i < entries.len() && 0 <= j < entries.len() && i != j ==> entries[i].rank
                != entries[j].rank,
        forall|x: Number| occurrences(ranks, x) >= 2 ==> tally_ranks(entries).contains(x),
        is_descending(weights_of(entries)),
    ensures
        forall|x: Number| tally_ranks(entries).contains(x) <==> occurrences(ranks, x) >= 2,
        forall|i: int| 0 <= i < entries.len() ==> (#[trigger] tally_ranks(entries)[i]).wf(),
        strengths_of(tally_ranks(entries)).no_duplicates(),
        forall|v: int|
            strengths_of(tally_ranks(entries)).contains(v) <==> repeats(strengths_of(ranks), v) >= 2,
        forall|i: int, j: int|
            0 <= i < j < entries.len() ==> by_repeats(strengths_of(ranks))(
                strengths_of(tally_ranks(entries))[i],
                strengths_of(tally_ranks(entries))[j],
            ),
{
    let listed = tally_ranks(entries);
    let sn = strengths_of(listed);
    let s = strengths_of(ranks);
    assert forall|i: int| 0 <= i < entries.len() implies {
        &&& occurrences(ranks, listed[i]) >= 2
        &&& (#[trigger] listed[i]).wf()
        &&& repeats(s, sn[i]) == occurrences(ranks, listed[i])
    } by {
        let x = entries[i].rank;
        assert(pairs_among(1) == 0 && pairs_among(0) == 0) by {
            reveal_with_fuel(pairs_among, 3);
        }
        lemma_occurrences_contains(ranks, x);
        let k = choose|k: int| 0 <= k < ranks.len() && ranks[k] == x;
        assert(ranks[k].wf());
        lemma_strength_occurrences(ranks, x);
    }
    assert forall|x: Number| listed.contains(x) <==> occurrences(ranks, x) >= 2 by {
        if listed.contains(x) {
            let i = choose|i: int| 0 <= i < listed.len() && listed[i] == x;
            assert(occurrences(ranks, listed[i]) >= 2);
        }
    }
    assert forall|i: int, j: int| 0 <= i < sn.len() && 0 <= j < sn.len() && i != j implies sn[i]
        != sn[j] by {
        assert(listed[i].wf() && listed[j].wf());
        assert(entries[i].rank != entries[j].rank);
    }
    assert forall|v: int| sn.contains(v) <==> repeats(s, v) >= 2 by {
        if sn.contains(v) {
            let i = choose|i: int| 0 <= i < sn.len() && sn[i] == v;
            assert(listed[i].wf());
        }
        if repeats(s, v) >= 2 {
            lemma_occurrences_contains(s, v);
            let k = choose|k: int| 0 <= k < s.len() && s[k] == v;
            let x = ranks[k];
            assert(x.wf());
            lemma_strength_occurrences(ranks, x);
            assert(listed.contains(x));
            let i = choose|i: int| 0 <= i < listed.len() && listed[i] == x;
            assert(sn[i] == v);
        }
    }
    assert forall|i: int, j: int| 0 <= i < j < entries.len() implies by_repeats(s)(sn[i], sn[j]) by {
        let a = entries[i];
        let b = entries[j];
        assert(listed[i].wf() && listed[j].wf());
        assert(weights_of(entries)[i] >= weights_of(entries)[j]);
        let m = occurrences(ranks, a.rank);
        let n = occurrences(ranks, b.rank);
        if m < n {
            lemma_pairs_among_grows(m, n);
        }
        if n < m {
            lemma_pairs_among_grows(n, m);
        }
    }
}

/// The ranks of `ranks` that do not repeat, sorted by descending strength,
/// list the strengths that stand once, each once.
pub proof fn lemma_single_ranks(ranks: Seq<Number>, listed: Seq<Number>, sorted: Seq<Number>)
    requires
        valid_ranks(ranks),
        forall|x: Number| listed.contains(x) <==> occurrences(ranks, x) >= 2,
        strengths_of(sorted) == descending(strengths_of(ranks.filter(not_among(listed)))),
    ensures
        strengths_of(sorted).no_duplicates(),
        forall|v: int| strengths_of(sorted).contains(v) <==> repeats(strengths_of(ranks), v) == 1,
        is_descending(strengths_of(sorted)),
{
    let keep = not_among(listed);
    let rest = ranks.filter(keep);
    let s = strengths_of(ranks);
    let sr = strengths_of(rest);
    let sm = strengths_of(sorted);
    lemma_descending(sr);
    assert forall|i: int| 0 <= i < rest.len() implies {
        &&& (#[trigger] rest[i]).wf()
        &&& occurrences(ranks, rest[i]) == 1
        &&& repeats(s, rest[i].strength()) == 1
    } by {
        let x = rest[i];
        ranks.lemma_filter_pred(keep, i);
        assert(rest.contains(x));
        ranks.lemma_filter_contains_rev(keep, x);
        lemma_occurrences_contains(ranks, x);
        let k = choose|k: int| 0 <= k < ranks.len() && ranks[k] == x;
        assert(ranks[k].wf());
        lemma_strength_occurrences(ranks, x);
    }
    assert forall|x: Number| #[trigger] occurrences(rest, x) <= 1 by {
        lemma_filter_occurrences(ranks, keep, x);
    }
    lemma_single_occurrences(rest);
    assert(sr.no_duplicates()) by {
        assert forall|i: int, j: int| 0 <= i < sr.len() && 0 <= j < sr.len() && i != j implies sr[i]
            != sr[j] by {
            assert(rest[i].wf() && rest[j].wf());
            assert(rest[i] != rest[j]);
        }
    }
    sr.lemma_multiset_has_no_duplicates();
    sm.lemma_multiset_has_no_duplicates_conv();
    assert forall|v: int| sm.contains(v) <==> repeats(s, v) == 1 by {
        vstd::seq_lib::to_multiset_contains(sm, v);
        vstd::seq_lib::to_multiset_contains(sr, v);
        if sr.contains(v) {
            let i = choose|i: int| 0 <= i < sr.len() && sr[i] == v;
            assert(rest[i].wf());
        }
        if repeats(s, v) == 1 {
            lemma_occurrences_contains(s, v);
            let k = choose|k: int| 0 <= k < s.len() && s[k] == v;
            let x = ranks[k];
            assert(x.wf());
            lemma_strength_occurrences(ranks, x);
            assert(!listed.contains(x));
            ranks.lemma_filter_contains(keep, k);
            let i = choose|i: int| 0 <= i < rest.len() && rest[i] == x;
            assert(sr[i] == v);
        }
    }
}

} // verus!
