//! Pairs of equal items among the pairs that can be chosen from a sequence.

use crate::card::Number;
use crate::order::{strengths_of, valid_ranks};
use crate::outside::{combinations_of, is_item, occurrences, prefixed};
use vstd::prelude::*;

verus! {

/// Being a pair of two equal items.
pub open spec fn is_twin<T>() -> spec_fn(Seq<T>) -> bool {
    |p: Seq<T>| p.len() == 2 && p[0] == p[1]
}

/// Being the pair of `x` and `x`.
pub open spec fn is_twin_of<T>(x: T) -> spec_fn(Seq<T>) -> bool {
    |p: Seq<T>| p.len() == 2 && p[0] == x && p[1] == x
}

/// How many of `pairs` are pairs of two equal items.
pub open spec fn twins<T>(pairs: Seq<Seq<T>>) -> nat {
    pairs.filter(is_twin()).len()
}

/// How many of `pairs` are the pair of `x` and `x`.
pub open spec fn twins_of<T>(pairs: Seq<Seq<T>>, x: T) -> nat {
    pairs.filter(is_twin_of(x)).len()
}

/// How many pairs can be chosen among `n` items.
pub open spec fn pairs_among(n: nat) -> nat
    decreases n,
{
    if n == 0 {
        0
    } else {
        (n - 1) as nat + pairs_among((n - 1) as nat)
    }
}

/// How many pairs of positions of `s` hold equal items: each position pairs
/// with the later positions that hold the same item.
pub open spec fn equal_pairs<T>(s: Seq<T>) -> nat
    decreases s.len(),
{
    if s.len() == 0 {
        0
    } else {
        occurrences(s.drop_first(), s[0]) + equal_pairs(s.drop_first())
    }
}

/// The pairs as sequences, position by position.
pub open spec fn pair_views(pairs: Seq<Vec<Number>>) -> Seq<Seq<Number>> {
    Seq::new(pairs.len(), |i: int| pairs[i]@)
}

/// The first item of each pair, position by position.
pub open spec fn heads<T>(pairs: Seq<Seq<T>>) -> Seq<T> {
    Seq::new(pairs.len(), |i: int| pairs[i][0])
}

/// The rank of each pair of two equal ranks, in the order of the pairs.
pub fn matching_pairs(pairs: &Vec<Vec<Number>>) -> (duped: Vec<Number>)
    ensures
        duped@ == heads(pair_views(pairs@).filter(is_twin())),
        duped.len() == twins(pair_views(pairs@)),
        forall|x: Number| occurrences(duped@, x) == twins_of(pair_views(pairs@), x),
{
    let ghost all = pair_views(pairs@);
    let mut duped: Vec<Number> = Vec::new();
    let mut i: usize = 0;
    proof {
        reveal(Seq::filter);
        assert(all.take(0) =~= Seq::<Seq<Number>>::empty());
    }
    while i < pairs.len()
        invariant
            i <= pairs.len(),
            all == pair_views(pairs@),
            duped@ == heads(all.take(i as int).filter(is_twin())),
            forall|x: Number| occurrences(duped@, x) == twins_of(all.take(i as int), x),
        decreases pairs.len() - i,
    {
        let pair = &pairs[i];
        let ghost before = duped@;
        let ghost seen = all.take(i as int);
        proof {
            assert(all.take(i + 1) =~= seen.push(pair@));
            seen.lemma_filter_push(pair@, is_twin());
        }
        if pair.len() == 2 && pair[0] == pair[1] {
            duped.push(pair[0]);
        }
        proof {
            assert(duped@ =~= heads(all.take(i + 1).filter(is_twin())));
            assert forall|x: Number| occurrences(duped@, x) == twins_of(all.take(i + 1), x) by {
                assert(occurrences(before, x) == twins_of(seen, x));
                seen.lemma_filter_len_push(is_twin_of(x), pair@);
                if pair.len() == 2 && pair[0] == pair[1] {
                    before.lemma_filter_len_push(is_item(x), pair[0]);
                    assert(duped@ == before.push(pair[0]));
                } else {
                    assert(duped@ == before);
                }
            }
        }
        i += 1;
    }
    proof {
        assert(all.take(i as int) =~= all);
    }
    duped
}

/// Counting in a sequence with one more item in front.
pub proof fn lemma_occurrences_front<T>(s: Seq<T>, x: T)
    requires
        s.len() > 0,
    ensures
        occurrences(s, x) == occurrences(s.drop_first(), x) + if s[0] == x {
            1nat
        } else {
            0nat
        },
{
    assert(s =~= seq![s[0]] + s.drop_first());
    s.drop_first().lemma_filter_prepend(s[0], is_item(x));
}

/// What a sequence holds, it holds at least once.
pub proof fn lemma_occurrences_contains<T>(s: Seq<T>, x: T)
    ensures
        s.contains(x) <==> occurrences(s, x) > 0,
    decreases s.len(),
{
    if s.len() > 0 {
        let rest = s.drop_first();
        lemma_occurrences_contains(rest, x);
        lemma_occurrences_front(s, x);
        if s.contains(x) && s[0] != x {
            let i = choose|i: int| 0 <= i < s.len() && s[i] == x;
            assert(rest[i - 1] == x);
        }
        if rest.contains(x) {
            let i = choose|i: int| 0 <= i < rest.len() && rest[i] == x;
            assert(s[i + 1] == x);
        }
    } else {
        reveal(Seq::filter);
    }
}

/// An item that stands at two places of `s` stands in it at least twice.
pub proof fn lemma_two_places<T>(s: Seq<T>, i: int, j: int)
    requires
        0 <= i < j < s.len(),
        s[i] == s[j],
    ensures
        occurrences(s, s[i]) >= 2,
    decreases s.len(),
{
    let x = s[i];
    let rest = s.drop_first();
    lemma_occurrences_front(s, x);
    if i == 0 {
        assert(rest[j - 1] == x);
        lemma_occurrences_contains(rest, x);
    } else {
        assert(rest[i - 1] == x && rest[j - 1] == x);
        lemma_two_places(rest, i - 1, j - 1);
    }
}

/// A sequence in which no item stands twice has no duplicates.
pub proof fn lemma_single_occurrences<T>(s: Seq<T>)
    requires
        forall|x: T| #[trigger] occurrences(s, x) <= 1,
    ensures
        s.no_duplicates(),
{
    assert forall|i: int, j: int| 0 <= i < s.len() && 0 <= j < s.len() && i != j implies s[i]
        != s[j] by {
        if s[i] == s[j] {
            if i < j {
                lemma_two_places(s, i, j);
            } else {
                lemma_two_places(s, j, i);
            }
            assert(occurrences(s, s[i]) <= 1);
        }
    }
}

/// What passes a filter stands behind it as often as before, and what
/// does not pass stands behind it not at all.
pub proof fn lemma_filter_occurrences<T>(s: Seq<T>, p: spec_fn(T) -> bool, x: T)
    ensures
        occurrences(s.filter(p), x) == if p(x) {
            occurrences(s, x)
        } else {
            0
        },
    decreases s.len(),
{
    reveal(Seq::filter);
    if s.len() > 0 {
        let rest = s.drop_last();
        lemma_filter_occurrences(rest, p, x);
        assert(s =~= rest.push(s.last()));
        rest.lemma_filter_len_push(is_item(x), s.last());
        if p(s.last()) {
            rest.filter(p).lemma_filter_len_push(is_item(x), s.last());
        }
    }
}

/// More items form more pairs.
pub proof fn lemma_pairs_among_grows(m: nat, n: nat)
    requires
        1 <= m < n,
    ensures
        pairs_among(m) < pairs_among(n),
    decreases n,
{
    if m + 1 < n {
        lemma_pairs_among_grows(m, (n - 1) as nat);
    }
}

/// Every combination of `k` items has `k` items.
pub proof fn lemma_combination_len<T>(s: Seq<T>, k: nat)
    ensures
        forall|i: int|
            0 <= i < combinations_of(s, k).len() ==> (#[trigger] combinations_of(s, k)[i]).len()
                == k,
    decreases s.len(),
{
    if k != 0 && s.len() != 0 {
        let led = combinations_of(s.drop_first(), (k - 1) as nat);
        let others = combinations_of(s.drop_first(), k);
        lemma_combination_len(s.drop_first(), (k - 1) as nat);
        lemma_combination_len(s.drop_first(), k);
        assert forall|i: int| 0 <= i < combinations_of(s, k).len() implies (#[trigger] combinations_of(
            s,
            k,
        )[i]).len() == k by {
            if i < led.len() {
                assert(combinations_of(s, k)[i] == seq![s[0]] + led[i]);
            } else {
                assert(combinations_of(s, k)[i] == others[i - led.len()]);
            }
        }
    }
}

/// One item can be chosen in as many ways as there are items, and two in
/// as many ways as there are pairs among them.
pub proof fn lemma_combinations_len<T>(s: Seq<T>)
    ensures
        combinations_of(s, 1).len() == s.len(),
        combinations_of(s, 2).len() == pairs_among(s.len()),
    decreases s.len(),
{
    if s.len() > 0 {
        lemma_combinations_len(s.drop_first());
        assert(combinations_of(s.drop_first(), 0).len() == 1);
    }
}

/// Among the pairs of `a` with each item of `t`, the pairs of equal items
/// are as many as `a` stands in `t`.
proof fn lemma_twins_led_by<T>(a: T, t: Seq<T>, x: T)
    ensures
        twins_of(prefixed(a, combinations_of(t, 1)), x) == if a == x {
            occurrences(t, x)
        } else {
            0
        },
        twins(prefixed(a, combinations_of(t, 1))) == occurrences(t, a),
    decreases t.len(),
{
    reveal(Seq::filter);
    if t.len() == 0 {
        assert(prefixed(a, combinations_of(t, 1)) =~= Seq::<Seq<T>>::empty());
    } else {
        let rest = t.drop_first();
        lemma_twins_led_by(a, rest, x);
        lemma_occurrences_front(t, x);
        lemma_occurrences_front(t, a);
        assert(combinations_of(rest, 0) =~= seq![Seq::<T>::empty()]);
        let first = seq![a, t[0]];
        assert(seq![a] + (seq![t[0]] + Seq::<T>::empty()) =~= first);
        let tail = prefixed(a, combinations_of(rest, 1));
        assert(prefixed(a, combinations_of(t, 1)) =~= seq![first] + tail);
        tail.lemma_filter_prepend(first, is_twin_of(x));
        tail.lemma_filter_prepend(first, is_twin());
    }
}

/// Among the pairs chosen from `s`, the pairs of `x` and `x` are as many
/// as there are pairs among the places where `x` stands in `s`; and the
/// pairs of equal items are as many as `s` has pairs of equal positions.
pub proof fn lemma_twins_of_pairs<T>(s: Seq<T>, x: T)
    ensures
        twins_of(combinations_of(s, 2), x) == pairs_among(occurrences(s, x)),
        twins(combinations_of(s, 2)) == equal_pairs(s),
    decreases s.len(),
{
    reveal(Seq::filter);
    if s.len() == 0 {
        assert(occurrences(s, x) == 0);
    } else {
        let rest = s.drop_first();
        lemma_twins_of_pairs(rest, x);
        lemma_twins_led_by(s[0], rest, x);
        lemma_occurrences_front(s, x);
        let led = prefixed(s[0], combinations_of(rest, 1));
        let others = combinations_of(rest, 2);
        Seq::filter_distributes_over_add(led, others, is_twin_of(x));
        Seq::filter_distributes_over_add(led, others, is_twin());
    }
}

/// For ranks, standing as often and standing with the same strength as
/// often are one thing, and so are equal ranks and equal strengths.
pub proof fn lemma_strength_occurrences(ranks: Seq<Number>, x: Number)
    requires
        valid_ranks(ranks),
        x.wf(),
    ensures
        occurrences(strengths_of(ranks), x.strength()) == occurrences(ranks, x),
        equal_pairs(strengths_of(ranks)) == equal_pairs(ranks),
    decreases ranks.len(),
{
    reveal(Seq::filter);
    if ranks.len() > 0 {
        let rest = ranks.drop_first();
        lemma_strength_occurrences(rest, x);
        lemma_strength_occurrences(rest, ranks[0]);
        lemma_occurrences_front(ranks, x);
        lemma_occurrences_front(strengths_of(ranks), x.strength());
        assert(strengths_of(ranks).drop_first() =~= strengths_of(rest));
    } else {
        assert(strengths_of(ranks) =~= Seq::<int>::empty());
    }
}

} // verus!
