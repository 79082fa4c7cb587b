//! The order in which sequences of ranks stand.
//!
//! Ranks are compared by strength, and sequences of ranks position by
//! position, the first difference deciding.

use crate::card::number::strength_order;
use crate::card::Number;
use std::cmp::Ordering;
use vstd::prelude::*;

verus! {

/// The strengths of a sequence of ranks, position by position.
pub open spec fn strengths_of(ranks: Seq<Number>) -> Seq<int> {
    Seq::new(ranks.len(), |i: int| ranks[i].strength())
}

/// Each of `ranks` is one of the thirteen ranks.
pub open spec fn valid_ranks(ranks: Seq<Number>) -> bool {
    forall|i: int| 0 <= i < ranks.len() ==> (#[trigger] ranks[i]).wf()
}

/// The first position at which `a` and `b` differ, or the length of the
/// shorter one where neither has such a position.
pub open spec fn mismatch(a: Seq<int>, b: Seq<int>) -> int
    decreases a.len(),
{
    if a.len() == 0 || b.len() == 0 || a[0] != b[0] {
        0
    } else {
        1 + mismatch(a.drop_first(), b.drop_first())
    }
}

/// Lexicographic order on sequences of integers: the first position at which
/// the two differ decides, and where there is none the shorter comes first.
pub open spec fn lex_order(a: Seq<int>, b: Seq<int>) -> Ordering {
    let i = mismatch(a, b);
    if i < a.len() && i < b.len() {
        strength_order(a[i], b[i])
    } else if a.len() < b.len() {
        Ordering::Less
    } else if a.len() > b.len() {
        Ordering::Greater
    } else {
        Ordering::Equal
    }
}

/// Up to their mismatch two sequences agree, and at it they differ.
pub proof fn lemma_mismatch(a: Seq<int>, b: Seq<int>)
    ensures
        0 <= mismatch(a, b) <= a.len(),
        mismatch(a, b) <= b.len(),
        forall|j: int| 0 <= j < mismatch(a, b) ==> a[j] == b[j],
        mismatch(a, b) < a.len() && mismatch(a, b) < b.len() ==> a[mismatch(a, b)] != b[mismatch(
            a,
            b,
        )],
    decreases a.len(),
{
    if !(a.len() == 0 || b.len() == 0 || a[0] != b[0]) {
        let ta = a.drop_first();
        let tb = b.drop_first();
        lemma_mismatch(ta, tb);
        assert forall|j: int| 0 <= j < mismatch(a, b) implies a[j] == b[j] by {
            if j > 0 {
                assert(a[j] == ta[j - 1]);
                assert(b[j] == tb[j - 1]);
            }
        }
        let m = mismatch(ta, tb);
        if m < ta.len() && m < tb.len() {
            assert(a[m + 1] == ta[m]);
            assert(b[m + 1] == tb[m]);
        }
    }
}

/// A position up to which two sequences agree, and at which they differ or
/// one of them ends, is their mismatch.
pub proof fn lemma_mismatch_is(a: Seq<int>, b: Seq<int>, i: int)
    requires
        0 <= i <= a.len(),
        i <= b.len(),
        forall|j: int| 0 <= j < i ==> a[j] == b[j],
        i < a.len() && i < b.len() ==> a[i] != b[i],
    ensures
        mismatch(a, b) == i,
{
    lemma_mismatch(a, b);
    let m = mismatch(a, b);
    if m < i {
        assert(a[m] == b[m]);
    }
}

/// Two sequences stand equal exactly when they are the same sequence.
pub proof fn lemma_lex_order_equal(a: Seq<int>, b: Seq<int>)
    ensures
        lex_order(a, b) == Ordering::Equal <==> a == b,
{
    lemma_mismatch(a, b);
    if lex_order(a, b) == Ordering::Equal {
        assert(a =~= b);
    }
}

/// Swapping the two sequences swaps `Less` and `Greater`.
pub proof fn lemma_lex_order_flip(a: Seq<int>, b: Seq<int>)
    ensures
        lex_order(a, b) == Ordering::Less <==> lex_order(b, a) == Ordering::Greater,
        lex_order(a, b) == Ordering::Greater <==> lex_order(b, a) == Ordering::Less,
        lex_order(a, b) == Ordering::Equal <==> lex_order(b, a) == Ordering::Equal,
{
    lemma_mismatch(a, b);
    lemma_mismatch_is(b, a, mismatch(a, b));
}

/// The order is transitive: from `a` not after `b` and `b` not after `c`
/// follows `a` not after `c`, and `a` stands before `c` as soon as one of
/// the two steps is strict.
pub proof fn lemma_lex_order_transitive(a: Seq<int>, b: Seq<int>, c: Seq<int>)
    requires
        lex_order(a, b) != Ordering::Greater,
        lex_order(b, c) != Ordering::Greater,
    ensures
        lex_order(a, c) != Ordering::Greater,
        lex_order(a, b) == Ordering::Less || lex_order(b, c) == Ordering::Less ==> lex_order(a, c)
            == Ordering::Less,
{
    lemma_mismatch(a, b);
    lemma_mismatch(b, c);
    let i = mismatch(a, b);
    let j = mismatch(b, c);
    let k = if i <= j { i } else { j };
    assert forall|n: int| 0 <= n < k implies a[n] == c[n] by {
        assert(a[n] == b[n]);
        assert(b[n] == c[n]);
    }
    if i < j {
        assert(b[i] == c[i]);
    } else if j < i {
        assert(a[j] == b[j]);
    }
    lemma_mismatch_is(a, c, k);
}

/// The first position at which two sequences of ranks differ in strength.
fn first_difference(a: &Vec<Number>, b: &Vec<Number>) -> (i: usize)
    ensures
        i == mismatch(strengths_of(a@), strengths_of(b@)),
        i <= a.len(),
        i <= b.len(),
        i < a.len() && i < b.len() ==> {
            &&& strengths_of(a@)[i as int] == a[i as int].strength()
            &&& strengths_of(b@)[i as int] == b[i as int].strength()
        },
{
    let mut i: usize = 0;
    while i < a.len() && i < b.len() && a[i].strength_value() == b[i].strength_value()
        invariant
            i <= a.len(),
            i <= b.len(),
            forall|j: int| 0 <= j < i ==> strengths_of(a@)[j] == strengths_of(b@)[j],
        decreases a.len() - i,
    {
        i += 1;
    }
    proof {
        lemma_mismatch_is(strengths_of(a@), strengths_of(b@), i as int);
    }
    i
}

/// Compares two sequences of ranks lexicographically, each rank by its
/// strength.
pub fn compare_ranks(a: &Vec<Number>, b: &Vec<Number>) -> (o: Ordering)
    ensures
        o == lex_order(strengths_of(a@), strengths_of(b@)),
{
    let i = first_difference(a, b);
    if i < a.len() && i < b.len() {
        a[i].cmp(&b[i])
    } else if a.len() < b.len() {
        Ordering::Less
    } else if a.len() > b.len() {
        Ordering::Greater
    } else {
        Ordering::Equal
    }
}

} // verus!
