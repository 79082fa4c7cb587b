//! Cutting text into tokens.

use vstd::prelude::*;
use vstd::string::*;

verus! {

/// The first position of `s` whose item meets `p`, or the length of `s`
/// where no item does.
pub open spec fn first_where<T>(s: Seq<T>, p: spec_fn(T) -> bool) -> nat
    decreases s.len(),
{
    if s.len() == 0 || p(s[0]) {
        0
    } else {
        1 + first_where(s.drop_first(), p)
    }
}

/// Before the first position that meets `p` no position meets it.
pub proof fn lemma_first_where<T>(s: Seq<T>, p: spec_fn(T) -> bool)
    ensures
        first_where(s, p) <= s.len(),
        forall|j: int| 0 <= j < first_where(s, p) ==> !p(s[j]),
        first_where(s, p) < s.len() ==> p(s[first_where(s, p) as int]),
    decreases s.len(),
{
    if !(s.len() == 0 || p(s[0])) {
        let rest = s.drop_first();
        lemma_first_where(rest, p);
        assert forall|j: int| 0 <= j < first_where(s, p) implies !p(s[j]) by {
            if j > 0 {
                assert(s[j] == rest[j - 1]);
            }
        }
        let m = first_where(rest, p) as int;
        if m < rest.len() {
            assert(s[m + 1] == rest[m]);
        }
    }
}

/// A position that meets `p`, or the end, before which no position meets
/// `p`, is the first that does.
pub proof fn lemma_first_where_is<T>(s: Seq<T>, p: spec_fn(T) -> bool, i: int)
    requires
        0 <= i <= s.len(),
        forall|j: int| 0 <= j < i ==> !p(s[j]),
        i < s.len() ==> p(s[i]),
    ensures
        first_where(s, p) == i,
{
    lemma_first_where(s, p);
    let m = first_where(s, p) as int;
    if m < i {
        assert(!p(s[m]));
    }
}

/// Being the character `sep`.
pub open spec fn is_char(sep: char) -> spec_fn(char) -> bool {
    |c: char| c == sep
}

/// The pieces into which the occurrences of `sep` cut `s`: what stands
/// before the first occurrence, followed by the pieces of what stands after
/// it. Text without an occurrence is one piece, and so is the empty text.
pub open spec fn split(s: Seq<char>, sep: char) -> Seq<Seq<char>>
    decreases s.len(),
{
    let i = first_where(s, is_char(sep));
    if i >= s.len() {
        seq![s]
    } else {
        seq![s.take(i as int)] + split(s.skip(i as int + 1), sep)
    }
}

/// Text is cut into at least one piece, and no piece holds the separator.
pub proof fn lemma_split_pieces(s: Seq<char>, sep: char)
    ensures
        split(s, sep).len() >= 1,
        forall|i: int| 0 <= i < split(s, sep).len() ==> !(#[trigger] split(s, sep)[i]).contains(sep),
    decreases s.len(),
{
    let first = first_where(s, is_char(sep)) as int;
    lemma_first_where(s, is_char(sep));
    assert forall|i: int| 0 <= i < split(s, sep).len() implies !(#[trigger] split(s, sep)[i]).contains(
        sep,
    ) by {
        if first >= s.len() {
            if s.contains(sep) {
                let k = choose|k: int| 0 <= k < s.len() && s[k] == sep;
                assert(is_char(sep)(s[k]));
            }
        } else {
            let rest = s.skip(first + 1);
            lemma_split_pieces(rest, sep);
            if i == 0 {
                let head = s.take(first);
                if head.contains(sep) {
                    let k = choose|k: int| 0 <= k < head.len() && head[k] == sep;
                    assert(is_char(sep)(s[k]));
                }
            } else {
                assert(split(s, sep)[i] == split(rest, sep)[i - 1]);
            }
        }
    }
}

/// The texts of the tokens, position by position.
pub open spec fn texts_of(tokens: Seq<&str>) -> Seq<Seq<char>> {
    Seq::new(tokens.len(), |i: int| tokens[i]@)
}

/// Cuts `text` at each occurrence of `sep`.
pub fn split_at_each<'a>(text: &'a str, sep: char) -> (tokens: Vec<&'a str>)
    ensures
        texts_of(tokens@) == split(text@, sep),
{
    let n = text.unicode_len();
    let mut tokens: Vec<&'a str> = Vec::new();
    let mut start: usize = 0;
    let mut i: usize = 0;
    proof {
        assert(text@.skip(0) =~= text@);
        assert(texts_of(tokens@) + split(text@, sep) =~= split(text@, sep));
    }
    while i < n
        invariant
            n == text@.len(),
            start <= i <= n,
            forall|k: int| start <= k < i ==> text@[k] != sep,
            texts_of(tokens@) + split(text@.skip(start as int), sep) == split(text@, sep),
        decreases n - i,
    {
        if text.get_char(i) == sep {
            let ghost rest = text@.skip(start as int);
            let ghost done = texts_of(tokens@);
            tokens.push(text.substring_char(start, i));
            proof {
                lemma_first_where_is(rest, is_char(sep), i - start);
                assert(rest.take(i - start) =~= text@.subrange(start as int, i as int));
                assert(rest.skip(i - start + 1) =~= text@.skip(i + 1));
                assert(texts_of(tokens@) =~= done + seq![rest.take(i - start)]);
                assert(texts_of(tokens@) + split(text@.skip(i + 1), sep) =~= done + split(rest, sep));
            }
            start = i + 1;
        }
        i += 1;
    }
    let ghost rest = text@.skip(start as int);
    let ghost done = texts_of(tokens@);
    tokens.push(text.substring_char(start, n));
    proof {
        lemma_first_where_is(rest, is_char(sep), n - start);
        assert(rest =~= text@.subrange(start as int, n as int));
        assert(texts_of(tokens@) =~= done + seq![rest]);
    }
    tokens
}

} // verus!
