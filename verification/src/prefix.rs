//! The longest prefix of a sequence that a predicate accepts.
//!
//! Comments, numbers, blanks and surrounding whitespace are all runs of
//! this kind, and so are the empty lines of a program.

use vstd::prelude::*;

verus! {

/// The length of the longest prefix of `s` on which `accepts` holds
/// throughout.
pub open spec fn prefix_len<A>(s: Seq<A>, accepts: spec_fn(A) -> bool) -> nat
    decreases s.len(),
{
    if s.len() > 0 && accepts(s[0]) {
        1 + prefix_len(s.drop_first(), accepts)
    } else {
        0
    }
}

/// The length of the longest suffix of `s` on which `accepts` holds
/// throughout.
pub open spec fn suffix_len<A>(s: Seq<A>, accepts: spec_fn(A) -> bool) -> nat
    decreases s.len(),
{
    if s.len() > 0 && accepts(s.last()) {
        1 + suffix_len(s.drop_last(), accepts)
    } else {
        0
    }
}

/// `prefix_len` is the one index up to which every character is accepted
/// and at which the sequence ends or a character is refused.
pub proof fn lemma_prefix_len<A>(s: Seq<A>, accepts: spec_fn(A) -> bool)
    ensures
        prefix_len(s, accepts) <= s.len(),
        forall|i: int| 0 <= i < prefix_len(s, accepts) ==> accepts(#[trigger] s[i]),
        prefix_len(s, accepts) < s.len() ==> !accepts(s[prefix_len(s, accepts) as int]),
    decreases s.len(),
{
    if s.len() > 0 && accepts(s[0]) {
        let t = s.drop_first();
        lemma_prefix_len(t, accepts);
        assert forall|i: int| 0 <= i < prefix_len(s, accepts) implies accepts(#[trigger] s[i]) by {
            if i > 0 {
                assert(s[i] == t[i - 1]);
            }
        }
        if prefix_len(s, accepts) < s.len() {
            assert(s[prefix_len(s, accepts) as int] == t[prefix_len(t, accepts) as int]);
        }
    }
}

/// Any index with the two properties of `lemma_prefix_len` is
/// `prefix_len`.
pub proof fn lemma_prefix_len_is<A>(s: Seq<A>, accepts: spec_fn(A) -> bool, n: int)
    requires
        0 <= n <= s.len(),
        forall|i: int| 0 <= i < n ==> accepts(#[trigger] s[i]),
        n < s.len() ==> !accepts(s[n]),
    ensures
        prefix_len(s, accepts) == n,
    decreases s.len(),
{
    if n > 0 {
        let t = s.drop_first();
        assert(accepts(s[0]));
        assert forall|i: int| 0 <= i < n - 1 implies accepts(#[trigger] t[i]) by {
            assert(t[i] == s[i + 1]);
        }
        if n - 1 < t.len() {
            assert(t[n - 1] == s[n]);
        }
        lemma_prefix_len_is(t, accepts, n - 1);
    }
}

/// `suffix_len` is the one length such that every character of the
/// suffix is accepted and the character before it, if any, is refused.
pub proof fn lemma_suffix_len<A>(s: Seq<A>, accepts: spec_fn(A) -> bool)
    ensures
        suffix_len(s, accepts) <= s.len(),
        forall|i: int| s.len() - suffix_len(s, accepts) <= i < s.len() ==> accepts(#[trigger] s[i]),
        suffix_len(s, accepts) < s.len() ==> !accepts(s[s.len() - suffix_len(s, accepts) - 1]),
    decreases s.len(),
{
    if s.len() > 0 && accepts(s.last()) {
        let t = s.drop_last();
        lemma_suffix_len(t, accepts);
        assert forall|i: int| s.len() - suffix_len(s, accepts) <= i < s.len() implies accepts(
            #[trigger] s[i],
        ) by {
            if i < s.len() - 1 {
                assert(s[i] == t[i]);
            }
        }
        if suffix_len(s, accepts) < s.len() {
            assert(s[s.len() - suffix_len(s, accepts) - 1] == t[t.len() - suffix_len(t, accepts)
                - 1]);
        }
    }
}

/// Any length with the two properties of `lemma_suffix_len` is
/// `suffix_len`.
pub proof fn lemma_suffix_len_is<A>(s: Seq<A>, accepts: spec_fn(A) -> bool, n: int)
    requires
        0 <= n <= s.len(),
        forall|i: int| s.len() - n <= i < s.len() ==> accepts(#[trigger] s[i]),
        n < s.len() ==> !accepts(s[s.len() - n - 1]),
    ensures
        suffix_len(s, accepts) == n,
    decreases s.len(),
{
    if n > 0 {
        let t = s.drop_last();
        assert(accepts(s.last()));
        assert forall|i: int| t.len() - (n - 1) <= i < t.len() implies accepts(#[trigger] t[i]) by {
            assert(t[i] == s[i]);
        }
        if n - 1 < t.len() {
            assert(t[t.len() - (n - 1) - 1] == s[s.len() - n - 1]);
        }
        lemma_suffix_len_is(t, accepts, n - 1);
    }
}

/// The longest accepted prefix of a concatenation ends in `a` if `a`
/// holds a refused character, and else goes on into `b`.
pub proof fn lemma_prefix_len_concat<A>(a: Seq<A>, b: Seq<A>, accepts: spec_fn(A) -> bool)
    ensures
        prefix_len(a + b, accepts) == if prefix_len(a, accepts) < a.len() {
            prefix_len(a, accepts)
        } else {
            a.len() + prefix_len(b, accepts)
        },
{
    lemma_prefix_len(a, accepts);
    lemma_prefix_len(b, accepts);
    let n = prefix_len(a, accepts) as int;
    if n < a.len() {
        assert forall|i: int| 0 <= i < n implies accepts(#[trigger] (a + b)[i]) by {
            assert((a + b)[i] == a[i]);
        }
        assert((a + b)[n] == a[n]);
        lemma_prefix_len_is(a + b, accepts, n);
    } else {
        let m = (a.len() + prefix_len(b, accepts)) as int;
        assert forall|i: int| 0 <= i < m implies accepts(#[trigger] (a + b)[i]) by {
            if i < a.len() {
                assert((a + b)[i] == a[i]);
            } else {
                assert((a + b)[i] == b[i - a.len()]);
            }
        }
        if m < (a + b).len() {
            assert((a + b)[m] == b[m - a.len()]);
        }
        lemma_prefix_len_is(a + b, accepts, m);
    }
}

} // verus!
