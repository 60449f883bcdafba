//! Counting how many elements of a sequence satisfy a predicate, with the
//! little lemmas the board invariant needs: bounds, point updates, and
//! comparisons between two predicates.

use vstd::prelude::*;

verus! {

/// How many elements of `s` satisfy `p`.
pub open spec fn count_where<T>(s: Seq<T>, p: spec_fn(T) -> bool) -> int
    decreases s.len(),
{
    if s.len() == 0 {
        0
    } else {
        count_where(s.drop_last(), p) + if p(s.last()) { 1int } else { 0int }
    }
}

pub proof fn lemma_count_bounds<T>(s: Seq<T>, p: spec_fn(T) -> bool)
    ensures
        0 <= count_where(s, p) <= s.len(),
    decreases s.len(),
{
    if s.len() > 0 {
        lemma_count_bounds(s.drop_last(), p);
    }
}

/// Replacing one element changes the count by the difference of the two
/// elements' indicator values.
pub proof fn lemma_count_update<T>(s: Seq<T>, p: spec_fn(T) -> bool, i: int, v: T)
    requires
        0 <= i < s.len(),
    ensures
        count_where(s.update(i, v), p) == count_where(s, p)
            - (if p(s[i]) { 1int } else { 0int }) + (if p(v) { 1int } else { 0int }),
    decreases s.len(),
{
    let t = s.update(i, v);
    assert(t.len() == s.len());
    if i == s.len() - 1 {
        assert(t.drop_last() =~= s.drop_last());
        assert(t.last() == v);
    } else {
        assert(t.drop_last() =~= s.drop_last().update(i, v));
        assert(t.last() == s.last());
        lemma_count_update(s.drop_last(), p, i, v);
    }
}

/// If every element satisfying `p` also satisfies `q`, `p`'s count is no
/// larger than `q`'s.
pub proof fn lemma_count_le<T>(s: Seq<T>, p: spec_fn(T) -> bool, q: spec_fn(T) -> bool)
    requires
        forall|i: int| 0 <= i < s.len() && p(#[trigger] s[i]) ==> q(s[i]),
    ensures
        count_where(s, p) <= count_where(s, q),
    decreases s.len(),
{
    if s.len() > 0 {
        assert(forall|i: int| 0 <= i < s.drop_last().len() && p(#[trigger] s.drop_last()[i])
            ==> q(s.drop_last()[i]));
        lemma_count_le(s.drop_last(), p, q);
        assert(s.last() == s[s.len() - 1]);
    }
}

/// As above, but strict when some element satisfies `q` and not `p`.
pub proof fn lemma_count_lt<T>(s: Seq<T>, p: spec_fn(T) -> bool, q: spec_fn(T) -> bool, k: int)
    requires
        forall|i: int| 0 <= i < s.len() && p(#[trigger] s[i]) ==> q(s[i]),
        0 <= k < s.len(),
        q(s[k]),
        !p(s[k]),
    ensures
        count_where(s, p) < count_where(s, q),
    decreases s.len(),
{
    assert(forall|i: int| 0 <= i < s.drop_last().len() && p(#[trigger] s.drop_last()[i])
        ==> q(s.drop_last()[i]));
    if k == s.len() - 1 {
        lemma_count_le(s.drop_last(), p, q);
        assert(s.last() == s[s.len() - 1]);
    } else {
        lemma_count_lt(s.drop_last(), p, q, k);
        assert(s.last() == s[s.len() - 1]);
    }
}

/// Two sequences whose elements satisfy the two predicates at exactly the
/// same positions have the same counts.
pub proof fn lemma_count_pointwise<A, B>(
    s1: Seq<A>,
    s2: Seq<B>,
    p: spec_fn(A) -> bool,
    q: spec_fn(B) -> bool,
)
    requires
        s1.len() == s2.len(),
        forall|i: int| 0 <= i < s1.len() ==> (p(#[trigger] s1[i]) <==> q(#[trigger] s2[i])),
    ensures
        count_where(s1, p) == count_where(s2, q),
    decreases s1.len(),
{
    if s1.len() > 0 {
        assert(forall|i: int| 0 <= i < s1.drop_last().len()
            ==> (p(#[trigger] s1.drop_last()[i]) <==> q(#[trigger] s2.drop_last()[i])));
        lemma_count_pointwise(s1.drop_last(), s2.drop_last(), p, q);
        assert(s1.last() == s1[s1.len() - 1]);
        assert(s2.last() == s2[s2.len() - 1]);
    }
}

/// When every element satisfies `p`, the count is the whole length.
pub proof fn lemma_count_all<T>(s: Seq<T>, p: spec_fn(T) -> bool)
    requires
        forall|i: int| 0 <= i < s.len() ==> p(#[trigger] s[i]),
    ensures
        count_where(s, p) == s.len(),
    decreases s.len(),
{
    if s.len() > 0 {
        lemma_count_all(s.drop_last(), p);
        assert(s.last() == s[s.len() - 1]);
    }
}

} // verus!

verus! {

/// When no element satisfies `p`, the count is zero.
pub proof fn lemma_count_none<T>(s: Seq<T>, p: spec_fn(T) -> bool)
    requires
        forall|i: int| 0 <= i < s.len() ==> !p(#[trigger] s[i]),
    ensures
        count_where(s, p) == 0,
    decreases s.len(),
{
    if s.len() > 0 {
        lemma_count_none(s.drop_last(), p);
        assert(s.last() == s[s.len() - 1]);
    }
}

} // verus!
