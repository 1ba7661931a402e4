//! The length of a longest common subsequence of two sequences, relative to a
//! relation that says which elements count as the same.
use vstd::prelude::*;

verus! {

/// The length of a longest common subsequence of `a` and `b`, where an
/// element `x` of `a` may be paired with an element `y` of `b` when
/// `same(x, y)`.
pub open spec fn lcs_len<T>(a: Seq<T>, b: Seq<T>, same: spec_fn(T, T) -> bool) -> nat
    decreases a.len() + b.len(),
{
    if a.len() == 0 || b.len() == 0 {
        0
    } else if same(a.last(), b.last()) {
        1 + lcs_len(a.drop_last(), b.drop_last(), same)
    } else {
        let without_a = lcs_len(a.drop_last(), b, same);
        let without_b = lcs_len(a, b.drop_last(), same);
        if without_a >= without_b {
            without_a
        } else {
            without_b
        }
    }
}

/// A common subsequence is no longer than either sequence.
pub proof fn lemma_lcs_bounds<T>(a: Seq<T>, b: Seq<T>, same: spec_fn(T, T) -> bool)
    ensures
        lcs_len(a, b, same) <= a.len(),
        lcs_len(a, b, same) <= b.len(),
    decreases a.len() + b.len(),
{
    if a.len() == 0 || b.len() == 0 {
    } else {
        lemma_lcs_bounds(a.drop_last(), b.drop_last(), same);
        lemma_lcs_bounds(a.drop_last(), b, same);
        lemma_lcs_bounds(a, b.drop_last(), same);
    }
}

/// Dropping the last element of either sequence loses at most one pair and
/// gains none.
pub proof fn lemma_lcs_drop_last<T>(a: Seq<T>, b: Seq<T>, same: spec_fn(T, T) -> bool)
    ensures
        a.len() > 0 ==> lcs_len(a.drop_last(), b, same) <= lcs_len(a, b, same) <= lcs_len(
            a.drop_last(),
            b,
            same,
        ) + 1,
        b.len() > 0 ==> lcs_len(a, b.drop_last(), same) <= lcs_len(a, b, same) <= lcs_len(
            a,
            b.drop_last(),
            same,
        ) + 1,
    decreases a.len() + b.len(),
{
    if a.len() > 0 && b.len() > 0 {
        lemma_lcs_drop_last(a.drop_last(), b, same);
        lemma_lcs_drop_last(a, b.drop_last(), same);
    }
}

/// Under a symmetric relation the two sequences may change places.
pub proof fn lemma_lcs_symmetric<T>(a: Seq<T>, b: Seq<T>, same: spec_fn(T, T) -> bool)
    requires
        forall|x: T, y: T| #[trigger] same(x, y) == same(y, x),
    ensures
        lcs_len(a, b, same) == lcs_len(b, a, same),
    decreases a.len() + b.len(),
{
    if a.len() == 0 || b.len() == 0 {
    } else {
        lemma_lcs_symmetric(a.drop_last(), b.drop_last(), same);
        lemma_lcs_symmetric(a.drop_last(), b, same);
        lemma_lcs_symmetric(a, b.drop_last(), same);
    }
}

/// Under a reflexive relation a sequence has itself as a common subsequence.
pub proof fn lemma_lcs_reflexive<T>(a: Seq<T>, same: spec_fn(T, T) -> bool)
    requires
        forall|x: T| #[trigger] same(x, x),
    ensures
        lcs_len(a, a, same) == a.len(),
    decreases a.len(),
{
    if a.len() > 0 {
        lemma_lcs_reflexive(a.drop_last(), same);
    }
}

/// The length of a longest common subsequence of the first `i` elements of
/// `a` and the first `j` elements of `b`.
pub open spec fn lcs_at<T>(a: Seq<T>, b: Seq<T>, same: spec_fn(T, T) -> bool, i: int, j: int) -> int {
    lcs_len(a.take(i), b.take(j), same) as int
}

/// How the length for two prefixes follows from the lengths for shorter ones.
pub proof fn lemma_lcs_at<T>(a: Seq<T>, b: Seq<T>, same: spec_fn(T, T) -> bool, i: int, j: int)
    requires
        0 <= i <= a.len(),
        0 <= j <= b.len(),
    ensures
        0 <= lcs_at(a, b, same, i, j) <= i,
        lcs_at(a, b, same, i, j) <= j,
        i == 0 || j == 0 ==> lcs_at(a, b, same, i, j) == 0,
        i > 0 && j > 0 && same(a[i - 1], b[j - 1]) ==> lcs_at(a, b, same, i, j) == lcs_at(
            a,
            b,
            same,
            i - 1,
            j - 1,
        ) + 1,
        i > 0 && j > 0 && !same(a[i - 1], b[j - 1]) ==> (lcs_at(a, b, same, i, j) == lcs_at(
            a,
            b,
            same,
            i - 1,
            j,
        ) || lcs_at(a, b, same, i, j) == lcs_at(a, b, same, i, j - 1)),
        i > 0 ==> lcs_at(a, b, same, i - 1, j) <= lcs_at(a, b, same, i, j) <= lcs_at(
            a,
            b,
            same,
            i - 1,
            j,
        ) + 1,
        j > 0 ==> lcs_at(a, b, same, i, j - 1) <= lcs_at(a, b, same, i, j) <= lcs_at(
            a,
            b,
            same,
            i,
            j - 1,
        ) + 1,
{
    let pa = a.take(i);
    let pb = b.take(j);
    lemma_lcs_bounds(pa, pb, same);
    lemma_lcs_drop_last(pa, pb, same);
    if i > 0 {
        assert(pa.drop_last() =~= a.take(i - 1));
    }
    if j > 0 {
        assert(pb.drop_last() =~= b.take(j - 1));
    }
}

} // verus!
