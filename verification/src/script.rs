//! What an edit script is: the positions it visits, what it counts, and when
//! it is a shortest one.
use vstd::prelude::*;
use vstd::std_specs::cmp::PartialEqSpec;
use crate::lcs::{lcs_len, lemma_lcs_drop_last, lemma_lcs_reflexive, lemma_lcs_symmetric};
use crate::wu::Edit;

verus! {

/// The positions of the old sequence that a script visits, in script order.
pub open spec fn old_indices(ses: Seq<Edit>) -> Seq<int>
    decreases ses.len(),
{
    if ses.len() == 0 {
        Seq::empty()
    } else {
        let before = old_indices(ses.drop_last());
        match ses.last() {
            Edit::Add { .. } => before,
            Edit::Delete { old } => before.push(old as int),
            Edit::Common { old, .. } => before.push(old as int),
        }
    }
}

/// The positions of the new sequence that a script visits, in script order.
pub open spec fn new_indices(ses: Seq<Edit>) -> Seq<int>
    decreases ses.len(),
{
    if ses.len() == 0 {
        Seq::empty()
    } else {
        let before = new_indices(ses.drop_last());
        match ses.last() {
            Edit::Add { new } => before.push(new as int),
            Edit::Delete { .. } => before,
            Edit::Common { new, .. } => before.push(new as int),
        }
    }
}

/// The number of `Add` steps of a script.
pub open spec fn adds(ses: Seq<Edit>) -> nat
    decreases ses.len(),
{
    if ses.len() == 0 {
        0
    } else if ses.last() is Add {
        adds(ses.drop_last()) + 1
    } else {
        adds(ses.drop_last())
    }
}

/// The number of `Delete` steps of a script.
pub open spec fn deletes(ses: Seq<Edit>) -> nat
    decreases ses.len(),
{
    if ses.len() == 0 {
        0
    } else if ses.last() is Delete {
        deletes(ses.drop_last()) + 1
    } else {
        deletes(ses.drop_last())
    }
}

/// The number of `Common` steps of a script.
pub open spec fn commons(ses: Seq<Edit>) -> nat
    decreases ses.len(),
{
    if ses.len() == 0 {
        0
    } else if ses.last() is Common {
        commons(ses.drop_last()) + 1
    } else {
        commons(ses.drop_last())
    }
}

/// The number of edits that a script makes: its steps other than `Common`.
pub open spec fn edit_count(ses: Seq<Edit>) -> nat {
    adds(ses) + deletes(ses)
}

/// The positions `0, 1, .., n - 1`.
pub open spec fn ascending(n: nat) -> Seq<int> {
    Seq::new(n, |i: int| i)
}

/// The script covers an old sequence of `m` elements and a new one of `n`:
/// it visits every position of each exactly once, in order.
pub open spec fn is_edit_script(ses: Seq<Edit>, m: nat, n: nat) -> bool {
    old_indices(ses) == ascending(m) && new_indices(ses) == ascending(n)
}

/// Every `Common` step of the script pairs an element of `a` with an element
/// of `b` that is the same.
pub open spec fn commons_agree<T>(
    ses: Seq<Edit>,
    a: Seq<T>,
    b: Seq<T>,
    same: spec_fn(T, T) -> bool,
) -> bool {
    forall|i: int|
        0 <= i < ses.len() ==> (#[trigger] ses[i] matches Edit::Common { old, new } ==> old
            < a.len() && new < b.len() && same(a[old as int], b[new as int]))
}

/// The script turns `a` into `b`, keeps only what is the same, and makes as
/// few edits as any script can.
pub open spec fn is_shortest_edit_script<T>(
    ses: Seq<Edit>,
    a: Seq<T>,
    b: Seq<T>,
    same: spec_fn(T, T) -> bool,
) -> bool {
    &&& is_edit_script(ses, a.len(), b.len())
    &&& commons_agree(ses, a, b, same)
    &&& edit_count(ses) == a.len() + b.len() - 2 * lcs_len(a, b, same)
}

/// The script of `n` `Common` steps that pairs each position with itself.
pub open spec fn all_common(n: nat) -> Seq<Edit> {
    Seq::new(n, |i: int| Edit::Common { old: i as usize, new: i as usize })
}

/// Two scripts cost the same, and each adds as many elements as the other
/// deletes.
pub open spec fn mirrors(forth: Seq<Edit>, back: Seq<Edit>) -> bool {
    &&& edit_count(forth) == edit_count(back)
    &&& adds(forth) == deletes(back)
    &&& deletes(forth) == adds(back)
}

/// The relation by which `==` compares two values of `T`.
pub open spec fn eq_rel<T: PartialEq>() -> spec_fn(T, T) -> bool {
    |x: T, y: T| x.eq_spec(&y)
}

/// The elements of `a` at the old positions of a script, in script order.
pub open spec fn old_side<T>(ses: Seq<Edit>, a: Seq<T>) -> Seq<T> {
    old_indices(ses).map_values(|i: int| a[i])
}

/// The elements of `b` at the new positions of a script, in script order.
pub open spec fn new_side<T>(ses: Seq<Edit>, b: Seq<T>) -> Seq<T> {
    new_indices(ses).map_values(|i: int| b[i])
}

/// Replaying an edit script gives back both sequences: the old one from its
/// old positions, the new one from its new positions.
pub proof fn lemma_round_trip<T>(ses: Seq<Edit>, a: Seq<T>, b: Seq<T>)
    requires
        is_edit_script(ses, a.len(), b.len()),
    ensures
        old_side(ses, a) == a,
        new_side(ses, b) == b,
{
}

/// What appending one step does to the projections and counts of a script.
pub proof fn lemma_push(ses: Seq<Edit>, e: Edit)
    ensures
        old_indices(ses.push(e)) == (match e {
            Edit::Add { .. } => old_indices(ses),
            Edit::Delete { old } => old_indices(ses).push(old as int),
            Edit::Common { old, .. } => old_indices(ses).push(old as int),
        }),
        new_indices(ses.push(e)) == (match e {
            Edit::Add { new } => new_indices(ses).push(new as int),
            Edit::Delete { .. } => new_indices(ses),
            Edit::Common { new, .. } => new_indices(ses).push(new as int),
        }),
        adds(ses.push(e)) == adds(ses) + (if e is Add { 1nat } else { 0nat }),
        deletes(ses.push(e)) == deletes(ses) + (if e is Delete { 1nat } else { 0nat }),
        commons(ses.push(e)) == commons(ses) + (if e is Common { 1nat } else { 0nat }),
{
    assert(ses.push(e).drop_last() =~= ses);
}

/// A script visits each old position in a `Delete` or a `Common` step and
/// each new position in an `Add` or a `Common` step.
pub proof fn lemma_counts(ses: Seq<Edit>)
    ensures
        old_indices(ses).len() == deletes(ses) + commons(ses),
        new_indices(ses).len() == adds(ses) + commons(ses),
        ses.len() == adds(ses) + deletes(ses) + commons(ses),
    decreases ses.len(),
{
    if ses.len() > 0 {
        lemma_counts(ses.drop_last());
    }
}

/// The steps of a script before its last one cover what is left when the
/// last step's positions are taken away.
pub proof fn lemma_drop_last(ses: Seq<Edit>, m: nat, n: nat)
    requires
        is_edit_script(ses, m, n),
        ses.len() > 0,
    ensures
        match ses.last() {
            Edit::Add { new } => n > 0 && new == n - 1 && is_edit_script(
                ses.drop_last(),
                m,
                (n - 1) as nat,
            ),
            Edit::Delete { old } => m > 0 && old == m - 1 && is_edit_script(
                ses.drop_last(),
                (m - 1) as nat,
                n,
            ),
            Edit::Common { old, new } => m > 0 && n > 0 && old == m - 1 && new == n - 1
                && is_edit_script(ses.drop_last(), (m - 1) as nat, (n - 1) as nat),
        },
{
    let before_old = old_indices(ses.drop_last());
    let before_new = new_indices(ses.drop_last());
    match ses.last() {
        Edit::Add { new } => {
            assert(before_new.push(new as int).len() == n);
            assert(before_new.push(new as int)[n - 1] == new);
            assert(before_new =~= ascending((n - 1) as nat)) by {
                assert forall|i: int| 0 <= i < n - 1 implies before_new[i] == i by {
                    assert(before_new.push(new as int)[i] == before_new[i]);
                }
            }
        },
        Edit::Delete { old } => {
            assert(before_old.push(old as int).len() == m);
            assert(before_old.push(old as int)[m - 1] == old);
            assert(before_old =~= ascending((m - 1) as nat)) by {
                assert forall|i: int| 0 <= i < m - 1 implies before_old[i] == i by {
                    assert(before_old.push(old as int)[i] == before_old[i]);
                }
            }
        },
        Edit::Common { old, new } => {
            assert(before_new.push(new as int).len() == n);
            assert(before_new.push(new as int)[n - 1] == new);
            assert(before_new =~= ascending((n - 1) as nat)) by {
                assert forall|i: int| 0 <= i < n - 1 implies before_new[i] == i by {
                    assert(before_new.push(new as int)[i] == before_new[i]);
                }
            }
            assert(before_old.push(old as int).len() == m);
            assert(before_old.push(old as int)[m - 1] == old);
            assert(before_old =~= ascending((m - 1) as nat)) by {
                assert forall|i: int| 0 <= i < m - 1 implies before_old[i] == i by {
                    assert(before_old.push(old as int)[i] == before_old[i]);
                }
            }
        },
    }
}

/// Every step of the script names positions inside an old sequence of `m`
/// elements and a new one of `n`.
pub open spec fn in_range(ses: Seq<Edit>, m: nat, n: nat) -> bool {
    forall|i: int|
        0 <= i < ses.len() ==> match #[trigger] ses[i] {
            Edit::Add { new } => new < n,
            Edit::Delete { old } => old < m,
            Edit::Common { old, new } => old < m && new < n,
        }
}

/// A script that covers two sequences names no position outside them.
pub proof fn lemma_in_range(ses: Seq<Edit>, m: nat, n: nat)
    requires
        is_edit_script(ses, m, n),
    ensures
        in_range(ses, m, n),
    decreases ses.len(),
{
    if ses.len() > 0 {
        let rest = ses.drop_last();
        lemma_drop_last(ses, m, n);
        match ses.last() {
            Edit::Add { .. } => lemma_in_range(rest, m, (n - 1) as nat),
            Edit::Delete { .. } => lemma_in_range(rest, (m - 1) as nat, n),
            Edit::Common { .. } => lemma_in_range(rest, (m - 1) as nat, (n - 1) as nat),
        }
        assert forall|i: int| 0 <= i < ses.len() implies match #[trigger] ses[i] {
            Edit::Add { new } => new < n,
            Edit::Delete { old } => old < m,
            Edit::Common { old, new } => old < m && new < n,
        } by {
            if i < rest.len() {
                assert(rest[i] == ses[i]);
            }
        }
    }
}

/// The `Common` steps of a script pick a common subsequence, so there are no
/// more of them than a longest one has elements.
pub proof fn lemma_commons_bounded<T>(
    ses: Seq<Edit>,
    a: Seq<T>,
    b: Seq<T>,
    same: spec_fn(T, T) -> bool,
)
    requires
        is_edit_script(ses, a.len(), b.len()),
        commons_agree(ses, a, b, same),
    ensures
        commons(ses) <= lcs_len(a, b, same),
    decreases ses.len(),
{
    if ses.len() > 0 {
        let rest = ses.drop_last();
        lemma_drop_last(ses, a.len(), b.len());
        lemma_lcs_drop_last(a, b, same);
        let (ra, rb) = match ses.last() {
            Edit::Add { .. } => (a, b.drop_last()),
            Edit::Delete { .. } => (a.drop_last(), b),
            Edit::Common { .. } => (a.drop_last(), b.drop_last()),
        };
        lemma_in_range(rest, ra.len(), rb.len());
        lemma_commons_bounded(rest, ra, rb, same);
    }
}

/// A script that covers two sequences and makes no edit pairs each position
/// with itself.
pub proof fn lemma_no_edits(ses: Seq<Edit>, m: nat, n: nat)
    requires
        is_edit_script(ses, m, n),
        edit_count(ses) == 0,
    ensures
        m == n,
        ses.len() == m,
        forall|i: int|
            0 <= i < ses.len() ==> (#[trigger] ses[i] matches Edit::Common { old, new } && old == i
                && new == i),
    decreases ses.len(),
{
    lemma_counts(ses);
    if ses.len() > 0 {
        let rest = ses.drop_last();
        lemma_drop_last(ses, m, n);
        lemma_no_edits(rest, (m - 1) as nat, (n - 1) as nat);
        assert forall|i: int| 0 <= i < ses.len() implies (#[trigger] ses[i] matches Edit::Common {
            old,
            new,
        } && old == i && new == i) by {
            if i < rest.len() {
                assert(rest[i] == ses[i]);
            }
        }
    }
}

/// A shortest edit script from a sequence to itself has one `Common` step
/// for each element, in order, and no other step, where every element is the
/// same as itself.
pub proof fn lemma_all_common<T>(ses: Seq<Edit>, a: Seq<T>, same: spec_fn(T, T) -> bool)
    requires
        is_shortest_edit_script(ses, a, a, same),
        forall|x: T| #[trigger] same(x, x),
    ensures
        ses.len() == a.len(),
        forall|i: int|
            0 <= i < ses.len() ==> (#[trigger] ses[i] matches Edit::Common { old, new } && old == i
                && new == i),
{
    lemma_lcs_reflexive(a, same);
    lemma_no_edits(ses, a.len(), a.len());
}

/// Under a symmetric relation, a shortest script from `a` to `b` and one
/// from `b` to `a` make the same number of edits, and each adds as many
/// elements as the other deletes.
pub proof fn lemma_scripts_mirror<T>(
    forth: Seq<Edit>,
    back: Seq<Edit>,
    a: Seq<T>,
    b: Seq<T>,
    same: spec_fn(T, T) -> bool,
)
    requires
        is_shortest_edit_script(forth, a, b, same),
        is_shortest_edit_script(back, b, a, same),
        forall|x: T, y: T| #[trigger] same(x, y) == same(y, x),
    ensures
        edit_count(forth) == edit_count(back),
        adds(forth) == deletes(back),
        deletes(forth) == adds(back),
        commons(forth) == commons(back),
{
    lemma_lcs_symmetric(a, b, same);
    lemma_counts(forth);
    lemma_counts(back);
}

} // verus!
