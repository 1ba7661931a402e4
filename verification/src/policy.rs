//! Which shortest edit script the aligner writes.
//!
//! Two sequences often have several shortest edit scripts. The aligner works
//! on the shorter sequence as `a` and the longer as `b`, in rounds: round `p`
//! finds, for each diagonal of the edit graph from `-p` to `delta + p`, the
//! furthest row that a path dropping at most `p` elements of `a` within the
//! band reaches, and from which neighbouring diagonal it got there. Where both
//! neighbours lead equally far, the one below is taken. The script follows
//! these steps back from the end point.
use vstd::prelude::*;
use crate::wu::Edit;

verus! {

/// The row at which a run of pairs ends that begins in row `y` of diagonal
/// `k`.
pub open spec fn run_end<T>(a: Seq<T>, b: Seq<T>, same: spec_fn(T, T) -> bool, k: int, y: int) -> int
    decreases b.len() - y,
{
    if 0 <= y - k < a.len() && 0 <= y < b.len() && same(a[y - k], b[y]) {
        run_end(a, b, same, k, y + 1)
    } else {
        y
    }
}

/// The round whose row on the diagonal below `k` round `p` goes on from.
pub open spec fn round_below<T>(a: Seq<T>, b: Seq<T>, p: int, k: int) -> int {
    if k <= b.len() - a.len() {
        p
    } else {
        p - 1
    }
}

/// The round whose row on the diagonal above `k` round `p` goes on from.
pub open spec fn round_above<T>(a: Seq<T>, b: Seq<T>, p: int, k: int) -> int {
    if k >= b.len() - a.len() {
        p
    } else {
        p - 1
    }
}

/// Round `p` deals with diagonal `k`.
pub open spec fn in_round<T>(a: Seq<T>, b: Seq<T>, p: int, k: int) -> bool {
    0 <= p && -p <= k <= b.len() - a.len() + p
}

/// How far the diagonals are from the last one that a round deals with:
/// the round goes up to diagonal `delta`, then down to it, then takes it.
pub open spec fn turn<T>(a: Seq<T>, b: Seq<T>, p: int, k: int) -> int {
    if k <= b.len() - a.len() {
        k + p + 1
    } else {
        b.len() - a.len() + p - k + 1
    }
}

/// The row that round `p` reaches on diagonal `k`, or -1 where the round
/// does not deal with that diagonal.
pub open spec fn reach<T>(a: Seq<T>, b: Seq<T>, same: spec_fn(T, T) -> bool, p: int, k: int) -> int
    decreases p + 1, turn(a, b, p, k),
{
    if in_round(a, b, p, k) && a.len() <= b.len() {
        let below = reach(a, b, same, round_below(a, b, p, k), k - 1);
        let above = reach(a, b, same, round_above(a, b, p, k), k + 1);
        run_end(
            a,
            b,
            same,
            k,
            if above > below + 1 {
                above
            } else {
                below + 1
            },
        )
    } else {
        -1
    }
}

/// The step that takes one element of `a`, written for the caller: the
/// caller's new sequence is `a` when the two were exchanged.
pub open spec fn step_a(reverse: bool, x: int) -> Edit {
    if reverse {
        Edit::Add { new: x as usize }
    } else {
        Edit::Delete { old: x as usize }
    }
}

/// The step that takes one element of `b`.
pub open spec fn step_b(reverse: bool, y: int) -> Edit {
    if reverse {
        Edit::Delete { old: y as usize }
    } else {
        Edit::Add { new: y as usize }
    }
}

/// The step that takes a pair.
pub open spec fn step_both(reverse: bool, x: int, y: int) -> Edit {
    if reverse {
        Edit::Common { old: y as usize, new: x as usize }
    } else {
        Edit::Common { old: x as usize, new: y as usize }
    }
}

/// The steps from the point `(px, py)` to the point `(x, y)`: first on one
/// side only, until the diagonal of `(x, y)` is reached, then pairs.
pub open spec fn leg(reverse: bool, px: int, py: int, x: int, y: int) -> Seq<Edit>
    decreases (x - px) + (y - py),
{
    if px <= x && py <= y && (px < x || py < y) {
        if y - py > x - px {
            seq![step_b(reverse, py)] + leg(reverse, px, py + 1, x, y)
        } else if y - py < x - px {
            seq![step_a(reverse, px)] + leg(reverse, px + 1, py, x, y)
        } else {
            seq![step_both(reverse, px, py)] + leg(reverse, px + 1, py + 1, x, y)
        }
    } else {
        Seq::empty()
    }
}

/// The point of diagonal `k` in row `y`, or the origin where no row has been
/// reached.
pub open spec fn point_on(k: int, y: int) -> (int, int) {
    if y < 0 {
        (0, 0)
    } else {
        (y - k, y)
    }
}

/// The script from the origin to the point that round `p` reaches on
/// diagonal `k`: the script to the point on the neighbouring diagonal that
/// led there, then the leg between the two.
pub open spec fn way<T>(
    a: Seq<T>,
    b: Seq<T>,
    same: spec_fn(T, T) -> bool,
    reverse: bool,
    p: int,
    k: int,
) -> Seq<Edit>
    decreases p + 1, turn(a, b, p, k),
{
    if in_round(a, b, p, k) && a.len() <= b.len() {
        let below = reach(a, b, same, round_below(a, b, p, k), k - 1);
        let above = reach(a, b, same, round_above(a, b, p, k), k + 1);
        let end = reach(a, b, same, p, k);
        if above > below + 1 {
            let from = point_on(k + 1, above);
            way(a, b, same, reverse, round_above(a, b, p, k), k + 1) + leg(
                reverse,
                from.0,
                from.1,
                end - k,
                end,
            )
        } else {
            let from = point_on(k - 1, below);
            way(a, b, same, reverse, round_below(a, b, p, k), k - 1) + leg(
                reverse,
                from.0,
                from.1,
                end - k,
                end,
            )
        }
    } else {
        Seq::empty()
    }
}

/// The first round from round `p` on in which diagonal `delta` reaches the
/// last row.
pub open spec fn last_round<T>(a: Seq<T>, b: Seq<T>, same: spec_fn(T, T) -> bool, p: int) -> int
    decreases a.len() - p,
{
    if p >= a.len() || reach(a, b, same, p, b.len() - a.len()) >= b.len() {
        p
    } else {
        last_round(a, b, same, p + 1)
    }
}

/// The edit script from `a` to `b` that the aligner writes. Where `a` is the
/// longer sequence, the two change places for the search, `same` takes the
/// element of `b` first, and the steps are written for the caller's order.
pub open spec fn shortest_edit_script<T>(a: Seq<T>, b: Seq<T>, same: spec_fn(T, T) -> bool) -> Seq<
    Edit,
> {
    if a.len() > b.len() {
        way(b, a, same, true, last_round(b, a, same, 0), a.len() - b.len())
    } else {
        way(a, b, same, false, last_round(a, b, same, 0), b.len() - a.len())
    }
}

/// A round does not reach a diagonal that it does not deal with.
pub proof fn lemma_reach_outside<T>(
    a: Seq<T>,
    b: Seq<T>,
    same: spec_fn(T, T) -> bool,
    reverse: bool,
    p: int,
    k: int,
)
    requires
        !in_round(a, b, p, k),
    ensures
        reach(a, b, same, p, k) == -1,
        way(a, b, same, reverse, p, k) == Seq::<Edit>::empty(),
{
}

/// The aligner looks at the elements only through the relation: where
/// `same` holds of two elements exactly when `same_key` holds of their keys,
/// it reaches the same rows for the keys as for the elements.
pub proof fn lemma_reach_map<T, U>(
    a: Seq<T>,
    b: Seq<T>,
    same: spec_fn(T, T) -> bool,
    key: spec_fn(T) -> U,
    same_key: spec_fn(U, U) -> bool,
    reverse: bool,
    p: int,
    k: int,
)
    requires
        forall|x: T, y: T| #[trigger] same(x, y) == same_key(key(x), key(y)),
    ensures
        reach(a, b, same, p, k) == reach(a.map_values(key), b.map_values(key), same_key, p, k),
        way(a, b, same, reverse, p, k) == way(
            a.map_values(key),
            b.map_values(key),
            same_key,
            reverse,
            p,
            k,
        ),
    decreases p + 1, turn(a, b, p, k),
{
    if in_round(a, b, p, k) && a.len() <= b.len() {
        lemma_reach_map(a, b, same, key, same_key, reverse, round_below(a, b, p, k), k - 1);
        lemma_reach_map(a, b, same, key, same_key, reverse, round_above(a, b, p, k), k + 1);
        let below = reach(a, b, same, round_below(a, b, p, k), k - 1);
        let above = reach(a, b, same, round_above(a, b, p, k), k + 1);
        lemma_run_end_map(
            a,
            b,
            same,
            key,
            same_key,
            k,
            if above > below + 1 {
                above
            } else {
                below + 1
            },
        );
    }
}

/// A run of pairs ends in the same row for the keys as for the elements.
pub proof fn lemma_run_end_map<T, U>(
    a: Seq<T>,
    b: Seq<T>,
    same: spec_fn(T, T) -> bool,
    key: spec_fn(T) -> U,
    same_key: spec_fn(U, U) -> bool,
    k: int,
    y: int,
)
    requires
        forall|x: T, y: T| #[trigger] same(x, y) == same_key(key(x), key(y)),
    ensures
        run_end(a, b, same, k, y) == run_end(a.map_values(key), b.map_values(key), same_key, k, y),
    decreases b.len() - y,
{
    if 0 <= y - k < a.len() && 0 <= y < b.len() {
        if same(a[y - k], b[y]) {
            lemma_run_end_map(a, b, same, key, same_key, k, y + 1);
        }
    }
}

/// The search ends in the same round for the keys as for the elements.
pub proof fn lemma_last_round_map<T, U>(
    a: Seq<T>,
    b: Seq<T>,
    same: spec_fn(T, T) -> bool,
    key: spec_fn(T) -> U,
    same_key: spec_fn(U, U) -> bool,
    p: int,
)
    requires
        forall|x: T, y: T| #[trigger] same(x, y) == same_key(key(x), key(y)),
    ensures
        last_round(a, b, same, p) == last_round(a.map_values(key), b.map_values(key), same_key, p),
    decreases a.len() - p,
{
    lemma_reach_map(a, b, same, key, same_key, false, p, b.len() - a.len());
    if !(p >= a.len() || reach(a, b, same, p, b.len() - a.len()) >= b.len()) {
        lemma_last_round_map(a, b, same, key, same_key, p + 1);
    }
}

/// The aligner writes the same script for the keys as for the elements.
pub proof fn lemma_script_map<T, U>(
    a: Seq<T>,
    b: Seq<T>,
    same: spec_fn(T, T) -> bool,
    key: spec_fn(T) -> U,
    same_key: spec_fn(U, U) -> bool,
)
    requires
        forall|x: T, y: T| #[trigger] same(x, y) == same_key(key(x), key(y)),
    ensures
        shortest_edit_script(a, b, same) == shortest_edit_script(
            a.map_values(key),
            b.map_values(key),
            same_key,
        ),
{
    if a.len() > b.len() {
        lemma_last_round_map(b, a, same, key, same_key, 0);
        lemma_reach_map(
            b,
            a,
            same,
            key,
            same_key,
            true,
            last_round(b, a, same, 0),
            a.len() - b.len(),
        );
    } else {
        lemma_last_round_map(a, b, same, key, same_key, 0);
        lemma_reach_map(
            a,
            b,
            same,
            key,
            same_key,
            false,
            last_round(a, b, same, 0),
            b.len() - a.len(),
        );
    }
}

} // verus!
