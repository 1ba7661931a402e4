//! The edit graph of two sequences and how far each of its diagonals can be
//! reached at a given cost.
//!
//! A point `(x, y)` of the graph stands for the first `x` elements of `a` and
//! the first `y` elements of `b`; it lies on diagonal `k = y - x`. With `a`
//! no longer than `b`, the end point lies on diagonal `delta = |b| - |a|`, and
//! a path from the origin to the end that drops `p` elements of `a` makes
//! `delta + 2p` edits in all. The cost of a point counts the elements of `a`
//! that a path through it must drop: those dropped on the way to it and, above
//! diagonal `delta`, those that the way back to `delta` will drop.
use vstd::prelude::*;
use crate::lcs::{lcs_at, lcs_len, lemma_lcs_at};
use crate::policy::{round_above, round_below};

verus! {

/// `(y - k, y)` is a point of the edit graph of `a` and `b`.
pub open spec fn on_grid<T>(a: Seq<T>, b: Seq<T>, k: int, y: int) -> bool {
    0 <= y <= b.len() && 0 <= y - k <= a.len()
}

/// The least number of elements of `a` that a path from the origin to the
/// end drops if it passes through the point `(y - k, y)` and reaches it by a
/// shortest way.
pub open spec fn cost<T>(a: Seq<T>, b: Seq<T>, same: spec_fn(T, T) -> bool, k: int, y: int) -> int {
    let x = y - k;
    let delta = b.len() - a.len();
    if k <= delta {
        x - lcs_at(a, b, same, x, y)
    } else {
        y - lcs_at(a, b, same, x, y) - delta
    }
}

/// No point of diagonal `k` whose cost is at most `q` lies beyond row `f`.
pub open spec fn furthest<T>(
    a: Seq<T>,
    b: Seq<T>,
    same: spec_fn(T, T) -> bool,
    k: int,
    q: int,
    f: int,
) -> bool {
    forall|y: int| on_grid(a, b, k, y) && #[trigger] cost(a, b, same, k, y) <= q ==> y <= f
}

/// A point costs at least its distance from the band between diagonal 0 and
/// diagonal `delta`.
pub proof fn lemma_cost_floor<T>(a: Seq<T>, b: Seq<T>, same: spec_fn(T, T) -> bool, k: int, y: int)
    requires
        a.len() <= b.len(),
        on_grid(a, b, k, y),
    ensures
        cost(a, b, same, k, y) >= 0,
        cost(a, b, same, k, y) >= -k,
        cost(a, b, same, k, y) >= k - (b.len() - a.len()),
{
    lemma_lcs_at(a, b, same, y - k, y);
}

/// Diagonals further from the band than `q` hold no point of cost `q` or less.
pub proof fn lemma_unreached<T>(
    a: Seq<T>,
    b: Seq<T>,
    same: spec_fn(T, T) -> bool,
    k: int,
    q: int,
    f: int,
)
    requires
        a.len() <= b.len(),
        k < -q || k > b.len() - a.len() + q || q < 0,
    ensures
        furthest(a, b, same, k, q, f),
{
    assert forall|y: int| on_grid(a, b, k, y) && #[trigger] cost(a, b, same, k, y) <= q implies y
        <= f by {
        lemma_cost_floor(a, b, same, k, y);
    }
}

/// The end of a run of pairs along diagonal `k`: the point `(y - k, y)` is
/// on the grid and the run cannot go on from it.
pub open spec fn run_stops<T>(a: Seq<T>, b: Seq<T>, same: spec_fn(T, T) -> bool, k: int, y: int) -> bool {
    on_grid(a, b, k, y) && (y - k < a.len() && y < b.len() ==> !same(a[y - k], b[y]))
}

/// One point of diagonal `k`: if it costs no more than `p`, the run that
/// ends in row `end` has passed it.
proof fn lemma_extend_at<T>(
    a: Seq<T>,
    b: Seq<T>,
    same: spec_fn(T, T) -> bool,
    k: int,
    p: int,
    below: int,
    above: int,
    end: int,
    y: int,
)
    requires
        a.len() <= b.len(),
        furthest(a, b, same, k - 1, round_below(a, b, p, k), below),
        furthest(a, b, same, k + 1, round_above(a, b, p, k), above),
        below + 1 <= end,
        above <= end,
        run_stops(a, b, same, k, end),
        on_grid(a, b, k, y),
        cost(a, b, same, k, y) <= p,
    ensures
        y <= end,
    decreases y,
{
    let x = y - k;
    lemma_lcs_at(a, b, same, x, y);
    if y == 0 {
        // The run ends in row 0 or later.
    } else if x == 0 {
        // The point is reached from the one below it, at no cost but the step.
        lemma_lcs_at(a, b, same, x, y - 1);
        assert(cost(a, b, same, k - 1, y - 1) <= round_below(a, b, p, k));
    } else if same(a[x - 1], b[y - 1]) {
        // A pair leads to the point, so the run does not stop before it.
        assert(cost(a, b, same, k, y - 1) == cost(a, b, same, k, y));
        lemma_extend_at(a, b, same, k, p, below, above, end, y - 1);
    } else if lcs_at(a, b, same, x, y) == lcs_at(a, b, same, x, y - 1) {
        assert(cost(a, b, same, k - 1, y - 1) <= round_below(a, b, p, k));
    } else {
        assert(cost(a, b, same, k + 1, y) <= round_above(a, b, p, k));
    }
}

/// Bringing a diagonal to cost `p`: from the rows reached on the two
/// neighbouring diagonals, step onto diagonal `k` and follow the pairs as far
/// as they go. No point of cost `p` or less lies beyond where that ends. A
/// step up from the diagonal below is free up to diagonal `delta`, a step down
/// from the one above is free from `delta` on; the other steps cost one, so
/// for them the neighbour counts as the round before left it.
pub proof fn lemma_extend<T>(
    a: Seq<T>,
    b: Seq<T>,
    same: spec_fn(T, T) -> bool,
    k: int,
    p: int,
    below: int,
    above: int,
    end: int,
)
    requires
        a.len() <= b.len(),
        furthest(a, b, same, k - 1, round_below(a, b, p, k), below),
        furthest(a, b, same, k + 1, round_above(a, b, p, k), above),
        below + 1 <= end,
        above <= end,
        run_stops(a, b, same, k, end),
    ensures
        furthest(a, b, same, k, p, end),
{
    assert forall|y: int| on_grid(a, b, k, y) && #[trigger] cost(a, b, same, k, y) <= p implies y
        <= end by {
        lemma_extend_at(a, b, same, k, p, below, above, end, y);
    }
}

/// While the end point costs more than `q`, diagonal `delta` has not been
/// followed to the end at cost `q`; and the end point costs `|a|` less the
/// length of a longest common subsequence.
pub proof fn lemma_end_cost<T>(a: Seq<T>, b: Seq<T>, same: spec_fn(T, T) -> bool, q: int, f: int)
    requires
        a.len() <= b.len(),
        furthest(a, b, same, b.len() - a.len(), q, f),
        f < b.len(),
    ensures
        a.len() - lcs_len(a, b, same) > q,
{
    let k = b.len() - a.len();
    assert(a.take(a.len() as int) =~= a);
    assert(b.take(b.len() as int) =~= b);
    assert(cost(a, b, same, k, b.len() as int) == a.len() - lcs_len(a, b, same));
}

} // verus!
