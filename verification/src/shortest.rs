//! Why the script that the aligner writes is a shortest one.
use vstd::prelude::*;
use crate::furthest::{furthest, lemma_end_cost, lemma_extend, lemma_unreached, on_grid, run_stops};
use crate::lcs::{lcs_len, lemma_lcs_bounds, lemma_lcs_symmetric};
use crate::policy::{
    in_round, last_round, leg, point_on, reach, round_above, round_below, run_end,
    shortest_edit_script, step_a, step_b, step_both, turn, way,
};
use crate::script::{
    adds, all_common, ascending, commons, commons_agree, deletes, edit_count, is_edit_script,
    is_shortest_edit_script, lemma_all_common, lemma_commons_bounded, lemma_counts, lemma_push,
    lemma_round_trip, lemma_scripts_mirror, mirrors, new_indices, new_side, old_indices, old_side,
};
use crate::wu::Edit;

verus! {

/// `a[y - k]` and `b[y]` are the same.
pub open spec fn pair_at<T>(a: Seq<T>, b: Seq<T>, same: spec_fn(T, T) -> bool, k: int, y: int) -> bool {
    same(a[y - k], b[y])
}

/// A run of pairs begins where it is followed from, ends on the grid where
/// it cannot go on, and holds pairs only.
pub proof fn lemma_run_end<T>(a: Seq<T>, b: Seq<T>, same: spec_fn(T, T) -> bool, k: int, y: int)
    ensures
        y <= run_end(a, b, same, k, y),
        on_grid(a, b, k, y) ==> run_stops(a, b, same, k, run_end(a, b, same, k, y)),
        forall|j: int| y <= j < run_end(a, b, same, k, y) ==> #[trigger] pair_at(a, b, same, k, j),
    decreases b.len() - y,
{
    if 0 <= y - k < a.len() && 0 <= y < b.len() && same(a[y - k], b[y]) {
        lemma_run_end(a, b, same, k, y + 1);
    }
}

/// A round reaches a row on each diagonal that it deals with, one beyond the
/// row that counts on the diagonal below or further, and as far as the row
/// that counts on the diagonal above or further.
pub proof fn lemma_reach_step<T>(a: Seq<T>, b: Seq<T>, same: spec_fn(T, T) -> bool, p: int, k: int)
    ensures
        reach(a, b, same, p, k) >= -1,
        in_round(a, b, p, k) && a.len() <= b.len() ==> reach(a, b, same, p, k) >= reach(
            a,
            b,
            same,
            round_below(a, b, p, k),
            k - 1,
        ) + 1 >= 0 && reach(a, b, same, p, k) >= reach(a, b, same, round_above(a, b, p, k), k + 1),
    decreases p + 1, turn(a, b, p, k),
{
    if in_round(a, b, p, k) && a.len() <= b.len() {
        lemma_reach_step(a, b, same, round_below(a, b, p, k), k - 1);
        let below = reach(a, b, same, round_below(a, b, p, k), k - 1);
        let above = reach(a, b, same, round_above(a, b, p, k), k + 1);
        lemma_run_end(
            a,
            b,
            same,
            k,
            if above > below + 1 {
                above
            } else {
                below + 1
            },
        );
    }
}

/// Up to diagonal `delta`, a round reaches columns that grow with the
/// diagonal, none of them before column `p`.
pub proof fn lemma_columns_grow<T>(
    a: Seq<T>,
    b: Seq<T>,
    same: spec_fn(T, T) -> bool,
    p: int,
    j: int,
    k: int,
)
    requires
        a.len() <= b.len(),
        0 <= p,
        -p <= j <= k <= b.len() - a.len(),
    ensures
        p <= reach(a, b, same, p, j) - j <= reach(a, b, same, p, k) - k,
    decreases k - j, j + p,
{
    lemma_reach_step(a, b, same, p, k);
    if j < k {
        lemma_columns_grow(a, b, same, p, j, k - 1);
    } else if -p < j {
        lemma_columns_grow(a, b, same, p, j - 1, j - 1);
    }
}

/// From diagonal `delta` on, a round reaches rows that fall with the
/// diagonal.
pub proof fn lemma_rows_fall<T>(
    a: Seq<T>,
    b: Seq<T>,
    same: spec_fn(T, T) -> bool,
    p: int,
    k: int,
    j: int,
)
    requires
        a.len() <= b.len(),
        0 <= p,
        b.len() - a.len() <= k <= j <= b.len() - a.len() + p,
    ensures
        reach(a, b, same, p, j) <= reach(a, b, same, p, k),
    decreases j - k,
{
    if k < j {
        lemma_reach_step(a, b, same, p, k);
        lemma_rows_fall(a, b, same, p, k + 1, j);
    }
}

/// The row that round `q` reaches on diagonal `delta`.
pub open spec fn end_row<T>(a: Seq<T>, b: Seq<T>, same: spec_fn(T, T) -> bool, q: int) -> int {
    reach(a, b, same, q, b.len() - a.len())
}

/// No round before round `p` has reached the end point.
pub open spec fn unfinished<T>(a: Seq<T>, b: Seq<T>, same: spec_fn(T, T) -> bool, p: int) -> bool {
    forall|q: int| 0 <= q < p ==> #[trigger] end_row(a, b, same, q) < b.len()
}

/// A round that has not reached the end point has not reached the last row
/// nor the last column on any diagonal.
pub proof fn lemma_short_of_edges<T>(
    a: Seq<T>,
    b: Seq<T>,
    same: spec_fn(T, T) -> bool,
    q: int,
    k: int,
)
    requires
        a.len() <= b.len(),
        in_round(a, b, q, k),
        end_row(a, b, same, q) < b.len(),
    ensures
        reach(a, b, same, q, k) < b.len(),
        reach(a, b, same, q, k) - k < a.len(),
        q < a.len(),
{
    let delta = b.len() - a.len();
    lemma_columns_grow(a, b, same, q, -q, delta);
    if k <= delta {
        lemma_columns_grow(a, b, same, q, k, delta);
    } else {
        lemma_rows_fall(a, b, same, q, delta, k);
    }
}

/// The row from which round `p` goes on along diagonal `k`.
pub open spec fn start<T>(a: Seq<T>, b: Seq<T>, same: spec_fn(T, T) -> bool, p: int, k: int) -> int {
    let below = reach(a, b, same, round_below(a, b, p, k), k - 1);
    let above = reach(a, b, same, round_above(a, b, p, k), k + 1);
    if above > below + 1 {
        above
    } else {
        below + 1
    }
}

/// While no earlier round has reached the end point, the row from which a
/// round goes on along a diagonal is on the grid.
pub proof fn lemma_start_on_grid<T>(
    a: Seq<T>,
    b: Seq<T>,
    same: spec_fn(T, T) -> bool,
    p: int,
    k: int,
)
    requires
        a.len() <= b.len(),
        in_round(a, b, p, k),
        unfinished(a, b, same, p),
        in_round(a, b, round_below(a, b, p, k), k - 1) ==> on_grid(
            a,
            b,
            k - 1,
            reach(a, b, same, round_below(a, b, p, k), k - 1),
        ),
        in_round(a, b, round_above(a, b, p, k), k + 1) ==> on_grid(
            a,
            b,
            k + 1,
            reach(a, b, same, round_above(a, b, p, k), k + 1),
        ),
    ensures
        on_grid(a, b, k, start(a, b, same, p, k)),
        p <= a.len(),
{
    if p >= 1 {
        if in_round(a, b, p - 1, k - 1) {
            lemma_short_of_edges(a, b, same, p - 1, k - 1);
        }
        if in_round(a, b, p - 1, k + 1) {
            lemma_short_of_edges(a, b, same, p - 1, k + 1);
        }
    }
}

/// While no earlier round has reached the end point, a round reaches a
/// point of the grid on each of its diagonals, stops there because the run of
/// pairs does, and leaves nothing of its cost beyond that point.
pub proof fn lemma_reach<T>(a: Seq<T>, b: Seq<T>, same: spec_fn(T, T) -> bool, p: int, k: int)
    requires
        a.len() <= b.len(),
        in_round(a, b, p, k),
        unfinished(a, b, same, p),
    ensures
        on_grid(a, b, k, reach(a, b, same, p, k)),
        run_stops(a, b, same, k, reach(a, b, same, p, k)),
        furthest(a, b, same, k, p, reach(a, b, same, p, k)),
    decreases p + 1, turn(a, b, p, k),
{
    let pb = round_below(a, b, p, k);
    let pa = round_above(a, b, p, k);
    let below = reach(a, b, same, pb, k - 1);
    let above = reach(a, b, same, pa, k + 1);
    if in_round(a, b, pb, k - 1) {
        lemma_reach(a, b, same, pb, k - 1);
    } else {
        lemma_unreached(a, b, same, k - 1, pb, below);
    }
    if in_round(a, b, pa, k + 1) {
        lemma_reach(a, b, same, pa, k + 1);
    } else {
        lemma_unreached(a, b, same, k + 1, pa, above);
    }
    lemma_start_on_grid(a, b, same, p, k);
    lemma_run_end(a, b, same, k, start(a, b, same, p, k));
    lemma_extend(a, b, same, k, p, below, above, reach(a, b, same, p, k));
}

/// The relation with its two sides exchanged.
pub open spec fn flip<T>(same: spec_fn(T, T) -> bool) -> spec_fn(T, T) -> bool {
    |x: T, y: T| same(y, x)
}

/// The script leads from the origin to the point `(x, y)` of the edit graph
/// of `a` and `b`: written for the caller, whose old sequence is `b` where
/// `reverse` holds, it covers the first `x` elements of `a` and the first `y`
/// of `b`, and its `Common` steps are pairs.
pub open spec fn leads<T>(
    ses: Seq<Edit>,
    a: Seq<T>,
    b: Seq<T>,
    same: spec_fn(T, T) -> bool,
    reverse: bool,
    x: int,
    y: int,
) -> bool {
    &&& 0 <= x <= a.len()
    &&& 0 <= y <= b.len()
    &&& if reverse {
        is_edit_script(ses, y as nat, x as nat) && commons_agree(ses, b, a, flip(same))
    } else {
        is_edit_script(ses, x as nat, y as nat) && commons_agree(ses, a, b, same)
    }
}

/// One more step of a script, from `(px, py)` to a neighbouring point.
proof fn lemma_leads_step<T>(
    ses: Seq<Edit>,
    a: Seq<T>,
    b: Seq<T>,
    same: spec_fn(T, T) -> bool,
    reverse: bool,
    px: int,
    py: int,
    e: Edit,
)
    requires
        a.len() <= usize::MAX,
        b.len() <= usize::MAX,
        leads(ses, a, b, same, reverse, px, py),
        (e == step_b(reverse, py) && py < b.len()) || (e == step_a(reverse, px) && px < a.len())
            || (e == step_both(reverse, px, py) && px < a.len() && py < b.len() && pair_at(
            a,
            b,
            same,
            py - px,
            py,
        )),
    ensures
        e == step_b(reverse, py) && py < b.len() ==> leads(
            ses.push(e),
            a,
            b,
            same,
            reverse,
            px,
            py + 1,
        ) && commons(ses.push(e)) == commons(ses),
        e == step_a(reverse, px) && px < a.len() ==> leads(
            ses.push(e),
            a,
            b,
            same,
            reverse,
            px + 1,
            py,
        ) && commons(ses.push(e)) == commons(ses),
        e == step_both(reverse, px, py) && px < a.len() && py < b.len() ==> leads(
            ses.push(e),
            a,
            b,
            same,
            reverse,
            px + 1,
            py + 1,
        ) && commons(ses.push(e)) == commons(ses) + 1,
{
    lemma_push(ses, e);
    assert(ascending(px as nat).push(px) =~= ascending((px + 1) as nat));
    assert(ascending(py as nat).push(py) =~= ascending((py + 1) as nat));
}

/// A leg takes a script from the point where it begins to the point where it
/// ends, where the diagonal part of the way between the two holds pairs only;
/// it adds as many `Common` steps as that part is long.
pub proof fn lemma_leg<T>(
    ses: Seq<Edit>,
    a: Seq<T>,
    b: Seq<T>,
    same: spec_fn(T, T) -> bool,
    reverse: bool,
    px: int,
    py: int,
    x: int,
    y: int,
)
    requires
        a.len() <= usize::MAX,
        b.len() <= usize::MAX,
        leads(ses, a, b, same, reverse, px, py),
        px <= x <= a.len(),
        py <= y <= b.len(),
        forall|j: int|
            y - (if x - px <= y - py {
                x - px
            } else {
                y - py
            }) <= j < y ==> #[trigger] pair_at(a, b, same, y - x, j),
    ensures
        leads(ses + leg(reverse, px, py, x, y), a, b, same, reverse, x, y),
        commons(ses + leg(reverse, px, py, x, y)) == commons(ses) + (if x - px <= y - py {
            x - px
        } else {
            y - py
        }),
    decreases (x - px) + (y - py),
{
    if px < x || py < y {
        if y - py > x - px {
            let e = step_b(reverse, py);
            lemma_leads_step(ses, a, b, same, reverse, px, py, e);
            lemma_leg(ses.push(e), a, b, same, reverse, px, py + 1, x, y);
            assert(ses + leg(reverse, px, py, x, y) =~= ses.push(e) + leg(
                reverse,
                px,
                py + 1,
                x,
                y,
            ));
        } else if y - py < x - px {
            let e = step_a(reverse, px);
            lemma_leads_step(ses, a, b, same, reverse, px, py, e);
            lemma_leg(ses.push(e), a, b, same, reverse, px + 1, py, x, y);
            assert(ses + leg(reverse, px, py, x, y) =~= ses.push(e) + leg(
                reverse,
                px + 1,
                py,
                x,
                y,
            ));
        } else {
            let e = step_both(reverse, px, py);
            assert(pair_at(a, b, same, y - x, py));
            lemma_leads_step(ses, a, b, same, reverse, px, py, e);
            lemma_leg(ses.push(e), a, b, same, reverse, px + 1, py + 1, x, y);
            assert(ses + leg(reverse, px, py, x, y) =~= ses.push(e) + leg(
                reverse,
                px + 1,
                py + 1,
                x,
                y,
            ));
        }
    }
}

/// What the way to the point that round `p` reaches on diagonal `k` costs:
/// the elements of `a` that it drops, and above diagonal `delta` those that
/// the way back will drop.
pub open spec fn way_cost<T>(
    a: Seq<T>,
    b: Seq<T>,
    same: spec_fn(T, T) -> bool,
    reverse: bool,
    p: int,
    k: int,
) -> int {
    let y = reach(a, b, same, p, k);
    let pairs = commons(way(a, b, same, reverse, p, k));
    if k <= b.len() - a.len() {
        y - k - pairs
    } else {
        y - pairs - (b.len() - a.len())
    }
}

/// While no earlier round has reached the end point, the script of round
/// `p` to diagonal `k` leads to the point that the round reaches there, and
/// costs no more than `p`.
pub proof fn lemma_way<T>(
    a: Seq<T>,
    b: Seq<T>,
    same: spec_fn(T, T) -> bool,
    reverse: bool,
    p: int,
    k: int,
)
    requires
        a.len() <= b.len() <= usize::MAX,
        in_round(a, b, p, k),
        unfinished(a, b, same, p),
    ensures
        leads(
            way(a, b, same, reverse, p, k),
            a,
            b,
            same,
            reverse,
            reach(a, b, same, p, k) - k,
            reach(a, b, same, p, k),
        ),
        way_cost(a, b, same, reverse, p, k) <= p,
    decreases p + 1, turn(a, b, p, k),
{
    let pb = round_below(a, b, p, k);
    let pa = round_above(a, b, p, k);
    let below = reach(a, b, same, pb, k - 1);
    let above = reach(a, b, same, pa, k + 1);
    let end = reach(a, b, same, p, k);
    let from_row = start(a, b, same, p, k);
    lemma_reach(a, b, same, p, k);
    lemma_run_end(a, b, same, k, from_row);
    let (q, j) = if above > below + 1 {
        (pa, k + 1)
    } else {
        (pb, k - 1)
    };
    let before = way(a, b, same, reverse, q, j);
    let from = point_on(j, reach(a, b, same, q, j));
    if in_round(a, b, q, j) {
        lemma_way(a, b, same, reverse, q, j);
    } else {
        assert(old_indices(before) =~= ascending(0));
        assert(new_indices(before) =~= ascending(0));
    }
    lemma_leg(before, a, b, same, reverse, from.0, from.1, end - k, end);
}

/// The search ends: in some round from round `p` on, and no later than in
/// round `|a|`, diagonal `delta` reaches the end point, and in no round before
/// that one.
pub proof fn lemma_last_round<T>(a: Seq<T>, b: Seq<T>, same: spec_fn(T, T) -> bool, p: int)
    requires
        a.len() <= b.len(),
        0 <= p,
        unfinished(a, b, same, p),
    ensures
        p <= last_round(a, b, same, p) <= a.len(),
        unfinished(a, b, same, last_round(a, b, same, p)),
        end_row(a, b, same, last_round(a, b, same, p)) == b.len(),
    decreases a.len() - p,
{
    let delta = b.len() - a.len();
    lemma_reach(a, b, same, p, delta);
    lemma_columns_grow(a, b, same, p, -p, delta);
    if !(p >= a.len() || reach(a, b, same, p, delta) >= b.len()) {
        lemma_last_round(a, b, same, p + 1);
    }
}

/// The search finds a way to the end point that holds as many pairs as a
/// longest common subsequence has elements.
pub proof fn lemma_found<T>(a: Seq<T>, b: Seq<T>, same: spec_fn(T, T) -> bool, reverse: bool)
    requires
        a.len() <= b.len() <= usize::MAX,
    ensures
        leads(
            way(a, b, same, reverse, last_round(a, b, same, 0), b.len() - a.len()),
            a,
            b,
            same,
            reverse,
            a.len() as int,
            b.len() as int,
        ),
        commons(way(a, b, same, reverse, last_round(a, b, same, 0), b.len() - a.len()))
            >= lcs_len(a, b, same),
{
    let delta = b.len() - a.len();
    lemma_last_round(a, b, same, 0);
    let p = last_round(a, b, same, 0);
    lemma_way(a, b, same, reverse, p, delta);
    if p >= 1 {
        lemma_reach(a, b, same, p - 1, delta);
        lemma_end_cost(a, b, same, p - 1, reach(a, b, same, p - 1, delta));
    } else {
        lemma_lcs_bounds(a, b, same);
    }
}

/// Round trip: the aligner's script visits every position of both
/// sequences once and in order, so that the elements at its old positions are
/// `a` and those at its new positions are `b`.
pub proof fn lemma_covers<T>(a: Seq<T>, b: Seq<T>, same: spec_fn(T, T) -> bool)
    requires
        a.len() <= usize::MAX,
        b.len() <= usize::MAX,
    ensures
        is_edit_script(shortest_edit_script(a, b, same), a.len(), b.len()),
        old_side(shortest_edit_script(a, b, same), a) == a,
        new_side(shortest_edit_script(a, b, same), b) == b,
{
    if a.len() > b.len() {
        lemma_found(b, a, same, true);
    } else {
        lemma_found(a, b, same, false);
    }
    lemma_round_trip(shortest_edit_script(a, b, same), a, b);
}

/// The script that the aligner writes is a shortest edit script: it turns
/// `a` into `b`, keeps only what is the same, and makes
/// `|a| + |b| - 2 * lcs_len(a, b)` edits, fewer than which no script makes.
/// Where `a` is the longer sequence, the search exchanges the two, and the
/// relation has to be symmetric.
pub proof fn lemma_shortest_edit_script<T>(a: Seq<T>, b: Seq<T>, same: spec_fn(T, T) -> bool)
    requires
        a.len() <= usize::MAX,
        b.len() <= usize::MAX,
        a.len() > b.len() ==> forall|x: T, y: T| #[trigger] same(x, y) == same(y, x),
    ensures
        is_shortest_edit_script(shortest_edit_script(a, b, same), a, b, same),
{
    let ses = shortest_edit_script(a, b, same);
    lemma_counts(ses);
    if a.len() > b.len() {
        lemma_found(b, a, same, true);
        lemma_lcs_symmetric(a, b, same);
    } else {
        lemma_found(a, b, same, false);
    }
    lemma_commons_bounded(ses, a, b, same);
}

/// Minimality: the aligner's script makes `|a| + |b| - 2 * lcs_len(a, b)`
/// edits, and no script that turns `a` into `b` and keeps only what is the
/// same makes fewer.
pub proof fn lemma_minimality<T>(
    a: Seq<T>,
    b: Seq<T>,
    same: spec_fn(T, T) -> bool,
    other: Seq<Edit>,
)
    requires
        a.len() <= usize::MAX,
        b.len() <= usize::MAX,
        forall|x: T, y: T| #[trigger] same(x, y) == same(y, x),
        is_edit_script(other, a.len(), b.len()),
        commons_agree(other, a, b, same),
    ensures
        edit_count(shortest_edit_script(a, b, same)) == a.len() + b.len() - 2 * lcs_len(
            a,
            b,
            same,
        ),
        edit_count(shortest_edit_script(a, b, same)) <= edit_count(other),
{
    lemma_shortest_edit_script(a, b, same);
    lemma_commons_bounded(other, a, b, same);
    lemma_counts(other);
}

/// Identity: from a sequence to itself, the aligner writes one `Common` step
/// for each element, in order, and nothing else. It holds where every element
/// is the same as itself.
pub proof fn lemma_identity<T>(a: Seq<T>, same: spec_fn(T, T) -> bool)
    requires
        a.len() <= usize::MAX,
        forall|x: T| #[trigger] same(x, x),
    ensures
        shortest_edit_script(a, a, same) == all_common(a.len()),
{
    let ses = shortest_edit_script(a, a, same);
    lemma_shortest_edit_script(a, a, same);
    lemma_all_common(ses, a, same);
    assert(ses =~= all_common(a.len()));
}

/// Symmetry of cost: under a symmetric relation, the aligner's script from
/// `a` to `b` and its script from `b` to `a` make the same number of edits,
/// and each adds as many elements as the other deletes.
pub proof fn lemma_cost_symmetry<T>(a: Seq<T>, b: Seq<T>, same: spec_fn(T, T) -> bool)
    requires
        a.len() <= usize::MAX,
        b.len() <= usize::MAX,
        forall|x: T, y: T| #[trigger] same(x, y) == same(y, x),
    ensures
        mirrors(shortest_edit_script(a, b, same), shortest_edit_script(b, a, same)),
{
    lemma_shortest_edit_script(a, b, same);
    lemma_shortest_edit_script(b, a, same);
    lemma_scripts_mirror(
        shortest_edit_script(a, b, same),
        shortest_edit_script(b, a, same),
        a,
        b,
        same,
    );
}

} // verus!
