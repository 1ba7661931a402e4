//! Shortest edit scripts by the O(NP) algorithm of Wu, Manber, Myers and
//! Miller.
use vstd::prelude::*;
use vstd::laws_eq::{obeys_eq, obeys_eq_spec_properties};
use vstd::std_specs::cmp::PartialEqSpec;
use crate::policy::{
    in_round, last_round, leg, lemma_reach_outside, point_on, reach, round_above, round_below,
    run_end, shortest_edit_script, way,
};
use crate::script::{
    all_common, ascending, eq_rel, in_range, is_edit_script, is_shortest_edit_script,
    lemma_in_range, lemma_push, mirrors, new_indices, new_side, old_side,
};
use crate::shortest::{lemma_cost_symmetry, lemma_identity, lemma_shortest_edit_script};

verus! {

/// One step of an edit script. `old` and `new` are positions in the old and
/// in the new sequence.
#[derive(Debug, PartialEq, Eq, PartialOrd, Ord, Clone)]
pub enum Edit {
    /// The new sequence has an element at `new` that the old one lacks.
    Add { new: usize },
    /// The old sequence has an element at `old` that the new one lacks.
    Delete { old: usize },
    /// The element at `old` in the old sequence is the one at `new` in the
    /// new sequence.
    Common { new: usize, old: usize },
}

/// A shortest edit script that turns `a` into `b`.
///
/// The script visits every position of `a` and of `b` once and in order, so
/// that replaying it gives back both sequences. Where `==` on `T` computes the
/// relation that Verus knows for `T`, the script is the one that
/// [`shortest_edit_script`] singles out; from a sequence to itself, that is
/// one `Common` step for each element, where each element equals itself.
/// Where the relation is symmetric as well, every `Common` step pairs two
/// elements that are the same, no script that does so makes fewer edits
/// (their number is `|a| + |b| - 2 * lcs_len(a, b)`), and the script from `b`
/// to `a` costs the same, with adding and deleting exchanged.
///
/// The furthest-point table has one entry for each diagonal of the edit graph
/// and for one more at either end, `|a| + |b| + 3` in all, which must fit in
/// `usize`.
pub fn diff<T: Eq>(a: &[T], b: &[T]) -> (ses: Vec<Edit>)
    requires
        a@.len() + b@.len() + 3 <= usize::MAX,
    ensures
        is_edit_script(ses@, a@.len(), b@.len()),
        in_range(ses@, a@.len(), b@.len()),
        old_side(ses@, a@) == a@,
        new_side(ses@, b@) == b@,
        T::obeys_eq_spec() ==> ses@ == shortest_edit_script(a@, b@, eq_rel::<T>()),
        obeys_eq::<T>() ==> is_shortest_edit_script(ses@, a@, b@, eq_rel::<T>()),
        obeys_eq::<T>() ==> mirrors(ses@, shortest_edit_script(b@, a@, eq_rel::<T>())),
        T::obeys_eq_spec() && a@ == b@ && (forall|x: T| #[trigger] x.eq_spec(&x)) ==> ses@
            == all_common(a@.len()),
{
    let mut builder = SESBuilder::new(a, b);
    let ses = builder.build();
    proof {
        let same = eq_rel::<T>();
        lemma_in_range(ses@, a@.len(), b@.len());
        if obeys_eq::<T>() {
            reveal(obeys_eq_spec_properties);
            lemma_shortest_edit_script(a@, b@, same);
            lemma_cost_symmetry(a@, b@, same);
        }
        if T::obeys_eq_spec() && a@ == b@ && (forall|x: T| #[trigger] x.eq_spec(&x)) {
            assert forall|x: T| #[trigger] same(x, x) by {
                assert(x.eq_spec(&x));
            }
            lemma_identity(a@, same);
        }
    }
    ses
}

/// A point that a run of pairs has reached, and the point before it on the
/// way from the origin.
struct PointWithPrev {
    x: usize,
    y: usize,
    prev: Option<usize>,
}

/// A point of the way from the end back to the origin.
struct Point {
    x: usize,
    y: usize,
}

/// Where the leg to a point begins: at the point before it, or at the origin.
spec fn origin_of(points: Seq<PointWithPrev>, at: Option<usize>) -> (int, int) {
    match at {
        Some(i) => (points[i as int].x as int, points[i as int].y as int),
        None => (0int, 0int),
    }
}

/// Point `i` comes after the point before it, in the arena and on the grid.
spec fn linked(points: Seq<PointWithPrev>, i: int) -> bool {
    let from = origin_of(points, points[i].prev);
    &&& points[i].prev matches Some(j) ==> j < i
    &&& from.0 <= points[i].x
    &&& from.1 <= points[i].y
}

/// Entry `t` of the way back holds the coordinates of point `trail[t]`, and
/// the next entry is the point before that one.
spec fn marks(points: Seq<PointWithPrev>, trail: Seq<usize>, route: Seq<Point>, t: int) -> bool {
    &&& trail[t] < points.len()
    &&& route[t].x == points[trail[t] as int].x
    &&& route[t].y == points[trail[t] as int].y
    &&& t + 1 < trail.len() ==> points[trail[t] as int].prev == Some(trail[t + 1])
}

/// The script that the way from the origin to `at` writes.
spec fn route_to(points: Seq<PointWithPrev>, at: Option<usize>, reverse: bool) -> Seq<Edit>
    decreases
        (match at {
            Some(i) => i as int + 1,
            None => 0,
        }),
{
    match at {
        None => Seq::empty(),
        Some(i) => if (i as int) < points.len() && linked(points, i as int) {
            let from = origin_of(points, points[i as int].prev);
            route_to(points, points[i as int].prev, reverse) + leg(
                reverse,
                from.0,
                from.1,
                points[i as int].x as int,
                points[i as int].y as int,
            )
        } else {
            Seq::empty()
        },
    }
}

/// A new point changes nothing in the script to an earlier one.
proof fn lemma_route_push(
    points: Seq<PointWithPrev>,
    pt: PointWithPrev,
    at: Option<usize>,
    reverse: bool,
)
    requires
        at matches Some(i) ==> i < points.len(),
        forall|i: int| 0 <= i < points.len() ==> #[trigger] linked(points, i),
    ensures
        route_to(points.push(pt), at, reverse) == route_to(points, at, reverse),
    decreases
        (match at {
            Some(i) => i as int + 1,
            None => 0,
        }),
{
    if let Some(i) = at {
        assert(linked(points, i as int));
        lemma_route_push(points, pt, points[i as int].prev, reverse);
    }
}

/// The row from which a diagonal goes on: one beyond the row reached on the
/// diagonal below, or the row reached on the diagonal above if that is
/// further.
spec fn start_row(fp1: usize, fp2: Option<usize>) -> int {
    match fp2 {
        Some(r) => if r > fp1 {
            r as int
        } else {
            fp1 as int
        },
        None => fp1 as int,
    }
}

/// The number of points that the first `rounds` rounds record: round `p`
/// deals with the `delta + 2p + 1` diagonals from `-p` to `delta + p` and
/// records one point on each.
spec fn recorded(delta: int, rounds: int) -> int {
    rounds * (delta + rounds)
}

/// One more round records one point on each of its diagonals.
proof fn lemma_recorded_step(delta: int, p: int)
    ensures
        recorded(delta, p) + delta + 2 * p + 1 == recorded(delta, p + 1),
        recorded(delta, 0) == 0,
{
    assert(p * (delta + p) + delta + 2 * p + 1 == (p + 1) * (delta + (p + 1))) by (nonlinear_arith);
}

/// No search records more points than the grid has.
proof fn lemma_recorded_bound(m: int, n: int, rounds: int)
    requires
        0 <= rounds <= m + 1,
        m <= n,
    ensures
        0 <= recorded(n - m, rounds) <= (m + 1) * (n + 1),
{
    assert(0 <= rounds * (n - m + rounds) <= (m + 1) * (n + 1)) by (nonlinear_arith)
        requires
            0 <= rounds <= m + 1,
            m <= n,
    ;
}

/// The row reached on diagonal `ko`, or -1 where none has been reached.
spec fn row(fp: Seq<Option<usize>>, ko: int) -> int {
    match fp[ko] {
        Some(y) => y as int,
        None => -1,
    }
}

/// The search for a shortest edit script from `a` to `b`, with `a` the
/// shorter of the two sequences: the points that the rounds have reached, in
/// the order in which they were reached, and for each diagonal the last of
/// them. `reverse` says that the caller's old sequence is `b`.
struct SESBuilder<'a, T: Eq> {
    a: &'a [T],
    b: &'a [T],
    m: usize,
    n: usize,
    delta: usize,
    offset: usize,
    ids: Vec<Option<usize>>,
    points: Vec<PointWithPrev>,
    reverse: bool,
}

impl<'a, T: Eq> SESBuilder<'a, T> {
    /// The two sequences with the shorter one first, and the arena of points
    /// hanging together.
    spec fn wf(&self) -> bool {
        &&& self.a@.len() == self.m
        &&& self.b@.len() == self.n
        &&& self.m <= self.n
        &&& self.delta == self.n - self.m
        &&& self.offset == self.m + 1
        &&& self.ids@.len() == self.m + self.n + 3 <= usize::MAX
        &&& forall|ko: int|
            0 <= ko < self.ids@.len() ==> (#[trigger] self.ids@[ko] matches Some(i) ==> i
                < self.points@.len() && self.points@[i as int].y - self.points@[i as int].x == ko
                - self.offset)
        &&& forall|i: int|
            0 <= i < self.points@.len() ==> #[trigger] linked(self.points@, i) && self.points@[i].x
                <= self.m && self.points@[i].y <= self.n
    }

    /// The same two sequences, in the same order.
    spec fn same_input(&self, other: &Self) -> bool {
        &&& self.a@ == other.a@
        &&& self.b@ == other.b@
        &&& self.m == other.m
        &&& self.n == other.n
        &&& self.delta == other.delta
        &&& self.offset == other.offset
        &&& self.reverse == other.reverse
    }

    /// The point before the one that `snake` adds on diagonal `ko`.
    spec fn chosen(&self, ko: int, fp1: usize, fp2: Option<usize>) -> Option<usize> {
        if fp2 matches Some(r) && r > fp1 {
            self.ids@[ko + 1]
        } else {
            self.ids@[ko - 1]
        }
    }

    /// `fp1` is one beyond the row reached on the diagonal below `ko`.
    spec fn below_ok(&self, ko: int, fp1: usize) -> bool {
        match self.ids@[ko - 1] {
            Some(i) => self.points@[i as int].y + 1 == fp1,
            None => fp1 == 0,
        }
    }

    /// `fp2` is the row reached on the diagonal above `ko`.
    spec fn above_ok(&self, ko: int, fp2: Option<usize>) -> bool {
        fp2 matches Some(r) ==> (self.ids@[ko + 1] matches Some(j) && self.points@[j as int].y == r)
    }

    /// The index of diagonal `delta`, on which the end point lies.
    spec fn d_off(&self) -> int {
        self.delta + self.offset
    }

    /// The column reached on diagonal `ko`.
    spec fn col(&self, fp: Seq<Option<usize>>, ko: int) -> int {
        row(fp, ko) - (ko - self.offset)
    }

    /// Diagonal `ko` stands as round `q` leaves it: its point is recorded,
    /// and where `==` is the relation that Verus knows for `T`, the point and
    /// the way to it are those of the aligner's rule.
    spec fn diag_ok(&self, fp: Seq<Option<usize>>, ko: int, q: int) -> bool {
        &&& fp[ko] matches Some(y)
        &&& self.ids@[ko] matches Some(i)
        &&& self.points@[i as int].y == y
        &&& T::obeys_eq_spec() ==> y == reach(self.a@, self.b@, eq_rel::<T>(), q, ko - self.offset)
        &&& T::obeys_eq_spec() ==> route_to(self.points@, self.ids@[ko], self.reverse) == way(
            self.a@,
            self.b@,
            eq_rel::<T>(),
            self.reverse,
            q,
            ko - self.offset,
        )
    }

    /// In round `p`, diagonal `ko` has already been dealt with. The round
    /// goes up from diagonal `-p` to `up`, then down from `delta + p` to
    /// `down`, and ends on diagonal `delta`.
    spec fn is_new(&self, p: int, up: int, down: int, ko: int) -> bool {
        (self.offset - p <= ko < up) || (down < ko <= self.d_off() + p)
    }

    /// In round `p`, diagonal `ko` still stands as round `p - 1` left it.
    spec fn is_old(&self, p: int, up: int, down: int, ko: int) -> bool {
        !self.is_new(p, up, down, ko) && p >= 1 && self.offset - p < ko < self.d_off() + p
    }

    /// Diagonal `ko` stands as round `p` has left it so far.
    spec fn entry_ok(&self, fp: Seq<Option<usize>>, p: int, up: int, down: int, ko: int) -> bool {
        if self.is_new(p, up, down, ko) {
            self.diag_ok(fp, ko, p)
        } else if self.is_old(p, up, down, ko) {
            self.diag_ok(fp, ko, p - 1) && row(fp, ko) < self.n && self.col(fp, ko) < self.m
        } else {
            fp[ko] is None && self.ids@[ko] is None
        }
    }

    /// The state of round `p`. Below diagonal `delta` the columns reached
    /// grow with the diagonal, above it the rows reached grow towards it, and
    /// no diagonal that still stands as the round before left it has reached
    /// an edge of the grid.
    spec fn frontier(&self, fp: Seq<Option<usize>>, p: int, up: int, down: int) -> bool {
        &&& fp.len() == self.ids@.len()
        &&& 0 <= p <= self.m
        &&& self.offset - p <= up <= self.d_off() + 1
        &&& self.d_off() <= down <= self.d_off() + p
        &&& up == self.d_off() + 1 ==> down == self.d_off()
        &&& down < self.d_off() + p ==> up >= self.d_off()
        &&& forall|ko: int| 0 <= ko < fp.len() ==> #[trigger] self.entry_ok(fp, p, up, down, ko)
        &&& forall|ko: int|
            self.offset - p <= ko < up ==> p <= #[trigger] self.col(fp, ko) <= self.col(fp, up - 1)
        &&& forall|ko: int|
            down < ko <= self.d_off() + p ==> #[trigger] row(fp, ko) <= row(
                fp,
                if up == self.d_off() + 1 {
                    self.d_off()
                } else {
                    down + 1
                },
            )
    }

    /// A diagonal that a new point leaves alone stays as it is.
    proof fn lemma_diag_kept(
        &self,
        before: &Self,
        fp: Seq<Option<usize>>,
        fp_before: Seq<Option<usize>>,
        pt: PointWithPrev,
        ko: int,
        q: int,
    )
        requires
            before.wf(),
            self.same_input(before),
            self.points@ == before.points@.push(pt),
            0 <= ko < before.ids@.len(),
            self.ids@.len() == before.ids@.len(),
            self.ids@[ko] == before.ids@[ko],
            fp[ko] == fp_before[ko],
            before.diag_ok(fp_before, ko, q),
        ensures
            self.diag_ok(fp, ko, q),
    {
        lemma_route_push(before.points@, pt, before.ids@[ko], before.reverse);
    }

    /// A search that has not begun: the shorter sequence first, no point
    /// reached.
    fn new(a: &'a [T], b: &'a [T]) -> (r: Self)
        requires
            a@.len() + b@.len() + 3 <= usize::MAX,
        ensures
            r.wf(),
            r.reverse == (a@.len() > b@.len()),
            r.a@ == (if r.reverse { b@ } else { a@ }),
            r.b@ == (if r.reverse { a@ } else { b@ }),
            r.points@.len() == 0,
            forall|ko: int| 0 <= ko < r.ids@.len() ==> r.ids@[ko] is None,
    {
        let reverse = a.len() > b.len();
        let (a, b) = if reverse {
            (b, a)
        } else {
            (a, b)
        };
        let m = a.len();
        let n = b.len();
        let delta = n - m;
        let offset = m + 1;
        let ids = vec![None; m + n + 3];
        let points = vec![];

        Self { a, b, m, n, delta, offset, ids, points, reverse }
    }

    /// What `snake` has done to the builder `before`, on diagonal `ko`.
    spec fn snaked(&self, before: &Self, ko: int, fp1: usize, fp2: Option<usize>, y: usize) -> bool {
        &&& self.wf()
        &&& self.same_input(before)
        &&& self.points@ == before.points@.push(
            PointWithPrev {
                x: (y - (ko - before.offset)) as usize,
                y,
                prev: before.chosen(ko, fp1, fp2),
            },
        )
        &&& self.ids@ == before.ids@.update(ko, Some(before.points.len()))
        &&& start_row(fp1, fp2) <= y <= before.n
        &&& 0 <= y - (ko - before.offset) <= before.m
        &&& T::obeys_eq_spec() ==> y == run_end(
            before.a@,
            before.b@,
            eq_rel::<T>(),
            ko - before.offset,
            start_row(fp1, fp2),
        )
        &&& route_to(self.points@, self.ids@[ko], before.reverse) == route_to(
            before.points@,
            before.chosen(ko, fp1, fp2),
            before.reverse,
        ) + leg(
            before.reverse,
            origin_of(before.points@, before.chosen(ko, fp1, fp2)).0,
            origin_of(before.points@, before.chosen(ko, fp1, fp2)).1,
            y - (ko - before.offset),
            y as int,
        )
    }

    /// Goes on from the further of the two rows along diagonal `ko` while the
    /// elements are the same, records where that ends, and returns its row.
    fn snake(&mut self, ko: usize, fp1: usize, fp2: Option<usize>) -> (y: usize)
        requires
            old(self).wf(),
            1 <= ko,
            ko + 1 < old(self).ids@.len(),
            old(self).below_ok(ko as int, fp1),
            old(self).above_ok(ko as int, fp2),
            start_row(fp1, fp2) <= old(self).n,
            0 <= start_row(fp1, fp2) - (ko - old(self).offset) <= old(self).m,
        ensures
            final(self).snaked(old(self), ko as int, fp1, fp2, y),
    {
        let from_above = match fp2 {
            Some(r) => r > fp1,
            None => false,
        };
        let fp = match fp2 {
            Some(r) => if r > fp1 {
                r
            } else {
                fp1
            },
            None => fp1,
        };
        let ghost k = ko - self.offset;
        let mut y = fp;
        let mut x = fp + self.offset - ko;
        while x < self.m && y < self.n && self.a[x] == self.b[y]
            invariant
                self.wf(),
                self == old(self),
                k == ko - self.offset,
                fp <= y <= self.n,
                x == y - k,
                x <= self.m,
                T::obeys_eq_spec() ==> run_end(self.a@, self.b@, eq_rel::<T>(), k, y as int)
                    == run_end(self.a@, self.b@, eq_rel::<T>(), k, fp as int),
            decreases self.n - y,
        {
            x += 1;
            y += 1;
        }

        let prev = if from_above {
            self.ids[ko + 1]
        } else {
            self.ids[ko - 1]
        };
        let ghost before = self.points@;
        let ghost pt = PointWithPrev { x, y, prev };
        self.ids[ko] = Some(self.points.len());
        self.points.push(PointWithPrev { x, y, prev });
        proof {
            let after = self.points@;
            let at = before.len() as int;
            assert(prev == old(self).chosen(ko as int, fp1, fp2));
            assert(old(self).ids@[ko - 1] matches Some(i) ==> i < before.len());
            assert(old(self).ids@[ko + 1] matches Some(i) ==> i < before.len());
            assert forall|i: int| 0 <= i < before.len() implies after[i] == before[i] by {}
            assert(origin_of(after, prev) == origin_of(before, prev));
            assert(linked(after, at));
            assert forall|i: int| 0 <= i < after.len() implies #[trigger] linked(after, i)
                && after[i].x <= self.m && after[i].y <= self.n by {
                if i < before.len() {
                    assert(linked(before, i));
                    assert(origin_of(after, after[i].prev) == origin_of(before, before[i].prev));
                }
            }
            lemma_route_push(before, pt, prev, self.reverse);
            assert forall|j: int| 0 <= j < self.ids@.len() implies (#[trigger] self.ids@[j] matches Some(
                i,
            ) ==> i < after.len() && after[i as int].y - after[i as int].x == j - self.offset) by {
                if j != ko {
                    assert(self.ids@[j] == old(self).ids@[j]);
                }
            }
            assert(self.wf());
        }
        y
    }

    /// Diagonal `ko` is the one that round `p` deals with next.
    spec fn is_next(&self, p: int, up: int, down: int, ko: int) -> bool {
        ||| ko == up && ko < self.d_off() && down == self.d_off() + p
        ||| ko == down && ko > self.d_off() && up == self.d_off()
        ||| ko == self.d_off() && up == self.d_off() && down == self.d_off()
    }

    /// How far up the round has gone once it has dealt with diagonal `ko`.
    spec fn up_after(&self, up: int, ko: int) -> int {
        if ko < self.d_off() {
            up + 1
        } else if ko == self.d_off() {
            self.d_off() + 1
        } else {
            up
        }
    }

    /// How far down the round has gone once it has dealt with diagonal `ko`.
    spec fn down_after(&self, down: int, ko: int) -> int {
        if ko > self.d_off() {
            down - 1
        } else {
            down
        }
    }

    /// The rows reached on the neighbours of the next diagonal are rows from
    /// which it can go on.
    proof fn lemma_candidates(&self, fp: Seq<Option<usize>>, p: int, up: int, down: int, ko: int)
        requires
            self.wf(),
            self.frontier(fp, p, up, down),
            self.is_next(p, up, down, ko),
        ensures
            1 <= ko,
            ko + 1 < fp.len(),
            row(fp, ko - 1) < self.n,
            row(fp, ko - 1) + 1 <= usize::MAX,
            self.below_ok(ko, (row(fp, ko - 1) + 1) as usize),
            self.above_ok(ko, fp[ko + 1]),
            start_row((row(fp, ko - 1) + 1) as usize, fp[ko + 1]) <= self.n,
            0 <= start_row((row(fp, ko - 1) + 1) as usize, fp[ko + 1]) - (ko - self.offset)
                <= self.m,
    {
        assert(self.entry_ok(fp, p, up, down, ko - 1));
        assert(self.entry_ok(fp, p, up, down, ko + 1));
        if let Some(i) = self.ids@[ko - 1] {
            assert(linked(self.points@, i as int));
        }
        if let Some(i) = self.ids@[ko + 1] {
            assert(linked(self.points@, i as int));
        }
    }

    /// The new point of diagonal `ko` is the one that the round reaches by
    /// the aligner's rule, and the way to it is the one that the rule takes.
    proof fn lemma_new_reach(
        &self,
        before: &Self,
        fp: Seq<Option<usize>>,
        p: int,
        up: int,
        down: int,
        ko: int,
        fp1: usize,
        fp2: Option<usize>,
        y: usize,
    )
        requires
            before.wf(),
            before.frontier(fp, p, up, down),
            before.is_next(p, up, down, ko),
            fp1 == row(fp, ko - 1) + 1,
            fp2 == fp[ko + 1],
            self.snaked(before, ko, fp1, fp2, y),
            T::obeys_eq_spec(),
        ensures
            y == reach(self.a@, self.b@, eq_rel::<T>(), p, ko - self.offset),
            route_to(self.points@, self.ids@[ko], self.reverse) == way(
                self.a@,
                self.b@,
                eq_rel::<T>(),
                self.reverse,
                p,
                ko - self.offset,
            ),
    {
        let a = self.a@;
        let b = self.b@;
        let same = eq_rel::<T>();
        let k = ko - before.offset;
        assert(before.entry_ok(fp, p, up, down, ko - 1));
        assert(before.entry_ok(fp, p, up, down, ko + 1));
        assert(in_round(a, b, p, k));
        if !(before.is_new(p, up, down, ko - 1) || before.is_old(p, up, down, ko - 1)) {
            lemma_reach_outside(a, b, same, self.reverse, round_below(a, b, p, k), k - 1);
        }
        if !(before.is_new(p, up, down, ko + 1) || before.is_old(p, up, down, ko + 1)) {
            lemma_reach_outside(a, b, same, self.reverse, round_above(a, b, p, k), k + 1);
        }
        let below = reach(a, b, same, round_below(a, b, p, k), k - 1);
        let above = reach(a, b, same, round_above(a, b, p, k), k + 1);
        assert(below == row(fp, ko - 1));
        assert(above == row(fp, ko + 1));
        assert(start_row(fp1, fp2) == (if above > below + 1 {
            above
        } else {
            below + 1
        }));
        assert(y == reach(a, b, same, p, k));
        if above > below + 1 {
            let j = before.ids@[ko + 1]->0;
            assert(before.points@[j as int].y == above);
            assert(origin_of(before.points@, before.chosen(ko, fp1, fp2)) == point_on(k + 1, above));
        } else if let Some(i) = before.ids@[ko - 1] {
            assert(before.points@[i as int].y == below);
            assert(origin_of(before.points@, before.chosen(ko, fp1, fp2)) == point_on(k - 1, below));
        } else {
            assert(origin_of(before.points@, before.chosen(ko, fp1, fp2)) == point_on(k - 1, below));
        }
    }

    /// The round has gone one diagonal further.
    proof fn lemma_advanced(
        &self,
        before: &Self,
        fp: Seq<Option<usize>>,
        p: int,
        up: int,
        down: int,
        ko: int,
        fp1: usize,
        fp2: Option<usize>,
        y: usize,
    )
        requires
            before.wf(),
            before.frontier(fp, p, up, down),
            before.is_next(p, up, down, ko),
            fp1 == row(fp, ko - 1) + 1,
            fp2 == fp[ko + 1],
            self.snaked(before, ko, fp1, fp2, y),
            self.diag_ok(fp.update(ko, Some(y)), ko, p),
        ensures
            self.frontier(
                fp.update(ko, Some(y)),
                p,
                before.up_after(up, ko),
                before.down_after(down, ko),
            ),
    {
        let after = fp.update(ko, Some(y));
        let up2 = before.up_after(up, ko);
        let down2 = before.down_after(down, ko);
        let pt = self.points@.last();
        let k = ko - before.offset;
        assert(self.col(after, ko) == y - k);
        assert(row(after, ko) == y);
        assert forall|j: int| 0 <= j < after.len() implies #[trigger] self.entry_ok(
            after,
            p,
            up2,
            down2,
            j,
        ) by {
            if j != ko {
                assert(before.entry_ok(fp, p, up, down, j));
                if self.is_new(p, up2, down2, j) {
                    self.lemma_diag_kept(before, after, fp, pt, j, p);
                } else if self.is_old(p, up2, down2, j) {
                    self.lemma_diag_kept(before, after, fp, pt, j, p - 1);
                }
            }
        }
        assert forall|j: int| self.offset - p <= j < up2 implies p <= #[trigger] self.col(
            after,
            j,
        ) <= self.col(after, up2 - 1) by {
            if j != ko {
                assert(self.col(after, j) == before.col(fp, j));
            }
            if ko <= self.d_off() && ko - 1 >= self.offset - p {
                assert(before.col(fp, ko - 1) == row(fp, ko - 1) - (k - 1));
            }
        }
        assert forall|j: int| down2 < j <= self.d_off() + p implies #[trigger] row(after, j)
            <= row(
            after,
            if up2 == self.d_off() + 1 {
                self.d_off()
            } else {
                down2 + 1
            },
        ) by {
            if j != ko {
                assert(row(after, j) == row(fp, j));
            }
        }
    }

    /// Deals with diagonal `ko`: goes on from the rows reached on its two
    /// neighbours.
    fn advance(
        &mut self,
        fp: &mut Vec<Option<usize>>,
        ko: usize,
        Ghost(p): Ghost<int>,
        Ghost(up): Ghost<int>,
        Ghost(down): Ghost<int>,
    )
        requires
            old(self).wf(),
            old(self).frontier(old(fp)@, p, up, down),
            old(self).is_next(p, up, down, ko as int),
        ensures
            final(self).wf(),
            final(self).same_input(old(self)),
            final(self).frontier(
                final(fp)@,
                p,
                old(self).up_after(up, ko as int),
                old(self).down_after(down, ko as int),
            ),
            final(self).points@.len() == old(self).points@.len() + 1,
    {
        proof {
            self.lemma_candidates(fp@, p, up, down, ko as int);
        }
        let fp1 = match fp[ko - 1] {
            Some(y) => y + 1,
            None => 0,
        };
        let fp2 = fp[ko + 1];
        let y = self.snake(ko, fp1, fp2);
        fp[ko] = Some(y);
        proof {
            let before = old(self);
            if T::obeys_eq_spec() {
                self.lemma_new_reach(before, old(fp)@, p, up, down, ko as int, fp1, fp2, y);
            }
            self.lemma_advanced(before, old(fp)@, p, up, down, ko as int, fp1, fp2, y);
        }
    }

    /// A round that has not reached the end leaves every diagonal short of
    /// the edges of the grid, so the next round can go on from each of them.
    proof fn lemma_next_round(&self, fp: Seq<Option<usize>>, p: int)
        requires
            self.wf(),
            self.frontier(fp, p, self.d_off() + 1, self.d_off()),
            row(fp, self.d_off()) < self.n,
        ensures
            p < self.m,
            self.frontier(fp, p + 1, self.offset - (p + 1), self.d_off() + (p + 1)),
    {
        let d = self.d_off();
        let up = d + 1;
        let up2 = self.offset - (p + 1);
        let down2 = d + (p + 1);
        assert(self.entry_ok(fp, p, up, d, d));
        assert(p <= self.col(fp, d));
        assert forall|j: int| 0 <= j < fp.len() implies #[trigger] self.entry_ok(
            fp,
            p + 1,
            up2,
            down2,
            j,
        ) by {
            assert(self.entry_ok(fp, p, up, d, j));
            if self.offset - p <= j <= d {
                assert(self.col(fp, j) <= self.col(fp, d));
            } else if d < j <= d + p {
                assert(row(fp, j) <= row(fp, d));
            }
        }
    }

    // see: Sun Wu, Udi Manber, G.Myers, W.Miller, "An O(NP) Sequence Comparison Algorithm"
    /// Finds a shortest way through the edit graph: round by round, takes
    /// the diagonals further until diagonal `delta` reaches the end.
    ///
    /// The search ends in round `|a|` at the latest, and has then recorded one
    /// point for each diagonal of each round it made. Where `==` is the
    /// relation that Verus knows for `T`, its last round is the one that the
    /// aligner's rule names. The table of diagonals keeps its size.
    fn compare(&mut self)
        requires
            old(self).wf(),
            forall|ko: int| 0 <= ko < old(self).ids@.len() ==> old(self).ids@[ko] is None,
        ensures
            final(self).wf(),
            final(self).same_input(old(self)),
            final(self).arrived(),
            T::obeys_eq_spec() ==> final(self).route_is_chosen(),
            final(self).ids@.len() == old(self).ids@.len(),
            exists|r: int|
                0 <= r <= final(self).m && final(self).points@.len() == old(self).points@.len()
                    + #[trigger] recorded(final(self).delta as int, r + 1),
            T::obeys_eq_spec() ==> final(self).points@.len() == old(self).points@.len() + recorded(
                final(self).delta as int,
                last_round(final(self).a@, final(self).b@, eq_rel::<T>(), 0) + 1,
            ),
            final(self).points@.len() <= old(self).points@.len() + (final(self).m + 1) * (
            final(self).n + 1),
    {
        let delta_offset = self.delta + self.offset;
        let ghost base = self.points@.len() as int;

        let mut fp: Vec<Option<usize>> = vec![None; self.m + self.n + 3];
        let mut p: usize = 0;
        proof {
            lemma_recorded_step(self.delta as int, 0);
        }
        loop
            invariant_except_break
                self.frontier(fp@, p as int, self.offset - p, delta_offset + p),
                T::obeys_eq_spec() ==> last_round(self.a@, self.b@, eq_rel::<T>(), 0) == last_round(
                    self.a@,
                    self.b@,
                    eq_rel::<T>(),
                    p as int,
                ),
                self.points@.len() == base + recorded(self.delta as int, p as int),
            invariant
                self.wf(),
                self.same_input(old(self)),
                delta_offset == self.d_off(),
                base == old(self).points@.len(),
            ensures
                self.arrived(),
                T::obeys_eq_spec() ==> self.route_is_chosen(),
                p <= self.m,
                self.points@.len() == base + recorded(self.delta as int, p + 1),
                T::obeys_eq_spec() ==> last_round(self.a@, self.b@, eq_rel::<T>(), 0) == p,
            decreases self.m - p,
        {
            let ghost round_base = self.points@.len() as int;
            let mut ko = self.offset - p;
            while ko < delta_offset
                invariant
                    self.wf(),
                    self.same_input(old(self)),
                    delta_offset == self.d_off(),
                    self.offset - p <= ko <= delta_offset,
                    self.frontier(fp@, p as int, ko as int, delta_offset + p),
                    self.points@.len() == round_base + (ko - (self.offset - p)),
                decreases delta_offset - ko,
            {
                self.advance(&mut fp, ko, Ghost(p as int), Ghost(ko as int), Ghost(delta_offset + p));
                ko += 1;
            }
            let mut ko = delta_offset + p;
            while ko > delta_offset
                invariant
                    self.wf(),
                    self.same_input(old(self)),
                    delta_offset == self.d_off(),
                    delta_offset <= ko <= delta_offset + p,
                    self.frontier(fp@, p as int, delta_offset as int, ko as int),
                    self.points@.len() == round_base + self.delta + p + (delta_offset + p - ko),
                decreases ko,
            {
                self.advance(&mut fp, ko, Ghost(p as int), Ghost(delta_offset as int), Ghost(ko as int));
                ko -= 1;
            }
            self.advance(
                &mut fp,
                delta_offset,
                Ghost(p as int),
                Ghost(delta_offset as int),
                Ghost(delta_offset as int),
            );

            proof {
                assert(self.entry_ok(
                    fp@,
                    p as int,
                    delta_offset + 1,
                    delta_offset as int,
                    delta_offset as int,
                ));
                let i = self.ids@[delta_offset as int]->0;
                assert(linked(self.points@, i as int));
                lemma_recorded_step(self.delta as int, p as int);
            }
            let done = match fp[delta_offset] {
                Some(y) => y >= self.n,
                None => false,
            };
            if done {
                break;
            }
            proof {
                self.lemma_next_round(fp@, p as int);
            }
            p += 1;
        }
        proof {
            lemma_recorded_bound(self.m as int, self.n as int, p + 1);
        }
    }

    /// The way to the end point is the one that the aligner's rule takes.
    spec fn route_is_chosen(&self) -> bool {
        route_to(self.points@, self.ids@[self.d_off()], self.reverse) == way(
            self.a@,
            self.b@,
            eq_rel::<T>(),
            self.reverse,
            last_round(self.a@, self.b@, eq_rel::<T>(), 0),
            self.delta as int,
        )
    }

    /// Diagonal `delta` has been followed to the end point.
    spec fn arrived(&self) -> bool {
        &&& self.ids@[self.d_off()] matches Some(i)
        &&& self.points@[i as int].x == self.m
        &&& self.points@[i as int].y == self.n
    }

    /// The script leads from the origin to the point `(px, py)`: written for
    /// the caller, it covers the first `px` elements of `a` and the first `py`
    /// of `b`.
    spec fn leads_to(&self, ses: Seq<Edit>, px: int, py: int) -> bool {
        &&& 0 <= px <= self.m
        &&& 0 <= py <= self.n
        &&& is_edit_script(
            ses,
            (if self.reverse {
                py
            } else {
                px
            }) as nat,
            (if self.reverse {
                px
            } else {
                py
            }) as nat,
        )
    }

    /// One more step of the script, from `(px, py)` to `(qx, qy)`.
    proof fn lemma_step(&self, ses: Seq<Edit>, e: Edit, px: int, py: int, qx: int, qy: int)
        requires
            self.wf(),
            self.leads_to(ses, px, py),
            qx <= self.m,
            qy <= self.n,
            (qx == px && qy == py + 1 && e == (if self.reverse {
                Edit::Delete { old: py as usize }
            } else {
                Edit::Add { new: py as usize }
            })) || (qx == px + 1 && qy == py && e == (if self.reverse {
                Edit::Add { new: px as usize }
            } else {
                Edit::Delete { old: px as usize }
            })) || (qx == px + 1 && qy == py + 1 && e == (if self.reverse {
                Edit::Common { old: py as usize, new: px as usize }
            } else {
                Edit::Common { old: px as usize, new: py as usize }
            })),
        ensures
            self.leads_to(ses.push(e), qx, qy),
    {
        lemma_push(ses, e);
        assert(ascending(px as nat).push(px) =~= ascending((px + 1) as nat));
        assert(ascending(py as nat).push(py) =~= ascending((py + 1) as nat));
    }

    /// Walks back from the point recorded for diagonal `delta` to the origin
    /// and writes the way down from the origin on: between two points first
    /// the steps on one side only, then the pairs. Where no point is recorded
    /// there, the script is empty; where the search has arrived, the point is the
    /// end point and the script covers both sequences.
    fn build_ses(&mut self) -> (ses: Vec<Edit>)
        requires
            old(self).wf(),
        ensures
            *final(self) == *old(self),
            ses@ == route_to(
                final(self).points@,
                final(self).ids@[final(self).d_off()],
                final(self).reverse,
            ),
            final(self).leads_to(
                ses@,
                origin_of(final(self).points@, final(self).ids@[final(self).d_off()]).0,
                origin_of(final(self).points@, final(self).ids@[final(self).d_off()]).1,
            ),
            final(self).ids@[final(self).d_off()] is None ==> ses@ == Seq::<Edit>::empty(),
            final(self).arrived() ==> final(self).leads_to(
                ses@,
                final(self).m as int,
                final(self).n as int,
            ),
    {
        let mut route: Vec<Point> = vec![];
        let mut prev = self.ids[self.delta + self.offset];
        let ghost end = prev;
        let ghost mut trail: Seq<usize> = Seq::empty();
        while prev.is_some()
            invariant
                self.wf(),
                *self == *old(self),
                route@.len() == trail.len(),
                forall|t: int|
                    0 <= t < trail.len() ==> #[trigger] marks(self.points@, trail, route@, t),
                trail.len() > 0 ==> Some(trail[0]) == end && prev
                    == self.points@[trail.last() as int].prev,
                trail.len() == 0 ==> prev == end,
                prev matches Some(i) ==> i < self.points@.len(),
            decreases
                (match prev {
                    Some(i) => i as int + 1,
                    None => 0,
                }),
        {
            let at = prev.unwrap();
            let p = &self.points[at];
            let ghost trail_before = trail;
            let ghost route_before = route@;
            proof {
                assert(linked(self.points@, at as int));
                trail = trail.push(at);
            }
            route.push(Point { x: p.x, y: p.y });
            prev = p.prev;
            proof {
                assert forall|t: int| 0 <= t < trail.len() implies #[trigger] marks(
                    self.points@,
                    trail,
                    route@,
                    t,
                ) by {
                    if t < trail_before.len() {
                        assert(marks(self.points@, trail_before, route_before, t));
                    }
                }
            }
        }
        let mut px: usize = 0;
        let mut py: usize = 0;
        let mut ses: Vec<Edit> = vec![];
        let mut t = route.len();
        proof {
            assert(new_indices(ses@) =~= ascending(0));
        }
        while t > 0
            invariant
                self.wf(),
                *self == *old(self),
                0 <= t <= route@.len() == trail.len(),
                end == self.ids@[self.d_off()],
                trail.len() == 0 ==> end is None,
                trail.len() > 0 ==> Some(trail[0]) == end
                    && self.points@[trail.last() as int].prev is None,
                forall|t: int|
                    0 <= t < trail.len() ==> #[trigger] marks(self.points@, trail, route@, t),
                (px as int, py as int) == origin_of(
                    self.points@,
                    if t == trail.len() {
                        None
                    } else {
                        Some(trail[t as int])
                    },
                ),
                self.leads_to(ses@, px as int, py as int),
                ses@ == route_to(
                    self.points@,
                    if t == trail.len() {
                        None
                    } else {
                        Some(trail[t as int])
                    },
                    self.reverse,
                ),
            decreases t,
        {
            t -= 1;
            let p = &route[t];
            let ghost at = trail[t as int] as int;
            let ghost whole = route_to(self.points@, Some(trail[t as int]), self.reverse);
            proof {
                assert(marks(self.points@, trail, route@, t as int));
            }
            while px < p.x || py < p.y
                invariant
                    self.wf(),
                    *self == *old(self),
                    p.x <= self.m,
                    p.y <= self.n,
                    px <= p.x,
                    py <= p.y,
                    self.leads_to(ses@, px as int, py as int),
                    ses@ + leg(self.reverse, px as int, py as int, p.x as int, p.y as int) == whole,
                decreases (p.x - px) + (p.y - py),
            {
                // compare (p.y - p.x) and (py - px)
                if p.y + px > p.x + py {
                    let e = if self.reverse {
                        Edit::Delete { old: py }
                    } else {
                        Edit::Add { new: py }
                    };
                    proof {
                        self.lemma_step(ses@, e, px as int, py as int, px as int, py + 1);
                    }
                    ses.push(e);
                    py += 1;
                } else if p.y + px < p.x + py {
                    let e = if self.reverse {
                        Edit::Add { new: px }
                    } else {
                        Edit::Delete { old: px }
                    };
                    proof {
                        self.lemma_step(ses@, e, px as int, py as int, px + 1, py as int);
                    }
                    ses.push(e);
                    px += 1;
                } else {
                    let e = if self.reverse {
                        Edit::Common { old: py, new: px }
                    } else {
                        Edit::Common { old: px, new: py }
                    };
                    proof {
                        self.lemma_step(ses@, e, px as int, py as int, px + 1, py + 1);
                    }
                    ses.push(e);
                    px += 1;
                    py += 1;
                }
            }
        }
        ses
    }

    /// A script that leads from the origin to the end point, and where `==`
    /// is the relation that Verus knows for `T`, the script of the aligner's
    /// rule.
    fn build(&mut self) -> (ses: Vec<Edit>)
        requires
            old(self).wf(),
            forall|ko: int| 0 <= ko < old(self).ids@.len() ==> old(self).ids@[ko] is None,
        ensures
            final(self).same_input(old(self)),
            final(self).leads_to(ses@, final(self).m as int, final(self).n as int),
            T::obeys_eq_spec() ==> ses@ == way(
                final(self).a@,
                final(self).b@,
                eq_rel::<T>(),
                final(self).reverse,
                last_round(final(self).a@, final(self).b@, eq_rel::<T>(), 0),
                final(self).delta as int,
            ),
    {
        self.compare();
        self.build_ses()
    }
}

} // verus!
