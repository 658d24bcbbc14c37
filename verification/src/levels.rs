//! The landscapes as functions: the height of a tent at a place, what it
//! means to be the `j`-th highest there, and the value of a polyline there;
//! on the half grid, whose places are integers, and on the grids that refine
//! it, whose places stand for all the fractions.

use crate::persistencelandscape::{PersistenceMountain, Sweep};
use vstd::prelude::*;
use vstd::set_lib::{lemma_int_range, lemma_len_subset, set_int_range};

verus! {

/// The height of the tent `m` over the place `t`, in half grid units: it
/// rises by one for each unit from its birth, falls by one for each unit to
/// its death, and is zero outside.
pub open spec fn height(m: PersistenceMountain, t: int) -> int {
    let least = if t - m.birth.x <= m.death.x - t {
        t - m.birth.x
    } else {
        m.death.x - t
    };
    if least > 0 {
        least
    } else {
        0
    }
}

/// The tents that are higher than `v` over `t`.
pub open spec fn higher(tents: Seq<PersistenceMountain>, t: int, v: int) -> Set<int> {
    Set::new(|m: int| 0 <= m < tents.len() && height(tents[m], t) > v)
}

/// The tents that are at least as high as `v` over `t`.
pub open spec fn at_least(tents: Seq<PersistenceMountain>, t: int, v: int) -> Set<int> {
    Set::new(|m: int| 0 <= m < tents.len() && height(tents[m], t) >= v)
}

/// Whether `v` is the value of the landscape `j + 1` over `t`: the `j + 1`-th
/// largest height of a tent there, or zero where fewer tents stand. That is:
/// at most `j` tents are higher than `v`, and, unless `v` is zero, more than
/// `j` are at least as high.
pub open spec fn level(tents: Seq<PersistenceMountain>, j: int, t: int, v: int) -> bool {
    &&& v >= 0
    &&& higher(tents, t, v).len() <= j
    &&& v == 0 || at_least(tents, t, v).len() > j
}

/// A step of a polyline that rises by one for each unit, falls by one for
/// each unit, or runs along the floor.
pub open spec fn unit_step(p: (i64, i64), q: (i64, i64)) -> bool {
    q.1 - p.1 == q.0 - p.0 || p.1 - q.1 == q.0 - p.0 || (p.1 == 0 && q.1 == 0)
}

/// The value over `t` of the unit step from `p` to `q`: what linear
/// interpolation between the two points gives.
pub open spec fn along(p: (i64, i64), q: (i64, i64), t: int) -> int {
    if q.1 - p.1 == q.0 - p.0 {
        p.1 + (t - p.0)
    } else if p.1 - q.1 == q.0 - p.0 {
        p.1 - (t - p.0)
    } else {
        0
    }
}

/// The value of a polyline over `t`: that of the step over `t`, and zero to
/// the left of the first point and to the right of the last.
pub open spec fn value_at(line: Seq<(i64, i64)>, t: int) -> int
    decreases line.len(),
{
    if line.len() < 2 {
        0
    } else if line[line.len() - 2].0 < t <= line[line.len() - 1].0 {
        along(line[line.len() - 2], line[line.len() - 1], t)
    } else {
        value_at(line.drop_last(), t)
    }
}

/// Every step of the polyline is a unit step.
pub open spec fn stepwise(line: Seq<(i64, i64)>) -> bool {
    forall|i: int| 0 <= i && i + 1 < line.len() ==> unit_step(line[i], #[trigger] line[i + 1])
}

/// The tents of the slots above the slot `p`.
pub open spec fn above(s: Sweep, p: int) -> Set<int> {
    Set::new(
        |m: int|
            0 <= m < s.mountains.len() && s.mountains[m].position.is_some()
                && s.mountains[m].position.unwrap() < p,
    )
}

/// Above the slot `p` of the status are `p` tents.
pub proof fn lemma_above_count(s: Sweep, p: int)
    requires
        s.well_formed(),
        0 <= p <= s.status.len(),
    ensures
        above(s, p).finite(),
        above(s, p).len() == p,
{
    let ids = Seq::new(p as nat, |q: int| s.status[q] as int);
    assert(ids.no_duplicates()) by {
        assert forall|a: int, b: int| 0 <= a < ids.len() && 0 <= b < ids.len() && a != b implies ids[a]
            != ids[b] by {
            assert(s.mountains[s.status[a] as int].position.unwrap() == a);
            assert(s.mountains[s.status[b] as int].position.unwrap() == b);
        }
    }
    ids.unique_seq_to_set();
    assert(ids.to_set() =~= above(s, p)) by {
        assert forall|m: int| ids.to_set().contains(m) implies above(s, p).contains(m) by {
            let q = choose|q: int| 0 <= q < ids.len() && ids[q] == m;
            assert(s.status[q] < s.mountains.len());
            assert(s.mountains[s.status[q] as int].position.unwrap() == q);
        }
        assert forall|m: int| above(s, p).contains(m) implies ids.to_set().contains(m) by {
            let q = s.mountains[m].position.unwrap() as int;
            assert(s.status[q] == m);
            assert(ids[q] == m);
        }
    }
}

/// Any set of tents is finite, with no more members than there are tents.
pub proof fn lemma_tents_finite(tents: Seq<PersistenceMountain>, some: Set<int>)
    requires
        forall|m: int| some.contains(m) ==> 0 <= m < tents.len(),
    ensures
        some.finite(),
        some.len() <= tents.len(),
{
    lemma_int_range(0, tents.len() as int);
    assert(some.subset_of(set_int_range(0, tents.len() as int)));
    lemma_len_subset(some, set_int_range(0, tents.len() as int));
}

/// Over one place a landscape has one value.
pub proof fn lemma_level_unique(tents: Seq<PersistenceMountain>, j: int, t: int, v: int, w: int)
    requires
        level(tents, j, t, v),
        level(tents, j, t, w),
    ensures
        v == w,
{
    lemma_tents_finite(tents, higher(tents, t, v));
    lemma_tents_finite(tents, higher(tents, t, w));
    if v < w {
        assert(at_least(tents, t, w).subset_of(higher(tents, t, v)));
        lemma_len_subset(at_least(tents, t, w), higher(tents, t, v));
    } else if w < v {
        assert(at_least(tents, t, v).subset_of(higher(tents, t, w)));
        lemma_len_subset(at_least(tents, t, v), higher(tents, t, w));
    }
}

/// Over no place is a landscape lower than the next.
pub proof fn lemma_level_nested(tents: Seq<PersistenceMountain>, j: int, t: int, v: int, w: int)
    requires
        level(tents, j, t, v),
        level(tents, j + 1, t, w),
    ensures
        v >= w,
{
    lemma_tents_finite(tents, higher(tents, t, v));
    if v < w {
        assert(at_least(tents, t, w).subset_of(higher(tents, t, v)));
        lemma_len_subset(at_least(tents, t, w), higher(tents, t, v));
    }
}

/// The coordinate `x` on a grid `c` times as fine.
#[verifier::opaque]
pub open spec fn fine(c: int, x: int) -> int {
    c * x
}

/// A finer grid keeps order, sums and differences, and the grid itself is
/// the grid once as fine.
pub proof fn lemma_fine(c: int, a: int, b: int)
    requires
        c >= 1,
    ensures
        a <= b ==> fine(c, a) <= fine(c, b),
        a < b ==> fine(c, a) < fine(c, b),
        fine(c, a + b) == fine(c, a) + fine(c, b),
        fine(c, a - b) == fine(c, a) - fine(c, b),
        fine(c, 0) == 0,
        fine(1, a) == a,
{
    reveal(fine);
    assert(a <= b ==> c * a <= c * b) by (nonlinear_arith)
        requires
            c >= 1,
    ;
    assert(a < b ==> c * a < c * b) by (nonlinear_arith)
        requires
            c >= 1,
    ;
    assert(c * (a + b) == c * a + c * b) by (nonlinear_arith);
    assert(c * (a - b) == c * a - c * b) by (nonlinear_arith);
}

/// On a finer grid twice a coordinate stands to the sum of two others as on
/// the grid.
pub proof fn lemma_fine_twice(c: int, a: int, b: int, d: int)
    requires
        c >= 1,
    ensures
        2 * a <= b + d ==> 2 * fine(c, a) <= fine(c, b) + fine(c, d),
        2 * a >= b + d ==> 2 * fine(c, a) >= fine(c, b) + fine(c, d),
        2 * a == b + d ==> 2 * fine(c, a) == fine(c, b) + fine(c, d),
{
    lemma_fine(c, a, a);
    lemma_fine(c, b, d);
    lemma_fine(c, 2 * a, b + d);
    lemma_fine(c, b + d, 2 * a);
}

/// The height of the tent `m` over the place `u` of a grid `c` times as fine
/// as the half grid, in units of that grid.
pub open spec fn height_over(m: PersistenceMountain, c: int, u: int) -> int {
    let least = if u - fine(c, m.birth.x as int) <= fine(c, m.death.x as int) - u {
        u - fine(c, m.birth.x as int)
    } else {
        fine(c, m.death.x as int) - u
    };
    if least > 0 {
        least
    } else {
        0
    }
}

/// The tents that are higher than `v` over the place `u` of the finer grid.
pub open spec fn higher_over(tents: Seq<PersistenceMountain>, c: int, u: int, v: int) -> Set<int> {
    Set::new(|m: int| 0 <= m < tents.len() && height_over(tents[m], c, u) > v)
}

/// The tents that are at least as high as `v` over the place `u` of the finer grid.
pub open spec fn at_least_over(tents: Seq<PersistenceMountain>, c: int, u: int, v: int) -> Set<
    int,
> {
    Set::new(|m: int| 0 <= m < tents.len() && height_over(tents[m], c, u) >= v)
}

/// Whether `v` is the value of the landscape `j + 1` over the place `u` of a
/// grid `c` times as fine as the half grid, in units of that grid: at most
/// `j` tents are higher than `v` there, and, unless `v` is zero, more than
/// `j` are at least as high.
pub open spec fn level_over(
    tents: Seq<PersistenceMountain>,
    j: int,
    c: int,
    u: int,
    v: int,
) -> bool {
    &&& v >= 0
    &&& higher_over(tents, c, u, v).len() <= j
    &&& v == 0 || at_least_over(tents, c, u, v).len() > j
}

/// The value over the place `u` of the finer grid of the unit step from `p`
/// to `q`, in units of that grid: what linear interpolation between the two
/// points gives.
pub open spec fn along_over(p: (i64, i64), q: (i64, i64), c: int, u: int) -> int {
    if q.1 - p.1 == q.0 - p.0 {
        fine(c, p.1 as int) + (u - fine(c, p.0 as int))
    } else if p.1 - q.1 == q.0 - p.0 {
        fine(c, p.1 as int) - (u - fine(c, p.0 as int))
    } else {
        0
    }
}

/// The value of a polyline over the place `u` of the finer grid, in units of
/// that grid: that of the step over `u`, and zero to the left of the first
/// point and to the right of the last.
pub open spec fn value_over(line: Seq<(i64, i64)>, c: int, u: int) -> int
    decreases line.len(),
{
    if line.len() < 2 {
        0
    } else if fine(c, line[line.len() - 2].0 as int) < u <= fine(
        c,
        line[line.len() - 1].0 as int,
    ) {
        along_over(line[line.len() - 2], line[line.len() - 1], c, u)
    } else {
        value_over(line.drop_last(), c, u)
    }
}

/// Over every place of the finer grid up to `until` the polyline has the
/// value of the landscape `j + 1`.
pub open spec fn traced_over(
    line: Seq<(i64, i64)>,
    tents: Seq<PersistenceMountain>,
    j: int,
    c: int,
    until: int,
) -> bool {
    forall|u: int|
        u <= fine(c, until) ==> level_over(tents, j, c, u, #[trigger] value_over(line, c, u))
}

/// Where all the tents that are higher than `v` are among `j` tents, and,
/// unless `v` is zero, `j + 1` tents are at least as high, `v` is the value
/// of the landscape `j + 1`.
pub proof fn lemma_level_over(
    tents: Seq<PersistenceMountain>,
    j: int,
    c: int,
    u: int,
    v: int,
    over: Set<int>,
    with: Set<int>,
)
    requires
        v >= 0,
        over.finite(),
        over.len() == j,
        higher_over(tents, c, u, v).subset_of(over),
        v > 0 ==> with.finite() && with.len() == j + 1 && with.subset_of(
            at_least_over(tents, c, u, v),
        ),
    ensures
        level_over(tents, j, c, u, v),
{
    lemma_len_subset(higher_over(tents, c, u, v), over);
    if v > 0 {
        lemma_tents_finite(tents, at_least_over(tents, c, u, v));
        lemma_len_subset(with, at_least_over(tents, c, u, v));
    }
}

/// On the half grid itself the values of polylines and landscapes are those
/// of the grid once as fine.
pub proof fn lemma_on_grid(line: Seq<(i64, i64)>, tents: Seq<PersistenceMountain>, j: int, t: int)
    ensures
        value_over(line, 1, t) == value_at(line, t),
        forall|v: int| level_over(tents, j, 1, t, v) == level(tents, j, t, v),
    decreases line.len(),
{
    if line.len() >= 2 {
        let p = line[line.len() - 2];
        let q = line[line.len() - 1];
        lemma_fine(1, p.0 as int, q.0 as int);
        lemma_fine(1, p.1 as int, q.1 as int);
        lemma_fine(1, q.0 as int, q.0 as int);
        lemma_on_grid(line.drop_last(), tents, j, t);
    }
    assert forall|m: int| 0 <= m < tents.len() implies height_over(#[trigger] tents[m], 1, t)
        == height(tents[m], t) by {
        lemma_fine(1, tents[m].birth.x as int, tents[m].death.x as int);
        lemma_fine(1, tents[m].death.x as int, tents[m].death.x as int);
    }
    assert forall|v: int| level_over(tents, j, 1, t, v) == level(tents, j, t, v) by {
        assert(higher_over(tents, 1, t, v) =~= higher(tents, t, v));
        assert(at_least_over(tents, 1, t, v) =~= at_least(tents, t, v));
    }
}

} // verus!
