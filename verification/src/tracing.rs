//! Why every polyline has, over every place, the value of its landscape.

use crate::frontier::{front, fronted, lemma_crossed_fronted, lemma_crossing_logged, on_edge};
use crate::levels::{
    above, along_over, at_least_over, fine, height_over, higher_over, lemma_above_count, lemma_fine,
    lemma_fine_twice, lemma_level_over, level_over, stepwise, traced_over, unit_step, value_over,
};
use crate::order::{
    in_order, lemma_crossed_ordered, lemma_exchanged_tents, lemma_relined_ordered,
    lemma_rest_ordered, ordered, stacked, tent_at,
};
use crate::persistencelandscape::{
    crossed, drained, exchanged, lemma_crossed_progress, logged, probed, rising_depth, Direction,
    PersistenceMountain, Sweep, SweepError,
};
use crate::soundness::{
    falling_id, free_slot, lemma_crossed_sound, lemma_exchanged_sound, lemma_probed_sound,
    lemma_relined, lemma_rest_sound, rightward, rising_id, same_phase, settled, slot_of, sound,
    well_drawn,
};
use vstd::prelude::*;

verus! {

/// The tents of the sweep have the births and deaths of the given tents.
pub open spec fn shaped(s: Sweep, tents: Seq<PersistenceMountain>) -> bool {
    &&& s.mountains.len() == tents.len()
    &&& forall|m: int|
        0 <= m < tents.len() ==> (#[trigger] s.mountains[m]).birth.x == tents[m].birth.x
            && s.mountains[m].death.x == tents[m].death.x
}

/// A stretch of the rising edge of the tent of the slot `p`, from `f` to `q`,
/// has over every place the value of the landscape `p + 1`, if the tents
/// above were born no later and their falling edges meet the rising edge no
/// earlier than at `q`, and every other tent was born no earlier or its
/// falling edge meets the rising edge no later than at `f`.
pub proof fn lemma_segment_rising(
    s: Sweep,
    tents: Seq<PersistenceMountain>,
    p: int,
    f: (i64, i64),
    q: (i64, i64),
    c: int,
)
    requires
        c >= 1,
        s.well_formed(),
        shaped(s, tents),
        0 <= p < s.status.len(),
        f.1 == f.0 - tent_at(s, p).birth.x,
        q.1 == q.0 - tent_at(s, p).birth.x,
        f.1 >= 0,
        f.0 <= q.0,
        2 * q.0 <= tent_at(s, p).birth.x + tent_at(s, p).death.x,
        forall|m: int| #[trigger]
            above(s, p).contains(m) ==> tents[m].birth.x <= tent_at(s, p).birth.x && 2 * q.0
                <= tent_at(s, p).birth.x + tents[m].death.x,
        forall|m: int|
            0 <= m < tents.len() && !(#[trigger] above(s, p).contains(m)) ==> tents[m].birth.x
                >= tent_at(s, p).birth.x || 2 * f.0 >= tent_at(s, p).birth.x + tents[m].death.x,
    ensures
        forall|u: int|
            fine(c, f.0 as int) < u <= fine(c, q.0 as int) ==> level_over(
                tents,
                p,
                c,
                u,
                #[trigger] along_over(f, q, c, u),
            ),
{
    let i = s.status[p] as int;
    assert(i < s.mountains.len());
    assert(s.mountains[i].position.unwrap() == p);
    let b = tent_at(s, p).birth.x as int;
    let d = tent_at(s, p).death.x as int;
    lemma_fine(c, f.0 as int, b);
    lemma_fine(c, 0, f.1 as int);
    lemma_fine_twice(c, q.0 as int, b, d);
    assert forall|u: int| fine(c, f.0 as int) < u <= fine(c, q.0 as int) implies level_over(
        tents,
        p,
        c,
        u,
        #[trigger] along_over(f, q, c, u),
    ) by {
        let v = along_over(f, q, c, u);
        assert(v == u - fine(c, b));
        lemma_above_count(s, p);
        lemma_above_count(s, p + 1);
        assert(higher_over(tents, c, u, v).subset_of(above(s, p))) by {
            assert forall|m: int| higher_over(tents, c, u, v).contains(m) implies above(
                s,
                p,
            ).contains(m) by {
                if !above(s, p).contains(m) {
                    assert(tents[m].birth.x >= b || 2 * f.0 >= b + tents[m].death.x);
                    lemma_fine(c, b, tents[m].birth.x as int);
                    lemma_fine_twice(c, f.0 as int, b, tents[m].death.x as int);
                }
            }
        }
        assert(above(s, p + 1).subset_of(at_least_over(tents, c, u, v))) by {
            assert forall|m: int| above(s, p + 1).contains(m) implies at_least_over(
                tents,
                c,
                u,
                v,
            ).contains(m) by {
                if above(s, p).contains(m) {
                    lemma_fine(c, tents[m].birth.x as int, b);
                    lemma_fine_twice(c, q.0 as int, b, tents[m].death.x as int);
                } else {
                    assert(s.mountains[m].position.unwrap() == p);
                    assert(s.status[p] == m);
                }
            }
        }
        lemma_level_over(tents, p, c, u, v, above(s, p), above(s, p + 1));
    }
}

/// A stretch of the falling edge of the tent of the slot `p`, from `f` to
/// `q`, has over every place the value of the landscape `p + 1`, if the
/// tents above die no earlier and their rising edges meet the falling edge
/// no later than at `f`, and every other tent dies no later or its rising
/// edge meets the falling edge no earlier than at `q`.
pub proof fn lemma_segment_falling(
    s: Sweep,
    tents: Seq<PersistenceMountain>,
    p: int,
    f: (i64, i64),
    q: (i64, i64),
    c: int,
)
    requires
        c >= 1,
        s.well_formed(),
        shaped(s, tents),
        0 <= p < s.status.len(),
        f.1 == tent_at(s, p).death.x - f.0,
        q.1 == tent_at(s, p).death.x - q.0,
        q.1 >= 0,
        f.0 < q.0,
        2 * f.0 >= tent_at(s, p).birth.x + tent_at(s, p).death.x,
        forall|m: int| #[trigger]
            above(s, p).contains(m) ==> tents[m].death.x >= tent_at(s, p).death.x && 2 * f.0
                >= tents[m].birth.x + tent_at(s, p).death.x,
        forall|m: int|
            0 <= m < tents.len() && !(#[trigger] above(s, p + 1).contains(m)) ==> tents[m].death.x
                <= tent_at(s, p).death.x || 2 * q.0 <= tents[m].birth.x + tent_at(s, p).death.x,
    ensures
        forall|u: int|
            fine(c, f.0 as int) < u <= fine(c, q.0 as int) ==> level_over(
                tents,
                p,
                c,
                u,
                #[trigger] along_over(f, q, c, u),
            ),
{
    let i = s.status[p] as int;
    assert(i < s.mountains.len());
    assert(s.mountains[i].position.unwrap() == p);
    let b = tent_at(s, p).birth.x as int;
    let d = tent_at(s, p).death.x as int;
    lemma_fine(c, d, f.0 as int);
    lemma_fine(c, q.0 as int, d);
    lemma_fine_twice(c, f.0 as int, b, d);
    assert forall|u: int| fine(c, f.0 as int) < u <= fine(c, q.0 as int) implies level_over(
        tents,
        p,
        c,
        u,
        #[trigger] along_over(f, q, c, u),
    ) by {
        let v = along_over(f, q, c, u);
        assert(v == fine(c, d) - u);
        lemma_above_count(s, p);
        lemma_above_count(s, p + 1);
        assert(higher_over(tents, c, u, v).subset_of(above(s, p))) by {
            assert forall|m: int| higher_over(tents, c, u, v).contains(m) implies above(
                s,
                p,
            ).contains(m) by {
                if !above(s, p).contains(m) {
                    if above(s, p + 1).contains(m) {
                        assert(s.mountains[m].position.unwrap() == p);
                        assert(s.status[p] == m);
                    } else {
                        assert(tents[m].death.x <= d || 2 * q.0 <= tents[m].birth.x + d);
                        lemma_fine(c, tents[m].death.x as int, d);
                        lemma_fine_twice(c, q.0 as int, tents[m].birth.x as int, d);
                    }
                }
            }
        }
        assert(above(s, p + 1).subset_of(at_least_over(tents, c, u, v))) by {
            assert forall|m: int| above(s, p + 1).contains(m) implies at_least_over(
                tents,
                c,
                u,
                v,
            ).contains(m) by {
                if above(s, p).contains(m) {
                    lemma_fine(c, d, tents[m].death.x as int);
                    lemma_fine_twice(c, f.0 as int, tents[m].birth.x as int, d);
                } else {
                    assert(s.mountains[m].position.unwrap() == p);
                    assert(s.status[p] == m);
                }
            }
        }
        lemma_level_over(tents, p, c, u, v, above(s, p), above(s, p + 1));
    }
}

/// Over a place where none but tents of the status have a height, a slot
/// below the status has the value zero.
pub proof fn lemma_floor(s: Sweep, tents: Seq<PersistenceMountain>, p: int, c: int, u: int)
    requires
        s.well_formed(),
        shaped(s, tents),
        s.status.len() <= p,
        forall|m: int|
            0 <= m < tents.len() && height_over(#[trigger] tents[m], c, u) > 0
                ==> s.mountains[m].position.is_some(),
    ensures
        level_over(tents, p, c, u, 0),
{
    let all = above(s, s.status.len() as int);
    lemma_above_count(s, s.status.len() as int);
    assert(higher_over(tents, c, u, 0).subset_of(all)) by {
        assert forall|m: int| higher_over(tents, c, u, 0).contains(m) implies all.contains(m) by {
            assert(s.mountains[m].position.is_some());
            let q = s.mountains[m].position.unwrap();
            assert(q < s.status.len());
        }
    }
    vstd::set_lib::lemma_len_subset(higher_over(tents, c, u, 0), all);
}

/// To the right of its last point a polyline has the value zero.
pub proof fn lemma_value_beyond(line: Seq<(i64, i64)>, c: int, u: int)
    requires
        c >= 1,
        rightward(line),
        line.len() > 0 ==> fine(c, line.last().0 as int) < u,
    ensures
        value_over(line, c, u) == 0,
    decreases line.len(),
{
    if line.len() >= 2 {
        let front = line.drop_last();
        assert(line[line.len() - 2].0 < line[line.len() - 1].0);
        lemma_fine(c, line[line.len() - 2].0 as int, line[line.len() - 1].0 as int);
        assert(rightward(front)) by {
            assert forall|i: int, j: int| 0 <= i < j < front.len() implies front[i].0
                < front[j].0 by {
                assert(line[i].0 < line[j].0);
            }
        }
        lemma_value_beyond(front, c, u);
    }
}

/// A polyline that is right up to its last point and takes a unit step that
/// is right stays right, up to its new last point.
pub proof fn lemma_extend(
    line: Seq<(i64, i64)>,
    tents: Seq<PersistenceMountain>,
    j: int,
    q: (i64, i64),
    c: int,
)
    requires
        c >= 1,
        line.len() > 0,
        stepwise(line),
        traced_over(line, tents, j, c, line.last().0 as int),
        line.last().0 < q.0,
        unit_step(line.last(), q),
        forall|u: int|
            fine(c, line.last().0 as int) < u <= fine(c, q.0 as int) ==> level_over(
                tents,
                j,
                c,
                u,
                #[trigger] along_over(line.last(), q, c, u),
            ),
    ensures
        stepwise(line.push(q)),
        traced_over(line.push(q), tents, j, c, q.0 as int),
{
    let longer = line.push(q);
    assert(longer.drop_last() =~= line);
    assert forall|i: int| 0 <= i && i + 1 < longer.len() implies unit_step(
        longer[i],
        #[trigger] longer[i + 1],
    ) by {
        if i + 1 < line.len() {
            assert(unit_step(line[i], line[i + 1]));
        }
    }
    assert forall|u: int| u <= fine(c, q.0 as int) implies level_over(
        tents,
        j,
        c,
        u,
        #[trigger] value_over(longer, c, u),
    ) by {
        if fine(c, line.last().0 as int) < u {
            assert(value_over(longer, c, u) == along_over(line.last(), q, c, u));
        } else {
            assert(value_over(longer, c, u) == value_over(line, c, u));
        }
    }
}

/// The polyline of a slot below the status, which is empty or ends on the
/// floor, is right as far as none but tents of the status have a height, and
/// stays right if a point on the floor is added at the end of that stretch.
pub proof fn lemma_extend_floor(
    line: Seq<(i64, i64)>,
    tents: Seq<PersistenceMountain>,
    j: int,
    c: int,
    before: int,
    x: int,
    q: (i64, i64),
)
    requires
        c >= 1,
        rightward(line),
        stepwise(line),
        settled(line),
        traced_over(line, tents, j, c, before),
        line.len() > 0 ==> line.last().0 <= before,
        before <= x,
        forall|u: int| fine(c, before) < u <= fine(c, x) ==> #[trigger] level_over(tents, j, c, u, 0),
        q.0 == x,
        q.1 == 0,
    ensures
        traced_over(line, tents, j, c, x),
        line.len() == 0 || line.last().0 < q.0 ==> stepwise(line.push(q)) && traced_over(
            line.push(q),
            tents,
            j,
            c,
            x,
        ),
{
    if line.len() > 0 {
        lemma_fine(c, line.last().0 as int, before);
    }
    assert forall|u: int| u <= fine(c, x) implies level_over(
        tents,
        j,
        c,
        u,
        #[trigger] value_over(line, c, u),
    ) by {
        if fine(c, before) < u {
            lemma_value_beyond(line, c, u);
        }
    }
    if line.len() == 0 || line.last().0 < q.0 {
        let longer = line.push(q);
        assert(longer.drop_last() =~= line);
        assert forall|i: int| 0 <= i && i + 1 < longer.len() implies unit_step(
            longer[i],
            #[trigger] longer[i + 1],
        ) by {
            if i + 1 < line.len() {
                assert(unit_step(line[i], line[i + 1]));
            }
        }
        assert forall|u: int| u <= fine(c, x) implies level_over(
            tents,
            j,
            c,
            u,
            #[trigger] value_over(longer, c, u),
        ) by {
            if line.len() > 0 && fine(c, line.last().0 as int) < u {
                assert(value_over(longer, c, u) == along_over(line.last(), q, c, u));
                assert(along_over(line.last(), q, c, u) == 0);
                lemma_value_beyond(line, c, u);
                assert(level_over(tents, j, c, u, value_over(line, c, u)));
            } else {
                assert(value_over(longer, c, u) == value_over(line, c, u));
            }
        }
    }
}

/// With the sweep at `x`, every tent of the status was born by `x` and dies
/// no earlier, every tent that left died by `x`, and every tent that is to
/// enter is born no earlier.
pub open spec fn timely(s: Sweep, x: int) -> bool {
    forall|m: int|
        0 <= m < s.mountains.len() ==> {
            let t = #[trigger] s.mountains[m];
            &&& t.position.is_some() ==> t.birth.x <= x <= t.death.x
            &&& t.position.is_none() && !t.slope_rising ==> t.death.x <= x
            &&& t.position.is_none() && t.slope_rising ==> x <= t.birth.x
        }
}

/// What the end of the polyline of a slot in use says of the other tents.
/// Where the tent of the slot rises: every tent that is not above was born
/// no earlier, or its falling edge meets the rising edge no later than
/// there. Where it falls: the end lies at or beyond the peak, and the rising
/// edge of every tent above meets the falling edge no later than there.
pub open spec fn guarded(s: Sweep) -> bool {
    &&& forall|p: int, m: int|
        0 <= p < s.status.len() && p < s.landscapes.len() && tent_at(s, p).slope_rising && 0 <= m
            < s.mountains.len() ==> #[trigger] above(s, p).contains(m) || s.mountains[m].birth.x
            >= tent_at(s, p).birth.x || 2 * front(s, p).0 >= tent_at(s, p).birth.x
            + s.mountains[m].death.x
    &&& forall|p: int, m: int|
        0 <= p < s.status.len() && p < s.landscapes.len() && !tent_at(s, p).slope_rising
            && #[trigger] above(s, p).contains(m) ==> 2 * front(s, p).0 >= s.mountains[m].birth.x
            + tent_at(s, p).death.x
    &&& forall|p: int|
        0 <= p < s.status.len() && p < s.landscapes.len() && !(#[trigger] tent_at(
            s,
            p,
        )).slope_rising ==> 2 * front(s, p).0 >= tent_at(s, p).birth.x + tent_at(s, p).death.x
}

/// How far the polyline of the slot `p` is settled for good, with the sweep
/// at `x`: to its end where the slot is in use, and else to `x`.
pub open spec fn horizon(s: Sweep, p: int, x: int) -> int {
    if p < s.status.len() {
        front(s, p).0 as int
    } else {
        x
    }
}

/// Every polyline is made of unit steps, and is right, on a grid `c` times
/// as fine as the half grid, as far as it is settled.
pub open spec fn drawn(s: Sweep, tents: Seq<PersistenceMountain>, c: int, x: int) -> bool {
    forall|p: int|
        0 <= p < s.landscapes.len() ==> stepwise(#[trigger] s.landscapes[p]) && traced_over(
            s.landscapes[p],
            tents,
            p,
            c,
            horizon(s, p, x),
        )
}

/// All that holds of the sweep while it handles an event at `x`.
pub open spec fn faithful(s: Sweep, tents: Seq<PersistenceMountain>, c: int, x: int) -> bool {
    &&& c >= 1
    &&& sound(s)
    &&& ordered(s)
    &&& fronted(s, x)
    &&& shaped(s, tents)
    &&& timely(s, x)
    &&& guarded(s)
    &&& drawn(s, tents, c, x)
}

/// What the order of the tents says of a falling tent directly above a
/// rising one, and of the tents around them.
pub proof fn lemma_pair_among(s: Sweep, x: int, upper: int, m: int)
    requires
        s.well_formed(),
        stacked(s),
        timely(s, x),
        0 <= upper,
        upper + 1 < s.status.len(),
        !tent_at(s, upper).slope_rising,
        tent_at(s, upper + 1).slope_rising,
        0 <= m < s.mountains.len(),
    ensures
        above(s, upper).contains(m) ==> s.mountains[m].death.x >= tent_at(s, upper).death.x
            && s.mountains[m].birth.x <= tent_at(s, upper + 1).birth.x,
        !above(s, upper).contains(m) ==> s.mountains[m].death.x <= tent_at(s, upper).death.x
            || s.mountains[m].birth.x >= tent_at(s, upper + 1).birth.x,
{
    let f = tent_at(s, upper);
    let r = tent_at(s, upper + 1);
    let t = s.mountains[m];
    assert(s.status[upper] < s.mountains.len() && s.status[upper + 1] < s.mountains.len());
    assert(s.mountains[s.status[upper] as int].position.is_some());
    assert(s.mountains[s.status[upper + 1] as int].position.is_some());
    if t.position.is_some() {
        let q = t.position.unwrap() as int;
        assert(s.status[q] == m);
        assert(tent_at(s, q) == t);
        if q < upper {
            assert(in_order(tent_at(s, q), tent_at(s, upper)));
            assert(in_order(tent_at(s, q), tent_at(s, upper + 1)));
        } else if q > upper + 1 {
            assert(in_order(tent_at(s, upper), tent_at(s, q)));
            assert(in_order(tent_at(s, upper + 1), tent_at(s, q)));
        }
    }
}

/// The polylines that have taken the point of the oldest queued
/// intersection are right up to that point.
pub proof fn lemma_crossing_traced(s: Sweep, tents: Seq<PersistenceMountain>, c: int, x: int)
    requires
        faithful(s, tents, c, x),
        s.weird_q.len() > 0,
    ensures
        ({
            let e = s.weird_q[0];
            let upper = slot_of(s, e);
            let m1 = s.mountains[e.parent_mountain_id as int];
            let m2 = s.mountains[e.parent_mountain2_id.unwrap() as int];
            let after = logged(s.landscapes, e.value, m1.position, Some(m2.position)).unwrap();
            forall|p: int|
                0 <= p < after.len() ==> stepwise(#[trigger] after[p]) && traced_over(
                    after[p],
                    tents,
                    p,
                    c,
                    if p == upper || p == upper + 1 {
                        e.value.x as int
                    } else {
                        horizon(s, p, x)
                    },
                )
        }),
{
    let e = s.weird_q[0];
    let upper = slot_of(s, e);
    let m1 = s.mountains[e.parent_mountain_id as int];
    let m2 = s.mountains[e.parent_mountain2_id.unwrap() as int];
    lemma_crossing_logged(s, x);
    lemma_rest_sound(s);
    lemma_rest_ordered(s);
    let after = logged(s.landscapes, e.value, m1.position, Some(m2.position)).unwrap();
    let point = (e.value.x, e.value.y);
    let f = tent_at(s, upper);
    let r = tent_at(s, upper + 1);
    assert(in_order(tent_at(s, upper), tent_at(s, upper + 1)));
    assert(s.status[upper] < s.mountains.len() && s.status[upper + 1] < s.mountains.len());
    assert(s.mountains[s.status[upper] as int].position.unwrap() == upper);
    assert(s.mountains[s.status[upper + 1] as int].position.unwrap() == upper + 1);
    assert forall|m: int| 0 <= m < s.mountains.len() implies {
        &&& #[trigger] above(s, upper).contains(m) ==> tents[m].death.x >= f.death.x
            && tents[m].birth.x <= r.birth.x
        &&& !above(s, upper).contains(m) ==> tents[m].death.x <= f.death.x || tents[m].birth.x
            >= r.birth.x
    } by {
        lemma_pair_among(s, x, upper, m);
        assert(s.mountains[m].birth.x == tents[m].birth.x);
    }
    if upper < after.len() {
        let old = s.landscapes[upper];
        assert(on_edge(tent_at(s, upper), front(s, upper)));
        assert(stepwise(old) && traced_over(old, tents, upper, c, horizon(s, upper, x)));
        if old.last() != point {
            assert forall|m: int| #[trigger]
                above(s, upper).contains(m) implies tents[m].death.x >= f.death.x && 2 * old.last().0
                >= tents[m].birth.x + f.death.x by {
                assert(s.mountains[m].birth.x == tents[m].birth.x);
            }
            assert forall|m: int|
                0 <= m < tents.len() && !(#[trigger] above(s, upper + 1).contains(
                    m,
                )) implies tents[m].death.x <= f.death.x || 2 * point.0 <= tents[m].birth.x
                + f.death.x by {
                assert(!above(s, upper).contains(m));
            }
            lemma_segment_falling(s, tents, upper, old.last(), point, c);
            lemma_extend(old, tents, upper, point, c);
        }
    }
    if upper + 1 < after.len() {
        let old = s.landscapes[upper + 1];
        assert(on_edge(tent_at(s, upper + 1), front(s, upper + 1)));
        assert(stepwise(old) && traced_over(old, tents, upper + 1, c, horizon(s, upper + 1, x)));
        assert(well_drawn(old));
        assert(old[old.len() - 1].1 >= 0);
        if old.last() != point {
            assert forall|m: int| #[trigger]
                above(s, upper + 1).contains(m) implies tents[m].birth.x <= r.birth.x && 2 * point.0
                <= r.birth.x + tents[m].death.x by {
                if !above(s, upper).contains(m) {
                    assert(s.mountains[m].position.unwrap() == upper);
                    assert(s.status[upper] == m);
                    assert(s.mountains[m].birth.x == tents[m].birth.x);
                }
            }
            assert forall|m: int|
                0 <= m < tents.len() && !(#[trigger] above(s, upper + 1).contains(
                    m,
                )) implies tents[m].birth.x >= r.birth.x || 2 * old.last().0 >= r.birth.x
                + tents[m].death.x by {
                assert(s.mountains[m].birth.x == tents[m].birth.x);
            }
            lemma_segment_rising(s, tents, upper + 1, old.last(), point, c);
            lemma_extend(old, tents, upper + 1, point, c);
        }
    }
    assert forall|p: int| 0 <= p < after.len() implies stepwise(#[trigger] after[p]) && traced_over(
                    after[p],
                    tents,
                    p,
                    c,
                    if p == upper || p == upper + 1 {
            e.value.x as int
        } else {
            horizon(s, p, x)
        },
    ) by {
        assert(stepwise(s.landscapes[p]) && traced_over(s.landscapes[p], tents, p, c, horizon(s, p, x)));
    }
}

/// After an exchange the slots above a slot hold the tents that they held,
/// but that the lower slot of the two now has the tent that rose above it.
pub proof fn lemma_exchanged_above(s: Sweep, upper: usize, lower: usize, q: int, m: int)
    requires
        s.well_formed(),
        upper + 1 == lower,
        lower < s.status.len(),
        0 <= q <= s.status.len(),
        0 <= m < s.mountains.len(),
    ensures
        above(exchanged(s, upper, lower), q).contains(m) == if q == lower {
            above(s, upper as int).contains(m) || m == s.status[lower as int]
        } else {
            above(s, q).contains(m)
        },
{
    let upper_id = s.status[upper as int];
    let lower_id = s.status[lower as int];
    assert(upper_id < s.mountains.len() && lower_id < s.mountains.len());
    assert(s.mountains[upper_id as int].position.unwrap() == upper);
    assert(s.mountains[lower_id as int].position.unwrap() == lower);
    if s.mountains[m].position.is_some() {
        let at = s.mountains[m].position.unwrap() as int;
        assert(s.status[at] == m);
    }
}

/// In a sweep whose polylines have taken the point of an intersection, the
/// two tents change places: the ends of the polylines say of the other tents
/// what they should.
pub proof fn lemma_exchanged_guarded(s: Sweep, upper: usize, lower: usize, x: int, c: (i64, i64))
    requires
        s.well_formed(),
        stacked(s),
        timely(s, x),
        upper + 1 == lower,
        lower < s.status.len(),
        !tent_at(s, upper as int).slope_rising,
        tent_at(s, lower as int).slope_rising,
        2 * c.0 == tent_at(s, lower as int).birth.x + tent_at(s, upper as int).death.x,
        upper < s.landscapes.len() ==> front(s, upper as int) == c,
        lower < s.landscapes.len() ==> front(s, lower as int) == c,
        lower < s.landscapes.len() ==> forall|m: int| #[trigger]
            above(s, upper as int).contains(m) ==> 2 * c.0 >= s.mountains[m].birth.x + tent_at(
                s,
                upper as int,
            ).death.x,
        forall|p: int, m: int|
            0 <= p < s.status.len() && p < s.landscapes.len() && tent_at(s, p).slope_rising && 0
                <= m < s.mountains.len() && p != lower ==> #[trigger] above(s, p).contains(m)
                || s.mountains[m].birth.x >= tent_at(s, p).birth.x || 2 * front(s, p).0 >= tent_at(
                s,
                p,
            ).birth.x + s.mountains[m].death.x,
        forall|p: int, m: int|
            0 <= p < s.status.len() && p < s.landscapes.len() && !tent_at(s, p).slope_rising
                && #[trigger] above(s, p).contains(m) && p != upper ==> 2 * front(s, p).0
                >= s.mountains[m].birth.x + tent_at(s, p).death.x,
        forall|p: int|
            0 <= p < s.status.len() && p < s.landscapes.len() && !(#[trigger] tent_at(
                s,
                p,
            )).slope_rising && p != upper ==> 2 * front(s, p).0 >= tent_at(s, p).birth.x + tent_at(
                s,
                p,
            ).death.x,
    ensures
        guarded(exchanged(s, upper, lower)),
{
    let next = exchanged(s, upper, lower);
    lemma_exchanged_tents(s, upper, lower);
    let f = tent_at(s, upper as int);
    let r = tent_at(s, lower as int);
    assert(in_order(tent_at(s, upper as int), tent_at(s, lower as int)));
    assert(s.status[upper as int] < s.mountains.len());
    assert(s.status[lower as int] < s.mountains.len());
    assert forall|m: int| 0 <= m < next.mountains.len() implies (#[trigger] next.mountains[m]).birth.x
        == s.mountains[m].birth.x && next.mountains[m].death.x == s.mountains[m].death.x by {}
    assert forall|p: int, m: int|
        0 <= p < next.status.len() && p < next.landscapes.len() && tent_at(next, p).slope_rising
            && 0 <= m < next.mountains.len() implies #[trigger] above(next, p).contains(m)
        || next.mountains[m].birth.x >= tent_at(next, p).birth.x || 2 * front(next, p).0
        >= tent_at(next, p).birth.x + next.mountains[m].death.x by {
        lemma_exchanged_above(s, upper, lower, p, m);
        assert(next.mountains[m].birth.x == s.mountains[m].birth.x);
        if p == upper {
            lemma_pair_among(s, x, upper as int, m);
        } else {
            assert(p != lower);
            assert(above(s, p).contains(m) || s.mountains[m].birth.x >= tent_at(s, p).birth.x || 2
                * front(s, p).0 >= tent_at(s, p).birth.x + s.mountains[m].death.x);
        }
    }
    assert forall|p: int, m: int|
        0 <= p < next.status.len() && p < next.landscapes.len() && !tent_at(next, p).slope_rising
            && #[trigger] above(next, p).contains(m) implies 2 * front(next, p).0
        >= next.mountains[m].birth.x + tent_at(next, p).death.x by {
        lemma_exchanged_above(s, upper, lower, p, m);
        assert(next.mountains[m].birth.x == s.mountains[m].birth.x);
        if p == lower {
            if !above(s, upper as int).contains(m) {
                assert(m == s.status[lower as int]);
            }
        } else {
            assert(p != upper);
            assert(above(s, p).contains(m));
        }
    }
    assert forall|p: int|
        0 <= p < next.status.len() && p < next.landscapes.len() && !(#[trigger] tent_at(
            next,
            p,
        )).slope_rising implies 2 * front(next, p).0 >= tent_at(next, p).birth.x + tent_at(
        next,
        p,
    ).death.x by {
        if p != lower {
            assert(p != upper);
            assert(!tent_at(s, p).slope_rising);
        }
    }
}

/// What the queue holds does not bear on what the ends of the polylines say.
pub proof fn lemma_requeued_guarded(s: Sweep, next: Sweep)
    requires
        guarded(s),
        next.status == s.status,
        next.mountains == s.mountains,
        next.landscapes == s.landscapes,
    ensures
        guarded(next),
{
    assert forall|p: int| 0 <= p < next.status.len() implies #[trigger] tent_at(next, p) == tent_at(
        s,
        p,
    ) by {}
    assert forall|p: int| #![auto] above(next, p) == above(s, p) by {
        assert(above(next, p) =~= above(s, p));
    }
    assert forall|p: int, m: int|
        0 <= p < next.status.len() && p < next.landscapes.len() && tent_at(next, p).slope_rising
            && 0 <= m < next.mountains.len() implies #[trigger] above(next, p).contains(m)
        || next.mountains[m].birth.x >= tent_at(next, p).birth.x || 2 * front(next, p).0
        >= tent_at(next, p).birth.x + next.mountains[m].death.x by {
        assert(above(s, p).contains(m) || s.mountains[m].birth.x >= tent_at(s, p).birth.x || 2
            * front(s, p).0 >= tent_at(s, p).birth.x + s.mountains[m].death.x);
    }
    assert forall|p: int, m: int|
        0 <= p < next.status.len() && p < next.landscapes.len() && !tent_at(next, p).slope_rising
            && #[trigger] above(next, p).contains(m) implies 2 * front(next, p).0
        >= next.mountains[m].birth.x + tent_at(next, p).death.x by {
        assert(above(s, p).contains(m));
    }
    assert forall|p: int|
        0 <= p < next.status.len() && p < next.landscapes.len() && !(#[trigger] tent_at(
            next,
            p,
        )).slope_rising implies 2 * front(next, p).0 >= tent_at(next, p).birth.x + tent_at(
        next,
        p,
    ).death.x by {
        assert(!tent_at(s, p).slope_rising);
    }
}

/// Tents that are where they were, in the status or out of it, are as timely
/// as they were.
pub proof fn lemma_same_phase_timely(s: Sweep, next: Sweep, tents: Seq<PersistenceMountain>, x: int)
    requires
        same_phase(next.mountains, s.mountains),
        timely(s, x),
        shaped(s, tents),
    ensures
        timely(next, x),
        shaped(next, tents),
{
    assert forall|m: int| 0 <= m < next.mountains.len() implies {
        let t = #[trigger] next.mountains[m];
        &&& t.position.is_some() ==> t.birth.x <= x <= t.death.x
        &&& t.position.is_none() && !t.slope_rising ==> t.death.x <= x
        &&& t.position.is_none() && t.slope_rising ==> x <= t.birth.x
        &&& t.birth.x == tents[m].birth.x
        &&& t.death.x == tents[m].death.x
    } by {
        let o = s.mountains[m];
        assert(o.birth.x == tents[m].birth.x);
    }
}

/// The oldest queued intersection is carried out without fail, and all that
/// holds of the sweep holds after it.
pub proof fn lemma_crossed_faithful(s: Sweep, tents: Seq<PersistenceMountain>, c: int, x: int)
    requires
        faithful(s, tents, c, x),
        s.weird_q.len() > 0,
    ensures
        crossed(Sweep { weird_q: s.weird_q.skip(1), ..s }, s.weird_q[0]) matches Ok(next)
            && faithful(next, tents, c, x),
{
    let e = s.weird_q[0];
    let rest = Sweep { weird_q: s.weird_q.skip(1), ..s };
    lemma_crossed_sound(s);
    lemma_crossed_ordered(s);
    lemma_crossed_fronted(s, x);
    let next = crossed(rest, e).unwrap();
    lemma_same_phase_timely(s, next, tents, x);
    lemma_crossed_guarded(s, tents, c, x);
    lemma_crossed_drawn(s, tents, c, x);
}

/// After the oldest queued intersection the ends of the polylines say of
/// the other tents what they should.
pub proof fn lemma_crossed_guarded(s: Sweep, tents: Seq<PersistenceMountain>, c: int, x: int)
    requires
        faithful(s, tents, c, x),
        s.weird_q.len() > 0,
    ensures
        crossed(Sweep { weird_q: s.weird_q.skip(1), ..s }, s.weird_q[0]) matches Ok(next)
            && guarded(next),
{
    let e = s.weird_q[0];
    let rest = Sweep { weird_q: s.weird_q.skip(1), ..s };
    lemma_rest_sound(s);
    lemma_rest_ordered(s);
    lemma_crossing_logged(s, x);
    lemma_crossed_fronted(s, x);
    let upper_id = falling_id(s, e);
    let lower_id = rising_id(s, e);
    let upper = s.mountains[upper_id as int].position.unwrap();
    let lower = s.mountains[lower_id as int].position.unwrap();
    let m1 = s.mountains[e.parent_mountain_id as int];
    let m2 = s.mountains[e.parent_mountain2_id.unwrap() as int];
    let landscapes = logged(s.landscapes, e.value, m1.position, Some(m2.position)).unwrap();
    let s1 = Sweep { landscapes, ..rest };
    lemma_relined(rest, landscapes, upper - 1);
    lemma_relined(rest, landscapes, upper as int);
    lemma_relined(rest, landscapes, lower as int);
    lemma_relined_ordered(rest, landscapes, upper as int, -1);
    let point = (e.value.x, e.value.y);
    assert forall|p: int| 0 <= p < s.status.len() implies #[trigger] tent_at(s1, p) == tent_at(
        s,
        p,
    ) by {}
    assert forall|p: int| #![auto] above(s1, p) == above(s, p) by {
        assert(above(s1, p) =~= above(s, p));
    }
    assert(timely(s1, x));
    assert forall|m: int| #[trigger]
        above(s1, upper as int).contains(m) && lower < s1.landscapes.len() implies 2 * point.0
        >= s1.mountains[m].birth.x + tent_at(s1, upper as int).death.x by {
        assert(above(s, upper as int).contains(m));
        assert(2 * front(s, upper as int).0 >= s.mountains[m].birth.x + tent_at(
            s,
            upper as int,
        ).death.x);
    }
    assert forall|p: int, m: int|
        0 <= p < s1.status.len() && p < s1.landscapes.len() && tent_at(s1, p).slope_rising && 0
            <= m < s1.mountains.len() && p != lower implies #[trigger] above(s1, p).contains(m)
        || s1.mountains[m].birth.x >= tent_at(s1, p).birth.x || 2 * front(s1, p).0 >= tent_at(
        s1,
        p,
    ).birth.x + s1.mountains[m].death.x by {
        assert(p != upper);
        assert(s1.landscapes[p] == s.landscapes[p]);
        assert(above(s, p).contains(m) || s.mountains[m].birth.x >= tent_at(s, p).birth.x || 2
            * front(s, p).0 >= tent_at(s, p).birth.x + s.mountains[m].death.x);
    }
    assert forall|p: int, m: int|
        0 <= p < s1.status.len() && p < s1.landscapes.len() && !tent_at(s1, p).slope_rising
            && #[trigger] above(s1, p).contains(m) && p != upper implies 2 * front(s1, p).0
        >= s1.mountains[m].birth.x + tent_at(s1, p).death.x by {
        assert(p != lower);
        assert(s1.landscapes[p] == s.landscapes[p]);
        assert(above(s, p).contains(m));
    }
    assert forall|p: int|
        0 <= p < s1.status.len() && p < s1.landscapes.len() && !(#[trigger] tent_at(
            s1,
            p,
        )).slope_rising && p != upper implies 2 * front(s1, p).0 >= tent_at(s1, p).birth.x
        + tent_at(s1, p).death.x by {
        assert(p != lower);
        assert(s1.landscapes[p] == s.landscapes[p]);
        assert(!tent_at(s, p).slope_rising);
    }
    lemma_exchanged_guarded(s1, upper, lower, x, point);
    lemma_exchanged_sound(s1, upper, lower);
    let s2 = exchanged(s1, upper, lower);
    assert(free_slot(s2, upper - 1) && free_slot(s2, lower as int)) by {
        assert forall|j: int| 0 <= j < s2.weird_q.len() implies slot_of(
            s2,
            #[trigger] s2.weird_q[j],
        ) != upper - 1 && slot_of(s2, s2.weird_q[j]) != lower by {
            assert(slot_of(s2, s1.weird_q[j]) == slot_of(s1, s1.weird_q[j]));
        }
    }
    lemma_probed_sound(s2, lower_id, Direction::Above, lower as int);
    let s3 = probed(s2, lower_id, Direction::Above).unwrap();
    assert(free_slot(s3, -1));
    lemma_probed_sound(s3, upper_id, Direction::Below, -1);
    let s4 = probed(s3, upper_id, Direction::Below).unwrap();
    lemma_requeued_guarded(s2, s3);
    lemma_requeued_guarded(s3, s4);
    assert(crossed(rest, e) == Ok::<Sweep, SweepError>(s4));
}

/// After the oldest queued intersection the polylines are right as far as
/// they are settled.
pub proof fn lemma_crossed_drawn(s: Sweep, tents: Seq<PersistenceMountain>, c: int, x: int)
    requires
        faithful(s, tents, c, x),
        s.weird_q.len() > 0,
    ensures
        crossed(Sweep { weird_q: s.weird_q.skip(1), ..s }, s.weird_q[0]) matches Ok(next) && drawn(
            next,
            tents,
            c,
            x,
        ),
{
    let e = s.weird_q[0];
    let rest = Sweep { weird_q: s.weird_q.skip(1), ..s };
    lemma_rest_sound(s);
    lemma_rest_ordered(s);
    lemma_crossing_logged(s, x);
    lemma_crossing_traced(s, tents, c, x);
    lemma_crossed_fronted(s, x);
    lemma_crossed_sound(s);
    let upper = slot_of(s, e);
    let m1 = s.mountains[e.parent_mountain_id as int];
    let m2 = s.mountains[e.parent_mountain2_id.unwrap() as int];
    let landscapes = logged(s.landscapes, e.value, m1.position, Some(m2.position)).unwrap();
    let next = crossed(rest, e).unwrap();
    assert(next.landscapes == landscapes);
    assert forall|p: int| 0 <= p < next.landscapes.len() implies stepwise(
        #[trigger] next.landscapes[p],
    ) && traced_over(next.landscapes[p], tents, p, c, horizon(next, p, x)) by {
        assert(stepwise(landscapes[p]));
    }
}

/// All queued intersections are carried out without fail, and all that
/// holds of the sweep holds after them.
pub proof fn lemma_drained_faithful(s: Sweep, tents: Seq<PersistenceMountain>, c: int, x: int)
    requires
        faithful(s, tents, c, x),
    ensures
        drained(s) matches Ok(next) && faithful(next, tents, c, x) && next.weird_q.len() == 0
            && next.landscapes.len() == s.landscapes.len() && same_phase(
            next.mountains,
            s.mountains,
        ),
    decreases rising_depth(s.status, s.mountains, s.status.len()), s.weird_q.len(),
{
    if s.weird_q.len() > 0 {
        let rest = Sweep { weird_q: s.weird_q.skip(1), ..s };
        lemma_crossed_sound(s);
        lemma_crossed_faithful(s, tents, c, x);
        let next = crossed(rest, s.weird_q[0]).unwrap();
        lemma_crossed_progress(rest, s.weird_q[0]);
        lemma_drained_faithful(next, tents, c, x);
    }
}

} // verus!
