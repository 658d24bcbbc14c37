//! What holds of the sweep at every step, and so of the polylines it returns.

use crate::birthdeath::{lemma_proper_pairs, proper_pairs, BirthDeath};
use crate::persistencelandscape::{
    crossed, crossing, drained, entered, exchanged, handled, is_tent, left, lemma_crossed_progress,
    log_check, logged, logged_one, neighbor_crossing, probed, rising_depth, start, swept, turned,
    Direction, Event, EventType, PersistenceMountain, PointOrd, Sweep, SweepError,
};
use crate::persistencelandscape::{death_event, down_event, initial_events, mountains_of, up_event};
use crate::schedule::{
    lemma_sorted_contains, lemma_sorted_no_duplicates, lemma_sorted_ordered, ordered, rank_lt,
    sorted, Ranked,
};
use vstd::prelude::*;
use vstd::set_lib::{lemma_int_range, set_int_range};

verus! {

/// From left to right: each point lies strictly to the right of those before it.
pub open spec fn rightward(line: Seq<(i64, i64)>) -> bool {
    forall|i: int, j: int| 0 <= i < j < line.len() ==> line[i].0 < line[j].0
}

/// No point lies below the floor.
pub open spec fn above_floor(line: Seq<(i64, i64)>) -> bool {
    forall|i: int| 0 <= i < line.len() ==> (#[trigger] line[i]).1 >= 0
}

/// A polyline as the sweep builds it: rightward, above the floor, and
/// beginning on the floor.
pub open spec fn well_drawn(line: Seq<(i64, i64)>) -> bool {
    &&& rightward(line)
    &&& above_floor(line)
    &&& line.len() > 0 ==> line[0].1 == 0
}

/// A polyline that has come back to the floor, or never left it.
pub open spec fn settled(line: Seq<(i64, i64)>) -> bool {
    line.len() > 0 ==> line.last().1 == 0
}

/// The polylines of a sweep in progress: each is well drawn; those of the
/// slots in use hold a point; those of the slots below are settled, and
/// empty below an empty one.
pub open spec fn lines_sound(landscapes: Seq<Seq<(i64, i64)>>, in_use: int) -> bool {
    &&& forall|p: int| 0 <= p < landscapes.len() ==> well_drawn(#[trigger] landscapes[p])
    &&& forall|p: int| 0 <= p < landscapes.len() && p < in_use ==> (#[trigger] landscapes[p]).len() > 0
    &&& forall|p: int| 0 <= p < landscapes.len() && p >= in_use ==> settled(#[trigger] landscapes[p])
    &&& forall|p: int, q: int|
        0 <= p <= q < landscapes.len() && (#[trigger] landscapes[p]).len() == 0 ==> (
        #[trigger] landscapes[q]).len() == 0
}

/// Offering a point to a slot in use keeps the polylines sound, if the point
/// is above the floor; it cannot fail but by lying too far left.
pub proof fn lemma_logged_one(
    landscapes: Seq<Seq<(i64, i64)>>,
    in_use: int,
    value: PointOrd,
    position: usize,
)
    requires
        lines_sound(landscapes, in_use),
        position < in_use,
        value.y > 0,
    ensures
        match logged_one(landscapes, value, Some(position)) {
            Ok(after) => lines_sound(after, in_use) && after.len() == landscapes.len(),
            Err(e) => e == SweepError::OutOfOrder,
        },
{
    if position < landscapes.len() {
        let line = landscapes[position as int];
        assert(line.len() > 0);
        match log_check(landscapes, value, position as int) {
            Ok(true) => {
                let longer = line.push((value.x, value.y));
                let after = landscapes.update(position as int, longer);
                assert(well_drawn(longer)) by {
                    assert forall|i: int, j: int| 0 <= i < j < longer.len() implies longer[i].0
                        < longer[j].0 by {
                        if j == line.len() {
                            if i < line.len() - 1 {
                                assert(line[i].0 < line[line.len() - 1].0);
                            }
                        }
                    }
                    assert forall|i: int| 0 <= i < longer.len() implies (#[trigger] longer[i]).1
                        >= 0 by {
                        if i < line.len() {
                            assert(line[i].1 >= 0);
                        }
                    }
                }
                assert forall|p: int| 0 <= p < after.len() implies well_drawn(
                    #[trigger] after[p],
                ) by {
                    if p != position {
                        assert(after[p] == landscapes[p]);
                    }
                }
                assert forall|p: int| 0 <= p < after.len() && p < in_use implies (
                #[trigger] after[p]).len() > 0 by {
                    if p != position {
                        assert(after[p] == landscapes[p]);
                    }
                }
                assert forall|p: int| 0 <= p < after.len() && p >= in_use implies settled(
                    #[trigger] after[p],
                ) by {
                    assert(after[p] == landscapes[p]);
                }
                assert forall|p: int, q: int|
                    0 <= p <= q < after.len() && (#[trigger] after[p]).len() == 0 implies (
                #[trigger] after[q]).len() == 0 by {
                    assert(after[p] == landscapes[p]);
                    assert(landscapes[q].len() == 0);
                }
            },
            _ => {},
        }
    }
}

/// Offering a point to two slots in use, as an intersection does.
pub proof fn lemma_logged_pair(
    landscapes: Seq<Seq<(i64, i64)>>,
    in_use: int,
    value: PointOrd,
    position: usize,
    position2: usize,
)
    requires
        lines_sound(landscapes, in_use),
        position < in_use,
        position2 < in_use,
        value.y > 0,
    ensures
        match logged(landscapes, value, Some(position), Some(Some(position2))) {
            Ok(after) => lines_sound(after, in_use) && after.len() == landscapes.len(),
            Err(e) => e == SweepError::OutOfOrder,
        },
{
    lemma_logged_one(landscapes, in_use, value, position);
    match logged_one(landscapes, value, Some(position)) {
        Ok(first) => {
            lemma_logged_one(first, in_use, value, position2);
        },
        Err(_) => {},
    }
}

/// Offering a point on the floor to the bottom slot in use: to the slot that
/// a tent has just taken, or to the one that it is about to give up.
pub proof fn lemma_logged_floor(
    landscapes: Seq<Seq<(i64, i64)>>,
    in_use: int,
    value: PointOrd,
    position: usize,
    entering: bool,
)
    requires
        lines_sound(landscapes, if entering {
            in_use - 1
        } else {
            in_use
        }),
        position == in_use - 1,
        value.y == 0,
    ensures
        match logged_one(landscapes, value, Some(position)) {
            Ok(after) => lines_sound(after, if entering {
                in_use
            } else {
                in_use - 1
            }) && after.len() == landscapes.len(),
            Err(e) => e == SweepError::OutOfOrder,
        },
{
    let before = if entering {
        in_use - 1
    } else {
        in_use
    };
    let then = if entering {
        in_use
    } else {
        in_use - 1
    };
    if position < landscapes.len() {
        let line = landscapes[position as int];
        if position + 1 < landscapes.len() {
            assert(settled(landscapes[position + 1]));
            if line.len() == 0 {
                assert(landscapes[position + 1].len() == 0);
            }
        }
        if !entering {
            assert(line.len() > 0);
        }
        assert(well_drawn(line));
        match log_check(landscapes, value, position as int) {
            Ok(true) => {
                let longer = line.push((value.x, value.y));
                let after = landscapes.update(position as int, longer);
                assert(well_drawn(longer)) by {
                    assert forall|i: int, j: int| 0 <= i < j < longer.len() implies longer[i].0
                        < longer[j].0 by {
                        if j == line.len() {
                            if i < line.len() - 1 {
                                assert(line[i].0 < line[line.len() - 1].0);
                            }
                        }
                    }
                    assert forall|i: int| 0 <= i < longer.len() implies (#[trigger] longer[i]).1
                        >= 0 by {
                        if i < line.len() {
                            assert(line[i].1 >= 0);
                        }
                    }
                }
                assert(settled(longer));
                assert forall|p: int| 0 <= p < after.len() implies well_drawn(
                    #[trigger] after[p],
                ) by {
                    if p != position {
                        assert(after[p] == landscapes[p]);
                    }
                }
                assert forall|p: int| 0 <= p < after.len() && p < then implies (
                #[trigger] after[p]).len() > 0 by {
                    if p != position {
                        assert(after[p] == landscapes[p]);
                    }
                }
                assert forall|p: int| 0 <= p < after.len() && p >= then implies settled(
                    #[trigger] after[p],
                ) by {
                    if p != position {
                        assert(after[p] == landscapes[p]);
                    }
                }
                assert forall|p: int, q: int|
                    0 <= p <= q < after.len() && (#[trigger] after[p]).len() == 0 implies (
                #[trigger] after[q]).len() == 0 by {
                    assert(after[p] == landscapes[p]);
                    assert(landscapes[q].len() == 0);
                }
            },
            Ok(false) => {
                assert(settled(line));
                assert forall|p: int| 0 <= p < landscapes.len() && p >= then implies settled(
                    #[trigger] landscapes[p],
                ) by {}
                assert forall|p: int| 0 <= p < landscapes.len() && p < then implies (
                #[trigger] landscapes[p]).len() > 0 by {}
            },
            Err(_) => {},
        }
    } else {
        assert forall|p: int| 0 <= p < landscapes.len() && p < then implies (
        #[trigger] landscapes[p]).len() > 0 by {}
        assert forall|p: int| 0 <= p < landscapes.len() && p >= then implies settled(
            #[trigger] landscapes[p],
        ) by {}
    }
}

/// Of the two tents of an intersection, the falling one.
pub open spec fn falling_id(s: Sweep, e: Event) -> usize {
    if s.mountains[e.parent_mountain_id as int].slope_rising {
        e.parent_mountain2_id.unwrap()
    } else {
        e.parent_mountain_id
    }
}

/// Of the two tents of an intersection, the rising one.
pub open spec fn rising_id(s: Sweep, e: Event) -> usize {
    if s.mountains[e.parent_mountain_id as int].slope_rising {
        e.parent_mountain_id
    } else {
        e.parent_mountain2_id.unwrap()
    }
}

/// The slot of the falling tent of an intersection.
pub open spec fn slot_of(s: Sweep, e: Event) -> int {
    s.mountains[falling_id(s, e) as int].position.unwrap() as int
}

/// An intersection that can be carried out: of a falling tent directly above
/// a rising one, at the point where their edges cross, off the floor.
pub open spec fn pending(s: Sweep, e: Event) -> bool {
    &&& e.parent_mountain2_id.is_some()
    &&& e.parent_mountain_id < s.mountains.len()
    &&& e.parent_mountain2_id.unwrap() < s.mountains.len()
    &&& s.mountains[e.parent_mountain_id as int].slope_rising
        != s.mountains[e.parent_mountain2_id.unwrap() as int].slope_rising
    &&& s.mountains[falling_id(s, e) as int].position.is_some()
    &&& s.mountains[rising_id(s, e) as int].position.is_some()
    &&& slot_of(s, e) + 1 == s.mountains[rising_id(s, e) as int].position.unwrap()
    &&& crossing(
        s.mountains[e.parent_mountain_id as int],
        s.mountains[e.parent_mountain2_id.unwrap() as int],
    ) == Some(e.value)
    &&& e.value.y > 0
}

/// Every queued intersection can be carried out, and no two are of one slot.
pub open spec fn queue_sound(s: Sweep) -> bool {
    &&& forall|j: int| 0 <= j < s.weird_q.len() ==> pending(s, #[trigger] s.weird_q[j])
    &&& forall|i: int, j: int|
        0 <= i < j < s.weird_q.len() ==> slot_of(s, #[trigger] s.weird_q[i]) != slot_of(
            s,
            #[trigger] s.weird_q[j],
        )
}

/// Any two tents in the status overlap: each was born before the other dies.
pub open spec fn overlapping(s: Sweep) -> bool {
    forall|i: int, j: int|
        0 <= i < s.mountains.len() && 0 <= j < s.mountains.len() && (
        #[trigger] s.mountains[i]).position.is_some() && (#[trigger] s.mountains[j]).position.is_some()
            ==> s.mountains[i].birth.x < s.mountains[j].death.x
}

/// What holds of the sweep at every step.
pub open spec fn sound(s: Sweep) -> bool {
    &&& s.well_formed()
    &&& lines_sound(s.landscapes, s.status.len() as int)
    &&& queue_sound(s)
    &&& overlapping(s)
}

/// A crossing of two tents that overlap lies off the floor.
pub proof fn lemma_crossing_off_floor(m1: PersistenceMountain, m2: PersistenceMountain)
    requires
        is_tent(m1),
        is_tent(m2),
        m1.birth.x < m2.death.x,
        m2.birth.x < m1.death.x,
        crossing(m1, m2).is_some(),
    ensures
        crossing(m1, m2).unwrap().y > 0,
{
}

/// The intersection that a tent has with a neighbour can be carried out.
pub proof fn lemma_neighbor_pending(s: Sweep, id: usize, direction: Direction)
    requires
        s.well_formed(),
        overlapping(s),
        id < s.mountains.len(),
        s.mountains[id as int].position.is_some(),
        s.mountains[id as int].slope_rising <==> direction == Direction::Above,
    ensures
        neighbor_crossing(s.status, id, s.mountains, direction) matches Ok(found),
        neighbor_crossing(s.status, id, s.mountains, direction).unwrap() matches Some(e) ==> {
            &&& pending(s, e)
            &&& slot_of(s, e) == if direction == Direction::Above {
                s.mountains[id as int].position.unwrap() - 1
            } else {
                s.mountains[id as int].position.unwrap() as int
            }
        },
{
    let position = s.mountains[id as int].position.unwrap();
    let neighbor_index = match direction {
        Direction::Below => position + 1,
        Direction::Above => position - 1,
    };
    if 0 <= neighbor_index < s.status.len() {
        let neighbor = s.status[neighbor_index];
        assert(neighbor < s.mountains.len());
        let m = s.mountains[id as int];
        let o = s.mountains[neighbor as int];
        assert(is_tent(m));
        assert(is_tent(o));
        if crossing(m, o).is_some() {
            lemma_crossing_off_floor(m, o);
        }
    }
}

/// The same tents, each in the status or out of it, rising or falling, as before.
pub open spec fn same_phase(a: Seq<PersistenceMountain>, b: Seq<PersistenceMountain>) -> bool {
    &&& a.len() == b.len()
    &&& forall|i: int|
        0 <= i < a.len() ==> {
            &&& (#[trigger] a[i]).position.is_some() == b[i].position.is_some()
            &&& a[i].slope_rising == b[i].slope_rising
            &&& a[i].birth == b[i].birth
            &&& a[i].middle == b[i].middle
            &&& a[i].death == b[i].death
        }
}

/// No queued intersection is of the slot `q`.
pub open spec fn free_slot(s: Sweep, q: int) -> bool {
    forall|j: int| 0 <= j < s.weird_q.len() ==> slot_of(s, #[trigger] s.weird_q[j]) != q
}

/// A falling tent and the rising tent directly below it change places: the
/// sweep stays sound, and the queued intersections, which are of other
/// slots, stay as they were.
pub proof fn lemma_exchanged_sound(s: Sweep, upper: usize, lower: usize)
    requires
        sound(s),
        upper + 1 == lower,
        lower < s.status.len(),
        !s.mountains[s.status[upper as int] as int].slope_rising,
        s.mountains[s.status[lower as int] as int].slope_rising,
        free_slot(s, upper - 1),
        free_slot(s, upper as int),
        free_slot(s, lower as int),
    ensures
        sound(exchanged(s, upper, lower)),
        same_phase(exchanged(s, upper, lower).mountains, s.mountains),
        forall|j: int|
            0 <= j < s.weird_q.len() ==> slot_of(exchanged(s, upper, lower), #[trigger] s.weird_q[j])
                == slot_of(s, s.weird_q[j]),
{
    let next = exchanged(s, upper, lower);
    let upper_id = s.status[upper as int];
    let lower_id = s.status[lower as int];
    assert(upper_id < s.mountains.len() && lower_id < s.mountains.len());
    assert(upper_id != lower_id);
    assert forall|i: int| 0 <= i < next.mountains.len() implies {
        let m = #[trigger] next.mountains[i];
        &&& is_tent(m)
        &&& m.id == i
        &&& m.position matches Some(p) ==> p < next.status.len() && next.status[p as int] == i
    } by {
        assert(is_tent(s.mountains[i]));
    }
    assert forall|p: int| 0 <= p < next.status.len() implies {
        let i = #[trigger] next.status[p];
        &&& i < next.mountains.len()
        &&& next.mountains[i as int].position matches Some(q) && q == p
    } by {
        assert(s.status[p] < s.mountains.len());
    }
    assert(next.well_formed());
    assert(overlapping(next)) by {
        assert forall|i: int, j: int|
            0 <= i < next.mountains.len() && 0 <= j < next.mountains.len() && (
            #[trigger] next.mountains[i]).position.is_some() && (
            #[trigger] next.mountains[j]).position.is_some() implies next.mountains[i].birth.x
            < next.mountains[j].death.x by {
            assert(s.mountains[i].position.is_some());
            assert(s.mountains[j].position.is_some());
        }
    }
    assert forall|j: int| 0 <= j < s.weird_q.len() implies pending(next, #[trigger] s.weird_q[j])
        && slot_of(next, s.weird_q[j]) == slot_of(s, s.weird_q[j]) by {
        let e = s.weird_q[j];
        assert(pending(s, e));
        let q = slot_of(s, e);
        assert(q != upper - 1 && q != upper && q != lower);
        assert(s.status[q] == falling_id(s, e));
        assert(s.status[q + 1] == rising_id(s, e));
    }
    assert(queue_sound(next)) by {
        assert forall|i: int, j: int| 0 <= i < j < next.weird_q.len() implies slot_of(
            next,
            #[trigger] next.weird_q[i],
        ) != slot_of(next, #[trigger] next.weird_q[j]) by {
            assert(slot_of(s, s.weird_q[i]) != slot_of(s, s.weird_q[j]));
        }
    }
}

/// The slot of the intersection that a test of the tent of slot `position`
/// on the side `direction` may find.
pub open spec fn probe_slot(position: usize, direction: Direction) -> int {
    match direction {
        Direction::Above => position - 1,
        Direction::Below => position as int,
    }
}

/// A rising tent is tested against its neighbour above, or a falling one
/// against its neighbour below, where no intersection of that slot is
/// queued: the test finds nothing, or an intersection that can be carried
/// out, and the sweep stays sound.
pub proof fn lemma_probed_sound(s: Sweep, id: usize, direction: Direction, other: int)
    requires
        sound(s),
        id < s.mountains.len(),
        s.mountains[id as int].position.is_some(),
        s.mountains[id as int].slope_rising <==> direction == Direction::Above,
        free_slot(s, probe_slot(s.mountains[id as int].position.unwrap(), direction)),
        free_slot(s, other),
        other != probe_slot(s.mountains[id as int].position.unwrap(), direction),
    ensures
        probed(s, id, direction).is_ok(),
        sound(probed(s, id, direction).unwrap()),
        free_slot(probed(s, id, direction).unwrap(), other),
        probed(s, id, direction).unwrap().status == s.status,
        probed(s, id, direction).unwrap().mountains == s.mountains,
        probed(s, id, direction).unwrap().landscapes == s.landscapes,
{
    lemma_neighbor_pending(s, id, direction);
    let found = neighbor_crossing(s.status, id, s.mountains, direction).unwrap();
    let next = probed(s, id, direction).unwrap();
    assert forall|j: int| 0 <= j < next.weird_q.len() implies {
        let e = #[trigger] next.weird_q[j];
        &&& e.parent_mountain_id < next.mountains.len()
        &&& e.parent_mountain2_id matches Some(i2) ==> i2 < next.mountains.len()
        &&& pending(next, e)
        &&& slot_of(next, e) != other
    } by {
        if j < s.weird_q.len() {
            let e = s.weird_q[j];
            assert(next.weird_q[j] == e);
            assert(pending(s, e));
            assert(slot_of(s, e) != other);
        }
    }
    assert forall|i: int, j: int| 0 <= i < j < next.weird_q.len() implies slot_of(
        next,
        #[trigger] next.weird_q[i],
    ) != slot_of(next, #[trigger] next.weird_q[j]) by {
        assert(next.weird_q[i] == s.weird_q[i]);
        if j < s.weird_q.len() {
            assert(next.weird_q[j] == s.weird_q[j]);
            assert(slot_of(s, s.weird_q[i]) != slot_of(s, s.weird_q[j]));
        } else {
            assert(slot_of(s, s.weird_q[i]) != probe_slot(
                s.mountains[id as int].position.unwrap(),
                direction,
            ));
        }
    }
}

/// Without its oldest intersection a sound queue is sound, and free of the
/// slots that this intersection touches.
pub proof fn lemma_rest_sound(s: Sweep)
    requires
        sound(s),
        s.weird_q.len() > 0,
    ensures
        ({
            let rest = Sweep { weird_q: s.weird_q.skip(1), ..s };
            let upper = slot_of(s, s.weird_q[0]);
            &&& sound(rest)
            &&& pending(rest, s.weird_q[0])
            &&& free_slot(rest, upper - 1)
            &&& free_slot(rest, upper)
            &&& free_slot(rest, upper + 1)
        }),
{
    let rest = Sweep { weird_q: s.weird_q.skip(1), ..s };
    let e = s.weird_q[0];
    let upper = slot_of(s, e);
    assert(pending(s, e));
    assert(s.status[upper] == falling_id(s, e));
    assert(s.status[upper + 1] == rising_id(s, e));
    assert forall|j: int| 0 <= j < rest.weird_q.len() implies {
        let e2 = #[trigger] rest.weird_q[j];
        &&& e2.parent_mountain_id < rest.mountains.len()
        &&& e2.parent_mountain2_id matches Some(i2) ==> i2 < rest.mountains.len()
        &&& pending(rest, e2)
        &&& slot_of(rest, e2) != upper - 1
        &&& slot_of(rest, e2) != upper
        &&& slot_of(rest, e2) != upper + 1
    } by {
        let e2 = rest.weird_q[j];
        assert(e2 == s.weird_q[j + 1]);
        assert(pending(s, e2));
        assert(slot_of(s, s.weird_q[0]) != slot_of(s, s.weird_q[j + 1]));
        let q = slot_of(s, e2);
        assert(s.status[q] == falling_id(s, e2));
        assert(s.status[q + 1] == rising_id(s, e2));
    }
    assert forall|i: int, j: int| 0 <= i < j < rest.weird_q.len() implies slot_of(
        rest,
        #[trigger] rest.weird_q[i],
    ) != slot_of(rest, #[trigger] rest.weird_q[j]) by {
        assert(slot_of(s, s.weird_q[i + 1]) != slot_of(s, s.weird_q[j + 1]));
    }
}

/// New polylines do not touch what else holds of the sweep.
pub proof fn lemma_relined(s: Sweep, landscapes: Seq<Seq<(i64, i64)>>, q: int)
    requires
        sound(s),
        lines_sound(landscapes, s.status.len() as int),
    ensures
        sound(Sweep { landscapes, ..s }),
        free_slot(s, q) ==> free_slot(Sweep { landscapes, ..s }, q),
{
    let next = Sweep { landscapes, ..s };
    assert forall|j: int| 0 <= j < next.weird_q.len() implies pending(next, #[trigger] next.weird_q[j])
        && slot_of(next, next.weird_q[j]) == slot_of(s, s.weird_q[j]) by {
        assert(pending(s, s.weird_q[j]));
    }
    assert forall|i: int, j: int| 0 <= i < j < next.weird_q.len() implies slot_of(
        next,
        #[trigger] next.weird_q[i],
    ) != slot_of(next, #[trigger] next.weird_q[j]) by {
        assert(slot_of(s, s.weird_q[i]) != slot_of(s, s.weird_q[j]));
    }
}

/// Carrying out the oldest queued intersection of a sound sweep leaves it
/// sound, unless a point comes to lie too far left.
pub proof fn lemma_crossed_sound(s: Sweep)
    requires
        sound(s),
        s.weird_q.len() > 0,
    ensures
        match crossed(Sweep { weird_q: s.weird_q.skip(1), ..s }, s.weird_q[0]) {
            Ok(next) => sound(next) && next.landscapes.len() == s.landscapes.len()
                && next.status.len() == s.status.len() && same_phase(next.mountains, s.mountains),
            Err(x) => x == SweepError::OutOfOrder,
        },
{
    let e = s.weird_q[0];
    let rest = Sweep { weird_q: s.weird_q.skip(1), ..s };
    lemma_rest_sound(s);
    let id1 = e.parent_mountain_id;
    let id2 = e.parent_mountain2_id.unwrap();
    let m1 = s.mountains[id1 as int];
    let m2 = s.mountains[id2 as int];
    let upper_id = falling_id(s, e);
    let lower_id = rising_id(s, e);
    let upper = s.mountains[upper_id as int].position.unwrap();
    let lower = s.mountains[lower_id as int].position.unwrap();
    assert(s.status[upper as int] == upper_id && s.status[lower as int] == lower_id
        && lower < s.status.len());
    lemma_logged_pair(
        s.landscapes,
        s.status.len() as int,
        e.value,
        m1.position.unwrap(),
        m2.position.unwrap(),
    );
    match logged(s.landscapes, e.value, m1.position, Some(m2.position)) {
        Err(_) => {},
        Ok(landscapes) => {
            let s1 = Sweep { landscapes, ..rest };
            lemma_relined(rest, landscapes, upper - 1);
            lemma_relined(rest, landscapes, upper as int);
            lemma_relined(rest, landscapes, lower as int);
            lemma_exchanged_sound(s1, upper, lower);
            let s2 = exchanged(s1, upper, lower);
            assert(free_slot(s2, upper - 1) && free_slot(s2, lower as int)) by {
                assert forall|j: int| 0 <= j < s2.weird_q.len() implies slot_of(
                    s2,
                    #[trigger] s2.weird_q[j],
                ) != upper - 1 && slot_of(s2, s2.weird_q[j]) != lower by {
                    assert(slot_of(s2, s1.weird_q[j]) == slot_of(s1, s1.weird_q[j]));
                }
            }
            lemma_probed_sound(s2, lower_id, Direction::Above, lower as int);
            let s3 = probed(s2, lower_id, Direction::Above).unwrap();
            assert(free_slot(s3, -1));
            lemma_probed_sound(s3, upper_id, Direction::Below, -1);
        },
    }
}

/// Carrying out all queued intersections of a sound sweep leaves it sound,
/// unless a point comes to lie too far left.
pub proof fn lemma_drained_sound(s: Sweep)
    requires
        sound(s),
    ensures
        match drained(s) {
            Ok(next) => sound(next) && next.weird_q.len() == 0 && next.landscapes.len()
                == s.landscapes.len() && next.status.len() == s.status.len() && same_phase(
                next.mountains,
                s.mountains,
            ),
            Err(x) => x == SweepError::OutOfOrder,
        },
    decreases rising_depth(s.status, s.mountains, s.status.len()), s.weird_q.len(),
{
    if s.weird_q.len() > 0 {
        let rest = Sweep { weird_q: s.weird_q.skip(1), ..s };
        lemma_crossed_sound(s);
        match crossed(rest, s.weird_q[0]) {
            Err(_) => {},
            Ok(next) => {
                lemma_crossed_progress(rest, s.weird_q[0]);
                lemma_drained_sound(next);
            },
        }
    }
}

/// Tents as the sweep is given them: each a tent, numbered by its place, out
/// of the status and rising.
pub open spec fn numbered(tents: Seq<PersistenceMountain>) -> bool {
    &&& tents.len() <= usize::MAX
    &&& forall|i: int|
        0 <= i < tents.len() ==> {
            let m = #[trigger] tents[i];
            &&& is_tent(m)
            &&& m.id == i
            &&& m.position.is_none()
            &&& m.slope_rising
        }
}

/// The event of kind `t` of the tent `m`.
pub open spec fn event_of(m: PersistenceMountain, t: EventType) -> Event {
    match t {
        EventType::Up => up_event(m),
        EventType::Down => down_event(m),
        _ => death_event(m),
    }
}

/// A schedule of the tents: in rank order, without repetitions, of entering,
/// turn and leaving of tents only, and with all three for every tent.
pub open spec fn regular(tents: Seq<PersistenceMountain>, events: Seq<Event>) -> bool {
    &&& ordered(events)
    &&& events.no_duplicates()
    &&& forall|j: int|
        0 <= j < events.len() ==> {
            let e = #[trigger] events[j];
            &&& e.parent_mountain_id < tents.len()
            &&& e.event_type != EventType::Intersection
            &&& e == event_of(tents[e.parent_mountain_id as int], e.event_type)
        }
    &&& forall|i: int, t: EventType|
        0 <= i < tents.len() && t != EventType::Intersection ==> events.contains(
            #[trigger] event_of(tents[i], t),
        )
}

/// The sorted initial events of numbered tents are a regular schedule.
pub proof fn lemma_timetable_regular(tents: Seq<PersistenceMountain>)
    requires
        numbered(tents),
    ensures
        regular(tents, sorted(initial_events(tents))),
{
    let unsorted = initial_events(tents);
    let events = sorted(unsorted);
    lemma_sorted_ordered(unsorted);
    assert(unsorted.no_duplicates()) by {
        assert forall|i: int, j: int|
            0 <= i < unsorted.len() && 0 <= j < unsorted.len() && i != j implies unsorted[i]
            != unsorted[j] by {
            assert(tents[i / 3].id == i / 3);
            assert(tents[j / 3].id == j / 3);
        }
    }
    lemma_sorted_no_duplicates(unsorted);
    assert forall|j: int| 0 <= j < events.len() implies {
        let e = #[trigger] events[j];
        &&& e.parent_mountain_id < tents.len()
        &&& e.event_type != EventType::Intersection
        &&& e == event_of(tents[e.parent_mountain_id as int], e.event_type)
    } by {
        let e = events[j];
        assert(events.contains(e));
        lemma_sorted_contains(unsorted, e);
        let i = choose|i: int| 0 <= i < unsorted.len() && unsorted[i] == e;
        assert(tents[i / 3].id == i / 3);
    }
    assert forall|i: int, t: EventType|
        0 <= i < tents.len() && t != EventType::Intersection implies events.contains(
        #[trigger] event_of(tents[i], t),
    ) by {
        let e = event_of(tents[i], t);
        let j = 3 * i + (if t == EventType::Up {
            0int
        } else if t == EventType::Down {
            1int
        } else {
            2int
        });
        assert(unsorted[j] == e);
        assert(unsorted.contains(e));
        lemma_sorted_contains(unsorted, e);
    }
}

/// The event of kind `t` of the tent `id` is among the first `n` events.
pub open spec fn seen(events: Seq<Event>, n: int, t: EventType, id: int) -> bool {
    exists|j: int|
        0 <= j < n && j < events.len() && (#[trigger] events[j]).event_type == t
            && events[j].parent_mountain_id == id
}

/// The tents of the sweep are the given ones, and each is where the first
/// `n` events put it: in the status from its entering to its leaving, rising
/// until its turn.
pub open spec fn on_time(
    s: Sweep,
    tents: Seq<PersistenceMountain>,
    events: Seq<Event>,
    n: int,
) -> bool {
    &&& s.mountains.len() == tents.len()
    &&& forall|i: int|
        0 <= i < tents.len() ==> {
            let m = #[trigger] s.mountains[i];
            &&& m.birth == tents[i].birth
            &&& m.middle == tents[i].middle
            &&& m.death == tents[i].death
            &&& m.position.is_some() <==> seen(events, n, EventType::Up, i) && !seen(
                events,
                n,
                EventType::Death,
                i,
            )
            &&& m.slope_rising <==> !seen(events, n, EventType::Down, i)
        }
}

/// In a regular schedule the place of the event of kind `t` of the tent `i`.
pub open spec fn place(events: Seq<Event>, tents: Seq<PersistenceMountain>, i: int, t: EventType) -> int {
    choose|j: int| 0 <= j < events.len() && events[j] == event_of(tents[i], t)
}

/// Every tent enters before it turns, and turns before it leaves; and each
/// of its three events has one place in the schedule.
pub proof fn lemma_places(events: Seq<Event>, tents: Seq<PersistenceMountain>, i: int)
    requires
        numbered(tents),
        regular(tents, events),
        0 <= i < tents.len(),
    ensures
        ({
            let up = place(events, tents, i, EventType::Up);
            let down = place(events, tents, i, EventType::Down);
            let death = place(events, tents, i, EventType::Death);
            &&& 0 <= up < down < death < events.len()
            &&& events[up] == up_event(tents[i])
            &&& events[down] == down_event(tents[i])
            &&& events[death] == death_event(tents[i])
            &&& forall|n: int| seen(events, n, EventType::Up, i) <==> up < n
            &&& forall|n: int| seen(events, n, EventType::Down, i) <==> down < n
            &&& forall|n: int| seen(events, n, EventType::Death, i) <==> death < n
        }),
{
    let m = tents[i];
    assert(is_tent(m) && m.id == i);
    let up = place(events, tents, i, EventType::Up);
    let down = place(events, tents, i, EventType::Down);
    let death = place(events, tents, i, EventType::Death);
    assert(events.contains(event_of(m, EventType::Up)));
    assert(events.contains(event_of(m, EventType::Down)));
    assert(events.contains(event_of(m, EventType::Death)));
    assert(rank_lt(up_event(m).rank(), down_event(m).rank()));
    assert(rank_lt(down_event(m).rank(), death_event(m).rank()));
    assert(up < down) by {
        if up > down {
            assert(!rank_lt(events[up].rank(), events[down].rank()));
        }
    }
    assert(down < death) by {
        if down > death {
            assert(!rank_lt(events[down].rank(), events[death].rank()));
        }
    }
    lemma_seen_at(events, tents, i, EventType::Up, up);
    lemma_seen_at(events, tents, i, EventType::Down, down);
    lemma_seen_at(events, tents, i, EventType::Death, death);
}

/// An event that stands at the place `at` is seen from there on, and not before.
proof fn lemma_seen_at(
    events: Seq<Event>,
    tents: Seq<PersistenceMountain>,
    i: int,
    t: EventType,
    at: int,
)
    requires
        numbered(tents),
        regular(tents, events),
        0 <= i < tents.len(),
        t != EventType::Intersection,
        0 <= at < events.len(),
        events[at] == event_of(tents[i], t),
    ensures
        forall|n: int| seen(events, n, t, i) <==> at < n,
{
    assert(tents[i].id == i);
    assert forall|n: int| seen(events, n, t, i) <==> at < n by {
        if seen(events, n, t, i) {
            let j = choose|j: int|
                0 <= j < n && j < events.len() && (#[trigger] events[j]).event_type == t
                    && events[j].parent_mountain_id == i;
            assert(events[j] == event_of(tents[i], t));
            assert(j == at);
        }
        if at < n {
            assert(events[at].event_type == t && events[at].parent_mountain_id == i);
        }
    }
}

/// The place of an event in a regular schedule is where it stands.
proof fn lemma_place_is(events: Seq<Event>, tents: Seq<PersistenceMountain>, n: int)
    requires
        numbered(tents),
        regular(tents, events),
        0 <= n < events.len(),
    ensures
        events[n].parent_mountain_id < tents.len(),
        events[n].event_type != EventType::Intersection,
        place(events, tents, events[n].parent_mountain_id as int, events[n].event_type) == n,
{
    let e = events[n];
    let i = e.parent_mountain_id as int;
    assert(e == event_of(tents[i], e.event_type));
    assert(events.contains(e));
}

/// The next event of a sweep that is on time finds its tent ready: not yet
/// in the status and rising if it is to enter, in the status and rising if it
/// is to turn, in the status and falling if it is to leave.
pub proof fn lemma_ready(s: Sweep, tents: Seq<PersistenceMountain>, events: Seq<Event>, n: int)
    requires
        numbered(tents),
        regular(tents, events),
        0 <= n < events.len(),
        on_time(s, tents, events, n),
    ensures
        ({
            let e = events[n];
            let m = s.mountains[e.parent_mountain_id as int];
            &&& e.parent_mountain_id < s.mountains.len()
            &&& e.event_type != EventType::Intersection
            &&& e.event_type == EventType::Up ==> m.position.is_none() && m.slope_rising && e.value
                == m.birth
            &&& e.event_type == EventType::Down ==> m.position.is_some() && m.slope_rising
                && e.value == m.middle
            &&& e.event_type == EventType::Death ==> m.position.is_some() && !m.slope_rising
                && e.value == m.death
        }),
{
    let e = events[n];
    let i = e.parent_mountain_id as int;
    lemma_place_is(events, tents, n);
    lemma_places(events, tents, i);
    assert(e == event_of(tents[i], e.event_type));
    let m = s.mountains[i];
    assert(m.birth == tents[i].birth);
}

/// After the next event the sweep is on time again, if the tent of the event
/// is now where the event puts it and the other tents are where they were.
pub proof fn lemma_on_time_advance(
    s: Sweep,
    next: Sweep,
    tents: Seq<PersistenceMountain>,
    events: Seq<Event>,
    n: int,
)
    requires
        numbered(tents),
        regular(tents, events),
        0 <= n < events.len(),
        on_time(s, tents, events, n),
        next.mountains.len() == s.mountains.len(),
        forall|i: int|
            0 <= i < tents.len() ==> {
                let m = #[trigger] next.mountains[i];
                &&& m.birth == s.mountains[i].birth
                &&& m.middle == s.mountains[i].middle
                &&& m.death == s.mountains[i].death
                &&& i != events[n].parent_mountain_id ==> m.position.is_some()
                    == s.mountains[i].position.is_some() && m.slope_rising
                    == s.mountains[i].slope_rising
            },
        ({
            let m = next.mountains[events[n].parent_mountain_id as int];
            &&& m.position.is_some() == (events[n].event_type != EventType::Death)
            &&& m.slope_rising == (events[n].event_type == EventType::Up)
        }),
    ensures
        on_time(next, tents, events, n + 1),
{
    let e = events[n];
    let id = e.parent_mountain_id as int;
    lemma_place_is(events, tents, n);
    assert forall|i: int| 0 <= i < tents.len() implies {
        let m = #[trigger] next.mountains[i];
        &&& m.birth == tents[i].birth
        &&& m.middle == tents[i].middle
        &&& m.death == tents[i].death
        &&& m.position.is_some() <==> seen(events, n + 1, EventType::Up, i) && !seen(
            events,
            n + 1,
            EventType::Death,
            i,
        )
        &&& m.slope_rising <==> !seen(events, n + 1, EventType::Down, i)
    } by {
        lemma_places(events, tents, i);
        let old_m = s.mountains[i];
        assert(old_m.birth == tents[i].birth);
        if i != id {
            assert(place(events, tents, i, EventType::Up) != n);
            assert(place(events, tents, i, EventType::Down) != n);
            assert(place(events, tents, i, EventType::Death) != n);
        }
    }
}

/// Two tents that a sweep on time holds in the status overlap, and a tent
/// that enters next overlaps with each of them.
pub proof fn lemma_overlap(
    s: Sweep,
    tents: Seq<PersistenceMountain>,
    events: Seq<Event>,
    n: int,
    j: int,
)
    requires
        numbered(tents),
        regular(tents, events),
        0 <= n < events.len(),
        on_time(s, tents, events, n),
        events[n].event_type == EventType::Up,
        0 <= j < tents.len(),
        s.mountains[j].position.is_some(),
    ensures
        tents[events[n].parent_mountain_id as int].birth.x < tents[j].death.x,
        tents[j].birth.x < tents[events[n].parent_mountain_id as int].death.x,
{
    let id = events[n].parent_mountain_id as int;
    lemma_place_is(events, tents, n);
    lemma_places(events, tents, j);
    lemma_places(events, tents, id);
    let up = place(events, tents, j, EventType::Up);
    let death = place(events, tents, j, EventType::Death);
    assert(s.mountains[j].birth == tents[j].birth);
    assert(up < n);
    assert(death > n);
    assert(!rank_lt(events[n].rank(), events[up].rank()));
    assert(!rank_lt(events[death].rank(), events[n].rank()));
    assert(is_tent(tents[id]));
    assert(is_tent(tents[j]));
}

/// What holds between two events of the main schedule, `n` of them handled.
pub open spec fn between(
    s: Sweep,
    tents: Seq<PersistenceMountain>,
    events: Seq<Event>,
    n: int,
    k: int,
) -> bool {
    &&& sound(s)
    &&& s.weird_q.len() == 0
    &&& s.landscapes.len() == k
    &&& on_time(s, tents, events, n)
}

/// What a step of the sweep comes to: the sweep is as it should be between
/// two events, or it broke off because a tent was to leave from above the
/// bottom or a point came to lie too far left.
pub open spec fn step_sound(
    r: Result<Sweep, SweepError>,
    tents: Seq<PersistenceMountain>,
    events: Seq<Event>,
    n: int,
    k: int,
) -> bool {
    match r {
        Ok(next) => between(next, tents, events, n, k),
        Err(x) => x == SweepError::OutOfOrder || x == SweepError::NotAtBottom,
    }
}

/// While a tent is out of the status, the status has fewer slots than there
/// are tents.
pub proof fn lemma_status_fits(s: Sweep, id: usize)
    requires
        s.well_formed(),
        id < s.mountains.len(),
        s.mountains[id as int].position.is_none(),
    ensures
        s.status.len() < s.mountains.len(),
{
    let ids = Seq::new(s.status.len(), |p: int| s.status[p] as int);
    let all = set_int_range(0, s.mountains.len() as int);
    assert(ids.no_duplicates()) by {
        assert forall|p: int, q: int| 0 <= p < ids.len() && 0 <= q < ids.len() && p != q implies ids[p]
            != ids[q] by {
            assert(s.mountains[s.status[p] as int].position.unwrap() == p);
            assert(s.mountains[s.status[q] as int].position.unwrap() == q);
        }
    }
    ids.unique_seq_to_set();
    lemma_int_range(0, s.mountains.len() as int);
    assert(ids.to_set().subset_of(all)) by {
        assert forall|i: int| ids.to_set().contains(i) implies all.contains(i) by {
            let p = choose|p: int| 0 <= p < ids.len() && ids[p] == i;
            assert(s.status[p] < s.mountains.len());
        }
    }
    assert(!ids.to_set().contains(id as int)) by {
        if ids.to_set().contains(id as int) {
            let p = choose|p: int| 0 <= p < ids.len() && ids[p] == id as int;
            assert(s.mountains[s.status[p] as int].position.is_some());
        }
    }
    assert(all.contains(id as int));
    ids.to_set().lemma_subset_not_in_lt(all, id as int);
}

/// The sweep with a tent that has just entered, before it is tested against
/// its neighbour.
pub open spec fn with_entering(s: Sweep, id: usize, landscapes: Seq<Seq<(i64, i64)>>) -> Sweep {
    Sweep {
        status: s.status.push(id),
        mountains: s.mountains.update(
            id as int,
            PersistenceMountain {
                position: Some(s.status.len() as usize),
                ..s.mountains[id as int]
            },
        ),
        landscapes,
        ..s
    }
}

/// A tent that has just entered leaves the sweep sound.
pub proof fn lemma_entering_sound(
    s: Sweep,
    tents: Seq<PersistenceMountain>,
    events: Seq<Event>,
    n: int,
    landscapes: Seq<Seq<(i64, i64)>>,
)
    requires
        numbered(tents),
        regular(tents, events),
        0 <= n < events.len(),
        events[n].event_type == EventType::Up,
        between(s, tents, events, n, s.landscapes.len() as int),
        lines_sound(landscapes, s.status.len() as int + 1),
    ensures
        sound(with_entering(s, events[n].parent_mountain_id, landscapes)),
{
    let id = events[n].parent_mountain_id;
    lemma_ready(s, tents, events, n);
    lemma_status_fits(s, id);
    let s2 = with_entering(s, id, landscapes);
    assert(s2.well_formed()) by {
        assert forall|i: int| 0 <= i < s2.mountains.len() implies {
            let m = #[trigger] s2.mountains[i];
            &&& is_tent(m)
            &&& m.id == i
            &&& m.position matches Some(p) ==> p < s2.status.len() && s2.status[p as int] == i
        } by {
            assert(is_tent(s.mountains[i]));
        }
        assert forall|p: int| 0 <= p < s2.status.len() implies {
            let i = #[trigger] s2.status[p];
            &&& i < s2.mountains.len()
            &&& s2.mountains[i as int].position matches Some(q) && q == p
        } by {
            if p < s.status.len() {
                assert(s2.status[p] == s.status[p]);
            }
        }
    }
    assert(overlapping(s2)) by {
        assert forall|i: int, j: int|
            0 <= i < s2.mountains.len() && 0 <= j < s2.mountains.len() && (
            #[trigger] s2.mountains[i]).position.is_some() && (
            #[trigger] s2.mountains[j]).position.is_some() implies s2.mountains[i].birth.x
            < s2.mountains[j].death.x by {
            assert(s.mountains[i].birth == tents[i].birth);
            assert(s.mountains[j].death == tents[j].death);
            assert(is_tent(tents[i]));
            if i != id {
                assert(s.mountains[i].position.is_some());
                lemma_overlap(s, tents, events, n, i);
            }
            if j != id {
                assert(s.mountains[j].position.is_some());
                lemma_overlap(s, tents, events, n, j);
            }
        }
    }
}

/// The sweep stays sound when a tent enters.
pub proof fn lemma_entered_sound(
    s: Sweep,
    tents: Seq<PersistenceMountain>,
    events: Seq<Event>,
    n: int,
)
    requires
        numbered(tents),
        regular(tents, events),
        0 <= n < events.len(),
        events[n].event_type == EventType::Up,
        between(s, tents, events, n, s.landscapes.len() as int),
    ensures
        step_sound(entered(s, events[n]), tents, events, n + 1, s.landscapes.len() as int),
        entered(s, events[n]) matches Err(x) ==> x == SweepError::OutOfOrder,
{
    let e = events[n];
    let id = e.parent_mountain_id;
    lemma_ready(s, tents, events, n);
    lemma_status_fits(s, id);
    let position = s.status.len() as usize;
    lemma_logged_floor(s.landscapes, s.status.len() as int + 1, e.value, position, true);
    match logged(s.landscapes, e.value, Some(position), None) {
        Err(_) => {},
        Ok(landscapes) => {
            let s2 = with_entering(s, id, landscapes);
            lemma_entering_sound(s, tents, events, n, landscapes);
            assert(free_slot(s2, -1) && free_slot(s2, -2) && free_slot(s2, position - 1));
            if position == 0 {
                lemma_probed_sound(s2, id, Direction::Above, -2);
            } else {
                lemma_probed_sound(s2, id, Direction::Above, -1);
            }
            let s3 = probed(s2, id, Direction::Above).unwrap();
            lemma_drained_sound(s3);
            match drained(s3) {
                Err(_) => {},
                Ok(next) => {
                    lemma_on_time_advance(s, next, tents, events, n);
                },
            }
        },
    }
}

/// The sweep stays sound when a tent turns.
pub proof fn lemma_turned_sound(
    s: Sweep,
    tents: Seq<PersistenceMountain>,
    events: Seq<Event>,
    n: int,
)
    requires
        numbered(tents),
        regular(tents, events),
        0 <= n < events.len(),
        events[n].event_type == EventType::Down,
        between(s, tents, events, n, s.landscapes.len() as int),
    ensures
        step_sound(turned(s, events[n]), tents, events, n + 1, s.landscapes.len() as int),
        turned(s, events[n]) matches Err(x) ==> x == SweepError::OutOfOrder,
{
    let e = events[n];
    let id = e.parent_mountain_id;
    let m = s.mountains[id as int];
    lemma_ready(s, tents, events, n);
    assert(is_tent(m));
    let mountains = s.mountains.update(id as int, PersistenceMountain { slope_rising: false, ..m });
    let position = m.position.unwrap();
    lemma_logged_one(s.landscapes, s.status.len() as int, e.value, position);
    match logged(s.landscapes, e.value, m.position, None) {
        Err(_) => {},
        Ok(landscapes) => {
            let s2 = Sweep { mountains, landscapes, ..s };
            assert(s2.well_formed()) by {
                assert forall|i: int| 0 <= i < s2.mountains.len() implies {
                    let m = #[trigger] s2.mountains[i];
                    &&& is_tent(m)
                    &&& m.id == i
                    &&& m.position matches Some(p) ==> p < s2.status.len() && s2.status[p as int]
                        == i
                } by {
                    assert(is_tent(s.mountains[i]));
                }
                assert forall|p: int| 0 <= p < s2.status.len() implies {
                    let i = #[trigger] s2.status[p];
                    &&& i < s2.mountains.len()
                    &&& s2.mountains[i as int].position matches Some(q) && q == p
                } by {
                    assert(s.status[p] < s.mountains.len());
                }
            }
            assert(overlapping(s2)) by {
                assert forall|i: int, j: int|
                    0 <= i < s2.mountains.len() && 0 <= j < s2.mountains.len() && (
                    #[trigger] s2.mountains[i]).position.is_some() && (
                    #[trigger] s2.mountains[j]).position.is_some() implies s2.mountains[i].birth.x
                    < s2.mountains[j].death.x by {
                    assert(s.mountains[i].position.is_some());
                    assert(s.mountains[j].position.is_some());
                }
            }
            assert(sound(s2));
            assert(free_slot(s2, -1) && free_slot(s2, position as int));
            lemma_probed_sound(s2, id, Direction::Below, -1);
            let s3 = probed(s2, id, Direction::Below).unwrap();
            lemma_drained_sound(s3);
            match drained(s3) {
                Err(_) => {},
                Ok(next) => {
                    lemma_on_time_advance(s, next, tents, events, n);
                },
            }
        },
    }
}

/// The sweep stays sound when a tent leaves.
pub proof fn lemma_left_sound(
    s: Sweep,
    tents: Seq<PersistenceMountain>,
    events: Seq<Event>,
    n: int,
)
    requires
        numbered(tents),
        regular(tents, events),
        0 <= n < events.len(),
        events[n].event_type == EventType::Death,
        between(s, tents, events, n, s.landscapes.len() as int),
    ensures
        step_sound(left(s, events[n]), tents, events, n + 1, s.landscapes.len() as int),
{
    let e = events[n];
    let id = e.parent_mountain_id;
    let m = s.mountains[id as int];
    lemma_ready(s, tents, events, n);
    assert(is_tent(m));
    let position = m.position.unwrap();
    if position + 1 == s.status.len() {
        lemma_logged_floor(s.landscapes, s.status.len() as int, e.value, position, false);
        match logged(s.landscapes, e.value, m.position, None) {
            Err(_) => {},
            Ok(landscapes) => {
                let next = Sweep {
                    status: s.status.drop_last(),
                    mountains: s.mountains.update(
                        id as int,
                        PersistenceMountain { position: None, ..m },
                    ),
                    landscapes,
                    ..s
                };
                assert(next.well_formed()) by {
                    assert forall|i: int| 0 <= i < next.mountains.len() implies {
                        let m = #[trigger] next.mountains[i];
                        &&& is_tent(m)
                        &&& m.id == i
                        &&& m.position matches Some(p) ==> p < next.status.len()
                            && next.status[p as int] == i
                    } by {
                        assert(is_tent(s.mountains[i]));
                    }
                    assert forall|p: int| 0 <= p < next.status.len() implies {
                        let i = #[trigger] next.status[p];
                        &&& i < next.mountains.len()
                        &&& next.mountains[i as int].position matches Some(q) && q == p
                    } by {
                        assert(next.status[p] == s.status[p]);
                    }
                }
                assert(overlapping(next)) by {
                    assert forall|i: int, j: int|
                        0 <= i < next.mountains.len() && 0 <= j < next.mountains.len() && (
                        #[trigger] next.mountains[i]).position.is_some() && (
                        #[trigger] next.mountains[j]).position.is_some() implies next.mountains[i].birth.x
                        < next.mountains[j].death.x by {
                        assert(s.mountains[i].position.is_some());
                        assert(s.mountains[j].position.is_some());
                    }
                }
                lemma_on_time_advance(s, next, tents, events, n);
            },
        }
    }
}

/// The sweep stays sound over one event of the main schedule.
pub proof fn lemma_handled_sound(
    s: Sweep,
    tents: Seq<PersistenceMountain>,
    events: Seq<Event>,
    n: int,
)
    requires
        numbered(tents),
        regular(tents, events),
        0 <= n < events.len(),
        between(s, tents, events, n, s.landscapes.len() as int),
    ensures
        step_sound(handled(s, events[n]), tents, events, n + 1, s.landscapes.len() as int),
{
    lemma_ready(s, tents, events, n);
    match events[n].event_type {
        EventType::Up => lemma_entered_sound(s, tents, events, n),
        EventType::Down => lemma_turned_sound(s, tents, events, n),
        EventType::Death => lemma_left_sound(s, tents, events, n),
        EventType::Intersection => {},
    }
}

/// The sweep is sound after any number of events of a regular schedule.
pub proof fn lemma_swept_sound(
    tents: Seq<PersistenceMountain>,
    events: Seq<Event>,
    k: usize,
    n: nat,
)
    requires
        numbered(tents),
        regular(tents, events),
        n <= events.len(),
    ensures
        step_sound(swept(tents, events, k, n), tents, events, n as int, k as int),
    decreases n,
{
    if n == 0 {
        let s = start(tents, k);
        assert(s.well_formed());
        assert(lines_sound(s.landscapes, 0));
        assert(on_time(s, tents, events, 0));
    } else {
        lemma_swept_sound(tents, events, k, (n - 1) as nat);
        match swept(tents, events, k, (n - 1) as nat) {
            Err(_) => {},
            Ok(s) => {
                lemma_handled_sound(s, tents, events, n - 1);
            },
        }
    }
}

/// The tents of a set of intervals are numbered.
pub proof fn lemma_mountains_numbered(bd_pairs: Seq<BirthDeath>)
    requires
        bd_pairs.len() <= usize::MAX,
    ensures
        numbered(mountains_of(bd_pairs)),
{
    lemma_proper_pairs(bd_pairs);
    let kept = proper_pairs(bd_pairs);
    let tents = mountains_of(bd_pairs);
    assert forall|i: int| 0 <= i < tents.len() implies {
        let m = #[trigger] tents[i];
        &&& is_tent(m)
        &&& m.id == i
        &&& m.position.is_none()
        &&& m.slope_rising
    } by {
        assert(kept[i].proper());
    }
}

} // verus!
