//! Where the polylines end while the sweep goes on, and why no point ever
//! comes to lie to the left of the end of its polyline.

use crate::order::{
    exchanged_from, in_order, lemma_exchanged_tents, lemma_left_ordered, lemma_relined_ordered,
    lemma_rest_ordered, lemma_turning_ordered, lemma_turning_sound, ordered, stacked, tent_at,
    with_turned,
};
use crate::persistencelandscape::{
    crossed, entered, exchanged, is_tent, left, lemma_crossing, logged, logged_one, probed, turned,
    Direction, Event, EventType, PersistenceMountain, PointOrd, Sweep, SweepError,
};
use crate::soundness::{
    between, falling_id, free_slot, lemma_entering_sound, lemma_exchanged_sound, lemma_logged_floor,
    lemma_logged_one, lemma_probed_sound, lemma_ready, lemma_relined, lemma_rest_sound,
    lemma_status_fits, lines_sound, numbered, pending, regular, rising_id, settled, slot_of, sound,
    well_drawn, with_entering,
};
use vstd::prelude::*;

verus! {

/// The last point of the polyline of the slot `p`.
pub open spec fn front(s: Sweep, p: int) -> (i64, i64) {
    s.landscapes[p].last()
}

/// The last point of the polyline of a slot lies on the edge that the tent
/// of the slot is on: on the rising edge, not beyond the peak, or on the
/// line of the falling edge.
pub open spec fn on_edge(t: PersistenceMountain, f: (i64, i64)) -> bool {
    if t.slope_rising {
        f.1 == f.0 - t.birth.x && 2 * f.0 <= t.birth.x + t.death.x
    } else {
        f.1 == t.death.x - f.0
    }
}

/// Where the polylines end, with the sweep at `x`:
/// every tent of the status was born by `x`;
/// the rising line through the end of a polyline leaves the floor by `x`;
/// the polyline of a slot in use ends on the edge of its tent;
/// that of a rising tent ends no later than the tent would cross the falling
/// edge of any tent above it;
/// that of a falling tent ends no later than the tent would cross the rising
/// edge of any rising tent below it.
pub open spec fn fronted(s: Sweep, x: int) -> bool {
    &&& forall|p: int| 0 <= p < s.status.len() ==> (#[trigger] tent_at(s, p)).birth.x <= x
    &&& forall|p: int|
        0 <= p < s.landscapes.len() && (#[trigger] s.landscapes[p]).len() > 0 ==> front(s, p).0
            - front(s, p).1 <= x
    &&& forall|p: int|
        0 <= p < s.landscapes.len() && p < s.status.len() ==> on_edge(
            #[trigger] tent_at(s, p),
            front(s, p),
        )
    &&& forall|p: int, q: int|
        0 <= p < q < s.status.len() && q < s.landscapes.len() && tent_at(s, q).slope_rising ==> 2
            * front(s, q).0 <= (#[trigger] tent_at(s, q)).birth.x + (#[trigger] tent_at(
            s,
            p,
        )).death.x
    &&& forall|p: int, q: int|
        0 <= p < q < s.status.len() && p < s.landscapes.len() && !tent_at(s, p).slope_rising
            && tent_at(s, q).slope_rising ==> 2 * front(s, p).0 <= (#[trigger] tent_at(
            s,
            q,
        )).birth.x + (#[trigger] tent_at(s, p)).death.x
}

/// The polyline with the point `value` at its end: added, unless it is there.
pub open spec fn grown(line: Seq<(i64, i64)>, value: PointOrd) -> Seq<(i64, i64)> {
    if line.len() > 0 && line.last() == (value.x, value.y) {
        line
    } else {
        line.push((value.x, value.y))
    }
}

/// A point off the floor that is offered to a polyline whose end it repeats
/// or lies to the right of becomes the end of that polyline, and nothing
/// else changes.
pub proof fn lemma_logged_at_front(landscapes: Seq<Seq<(i64, i64)>>, value: PointOrd, position: usize)
    requires
        value.y > 0,
        position < landscapes.len() ==> landscapes[position as int].len() > 0 && (
        landscapes[position as int].last().0 < value.x || landscapes[position as int].last() == (
            value.x,
            value.y,
        )),
    ensures
        logged_one(landscapes, value, Some(position)) matches Ok(after) && {
            &&& after.len() == landscapes.len()
            &&& position < landscapes.len() ==> after[position as int] == grown(
                landscapes[position as int],
                value,
            )
            &&& forall|p: int|
                0 <= p < landscapes.len() && p != position ==> #[trigger] after[p] == landscapes[p]
        },
{
}

/// The polylines after the point of the oldest queued intersection was
/// offered to the slots of its two tents: both now end in that point, where
/// the edges of the two tents cross, and the others are as they were.
pub proof fn lemma_crossing_logged(s: Sweep, x: int)
    requires
        sound(s),
        ordered(s),
        fronted(s, x),
        s.weird_q.len() > 0,
    ensures
        ({
            let e = s.weird_q[0];
            let upper = slot_of(s, e);
            let f = tent_at(s, upper);
            let r = tent_at(s, upper + 1);
            let m1 = s.mountains[e.parent_mountain_id as int];
            let m2 = s.mountains[e.parent_mountain2_id.unwrap() as int];
            &&& 2 * e.value.x == r.birth.x + f.death.x
            &&& e.value.y == e.value.x - r.birth.x
            &&& e.value.y == f.death.x - e.value.x
            &&& 2 * e.value.x <= r.birth.x + r.death.x
            &&& logged(s.landscapes, e.value, m1.position, Some(m2.position)) matches Ok(after) && {
                &&& after.len() == s.landscapes.len()
                &&& lines_sound(after, s.status.len() as int)
                &&& forall|p: int|
                    0 <= p < after.len() && p != upper && p != upper + 1 ==> #[trigger] after[p]
                        == s.landscapes[p]
                &&& upper < after.len() ==> after[upper] == grown(s.landscapes[upper], e.value)
                    && s.landscapes[upper].len() > 0 && (front(s, upper).0 < e.value.x || front(
                    s,
                    upper,
                ) == (e.value.x, e.value.y))
                &&& upper + 1 < after.len() ==> after[upper + 1] == grown(
                    s.landscapes[upper + 1],
                    e.value,
                ) && s.landscapes[upper + 1].len() > 0 && (front(s, upper + 1).0 < e.value.x
                    || front(s, upper + 1) == (e.value.x, e.value.y))
            }
        }),
{
    let e = s.weird_q[0];
    lemma_rest_sound(s);
    lemma_rest_ordered(s);
    let upper = slot_of(s, e);
    let f = tent_at(s, upper);
    let r = tent_at(s, upper + 1);
    let m1 = s.mountains[e.parent_mountain_id as int];
    let m2 = s.mountains[e.parent_mountain2_id.unwrap() as int];
    assert(pending(s, e));
    assert(is_tent(m1) && is_tent(m2));
    lemma_crossing(m1, m2);
    let one = m1.position.unwrap();
    let other = m2.position.unwrap();
    assert(on_edge(tent_at(s, upper), front(s, upper)) || upper >= s.landscapes.len());
    assert(on_edge(tent_at(s, upper + 1), front(s, upper + 1)) || upper + 1
        >= s.landscapes.len());
    assert(upper + 1 < s.landscapes.len() ==> 2 * front(s, upper + 1).0 <= tent_at(
        s,
        upper + 1,
    ).birth.x + tent_at(s, upper).death.x);
    assert(upper < s.landscapes.len() ==> 2 * front(s, upper).0 <= tent_at(s, upper + 1).birth.x
        + tent_at(s, upper).death.x);
    lemma_logged_at_front(s.landscapes, e.value, one);
    let first = logged_one(s.landscapes, e.value, Some(one)).unwrap();
    assert(other < first.len() ==> first[other as int] == s.landscapes[other as int]);
    lemma_logged_at_front(first, e.value, other);
    crate::soundness::lemma_logged_pair(s.landscapes, s.status.len() as int, e.value, one, other);
}

/// In a sweep whose polylines have taken the point of an intersection, the
/// two tents change places: the polylines end as they should.
pub proof fn lemma_exchanged_fronted(s: Sweep, upper: usize, lower: usize, x: int, c: (i64, i64))
    requires
        s.well_formed(),
        stacked(s),
        upper + 1 == lower,
        lower < s.status.len(),
        !tent_at(s, upper as int).slope_rising,
        tent_at(s, lower as int).slope_rising,
        2 * c.0 == tent_at(s, lower as int).birth.x + tent_at(s, upper as int).death.x,
        c.1 == c.0 - tent_at(s, lower as int).birth.x,
        2 * c.0 <= tent_at(s, lower as int).birth.x + tent_at(s, lower as int).death.x,
        upper < s.landscapes.len() ==> front(s, upper as int) == c,
        lower < s.landscapes.len() ==> front(s, lower as int) == c,
        forall|p: int| 0 <= p < s.status.len() ==> (#[trigger] tent_at(s, p)).birth.x <= x,
        forall|p: int|
            0 <= p < s.landscapes.len() && (#[trigger] s.landscapes[p]).len() > 0 && p != upper
                && p != lower ==> front(s, p).0 - front(s, p).1 <= x,
        forall|p: int|
            0 <= p < s.landscapes.len() && p < s.status.len() && p != upper && p != lower
                ==> on_edge(#[trigger] tent_at(s, p), front(s, p)),
        forall|p: int, q: int|
            0 <= p < q < s.status.len() && q < s.landscapes.len() && tent_at(s, q).slope_rising
                && q != lower ==> 2 * front(s, q).0 <= (#[trigger] tent_at(s, q)).birth.x + (
            #[trigger] tent_at(s, p)).death.x,
        forall|p: int, q: int|
            0 <= p < q < s.status.len() && p < s.landscapes.len() && !tent_at(s, p).slope_rising
                && tent_at(s, q).slope_rising && p != upper ==> 2 * front(s, p).0 <= (
            #[trigger] tent_at(s, q)).birth.x + (#[trigger] tent_at(s, p)).death.x,
    ensures
        fronted(exchanged(s, upper, lower), x),
{
    let next = exchanged(s, upper, lower);
    lemma_exchanged_tents(s, upper, lower);
    let f = tent_at(s, upper as int);
    let r = tent_at(s, lower as int);
    assert forall|p: int| 0 <= p < next.status.len() implies (#[trigger] tent_at(next, p)).birth.x
        <= x by {
        assert(tent_at(s, exchanged_from(p, upper as int, lower as int)).birth.x <= x);
    }
    assert forall|p: int|
        0 <= p < next.landscapes.len() && (#[trigger] next.landscapes[p]).len() > 0 implies front(
        next,
        p,
    ).0 - front(next, p).1 <= x by {
        assert(tent_at(s, lower as int).birth.x <= x);
    }
    assert forall|p: int| 0 <= p < next.landscapes.len() && p < next.status.len() implies on_edge(
        #[trigger] tent_at(next, p),
        front(next, p),
    ) by {
        if p != upper && p != lower {
            assert(on_edge(tent_at(s, p), front(s, p)));
        }
    }
    assert forall|p: int, q: int|
        0 <= p < q < next.status.len() && q < next.landscapes.len() && tent_at(
            next,
            q,
        ).slope_rising implies 2 * front(next, q).0 <= (#[trigger] tent_at(next, q)).birth.x + (
    #[trigger] tent_at(next, p)).death.x by {
        let op = exchanged_from(p, upper as int, lower as int);
        if q == upper {
            assert(in_order(tent_at(s, p), tent_at(s, upper as int)));
        } else {
            assert(q != lower);
            assert(2 * front(s, q).0 <= tent_at(s, q).birth.x + tent_at(s, op).death.x);
        }
    }
    assert forall|p: int, q: int|
        0 <= p < q < next.status.len() && p < next.landscapes.len() && !tent_at(
            next,
            p,
        ).slope_rising && tent_at(next, q).slope_rising implies 2 * front(next, p).0 <= (
    #[trigger] tent_at(next, q)).birth.x + (#[trigger] tent_at(next, p)).death.x by {
        let oq = exchanged_from(q, upper as int, lower as int);
        if p == lower {
            assert(in_order(tent_at(s, lower as int), tent_at(s, q)));
        } else {
            assert(p != upper);
            assert(2 * front(s, p).0 <= tent_at(s, oq).birth.x + tent_at(s, p).death.x);
        }
    }
}

/// The oldest queued intersection is carried out without fail, and the
/// polylines end as they should.
pub proof fn lemma_crossed_fronted(s: Sweep, x: int)
    requires
        sound(s),
        ordered(s),
        fronted(s, x),
        s.weird_q.len() > 0,
    ensures
        crossed(Sweep { weird_q: s.weird_q.skip(1), ..s }, s.weird_q[0]) matches Ok(next)
            && fronted(next, x),
{
    let e = s.weird_q[0];
    let rest = Sweep { weird_q: s.weird_q.skip(1), ..s };
    lemma_rest_sound(s);
    lemma_rest_ordered(s);
    lemma_crossing_logged(s, x);
    let upper_id = falling_id(s, e);
    let lower_id = rising_id(s, e);
    let upper = s.mountains[upper_id as int].position.unwrap();
    let lower = s.mountains[lower_id as int].position.unwrap();
    let m1 = s.mountains[e.parent_mountain_id as int];
    let m2 = s.mountains[e.parent_mountain2_id.unwrap() as int];
    let landscapes = logged(s.landscapes, e.value, m1.position, Some(m2.position)).unwrap();
    let s1 = Sweep { landscapes, ..rest };
    lemma_relined(rest, landscapes, upper - 1);
    lemma_relined(rest, landscapes, upper as int);
    lemma_relined(rest, landscapes, lower as int);
    lemma_relined_ordered(rest, landscapes, upper as int, -1);
    let c = (e.value.x, e.value.y);
    assert forall|p: int| 0 <= p < s.status.len() implies #[trigger] tent_at(s1, p) == tent_at(
        s,
        p,
    ) by {}
    assert forall|p: int|
        0 <= p < s1.landscapes.len() && p != upper && p != lower implies #[trigger] s1.landscapes[p]
        == s.landscapes[p] by {}
    assert forall|p: int|
        0 <= p < s1.landscapes.len() && (#[trigger] s1.landscapes[p]).len() > 0 && p != upper && p
            != lower implies front(s1, p).0 - front(s1, p).1 <= x by {
        assert(s.landscapes[p].len() > 0);
    }
    assert forall|p: int|
        0 <= p < s1.landscapes.len() && p < s1.status.len() && p != upper && p != lower implies on_edge(
        #[trigger] tent_at(s1, p),
        front(s1, p),
    ) by {
        assert(on_edge(tent_at(s, p), front(s, p)));
    }
    assert forall|p: int, q: int|
        0 <= p < q < s1.status.len() && q < s1.landscapes.len() && tent_at(s1, q).slope_rising && q
            != lower implies 2 * front(s1, q).0 <= (#[trigger] tent_at(s1, q)).birth.x + (
    #[trigger] tent_at(s1, p)).death.x by {
        assert(q != upper);
        assert(2 * front(s, q).0 <= tent_at(s, q).birth.x + tent_at(s, p).death.x);
    }
    assert forall|p: int, q: int|
        0 <= p < q < s1.status.len() && p < s1.landscapes.len() && !tent_at(s1, p).slope_rising
            && tent_at(s1, q).slope_rising && p != upper implies 2 * front(s1, p).0 <= (
    #[trigger] tent_at(s1, q)).birth.x + (#[trigger] tent_at(s1, p)).death.x by {
        assert(p != lower);
        assert(2 * front(s, p).0 <= tent_at(s, q).birth.x + tent_at(s, p).death.x);
    }
    lemma_exchanged_fronted(s1, upper, lower, x, c);
    lemma_exchanged_sound(s1, upper, lower);
    let s2 = exchanged(s1, upper, lower);
    assert(free_slot(s2, upper - 1) && free_slot(s2, lower as int)) by {
        assert forall|j: int| 0 <= j < s2.weird_q.len() implies slot_of(
            s2,
            #[trigger] s2.weird_q[j],
        ) != upper - 1 && slot_of(s2, s2.weird_q[j]) != lower by {
            assert(slot_of(s2, s1.weird_q[j]) == slot_of(s1, s1.weird_q[j]));
        }
    }
    lemma_probed_sound(s2, lower_id, Direction::Above, lower as int);
    let s3 = probed(s2, lower_id, Direction::Above).unwrap();
    assert(free_slot(s3, -1));
    lemma_probed_sound(s3, upper_id, Direction::Below, -1);
    let s4 = probed(s3, upper_id, Direction::Below).unwrap();
    lemma_requeued_fronted(s2, s3, x);
    lemma_requeued_fronted(s3, s4, x);
    assert(crossed(rest, e) == Ok::<Sweep, SweepError>(s4));
}

/// What the queue holds does not bear on where the polylines end.
pub proof fn lemma_requeued_fronted(s: Sweep, next: Sweep, x: int)
    requires
        fronted(s, x),
        next.status == s.status,
        next.mountains == s.mountains,
        next.landscapes == s.landscapes,
    ensures
        fronted(next, x),
{
    assert forall|p: int| 0 <= p < next.status.len() implies #[trigger] tent_at(next, p) == tent_at(
        s,
        p,
    ) by {}
    assert forall|p: int| 0 <= p < next.status.len() implies (#[trigger] tent_at(next, p)).birth.x
        <= x by {
        assert(tent_at(s, p).birth.x <= x);
    }
    assert forall|p: int|
        0 <= p < next.landscapes.len() && p < next.status.len() implies on_edge(
        #[trigger] tent_at(next, p),
        front(next, p),
    ) by {
        assert(on_edge(tent_at(s, p), front(s, p)));
    }
    assert forall|p: int, q: int|
        0 <= p < q < next.status.len() && q < next.landscapes.len() && tent_at(
            next,
            q,
        ).slope_rising implies 2 * front(next, q).0 <= (#[trigger] tent_at(next, q)).birth.x + (
    #[trigger] tent_at(next, p)).death.x by {
        assert(2 * front(s, q).0 <= tent_at(s, q).birth.x + tent_at(s, p).death.x);
    }
    assert forall|p: int, q: int|
        0 <= p < q < next.status.len() && p < next.landscapes.len() && !tent_at(
            next,
            p,
        ).slope_rising && tent_at(next, q).slope_rising implies 2 * front(next, p).0 <= (
    #[trigger] tent_at(next, q)).birth.x + (#[trigger] tent_at(next, p)).death.x by {
        assert(2 * front(s, p).0 <= tent_at(s, q).birth.x + tent_at(s, p).death.x);
    }
}

/// A point on the floor that is offered to the bottom slot in use, whose
/// polyline is empty or ends in it or to the left of it, becomes the end of
/// that polyline, and nothing else changes.
pub proof fn lemma_logged_floor_at_front(
    landscapes: Seq<Seq<(i64, i64)>>,
    in_use: int,
    value: PointOrd,
    position: usize,
    entering: bool,
)
    requires
        lines_sound(landscapes, if entering {
            in_use - 1
        } else {
            in_use
        }),
        position == in_use - 1,
        value.y == 0,
        position < landscapes.len() ==> landscapes[position as int].len() == 0
            || landscapes[position as int].last().0 < value.x || landscapes[position as int].last()
            == (value.x, value.y),
    ensures
        logged_one(landscapes, value, Some(position)) matches Ok(after) && {
            &&& after.len() == landscapes.len()
            &&& lines_sound(after, if entering {
                in_use
            } else {
                in_use - 1
            })
            &&& position < landscapes.len() ==> after[position as int] == grown(
                landscapes[position as int],
                value,
            )
            &&& forall|p: int|
                0 <= p < landscapes.len() && p != position ==> #[trigger] after[p] == landscapes[p]
        },
{
    lemma_logged_floor(landscapes, in_use, value, position, entering);
    if position < landscapes.len() {
        let line = landscapes[position as int];
        if !entering {
            assert(line.len() > 0);
        }
    }
}

/// With the sweep further right the polylines still end as they should.
pub proof fn lemma_fronted_later(s: Sweep, x: int, y: int)
    requires
        fronted(s, x),
        x <= y,
    ensures
        fronted(s, y),
{
    assert forall|p: int| 0 <= p < s.status.len() implies (#[trigger] tent_at(s, p)).birth.x
        <= y by {}
    assert forall|p: int|
        0 <= p < s.landscapes.len() && (#[trigger] s.landscapes[p]).len() > 0 implies front(s, p).0
        - front(s, p).1 <= y by {}
}

/// A tent that has just entered leaves the polylines ending as they should.
pub proof fn lemma_entering_fronted(
    s: Sweep,
    tents: Seq<PersistenceMountain>,
    events: Seq<Event>,
    n: int,
    before: int,
)
    requires
        numbered(tents),
        regular(tents, events),
        0 <= n < events.len(),
        events[n].event_type == EventType::Up,
        between(s, tents, events, n, s.landscapes.len() as int),
        ordered(s),
        fronted(s, before),
        before <= events[n].value.x,
    ensures
        logged_one(s.landscapes, events[n].value, Some(s.status.len() as usize)) matches Ok(
            landscapes,
        ) && fronted(
            with_entering(s, events[n].parent_mountain_id, landscapes),
            events[n].value.x as int,
        ),
{
    let e = events[n];
    let id = e.parent_mountain_id;
    let x = e.value.x as int;
    lemma_ready(s, tents, events, n);
    lemma_status_fits(s, id);
    let position = s.status.len() as usize;
    let m = s.mountains[id as int];
    assert(is_tent(m) && m.id == id);
    assert(e.value == m.birth);
    if position < s.landscapes.len() {
        let line = s.landscapes[position as int];
        assert(settled(line));
        if line.len() > 0 {
            assert(front(s, position as int).0 - front(s, position as int).1 <= before);
        }
    }
    lemma_logged_floor_at_front(s.landscapes, s.status.len() as int + 1, e.value, position, true);
    let landscapes = logged_one(s.landscapes, e.value, Some(position)).unwrap();
    let s2 = with_entering(s, id, landscapes);
    lemma_entering_sound(s, tents, events, n, landscapes);
    lemma_fronted_later(s, before, x);
    let bottom = s.status.len() as int;
    assert forall|p: int| 0 <= p < bottom implies #[trigger] tent_at(s2, p) == tent_at(s, p) by {
        assert(s.status[p] < s.mountains.len());
        assert(s.mountains[s.status[p] as int].position.unwrap() == p);
    }
    assert(tent_at(s2, bottom) == PersistenceMountain { position: Some(position), ..m });
    assert forall|p: int| 0 <= p < s2.status.len() implies (#[trigger] tent_at(s2, p)).birth.x
        <= x by {
        if p < bottom {
            assert(tent_at(s, p).birth.x <= x);
        }
    }
    assert forall|p: int|
        0 <= p < s2.landscapes.len() && (#[trigger] s2.landscapes[p]).len() > 0 implies front(
        s2,
        p,
    ).0 - front(s2, p).1 <= x by {
        if p != bottom {
            assert(s2.landscapes[p] == s.landscapes[p]);
        }
    }
    assert forall|p: int| 0 <= p < s2.landscapes.len() && p < s2.status.len() implies on_edge(
        #[trigger] tent_at(s2, p),
        front(s2, p),
    ) by {
        if p != bottom {
            assert(s2.landscapes[p] == s.landscapes[p]);
            assert(on_edge(tent_at(s, p), front(s, p)));
        }
    }
    assert forall|p: int, q: int|
        0 <= p < q < s2.status.len() && q < s2.landscapes.len() && tent_at(
            s2,
            q,
        ).slope_rising implies 2 * front(s2, q).0 <= (#[trigger] tent_at(s2, q)).birth.x + (
    #[trigger] tent_at(s2, p)).death.x by {
        if q == bottom {
            let i = s.status[p] as int;
            assert(s2.mountains[i].position.is_some());
            assert(s2.mountains[id as int].position.is_some());
            assert(s2.mountains[id as int].birth.x < s2.mountains[i].death.x);
        } else {
            assert(s2.landscapes[q] == s.landscapes[q]);
            assert(2 * front(s, q).0 <= tent_at(s, q).birth.x + tent_at(s, p).death.x);
        }
    }
    assert forall|p: int, q: int|
        0 <= p < q < s2.status.len() && p < s2.landscapes.len() && !tent_at(
            s2,
            p,
        ).slope_rising && tent_at(s2, q).slope_rising implies 2 * front(s2, p).0 <= (
    #[trigger] tent_at(s2, q)).birth.x + (#[trigger] tent_at(s2, p)).death.x by {
        assert(s2.landscapes[p] == s.landscapes[p]);
        if q == bottom {
            assert(on_edge(tent_at(s, p), front(s, p)));
            assert(s.landscapes[p].len() > 0);
            assert(front(s, p).0 - front(s, p).1 <= before);
        } else {
            assert(2 * front(s, p).0 <= tent_at(s, q).birth.x + tent_at(s, p).death.x);
        }
    }
}

/// A tent that has just turned leaves the polylines ending as they should.
pub proof fn lemma_turning_fronted(
    s: Sweep,
    tents: Seq<PersistenceMountain>,
    events: Seq<Event>,
    n: int,
    before: int,
)
    requires
        numbered(tents),
        regular(tents, events),
        0 <= n < events.len(),
        events[n].event_type == EventType::Down,
        between(s, tents, events, n, s.landscapes.len() as int),
        ordered(s),
        fronted(s, before),
        before <= events[n].value.x,
    ensures
        logged_one(
            s.landscapes,
            events[n].value,
            s.mountains[events[n].parent_mountain_id as int].position,
        ) matches Ok(landscapes) && fronted(
            with_turned(s, events[n].parent_mountain_id, landscapes),
            events[n].value.x as int,
        ),
{
    let e = events[n];
    let id = e.parent_mountain_id;
    let x = e.value.x as int;
    lemma_ready(s, tents, events, n);
    let m = s.mountains[id as int];
    assert(is_tent(m) && m.id == id);
    assert(e.value == m.middle);
    let position = m.position.unwrap();
    let at = position as int;
    assert(s.status[at] == id);
    assert(tent_at(s, at) == m);
    if position < s.landscapes.len() {
        assert(on_edge(tent_at(s, at), front(s, at)));
        assert(s.landscapes[at].len() > 0);
    }
    lemma_logged_at_front(s.landscapes, e.value, position);
    lemma_logged_one(s.landscapes, s.status.len() as int, e.value, position);
    let landscapes = logged_one(s.landscapes, e.value, Some(position)).unwrap();
    let s2 = with_turned(s, id, landscapes);
    lemma_turning_sound(s, tents, events, n, landscapes);
    lemma_turning_ordered(s, tents, events, n, landscapes);
    lemma_fronted_later(s, before, x);
    assert(fronted(s2, x)) by {
        assert forall|p: int| 0 <= p < s.status.len() && p != at implies #[trigger] tent_at(s2, p)
            == tent_at(s, p) by {
            assert(s.status[p] < s.mountains.len());
            assert(s.mountains[s.status[p] as int].position.unwrap() == p);
        }
        assert(tent_at(s2, at) == PersistenceMountain { slope_rising: false, ..m });
        assert forall|p: int| 0 <= p < s2.status.len() implies (#[trigger] tent_at(s2, p)).birth.x
            <= x by {
            assert(tent_at(s, p).birth.x <= x);
        }
        assert forall|p: int|
            0 <= p < s2.landscapes.len() && (#[trigger] s2.landscapes[p]).len() > 0 implies front(
            s2,
            p,
        ).0 - front(s2, p).1 <= x by {
            if p != at {
                assert(s2.landscapes[p] == s.landscapes[p]);
            }
        }
        assert forall|p: int| 0 <= p < s2.landscapes.len() && p < s2.status.len() implies on_edge(
            #[trigger] tent_at(s2, p),
            front(s2, p),
        ) by {
            if p != at {
                assert(s2.landscapes[p] == s.landscapes[p]);
                assert(on_edge(tent_at(s, p), front(s, p)));
            }
        }
        assert forall|p: int, q: int|
            0 <= p < q < s2.status.len() && q < s2.landscapes.len() && tent_at(
                s2,
                q,
            ).slope_rising implies 2 * front(s2, q).0 <= (#[trigger] tent_at(s2, q)).birth.x + (
        #[trigger] tent_at(s2, p)).death.x by {
            assert(s2.landscapes[q] == s.landscapes[q]);
            assert(2 * front(s, q).0 <= tent_at(s, q).birth.x + tent_at(s, p).death.x);
        }
        assert forall|p: int, q: int|
            0 <= p < q < s2.status.len() && p < s2.landscapes.len() && !tent_at(
                s2,
                p,
            ).slope_rising && tent_at(s2, q).slope_rising implies 2 * front(s2, p).0 <= (
        #[trigger] tent_at(s2, q)).birth.x + (#[trigger] tent_at(s2, p)).death.x by {
            if p == at {
                assert(in_order(tent_at(s, p), tent_at(s, q)));
            } else {
                assert(s2.landscapes[p] == s.landscapes[p]);
                assert(2 * front(s, p).0 <= tent_at(s, q).birth.x + tent_at(s, p).death.x);
            }
        }
    }
}

/// A tent leaves without fail, and the polylines end as they should.
pub proof fn lemma_left_fronted(
    s: Sweep,
    tents: Seq<PersistenceMountain>,
    events: Seq<Event>,
    n: int,
    before: int,
)
    requires
        numbered(tents),
        regular(tents, events),
        0 <= n < events.len(),
        events[n].event_type == EventType::Death,
        between(s, tents, events, n, s.landscapes.len() as int),
        ordered(s),
        fronted(s, before),
        before <= events[n].value.x,
    ensures
        left(s, events[n]) matches Ok(next) && fronted(next, events[n].value.x as int),
{
    let e = events[n];
    let id = e.parent_mountain_id;
    let x = e.value.x as int;
    lemma_ready(s, tents, events, n);
    lemma_left_ordered(s, tents, events, n);
    let m = s.mountains[id as int];
    assert(is_tent(m) && m.id == id);
    assert(e.value == m.death);
    let position = m.position.unwrap();
    let at = position as int;
    assert(s.status[at] == id);
    assert(tent_at(s, at) == m);
    assert(at + 1 == s.status.len());
    if position < s.landscapes.len() {
        assert(on_edge(tent_at(s, at), front(s, at)));
        assert(s.landscapes[at].len() > 0);
        assert(well_drawn(s.landscapes[at]));
        assert(s.landscapes[at][s.landscapes[at].len() - 1].1 >= 0);
    }
    lemma_logged_floor_at_front(s.landscapes, s.status.len() as int, e.value, position, false);
    lemma_fronted_later(s, before, x);
    let next = left(s, e).unwrap();
    assert forall|p: int| 0 <= p < next.status.len() implies #[trigger] tent_at(next, p) == tent_at(
        s,
        p,
    ) by {
        assert(s.status[p] < s.mountains.len());
        assert(s.mountains[s.status[p] as int].position.unwrap() == p);
    }
    assert forall|p: int| 0 <= p < next.status.len() implies (#[trigger] tent_at(next, p)).birth.x
        <= x by {
        assert(tent_at(s, p).birth.x <= x);
    }
    assert forall|p: int|
        0 <= p < next.landscapes.len() && (#[trigger] next.landscapes[p]).len() > 0 implies front(
        next,
        p,
    ).0 - front(next, p).1 <= x by {
        if p != at {
            assert(next.landscapes[p] == s.landscapes[p]);
        }
    }
    assert forall|p: int| 0 <= p < next.landscapes.len() && p < next.status.len() implies on_edge(
        #[trigger] tent_at(next, p),
        front(next, p),
    ) by {
        assert(next.landscapes[p] == s.landscapes[p]);
        assert(on_edge(tent_at(s, p), front(s, p)));
    }
    assert forall|p: int, q: int|
        0 <= p < q < next.status.len() && q < next.landscapes.len() && tent_at(
            next,
            q,
        ).slope_rising implies 2 * front(next, q).0 <= (#[trigger] tent_at(next, q)).birth.x + (
    #[trigger] tent_at(next, p)).death.x by {
        assert(next.landscapes[q] == s.landscapes[q]);
        assert(2 * front(s, q).0 <= tent_at(s, q).birth.x + tent_at(s, p).death.x);
    }
    assert forall|p: int, q: int|
        0 <= p < q < next.status.len() && p < next.landscapes.len() && !tent_at(
            next,
            p,
        ).slope_rising && tent_at(next, q).slope_rising implies 2 * front(next, p).0 <= (
    #[trigger] tent_at(next, q)).birth.x + (#[trigger] tent_at(next, p)).death.x by {
        assert(next.landscapes[p] == s.landscapes[p]);
        assert(2 * front(s, p).0 <= tent_at(s, q).birth.x + tent_at(s, p).death.x);
    }
}

/// Where the sweep stands after `n` events: at the last of them.
pub open spec fn sweep_x(events: Seq<Event>, n: int) -> int {
    if n > 0 {
        events[n - 1].value.x as int
    } else if events.len() > 0 {
        events[0].value.x as int
    } else {
        0
    }
}

} // verus!
