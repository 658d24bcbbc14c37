//! The sweep, event by event: all that holds of it holds to the end, and so
//! every polyline that it returns is its landscape.

use crate::birthdeath::BirthDeath;
use crate::frontier::{
    front, fronted, lemma_fronted_later, lemma_left_fronted, lemma_logged_at_front,
    lemma_logged_floor_at_front, on_edge, sweep_x,
};
use crate::levels::{
    above, fine, height_over, higher_over, lemma_fine, lemma_on_grid, level, level_over, stepwise,
    traced_over, value_at, value_over,
};
use crate::order::{
    in_order, lemma_entering_ordered, lemma_left_ordered, lemma_probed_ordered, lemma_rank_of,
    lemma_turning_ordered, lemma_turning_sound, tent_at, with_turned,
};
use crate::persistencelandscape::{
    entered, generate_spec, handled, initial_events, is_tent, left, logged_one, mountains_of,
    probed, start, swept, turned, Direction, Event, EventType, PersistenceMountain, Sweep,
    SweepError,
};
use crate::schedule::{rank_lt, sorted, Ranked};
use crate::soundness::{
    between, free_slot, lemma_entering_sound, lemma_logged_one, lemma_mountains_numbered,
    lemma_places, lemma_probed_sound, lemma_ready, lemma_status_fits, lemma_swept_sound,
    lemma_timetable_regular, numbered, regular, settled, well_drawn, with_entering,
};
use crate::tracing::{
    drawn, faithful, guarded, horizon, lemma_drained_faithful, lemma_extend, lemma_extend_floor,
    lemma_floor, lemma_requeued_guarded, lemma_segment_falling, lemma_segment_rising,
    lemma_value_beyond, shaped, timely,
};
use vstd::prelude::*;

verus! {

/// With the next event of a regular schedule the tents are timely: those of
/// the status were born and are not yet to die, those that left have died,
/// and those that are to enter are not born earlier.
pub proof fn lemma_timely(s: Sweep, tents: Seq<PersistenceMountain>, events: Seq<Event>, n: int)
    requires
        numbered(tents),
        regular(tents, events),
        0 <= n < events.len(),
        between(s, tents, events, n, s.landscapes.len() as int),
    ensures
        timely(s, events[n].value.x as int),
        shaped(s, tents),
{
    let x = events[n].value.x as int;
    assert forall|m: int| 0 <= m < s.mountains.len() implies {
        let t = #[trigger] s.mountains[m];
        &&& t.position.is_some() ==> t.birth.x <= x <= t.death.x
        &&& t.position.is_none() && !t.slope_rising ==> t.death.x <= x
        &&& t.position.is_none() && t.slope_rising ==> x <= t.birth.x
        &&& t.birth.x == tents[m].birth.x
        &&& t.death.x == tents[m].death.x
    } by {
        lemma_places(events, tents, m);
        lemma_rank_of(events, tents, n, m, EventType::Up);
        lemma_rank_of(events, tents, n, m, EventType::Death);
        let t = s.mountains[m];
        assert(t.birth == tents[m].birth);
        assert(is_tent(tents[m]));
    }
}

/// When the sweep moves on to the next event, all that holds of it holds
/// there: in between, none but tents of the status have a height.
pub proof fn lemma_later(
    s: Sweep,
    tents: Seq<PersistenceMountain>,
    events: Seq<Event>,
    c: int,
    n: int,
    before: int,
)
    requires
        numbered(tents),
        regular(tents, events),
        0 <= n < events.len(),
        between(s, tents, events, n, s.landscapes.len() as int),
        faithful(s, tents, c, before),
        before <= events[n].value.x,
    ensures
        faithful(s, tents, c, events[n].value.x as int),
{
    let x = events[n].value.x as int;
    lemma_timely(s, tents, events, n);
    lemma_fronted_later(s, before, x);
    assert forall|p: int| 0 <= p < s.landscapes.len() implies stepwise(#[trigger] s.landscapes[p])
        && traced_over(s.landscapes[p], tents, p, c, horizon(s, p, x)) by {
        let line = s.landscapes[p];
        assert(stepwise(line) && traced_over(line, tents, p, c, horizon(s, p, before)));
        if p >= s.status.len() {
            assert(well_drawn(line) && settled(line));
            if line.len() > 0 {
                assert(front(s, p).0 - front(s, p).1 <= before);
            }
            assert forall|u: int| fine(c, before) < u <= fine(c, x) implies #[trigger] level_over(
                tents,
                p,
                c,
                u,
                0,
            ) by {
                assert forall|m: int|
                    0 <= m < tents.len() && height_over(
                        #[trigger] tents[m],
                        c,
                        u,
                    ) > 0 implies s.mountains[m].position.is_some() by {
                    let o = s.mountains[m];
                    assert(o.birth.x == tents[m].birth.x);
                    lemma_fine(c, x, o.birth.x as int);
                    lemma_fine(c, o.death.x as int, before);
                }
                lemma_floor(s, tents, p, c, u);
            }
            lemma_extend_floor(line, tents, p, c, before, x, (x as i64, 0i64));
        }
    }
}

/// A tent that has just entered leaves all that holds of the sweep as it holds.
pub proof fn lemma_entering_faithful(
    s: Sweep,
    tents: Seq<PersistenceMountain>,
    events: Seq<Event>,
    c: int,
    n: int,
)
    requires
        numbered(tents),
        regular(tents, events),
        0 <= n < events.len(),
        events[n].event_type == EventType::Up,
        between(s, tents, events, n, s.landscapes.len() as int),
        faithful(s, tents, c, events[n].value.x as int),
    ensures
        logged_one(s.landscapes, events[n].value, Some(s.status.len() as usize)) matches Ok(
            landscapes,
        ) && {
            let s2 = with_entering(s, events[n].parent_mountain_id, landscapes);
            &&& shaped(s2, tents)
            &&& timely(s2, events[n].value.x as int)
            &&& guarded(s2)
            &&& drawn(s2, tents, c, events[n].value.x as int)
        },
{
    let e = events[n];
    let id = e.parent_mountain_id;
    let x = e.value.x as int;
    lemma_ready(s, tents, events, n);
    lemma_status_fits(s, id);
    let position = s.status.len() as usize;
    let bottom = s.status.len() as int;
    let m = s.mountains[id as int];
    assert(is_tent(m) && m.id == id);
    assert(e.value == m.birth);
    if position < s.landscapes.len() {
        let line = s.landscapes[bottom];
        assert(settled(line));
        if line.len() > 0 {
            assert(front(s, bottom).0 - front(s, bottom).1 <= x);
        }
    }
    lemma_logged_floor_at_front(s.landscapes, bottom + 1, e.value, position, true);
    let landscapes = logged_one(s.landscapes, e.value, Some(position)).unwrap();
    let s2 = with_entering(s, id, landscapes);
    lemma_entering_sound(s, tents, events, n, landscapes);
    assert forall|p: int| 0 <= p < bottom implies #[trigger] tent_at(s2, p) == tent_at(s, p) by {
        assert(s.status[p] < s.mountains.len());
        assert(s.mountains[s.status[p] as int].position.unwrap() == p);
    }
    assert(tent_at(s2, bottom) == PersistenceMountain { position: Some(position), ..m });
    assert forall|p: int, o: int|
        0 <= p <= bottom && 0 <= o < s.mountains.len() implies #[trigger] above(s2, p).contains(o)
        == above(s, p).contains(o) by {}
    assert forall|o: int| 0 <= o < s2.mountains.len() implies {
        let t = #[trigger] s2.mountains[o];
        &&& t.position.is_some() ==> t.birth.x <= x <= t.death.x
        &&& t.position.is_none() && !t.slope_rising ==> t.death.x <= x
        &&& t.position.is_none() && t.slope_rising ==> x <= t.birth.x
        &&& t.birth.x == tents[o].birth.x
        &&& t.death.x == tents[o].death.x
    } by {
        let t = s.mountains[o];
        assert(t.birth.x == tents[o].birth.x);
    }
    assert(guarded(s2)) by {
        assert forall|p: int, o: int|
            0 <= p < s2.status.len() && p < s2.landscapes.len() && tent_at(s2, p).slope_rising && 0
                <= o < s2.mountains.len() implies #[trigger] above(s2, p).contains(o)
            || s2.mountains[o].birth.x >= tent_at(s2, p).birth.x || 2 * front(s2, p).0 >= tent_at(
            s2,
            p,
        ).birth.x + s2.mountains[o].death.x by {
            let t = s.mountains[o];
            assert(s2.mountains[o].birth.x == t.birth.x && s2.mountains[o].death.x == t.death.x);
            if p == bottom {
                if t.position.is_some() {
                    assert(t.position.unwrap() < bottom);
                }
            } else {
                assert(s2.landscapes[p] == s.landscapes[p]);
                assert(above(s, p).contains(o) || s.mountains[o].birth.x >= tent_at(s, p).birth.x
                    || 2 * front(s, p).0 >= tent_at(s, p).birth.x + s.mountains[o].death.x);
            }
        }
        assert forall|p: int, o: int|
            0 <= p < s2.status.len() && p < s2.landscapes.len() && !tent_at(s2, p).slope_rising
                && #[trigger] above(s2, p).contains(o) implies 2 * front(s2, p).0
            >= s2.mountains[o].birth.x + tent_at(s2, p).death.x by {
            assert(s2.landscapes[p] == s.landscapes[p]);
            assert(above(s, p).contains(o));
        }
        assert forall|p: int|
            0 <= p < s2.status.len() && p < s2.landscapes.len() && !(#[trigger] tent_at(
                s2,
                p,
            )).slope_rising implies 2 * front(s2, p).0 >= tent_at(s2, p).birth.x + tent_at(
            s2,
            p,
        ).death.x by {
            assert(s2.landscapes[p] == s.landscapes[p]);
            assert(!tent_at(s, p).slope_rising);
        }
    }
    assert forall|p: int| 0 <= p < s2.landscapes.len() implies stepwise(#[trigger] s2.landscapes[p])
        && traced_over(s2.landscapes[p], tents, p, c, horizon(s2, p, x)) by {
        let line = s.landscapes[p];
        assert(stepwise(line) && traced_over(line, tents, p, c, horizon(s, p, x)));
        if p == bottom {
            assert(well_drawn(line) && settled(line));
            lemma_extend_floor(line, tents, p, c, x, x, (e.value.x, e.value.y));
        } else {
            assert(s2.landscapes[p] == line);
        }
    }
}

/// A tent enters without fail, and all that holds of the sweep holds after it.
pub proof fn lemma_entered_faithful(
    s: Sweep,
    tents: Seq<PersistenceMountain>,
    events: Seq<Event>,
    c: int,
    n: int,
)
    requires
        numbered(tents),
        regular(tents, events),
        0 <= n < events.len(),
        events[n].event_type == EventType::Up,
        between(s, tents, events, n, s.landscapes.len() as int),
        faithful(s, tents, c, events[n].value.x as int),
    ensures
        entered(s, events[n]) matches Ok(next) && faithful(next, tents, c, events[n].value.x as int),
{
    let e = events[n];
    let id = e.parent_mountain_id;
    let x = e.value.x as int;
    lemma_ready(s, tents, events, n);
    lemma_status_fits(s, id);
    let position = s.status.len() as usize;
    lemma_entering_faithful(s, tents, events, c, n);
    let landscapes = logged_one(s.landscapes, e.value, Some(position)).unwrap();
    let s2 = with_entering(s, id, landscapes);
    lemma_entering_sound(s, tents, events, n, landscapes);
    lemma_entering_ordered(s, tents, events, n, landscapes);
    crate::frontier::lemma_entering_fronted(s, tents, events, n, x);
    assert(free_slot(s2, -1) && free_slot(s2, -2) && free_slot(s2, position - 1));
    if position == 0 {
        lemma_probed_sound(s2, id, Direction::Above, -2);
    } else {
        lemma_probed_sound(s2, id, Direction::Above, -1);
    }
    lemma_probed_ordered(s2, id, Direction::Above, -1);
    let s3 = probed(s2, id, Direction::Above).unwrap();
    lemma_requeued(s2, s3, tents, c, x);
    lemma_drained_faithful(s3, tents, c, x);
}

/// What the queue holds does not bear on what is said of tents and polylines.
pub proof fn lemma_requeued(s: Sweep, next: Sweep, tents: Seq<PersistenceMountain>, c: int, x: int)
    requires
        next.status == s.status,
        next.mountains == s.mountains,
        next.landscapes == s.landscapes,
        fronted(s, x),
        shaped(s, tents),
        timely(s, x),
        guarded(s),
        drawn(s, tents, c, x),
    ensures
        fronted(next, x),
        shaped(next, tents),
        timely(next, x),
        guarded(next),
        drawn(next, tents, c, x),
{
    crate::frontier::lemma_requeued_fronted(s, next, x);
    lemma_requeued_guarded(s, next);
    assert forall|p: int| 0 <= p < next.landscapes.len() implies stepwise(
        #[trigger] next.landscapes[p],
    ) && traced_over(next.landscapes[p], tents, p, c, horizon(next, p, x)) by {
        assert(stepwise(s.landscapes[p]) && traced_over(s.landscapes[p], tents, p, c, horizon(s, p, x)));
    }
}

/// A tent that has just turned leaves all that holds of the sweep as it holds.
pub proof fn lemma_turning_faithful(
    s: Sweep,
    tents: Seq<PersistenceMountain>,
    events: Seq<Event>,
    c: int,
    n: int,
)
    requires
        numbered(tents),
        regular(tents, events),
        0 <= n < events.len(),
        events[n].event_type == EventType::Down,
        between(s, tents, events, n, s.landscapes.len() as int),
        faithful(s, tents, c, events[n].value.x as int),
    ensures
        logged_one(
            s.landscapes,
            events[n].value,
            s.mountains[events[n].parent_mountain_id as int].position,
        ) matches Ok(landscapes) && {
            let s2 = with_turned(s, events[n].parent_mountain_id, landscapes);
            &&& shaped(s2, tents)
            &&& timely(s2, events[n].value.x as int)
            &&& guarded(s2)
            &&& drawn(s2, tents, c, events[n].value.x as int)
        },
{
    let e = events[n];
    let id = e.parent_mountain_id;
    let x = e.value.x as int;
    lemma_ready(s, tents, events, n);
    let m = s.mountains[id as int];
    assert(is_tent(m) && m.id == id);
    assert(e.value == m.middle);
    let position = m.position.unwrap();
    let at = position as int;
    assert(s.status[at] == id);
    assert(tent_at(s, at) == m);
    if position < s.landscapes.len() {
        assert(on_edge(tent_at(s, at), front(s, at)));
        assert(s.landscapes[at].len() > 0);
    }
    lemma_logged_at_front(s.landscapes, e.value, position);
    let landscapes = logged_one(s.landscapes, e.value, Some(position)).unwrap();
    let s2 = with_turned(s, id, landscapes);
    lemma_turning_sound(s, tents, events, n, landscapes);
    lemma_turning_ordered(s, tents, events, n, landscapes);
    assert forall|p: int| 0 <= p < s.status.len() && p != at implies #[trigger] tent_at(s2, p)
        == tent_at(s, p) by {
        assert(s.status[p] < s.mountains.len());
        assert(s.mountains[s.status[p] as int].position.unwrap() == p);
    }
    assert(tent_at(s2, at) == PersistenceMountain { slope_rising: false, ..m });
    assert forall|p: int, o: int|
        0 <= p <= s.status.len() && 0 <= o < s.mountains.len() implies #[trigger] above(
        s2,
        p,
    ).contains(o) == above(s, p).contains(o) by {}
    assert forall|o: int| 0 <= o < s2.mountains.len() implies {
        let t = #[trigger] s2.mountains[o];
        &&& t.position.is_some() ==> t.birth.x <= x <= t.death.x
        &&& t.position.is_none() && !t.slope_rising ==> t.death.x <= x
        &&& t.position.is_none() && t.slope_rising ==> x <= t.birth.x
        &&& t.birth.x == tents[o].birth.x
        &&& t.death.x == tents[o].death.x
    } by {
        let t = s.mountains[o];
        assert(t.birth.x == tents[o].birth.x);
    }
    // The tents above die no earlier than the tent that turns, and were born no later.
    assert forall|o: int| #[trigger] above(s, at).contains(o) implies tents[o].birth.x
        <= m.birth.x && m.death.x <= tents[o].death.x by {
        let q = s.mountains[o].position.unwrap() as int;
        assert(s.status[q] == o);
        assert(tent_at(s, q) == s.mountains[o]);
        assert(in_order(tent_at(s, q), tent_at(s, at)));
        assert(in_order(tent_at(s2, q), tent_at(s2, at)));
        assert(s.mountains[o].birth.x == tents[o].birth.x);
    }
    assert(guarded(s2)) by {
        assert forall|p: int, o: int|
            0 <= p < s2.status.len() && p < s2.landscapes.len() && tent_at(s2, p).slope_rising && 0
                <= o < s2.mountains.len() implies #[trigger] above(s2, p).contains(o)
            || s2.mountains[o].birth.x >= tent_at(s2, p).birth.x || 2 * front(s2, p).0 >= tent_at(
            s2,
            p,
        ).birth.x + s2.mountains[o].death.x by {
            let t = s.mountains[o];
            assert(s2.mountains[o].birth.x == t.birth.x && s2.mountains[o].death.x == t.death.x);
            assert(p != at);
            assert(s2.landscapes[p] == s.landscapes[p]);
            assert(above(s, p).contains(o) || s.mountains[o].birth.x >= tent_at(s, p).birth.x || 2
                * front(s, p).0 >= tent_at(s, p).birth.x + s.mountains[o].death.x);
        }
        assert forall|p: int, o: int|
            0 <= p < s2.status.len() && p < s2.landscapes.len() && !tent_at(s2, p).slope_rising
                && #[trigger] above(s2, p).contains(o) implies 2 * front(s2, p).0
            >= s2.mountains[o].birth.x + tent_at(s2, p).death.x by {
            let t = s.mountains[o];
            assert(s2.mountains[o].birth.x == t.birth.x && t.birth.x == tents[o].birth.x);
            assert(above(s, p).contains(o));
            if p != at {
                assert(s2.landscapes[p] == s.landscapes[p]);
            }
        }
        assert forall|p: int|
            0 <= p < s2.status.len() && p < s2.landscapes.len() && !(#[trigger] tent_at(
                s2,
                p,
            )).slope_rising implies 2 * front(s2, p).0 >= tent_at(s2, p).birth.x + tent_at(
            s2,
            p,
        ).death.x by {
            if p != at {
                assert(s2.landscapes[p] == s.landscapes[p]);
                assert(!tent_at(s, p).slope_rising);
            }
        }
    }
    assert forall|p: int| 0 <= p < s2.landscapes.len() implies stepwise(#[trigger] s2.landscapes[p])
        && traced_over(s2.landscapes[p], tents, p, c, horizon(s2, p, x)) by {
        let line = s.landscapes[p];
        assert(stepwise(line) && traced_over(line, tents, p, c, horizon(s, p, x)));
        if p == at {
            let q = (e.value.x, e.value.y);
            if line.last() != q {
                assert(well_drawn(line));
                assert(line[line.len() - 1].1 >= 0);
                assert forall|o: int| #[trigger]
                    above(s, at).contains(o) implies tents[o].birth.x <= tent_at(s, at).birth.x
                    && 2 * q.0 <= tent_at(s, at).birth.x + tents[o].death.x by {}
                assert forall|o: int|
                    0 <= o < tents.len() && !(#[trigger] above(s, at).contains(
                        o,
                    )) implies tents[o].birth.x >= tent_at(s, at).birth.x || 2 * line.last().0
                    >= tent_at(s, at).birth.x + tents[o].death.x by {
                    assert(s.mountains[o].birth.x == tents[o].birth.x);
                }
                lemma_segment_rising(s, tents, at, line.last(), q, c);
                lemma_extend(line, tents, at, q, c);
            }
        } else {
            assert(s2.landscapes[p] == line);
        }
    }
}

/// A tent turns without fail, and all that holds of the sweep holds after it.
pub proof fn lemma_turned_faithful(
    s: Sweep,
    tents: Seq<PersistenceMountain>,
    events: Seq<Event>,
    c: int,
    n: int,
)
    requires
        numbered(tents),
        regular(tents, events),
        0 <= n < events.len(),
        events[n].event_type == EventType::Down,
        between(s, tents, events, n, s.landscapes.len() as int),
        faithful(s, tents, c, events[n].value.x as int),
    ensures
        turned(s, events[n]) matches Ok(next) && faithful(next, tents, c, events[n].value.x as int),
{
    let e = events[n];
    let id = e.parent_mountain_id;
    let x = e.value.x as int;
    lemma_ready(s, tents, events, n);
    let m = s.mountains[id as int];
    let position = m.position.unwrap();
    lemma_turning_faithful(s, tents, events, c, n);
    crate::frontier::lemma_turning_fronted(s, tents, events, n, x);
    lemma_logged_one(s.landscapes, s.status.len() as int, e.value, position);
    let landscapes = logged_one(s.landscapes, e.value, Some(position)).unwrap();
    let s2 = with_turned(s, id, landscapes);
    lemma_turning_sound(s, tents, events, n, landscapes);
    lemma_turning_ordered(s, tents, events, n, landscapes);
    assert(free_slot(s2, -1) && free_slot(s2, position as int));
    lemma_probed_sound(s2, id, Direction::Below, -1);
    lemma_probed_ordered(s2, id, Direction::Below, -1);
    let s3 = probed(s2, id, Direction::Below).unwrap();
    lemma_requeued(s2, s3, tents, c, x);
    lemma_drained_faithful(s3, tents, c, x);
}

/// A tent leaves without fail, and all that holds of the sweep holds after it.
pub proof fn lemma_left_faithful(
    s: Sweep,
    tents: Seq<PersistenceMountain>,
    events: Seq<Event>,
    c: int,
    n: int,
)
    requires
        numbered(tents),
        regular(tents, events),
        0 <= n < events.len(),
        events[n].event_type == EventType::Death,
        between(s, tents, events, n, s.landscapes.len() as int),
        faithful(s, tents, c, events[n].value.x as int),
    ensures
        left(s, events[n]) matches Ok(next) && faithful(next, tents, c, events[n].value.x as int),
{
    let e = events[n];
    let id = e.parent_mountain_id;
    let x = e.value.x as int;
    lemma_ready(s, tents, events, n);
    lemma_left_ordered(s, tents, events, n);
    lemma_left_fronted(s, tents, events, n, x);
    crate::soundness::lemma_left_sound(s, tents, events, n);
    let m = s.mountains[id as int];
    assert(is_tent(m) && m.id == id);
    assert(e.value == m.death);
    let position = m.position.unwrap();
    let at = position as int;
    assert(s.status[at] == id);
    assert(tent_at(s, at) == m);
    assert(at + 1 == s.status.len());
    if position < s.landscapes.len() {
        assert(on_edge(tent_at(s, at), front(s, at)));
        assert(s.landscapes[at].len() > 0);
        assert(well_drawn(s.landscapes[at]));
        assert(s.landscapes[at][s.landscapes[at].len() - 1].1 >= 0);
    }
    lemma_logged_floor_at_front(s.landscapes, s.status.len() as int, e.value, position, false);
    let next = left(s, e).unwrap();
    assert forall|p: int| 0 <= p < next.status.len() implies #[trigger] tent_at(next, p) == tent_at(
        s,
        p,
    ) by {
        assert(s.status[p] < s.mountains.len());
        assert(s.mountains[s.status[p] as int].position.unwrap() == p);
    }
    assert forall|p: int, o: int|
        0 <= p <= next.status.len() && 0 <= o < s.mountains.len() implies #[trigger] above(
        next,
        p,
    ).contains(o) == above(s, p).contains(o) by {}
    assert forall|o: int| 0 <= o < next.mountains.len() implies {
        let t = #[trigger] next.mountains[o];
        &&& t.position.is_some() ==> t.birth.x <= x <= t.death.x
        &&& t.position.is_none() && !t.slope_rising ==> t.death.x <= x
        &&& t.position.is_none() && t.slope_rising ==> x <= t.birth.x
        &&& t.birth.x == tents[o].birth.x
        &&& t.death.x == tents[o].death.x
    } by {
        let t = s.mountains[o];
        assert(t.birth.x == tents[o].birth.x);
    }
    assert(guarded(next)) by {
        assert forall|p: int, o: int|
            0 <= p < next.status.len() && p < next.landscapes.len() && tent_at(
                next,
                p,
            ).slope_rising && 0 <= o < next.mountains.len() implies #[trigger] above(
            next,
            p,
        ).contains(o) || next.mountains[o].birth.x >= tent_at(next, p).birth.x || 2 * front(
            next,
            p,
        ).0 >= tent_at(next, p).birth.x + next.mountains[o].death.x by {
            let t = s.mountains[o];
            assert(next.mountains[o].birth.x == t.birth.x && next.mountains[o].death.x
                == t.death.x);
            assert(next.landscapes[p] == s.landscapes[p]);
            assert(above(s, p).contains(o) || s.mountains[o].birth.x >= tent_at(s, p).birth.x || 2
                * front(s, p).0 >= tent_at(s, p).birth.x + s.mountains[o].death.x);
        }
        assert forall|p: int, o: int|
            0 <= p < next.status.len() && p < next.landscapes.len() && !tent_at(
                next,
                p,
            ).slope_rising && #[trigger] above(next, p).contains(o) implies 2 * front(next, p).0
            >= next.mountains[o].birth.x + tent_at(next, p).death.x by {
            assert(next.landscapes[p] == s.landscapes[p]);
            assert(above(s, p).contains(o));
        }
        assert forall|p: int|
            0 <= p < next.status.len() && p < next.landscapes.len() && !(#[trigger] tent_at(
                next,
                p,
            )).slope_rising implies 2 * front(next, p).0 >= tent_at(next, p).birth.x + tent_at(
            next,
            p,
        ).death.x by {
            assert(next.landscapes[p] == s.landscapes[p]);
            assert(!tent_at(s, p).slope_rising);
        }
    }
    assert forall|o: int| #[trigger] above(s, at).contains(o) implies tents[o].death.x
        >= m.death.x by {
        let q = s.mountains[o].position.unwrap() as int;
        assert(s.status[q] == o);
        assert(tent_at(s, q) == s.mountains[o]);
        assert(in_order(tent_at(s, q), tent_at(s, at)));
        assert(s.mountains[o].birth.x == tents[o].birth.x);
    }
    assert forall|p: int| 0 <= p < next.landscapes.len() implies stepwise(
        #[trigger] next.landscapes[p],
    ) && traced_over(next.landscapes[p], tents, p, c, horizon(next, p, x)) by {
        let line = s.landscapes[p];
        assert(stepwise(line) && traced_over(line, tents, p, c, horizon(s, p, x)));
        if p == at {
            let q = (e.value.x, e.value.y);
            if line.last() != q {
                assert forall|o: int| #[trigger]
                    above(s, at).contains(o) implies tents[o].death.x >= tent_at(s, at).death.x
                    && 2 * line.last().0 >= tents[o].birth.x + tent_at(s, at).death.x by {
                    assert(s.mountains[o].birth.x == tents[o].birth.x);
                }
                assert forall|o: int|
                    0 <= o < tents.len() && !(#[trigger] above(s, at + 1).contains(
                        o,
                    )) implies tents[o].death.x <= tent_at(s, at).death.x || 2 * q.0
                    <= tents[o].birth.x + tent_at(s, at).death.x by {
                    let t = s.mountains[o];
                    assert(t.birth.x == tents[o].birth.x);
                    if t.position.is_some() {
                        assert(t.position.unwrap() < s.status.len());
                    }
                }
                lemma_segment_falling(s, tents, at, line.last(), q, c);
                lemma_extend(line, tents, at, q, c);
            }
        } else {
            assert(next.landscapes[p] == line);
        }
    }
}

/// The sweep as it is between two events, `n` of them handled: no invariant
/// has broken, and all that should hold of it holds.
pub open spec fn right(
    r: Result<Sweep, SweepError>,
    tents: Seq<PersistenceMountain>,
    events: Seq<Event>,
    c: int,
    n: int,
    k: int,
) -> bool {
    r matches Ok(s) && between(s, tents, events, n, k) && faithful(s, tents, c, sweep_x(events, n))
}

/// One event of the main schedule is handled without fail, and leaves the
/// sweep right.
pub proof fn lemma_handled_right(
    s: Sweep,
    tents: Seq<PersistenceMountain>,
    events: Seq<Event>,
    c: int,
    n: int,
)
    requires
        numbered(tents),
        regular(tents, events),
        0 <= n < events.len(),
        right(Ok(s), tents, events, c, n, s.landscapes.len() as int),
    ensures
        right(handled(s, events[n]), tents, events, c, n + 1, s.landscapes.len() as int),
{
    let before = sweep_x(events, n);
    assert(before <= events[n].value.x) by {
        if n > 0 {
            assert(!rank_lt(events[n].rank(), events[n - 1].rank()));
        }
    }
    lemma_ready(s, tents, events, n);
    lemma_later(s, tents, events, c, n, before);
    crate::soundness::lemma_handled_sound(s, tents, events, n);
    match events[n].event_type {
        EventType::Up => lemma_entered_faithful(s, tents, events, c, n),
        EventType::Down => lemma_turned_faithful(s, tents, events, c, n),
        EventType::Death => lemma_left_faithful(s, tents, events, c, n),
        EventType::Intersection => {},
    }
}

/// Before the first event the sweep is right.
pub proof fn lemma_start_right(tents: Seq<PersistenceMountain>, events: Seq<Event>, c: int, k: usize)
    requires
        c >= 1,
        numbered(tents),
        regular(tents, events),
    ensures
        right(Ok(start(tents, k)), tents, events, c, 0, k as int),
{
    let s = start(tents, k);
    let x = sweep_x(events, 0);
    lemma_swept_sound(tents, events, k, 0);
    assert forall|m: int| 0 <= m < s.mountains.len() implies {
        let t = #[trigger] s.mountains[m];
        &&& t.position.is_none() && t.slope_rising
        &&& x <= t.birth.x
    } by {
        lemma_places(events, tents, m);
        if events.len() > 0 {
            lemma_rank_of(events, tents, 0, m, EventType::Up);
        }
    }
    assert forall|p: int| 0 <= p < s.landscapes.len() implies stepwise(#[trigger] s.landscapes[p])
        && traced_over(s.landscapes[p], tents, p, c, horizon(s, p, x)) by {
        assert forall|u: int| u <= fine(c, x) implies level_over(
            tents,
            p,
            c,
            u,
            #[trigger] value_over(s.landscapes[p], c, u),
        ) by {
            assert forall|m: int|
                0 <= m < tents.len() && height_over(
                    #[trigger] tents[m],
                    c,
                    u,
                ) > 0 implies s.mountains[m].position.is_some() by {
                assert(x <= s.mountains[m].birth.x);
                lemma_fine(c, x, s.mountains[m].birth.x as int);
            }
            lemma_floor(s, tents, p, c, u);
        }
    }
}

/// The sweep never breaks off, and is right after any number of events.
pub proof fn lemma_swept_right(
    tents: Seq<PersistenceMountain>,
    events: Seq<Event>,
    c: int,
    k: usize,
    n: nat,
)
    requires
        c >= 1,
        numbered(tents),
        regular(tents, events),
        n <= events.len(),
    ensures
        right(swept(tents, events, k, n), tents, events, c, n as int, k as int),
    decreases n,
{
    if n == 0 {
        lemma_start_right(tents, events, c, k);
    } else {
        lemma_swept_right(tents, events, c, k, (n - 1) as nat);
        let s = swept(tents, events, k, (n - 1) as nat).unwrap();
        lemma_handled_right(s, tents, events, c, n - 1);
    }
}

/// Whether the polyline is the landscape `j + 1` of the tents: it is made
/// of unit steps, and over every place of every grid that refines the half
/// grid its value, which is what linear interpolation gives, is the
/// `j + 1`-th largest height of a tent, or zero where fewer tents stand.
pub open spec fn is_landscape(line: Seq<(i64, i64)>, tents: Seq<PersistenceMountain>, j: int) -> bool {
    &&& stepwise(line)
    &&& forall|c: int, u: int|
        c >= 1 ==> level_over(tents, j, c, u, #[trigger] value_over(line, c, u))
}

/// Over every place of the half grid a landscape has the `j + 1`-th largest
/// height of a tent as its value.
pub proof fn lemma_landscape_on_grid(
    line: Seq<(i64, i64)>,
    tents: Seq<PersistenceMountain>,
    j: int,
    t: int,
)
    requires
        is_landscape(line, tents, j),
    ensures
        level(tents, j, t, value_at(line, t)),
{
    lemma_on_grid(line, tents, j, t);
    assert(level_over(tents, j, 1, t, value_over(line, 1, t)));
}

/// What the sweep returns: `k` polylines, of which each goes strictly
/// rightward, nowhere below the floor, begins and ends on the floor, and is
/// the landscape of its number.
pub open spec fn landscapes_right(
    landscapes: Seq<Seq<(i64, i64)>>,
    tents: Seq<PersistenceMountain>,
    k: usize,
) -> bool {
    &&& landscapes.len() == k
    &&& forall|j: int|
        0 <= j < k ==> {
            let line = #[trigger] landscapes[j];
            &&& well_drawn(line)
            &&& settled(line)
            &&& is_landscape(line, tents, j)
        }
}

/// After the last event every polyline is right over every place of the
/// grid `c` times as fine as the half grid.
proof fn lemma_swept_landscape(bd_pairs: Seq<BirthDeath>, c: int, k: usize, j: int, u: int)
    requires
        bd_pairs.len() <= usize::MAX,
        c >= 1,
        0 <= j < k,
    ensures
        generate_spec(bd_pairs, k) matches Ok(landscapes) && level_over(
            mountains_of(bd_pairs),
            j,
            c,
            u,
            value_over(landscapes[j], c, u),
        ),
{
    let tents = mountains_of(bd_pairs);
    let events = sorted(initial_events(tents));
    lemma_mountains_numbered(bd_pairs);
    lemma_timetable_regular(tents);
    lemma_swept_right(tents, events, c, k, events.len());
    let s = swept(tents, events, k, events.len()).unwrap();
    let x = sweep_x(events, events.len() as int);
    if s.status.len() > 0 {
        let i = s.status[0] as int;
        assert(s.mountains[i].position.is_some());
        lemma_places(events, tents, i);
    }
    let line = s.landscapes[j];
    assert(stepwise(line) && traced_over(line, tents, j, c, horizon(s, j, x)));
    assert(well_drawn(line) && settled(line));
    if fine(c, x) < u {
        if line.len() > 0 {
            assert(front(s, j).0 - front(s, j).1 <= x);
            lemma_fine(c, line.last().0 as int, x);
        }
        lemma_value_beyond(line, c, u);
        assert forall|m: int| 0 <= m < tents.len() implies height_over(#[trigger] tents[m], c, u)
            == 0 by {
            lemma_places(events, tents, m);
            let t = s.mountains[m];
            assert(t.death.x == tents[m].death.x);
            assert(t.position.is_none() && !t.slope_rising);
            lemma_fine(c, t.death.x as int, x);
        }
        assert(higher_over(tents, c, u, 0) =~= Set::<int>::empty());
    }
}

/// The sweep never breaks off, and the polylines that it returns are the
/// first `k` landscapes of the intervals: over every place the polyline `j`
/// has the `j + 1`-th largest height of a tent as its value, and zero where
/// fewer tents stand.
pub proof fn lemma_generate_right(bd_pairs: Seq<BirthDeath>, k: usize)
    requires
        bd_pairs.len() <= usize::MAX,
    ensures
        generate_spec(bd_pairs, k) matches Ok(landscapes) && landscapes_right(
            landscapes,
            mountains_of(bd_pairs),
            k,
        ),
{
    let tents = mountains_of(bd_pairs);
    let events = sorted(initial_events(tents));
    lemma_mountains_numbered(bd_pairs);
    lemma_timetable_regular(tents);
    lemma_swept_right(tents, events, 1, k, events.len());
    let s = swept(tents, events, k, events.len()).unwrap();
    if s.status.len() > 0 {
        let i = s.status[0] as int;
        assert(s.mountains[i].position.is_some());
        lemma_places(events, tents, i);
    }
    assert forall|j: int| 0 <= j < k implies {
        let line = #[trigger] s.landscapes[j];
        &&& well_drawn(line)
        &&& settled(line)
        &&& is_landscape(line, tents, j)
    } by {
        let line = s.landscapes[j];
        assert(well_drawn(line) && settled(line));
        assert(stepwise(line));
        assert forall|c: int, u: int| c >= 1 implies level_over(
            tents,
            j,
            c,
            u,
            #[trigger] value_over(line, c, u),
        ) by {
            lemma_swept_landscape(bd_pairs, c, k, j, u);
        }
    }
}

/// Of the polylines that the sweep returns none is, over any place, lower
/// than the next.
pub proof fn lemma_generate_nested(bd_pairs: Seq<BirthDeath>, k: usize, j: int, t: int)
    requires
        bd_pairs.len() <= usize::MAX,
        0 <= j,
        j + 1 < k,
    ensures
        value_at(generate_spec(bd_pairs, k).unwrap()[j], t) >= value_at(
            generate_spec(bd_pairs, k).unwrap()[j + 1],
            t,
        ),
{
    lemma_generate_right(bd_pairs, k);
    let landscapes = generate_spec(bd_pairs, k).unwrap();
    let tents = mountains_of(bd_pairs);
    lemma_landscape_on_grid(landscapes[j], tents, j, t);
    lemma_landscape_on_grid(landscapes[j + 1], tents, j + 1, t);
    crate::levels::lemma_level_nested(
        tents,
        j,
        t,
        value_at(landscapes[j], t),
        value_at(landscapes[j + 1], t),
    );
}

} // verus!
