//! The order of the tents in the status, and why a tent that leaves is at
//! its bottom.

use crate::persistencelandscape::{
    crossed, crossing, entered, exchanged, handled, is_tent, left, logged, neighbor_crossing,
    probed, turned, Direction, Event, EventType, PersistenceMountain, Sweep, SweepError,
};
use crate::schedule::{rank_lt, Ranked};
use crate::soundness::{
    between, event_of, falling_id, free_slot, lemma_exchanged_sound, lemma_logged_pair,
    lemma_neighbor_pending, lemma_places, lemma_probed_sound, lemma_ready, lemma_relined,
    lemma_rest_sound, lemma_status_fits, lines_sound, numbered, on_time, overlapping, pending,
    place, probe_slot, regular, rising_id, seen, slot_of, sound, with_entering,
};
use vstd::prelude::*;

verus! {

/// The tent of the slot `p`.
pub open spec fn tent_at(s: Sweep, p: int) -> PersistenceMountain {
    s.mountains[s.status[p] as int]
}

/// Of two falling tents, `u` leaves no earlier than `l`: it dies later, or
/// with it and was born later, or is its twin of higher id.
pub open spec fn outlasts(u: PersistenceMountain, l: PersistenceMountain) -> bool {
    u.death.x > l.death.x || (u.death.x == l.death.x && (u.birth.x > l.birth.x || (u.birth.x
        == l.birth.x && u.id >= l.id)))
}

/// Whether the tent `u` may lie above the tent `l` in the status. Of two
/// rising tents the one born first lies above; of two falling ones the one
/// that outlasts the other; a rising tent lies above a falling one that dies
/// no later; a falling tent lies above a rising one that was born no earlier.
pub open spec fn in_order(u: PersistenceMountain, l: PersistenceMountain) -> bool {
    if u.slope_rising && l.slope_rising {
        u.birth.x <= l.birth.x
    } else if !u.slope_rising && !l.slope_rising {
        outlasts(u, l)
    } else if u.slope_rising {
        u.death.x >= l.death.x
    } else {
        u.birth.x <= l.birth.x
    }
}

/// Every two tents of the status are in order.
pub open spec fn stacked(s: Sweep) -> bool {
    forall|p: int, q: int|
        0 <= p < q < s.status.len() ==> in_order(#[trigger] tent_at(s, p), #[trigger] tent_at(s, q))
}

/// An intersection of the slot `p` is queued.
pub open spec fn queued(s: Sweep, p: int) -> bool {
    exists|j: int| 0 <= j < s.weird_q.len() && slot_of(s, #[trigger] s.weird_q[j]) == p
}

/// The slot `p` holds no falling tent directly above a rising one that it is
/// still to cross: the falling tent dies later than the rising one, or their
/// intersection is queued.
pub open spec fn settled_slot(s: Sweep, p: int) -> bool {
    !tent_at(s, p).slope_rising && tent_at(s, p + 1).slope_rising ==> tent_at(s, p).death.x > tent_at(
        s,
        p + 1,
    ).death.x || queued(s, p)
}

/// Every slot is settled, but for the slots `a` and `b`.
pub open spec fn resolved(s: Sweep, a: int, b: int) -> bool {
    forall|p: int|
        0 <= p && p + 1 < s.status.len() && p != a && p != b ==> #[trigger] settled_slot(s, p)
}

/// The order of the tents, as it is between two intersections.
pub open spec fn ordered(s: Sweep) -> bool {
    stacked(s) && resolved(s, -1, -1)
}

/// Between a falling tent and a rising tent below it, some falling tent lies
/// directly above a rising one, no higher than the one and no lower than the
/// other.
pub proof fn lemma_gap(s: Sweep, p: int, q: int) -> (g: int)
    requires
        0 <= p < q < s.status.len(),
        !tent_at(s, p).slope_rising,
        tent_at(s, q).slope_rising,
    ensures
        p <= g < q,
        !tent_at(s, g).slope_rising,
        tent_at(s, g + 1).slope_rising,
    decreases q - p,
{
    if tent_at(s, p + 1).slope_rising {
        p
    } else {
        lemma_gap(s, p + 1, q)
    }
}

/// Where a falling tent lies above a rising one and no intersection is
/// queued, the two cross ahead of every place at which some rising tent of
/// the status has not yet turned: twice such a place is less than the birth
/// of the rising tent and the death of the falling one together.
pub proof fn lemma_crossing_ahead(s: Sweep, p: int, q: int, twice_x: int)
    requires
        s.well_formed(),
        ordered(s),
        s.weird_q.len() == 0,
        0 <= p < q < s.status.len(),
        !tent_at(s, p).slope_rising,
        tent_at(s, q).slope_rising,
        forall|r: int|
            0 <= r < s.status.len() && (#[trigger] tent_at(s, r)).slope_rising ==> twice_x
                <= tent_at(s, r).birth.x + tent_at(s, r).death.x,
    ensures
        twice_x < tent_at(s, q).birth.x + tent_at(s, p).death.x,
{
    let g = lemma_gap(s, p, q);
    assert(settled_slot(s, g));
    assert(!queued(s, g));
    let f = tent_at(s, g);
    let r = tent_at(s, g + 1);
    assert(f.death.x > r.death.x);
    if p < g {
        assert(in_order(tent_at(s, p), tent_at(s, g)));
    }
    if g + 1 < q {
        assert(in_order(tent_at(s, g + 1), tent_at(s, q)));
    }
    assert(twice_x <= r.birth.x + r.death.x);
}

/// Where the edges of a falling tent and of a rising tent below it, born no
/// earlier and before the other dies, do not cross, the falling tent dies
/// later than the rising one; where they cross, it dies no later.
pub proof fn lemma_crossing_or_later(f: PersistenceMountain, r: PersistenceMountain)
    requires
        is_tent(f),
        is_tent(r),
        !f.slope_rising,
        r.slope_rising,
        f.birth.x <= r.birth.x,
        r.birth.x < f.death.x,
    ensures
        crossing(f, r).is_none() ==> f.death.x > r.death.x,
        crossing(f, r).is_some() ==> f.death.x <= r.death.x,
        crossing(r, f) == crossing(f, r),
{
}

/// The slot whose tent an exchange of the slots `upper` and `lower` brings to the slot `p`.
pub open spec fn exchanged_from(p: int, upper: int, lower: int) -> int {
    if p == upper {
        lower
    } else if p == lower {
        upper
    } else {
        p
    }
}

/// After an exchange every slot holds the tent of the slot that it came from.
pub proof fn lemma_exchanged_tents(s: Sweep, upper: usize, lower: usize)
    requires
        s.well_formed(),
        upper + 1 == lower,
        lower < s.status.len(),
    ensures
        exchanged(s, upper, lower).status.len() == s.status.len(),
        exchanged(s, upper, lower).landscapes == s.landscapes,
        forall|p: int|
            0 <= p < s.status.len() ==> {
                let m = #[trigger] tent_at(exchanged(s, upper, lower), p);
                let o = tent_at(s, exchanged_from(p, upper as int, lower as int));
                &&& m.birth == o.birth
                &&& m.middle == o.middle
                &&& m.death == o.death
                &&& m.id == o.id
                &&& m.slope_rising == o.slope_rising
            },
{
    let upper_id = s.status[upper as int];
    let lower_id = s.status[lower as int];
    assert(upper_id < s.mountains.len() && lower_id < s.mountains.len());
    assert forall|p: int| 0 <= p < s.status.len() implies {
        let m = #[trigger] tent_at(exchanged(s, upper, lower), p);
        let o = tent_at(s, exchanged_from(p, upper as int, lower as int));
        &&& m.birth == o.birth
        &&& m.middle == o.middle
        &&& m.death == o.death
        &&& m.id == o.id
        &&& m.slope_rising == o.slope_rising
    } by {
        assert(s.status[p] < s.mountains.len());
        assert(s.mountains[s.status[p] as int].position.unwrap() == p);
    }
}

/// A falling tent and the rising tent directly below it, which dies no
/// earlier, change places: the tents stay in order, and every slot but the
/// two beside the pair stays settled.
pub proof fn lemma_exchanged_ordered(s: Sweep, upper: usize, lower: usize)
    requires
        sound(s),
        stacked(s),
        resolved(s, upper as int, -1),
        upper + 1 == lower,
        lower < s.status.len(),
        !tent_at(s, upper as int).slope_rising,
        tent_at(s, lower as int).slope_rising,
        tent_at(s, upper as int).death.x <= tent_at(s, lower as int).death.x,
        free_slot(s, upper - 1),
        free_slot(s, upper as int),
        free_slot(s, lower as int),
    ensures
        stacked(exchanged(s, upper, lower)),
        resolved(exchanged(s, upper, lower), upper - 1, lower as int),
{
    let next = exchanged(s, upper, lower);
    lemma_exchanged_sound(s, upper, lower);
    let upper_id = s.status[upper as int];
    let lower_id = s.status[lower as int];
    assert(upper_id < s.mountains.len() && lower_id < s.mountains.len());
    assert forall|p: int| 0 <= p < s.status.len() implies {
        let m = #[trigger] tent_at(next, p);
        let o = tent_at(
            s,
            if p == upper {
                lower as int
            } else if p == lower {
                upper as int
            } else {
                p
            },
        );
        &&& m.birth == o.birth
        &&& m.death == o.death
        &&& m.id == o.id
        &&& m.slope_rising == o.slope_rising
    } by {
        assert(s.status[p] < s.mountains.len());
        assert(s.mountains[s.status[p] as int].position.unwrap() == p);
    }
    assert forall|p: int, q: int| 0 <= p < q < next.status.len() implies in_order(
        #[trigger] tent_at(next, p),
        #[trigger] tent_at(next, q),
    ) by {
        let op = if p == upper {
            lower as int
        } else if p == lower {
            upper as int
        } else {
            p
        };
        let oq = if q == upper {
            lower as int
        } else if q == lower {
            upper as int
        } else {
            q
        };
        if p == upper && q == lower {
        } else {
            assert(op < oq);
            assert(in_order(tent_at(s, op), tent_at(s, oq)));
        }
    }
    assert forall|p: int|
        0 <= p && p + 1 < next.status.len() && p != upper - 1 && p != lower implies #[trigger] settled_slot(
        next,
        p,
    ) by {
        if p != upper {
            assert(settled_slot(s, p));
            if queued(s, p) {
                let j = choose|j: int|
                    0 <= j < s.weird_q.len() && slot_of(s, #[trigger] s.weird_q[j]) == p;
                assert(slot_of(next, next.weird_q[j]) == p);
            }
        }
    }
}

/// A rising tent is tested against its neighbour above, or a falling one
/// against its neighbour below: the tents stay in order, and the slot of the
/// pair is settled now.
pub proof fn lemma_probed_ordered(s: Sweep, id: usize, direction: Direction, other: int)
    requires
        sound(s),
        stacked(s),
        id < s.mountains.len(),
        s.mountains[id as int].position.is_some(),
        s.mountains[id as int].slope_rising <==> direction == Direction::Above,
        resolved(s, probe_slot(s.mountains[id as int].position.unwrap(), direction), other),
    ensures
        probed(s, id, direction).is_ok(),
        stacked(probed(s, id, direction).unwrap()),
        resolved(probed(s, id, direction).unwrap(), other, -1),
{
    lemma_neighbor_pending(s, id, direction);
    let found = neighbor_crossing(s.status, id, s.mountains, direction).unwrap();
    let next = probed(s, id, direction).unwrap();
    let position = s.mountains[id as int].position.unwrap();
    let g = probe_slot(position, direction);
    assert forall|p: int, q: int| 0 <= p < q < next.status.len() implies in_order(
        #[trigger] tent_at(next, p),
        #[trigger] tent_at(next, q),
    ) by {
        assert(in_order(tent_at(s, p), tent_at(s, q)));
    }
    assert forall|p: int|
        0 <= p && p + 1 < next.status.len() && p != other implies #[trigger] settled_slot(
        next,
        p,
    ) by {
        let f = tent_at(s, p);
        let r = tent_at(s, p + 1);
        if !f.slope_rising && r.slope_rising {
            if p == g {
                assert(s.status[p] < s.mountains.len());
                assert(s.status[p + 1] < s.mountains.len());
                assert(is_tent(f) && is_tent(r));
                assert(in_order(tent_at(s, p), tent_at(s, p + 1)));
                assert(f.position.is_some() && r.position.is_some());
                lemma_crossing_or_later(f, r);
                if found.is_some() {
                    let j = s.weird_q.len() as int;
                    assert(next.weird_q[j] == found.unwrap());
                    assert(slot_of(next, next.weird_q[j]) == p);
                }
            } else {
                assert(settled_slot(s, p));
                if queued(s, p) {
                    let j = choose|j: int|
                        0 <= j < s.weird_q.len() && slot_of(s, #[trigger] s.weird_q[j]) == p;
                    assert(next.weird_q[j] == s.weird_q[j]);
                    assert(slot_of(next, next.weird_q[j]) == p);
                }
            }
        }
    }
}

/// New polylines do not touch the order of the tents.
pub proof fn lemma_relined_ordered(s: Sweep, landscapes: Seq<Seq<(i64, i64)>>, a: int, b: int)
    requires
        stacked(s),
        resolved(s, a, b),
    ensures
        stacked(Sweep { landscapes, ..s }),
        resolved(Sweep { landscapes, ..s }, a, b),
{
    let next = Sweep { landscapes, ..s };
    assert forall|p: int, q: int| 0 <= p < q < next.status.len() implies in_order(
        #[trigger] tent_at(next, p),
        #[trigger] tent_at(next, q),
    ) by {
        assert(in_order(tent_at(s, p), tent_at(s, q)));
    }
    assert forall|p: int|
        0 <= p && p + 1 < next.status.len() && p != a && p != b implies #[trigger] settled_slot(
        next,
        p,
    ) by {
        assert(settled_slot(s, p));
        if queued(s, p) {
            let j = choose|j: int|
                0 <= j < s.weird_q.len() && slot_of(s, #[trigger] s.weird_q[j]) == p;
            assert(slot_of(next, next.weird_q[j]) == p);
        }
    }
}

/// Without its oldest intersection the queue leaves the slot of that
/// intersection unsettled: there a falling tent lies above a rising one that
/// dies no earlier.
pub proof fn lemma_rest_ordered(s: Sweep)
    requires
        sound(s),
        ordered(s),
        s.weird_q.len() > 0,
    ensures
        ({
            let rest = Sweep { weird_q: s.weird_q.skip(1), ..s };
            let upper = slot_of(s, s.weird_q[0]);
            &&& stacked(rest)
            &&& resolved(rest, upper, -1)
            &&& upper + 1 < s.status.len()
            &&& s.status[upper] == falling_id(s, s.weird_q[0])
            &&& s.status[upper + 1] == rising_id(s, s.weird_q[0])
            &&& !tent_at(rest, upper).slope_rising
            &&& tent_at(rest, upper + 1).slope_rising
            &&& tent_at(rest, upper).death.x <= tent_at(rest, upper + 1).death.x
        }),
{
    let e = s.weird_q[0];
    let rest = Sweep { weird_q: s.weird_q.skip(1), ..s };
    let upper_id = falling_id(s, e);
    let lower_id = rising_id(s, e);
    let upper = s.mountains[upper_id as int].position.unwrap();
    let lower = s.mountains[lower_id as int].position.unwrap();
    assert(pending(s, e));
    assert(s.status[upper as int] == upper_id && s.status[lower as int] == lower_id
        && lower < s.status.len());
    assert(is_tent(s.mountains[upper_id as int]) && is_tent(s.mountains[lower_id as int]));
    assert(in_order(tent_at(s, upper as int), tent_at(s, lower as int)));
    lemma_crossing_or_later(s.mountains[upper_id as int], s.mountains[lower_id as int]);
    assert forall|p: int, q: int| 0 <= p < q < rest.status.len() implies in_order(
        #[trigger] tent_at(rest, p),
        #[trigger] tent_at(rest, q),
    ) by {
        assert(in_order(tent_at(s, p), tent_at(s, q)));
    }
    assert forall|p: int|
        0 <= p && p + 1 < rest.status.len() && p != upper implies #[trigger] settled_slot(
        rest,
        p,
    ) by {
        assert(settled_slot(s, p));
        if queued(s, p) {
            let j = choose|j: int|
                0 <= j < s.weird_q.len() && slot_of(s, #[trigger] s.weird_q[j]) == p;
            assert(rest.weird_q[j - 1] == s.weird_q[j]);
            assert(slot_of(rest, rest.weird_q[j - 1]) == p);
        }
    }
}

/// Carrying out the oldest queued intersection keeps the tents in order.
pub proof fn lemma_crossed_ordered(s: Sweep)
    requires
        sound(s),
        ordered(s),
        s.weird_q.len() > 0,
    ensures
        crossed(Sweep { weird_q: s.weird_q.skip(1), ..s }, s.weird_q[0]) matches Ok(next)
            ==> ordered(next),
{
    let e = s.weird_q[0];
    let rest = Sweep { weird_q: s.weird_q.skip(1), ..s };
    lemma_rest_sound(s);
    lemma_rest_ordered(s);
    let upper_id = falling_id(s, e);
    let lower_id = rising_id(s, e);
    let upper = s.mountains[upper_id as int].position.unwrap();
    let lower = s.mountains[lower_id as int].position.unwrap();
    let m1 = s.mountains[e.parent_mountain_id as int];
    let m2 = s.mountains[e.parent_mountain2_id.unwrap() as int];
    lemma_logged_pair(
        s.landscapes,
        s.status.len() as int,
        e.value,
        m1.position.unwrap(),
        m2.position.unwrap(),
    );
    match logged(s.landscapes, e.value, m1.position, Some(m2.position)) {
        Err(_) => {},
        Ok(landscapes) => {
            let s1 = Sweep { landscapes, ..rest };
            lemma_relined(rest, landscapes, upper - 1);
            lemma_relined(rest, landscapes, upper as int);
            lemma_relined(rest, landscapes, lower as int);
            lemma_relined_ordered(rest, landscapes, upper as int, -1);
            lemma_exchanged_steps(s1, upper, lower, upper_id, lower_id);
        },
    }
}

/// The exchange of two tents and the two tests that follow it keep the
/// tents in order.
proof fn lemma_exchanged_steps(s1: Sweep, upper: usize, lower: usize, upper_id: usize, lower_id: usize)
    requires
        sound(s1),
        stacked(s1),
        resolved(s1, upper as int, -1),
        upper + 1 == lower,
        lower < s1.status.len(),
        s1.status[upper as int] == upper_id,
        s1.status[lower as int] == lower_id,
        !tent_at(s1, upper as int).slope_rising,
        tent_at(s1, lower as int).slope_rising,
        tent_at(s1, upper as int).death.x <= tent_at(s1, lower as int).death.x,
        free_slot(s1, upper - 1),
        free_slot(s1, upper as int),
        free_slot(s1, lower as int),
    ensures
        probed(exchanged(s1, upper, lower), lower_id, Direction::Above) matches Ok(s3) && (probed(
            s3,
            upper_id,
            Direction::Below,
        ) matches Ok(s4) && ordered(s4)),
{
    lemma_exchanged_sound(s1, upper, lower);
    lemma_exchanged_ordered(s1, upper, lower);
    let s2 = exchanged(s1, upper, lower);
    assert(free_slot(s2, upper - 1) && free_slot(s2, lower as int)) by {
        assert forall|j: int| 0 <= j < s2.weird_q.len() implies slot_of(
            s2,
            #[trigger] s2.weird_q[j],
        ) != upper - 1 && slot_of(s2, s2.weird_q[j]) != lower by {
            assert(slot_of(s2, s1.weird_q[j]) == slot_of(s1, s1.weird_q[j]));
        }
    }
    assert(upper_id < s1.mountains.len() && lower_id < s1.mountains.len());
    lemma_probed_sound(s2, lower_id, Direction::Above, lower as int);
    lemma_probed_ordered(s2, lower_id, Direction::Above, lower as int);
    let s3 = probed(s2, lower_id, Direction::Above).unwrap();
    lemma_probed_ordered(s3, upper_id, Direction::Below, -1);
}

/// Of a regular schedule the events that were handled rank no later than
/// the next one, and those that are to come no earlier.
pub proof fn lemma_rank_of(
    events: Seq<Event>,
    tents: Seq<PersistenceMountain>,
    n: int,
    i: int,
    t: EventType,
)
    requires
        numbered(tents),
        regular(tents, events),
        0 <= n < events.len(),
        0 <= i < tents.len(),
        t != EventType::Intersection,
    ensures
        seen(events, n, t, i) ==> !rank_lt(events[n].rank(), event_of(tents[i], t).rank()),
        !seen(events, n, t, i) ==> !rank_lt(event_of(tents[i], t).rank(), events[n].rank()),
{
    lemma_places(events, tents, i);
    let a = place(events, tents, i, t);
    assert(events[a] == event_of(tents[i], t));
    if a < n {
        assert(!rank_lt(events[n].rank(), events[a].rank()));
    } else if a > n {
        assert(!rank_lt(events[a].rank(), events[n].rank()));
    }
}

/// The tent of every slot is one of the given tents, in the status.
pub proof fn lemma_tent_at(s: Sweep, tents: Seq<PersistenceMountain>, events: Seq<Event>, n: int, p: int)
    requires
        s.well_formed(),
        on_time(s, tents, events, n),
        numbered(tents),
        0 <= p < s.status.len(),
    ensures
        s.status[p] < tents.len(),
        tent_at(s, p).birth == tents[s.status[p] as int].birth,
        tent_at(s, p).middle == tents[s.status[p] as int].middle,
        tent_at(s, p).death == tents[s.status[p] as int].death,
        tent_at(s, p).id == s.status[p],
        tent_at(s, p).position == Some(p as usize),
        is_tent(tent_at(s, p)),
        seen(events, n, EventType::Up, s.status[p] as int),
        !seen(events, n, EventType::Death, s.status[p] as int),
        tent_at(s, p).slope_rising <==> !seen(events, n, EventType::Down, s.status[p] as int),
{
    let i = s.status[p];
    assert(i < s.mountains.len());
    let m = s.mountains[i as int];
    assert(is_tent(m) && m.id == i);
    assert(m.position matches Some(q) && q == p);
}

/// The sweep with a tent that has just turned, before it is tested against
/// its neighbour.
pub open spec fn with_turned(s: Sweep, id: usize, landscapes: Seq<Seq<(i64, i64)>>) -> Sweep {
    Sweep {
        mountains: s.mountains.update(
            id as int,
            PersistenceMountain { slope_rising: false, ..s.mountains[id as int] },
        ),
        landscapes,
        ..s
    }
}

/// A tent that has just entered is in order with the tents above it.
pub proof fn lemma_entering_ordered(
    s: Sweep,
    tents: Seq<PersistenceMountain>,
    events: Seq<Event>,
    n: int,
    landscapes: Seq<Seq<(i64, i64)>>,
)
    requires
        numbered(tents),
        regular(tents, events),
        0 <= n < events.len(),
        events[n].event_type == EventType::Up,
        between(s, tents, events, n, s.landscapes.len() as int),
        ordered(s),
    ensures
        stacked(with_entering(s, events[n].parent_mountain_id, landscapes)),
        resolved(with_entering(s, events[n].parent_mountain_id, landscapes), s.status.len() - 1, -1),
{
    let id = events[n].parent_mountain_id;
    lemma_ready(s, tents, events, n);
    lemma_status_fits(s, id);
    let s2 = with_entering(s, id, landscapes);
    let bottom = s.status.len() as int;
    assert(events[n] == event_of(tents[id as int], EventType::Up));
    assert forall|p: int| 0 <= p < bottom implies #[trigger] tent_at(s2, p) == tent_at(s, p)
        && tent_at(s, p).birth.x <= tent_at(s2, bottom).birth.x by {
        lemma_tent_at(s, tents, events, n, p);
        lemma_rank_of(events, tents, n, s.status[p] as int, EventType::Up);
    }
    assert forall|p: int, q: int| 0 <= p < q < s2.status.len() implies in_order(
        #[trigger] tent_at(s2, p),
        #[trigger] tent_at(s2, q),
    ) by {
        if q < bottom {
            assert(in_order(tent_at(s, p), tent_at(s, q)));
        }
    }
    assert forall|p: int|
        0 <= p && p + 1 < s2.status.len() && p != bottom - 1 implies #[trigger] settled_slot(
        s2,
        p,
    ) by {
        assert(settled_slot(s, p));
        assert(tent_at(s2, p) == tent_at(s, p));
        assert(tent_at(s2, p + 1) == tent_at(s, p + 1));
    }
}

/// A tent that has just turned leaves the sweep sound.
pub proof fn lemma_turning_sound(
    s: Sweep,
    tents: Seq<PersistenceMountain>,
    events: Seq<Event>,
    n: int,
    landscapes: Seq<Seq<(i64, i64)>>,
)
    requires
        numbered(tents),
        regular(tents, events),
        0 <= n < events.len(),
        events[n].event_type == EventType::Down,
        between(s, tents, events, n, s.landscapes.len() as int),
        lines_sound(landscapes, s.status.len() as int),
    ensures
        sound(with_turned(s, events[n].parent_mountain_id, landscapes)),
{
    let id = events[n].parent_mountain_id;
    lemma_ready(s, tents, events, n);
    let s2 = with_turned(s, id, landscapes);
    assert(s2.well_formed()) by {
        assert forall|i: int| 0 <= i < s2.mountains.len() implies {
            let m = #[trigger] s2.mountains[i];
            &&& is_tent(m)
            &&& m.id == i
            &&& m.position matches Some(p) ==> p < s2.status.len() && s2.status[p as int] == i
        } by {
            assert(is_tent(s.mountains[i]));
        }
        assert forall|p: int| 0 <= p < s2.status.len() implies {
            let i = #[trigger] s2.status[p];
            &&& i < s2.mountains.len()
            &&& s2.mountains[i as int].position matches Some(q) && q == p
        } by {
            assert(s.status[p] < s.mountains.len());
        }
    }
    assert(overlapping(s2)) by {
        assert forall|i: int, j: int|
            0 <= i < s2.mountains.len() && 0 <= j < s2.mountains.len() && (
            #[trigger] s2.mountains[i]).position.is_some() && (
            #[trigger] s2.mountains[j]).position.is_some() implies s2.mountains[i].birth.x
            < s2.mountains[j].death.x by {
            assert(s.mountains[i].position.is_some());
            assert(s.mountains[j].position.is_some());
        }
    }
}

/// A tent that has just turned is in order with the other tents: those above
/// it die no earlier, those below it that fall outlast it not.
pub proof fn lemma_turning_ordered(
    s: Sweep,
    tents: Seq<PersistenceMountain>,
    events: Seq<Event>,
    n: int,
    landscapes: Seq<Seq<(i64, i64)>>,
)
    requires
        numbered(tents),
        regular(tents, events),
        0 <= n < events.len(),
        events[n].event_type == EventType::Down,
        between(s, tents, events, n, s.landscapes.len() as int),
        ordered(s),
    ensures
        stacked(with_turned(s, events[n].parent_mountain_id, landscapes)),
        resolved(
            with_turned(s, events[n].parent_mountain_id, landscapes),
            s.mountains[events[n].parent_mountain_id as int].position.unwrap() as int,
            -1,
        ),
{
    let id = events[n].parent_mountain_id;
    lemma_ready(s, tents, events, n);
    let s2 = with_turned(s, id, landscapes);
    let u = s.mountains[id as int];
    let at = u.position.unwrap() as int;
    assert(is_tent(u) && u.id == id);
    assert(s.status[at] == id);
    assert(events[n] == event_of(tents[id as int], EventType::Down));
    // Where the other tents stand to the turn: the rising ones turn no
    // earlier, the falling ones turned no later.
    assert forall|p: int| 0 <= p < s.status.len() implies {
        let t = #[trigger] tent_at(s, p);
        &&& is_tent(t)
        &&& p != at ==> tent_at(s2, p) == t
        &&& t.slope_rising ==> u.birth.x + u.death.x <= t.birth.x + t.death.x
        &&& !t.slope_rising ==> t.birth.x + t.death.x < u.birth.x + u.death.x || (t.birth.x
            + t.death.x == u.birth.x + u.death.x && t.id < u.id)
    } by {
        lemma_tent_at(s, tents, events, n, p);
        lemma_rank_of(events, tents, n, s.status[p] as int, EventType::Down);
    }
    assert(tent_at(s2, at) == PersistenceMountain { slope_rising: false, ..u });
    assert forall|p: int, q: int| 0 <= p < q < s2.status.len() implies in_order(
        #[trigger] tent_at(s2, p),
        #[trigger] tent_at(s2, q),
    ) by {
        assert(in_order(tent_at(s, p), tent_at(s, q)));
        let a = tent_at(s, p);
        let b = tent_at(s, q);
        if q == at && !a.slope_rising {
            lemma_crossing_ahead(s, p, q, u.birth.x + u.death.x);
        }
    }
    assert forall|p: int|
        0 <= p && p + 1 < s2.status.len() && p != at implies #[trigger] settled_slot(s2, p) by {
        assert(settled_slot(s, p));
        assert(tent_at(s2, p) == tent_at(s, p));
    }
}

/// A tent that is to leave is at the bottom of the status, and the tents
/// that stay are in order.
pub proof fn lemma_left_ordered(
    s: Sweep,
    tents: Seq<PersistenceMountain>,
    events: Seq<Event>,
    n: int,
)
    requires
        numbered(tents),
        regular(tents, events),
        0 <= n < events.len(),
        events[n].event_type == EventType::Death,
        between(s, tents, events, n, s.landscapes.len() as int),
        ordered(s),
    ensures
        left(s, events[n]) matches Ok(next) ==> ordered(next),
        left(s, events[n]) != Err::<Sweep, SweepError>(SweepError::NotAtBottom),
{
    let e = events[n];
    let id = e.parent_mountain_id;
    let m = s.mountains[id as int];
    lemma_ready(s, tents, events, n);
    assert(is_tent(m) && m.id == id);
    let at = m.position.unwrap() as int;
    assert(s.status[at] == id);
    assert(events[n] == event_of(tents[id as int], EventType::Death));
    assert forall|p: int| 0 <= p < s.status.len() implies {
        let t = #[trigger] tent_at(s, p);
        &&& is_tent(t)
        &&& t.birth.x < m.death.x
        &&& t.slope_rising ==> 2 * m.death.x <= t.birth.x + t.death.x
        &&& p != at ==> !outlasts(m, t)
    } by {
        lemma_tent_at(s, tents, events, n, p);
        let i = s.status[p] as int;
        lemma_rank_of(events, tents, n, i, EventType::Up);
        lemma_rank_of(events, tents, n, i, EventType::Down);
        lemma_rank_of(events, tents, n, i, EventType::Death);
        if p != at {
            assert(s.mountains[i].position.unwrap() == p);
            assert(i != id);
        }
    }
    // A tent below would fall and outlast the one that leaves, or rise and
    // have been born after it dies.
    assert(at + 1 == s.status.len()) by {
        if at + 1 < s.status.len() {
            let t = tent_at(s, at + 1);
            assert(in_order(tent_at(s, at), tent_at(s, at + 1)));
            if t.slope_rising {
                lemma_crossing_ahead(s, at, at + 1, 2 * m.death.x);
            }
        }
    }
    match left(s, e) {
        Err(_) => {},
        Ok(next) => {
            assert forall|p: int| 0 <= p < next.status.len() implies #[trigger] tent_at(next, p)
                == tent_at(s, p) by {
                assert(s.status[p] < s.mountains.len());
                assert(s.mountains[s.status[p] as int].position.unwrap() == p);
            }
            assert forall|p: int, q: int| 0 <= p < q < next.status.len() implies in_order(
                #[trigger] tent_at(next, p),
                #[trigger] tent_at(next, q),
            ) by {
                assert(in_order(tent_at(s, p), tent_at(s, q)));
            }
            assert forall|p: int|
                0 <= p && p + 1 < next.status.len() implies #[trigger] settled_slot(next, p) by {
                assert(settled_slot(s, p));
                assert(tent_at(next, p + 1) == tent_at(s, p + 1));
            }
        },
    }
}

} // verus!
