//! The landscape sweep: from the tents of a set of intervals to the polylines
//! of the first `k` landscapes.
//!
//! Polylines are given in half grid units, so that peaks and crossings of
//! tents over integer intervals have integer coordinates: the point
//! `(x, y)` of a polyline stands for `(x / 2, y / 2)` on the grid.

use crate::areas::{landscapes_nested, lemma_generate_nested_all};
use crate::birthdeath::{proper_pairs, retain_proper, BirthDeath, LIMIT};
use crate::correctness::{landscapes_right, lemma_generate_right};
use crate::schedule::{lemma_sorted_contains, sort, sorted, Rank, Ranked};
use std::collections::VecDeque;
use vstd::pervasive::unreached;
use vstd::prelude::*;

verus! {

/// A point in half grid units.
#[derive(Debug, Clone, Copy, PartialEq, Eq, Structural)]
pub struct PointOrd {
    pub x: i64,
    pub y: i64,
}

/// The side of a tent in the status on which a neighbour is looked for.
#[derive(Debug, Clone, Copy, PartialEq, Eq, Structural)]
pub enum Direction {
    Above,
    Below,
}

/// The kinds of event, in the order in which they fire at one coordinate.
/// `Up` is a tent entering at its birth, `Down` the turn at its peak, `Death`
/// its leaving at its death; `Intersection` is a crossing of two neighbours,
/// which never enters the main schedule.
#[derive(Debug, Clone, Copy, PartialEq, Eq, Structural)]
pub enum EventType {
    Death,
    Up,
    Down,
    Intersection,
}

/// A broken invariant of the sweep. The sweep checks its invariants as it
/// goes, and none of them ever breaks: see `lemma_generate_right`.
#[derive(Debug, Clone, Copy, PartialEq, Eq, Structural)]
pub enum SweepError {
    /// A tent that is not in the status was asked for its position.
    DeadMountain,
    /// A tent was asked to enter, turn or leave out of turn.
    IllegalTransition,
    /// A tent was to leave from a slot that is not the bottom of the status.
    NotAtBottom,
    /// An intersection came up in the main schedule.
    StrayIntersection,
    /// An intersection names one tent only.
    MissingPartner,
    /// An intersection of two tents that are not a falling one directly above a rising one.
    NotAdjacent,
    /// A point would not lie to the right of the last point of its polyline.
    OutOfOrder,
    /// A polyline that should hold a point is empty.
    EmptySlot,
    /// A point on the floor was to be added above a polyline that is off the floor.
    UnsettledBelow,
}

/// The tent over one interval, with its place in the sweep.
#[derive(Debug, Clone, Copy)]
pub struct PersistenceMountain {
    /// The slot in the status, while the tent is in it.
    pub position: Option<usize>,
    /// Whether the sweep is still left of the peak.
    pub slope_rising: bool,
    pub birth: PointOrd,
    pub middle: PointOrd,
    pub death: PointOrd,
    pub id: usize,
}

/// A place at which the sweep acts: a point, what happens there, and the
/// tent to which it happens; for an intersection, the other tent too.
#[derive(Debug, Clone, Copy)]
pub struct Event {
    pub value: PointOrd,
    pub event_type: EventType,
    pub parent_mountain_id: usize,
    pub parent_mountain2_id: Option<usize>,
    /// Orders events of one kind at one coordinate.
    pub tie: i64,
}

/// The place of a kind of event among the events at one coordinate.
pub open spec fn priority(t: EventType) -> int {
    match t {
        EventType::Death => 0,
        EventType::Up => 1,
        EventType::Down => 2,
        EventType::Intersection => 3,
    }
}

impl Ranked for Event {
    /// By coordinate, then kind, then tie key, then tent.
    open spec fn rank(&self) -> Rank {
        Rank {
            x: self.value.x as int,
            kind: priority(self.event_type),
            tie: self.tie as int,
            id: self.parent_mountain_id as int,
        }
    }

    /// Whether `self` fires before `other`.
    fn before(&self, other: &Self) -> (b: bool) {
        if self.value.x != other.value.x {
            self.value.x < other.value.x
        } else if self.event_type != other.event_type {
            rank_of(self.event_type) < rank_of(other.event_type)
        } else if self.tie != other.tie {
            self.tie < other.tie
        } else {
            self.parent_mountain_id < other.parent_mountain_id
        }
    }
}

fn rank_of(t: EventType) -> (r: u8)
    ensures
        r == priority(t),
{
    match t {
        EventType::Death => 0,
        EventType::Up => 1,
        EventType::Down => 2,
        EventType::Intersection => 3,
    }
}

/// The tent over `[birth, death]`, not yet in the status: it rises from
/// `(birth, 0)` to its peak and falls to `(death, 0)`.
pub open spec fn new_mountain(birth: i64, death: i64, index: usize) -> PersistenceMountain {
    PersistenceMountain {
        position: None,
        slope_rising: true,
        birth: PointOrd { x: (2 * birth) as i64, y: 0 },
        middle: PointOrd { x: (birth + death) as i64, y: (death - birth) as i64 },
        death: PointOrd { x: (2 * death) as i64, y: 0 },
        id: index,
    }
}

/// The tent over `[birth, death]`, numbered `index`, in half grid units.
pub fn create_mountain(birth: i64, death: i64, index: usize) -> (m: PersistenceMountain)
    requires
        (BirthDeath { birth, death }).proper(),
    ensures
        m == new_mountain(birth, death, index),
{
    PersistenceMountain {
        position: None,
        slope_rising: true,
        birth: PointOrd { x: 2 * birth, y: 0 },
        middle: PointOrd { x: birth + death, y: death - birth },
        death: PointOrd { x: 2 * death, y: 0 },
        id: index,
    }
}

/// One tent for each proper interval, numbered in input order.
pub open spec fn mountains_of(bd_pairs: Seq<BirthDeath>) -> Seq<PersistenceMountain> {
    let kept = proper_pairs(bd_pairs);
    Seq::new(kept.len(), |i: int| new_mountain(kept[i].birth, kept[i].death, i as usize))
}

/// The tents of the proper intervals among `bd_pairs`.
pub fn generate_mountains(bd_pairs: &Vec<BirthDeath>) -> (mountains: Vec<PersistenceMountain>)
    ensures
        mountains@ == mountains_of(bd_pairs@),
{
    let kept = retain_proper(bd_pairs);
    proof {
        crate::birthdeath::lemma_proper_pairs(bd_pairs@);
    }
    let mut mountains: Vec<PersistenceMountain> = Vec::new();
    let mut i: usize = 0;
    while i < kept.len()
        invariant
            i <= kept.len(),
            forall|j: int| 0 <= j < kept@.len() ==> (#[trigger] kept@[j]).proper(),
            mountains@ == Seq::new(
                i as nat,
                |j: int| new_mountain(kept@[j].birth, kept@[j].death, j as usize),
            ),
        decreases kept.len() - i,
    {
        mountains.push(create_mountain(kept[i].birth, kept[i].death, i));
        i = i + 1;
        assert(mountains@ =~= Seq::new(
            i as nat,
            |j: int| new_mountain(kept@[j].birth, kept@[j].death, j as usize),
        ));
    }
    mountains
}

/// The entering of a tent, at its birth.
pub open spec fn up_event(m: PersistenceMountain) -> Event {
    Event {
        value: m.birth,
        event_type: EventType::Up,
        parent_mountain_id: m.id,
        parent_mountain2_id: None,
        tie: 0,
    }
}

/// The turn of a tent, at its peak.
pub open spec fn down_event(m: PersistenceMountain) -> Event {
    Event {
        value: m.middle,
        event_type: EventType::Down,
        parent_mountain_id: m.id,
        parent_mountain2_id: None,
        tie: 0,
    }
}

/// Of the tents that leave at one coordinate, the one born first leaves first:
/// it lies lowest.
pub open spec fn death_event(m: PersistenceMountain) -> Event {
    Event {
        value: m.death,
        event_type: EventType::Death,
        parent_mountain_id: m.id,
        parent_mountain2_id: None,
        tie: m.birth.x,
    }
}

/// For each tent its entering, its turn and its leaving, unsorted.
pub open spec fn initial_events(mountains: Seq<PersistenceMountain>) -> Seq<Event> {
    Seq::new(
        3 * mountains.len(),
        |j: int|
            if j % 3 == 0 {
                up_event(mountains[j / 3])
            } else if j % 3 == 1 {
                down_event(mountains[j / 3])
            } else {
                death_event(mountains[j / 3])
            },
    )
}

/// The entering, the turn and the leaving of every tent, tent by tent.
pub fn generate_initial_events(mountains: &Vec<PersistenceMountain>) -> (events: Vec<Event>)
    ensures
        events@ == initial_events(mountains@),
{
    let mut events: Vec<Event> = Vec::new();
    let mut i: usize = 0;
    while i < mountains.len()
        invariant
            i <= mountains.len(),
            events@ == initial_events(mountains@.take(i as int)),
        decreases mountains.len() - i,
    {
        let m = mountains[i];
        events.push(
            Event {
                value: m.birth,
                event_type: EventType::Up,
                parent_mountain_id: m.id,
                parent_mountain2_id: None,
                tie: 0,
            },
        );
        events.push(
            Event {
                value: m.middle,
                event_type: EventType::Down,
                parent_mountain_id: m.id,
                parent_mountain2_id: None,
                tie: 0,
            },
        );
        events.push(
            Event {
                value: m.death,
                event_type: EventType::Death,
                parent_mountain_id: m.id,
                parent_mountain2_id: None,
                tie: m.birth.x,
            },
        );
        i = i + 1;
        assert(events@ =~= initial_events(mountains@.take(i as int)));
    }
    proof {
        assert(mountains@.take(mountains@.len() as int) == mountains@);
    }
    events
}

/// Where the edge of the tent that the sweep is on begins.
pub open spec fn segment_start(m: PersistenceMountain) -> PointOrd {
    if m.slope_rising {
        m.birth
    } else {
        m.middle
    }
}

/// Where the edge of the tent that the sweep is on ends.
pub open spec fn segment_end(m: PersistenceMountain) -> PointOrd {
    if m.slope_rising {
        m.middle
    } else {
        m.death
    }
}

/// Where the edge of the tent that the sweep is on begins.
pub fn current_segment_start(mountain: &PersistenceMountain) -> (p: PointOrd)
    ensures
        p == segment_start(*mountain),
{
    if mountain.slope_rising {
        mountain.birth
    } else {
        mountain.middle
    }
}

/// Where the edge of the tent that the sweep is on ends.
pub fn current_segment_end(mountain: &PersistenceMountain) -> (p: PointOrd)
    ensures
        p == segment_end(*mountain),
{
    if mountain.slope_rising {
        mountain.middle
    } else {
        mountain.death
    }
}

/// The geometry of a tent over a proper interval: feet on the floor at even
/// coordinates within twice the limit, the peak midway between them and half
/// as high as the tent is wide.
pub open spec fn is_tent(m: PersistenceMountain) -> bool {
    &&& m.birth.y == 0
    &&& m.death.y == 0
    &&& m.birth.x % 2 == 0
    &&& m.death.x % 2 == 0
    &&& -2 * LIMIT <= m.birth.x < m.death.x <= 2 * LIMIT
    &&& 2 * m.middle.x == m.birth.x + m.death.x
    &&& 2 * m.middle.y == m.death.x - m.birth.x
}

/// The lesser of two numbers.
pub open spec fn min_of(a: int, b: int) -> int {
    if a <= b {
        a
    } else {
        b
    }
}

/// Where the edges that the sweep is on cross, if one rises and the other
/// falls and they meet: the line `y = x - birth.x` of the rising edge meets
/// the line `y = death.x - x` of the falling edge in one point, and that
/// point counts if it lies on both edges, ends included. Its `x` is kept from
/// passing the death of either tent.
pub open spec fn crossing(m1: PersistenceMountain, m2: PersistenceMountain) -> Option<PointOrd> {
    if m1.slope_rising == m2.slope_rising {
        None
    } else {
        let rising = if m1.slope_rising {
            m1
        } else {
            m2
        };
        let falling = if m1.slope_rising {
            m2
        } else {
            m1
        };
        let x = (rising.birth.x + falling.death.x) / 2;
        let y = (falling.death.x - rising.birth.x) / 2;
        if segment_start(rising).x <= x <= segment_end(rising).x && segment_start(falling).x <= x
            <= segment_end(falling).x {
            Some(
                PointOrd {
                    x: min_of(x, min_of(m1.death.x as int, m2.death.x as int)) as i64,
                    y: y as i64,
                },
            )
        } else {
            None
        }
    }
}

/// A crossing lies on both edges, at or above the floor, and the clamp on its
/// `x` never bites.
pub proof fn lemma_crossing(m1: PersistenceMountain, m2: PersistenceMountain)
    requires
        is_tent(m1),
        is_tent(m2),
        crossing(m1, m2).is_some(),
    ensures
        ({
            let p = crossing(m1, m2).unwrap();
            let rising = if m1.slope_rising {
                m1
            } else {
                m2
            };
            let falling = if m1.slope_rising {
                m2
            } else {
                m1
            };
            &&& m1.slope_rising != m2.slope_rising
            &&& p.y == p.x - rising.birth.x
            &&& p.y == falling.death.x - p.x
            &&& rising.birth.x <= p.x <= rising.middle.x
            &&& falling.middle.x <= p.x <= falling.death.x
            &&& 0 <= p.y
        }),
{
}

/// Where the edges that the sweep is on cross, if one rises and the other
/// falls and they meet.
pub fn intersects_with_neighbor(m1: &PersistenceMountain, m2: &PersistenceMountain) -> (p: Option<
    PointOrd,
>)
    requires
        is_tent(*m1),
        is_tent(*m2),
    ensures
        p == crossing(*m1, *m2),
{
    if m1.slope_rising == m2.slope_rising {
        return None;
    }
    let (rising, falling) = if m1.slope_rising {
        (m1, m2)
    } else {
        (m2, m1)
    };
    let half_birth = rising.birth.x / 2;
    let half_death = falling.death.x / 2;
    let x = half_birth + half_death;
    let y = half_death - half_birth;
    if current_segment_start(rising).x <= x && x <= current_segment_end(rising).x
        && current_segment_start(falling).x <= x && x <= current_segment_end(falling).x {
        let bound = if m1.death.x <= m2.death.x {
            m1.death.x
        } else {
            m2.death.x
        };
        Some(
            PointOrd {
                x: if x <= bound {
                    x
                } else {
                    bound
                },
                y,
            },
        )
    } else {
        None
    }
}

/// The polylines that a vector of vectors holds.
pub open spec fn polylines(v: Seq<Vec<(i64, i64)>>) -> Seq<Seq<(i64, i64)>> {
    Seq::new(v.len(), |i: int| v[i]@)
}

/// `k` empty polylines.
pub fn empty_landscape(k: usize) -> (landscapes: Vec<Vec<(i64, i64)>>)
    ensures
        polylines(landscapes@) == Seq::new(k as nat, |i: int| Seq::<(i64, i64)>::empty()),
{
    let mut landscapes: Vec<Vec<(i64, i64)>> = Vec::new();
    let mut i: usize = 0;
    while i < k
        invariant
            i <= k,
            landscapes@.len() == i,
            forall|j: int| 0 <= j < i ==> (#[trigger] landscapes@[j])@.len() == 0,
        decreases k - i,
    {
        landscapes.push(Vec::new());
        i = i + 1;
    }
    assert(polylines(landscapes@) =~= Seq::new(k as nat, |j: int| Seq::<(i64, i64)>::empty())) by {
        assert forall|j: int| 0 <= j < k implies #[trigger] polylines(landscapes@)[j]
            =~= Seq::<(i64, i64)>::empty() by {
            assert(landscapes@[j]@.len() == 0);
        }
    }
    landscapes
}

/// Whether the point `value` is to be appended to the polyline of slot
/// `position`: not if it repeats the last point; else it must lie to the right
/// of the last point; and a point on the floor may be added only if the
/// polyline below is empty, ends on the floor, or ends where this one does.
pub open spec fn log_check(landscapes: Seq<Seq<(i64, i64)>>, value: PointOrd, position: int) -> Result<
    bool,
    SweepError,
> {
    let line = landscapes[position];
    let below = position + 1;
    if line.len() > 0 && line.last() == (value.x, value.y) {
        Ok(false)
    } else if line.len() > 0 && line.last().0 >= value.x {
        Err(SweepError::OutOfOrder)
    } else if value.y == 0 && below < landscapes.len() && landscapes[below].len() > 0 {
        if line.len() == 0 {
            Err(SweepError::EmptySlot)
        } else if landscapes[below].last() == line.last() || landscapes[below].last().1 == 0 {
            Ok(true)
        } else {
            Err(SweepError::UnsettledBelow)
        }
    } else {
        Ok(true)
    }
}

/// Whether the point `value` is to be appended to the polyline of the slot
/// `position`, or why it cannot be.
pub fn log_checks(landscapes: &Vec<Vec<(i64, i64)>>, value: PointOrd, position: usize) -> (r: Result<
    bool,
    SweepError,
>)
    requires
        position < landscapes@.len(),
    ensures
        r == log_check(polylines(landscapes@), value, position as int),
{
    let slots = landscapes.len();
    let line = &landscapes[position];
    if line.len() > 0 {
        let last = line[line.len() - 1];
        if last.0 == value.x && last.1 == value.y {
            return Ok(false);
        }
        if last.0 >= value.x {
            return Err(SweepError::OutOfOrder);
        }
    }
    let below = position + 1;
    if value.y == 0 && below < slots && landscapes[below].len() > 0 {
        if line.len() == 0 {
            return Err(SweepError::EmptySlot);
        }
        let last = line[line.len() - 1];
        let floor = landscapes[below][landscapes[below].len() - 1];
        if (floor.0 == last.0 && floor.1 == last.1) || floor.1 == 0 {
            Ok(true)
        } else {
            Err(SweepError::UnsettledBelow)
        }
    } else {
        Ok(true)
    }
}

/// The polylines after the point `value` was offered to the slot `position`
/// of a tent: nothing happens below the first `k` slots.
pub open spec fn logged_one(
    landscapes: Seq<Seq<(i64, i64)>>,
    value: PointOrd,
    position: Option<usize>,
) -> Result<Seq<Seq<(i64, i64)>>, SweepError> {
    match position {
        None => Err(SweepError::DeadMountain),
        Some(p) => if p < landscapes.len() {
            match log_check(landscapes, value, p as int) {
                Err(e) => Err(e),
                Ok(false) => Ok(landscapes),
                Ok(true) => Ok(landscapes.update(p as int, landscapes[p as int].push((value.x, value.y)))),
            }
        } else {
            Ok(landscapes)
        },
    }
}

/// The polylines after the point `value` was offered to the slot of one tent
/// and then, for a crossing, to the slot of the other.
pub open spec fn logged(
    landscapes: Seq<Seq<(i64, i64)>>,
    value: PointOrd,
    position: Option<usize>,
    position2: Option<Option<usize>>,
) -> Result<Seq<Seq<(i64, i64)>>, SweepError> {
    match logged_one(landscapes, value, position) {
        Err(e) => Err(e),
        Ok(first) => match position2 {
            None => Ok(first),
            Some(second) => logged_one(first, value, second),
        },
    }
}

fn log_one(landscapes: &mut Vec<Vec<(i64, i64)>>, value: PointOrd, position: Option<usize>) -> (r:
    Result<(), SweepError>)
    ensures
        match r {
            Ok(()) => logged_one(polylines(old(landscapes)@), value, position) == Ok::<
                Seq<Seq<(i64, i64)>>,
                SweepError,
            >(polylines(final(landscapes)@)),
            Err(e) => logged_one(polylines(old(landscapes)@), value, position) == Err::<
                Seq<Seq<(i64, i64)>>,
                SweepError,
            >(e),
        },
{
    match position {
        None => Err(SweepError::DeadMountain),
        Some(p) => {
            if p < landscapes.len() {
                match log_checks(landscapes, value, p) {
                    Err(e) => Err(e),
                    Ok(false) => Ok(()),
                    Ok(true) => {
                        landscapes[p].push((value.x, value.y));
                        assert(polylines(landscapes@) =~= polylines(old(landscapes)@).update(
                            p as int,
                            polylines(old(landscapes)@)[p as int].push((value.x, value.y)),
                        ));
                        Ok(())
                    },
                }
            } else {
                Ok(())
            }
        },
    }
}

/// Offers the point of `event` to the polyline of the slot of `mountain` and
/// then, for an intersection, to that of the slot of `mountain2`.
pub fn log_to_landscape(
    mountain: &PersistenceMountain,
    event: &Event,
    landscapes: &mut Vec<Vec<(i64, i64)>>,
    mountain2: Option<&PersistenceMountain>,
) -> (r: Result<(), SweepError>)
    ensures
        match r {
            Ok(()) => logged(
                polylines(old(landscapes)@),
                event.value,
                mountain.position,
                match mountain2 {
                    Some(m2) => Some(m2.position),
                    None => None,
                },
            ) == Ok::<Seq<Seq<(i64, i64)>>, SweepError>(polylines(final(landscapes)@)),
            Err(e) => logged(
                polylines(old(landscapes)@),
                event.value,
                mountain.position,
                match mountain2 {
                    Some(m2) => Some(m2.position),
                    None => None,
                },
            ) == Err::<Seq<Seq<(i64, i64)>>, SweepError>(e),
        },
{
    match log_one(landscapes, event.value, mountain.position) {
        Err(e) => Err(e),
        Ok(()) => match mountain2 {
            None => Ok(()),
            Some(m2) => log_one(landscapes, event.value, m2.position),
        },
    }
}

/// What the sweep holds between two events.
pub struct Sweep {
    /// The tents that the sweep line cuts, topmost first.
    pub status: Seq<usize>,
    pub mountains: Seq<PersistenceMountain>,
    /// The polylines so far: the one of slot `j` is the landscape `j + 1`.
    pub landscapes: Seq<Seq<(i64, i64)>>,
    /// The intersections found and not yet carried out, oldest first.
    pub weird_q: Seq<Event>,
}

impl Sweep {
    /// Tents and slots refer to each other, and every id names a tent.
    pub open spec fn well_formed(self) -> bool {
        &&& self.mountains.len() <= usize::MAX
        &&& forall|i: int|
            0 <= i < self.mountains.len() ==> {
                let m = #[trigger] self.mountains[i];
                &&& is_tent(m)
                &&& m.id == i
                &&& m.position matches Some(p) ==> p < self.status.len() && self.status[p as int]
                    == i
            }
        &&& forall|p: int|
            0 <= p < self.status.len() ==> {
                let i = #[trigger] self.status[p];
                &&& i < self.mountains.len()
                &&& self.mountains[i as int].position matches Some(q) && q == p
            }
        &&& forall|j: int|
            0 <= j < self.weird_q.len() ==> {
                let e = #[trigger] self.weird_q[j];
                &&& e.parent_mountain_id < self.mountains.len()
                &&& e.parent_mountain2_id matches Some(i2) ==> i2 < self.mountains.len()
            }
    }
}

/// The intersection of the tent `parent_mountain_id` with its neighbour in
/// the status on the side `direction_to_check`, if it has that neighbour and
/// their edges cross.
pub open spec fn neighbor_crossing(
    status: Seq<usize>,
    parent_mountain_id: usize,
    mountains: Seq<PersistenceMountain>,
    direction_to_check: Direction,
) -> Result<Option<Event>, SweepError> {
    match mountains[parent_mountain_id as int].position {
        None => Err(SweepError::DeadMountain),
        Some(position) => {
            let neighbor_index = match direction_to_check {
                Direction::Below => position + 1,
                Direction::Above => position - 1,
            };
            if 0 <= neighbor_index < status.len() {
                let neighbor = status[neighbor_index];
                match crossing(mountains[parent_mountain_id as int], mountains[neighbor as int]) {
                    None => Ok(None),
                    Some(intersection) => Ok(
                        Some(
                            Event {
                                value: intersection,
                                event_type: EventType::Intersection,
                                parent_mountain_id,
                                parent_mountain2_id: Some(neighbor),
                                tie: 0,
                            },
                        ),
                    ),
                }
            } else {
                Ok(None)
            }
        },
    }
}

/// The queue with what a test of two neighbours found.
pub open spec fn enqueued(queue: Seq<Event>, found: Option<Event>) -> Seq<Event> {
    match found {
        Some(e) => queue.push(e),
        None => queue,
    }
}

/// The sum, over the rising tents among the first `n` slots, of their slots:
/// how far the rising tents are from the top. Every intersection that is
/// carried out lifts a rising tent by one slot.
pub open spec fn rising_depth(status: Seq<usize>, mountains: Seq<PersistenceMountain>, n: nat) -> nat
    decreases n,
{
    if n == 0 {
        0
    } else {
        let i = status[n - 1];
        let here: nat = if i < mountains.len() && mountains[i as int].slope_rising {
            (n - 1) as nat
        } else {
            0
        };
        rising_depth(status, mountains, (n - 1) as nat) + here
    }
}

/// The sweep after the tents of the slots `upper` and `lower` changed places.
pub open spec fn exchanged(s: Sweep, upper: usize, lower: usize) -> Sweep {
    let upper_id = s.status[upper as int];
    let lower_id = s.status[lower as int];
    Sweep {
        status: s.status.update(upper as int, lower_id).update(lower as int, upper_id),
        mountains: s.mountains.update(
            lower_id as int,
            PersistenceMountain { position: Some(upper), ..s.mountains[lower_id as int] },
        ).update(
            upper_id as int,
            PersistenceMountain { position: Some(lower), ..s.mountains[upper_id as int] },
        ),
        ..s
    }
}

/// The sweep after the tent `id` was tested against its neighbour on the side
/// `direction`: an intersection that is found joins the queue.
pub open spec fn probed(s: Sweep, id: usize, direction: Direction) -> Result<Sweep, SweepError> {
    match neighbor_crossing(s.status, id, s.mountains, direction) {
        Err(x) => Err(x),
        Ok(found) => Ok(Sweep { weird_q: enqueued(s.weird_q, found), ..s }),
    }
}

/// One intersection carried out. If both tents rise or both fall it is
/// dropped. Else the falling tent must lie directly above the rising one: the
/// point is offered to both slots, the two tents change places, and the tent
/// that went up is tested against its new neighbour above, the one that went
/// down against its new neighbour below.
pub open spec fn crossed(s: Sweep, e: Event) -> Result<Sweep, SweepError> {
    let id1 = e.parent_mountain_id;
    match e.parent_mountain2_id {
        None => Err(SweepError::MissingPartner),
        Some(id2) => {
            if id1 >= s.mountains.len() || id2 >= s.mountains.len() {
                Err(SweepError::DeadMountain)
            } else {
                let m1 = s.mountains[id1 as int];
                let m2 = s.mountains[id2 as int];
                if m1.slope_rising == m2.slope_rising {
                    Ok(s)
                } else {
                    let lower_id = if m1.slope_rising {
                        id1
                    } else {
                        id2
                    };
                    let upper_id = if m1.slope_rising {
                        id2
                    } else {
                        id1
                    };
                    match (s.mountains[upper_id as int].position, s.mountains[lower_id as int].position) {
                        (Some(upper), Some(lower)) => {
                            if upper + 1 == lower && lower < s.status.len() && s.status[upper as int]
                                == upper_id && s.status[lower as int] == lower_id {
                                match logged(s.landscapes, e.value, m1.position, Some(m2.position)) {
                                    Err(x) => Err(x),
                                    Ok(landscapes) => match probed(
                                        exchanged(Sweep { landscapes, ..s }, upper, lower),
                                        lower_id,
                                        Direction::Above,
                                    ) {
                                        Err(x) => Err(x),
                                        Ok(above) => probed(above, upper_id, Direction::Below),
                                    },
                                }
                            } else {
                                Err(SweepError::NotAdjacent)
                            }
                        },
                        _ => Err(SweepError::DeadMountain),
                    }
                }
            }
        },
    }
}

/// Exchanging a falling tent with the rising tent directly below it takes one
/// off the depth of the rising tents.
pub proof fn lemma_exchange_lifts(
    status: Seq<usize>,
    mountains: Seq<PersistenceMountain>,
    status2: Seq<usize>,
    mountains2: Seq<PersistenceMountain>,
    upper: int,
    n: nat,
)
    requires
        0 <= upper,
        upper + 1 < status.len(),
        n <= status.len(),
        status[upper] < mountains.len(),
        status[upper + 1] < mountains.len(),
        !mountains[status[upper] as int].slope_rising,
        mountains[status[upper + 1] as int].slope_rising,
        status2 == status.update(upper, status[upper + 1]).update(upper + 1, status[upper]),
        mountains2.len() == mountains.len(),
        forall|i: int|
            0 <= i < mountains.len() ==> (#[trigger] mountains2[i]).slope_rising
                == mountains[i].slope_rising,
    ensures
        n <= upper ==> rising_depth(status2, mountains2, n) == rising_depth(status, mountains, n),
        n == upper + 1 ==> rising_depth(status2, mountains2, n) == rising_depth(status, mountains, n)
            + upper,
        n >= upper + 2 ==> rising_depth(status2, mountains2, n) + 1 == rising_depth(
            status,
            mountains,
            n,
        ),
    decreases n,
{
    if n > 0 {
        lemma_exchange_lifts(status, mountains, status2, mountains2, upper, (n - 1) as nat);
        let i = status[n - 1];
        let i2 = status2[n - 1];
        if n - 1 != upper && n - 1 != upper + 1 {
            assert(i2 == i);
        }
    }
}

/// Carrying out an intersection lifts a rising tent, or else drops the
/// intersection and adds none.
pub proof fn lemma_crossed_progress(s: Sweep, e: Event)
    requires
        crossed(s, e).is_ok(),
    ensures
        ({
            let next = crossed(s, e).unwrap();
            let before = rising_depth(s.status, s.mountains, s.status.len());
            let after = rising_depth(next.status, next.mountains, next.status.len());
            after < before || (after == before && next.weird_q.len() == s.weird_q.len())
        }),
{
    let next = crossed(s, e).unwrap();
    let id1 = e.parent_mountain_id;
    let id2 = e.parent_mountain2_id.unwrap();
    let m1 = s.mountains[id1 as int];
    let m2 = s.mountains[id2 as int];
    if m1.slope_rising != m2.slope_rising {
        let lower_id = if m1.slope_rising {
            id1
        } else {
            id2
        };
        let upper_id = if m1.slope_rising {
            id2
        } else {
            id1
        };
        let upper = s.mountains[upper_id as int].position.unwrap();
        lemma_exchange_lifts(
            s.status,
            s.mountains,
            next.status,
            next.mountains,
            upper as int,
            s.status.len(),
        );
    }
}

/// All pending intersections carried out, oldest first, with those that they
/// bring up.
pub open spec fn drained(s: Sweep) -> Result<Sweep, SweepError>
    decreases rising_depth(s.status, s.mountains, s.status.len()), s.weird_q.len(),
{
    if s.weird_q.len() == 0 {
        Ok(s)
    } else {
        let rest = Sweep { weird_q: s.weird_q.skip(1), ..s };
        match crossed(rest, s.weird_q[0]) {
            Err(x) => Err(x),
            Ok(next) => {
                proof {
                    lemma_crossed_progress(rest, s.weird_q[0]);
                }
                drained(next)
            },
        }
    }
}

/// A tent enters: it takes the slot below the bottom of the status, the
/// point of its birth is offered to that slot, and it is tested against its
/// neighbour above.
pub open spec fn entered(s: Sweep, e: Event) -> Result<Sweep, SweepError> {
    let id = e.parent_mountain_id;
    let m = s.mountains[id as int];
    if m.position.is_some() || !m.slope_rising {
        Err(SweepError::IllegalTransition)
    } else {
        let position = s.status.len() as usize;
        let status = s.status.push(id);
        let mountains = s.mountains.update(
            id as int,
            PersistenceMountain { position: Some(position), ..m },
        );
        match logged(s.landscapes, e.value, Some(position), None) {
            Err(x) => Err(x),
            Ok(landscapes) => match probed(
                Sweep { status, mountains, landscapes, ..s },
                id,
                Direction::Above,
            ) {
                Err(x) => Err(x),
                Ok(found) => drained(found),
            },
        }
    }
}

/// A tent turns at its peak: from now on it falls; the peak is offered to its
/// slot, and it is tested against its neighbour below.
pub open spec fn turned(s: Sweep, e: Event) -> Result<Sweep, SweepError> {
    let id = e.parent_mountain_id;
    let m = s.mountains[id as int];
    if m.position.is_none() || !m.slope_rising {
        Err(SweepError::IllegalTransition)
    } else {
        let mountains = s.mountains.update(
            id as int,
            PersistenceMountain { slope_rising: false, ..m },
        );
        match logged(s.landscapes, e.value, m.position, None) {
            Err(x) => Err(x),
            Ok(landscapes) => match probed(
                Sweep { mountains, landscapes, ..s },
                id,
                Direction::Below,
            ) {
                Err(x) => Err(x),
                Ok(found) => drained(found),
            },
        }
    }
}

/// A tent leaves: it must be falling and at the bottom of the status; the
/// point of its death is offered to its slot, and the slot is given up.
pub open spec fn left(s: Sweep, e: Event) -> Result<Sweep, SweepError> {
    let id = e.parent_mountain_id;
    let m = s.mountains[id as int];
    match m.position {
        None => Err(SweepError::DeadMountain),
        Some(position) => {
            if m.slope_rising {
                Err(SweepError::IllegalTransition)
            } else if position + 1 != s.status.len() {
                Err(SweepError::NotAtBottom)
            } else {
                match logged(s.landscapes, e.value, m.position, None) {
                    Err(x) => Err(x),
                    Ok(landscapes) => Ok(
                        Sweep {
                            status: s.status.drop_last(),
                            mountains: s.mountains.update(
                                id as int,
                                PersistenceMountain { position: None, ..m },
                            ),
                            landscapes,
                            ..s
                        },
                    ),
                }
            }
        },
    }
}

/// One event of the main schedule handled.
pub open spec fn handled(s: Sweep, e: Event) -> Result<Sweep, SweepError> {
    match e.event_type {
        EventType::Up => entered(s, e),
        EventType::Down => turned(s, e),
        EventType::Death => left(s, e),
        EventType::Intersection => Err(SweepError::StrayIntersection),
    }
}

/// The sweep before its first event: no tent in the status, `k` empty polylines.
pub open spec fn start(mountains: Seq<PersistenceMountain>, k: usize) -> Sweep {
    Sweep {
        status: Seq::empty(),
        mountains,
        landscapes: Seq::new(k as nat, |i: int| Seq::<(i64, i64)>::empty()),
        weird_q: Seq::empty(),
    }
}

/// The sweep after the first `n` of `events`, or the first invariant that broke.
pub open spec fn swept(mountains: Seq<PersistenceMountain>, events: Seq<Event>, k: usize, n: nat) -> Result<
    Sweep,
    SweepError,
>
    decreases n,
{
    if n == 0 {
        Ok(start(mountains, k))
    } else {
        match swept(mountains, events, k, (n - 1) as nat) {
            Err(x) => Err(x),
            Ok(s) => handled(s, events[n - 1]),
        }
    }
}

/// The polylines of the first `k` landscapes of `bd_pairs`: the proper
/// intervals become tents, the entering, turn and leaving of each tent are
/// taken in rank order, and each is handled as `handled` says.
pub open spec fn generate_spec(bd_pairs: Seq<BirthDeath>, k: usize) -> Result<
    Seq<Seq<(i64, i64)>>,
    SweepError,
> {
    let mountains = mountains_of(bd_pairs);
    let events = sorted(initial_events(mountains));
    match swept(mountains, events, k, events.len()) {
        Err(x) => Err(x),
        Ok(s) => Ok(s.landscapes),
    }
}

/// Whether an outcome `r` with the state `got` is what the model `expected`.
pub open spec fn agrees(r: Result<(), SweepError>, expected: Result<Sweep, SweepError>, got: Sweep) -> bool {
    match r {
        Ok(()) => expected == Ok::<Sweep, SweepError>(got),
        Err(e) => expected == Err::<Sweep, SweepError>(e),
    }
}

/// A well-formed sweep stays so when an intersection is carried out.
pub proof fn lemma_crossed_well_formed(s: Sweep, e: Event)
    requires
        s.well_formed(),
        crossed(s, e).is_ok(),
    ensures
        crossed(s, e).unwrap().well_formed(),
{
    let next = crossed(s, e).unwrap();
    let id1 = e.parent_mountain_id;
    let id2 = e.parent_mountain2_id.unwrap();
    let m1 = s.mountains[id1 as int];
    let m2 = s.mountains[id2 as int];
    if m1.slope_rising != m2.slope_rising {
        let lower_id = if m1.slope_rising {
            id1
        } else {
            id2
        };
        let upper_id = if m1.slope_rising {
            id2
        } else {
            id1
        };
        let upper = s.mountains[upper_id as int].position.unwrap();
        let lower = s.mountains[lower_id as int].position.unwrap();
        assert forall|i: int| 0 <= i < next.mountains.len() implies {
            let m = #[trigger] next.mountains[i];
            &&& is_tent(m)
            &&& m.id == i
            &&& m.position matches Some(p) ==> p < next.status.len() && next.status[p as int] == i
        } by {
            let old_m = s.mountains[i];
            assert(is_tent(old_m));
        }
        assert forall|p: int| 0 <= p < next.status.len() implies {
            let i = #[trigger] next.status[p];
            &&& i < next.mountains.len()
            &&& next.mountains[i as int].position matches Some(q) && q == p
        } by {
            let old_i = s.status[p];
            assert(old_i < s.mountains.len());
        }
        let above = neighbor_crossing(next.status, lower_id, next.mountains, Direction::Above).unwrap();
        let below = neighbor_crossing(next.status, upper_id, next.mountains, Direction::Below).unwrap();
        let q1 = enqueued(s.weird_q, above);
        assert forall|j: int| 0 <= j < next.weird_q.len() implies {
            let e2 = #[trigger] next.weird_q[j];
            &&& e2.parent_mountain_id < next.mountains.len()
            &&& e2.parent_mountain2_id matches Some(i2) ==> i2 < next.mountains.len()
        } by {
            if j < s.weird_q.len() {
                assert(next.weird_q[j] == s.weird_q[j]);
            } else if j < q1.len() {
                assert(next.weird_q[j] == above.unwrap());
                let idx = upper as int - 1;
                assert(next.status[idx] < next.mountains.len());
            } else {
                assert(next.weird_q[j] == below.unwrap());
                let idx = lower as int + 1;
                assert(next.status[idx] < next.mountains.len());
            }
        }
    }
}

struct State {
    status: Vec<usize>,
    mountains: Vec<PersistenceMountain>,
    landscapes: Vec<Vec<(i64, i64)>>,
    weird_q: VecDeque<Event>,
}

impl View for State {
    type V = Sweep;

    closed spec fn view(&self) -> Sweep {
        Sweep {
            status: self.status@,
            mountains: self.mountains@,
            landscapes: polylines(self.landscapes@),
            weird_q: self.weird_q@,
        }
    }
}

/// The intersection of the tent `parent_mountain_id` with its neighbour in
/// the status on the side `direction_to_check`, if it has one.
pub fn find_intersection(
    status: &Vec<usize>,
    parent_mountain_id: usize,
    mountains: &Vec<PersistenceMountain>,
    direction_to_check: &Direction,
) -> (r: Result<Option<Event>, SweepError>)
    requires
        parent_mountain_id < mountains@.len(),
        forall|i: int| 0 <= i < mountains@.len() ==> is_tent(#[trigger] mountains@[i]),
        forall|p: int| 0 <= p < status@.len() ==> (#[trigger] status@[p]) < mountains@.len(),
    ensures
        r == neighbor_crossing(status@, parent_mountain_id, mountains@, *direction_to_check),
{
    let position = match mountains[parent_mountain_id].position {
        None => {
            return Err(SweepError::DeadMountain);
        },
        Some(position) => position,
    };
    let neighbor_index = match direction_to_check {
        Direction::Below => {
            if position >= status.len() {
                return Ok(None);
            }
            position + 1
        },
        Direction::Above => {
            if position == 0 {
                return Ok(None);
            }
            position - 1
        },
    };
    if neighbor_index < status.len() {
        let neighbor = status[neighbor_index];
        match intersects_with_neighbor(&mountains[parent_mountain_id], &mountains[neighbor]) {
            None => Ok(None),
            Some(intersection) => Ok(
                Some(
                    Event {
                        value: intersection,
                        event_type: EventType::Intersection,
                        parent_mountain_id,
                        parent_mountain2_id: Some(neighbor),
                        tie: 0,
                    },
                ),
            ),
        }
    } else {
        Ok(None)
    }
}

impl State {
    /// What `well_formed` says of the model, said of the vectors.
    proof fn lemma_fields(&self)
        requires
            self@.well_formed(),
        ensures
            forall|i: int| 0 <= i < self.mountains@.len() ==> is_tent(#[trigger] self.mountains@[i]),
            forall|p: int|
                0 <= p < self.status@.len() ==> (#[trigger] self.status@[p]) < self.mountains@.len(),
            forall|i: int|
                0 <= i < self.mountains@.len() ==> ((
                #[trigger] self.mountains@[i]).position matches Some(p) ==> p < self.status@.len()
                    && self.status@[p as int] == i),
            self.landscapes@.len() == self@.landscapes.len(),
    {
        let s = self@;
        assert forall|i: int| 0 <= i < self.mountains@.len() implies is_tent(
            #[trigger] self.mountains@[i],
        ) && (self.mountains@[i].position matches Some(p) ==> p < self.status@.len()
            && self.status@[p as int] == i) by {
            assert(is_tent(s.mountains[i]));
        }
        assert forall|p: int| 0 <= p < self.status@.len() implies (#[trigger] self.status@[p])
            < self.mountains@.len() by {
            assert(s.status[p] < s.mountains.len());
        }
    }
}

/// Carries out one intersection.
fn cross_one(state: &mut State, event: &Event) -> (r: Result<(), SweepError>)
    requires
        old(state)@.well_formed(),
        event.parent_mountain_id < old(state)@.mountains.len(),
        event.parent_mountain2_id matches Some(i2) ==> i2 < old(state)@.mountains.len(),
    ensures
        agrees(r, crossed(old(state)@, *event), final(state)@),
        r.is_ok() ==> final(state)@.well_formed(),
        final(state)@.mountains.len() == old(state)@.mountains.len(),
{
    proof {
        state.lemma_fields();
    }
    let id1 = event.parent_mountain_id;
    let id2 = match event.parent_mountain2_id {
        None => {
            return Err(SweepError::MissingPartner);
        },
        Some(id2) => id2,
    };
    let m1 = state.mountains[id1];
    let m2 = state.mountains[id2];
    if m1.slope_rising == m2.slope_rising {
        return Ok(());
    }
    let lower_id = if m1.slope_rising {
        id1
    } else {
        id2
    };
    let upper_id = if m1.slope_rising {
        id2
    } else {
        id1
    };
    let (upper, lower) = match (state.mountains[upper_id].position, state.mountains[lower_id].position) {
        (Some(upper), Some(lower)) => (upper, lower),
        _ => {
            return Err(SweepError::DeadMountain);
        },
    };
    if lower == 0 || upper != lower - 1 {
        return Err(SweepError::NotAdjacent);
    }
    match log_to_landscape(&m1, event, &mut state.landscapes, Some(&m2)) {
        Err(x) => {
            return Err(x);
        },
        Ok(()) => {},
    }
    state.status[upper] = lower_id;
    state.status[lower] = upper_id;
    state.mountains[lower_id].position = Some(upper);
    state.mountains[upper_id].position = Some(lower);
    proof {
        let s = old(state)@;
        let status = s.status.update(upper as int, lower_id).update(lower as int, upper_id);
        let mountains = s.mountains.update(
            lower_id as int,
            PersistenceMountain { position: Some(upper), ..s.mountains[lower_id as int] },
        ).update(
            upper_id as int,
            PersistenceMountain { position: Some(lower), ..s.mountains[upper_id as int] },
        );
        assert(state.status@ == status);
        assert(state.mountains@ == mountains);
        assert forall|i: int| 0 <= i < mountains.len() implies is_tent(#[trigger] mountains[i]) by {
            assert(is_tent(s.mountains[i]));
        }
    }
    let above = match find_intersection(&state.status, lower_id, &state.mountains, &Direction::Above) {
        Err(x) => {
            return Err(x);
        },
        Ok(found) => found,
    };
    if let Some(found) = above {
        state.weird_q.push_back(found);
    }
    let below = match find_intersection(&state.status, upper_id, &state.mountains, &Direction::Below) {
        Err(x) => {
            return Err(x);
        },
        Ok(found) => found,
    };
    if let Some(found) = below {
        state.weird_q.push_back(found);
    }
    proof {
        lemma_crossed_well_formed(old(state)@, *event);
    }
    Ok(())
}

/// Queues the intersection `event` and carries out all that are pending.
fn handle_intersection(state: &mut State, event: Option<Event>) -> (r: Result<(), SweepError>)
    requires
        old(state)@.well_formed(),
        event matches Some(e) ==> (e.parent_mountain_id < old(state)@.mountains.len() && (
        e.parent_mountain2_id matches Some(i2) ==> i2 < old(state)@.mountains.len())),
    ensures
        agrees(
            r,
            drained(Sweep { weird_q: enqueued(old(state)@.weird_q, event), ..old(state)@ }),
            final(state)@,
        ),
        r.is_ok() ==> final(state)@.well_formed() && final(state)@.weird_q.len() == 0,
        final(state)@.mountains.len() == old(state)@.mountains.len(),
{
    if let Some(e) = event {
        state.weird_q.push_back(e);
    }
    let ghost goal = drained(state@);
    while state.weird_q.len() > 0
        invariant
            state@.well_formed(),
            drained(state@) == goal,
            goal == drained(
                Sweep { weird_q: enqueued(old(state)@.weird_q, event), ..old(state)@ },
            ),
            state@.mountains.len() == old(state)@.mountains.len(),
        decreases rising_depth(state@.status, state@.mountains, state@.status.len()), state@.weird_q.len(),
    {
        let ghost before = state@;
        let e = match state.weird_q.pop_front() {
            Some(e) => e,
            None => {
                return Ok(());
            },
        };
        proof {
            let rest = Sweep { weird_q: before.weird_q.skip(1), ..before };
            assert(state@.weird_q =~= before.weird_q.skip(1));
            assert(state@ == rest);
            assert(e == before.weird_q[0]);
            assert forall|j: int| 0 <= j < rest.weird_q.len() implies {
                let e2 = #[trigger] rest.weird_q[j];
                &&& e2.parent_mountain_id < rest.mountains.len()
                &&& e2.parent_mountain2_id matches Some(i2) ==> i2 < rest.mountains.len()
            } by {
                assert(rest.weird_q[j] == before.weird_q[j + 1]);
            }
            if crossed(rest, e).is_ok() {
                lemma_crossed_progress(rest, e);
            }
            assert(drained(before) == match crossed(rest, e) {
                Err(x) => Err(x),
                Ok(next) => drained(next),
            });
        }
        match cross_one(state, &e) {
            Err(x) => {
                return Err(x);
            },
            Ok(()) => {},
        }
    }
    Ok(())
}

fn handle_up(state: &mut State, event: &Event) -> (r: Result<(), SweepError>)
    requires
        old(state)@.well_formed(),
        event.parent_mountain_id < old(state)@.mountains.len(),
    ensures
        agrees(r, entered(old(state)@, *event), final(state)@),
        r.is_ok() ==> final(state)@.well_formed() && final(state)@.weird_q.len() == 0,
        final(state)@.mountains.len() == old(state)@.mountains.len(),
{
    proof {
        state.lemma_fields();
    }
    let parent_mountain_id = event.parent_mountain_id;
    let m = state.mountains[parent_mountain_id];
    if m.position.is_some() || !m.slope_rising {
        return Err(SweepError::IllegalTransition);
    }
    state.status.push(parent_mountain_id);
    let position = state.status.len() - 1;
    state.mountains[parent_mountain_id].position = Some(position);
    let entering = state.mountains[parent_mountain_id];
    match log_to_landscape(&entering, event, &mut state.landscapes, None) {
        Err(x) => {
            return Err(x);
        },
        Ok(()) => {},
    }
    proof {
        let s = old(state)@;
        assert(state.mountains@ == s.mountains.update(
            parent_mountain_id as int,
            PersistenceMountain { position: Some(position), ..m },
        ));
        assert forall|i: int| 0 <= i < state.mountains@.len() implies is_tent(
            #[trigger] state.mountains@[i],
        ) by {
            assert(is_tent(s.mountains[i]));
        }
        assert forall|p: int| 0 <= p < state.status@.len() implies (#[trigger] state.status@[p])
            < state.mountains@.len() by {
            if p < s.status.len() {
                assert(state.status@[p] == s.status[p]);
            }
        }
    }
    let new_event = match find_intersection(
        &state.status,
        parent_mountain_id,
        &state.mountains,
        &Direction::Above,
    ) {
        Err(x) => {
            return Err(x);
        },
        Ok(found) => found,
    };
    proof {
        let s = old(state)@;
        let now = state@;
        assert forall|i: int| 0 <= i < now.mountains.len() implies {
            let m = #[trigger] now.mountains[i];
            &&& is_tent(m)
            &&& m.id == i
            &&& m.position matches Some(p) ==> p < now.status.len() && now.status[p as int] == i
        } by {
            assert(is_tent(s.mountains[i]));
        }
        assert forall|p: int| 0 <= p < now.status.len() implies {
            let i = #[trigger] now.status[p];
            &&& i < now.mountains.len()
            &&& now.mountains[i as int].position matches Some(q) && q == p
        } by {
            if p < s.status.len() {
                assert(now.status[p] == s.status[p]);
            }
        }
        assert forall|j: int| 0 <= j < now.weird_q.len() implies {
            let e = #[trigger] now.weird_q[j];
            &&& e.parent_mountain_id < now.mountains.len()
            &&& e.parent_mountain2_id matches Some(i2) ==> i2 < now.mountains.len()
        } by {
            assert(now.weird_q[j] == s.weird_q[j]);
        }
        assert(now.well_formed());
        if new_event.is_some() {
            let idx = position as int - 1;
            assert(now.status[idx] < now.mountains.len());
        }
    }
    handle_intersection(state, new_event)
}

fn handle_down(state: &mut State, event: &Event) -> (r: Result<(), SweepError>)
    requires
        old(state)@.well_formed(),
        event.parent_mountain_id < old(state)@.mountains.len(),
    ensures
        agrees(r, turned(old(state)@, *event), final(state)@),
        r.is_ok() ==> final(state)@.well_formed() && final(state)@.weird_q.len() == 0,
        final(state)@.mountains.len() == old(state)@.mountains.len(),
{
    proof {
        state.lemma_fields();
    }
    let parent_mountain_id = event.parent_mountain_id;
    let m = state.mountains[parent_mountain_id];
    if m.position.is_none() || !m.slope_rising {
        return Err(SweepError::IllegalTransition);
    }
    state.mountains[parent_mountain_id].slope_rising = false;
    match log_to_landscape(&m, event, &mut state.landscapes, None) {
        Err(x) => {
            return Err(x);
        },
        Ok(()) => {},
    }
    proof {
        let s = old(state)@;
        assert(state.mountains@ == s.mountains.update(
            parent_mountain_id as int,
            PersistenceMountain { slope_rising: false, ..m },
        ));
        assert forall|i: int| 0 <= i < state.mountains@.len() implies is_tent(
            #[trigger] state.mountains@[i],
        ) by {
            assert(is_tent(s.mountains[i]));
        }
    }
    let new_event = match find_intersection(
        &state.status,
        parent_mountain_id,
        &state.mountains,
        &Direction::Below,
    ) {
        Err(x) => {
            return Err(x);
        },
        Ok(found) => found,
    };
    proof {
        let s = old(state)@;
        let now = state@;
        assert forall|i: int| 0 <= i < now.mountains.len() implies {
            let m = #[trigger] now.mountains[i];
            &&& is_tent(m)
            &&& m.id == i
            &&& m.position matches Some(p) ==> p < now.status.len() && now.status[p as int] == i
        } by {
            assert(is_tent(s.mountains[i]));
        }
        assert forall|p: int| 0 <= p < now.status.len() implies {
            let i = #[trigger] now.status[p];
            &&& i < now.mountains.len()
            &&& now.mountains[i as int].position matches Some(q) && q == p
        } by {
            assert(now.status[p] == s.status[p]);
        }
        assert(now.well_formed());
        if new_event.is_some() {
            let idx = m.position.unwrap() as int + 1;
            assert(now.status[idx] < now.mountains.len());
        }
    }
    handle_intersection(state, new_event)
}

fn handle_death(state: &mut State, event: &Event) -> (r: Result<(), SweepError>)
    requires
        old(state)@.well_formed(),
        event.parent_mountain_id < old(state)@.mountains.len(),
    ensures
        agrees(r, left(old(state)@, *event), final(state)@),
        r.is_ok() ==> final(state)@.well_formed() && final(state)@.weird_q.len() == old(
            state,
        )@.weird_q.len(),
        final(state)@.mountains.len() == old(state)@.mountains.len(),
{
    proof {
        state.lemma_fields();
    }
    let parent_mountain_id = event.parent_mountain_id;
    let m = state.mountains[parent_mountain_id];
    let position = match m.position {
        None => {
            return Err(SweepError::DeadMountain);
        },
        Some(position) => position,
    };
    if m.slope_rising {
        return Err(SweepError::IllegalTransition);
    }
    assert(position < state.status@.len()) by {
        assert(old(state)@.mountains[parent_mountain_id as int] == m);
    }
    let size = state.status.len();
    if position + 1 != size {
        return Err(SweepError::NotAtBottom);
    }
    match log_to_landscape(&m, event, &mut state.landscapes, None) {
        Err(x) => {
            return Err(x);
        },
        Ok(()) => {},
    }
    state.status.pop();
    state.mountains[parent_mountain_id].position = None;
    proof {
        let s = old(state)@;
        let now = state@;
        assert(now.status == s.status.drop_last());
        assert(now.mountains == s.mountains.update(
            parent_mountain_id as int,
            PersistenceMountain { position: None, ..m },
        ));
        assert forall|i: int| 0 <= i < now.mountains.len() implies {
            let m = #[trigger] now.mountains[i];
            &&& is_tent(m)
            &&& m.id == i
            &&& m.position matches Some(p) ==> p < now.status.len() && now.status[p as int] == i
        } by {
            assert(is_tent(s.mountains[i]));
        }
        assert forall|p: int| 0 <= p < now.status.len() implies {
            let i = #[trigger] now.status[p];
            &&& i < now.mountains.len()
            &&& now.mountains[i as int].position matches Some(q) && q == p
        } by {
            assert(now.status[p] == s.status[p]);
        }
        assert forall|j: int| 0 <= j < now.weird_q.len() implies {
            let e = #[trigger] now.weird_q[j];
            &&& e.parent_mountain_id < now.mountains.len()
            &&& e.parent_mountain2_id matches Some(i2) ==> i2 < now.mountains.len()
        } by {
            assert(now.weird_q[j] == s.weird_q[j]);
        }
    }
    Ok(())
}

/// Once an invariant broke, the sweep stays broken.
pub proof fn lemma_swept_stays_broken(
    mountains: Seq<PersistenceMountain>,
    events: Seq<Event>,
    k: usize,
    m: nat,
    n: nat,
)
    requires
        m <= n,
        swept(mountains, events, k, m).is_err(),
    ensures
        swept(mountains, events, k, n) == swept(mountains, events, k, m),
    decreases n - m,
{
    if m < n {
        lemma_swept_stays_broken(mountains, events, k, m, (n - 1) as nat);
    }
}

/// The tents of a set of intervals start out well formed.
pub proof fn lemma_start_well_formed(bd_pairs: Seq<BirthDeath>, k: usize)
    requires
        bd_pairs.len() <= usize::MAX,
    ensures
        start(mountains_of(bd_pairs), k).well_formed(),
{
    crate::birthdeath::lemma_proper_pairs(bd_pairs);
    let kept = proper_pairs(bd_pairs);
    let s = start(mountains_of(bd_pairs), k);
    assert forall|i: int| 0 <= i < s.mountains.len() implies {
        let m = #[trigger] s.mountains[i];
        &&& is_tent(m)
        &&& m.id == i
        &&& m.position matches Some(p) ==> p < s.status.len() && s.status[p as int] == i
    } by {
        assert(kept[i].proper());
    }
}

/// Every event of the schedule of a set of tents names one of them.
pub proof fn lemma_schedule_names_tents(mountains: Seq<PersistenceMountain>, j: int)
    requires
        forall|i: int| 0 <= i < mountains.len() ==> (#[trigger] mountains[i]).id == i,
        0 <= j < sorted(initial_events(mountains)).len(),
    ensures
        sorted(initial_events(mountains))[j].parent_mountain_id < mountains.len(),
{
    let unsorted = initial_events(mountains);
    let e = sorted(unsorted)[j];
    assert(sorted(unsorted).contains(e));
    lemma_sorted_contains(unsorted, e);
    let i = choose|i: int| 0 <= i < unsorted.len() && unsorted[i] == e;
    assert(e.parent_mountain_id == mountains[i / 3].id);
}

/// Without proper intervals the sweep returns `k` empty polylines.
pub proof fn lemma_generate_nothing(bd_pairs: Seq<BirthDeath>, k: usize)
    requires
        proper_pairs(bd_pairs).len() == 0,
    ensures
        generate_spec(bd_pairs, k) == Ok::<Seq<Seq<(i64, i64)>>, SweepError>(
            Seq::new(k as nat, |i: int| Seq::<(i64, i64)>::empty()),
        ),
{
    let mountains = mountains_of(bd_pairs);
    assert(initial_events(mountains).len() == 0);
    assert(sorted(initial_events(mountains)).len() == 0);
}

/// Handles one event of the main schedule.
fn handle(state: &mut State, event: &Event) -> (r: Result<(), SweepError>)
    requires
        old(state)@.well_formed(),
        old(state)@.weird_q.len() == 0,
        event.parent_mountain_id < old(state)@.mountains.len(),
    ensures
        agrees(r, handled(old(state)@, *event), final(state)@),
        r.is_ok() ==> final(state)@.well_formed() && final(state)@.weird_q.len() == 0,
        final(state)@.mountains.len() == old(state)@.mountains.len(),
{
    match event.event_type {
        EventType::Up => handle_up(state, event),
        EventType::Down => handle_down(state, event),
        EventType::Death => handle_death(state, event),
        EventType::Intersection => Err(SweepError::StrayIntersection),
    }
}

/// The polylines of the first `k` persistence landscapes of `bd_pairs`, in
/// half grid units; intervals that are not proper are left out.
pub fn generate(bd_pairs: Vec<BirthDeath>, k: usize) -> (landscapes: Vec<Vec<(i64, i64)>>)
    ensures
        generate_spec(bd_pairs@, k) == Ok::<Seq<Seq<(i64, i64)>>, SweepError>(
            polylines(landscapes@),
        ),
        landscapes_right(polylines(landscapes@), mountains_of(bd_pairs@), k),
        landscapes_nested(polylines(landscapes@)),
        proper_pairs(bd_pairs@).len() == 0 ==> forall|j: int|
            0 <= j < k ==> (#[trigger] landscapes@[j])@.len() == 0,
{
    let _ = bd_pairs.len();
    proof {
        lemma_generate_right(bd_pairs@, k);
        lemma_generate_nested_all(bd_pairs@, k);
        if proper_pairs(bd_pairs@).len() == 0 {
            lemma_generate_nothing(bd_pairs@, k);
        }
    }
    let mountains = generate_mountains(&bd_pairs);
    let unsorted = generate_initial_events(&mountains);
    let events = sort(&unsorted);
    let ghost tents = mountains@;
    let mut state = State {
        status: Vec::new(),
        mountains,
        landscapes: empty_landscape(k),
        weird_q: VecDeque::new(),
    };
    proof {
        lemma_start_well_formed(bd_pairs@, k);
        assert(state@ == start(tents, k));
    }
    let mut i: usize = 0;
    while i < events.len()
        invariant
            i <= events.len(),
            tents == mountains_of(bd_pairs@),
            events@ == sorted(initial_events(tents)),
            swept(tents, events@, k, i as nat) == Ok::<Sweep, SweepError>(state@),
            state@.well_formed(),
            state@.mountains.len() == tents.len(),
            state@.weird_q.len() == 0,
            forall|j: int| 0 <= j < tents.len() ==> (#[trigger] tents[j]).id == j,
            generate_spec(bd_pairs@, k).is_ok(),
            landscapes_nested(generate_spec(bd_pairs@, k).unwrap()),
            proper_pairs(bd_pairs@).len() == 0 ==> generate_spec(bd_pairs@, k) == Ok::<
                Seq<Seq<(i64, i64)>>,
                SweepError,
            >(Seq::new(k as nat, |i: int| Seq::<(i64, i64)>::empty())),
        decreases events.len() - i,
    {
        let event = events[i];
        proof {
            lemma_schedule_names_tents(tents, i as int);
        }
        match handle(&mut state, &event) {
            Err(x) => {
                proof {
                    assert(swept(tents, events@, k, (i + 1) as nat) == Err::<Sweep, SweepError>(x));
                    lemma_swept_stays_broken(tents, events@, k, (i + 1) as nat, events@.len());
                }
                return unreached();
            },
            Ok(()) => {},
        }
        i = i + 1;
    }
    proof {
        if proper_pairs(bd_pairs@).len() == 0 {
            assert forall|j: int| 0 <= j < k implies (#[trigger] state.landscapes@[j])@.len()
                == 0 by {
                assert(polylines(state.landscapes@)[j].len() == 0);
            }
        }
    }
    state.landscapes
}

} // verus!
