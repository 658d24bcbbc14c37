//! The prefilter: drops intervals before the sweep, keeping those that come to
//! the front of the birth-ordered queue of live tents.

use crate::birthdeath::{proper_pairs, retain_proper, BirthDeath};
use crate::prefilter_laws::{lemma_filter_keeps_all, lemma_filter_only_drops};
use crate::schedule::{lemma_sorted_contains, sort, sorted, Rank, Ranked};
use std::collections::VecDeque;
use vstd::prelude::*;

verus! {

/// What happens to a tent at an event of the prefilter.
#[derive(Debug, Clone, Copy, PartialEq, Eq, Structural)]
pub enum EventType {
    Birth,
    Death,
}

/// The birth or the death of the tent `id`, at coordinate `value`.
#[derive(Debug, Clone, Copy)]
pub struct Event {
    pub event_type: EventType,
    pub value: i64,
    pub id: usize,
}

/// A tent as the prefilter sees it.
#[derive(Debug, Clone, Copy)]
pub struct Node {
    pub birth: i64,
    pub death: i64,
    pub id: usize,
    /// The tent's interval has been emitted.
    pub in_top_k: bool,
    pub is_dead: bool,
}

impl Ranked for Event {
    /// By coordinate; at one coordinate births come before deaths, and tents of
    /// lower id first.
    open spec fn rank(&self) -> Rank {
        Rank {
            x: self.value as int,
            kind: if self.event_type == EventType::Birth {
                0
            } else {
                1
            },
            tie: 0,
            id: self.id as int,
        }
    }

    /// Whether `self` is handled before `other`.
    fn before(&self, other: &Self) -> (b: bool) {
        if self.value != other.value {
            self.value < other.value
        } else if self.event_type != other.event_type {
            self.event_type == EventType::Birth
        } else {
            self.id < other.id
        }
    }
}

/// A node as it is before any event: neither emitted nor dead.
pub open spec fn new_node(birth: i64, death: i64, i: usize) -> Node {
    Node { birth, death, id: i, in_top_k: false, is_dead: false }
}

/// The node of the tent `i` over `[birth, death]`.
pub fn create_event(birth: i64, death: i64, i: usize) -> (n: Node)
    ensures
        n == new_node(birth, death, i),
{
    Node { birth, death, id: i, in_top_k: false, is_dead: false }
}

/// One fresh node for each proper interval, numbered in input order.
pub open spec fn nodes_of(bd_pairs: Seq<BirthDeath>) -> Seq<Node> {
    let kept = proper_pairs(bd_pairs);
    Seq::new(kept.len(), |i: int| new_node(kept[i].birth, kept[i].death, i as usize))
}

/// The nodes of the proper intervals among `bd_pairs`.
pub fn generate_events(bd_pairs: &Vec<BirthDeath>) -> (nodes: Vec<Node>)
    ensures
        nodes@ == nodes_of(bd_pairs@),
{
    let kept = retain_proper(bd_pairs);
    let mut nodes: Vec<Node> = Vec::new();
    let mut i: usize = 0;
    while i < kept.len()
        invariant
            i <= kept.len(),
            nodes@ == Seq::new(
                i as nat,
                |j: int| new_node(kept@[j].birth, kept@[j].death, j as usize),
            ),
        decreases kept.len() - i,
    {
        nodes.push(create_event(kept[i].birth, kept[i].death, i));
        i = i + 1;
        assert(nodes@ =~= Seq::new(
            i as nat,
            |j: int| new_node(kept@[j].birth, kept@[j].death, j as usize),
        ));
    }
    nodes
}

/// The interval of a node.
pub open spec fn interval_of(n: Node) -> BirthDeath {
    BirthDeath { birth: n.birth, death: n.death }
}

/// The interval of a node.
pub fn node_to_birthdeath(n: &Node) -> (bd: BirthDeath)
    ensures
        bd == interval_of(*n),
{
    BirthDeath { birth: n.birth, death: n.death }
}

/// The birth and the death of every node, unsorted.
pub open spec fn events_of(nodes: Seq<Node>) -> Seq<Event> {
    Seq::new(
        2 * nodes.len(),
        |j: int|
            if j % 2 == 0 {
                Event { event_type: EventType::Birth, value: nodes[j / 2].birth, id: (j / 2) as usize }
            } else {
                Event { event_type: EventType::Death, value: nodes[j / 2].death, id: (j / 2) as usize }
            },
    )
}

/// What the prefilter holds between two events.
pub struct Filtering {
    pub nodes: Seq<Node>,
    /// The tents born so far and not yet skipped, oldest first.
    pub sweep_status: Seq<usize>,
    /// How many tents were emitted at their birth.
    pub in_top: nat,
    /// Promotions owed for emitted tents that died.
    pub waiting: nat,
    pub filtered_output: Seq<BirthDeath>,
}

/// The prefilter before its first event: nothing queued, emitted or owed.
pub open spec fn start(nodes: Seq<Node>) -> Filtering {
    Filtering {
        nodes,
        sweep_status: Seq::empty(),
        in_top: 0,
        waiting: 0,
        filtered_output: Seq::empty(),
    }
}

/// A birth: the tent is emitted while fewer than `k` were, and joins the queue.
pub open spec fn born(f: Filtering, id: usize, k: usize) -> Filtering {
    let n = f.nodes[id as int];
    if f.in_top < k {
        Filtering {
            nodes: f.nodes.update(id as int, Node { in_top_k: true, ..n }),
            sweep_status: f.sweep_status.push(id),
            in_top: f.in_top + 1,
            filtered_output: f.filtered_output.push(interval_of(n)),
            ..f
        }
    } else {
        Filtering { sweep_status: f.sweep_status.push(id), ..f }
    }
}

/// The queue without the dead tents at its front.
pub open spec fn skip_dead(queue: Seq<usize>, nodes: Seq<Node>) -> Seq<usize>
    decreases queue.len(),
{
    if queue.len() > 0 && nodes[queue[0] as int].is_dead {
        skip_dead(queue.skip(1), nodes)
    } else {
        queue
    }
}

/// Settles the promotions owed: the dead leave the front of the queue; if a
/// live tent is then at the front it is emitted, unless it was before, and
/// nothing is owed any more; if none is, the debt stays.
pub open spec fn promoted(f: Filtering) -> Filtering {
    if f.waiting == 0 {
        f
    } else {
        let queue = skip_dead(f.sweep_status, f.nodes);
        if queue.len() == 0 {
            Filtering { sweep_status: queue, ..f }
        } else {
            let front = queue[0];
            let n = f.nodes[front as int];
            if n.in_top_k {
                Filtering { sweep_status: queue, waiting: 0, ..f }
            } else {
                Filtering {
                    nodes: f.nodes.update(front as int, Node { in_top_k: true, ..n }),
                    sweep_status: queue,
                    waiting: 0,
                    filtered_output: f.filtered_output.push(interval_of(n)),
                    ..f
                }
            }
        }
    }
}

/// A death: the tent is marked; if it had been emitted a promotion is owed;
/// then the promotions owed are settled.
pub open spec fn died(f: Filtering, id: usize) -> Filtering {
    let n = f.nodes[id as int];
    let owed: nat = if n.in_top_k {
        1
    } else {
        0
    };
    promoted(
        Filtering {
            nodes: f.nodes.update(id as int, Node { is_dead: true, ..n }),
            waiting: f.waiting + owed,
            ..f
        },
    )
}

/// One event handled.
pub open spec fn step(f: Filtering, e: Event, k: usize) -> Filtering {
    match e.event_type {
        EventType::Birth => born(f, e.id, k),
        EventType::Death => died(f, e.id),
    }
}

/// The state after the first `n` of `events`.
pub open spec fn after(nodes: Seq<Node>, events: Seq<Event>, k: usize, n: nat) -> Filtering
    decreases n,
{
    if n == 0 {
        start(nodes)
    } else {
        step(after(nodes, events, k, (n - 1) as nat), events[n - 1], k)
    }
}

/// The intervals that the prefilter emits, in the order in which it emits them:
/// the proper intervals are numbered, their births and deaths are taken in rank
/// order, and each is handled by `born` or `died`.
pub open spec fn filter_spec(bd_pairs: Seq<BirthDeath>, k: usize) -> Seq<BirthDeath> {
    let nodes = nodes_of(bd_pairs);
    let events = sorted(events_of(nodes));
    after(nodes, events, k, events.len()).filtered_output
}

struct State {
    nodes: Vec<Node>,
    sweep_status: VecDeque<usize>,
    in_top: usize,
    waiting: usize,
    filtered_output: Vec<BirthDeath>,
}

impl View for State {
    type V = Filtering;

    closed spec fn view(&self) -> Filtering {
        Filtering {
            nodes: self.nodes@,
            sweep_status: self.sweep_status@,
            in_top: self.in_top as nat,
            waiting: self.waiting as nat,
            filtered_output: self.filtered_output@,
        }
    }
}

impl State {
    /// Every id in the queue names a node.
    spec fn well_formed(&self) -> bool {
        forall|i: int|
            0 <= i < self.sweep_status@.len() ==> (#[trigger] self.sweep_status@[i])
                < self.nodes@.len()
    }
}

/// Without the dead at its front the queue holds what it held, and a live tent at its front.
pub proof fn lemma_skip_dead(queue: Seq<usize>, nodes: Seq<Node>)
    ensures
        skip_dead(queue, nodes).len() <= queue.len(),
        forall|i: int|
            0 <= i < skip_dead(queue, nodes).len() ==> queue.contains(
                #[trigger] skip_dead(queue, nodes)[i],
            ),
        skip_dead(queue, nodes).len() > 0 ==> !nodes[skip_dead(queue, nodes)[0] as int].is_dead,
    decreases queue.len(),
{
    if queue.len() > 0 && nodes[queue[0] as int].is_dead {
        lemma_skip_dead(queue.skip(1), nodes);
        assert forall|i: int| 0 <= i < skip_dead(queue, nodes).len() implies queue.contains(
            #[trigger] skip_dead(queue, nodes)[i],
        ) by {
            let e = skip_dead(queue.skip(1), nodes)[i];
            let j = choose|j: int| 0 <= j < queue.skip(1).len() && queue.skip(1)[j] == e;
            assert(queue[j + 1] == e);
        }
    } else {
        assert forall|i: int| 0 <= i < queue.len() implies queue.contains(#[trigger] queue[i]) by {}
    }
}

fn make_schedule(nodes: &Vec<Node>) -> (events: Vec<Event>)
    ensures
        events@ == sorted(events_of(nodes@)),
        forall|i: int| 0 <= i < events@.len() ==> (#[trigger] events@[i]).id < nodes@.len(),
{
    let mut unsorted: Vec<Event> = Vec::new();
    let mut i: usize = 0;
    while i < nodes.len()
        invariant
            i <= nodes.len(),
            unsorted@ == events_of(nodes@.take(i as int)),
        decreases nodes.len() - i,
    {
        let n = nodes[i];
        unsorted.push(Event { event_type: EventType::Birth, value: n.birth, id: i });
        unsorted.push(Event { event_type: EventType::Death, value: n.death, id: i });
        i = i + 1;
        assert(unsorted@ =~= events_of(nodes@.take(i as int)));
    }
    proof {
        assert(nodes@.take(nodes@.len() as int) == nodes@);
    }
    let events = sort(&unsorted);
    proof {
        assert forall|i: int| 0 <= i < events@.len() implies (#[trigger] events@[i]).id
            < nodes@.len() by {
            let e = events@[i];
            assert(events@.contains(e));
            lemma_sorted_contains(unsorted@, e);
            let j = choose|j: int| 0 <= j < unsorted@.len() && unsorted@[j] == e;
            assert(e.id == j / 2);
        }
    }
    events
}

fn settle(st: &mut State)
    requires
        old(st).well_formed(),
    ensures
        final(st)@ == promoted(old(st)@),
        final(st).well_formed(),
        final(st).nodes@.len() == old(st).nodes@.len(),
{
    let ghost count = st.nodes@.len();
    let ghost goal = promoted(st@);
    proof {
        lemma_skip_dead(st.sweep_status@, st.nodes@);
    }
    while st.waiting > 0
        invariant
            st.well_formed(),
            st.nodes@.len() == count,
            promoted(st@) == goal,
        ensures
            st@ == goal,
            st.well_formed(),
            st.nodes@.len() == count,
        decreases st.waiting,
    {
        let ghost entry = st@;
        while st.sweep_status.len() > 0 && st.nodes[st.sweep_status[0]].is_dead
            invariant
                st.well_formed(),
                st.nodes@.len() == count,
                skip_dead(st.sweep_status@, st.nodes@) == skip_dead(
                    entry.sweep_status,
                    entry.nodes,
                ),
                st@ == (Filtering { sweep_status: st.sweep_status@, ..entry }),
            decreases st.sweep_status@.len(),
        {
            let ghost before = st.sweep_status@;
            st.sweep_status.pop_front();
            proof {
                assert(st.sweep_status@ =~= before.skip(1));
                assert forall|i: int| 0 <= i < st.sweep_status@.len() implies (
                #[trigger] st.sweep_status@[i]) < st.nodes@.len() by {
                    assert(st.sweep_status@[i] == before[i + 1]);
                }
            }
        }
        if st.sweep_status.len() == 0 {
            break ;
        }
        let front = st.sweep_status[0];
        if !st.nodes[front].in_top_k {
            let n = st.nodes[front];
            st.nodes[front] = Node { in_top_k: true, ..n };
            st.filtered_output.push(node_to_birthdeath(&n));
        }
        st.waiting = st.waiting - 1;
        proof {
            lemma_skip_dead(st.sweep_status@, st.nodes@);
        }
    }
}

fn handle_birth(st: &mut State, id: usize, k: usize)
    requires
        old(st).well_formed(),
        id < old(st)@.nodes.len(),
        old(st)@.in_top <= k,
    ensures
        final(st)@ == born(old(st)@, id, k),
        final(st).well_formed(),
        final(st)@.in_top <= k,
        final(st)@.waiting == old(st)@.waiting,
        final(st)@.nodes.len() == old(st)@.nodes.len(),
{
    if st.in_top < k {
        st.in_top = st.in_top + 1;
        let n = st.nodes[id];
        st.filtered_output.push(node_to_birthdeath(&n));
        st.nodes[id] = Node { in_top_k: true, ..n };
    }
    let ghost before = st.sweep_status@;
    st.sweep_status.push_back(id);
    proof {
        assert forall|i: int| 0 <= i < st.sweep_status@.len() implies (
        #[trigger] st.sweep_status@[i]) < st.nodes@.len() by {
            if i < before.len() {
                assert(st.sweep_status@[i] == before[i]);
            }
        }
    }
}

fn handle_death(st: &mut State, id: usize)
    requires
        old(st).well_formed(),
        id < old(st)@.nodes.len(),
        old(st)@.waiting < usize::MAX,
    ensures
        final(st)@ == died(old(st)@, id),
        final(st).well_formed(),
        final(st)@.in_top == old(st)@.in_top,
        final(st)@.waiting <= old(st)@.waiting + 1,
        final(st)@.nodes.len() == old(st)@.nodes.len(),
{
    let n = st.nodes[id];
    st.nodes[id] = Node { is_dead: true, ..n };
    if n.in_top_k {
        st.waiting = st.waiting + 1;
    }
    settle(st);
}

/// Keeps the intervals that the prefilter surfaces for the first `k`
/// landscapes, in the order in which they surface.
pub fn filter(bd_pairs: Vec<BirthDeath>, k: usize) -> (filtered_output: Vec<BirthDeath>)
    ensures
        filtered_output@ == filter_spec(bd_pairs@, k),
        filtered_output@.to_multiset().subset_of(proper_pairs(bd_pairs@).to_multiset()),
        proper_pairs(bd_pairs@).len() <= k ==> filtered_output@.to_multiset() =~= proper_pairs(
            bd_pairs@,
        ).to_multiset(),
{
    let _ = bd_pairs.len();
    proof {
        lemma_filter_only_drops(bd_pairs@, k);
        if proper_pairs(bd_pairs@).len() <= k {
            lemma_filter_keeps_all(bd_pairs@, k);
        }
    }
    let nodes = generate_events(&bd_pairs);
    let events = make_schedule(&nodes);
    let ghost nodes0 = nodes@;
    let mut st = State {
        nodes,
        sweep_status: VecDeque::new(),
        in_top: 0,
        waiting: 0,
        filtered_output: Vec::new(),
    };
    let mut i: usize = 0;
    while i < events.len()
        invariant
            i <= events.len(),
            st@ == after(nodes0, events@, k, i as nat),
            st.well_formed(),
            st@.nodes.len() == nodes0.len(),
            st@.in_top <= k,
            st@.waiting <= i,
            forall|j: int| 0 <= j < events@.len() ==> (#[trigger] events@[j]).id < nodes0.len(),
        decreases events.len() - i,
    {
        let e = events[i];
        match e.event_type {
            EventType::Birth => handle_birth(&mut st, e.id, k),
            EventType::Death => handle_death(&mut st, e.id),
        }
        i = i + 1;
    }
    st.filtered_output
}

} // verus!
