//! What the prefilter keeps: never an interval that it was not given, never
//! one twice, and all of them where there are no more than landscapes are
//! asked for.

use crate::barcode::{
    after, born, died, events_of, filter_spec, interval_of, lemma_skip_dead, nodes_of, promoted,
    skip_dead, start, Event, EventType, Filtering, Node,
};
use crate::birthdeath::{lemma_proper_pairs, proper_pairs, BirthDeath};
use crate::levels::value_at;
use crate::persistencelandscape::generate_spec;
use crate::schedule::{lemma_sorted_contains, lemma_sorted_no_duplicates, sorted};
use crate::tally::lemma_generate_any_order;
use vstd::prelude::*;

verus! {

/// The intervals of the nodes that were emitted, in the order of the nodes.
pub open spec fn marked(nodes: Seq<Node>) -> Seq<BirthDeath>
    decreases nodes.len(),
{
    if nodes.len() == 0 {
        Seq::empty()
    } else if nodes.last().in_top_k {
        marked(nodes.drop_last()).push(interval_of(nodes.last()))
    } else {
        marked(nodes.drop_last())
    }
}

/// The intervals of all the nodes.
pub open spec fn intervals(nodes: Seq<Node>) -> Seq<BirthDeath> {
    Seq::new(nodes.len(), |i: int| interval_of(nodes[i]))
}

/// The emitted intervals are among the intervals of the nodes, each no more
/// often; they are fewer while a node is not emitted, and all of them when
/// every node is.
pub proof fn lemma_marked(nodes: Seq<Node>)
    ensures
        marked(nodes).to_multiset().subset_of(intervals(nodes).to_multiset()),
        marked(nodes).len() <= nodes.len(),
        (exists|i: int| 0 <= i < nodes.len() && !(#[trigger] nodes[i]).in_top_k) ==> marked(
            nodes,
        ).len() < nodes.len(),
        (forall|i: int| 0 <= i < nodes.len() ==> (#[trigger] nodes[i]).in_top_k) ==> marked(nodes)
            =~= intervals(nodes),
    decreases nodes.len(),
{
    if nodes.len() > 0 {
        let front = nodes.drop_last();
        let x = interval_of(nodes.last());
        lemma_marked(front);
        assert(intervals(nodes) =~= intervals(front).push(x));
        intervals(front).to_multiset_ensures();
        marked(front).to_multiset_ensures();
        if exists|i: int| 0 <= i < nodes.len() && !(#[trigger] nodes[i]).in_top_k {
            let i = choose|i: int| 0 <= i < nodes.len() && !(#[trigger] nodes[i]).in_top_k;
            if i < front.len() {
                assert(!front[i].in_top_k);
            }
        }
        if forall|i: int| 0 <= i < nodes.len() ==> (#[trigger] nodes[i]).in_top_k {
            assert forall|i: int| 0 <= i < front.len() implies (#[trigger] front[i]).in_top_k by {
                assert(nodes[i].in_top_k);
            }
            assert(nodes[nodes.len() - 1].in_top_k);
        }
    } else {
        assert(marked(nodes).to_multiset().len() == 0) by {
            marked(nodes).to_multiset_ensures();
        }
    }
}

/// When a node that was not emitted is, its interval joins the emitted ones.
pub proof fn lemma_mark(nodes: Seq<Node>, i: int)
    requires
        0 <= i < nodes.len(),
        !nodes[i].in_top_k,
    ensures
        marked(nodes.update(i, Node { in_top_k: true, ..nodes[i] })).to_multiset() =~= marked(
            nodes,
        ).to_multiset().insert(interval_of(nodes[i])),
        marked(nodes.update(i, Node { in_top_k: true, ..nodes[i] })).len() == marked(nodes).len()
            + 1,
    decreases nodes.len(),
{
    let after = nodes.update(i, Node { in_top_k: true, ..nodes[i] });
    let front = nodes.drop_last();
    marked(front).to_multiset_ensures();
    if i == nodes.len() - 1 {
        assert(after.drop_last() =~= front);
    } else {
        lemma_mark(front, i);
        assert(after.drop_last() =~= front.update(i, Node { in_top_k: true, ..nodes[i] }));
        assert(after.last() == nodes.last());
        marked(after.drop_last()).to_multiset_ensures();
    }
}

/// What does not touch whether nodes were emitted, nor their intervals, does
/// not touch the emitted intervals.
pub proof fn lemma_marked_same(a: Seq<Node>, b: Seq<Node>)
    requires
        a.len() == b.len(),
        forall|i: int|
            0 <= i < a.len() ==> (#[trigger] a[i]).in_top_k == b[i].in_top_k && interval_of(a[i])
                == interval_of(b[i]),
    ensures
        marked(a) == marked(b),
    decreases a.len(),
{
    if a.len() > 0 {
        assert(a[a.len() - 1].in_top_k == b[b.len() - 1].in_top_k);
        assert forall|i: int| 0 <= i < a.drop_last().len() implies (
        #[trigger] a.drop_last()[i]).in_top_k == b.drop_last()[i].in_top_k && interval_of(
            a.drop_last()[i],
        ) == interval_of(b.drop_last()[i]) by {
            assert(a[i].in_top_k == b[i].in_top_k);
        }
        lemma_marked_same(a.drop_last(), b.drop_last());
    }
}

/// The birth of the node `i`.
pub open spec fn birth_of(nodes: Seq<Node>, i: int) -> Event {
    Event { event_type: EventType::Birth, value: nodes[i].birth, id: i as usize }
}

/// The birth of the node `i` is among the first `n` events.
pub open spec fn born_by(nodes: Seq<Node>, events: Seq<Event>, n: int, i: int) -> bool {
    exists|j: int| 0 <= j < n && j < events.len() && #[trigger] events[j] == birth_of(nodes, i)
}

/// A schedule of the births and deaths of fresh nodes without repetitions,
/// with the birth of every node.
pub open spec fn regular(nodes: Seq<Node>, events: Seq<Event>) -> bool {
    &&& nodes.len() <= usize::MAX
    &&& forall|i: int| 0 <= i < nodes.len() ==> !(#[trigger] nodes[i]).in_top_k
    &&& events.no_duplicates()
    &&& forall|j: int|
        0 <= j < events.len() ==> (#[trigger] events[j]).id < nodes.len() && (events[j].event_type
            == EventType::Birth ==> events[j] == birth_of(nodes, events[j].id as int))
    &&& forall|i: int| 0 <= i < nodes.len() ==> events.contains(#[trigger] birth_of(nodes, i))
}

/// The sorted births and deaths of numbered nodes are a regular schedule.
pub proof fn lemma_timetable_regular(nodes: Seq<Node>)
    requires
        nodes.len() <= usize::MAX,
        forall|i: int| 0 <= i < nodes.len() ==> !(#[trigger] nodes[i]).in_top_k,
    ensures
        regular(nodes, sorted(events_of(nodes))),
{
    let unsorted = events_of(nodes);
    let events = sorted(unsorted);
    assert(unsorted.no_duplicates()) by {
        assert forall|i: int, j: int|
            0 <= i < unsorted.len() && 0 <= j < unsorted.len() && i != j implies unsorted[i]
            != unsorted[j] by {}
    }
    lemma_sorted_no_duplicates(unsorted);
    assert forall|j: int| 0 <= j < events.len() implies (#[trigger] events[j]).id < nodes.len() && (
    events[j].event_type == EventType::Birth ==> events[j] == birth_of(
        nodes,
        events[j].id as int,
    )) by {
        let e = events[j];
        assert(events.contains(e));
        lemma_sorted_contains(unsorted, e);
        let i = choose|i: int| 0 <= i < unsorted.len() && unsorted[i] == e;
        assert(e.id == i / 2);
    }
    assert forall|i: int| 0 <= i < nodes.len() implies events.contains(
        #[trigger] birth_of(nodes, i),
    ) by {
        assert(unsorted[2 * i] == birth_of(nodes, i));
        assert(unsorted.contains(birth_of(nodes, i)));
        lemma_sorted_contains(unsorted, birth_of(nodes, i));
    }
}

/// What holds of the prefilter after the first `n` events: it has the nodes
/// that it was given; the queue holds nodes; the intervals that it emitted
/// are those of the emitted nodes; only nodes that were born are emitted or
/// queued; no more were emitted at birth than were emitted; and where there
/// are no more nodes than landscapes are asked for, every node that was born
/// was emitted.
pub open spec fn kept_right(
    f: Filtering,
    nodes: Seq<Node>,
    events: Seq<Event>,
    n: int,
    k: usize,
) -> bool {
    &&& f.nodes.len() == nodes.len()
    &&& forall|i: int|
        0 <= i < nodes.len() ==> interval_of(#[trigger] f.nodes[i]) == interval_of(nodes[i])
    &&& forall|q: int| 0 <= q < f.sweep_status.len() ==> (#[trigger] f.sweep_status[q]) < nodes.len()
    &&& f.filtered_output.to_multiset() =~= marked(f.nodes).to_multiset()
    &&& forall|i: int|
        0 <= i < nodes.len() && (#[trigger] f.nodes[i]).in_top_k ==> born_by(nodes, events, n, i)
    &&& forall|q: int|
        0 <= q < f.sweep_status.len() ==> born_by(
            nodes,
            events,
            n,
            #[trigger] f.sweep_status[q] as int,
        )
    &&& f.in_top <= marked(f.nodes).len()
    &&& nodes.len() <= k ==> forall|j: int|
        0 <= j < n && j < events.len() && (#[trigger] events[j]).event_type == EventType::Birth
            ==> f.nodes[events[j].id as int].in_top_k
}

/// What was born by an event was born by the next.
proof fn lemma_born_by_later(nodes: Seq<Node>, events: Seq<Event>, n: int, i: int)
    requires
        born_by(nodes, events, n, i),
    ensures
        born_by(nodes, events, n + 1, i),
{
    let j = choose|j: int| 0 <= j < n && j < events.len() && #[trigger] events[j] == birth_of(nodes, i);
    assert(events[j] == birth_of(nodes, i));
}

/// A birth keeps the prefilter right.
pub proof fn lemma_born_kept(f: Filtering, nodes: Seq<Node>, events: Seq<Event>, n: int, k: usize)
    requires
        regular(nodes, events),
        0 <= n < events.len(),
        events[n].event_type == EventType::Birth,
        kept_right(f, nodes, events, n, k),
    ensures
        kept_right(born(f, events[n].id, k), nodes, events, n + 1, k),
{
    let id = events[n].id;
    let next = born(f, id, k);
    let node = f.nodes[id as int];
    assert(events[n] == birth_of(nodes, id as int));
    // The node was not born before, and so is neither emitted nor queued.
    assert(!born_by(nodes, events, n, id as int)) by {
        if born_by(nodes, events, n, id as int) {
            let j = choose|j: int|
                0 <= j < n && j < events.len() && #[trigger] events[j] == birth_of(nodes, id as int);
            assert(events[j] == events[n]);
        }
    }
    assert(!node.in_top_k);
    assert forall|i: int| 0 <= i < nodes.len() && (#[trigger] next.nodes[i]).in_top_k implies born_by(
        nodes,
        events,
        n + 1,
        i,
    ) by {
        if i == id {
            assert(events[n] == birth_of(nodes, i));
        } else {
            assert(f.nodes[i].in_top_k);
            lemma_born_by_later(nodes, events, n, i);
        }
    }
    assert forall|q: int| 0 <= q < next.sweep_status.len() implies (#[trigger] next.sweep_status[q])
        < nodes.len() && born_by(nodes, events, n + 1, next.sweep_status[q] as int) by {
        if q < f.sweep_status.len() {
            assert(next.sweep_status[q] == f.sweep_status[q]);
            lemma_born_by_later(nodes, events, n, f.sweep_status[q] as int);
        } else {
            assert(events[n] == birth_of(nodes, id as int));
        }
    }
    lemma_marked(f.nodes);
    if f.in_top < k {
        lemma_mark(f.nodes, id as int);
        f.filtered_output.to_multiset_ensures();
    } else {
        assert(nodes.len() > k);
    }
    assert forall|i: int| 0 <= i < nodes.len() implies interval_of(#[trigger] next.nodes[i])
        == interval_of(nodes[i]) by {
        assert(interval_of(f.nodes[i]) == interval_of(nodes[i]));
    }
    if nodes.len() <= k {
        assert forall|j: int|
            0 <= j < n + 1 && j < events.len() && (#[trigger] events[j]).event_type
                == EventType::Birth implies next.nodes[events[j].id as int].in_top_k by {
            if j < n {
                assert(f.nodes[events[j].id as int].in_top_k);
            }
        }
    }
}

/// Settling the promotions owed keeps the prefilter right.
pub proof fn lemma_promoted_kept(
    f: Filtering,
    nodes: Seq<Node>,
    events: Seq<Event>,
    n: int,
    k: usize,
)
    requires
        regular(nodes, events),
        0 <= n <= events.len(),
        kept_right(f, nodes, events, n, k),
    ensures
        kept_right(promoted(f), nodes, events, n, k),
{
    let next = promoted(f);
    if f.waiting > 0 {
        let queue = skip_dead(f.sweep_status, f.nodes);
        lemma_skip_dead(f.sweep_status, f.nodes);
        assert forall|q: int| 0 <= q < queue.len() implies (#[trigger] queue[q]) < nodes.len()
            && born_by(nodes, events, n, queue[q] as int) by {
            let x = queue[q];
            assert(f.sweep_status.contains(x));
            let at = choose|at: int| 0 <= at < f.sweep_status.len() && f.sweep_status[at] == x;
            assert(f.sweep_status[at] < nodes.len());
        }
        if queue.len() > 0 {
            let front = queue[0];
            let node = f.nodes[front as int];
            if !node.in_top_k {
                lemma_mark(f.nodes, front as int);
                f.filtered_output.to_multiset_ensures();
                assert forall|i: int|
                    0 <= i < nodes.len() && (#[trigger] next.nodes[i]).in_top_k implies born_by(
                    nodes,
                    events,
                    n,
                    i,
                ) by {
                    if i != front {
                        assert(f.nodes[i].in_top_k);
                    }
                }
                assert forall|i: int| 0 <= i < nodes.len() implies interval_of(
                    #[trigger] next.nodes[i],
                ) == interval_of(nodes[i]) by {
                    assert(interval_of(f.nodes[i]) == interval_of(nodes[i]));
                }
                if nodes.len() <= k {
                    assert forall|j: int|
                        0 <= j < n && j < events.len() && (#[trigger] events[j]).event_type
                            == EventType::Birth implies next.nodes[events[j].id as int].in_top_k by {
                        assert(f.nodes[events[j].id as int].in_top_k);
                    }
                }
            }
        }
    }
}

/// A death keeps the prefilter right.
pub proof fn lemma_died_kept(f: Filtering, nodes: Seq<Node>, events: Seq<Event>, n: int, k: usize)
    requires
        regular(nodes, events),
        0 <= n < events.len(),
        events[n].event_type == EventType::Death,
        kept_right(f, nodes, events, n, k),
    ensures
        kept_right(died(f, events[n].id), nodes, events, n + 1, k),
{
    let id = events[n].id;
    let node = f.nodes[id as int];
    let owed: nat = if node.in_top_k {
        1
    } else {
        0
    };
    let marked_dead = Filtering {
        nodes: f.nodes.update(id as int, Node { is_dead: true, ..node }),
        waiting: f.waiting + owed,
        ..f
    };
    lemma_marked_same(f.nodes, marked_dead.nodes);
    assert(kept_right(marked_dead, nodes, events, n + 1, k)) by {
        assert forall|i: int| 0 <= i < nodes.len() implies interval_of(
            #[trigger] marked_dead.nodes[i],
        ) == interval_of(nodes[i]) by {
            assert(interval_of(f.nodes[i]) == interval_of(nodes[i]));
        }
        assert forall|i: int|
            0 <= i < nodes.len() && (#[trigger] marked_dead.nodes[i]).in_top_k implies born_by(
            nodes,
            events,
            n + 1,
            i,
        ) by {
            assert(f.nodes[i].in_top_k);
            lemma_born_by_later(nodes, events, n, i);
        }
        assert forall|q: int| 0 <= q < marked_dead.sweep_status.len() implies born_by(
            nodes,
            events,
            n + 1,
            #[trigger] marked_dead.sweep_status[q] as int,
        ) by {
            lemma_born_by_later(nodes, events, n, f.sweep_status[q] as int);
        }
        if nodes.len() <= k {
            assert forall|j: int|
                0 <= j < n + 1 && j < events.len() && (#[trigger] events[j]).event_type
                    == EventType::Birth implies marked_dead.nodes[events[j].id as int].in_top_k by {
                assert(j < n);
                assert(f.nodes[events[j].id as int].in_top_k);
            }
        }
    }
    lemma_promoted_kept(marked_dead, nodes, events, n + 1, k);
}

/// The prefilter is right after any number of events.
pub proof fn lemma_after_kept(nodes: Seq<Node>, events: Seq<Event>, k: usize, n: nat)
    requires
        regular(nodes, events),
        n <= events.len(),
    ensures
        kept_right(after(nodes, events, k, n), nodes, events, n as int, k),
    decreases n,
{
    if n == 0 {
        let f = start(nodes);
        lemma_start_unmarked(nodes);
        assert(marked(nodes) =~= f.filtered_output);
        assert(kept_right(f, nodes, events, 0, k));
    } else {
        lemma_after_kept(nodes, events, k, (n - 1) as nat);
        let f = after(nodes, events, k, (n - 1) as nat);
        match events[n - 1].event_type {
            EventType::Birth => lemma_born_kept(f, nodes, events, n - 1, k),
            EventType::Death => lemma_died_kept(f, nodes, events, n - 1, k),
        }
    }
}

/// Of fresh nodes none is emitted.
proof fn lemma_start_unmarked(nodes: Seq<Node>)
    requires
        forall|i: int| 0 <= i < nodes.len() ==> !(#[trigger] nodes[i]).in_top_k,
    ensures
        marked(nodes).len() == 0,
    decreases nodes.len(),
{
    if nodes.len() > 0 {
        assert(!nodes[nodes.len() - 1].in_top_k);
        assert forall|i: int| 0 <= i < nodes.drop_last().len() implies !(
        #[trigger] nodes.drop_last()[i]).in_top_k by {
            assert(!nodes[i].in_top_k);
        }
        lemma_start_unmarked(nodes.drop_last());
    }
}

/// The prefilter only drops intervals: every interval that it emits is a
/// proper interval that it was given, and it emits none more often than it
/// was given it.
pub proof fn lemma_filter_only_drops(bd_pairs: Seq<BirthDeath>, k: usize)
    requires
        bd_pairs.len() <= usize::MAX,
    ensures
        filter_spec(bd_pairs, k).to_multiset().subset_of(proper_pairs(bd_pairs).to_multiset()),
        forall|i: int|
            0 <= i < filter_spec(bd_pairs, k).len() ==> (#[trigger] filter_spec(
                bd_pairs,
                k,
            )[i]).proper(),
{
    let nodes = nodes_of(bd_pairs);
    let events = sorted(events_of(nodes));
    lemma_proper_pairs(bd_pairs);
    lemma_timetable_regular(nodes);
    lemma_after_kept(nodes, events, k, events.len());
    let f = after(nodes, events, k, events.len());
    lemma_marked(f.nodes);
    assert(intervals(f.nodes) =~= proper_pairs(bd_pairs)) by {
        assert forall|i: int| 0 <= i < nodes.len() implies #[trigger] intervals(f.nodes)[i]
            == proper_pairs(bd_pairs)[i] by {
            assert(interval_of(f.nodes[i]) == interval_of(nodes[i]));
        }
    }
    let out = filter_spec(bd_pairs, k);
    assert forall|i: int| 0 <= i < out.len() implies (#[trigger] out[i]).proper() by {
        out.to_multiset_ensures();
        proper_pairs(bd_pairs).to_multiset_ensures();
        assert(out.contains(out[i]));
        assert(out.to_multiset().count(out[i]) > 0);
        assert(proper_pairs(bd_pairs).to_multiset().count(out[i]) > 0);
        assert(proper_pairs(bd_pairs).contains(out[i]));
    }
}

/// Where there are no more proper intervals than landscapes are asked for,
/// the prefilter drops none: it emits the proper intervals that it was
/// given, each as often as it was given it.
pub proof fn lemma_filter_keeps_all(bd_pairs: Seq<BirthDeath>, k: usize)
    requires
        bd_pairs.len() <= usize::MAX,
        proper_pairs(bd_pairs).len() <= k,
    ensures
        filter_spec(bd_pairs, k).to_multiset() =~= proper_pairs(bd_pairs).to_multiset(),
{
    let nodes = nodes_of(bd_pairs);
    let events = sorted(events_of(nodes));
    lemma_proper_pairs(bd_pairs);
    lemma_timetable_regular(nodes);
    lemma_after_kept(nodes, events, k, events.len());
    let f = after(nodes, events, k, events.len());
    assert forall|i: int| 0 <= i < f.nodes.len() implies (#[trigger] f.nodes[i]).in_top_k by {
        assert(events.contains(birth_of(nodes, i)));
        let j = choose|j: int| 0 <= j < events.len() && events[j] == birth_of(nodes, i);
        assert(events[j].event_type == EventType::Birth);
        assert(f.nodes[events[j].id as int].in_top_k);
    }
    lemma_marked(f.nodes);
    assert(intervals(f.nodes) =~= proper_pairs(bd_pairs)) by {
        assert forall|i: int| 0 <= i < nodes.len() implies #[trigger] intervals(f.nodes)[i]
            == proper_pairs(bd_pairs)[i] by {
            assert(interval_of(f.nodes[i]) == interval_of(nodes[i]));
        }
    }
}

/// Where there are no more proper intervals than landscapes are asked for,
/// the prefilter keeps the landscapes: over every place the polylines that
/// the sweep returns for the intervals past the prefilter have the values of
/// those that it returns for all of them.
pub proof fn lemma_filter_keeps_landscapes(bd_pairs: Seq<BirthDeath>, k: usize, j: int, t: int)
    requires
        bd_pairs.len() <= usize::MAX,
        proper_pairs(bd_pairs).len() <= k,
        0 <= j < k,
    ensures
        filter_spec(bd_pairs, k).len() <= k,
        proper_pairs(filter_spec(bd_pairs, k)) == filter_spec(bd_pairs, k),
        value_at(generate_spec(filter_spec(bd_pairs, k), k).unwrap()[j], t) == value_at(
            generate_spec(bd_pairs, k).unwrap()[j],
            t,
        ),
{
    let out = filter_spec(bd_pairs, k);
    lemma_filter_only_drops(bd_pairs, k);
    lemma_filter_keeps_all(bd_pairs, k);
    lemma_proper_pairs(bd_pairs);
    lemma_proper_pairs(out);
    out.to_multiset_ensures();
    proper_pairs(bd_pairs).to_multiset_ensures();
    lemma_generate_any_order(out, bd_pairs, k, j, t);
}

/// Where there are no more proper intervals than landscapes are asked for,
/// the prefilter twice keeps the landscapes of the prefilter once.
pub proof fn lemma_filter_twice_keeps_landscapes(
    bd_pairs: Seq<BirthDeath>,
    k: usize,
    j: int,
    t: int,
)
    requires
        bd_pairs.len() <= usize::MAX,
        proper_pairs(bd_pairs).len() <= k,
        0 <= j < k,
    ensures
        value_at(generate_spec(filter_spec(filter_spec(bd_pairs, k), k), k).unwrap()[j], t)
            == value_at(generate_spec(filter_spec(bd_pairs, k), k).unwrap()[j], t),
{
    lemma_filter_keeps_landscapes(bd_pairs, k, j, t);
    lemma_filter_keeps_landscapes(filter_spec(bd_pairs, k), k, j, t);
}

} // verus!
