use fast_pl::barcode::{
    create_event, filter, generate_events, node_to_birthdeath, Event, EventType,
};
use fast_pl::birthdeath::{retain_proper, BirthDeath, LIMIT};
use fast_pl::schedule::{sort, Ranked};

fn pairs(v: &[(i64, i64)]) -> Vec<BirthDeath> {
    v.iter().map(|&(birth, death)| BirthDeath { birth, death }).collect()
}

#[test]
fn filter_keeps_first_k_births() {
    let out = filter(pairs(&[(0, 6), (1, 3), (2, 7)]), 4);
    assert_eq!(out, pairs(&[(0, 6), (1, 3), (2, 7)]));
}

#[test]
fn filter_emits_in_order_of_birth() {
    let out = filter(pairs(&[(2, 7), (0, 6), (1, 3)]), 4);
    assert_eq!(out, pairs(&[(0, 6), (1, 3), (2, 7)]));
}

#[test]
fn filter_promotes_oldest_live_tent() {
    // One landscape: (1, 3) lies under (0, 10); (2, 20) takes over when (0, 10) dies.
    let out = filter(pairs(&[(0, 10), (1, 3), (2, 20)]), 1);
    assert_eq!(out, pairs(&[(0, 10), (2, 20)]));
}

#[test]
fn filter_promotes_one_tent_for_each_death() {
    let out = filter(pairs(&[(0, 10), (1, 12), (2, 20)]), 1);
    assert_eq!(out, pairs(&[(0, 10), (1, 12), (2, 20)]));
}

#[test]
fn filter_emits_no_tent_twice() {
    let out = filter(pairs(&[(0, 4), (1, 5), (2, 6), (3, 7)]), 2);
    assert_eq!(out, pairs(&[(0, 4), (1, 5), (2, 6), (3, 7)]));
}

#[test]
fn filter_at_a_shared_coordinate_takes_births_first() {
    // (3, 5) is born as (1, 3) dies: it is in the queue when the promotion is due.
    let out = filter(pairs(&[(1, 3), (3, 5)]), 1);
    assert_eq!(out, pairs(&[(1, 3), (3, 5)]));
}

#[test]
fn filter_owes_a_promotion_while_no_tent_lives() {
    // (5, 10) is born after the only emitted tent died, and is promoted at
    // the next death only; that is its own, and so it is dropped.
    let out = filter(pairs(&[(0, 1), (5, 10)]), 1);
    assert_eq!(out, pairs(&[(0, 1)]));
    // (6, 20) lives at that death, and is promoted.
    let out = filter(pairs(&[(0, 1), (5, 10), (6, 20)]), 1);
    assert_eq!(out, pairs(&[(0, 1), (6, 20)]));
}

#[test]
fn filter_twice_may_drop_more() {
    let once = filter(pairs(&[(0, 1), (5, 10), (6, 20)]), 1);
    assert_eq!(once, pairs(&[(0, 1), (6, 20)]));
    assert_eq!(filter(once, 1), pairs(&[(0, 1)]));
}

#[test]
fn filter_looks_at_the_front_of_the_queue_only() {
    // (0, 100) stays at the front, so that (2, 80) is never promoted.
    let out = filter(pairs(&[(0, 100), (1, 5), (2, 80)]), 2);
    assert_eq!(out, pairs(&[(0, 100), (1, 5)]));
}

#[test]
fn filter_drops_intervals_that_are_not_proper() {
    let out = filter(pairs(&[(3, 3), (0, 6), (5, 2), (0, LIMIT + 1), (1, 3)]), 4);
    assert_eq!(out, pairs(&[(0, 6), (1, 3)]));
}

#[test]
fn filter_of_nothing() {
    assert_eq!(filter(Vec::new(), 3), Vec::new());
    assert_eq!(filter(pairs(&[(0, 6)]), 0), Vec::new());
}

#[test]
fn proper_intervals() {
    assert!(BirthDeath { birth: 0, death: 1 }.is_proper());
    assert!(BirthDeath { birth: -LIMIT, death: LIMIT }.is_proper());
    assert!(!BirthDeath { birth: 1, death: 1 }.is_proper());
    assert!(!BirthDeath { birth: 2, death: 1 }.is_proper());
    assert!(!BirthDeath { birth: 0, death: LIMIT + 1 }.is_proper());
    assert!(!BirthDeath { birth: -LIMIT - 1, death: 0 }.is_proper());
    assert!(BirthDeath { birth: 2, death: 1 }.is_finite());
    assert!(!BirthDeath { birth: i64::MIN, death: 1 }.is_finite());
    assert_eq!(retain_proper(&pairs(&[(1, 1), (0, 2), (3, 1), (4, 5)])), pairs(&[(0, 2), (4, 5)]));
}

#[test]
fn nodes_of_intervals() {
    let n = create_event(2, 9, 4);
    assert_eq!((n.birth, n.death, n.id, n.in_top_k, n.is_dead), (2, 9, 4, false, false));
    assert_eq!(node_to_birthdeath(&n), BirthDeath { birth: 2, death: 9 });
    let nodes = generate_events(&pairs(&[(0, 6), (3, 3), (1, 3)]));
    assert_eq!(nodes.len(), 2);
    assert_eq!((nodes[1].birth, nodes[1].death, nodes[1].id), (1, 3, 1));
}

#[test]
fn events_are_sorted_by_coordinate_kind_and_tent() {
    let event = |event_type, value, id| Event { event_type, value, id };
    let unsorted = vec![
        event(EventType::Death, 3, 0),
        event(EventType::Birth, 3, 2),
        event(EventType::Birth, 1, 1),
        event(EventType::Birth, 3, 1),
        event(EventType::Death, 2, 5),
        event(EventType::Birth, 0, 9),
    ];
    let sorted: Vec<(EventType, i64, usize)> =
        sort(&unsorted).iter().map(|e| (e.event_type, e.value, e.id)).collect();
    assert_eq!(
        sorted,
        vec![
            (EventType::Birth, 0, 9),
            (EventType::Birth, 1, 1),
            (EventType::Death, 2, 5),
            (EventType::Birth, 3, 1),
            (EventType::Birth, 3, 2),
            (EventType::Death, 3, 0),
        ]
    );
    assert!(unsorted[1].before(&unsorted[0]));
    assert!(!unsorted[0].before(&unsorted[1]));
    assert!(!unsorted[0].before(&unsorted[0]));
}
