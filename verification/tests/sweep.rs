use fast_pl::barcode::filter;
use fast_pl::birthdeath::{BirthDeath, LIMIT};
use fast_pl::persistencelandscape::{
    create_mountain, current_segment_end, current_segment_start, empty_landscape,
    find_intersection, generate, generate_initial_events, generate_mountains,
    intersects_with_neighbor, log_checks, log_to_landscape, Direction, Event, EventType,
    PersistenceMountain, PointOrd, SweepError,
};

fn pairs(v: &[(i64, i64)]) -> Vec<BirthDeath> {
    v.iter().map(|&(birth, death)| BirthDeath { birth, death }).collect()
}

/// The height of the tent over `[birth, death]` at the place `t` of the half grid.
fn height(bd: &BirthDeath, t: i64) -> i64 {
    (t - 2 * bd.birth).min(2 * bd.death - t).max(0)
}

/// The `j + 1`-th largest height at `t`, zero where fewer tents stand.
fn kth_height(bd_pairs: &[BirthDeath], j: usize, t: i64) -> i64 {
    let mut heights: Vec<i64> =
        bd_pairs.iter().filter(|bd| bd.birth < bd.death).map(|bd| height(bd, t)).collect();
    heights.sort_unstable_by(|a, b| b.cmp(a));
    heights.get(j).copied().unwrap_or(0)
}

/// The value of a polyline at `t` by linear interpolation, zero outside.
fn value_at(line: &[(i64, i64)], t: i64) -> i64 {
    for w in line.windows(2) {
        let ((x1, y1), (x2, y2)) = (w[0], w[1]);
        if x1 <= t && t <= x2 {
            assert_eq!((y2 - y1) * (t - x1) % (x2 - x1), 0);
            return y1 + (y2 - y1) * (t - x1) / (x2 - x1);
        }
    }
    0
}

/// A small generator of numbers, the same at every run.
fn next(seed: &mut u64) -> u64 {
    *seed = seed.wrapping_mul(6364136223846793005).wrapping_add(1442695040888963407);
    *seed >> 33
}

fn some_pairs(seed: &mut u64, most: u64, range: u64) -> Vec<BirthDeath> {
    let n = 1 + next(seed) % most;
    (0..n)
        .map(|_| BirthDeath {
            birth: (next(seed) % range) as i64,
            death: (next(seed) % range) as i64,
        })
        .collect()
}

#[test]
fn no_intervals_give_empty_polylines() {
    assert_eq!(generate(Vec::new(), 3), vec![vec![], vec![], vec![]]);
}

#[test]
fn no_landscapes_asked_for() {
    assert_eq!(generate(pairs(&[(0, 6), (1, 3)]), 0), Vec::<Vec<(i64, i64)>>::new());
}

#[test]
fn one_tent_in_half_grid_units() {
    // The tent over [1, 4] has its peak at (2.5, 1.5).
    assert_eq!(generate(pairs(&[(1, 4)]), 2), vec![vec![(2, 0), (5, 3), (8, 0)], vec![]]);
}

#[test]
fn intervals_that_are_not_proper_are_left_out() {
    let with_rubbish = pairs(&[
        (3, 3),
        (0, 6),
        (5, 2),
        (i64::MIN, 4),
        (1, 3),
        (0, i64::MAX),
        (2, 7),
        (LIMIT + 1, LIMIT + 2),
    ]);
    assert_eq!(generate(with_rubbish, 4), generate(pairs(&[(0, 6), (1, 3), (2, 7)]), 4));
}

#[test]
fn coordinates_at_the_limit() {
    let landscapes = generate(pairs(&[(-LIMIT, LIMIT)]), 1);
    assert_eq!(landscapes, vec![vec![(-2 * LIMIT, 0), (0, 2 * LIMIT), (2 * LIMIT, 0)]]);
}

#[test]
fn twin_tents() {
    let landscapes = generate(pairs(&[(0, 2), (0, 2), (0, 2)]), 3);
    for line in &landscapes {
        assert_eq!(line, &vec![(0, 0), (2, 2), (4, 0)]);
    }
}

#[test]
fn shared_death_in_any_order() {
    let expected = vec![
        vec![(0, 0), (3, 3), (4, 2), (6, 0)],
        vec![(2, 0), (4, 2), (6, 0)],
    ];
    assert_eq!(generate(pairs(&[(0, 3), (1, 3)]), 2), expected);
    assert_eq!(generate(pairs(&[(1, 3), (0, 3)]), 2), expected);
}

#[test]
fn fewer_landscapes_than_tents() {
    let all = generate(pairs(&[(1, 8), (3, 7), (4, 9), (2, 10)]), 4);
    let two = generate(pairs(&[(1, 8), (3, 7), (4, 9), (2, 10)]), 2);
    assert_eq!(two[..], all[..2]);
}

#[test]
fn polylines_go_rightward_above_the_floor_from_floor_to_floor() {
    let mut seed = 7;
    for _ in 0..300 {
        let bd_pairs = some_pairs(&mut seed, 8, 12);
        let k = 1 + (next(&mut seed) % 5) as usize;
        let landscapes = generate(bd_pairs.clone(), k);
        assert_eq!(landscapes.len(), k);
        for line in &landscapes {
            for w in line.windows(2) {
                assert!(w[0].0 < w[1].0, "{:?}: {:?}", bd_pairs, line);
            }
            assert!(line.iter().all(|p| p.1 >= 0));
            if let (Some(first), Some(last)) = (line.first(), line.last()) {
                assert_eq!(first.1, 0);
                assert_eq!(last.1, 0);
            }
        }
    }
}

#[test]
fn polylines_are_the_landscapes() {
    let mut seed = 11;
    for _ in 0..300 {
        let bd_pairs = some_pairs(&mut seed, 8, 12);
        let k = 1 + (next(&mut seed) % 5) as usize;
        let landscapes = generate(bd_pairs.clone(), k);
        for (j, line) in landscapes.iter().enumerate() {
            for t in -2..30 {
                assert_eq!(
                    value_at(line, t),
                    kth_height(&bd_pairs, j, t),
                    "{:?}, landscape {}, at {}: {:?}",
                    bd_pairs,
                    j + 1,
                    t,
                    line
                );
            }
        }
    }
}

#[test]
fn polylines_are_the_landscapes_between_the_places_of_the_grid() {
    // On a grid three times as fine, in units of that grid.
    let c = 3;
    let mut seed = 17;
    for _ in 0..200 {
        let bd_pairs = some_pairs(&mut seed, 8, 10);
        let k = 1 + (next(&mut seed) % 5) as usize;
        let landscapes = generate(bd_pairs.clone(), k);
        for (j, line) in landscapes.iter().enumerate() {
            for u in -3..70 {
                let mut heights: Vec<i64> = bd_pairs
                    .iter()
                    .filter(|bd| bd.birth < bd.death)
                    .map(|bd| (u - c * 2 * bd.birth).min(c * 2 * bd.death - u).max(0))
                    .collect();
                heights.sort_unstable_by(|a, b| b.cmp(a));
                let expected = heights.get(j).copied().unwrap_or(0);
                let mut value = 0;
                for w in line.windows(2) {
                    let ((x1, y1), (x2, y2)) = (w[0], w[1]);
                    if c * x1 <= u && u <= c * x2 {
                        value = c * y1 + (y2 - y1) / (x2 - x1) * (u - c * x1);
                    }
                }
                assert_eq!(value, expected, "{:?}, landscape {}, at {}/{}", bd_pairs, j + 1, u, c);
            }
        }
    }
}

#[test]
fn no_landscape_is_lower_than_the_next() {
    let landscapes = generate(pairs(&[(0, 6), (1, 3), (2, 7), (2, 4), (5, 9)]), 4);
    for j in 0..3 {
        for t in 0..20 {
            assert!(value_at(&landscapes[j], t) >= value_at(&landscapes[j + 1], t));
        }
    }
}

#[test]
fn order_of_the_intervals_does_not_change_the_landscapes() {
    let a = generate(pairs(&[(0, 6), (1, 3), (2, 7), (4, 9)]), 3);
    let b = generate(pairs(&[(4, 9), (2, 7), (0, 6), (1, 3)]), 3);
    for j in 0..3 {
        for t in 0..20 {
            assert_eq!(value_at(&a[j], t), value_at(&b[j], t));
        }
    }
}

#[test]
fn prefilter_keeps_the_landscapes_where_it_drops_nothing() {
    let mut seed = 3;
    for _ in 0..200 {
        let k = 1 + (next(&mut seed) % 6) as usize;
        let bd_pairs = some_pairs(&mut seed, k as u64, 12);
        let unfiltered = generate(bd_pairs.clone(), k);
        let filtered = generate(filter(bd_pairs.clone(), k), k);
        for j in 0..k {
            for t in -2..30 {
                assert_eq!(value_at(&unfiltered[j], t), value_at(&filtered[j], t));
            }
        }
    }
}

#[test]
fn prefilter_twice_is_prefilter_once_where_it_drops_nothing() {
    let mut seed = 5;
    for _ in 0..200 {
        let k = 1 + (next(&mut seed) % 6) as usize;
        let bd_pairs = some_pairs(&mut seed, k as u64, 12);
        let once = filter(bd_pairs, k);
        let twice = filter(once.clone(), k);
        assert_eq!(once, twice);
    }
}

#[test]
fn mountain_of_an_interval() {
    let m = create_mountain(1, 4, 7);
    assert_eq!(m.birth, PointOrd { x: 2, y: 0 });
    assert_eq!(m.middle, PointOrd { x: 5, y: 3 });
    assert_eq!(m.death, PointOrd { x: 8, y: 0 });
    assert_eq!(m.id, 7);
    assert_eq!(m.position, None);
    assert!(m.slope_rising);
}

#[test]
fn mountains_are_numbered_in_input_order() {
    let mountains = generate_mountains(&pairs(&[(0, 6), (3, 3), (1, 3)]));
    assert_eq!(mountains.len(), 2);
    assert_eq!((mountains[0].id, mountains[0].death.x), (0, 12));
    assert_eq!((mountains[1].id, mountains[1].birth.x), (1, 2));
}

#[test]
fn three_events_for_each_mountain() {
    let mountains = generate_mountains(&pairs(&[(0, 6), (1, 3)]));
    let events = generate_initial_events(&mountains);
    let summary: Vec<(EventType, i64, i64, usize, i64)> = events
        .iter()
        .map(|e| (e.event_type, e.value.x, e.value.y, e.parent_mountain_id, e.tie))
        .collect();
    assert_eq!(
        summary,
        vec![
            (EventType::Up, 0, 0, 0, 0),
            (EventType::Down, 6, 6, 0, 0),
            (EventType::Death, 12, 0, 0, 0),
            (EventType::Up, 2, 0, 1, 0),
            (EventType::Down, 4, 2, 1, 0),
            (EventType::Death, 6, 0, 1, 2),
        ]
    );
    assert!(events.iter().all(|e| e.parent_mountain2_id.is_none()));
}

#[test]
fn segment_of_a_rising_and_of_a_falling_mountain() {
    let mut m = create_mountain(1, 4, 0);
    assert_eq!(current_segment_start(&m), PointOrd { x: 2, y: 0 });
    assert_eq!(current_segment_end(&m), PointOrd { x: 5, y: 3 });
    m.slope_rising = false;
    assert_eq!(current_segment_start(&m), PointOrd { x: 5, y: 3 });
    assert_eq!(current_segment_end(&m), PointOrd { x: 8, y: 0 });
}

fn falling(birth: i64, death: i64, id: usize) -> PersistenceMountain {
    let mut m = create_mountain(birth, death, id);
    m.slope_rising = false;
    m
}

#[test]
fn intersection_of_a_rising_and_a_falling_edge() {
    // The falling edge of [0, 6] meets the rising edge of [2, 7] at (4, 2).
    let a = falling(0, 6, 0);
    let b = create_mountain(2, 7, 1);
    assert_eq!(intersects_with_neighbor(&a, &b), Some(PointOrd { x: 8, y: 4 }));
    assert_eq!(intersects_with_neighbor(&b, &a), Some(PointOrd { x: 8, y: 4 }));
}

#[test]
fn edges_that_touch_at_a_peak_intersect() {
    // The falling edge of [0, 3] meets the rising edge of [1, 3] at its peak.
    let a = falling(0, 3, 0);
    let b = create_mountain(1, 3, 1);
    assert_eq!(intersects_with_neighbor(&a, &b), Some(PointOrd { x: 4, y: 2 }));
}

#[test]
fn edges_that_do_not_meet() {
    // Both rise.
    assert_eq!(intersects_with_neighbor(&create_mountain(0, 6, 0), &create_mountain(2, 7, 1)), None);
    // Both fall.
    assert_eq!(intersects_with_neighbor(&falling(0, 6, 0), &falling(2, 7, 1)), None);
    // The rising tent turns before it reaches the falling edge.
    assert_eq!(intersects_with_neighbor(&falling(0, 10, 0), &create_mountain(2, 4, 1)), None);
    // The rising tent was born before the falling one.
    assert_eq!(intersects_with_neighbor(&falling(3, 5, 0), &create_mountain(2, 9, 1)), None);
}

#[test]
fn neighbours_in_the_status() {
    let mut upper = falling(0, 6, 0);
    upper.position = Some(0);
    let mut lower = create_mountain(2, 7, 1);
    lower.position = Some(1);
    let mountains = vec![upper, lower, create_mountain(8, 9, 2)];
    let status = vec![0, 1];
    let found = find_intersection(&status, 1, &mountains, &Direction::Above).unwrap().unwrap();
    assert_eq!(found.value, PointOrd { x: 8, y: 4 });
    assert_eq!(found.event_type, EventType::Intersection);
    assert_eq!((found.parent_mountain_id, found.parent_mountain2_id), (1, Some(0)));
    let found = find_intersection(&status, 0, &mountains, &Direction::Below).unwrap().unwrap();
    assert_eq!((found.parent_mountain_id, found.parent_mountain2_id), (0, Some(1)));
    assert!(find_intersection(&status, 0, &mountains, &Direction::Above).unwrap().is_none());
    assert!(find_intersection(&status, 1, &mountains, &Direction::Below).unwrap().is_none());
    assert_eq!(
        find_intersection(&status, 2, &mountains, &Direction::Above).unwrap_err(),
        SweepError::DeadMountain
    );
}

#[test]
fn empty_polylines() {
    assert_eq!(empty_landscape(2), vec![vec![], vec![]]);
    assert!(empty_landscape(0).is_empty());
}

#[test]
fn checks_before_a_point_is_added() {
    let landscapes = vec![vec![(0, 0), (4, 4)], vec![(2, 0), (3, 1)], vec![]];
    // to the right of the last point
    assert_eq!(log_checks(&landscapes, PointOrd { x: 6, y: 2 }, 0), Ok(true));
    // the last point again
    assert_eq!(log_checks(&landscapes, PointOrd { x: 4, y: 4 }, 0), Ok(false));
    // to the left of the last point, or above it
    assert_eq!(log_checks(&landscapes, PointOrd { x: 3, y: 3 }, 0), Err(SweepError::OutOfOrder));
    assert_eq!(log_checks(&landscapes, PointOrd { x: 4, y: 2 }, 0), Err(SweepError::OutOfOrder));
    // on the floor, above a polyline that is off the floor
    assert_eq!(log_checks(&landscapes, PointOrd { x: 8, y: 0 }, 0), Err(SweepError::UnsettledBelow));
    // on the floor, above an empty polyline
    assert_eq!(log_checks(&landscapes, PointOrd { x: 4, y: 0 }, 1), Ok(true));
    // first point of a polyline
    assert_eq!(log_checks(&landscapes, PointOrd { x: 9, y: 0 }, 2), Ok(true));
    // on the floor, into an empty polyline above one that is not
    let gap = vec![vec![], vec![(2, 0)]];
    assert_eq!(log_checks(&gap, PointOrd { x: 3, y: 0 }, 0), Err(SweepError::EmptySlot));
    // on the floor, above a polyline that ends on the floor
    let settled = vec![vec![(0, 0), (4, 4)], vec![(2, 0), (8, 0)]];
    assert_eq!(log_checks(&settled, PointOrd { x: 8, y: 0 }, 0), Ok(true));
    // on the floor, above a polyline that ends where this one does
    let same = vec![vec![(0, 0), (4, 4)], vec![(2, 0), (4, 4)]];
    assert_eq!(log_checks(&same, PointOrd { x: 8, y: 0 }, 0), Ok(true));
}

#[test]
fn points_go_to_the_polylines_of_the_slots() {
    let event = Event {
        value: PointOrd { x: 8, y: 4 },
        event_type: EventType::Intersection,
        parent_mountain_id: 0,
        parent_mountain2_id: Some(1),
        tie: 0,
    };
    let mut upper = falling(0, 6, 0);
    upper.position = Some(0);
    let mut lower = create_mountain(2, 7, 1);
    lower.position = Some(1);
    let mut landscapes = vec![vec![(0, 0), (6, 6)], vec![(4, 0)]];
    assert_eq!(log_to_landscape(&upper, &event, &mut landscapes, Some(&lower)), Ok(()));
    assert_eq!(landscapes, vec![vec![(0, 0), (6, 6), (8, 4)], vec![(4, 0), (8, 4)]]);
    // Offered again, the point is not added again.
    assert_eq!(log_to_landscape(&upper, &event, &mut landscapes, None), Ok(()));
    assert_eq!(landscapes[0], vec![(0, 0), (6, 6), (8, 4)]);
    // Below the polylines nothing is recorded.
    lower.position = Some(5);
    assert_eq!(log_to_landscape(&lower, &event, &mut landscapes, None), Ok(()));
    assert_eq!(landscapes.len(), 2);
    // A tent out of the status has no slot.
    lower.position = None;
    assert_eq!(
        log_to_landscape(&lower, &event, &mut landscapes, None),
        Err(SweepError::DeadMountain)
    );
}
