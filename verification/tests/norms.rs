use fast_pl::birthdeath::BirthDeath;
use fast_pl::persistencelandscape::generate;
use fast_pl::rpls::{
    is_sorted, l2_norm, pairs_to_l2_norm, pairs_to_landscape, LandscapeError, NormError,
    PairsNormError,
};

fn pairs(v: &[(i64, i64)]) -> Vec<BirthDeath> {
    v.iter().map(|&(birth, death)| BirthDeath { birth, death }).collect()
}

#[test]
fn sorted_and_not() {
    assert!(is_sorted::<i32>(&[]));
    assert!(is_sorted(&[7]));
    assert!(is_sorted(&[1, 2, 2, 5]));
    assert!(!is_sorted(&[1, 3, 2]));
    assert!(!is_sorted(&[2, 1]));
    assert!(is_sorted(&[0u128, u128::MAX]));
}

#[test]
fn norm_of_one_tent() {
    // The tent over [0, 2] has area 1; norms come in eighths.
    assert_eq!(l2_norm(&[vec![(0, 0), (2, 2), (4, 0)]]), Ok(8));
}

#[test]
fn norm_of_landscapes() {
    // A tent of area 9 over [0, 6], and under it one of area 1 over [2, 4].
    let landscapes = vec![vec![(0, 0), (6, 6), (12, 0)], vec![(4, 0), (6, 2), (8, 0)], vec![]];
    assert_eq!(l2_norm(&landscapes), Ok(72 + 8));
}

#[test]
fn norm_along_the_floor_and_of_nothing() {
    assert_eq!(l2_norm(&[vec![(0, 0), (2, 2), (4, 0), (10, 0), (12, 2), (14, 0)]]), Ok(16));
    assert_eq!(l2_norm(&[vec![], vec![(3, 0)]]), Ok(0));
    assert_eq!(l2_norm(&[]), Ok(0));
}

#[test]
fn no_norm_of_a_polyline_that_goes_back_or_below_the_floor() {
    assert_eq!(l2_norm(&[vec![(0, 0), (4, 4), (2, 2)]]), Err(NormError::Malformed));
    assert_eq!(l2_norm(&[vec![(0, 0), (2, -2), (4, 0)]]), Err(NormError::Malformed));
}

#[test]
fn no_norm_where_the_areas_grow() {
    let landscapes = vec![vec![(4, 0), (6, 2), (8, 0)], vec![(0, 0), (6, 6), (12, 0)]];
    assert_eq!(l2_norm(&landscapes), Err(NormError::NotDecreasing));
}

#[test]
fn no_norm_that_does_not_fit() {
    let wide = vec![(i64::MIN, i64::MAX), (i64::MAX, i64::MAX)];
    assert_eq!(l2_norm(&[wide.clone()]), Ok((u64::MAX as u128) * (u64::MAX as u128 - 1)));
    assert_eq!(l2_norm(&[wide.clone(), wide]), Err(NormError::Overflow));
    let wider = vec![(i64::MIN, i64::MAX), (0, i64::MAX), (i64::MAX, i64::MAX)];
    assert_eq!(l2_norm(&[wider.clone()]), Ok((u64::MAX as u128) * (u64::MAX as u128 - 1)));
    let twice = vec![
        (i64::MIN, i64::MAX),
        (i64::MAX - 1, i64::MAX),
        (i64::MAX, i64::MAX),
    ];
    assert_eq!(l2_norm(&[twice.clone(), twice]), Err(NormError::Overflow));
}

#[test]
fn landscapes_of_pairs() {
    let with_filter = pairs_to_landscape(pairs(&[(1, 3), (3, 3), (0, 6), (2, 7)]), 4, false);
    let expected = vec![
        vec![(0, 0), (6, 6), (8, 4), (9, 5), (14, 0)],
        vec![(2, 0), (4, 2), (5, 1), (8, 4), (12, 0)],
        vec![(4, 0), (5, 1), (6, 0)],
        vec![],
    ];
    assert_eq!(with_filter, Ok(expected.clone()));
    let without_filter = pairs_to_landscape(pairs(&[(0, 6), (1, 3), (2, 7)]), 4, true);
    assert_eq!(without_filter, Ok(expected));
}

#[test]
fn the_prefilter_can_be_disabled() {
    // With one landscape the prefilter drops (5, 10); see the tests of the prefilter.
    let bd_pairs = pairs(&[(0, 1), (5, 10)]);
    assert_eq!(
        pairs_to_landscape(bd_pairs.clone(), 1, false),
        Ok(vec![vec![(0, 0), (1, 1), (2, 0)]])
    );
    assert_eq!(
        pairs_to_landscape(bd_pairs, 1, true),
        Ok(vec![vec![(0, 0), (1, 1), (2, 0), (10, 0), (15, 5), (20, 0)]])
    );
}

#[test]
fn no_pairs() {
    assert_eq!(pairs_to_landscape(Vec::new(), 2, false), Err(LandscapeError::NoPairs));
    assert_eq!(pairs_to_landscape(pairs(&[(1, 1), (4, 4)]), 2, true), Err(LandscapeError::NoPairs));
    assert_eq!(pairs_to_l2_norm(pairs(&[(7, 7)]), 2, false), Err(PairsNormError::NoPairs));
}

#[test]
fn pairs_of_no_length_only_count_where_others_are() {
    // An interval that runs backward has a length, and is left out by the sweep.
    assert_eq!(pairs_to_landscape(pairs(&[(5, 2)]), 1, true), Ok(vec![vec![]]));
}

#[test]
fn norm_of_pairs() {
    // Areas 9 + 1 under the first landscape of these two tents, 0.25 under the second.
    assert_eq!(pairs_to_l2_norm(pairs(&[(0, 6), (5, 7)]), 2, false), Ok(72 + 8 - 2 + 2));
    assert_eq!(pairs_to_l2_norm(pairs(&[(0, 2)]), 3, true), Ok(8));
}

#[test]
fn norm_of_pairs_that_does_not_fit() {
    let limit = fast_pl::birthdeath::LIMIT;
    let huge = pairs(&[(-limit, limit), (-limit, limit), (-limit, limit), (-limit, limit), (-limit, limit)]);
    assert_eq!(pairs_to_l2_norm(huge, 5, true), Err(PairsNormError::Overflow));
}

#[test]
fn landscapes_have_a_norm_and_their_areas_do_not_grow() {
    let mut seed: u64 = 13;
    let mut next = move || {
        seed = seed.wrapping_mul(6364136223846793005).wrapping_add(1442695040888963407);
        seed >> 33
    };
    for _ in 0..200 {
        let n = 1 + next() % 8;
        let bd_pairs: Vec<BirthDeath> = (0..n)
            .map(|_| BirthDeath { birth: (next() % 12) as i64, death: (next() % 12) as i64 })
            .collect();
        let k = 1 + (next() % 5) as usize;
        let landscapes = generate(bd_pairs, k);
        let areas: Vec<u128> =
            landscapes.iter().map(|line| l2_norm(&[line.clone()]).unwrap()).collect();
        assert!(areas.windows(2).all(|w| w[0] >= w[1]), "{:?}", areas);
        assert_eq!(l2_norm(&landscapes), Ok(areas.iter().sum()));
    }
}
