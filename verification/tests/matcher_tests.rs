use track_match::coord::Coord;
use track_match::matcher::match_coords;

fn track(points: &[(i64, i64)]) -> Vec<Coord> {
    points.iter().map(|&(lat, lon)| Coord { lat, lon }).collect()
}

fn naive(a: &[Coord], b: &[Coord], tolerance: u64) -> Vec<(usize, usize)> {
    let mut found = Vec::new();
    for (i, p) in a.iter().enumerate() {
        for (j, q) in b.iter().enumerate() {
            let dlat = (p.lat as i128 - q.lat as i128).unsigned_abs();
            let dlon = (p.lon as i128 - q.lon as i128).unsigned_abs();
            if dlat <= tolerance as u128 && dlon <= tolerance as u128 {
                found.push((i, j));
            }
        }
    }
    found
}

#[test]
fn two_tracks_that_share_their_last_two_points() {
    let t1 = track(&[(0, 0), (1, 1), (2, 2)]);
    let t2 = track(&[(5, 5), (1, 1), (2, 2)]);
    assert_eq!(match_coords(&t1, &t2, 0), vec![(1, 1), (2, 2)]);
}

#[test]
fn empty_track_on_either_side_gives_no_match() {
    let t = track(&[(1, 1), (2, 2)]);
    let none: Vec<Coord> = Vec::new();
    assert_eq!(match_coords(&none, &t, 0), vec![]);
    assert_eq!(match_coords(&t, &none, 0), vec![]);
    assert_eq!(match_coords(&none, &none, 0), vec![]);
}

#[test]
fn tracks_with_no_common_point_give_no_match() {
    let a = track(&[(0, 0), (1, 1)]);
    let b = track(&[(0, 1), (1, 0), (2, 2)]);
    assert!(match_coords(&a, &b, 0).is_empty());
}

#[test]
fn a_point_visited_twice_matches_twice() {
    let a = track(&[(7, 7), (3, 3), (7, 7)]);
    let b = track(&[(7, 7), (7, 7)]);
    assert_eq!(match_coords(&a, &b, 0), vec![(0, 0), (0, 1), (2, 0), (2, 1)]);
}

#[test]
fn pairs_come_in_walk_order() {
    let a = track(&[(1, 1), (2, 2), (3, 3)]);
    let b = track(&[(3, 3), (2, 2), (1, 1)]);
    assert_eq!(match_coords(&a, &b, 0), vec![(0, 2), (1, 1), (2, 0)]);
}

#[test]
fn latitude_and_longitude_must_both_agree() {
    let a = track(&[(1, 2)]);
    let b = track(&[(1, 3), (0, 2), (2, 1), (1, 2)]);
    assert_eq!(match_coords(&a, &b, 0), vec![(0, 3)]);
}

#[test]
fn tolerance_widens_the_match() {
    let a = track(&[(100, 100)]);
    let b = track(&[(103, 98), (104, 100), (100, 96), (97, 103)]);
    assert_eq!(match_coords(&a, &b, 0), vec![]);
    assert_eq!(match_coords(&a, &b, 3), vec![(0, 0), (0, 3)]);
    assert_eq!(match_coords(&a, &b, 4), vec![(0, 0), (0, 1), (0, 2), (0, 3)]);
}

#[test]
fn extreme_coordinates_do_not_overflow() {
    let a = track(&[(i64::MIN, i64::MAX)]);
    let b = track(&[(i64::MAX, i64::MIN), (i64::MIN, i64::MAX)]);
    assert_eq!(match_coords(&a, &b, 0), vec![(0, 1)]);
    assert_eq!(match_coords(&a, &b, u64::MAX - 1), vec![(0, 1)]);
    assert_eq!(match_coords(&a, &b, u64::MAX), vec![(0, 0), (0, 1)]);
}

#[test]
fn same_place_as_is_exact_at_tolerance_zero() {
    let p = Coord { lat: 451234567, lon: -731234567 };
    assert!(p.same_place_as(&Coord { lat: 451234567, lon: -731234567 }, 0));
    assert!(!p.same_place_as(&Coord { lat: 451234568, lon: -731234567 }, 0));
    assert!(p.same_place_as(&Coord { lat: 451234568, lon: -731234566 }, 1));
}

#[test]
fn match_count_equals_the_cross_product_count() {
    let a = track(&[(0, 0), (1, 1), (0, 0), (4, 4), (1, 1)]);
    let b = track(&[(1, 1), (9, 9), (0, 0), (1, 1)]);
    for tolerance in [0u64, 1, 3, 10] {
        let found = match_coords(&a, &b, tolerance);
        assert_eq!(found, naive(&a, &b, tolerance));
    }
    assert_eq!(match_coords(&a, &b, 0).len(), 6);
}

#[test]
fn match_is_empty_exactly_when_nothing_is_shared() {
    let a = track(&[(0, 0), (2, 2)]);
    let apart = track(&[(1, 1), (3, 3)]);
    let touching = track(&[(1, 1), (2, 2)]);
    assert!(match_coords(&a, &apart, 0).is_empty());
    assert!(!match_coords(&a, &touching, 0).is_empty());
}

#[test]
fn matching_the_other_way_round_exchanges_the_components() {
    let a = track(&[(0, 0), (1, 1), (2, 2), (1, 1)]);
    let b = track(&[(1, 1), (5, 5), (2, 2)]);
    let ab = match_coords(&a, &b, 0);
    let ba = match_coords(&b, &a, 0);
    let mut flipped: Vec<(usize, usize)> = ba.iter().map(|&(j, i)| (i, j)).collect();
    let mut sorted = ab.clone();
    sorted.sort();
    flipped.sort();
    assert_eq!(sorted, flipped);
    assert_eq!(ab, vec![(1, 0), (2, 2), (3, 0)]);
    assert_eq!(ba, vec![(0, 1), (0, 3), (2, 2)]);
}
