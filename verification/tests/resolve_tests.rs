use track_match::coord::Coord;
use track_match::error::MatchError;
use track_match::resolve::indexes_to_coords;
use track_match::source::{CoordinateSource, Track};

fn track(points: &[(i64, i64)]) -> Vec<Coord> {
    points.iter().map(|&(lat, lon)| Coord { lat, lon }).collect()
}

fn source() -> CoordinateSource {
    let mut source = CoordinateSource::new();
    source.add(Track { id: "short".to_string(), coords: track(&[(0, 0), (1, 1), (2, 2)]) });
    source.add(Track {
        id: "long".to_string(),
        coords: track(&[(5, 5), (1, 1), (2, 2), (8, 8), (9, 9)]),
    });
    source
}

#[test]
fn pairs_are_turned_into_the_positions_they_stand_for() {
    let coords = indexes_to_coords(&source(), "short", "long", &vec![(1, 1), (2, 2), (0, 4)]).unwrap();
    let expected = vec![
        (Coord { lat: 1, lon: 1 }, Coord { lat: 1, lon: 1 }),
        (Coord { lat: 2, lon: 2 }, Coord { lat: 2, lon: 2 }),
        (Coord { lat: 0, lon: 0 }, Coord { lat: 9, lon: 9 }),
    ];
    assert_eq!(coords, expected);
}

#[test]
fn no_pairs_give_no_positions() {
    assert_eq!(indexes_to_coords(&source(), "short", "long", &vec![]).unwrap(), vec![]);
}

#[test]
fn a_pair_past_the_end_of_the_first_track_is_stale() {
    let result = indexes_to_coords(&source(), "short", "long", &vec![(10, 0)]);
    assert_eq!(
        result.unwrap_err(),
        MatchError::StaleIndexReference { id: "short".to_string(), index: 10 }
    );
}

#[test]
fn a_pair_past_the_end_of_the_second_track_is_stale() {
    let result = indexes_to_coords(&source(), "short", "long", &vec![(0, 0), (2, 5)]);
    assert_eq!(
        result.unwrap_err(),
        MatchError::StaleIndexReference { id: "long".to_string(), index: 5 }
    );
}

#[test]
fn the_first_stale_pair_is_reported() {
    let result = indexes_to_coords(&source(), "short", "long", &vec![(0, 0), (1, 7), (3, 0)]);
    assert_eq!(
        result.unwrap_err(),
        MatchError::StaleIndexReference { id: "long".to_string(), index: 7 }
    );
    let result = indexes_to_coords(&source(), "short", "long", &vec![(3, 9)]);
    assert_eq!(
        result.unwrap_err(),
        MatchError::StaleIndexReference { id: "short".to_string(), index: 3 }
    );
}

#[test]
fn the_last_position_of_a_track_is_in_range() {
    let coords = indexes_to_coords(&source(), "short", "long", &vec![(2, 4)]).unwrap();
    assert_eq!(coords, vec![(Coord { lat: 2, lon: 2 }, Coord { lat: 9, lon: 9 })]);
    let result = indexes_to_coords(&source(), "short", "long", &vec![(3, 4)]);
    assert!(result.is_err());
}

#[test]
fn an_unknown_first_track_is_not_found() {
    let result = indexes_to_coords(&source(), "gone", "lost", &vec![(0, 0)]);
    assert_eq!(result.unwrap_err(), MatchError::TrackNotFound { id: "gone".to_string() });
}

#[test]
fn an_unknown_second_track_is_not_found() {
    let result = indexes_to_coords(&source(), "short", "lost", &vec![(10, 10)]);
    assert_eq!(result.unwrap_err(), MatchError::TrackNotFound { id: "lost".to_string() });
}
