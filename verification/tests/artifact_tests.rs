use std::collections::{BTreeMap, HashMap};
use track_match::artifact::{
    check_if_file_exists, decode, encode, find_common_coords_indexes, read_from_file, LoadStatus,
};
use track_match::error::DecodeError;
use track_match::index::{MatchIndex, Partner, Row};

type Plain = BTreeMap<String, BTreeMap<String, Vec<(usize, usize)>>>;

fn index_with(entries: &[(&str, &str, &[(usize, usize)])]) -> MatchIndex {
    let mut index = MatchIndex::new();
    for (a, b, pairs) in entries {
        assert!(index.insert(a.to_string(), b.to_string(), pairs.to_vec()));
    }
    index
}

fn plain_of(index: &MatchIndex) -> Plain {
    let mut plain = Plain::new();
    for row in index.rows() {
        let inner = plain.entry(row.id.clone()).or_default();
        for partner in &row.partners {
            inner.insert(partner.id.clone(), partner.pairs.clone());
        }
    }
    plain
}

fn row(id: &str, partners: &[(&str, &[(usize, usize)])]) -> Row {
    Row {
        id: id.to_string(),
        partners: partners
            .iter()
            .map(|(name, pairs)| Partner { id: name.to_string(), pairs: pairs.to_vec() })
            .collect(),
    }
}

#[test]
fn encode_writes_compact_json() {
    let index = index_with(&[("trackA", "trackB", &[(0, 3), (5, 5)])]);
    assert_eq!(encode(&index), r#"{"trackA":{"trackB":[[0,3],[5,5]]}}"#);
}

#[test]
fn encode_of_the_empty_index_is_an_empty_object() {
    assert_eq!(encode(&MatchIndex::new()), "{}");
}

#[test]
fn encode_keeps_rows_and_entries_in_their_order() {
    let index = index_with(&[
        ("b.gpx", "a.gpx", &[(10, 200)]),
        ("b.gpx", "c.gpx", &[]),
        ("a.gpx", "c.gpx", &[(1, 2), (3, 4), (5, 6)]),
    ]);
    assert_eq!(
        encode(&index),
        r#"{"b.gpx":{"a.gpx":[[10,200]],"c.gpx":[]},"a.gpx":{"c.gpx":[[1,2],[3,4],[5,6]]}}"#
    );
}

#[test]
fn encode_writes_the_largest_position_in_full() {
    let index = index_with(&[("a", "b", &[(usize::MAX, 0)])]);
    assert_eq!(encode(&index), format!("{{\"a\":{{\"b\":[[{},0]]}}}}", usize::MAX));
}

#[test]
fn encode_escapes_what_json_asks_for() {
    let index = index_with(&[("say \"hi\"", "back\\slash", &[(1, 1)])]);
    assert_eq!(encode(&index), r#"{"say \"hi\"":{"back\\slash":[[1,1]]}}"#);
    let index = index_with(&[("tab\there", "line\nfeed\r\u{8}\u{c}\u{1}\u{1f}\u{7f}/é😀", &[])]);
    assert_eq!(
        encode(&index),
        "{\"tab\\there\":{\"line\\nfeed\\r\\b\\f\\u0001\\u001f\u{7f}/é😀\":[]}}"
    );
}

#[test]
fn encode_agrees_with_serde_json() {
    let names = ["", "a", "b \"q\"", "c\\d", "e\n\t\r\u{0}\u{b}\u{1b}", "f/é/😀", "g.gpx"];
    let mut index = MatchIndex::new();
    for (i, a) in names.iter().enumerate() {
        for (j, b) in names.iter().enumerate() {
            if i < j {
                let pairs = vec![(i, j), (j * 1000, i + 7), (usize::MAX, 0)];
                assert!(index.insert(a.to_string(), b.to_string(), pairs));
            }
        }
    }
    let written = encode(&index);
    assert_eq!(written, serde_json::to_string(&plain_of(&index)).unwrap());
    let read: HashMap<String, HashMap<String, Vec<(usize, usize)>>> =
        serde_json::from_str(&written).unwrap();
    assert_eq!(read.len(), names.len() - 1);
    assert_eq!(read["a"]["g.gpx"], vec![(1, 6), (6000, 8), (usize::MAX, 0)]);
}

#[test]
fn decode_reads_what_serde_json_writes() {
    let mut plain = Plain::new();
    plain.entry("x \"1\"".to_string()).or_default().insert("y\\2".to_string(), vec![(3, 4), (5, 6)]);
    plain.entry("x \"1\"".to_string()).or_default().insert("z\u{1}".to_string(), vec![]);
    plain.entry("y\\2".to_string()).or_default().insert("z\u{1}".to_string(), vec![(0, 0)]);
    let compact = serde_json::to_string(&plain).unwrap();
    let pretty = serde_json::to_string_pretty(&plain).unwrap();
    assert_eq!(plain_of(&decode(&compact).unwrap()), plain);
    assert_eq!(plain_of(&decode(&pretty).unwrap()), plain);
}

#[test]
fn decode_reads_an_index() {
    let index = decode(r#"{"trackA": {"trackB": [[0,3],[5,5]]}}"#).unwrap();
    assert_eq!(index.rows(), &vec![row("trackA", &[("trackB", &[(0, 3), (5, 5)])])]);
}

#[test]
fn decode_allows_white_space_between_the_words() {
    let text = " \n{\t\"a\" :\r\n { \"b\" : [ [ 1 , 2 ] , [3,4 ] ] , \"c\":[ ] } ,\n \"d\":{ }\n}\n ";
    let index = decode(text).unwrap();
    let expected = vec![row("a", &[("b", &[(1, 2), (3, 4)]), ("c", &[])]), row("d", &[])];
    assert_eq!(index.rows(), &expected);
}

#[test]
fn decode_reads_the_empty_object() {
    assert!(decode("{}").unwrap().rows().is_empty());
    assert!(decode("  { } ").unwrap().rows().is_empty());
}

#[test]
fn decode_reads_every_escape() {
    let text = r#"{"q\"b\\s\/ \b\f\n\r\t":{"\u0041\u00e9\u20AC\ud83d\ude00\uD83D\uDE00":[]}}"#;
    let index = decode(text).unwrap();
    assert_eq!(index.rows()[0].id, "q\"b\\s/ \u{8}\u{c}\n\r\t");
    assert_eq!(index.rows()[0].partners[0].id, "Aé€😀😀");
}

#[test]
fn decode_reads_the_largest_position() {
    let text = format!("{{\"a\":{{\"b\":[[{},0]]}}}}", usize::MAX);
    assert_eq!(decode(&text).unwrap().lookup("a", "b"), vec![(usize::MAX, 0)]);
}

#[test]
fn decode_refuses_a_position_that_is_too_large() {
    let text = format!("{{\"a\":{{\"b\":[[{}0,0]]}}}}", usize::MAX);
    assert_eq!(decode(&text).unwrap_err(), DecodeError::Syntax);
    let text = "{\"a\":{\"b\":[[0,340282366920938463463374607431768211456]]}}";
    assert_eq!(decode(text).unwrap_err(), DecodeError::Syntax);
}

#[test]
fn decode_refuses_what_is_not_an_index() {
    let bad = [
        "",
        " ",
        "[]",
        "null",
        "{",
        "}",
        "{}{}",
        "{} x",
        r#"{"a"}"#,
        r#"{"a":}"#,
        r#"{"a":[]}"#,
        r#"{"a":{"b":{}}}"#,
        r#"{"a":{"b":[1,2]}}"#,
        r#"{"a":{"b":[[1]]}}"#,
        r#"{"a":{"b":[[1,2,3]]}}"#,
        r#"{"a":{"b":[[1,2],]}}"#,
        r#"{"a":{"b":[,[1,2]]}}"#,
        r#"{"a":{"b":[[1,2]],}}"#,
        r#"{"a":{"b":[[1,2]]},}"#,
        r#"{"a":{"b":[[1,2]]"#,
        r#"{"a":{"b":[[01,2]]}}"#,
        r#"{"a":{"b":[[1,-2]]}}"#,
        r#"{"a":{"b":[[1,+2]]}}"#,
        r#"{"a":{"b":[[1.0,2]]}}"#,
        r#"{"a":{"b":[[1e2,2]]}}"#,
        r#"{"a":{"b":[["1",2]]}}"#,
        r#"{"a":{"b":[[1 2]]}}"#,
        r#"{"a":{"b":[[1,2][3,4]]}}"#,
        r#"{"a":{"b" [[1,2]]}}"#,
        r#"{"a":{b:[[1,2]]}}"#,
        r#"{'a':{}}"#,
        r#"{"a":{"b":[[1,2]]}} {"#,
        r#"{"a:{}}"#,
        r#"{"a\x":{}}"#,
        r#"{"a\u12":{}}"#,
        r#"{"a\u12g4":{}}"#,
        r#"{"\ud83d":{}}"#,
        r#"{"\ud83dx":{}}"#,
        r#"{"\ud83d\u0041":{}}"#,
        r#"{"\ude00":{}}"#,
        "{\"a\nb\":{}}",
        "{\"a\u{1f}\":{}}",
        "{\"a\":{}\u{a0}}",
    ];
    for text in bad {
        assert_eq!(decode(text).unwrap_err(), DecodeError::Syntax, "{:?}", text);
    }
}

#[test]
fn decode_refuses_an_index_that_breaks_the_invariant() {
    let bad = [
        r#"{"a":{"b":[[1,2]]},"a":{"c":[[1,2]]}}"#,
        r#"{"a":{"b":[[1,2]],"b":[[3,4]]}}"#,
        r#"{"a":{"a":[[1,1]]}}"#,
        r#"{"a":{"b":[[1,2]]},"b":{"a":[[2,1]]}}"#,
        r#"{"a":{"b":[]},"c":{},"b":{"c":[],"a":[]}}"#,
    ];
    for text in bad {
        assert_eq!(decode(text).unwrap_err(), DecodeError::Inconsistent, "{:?}", text);
    }
}

#[test]
fn an_index_that_is_saved_and_read_again_is_the_same() {
    let index = index_with(&[
        ("z \"last\"", "a\\first", &[(0, 3), (5, 5), (usize::MAX, 1)]),
        ("z \"last\"", "m\n", &[]),
        ("a\\first", "m\n", &[(7, 7)]),
        ("é😀", "\u{0}", &[(1, 0)]),
    ]);
    let text = encode(&index);
    let again = decode(&text).unwrap();
    assert_eq!(again.rows(), index.rows());
    assert_eq!(encode(&again), text);
    for a in ["z \"last\"", "a\\first", "m\n", "é😀", "\u{0}", "other"] {
        for b in ["z \"last\"", "a\\first", "m\n", "é😀", "\u{0}", "other"] {
            assert_eq!(again.lookup(a, b), index.lookup(a, b));
        }
    }
}

#[test]
fn an_index_is_persisted_where_a_text_stands() {
    assert!(!check_if_file_exists(None));
    assert!(check_if_file_exists(Some("{}")));
    assert!(check_if_file_exists(Some("")));
}

#[test]
fn nothing_persisted_is_an_empty_index_that_is_not_built() {
    let (index, status) = read_from_file(None).unwrap();
    assert!(index.rows().is_empty());
    assert_eq!(status, LoadStatus::NotBuilt);
    assert_eq!(index.lookup("a", "b"), vec![]);
}

#[test]
fn a_persisted_index_is_loaded() {
    let (index, status) = read_from_file(Some(r#"{"T1":{"T2":[[1,1],[2,2]]}}"#)).unwrap();
    assert_eq!(status, LoadStatus::Loaded);
    assert_eq!(index.lookup("T1", "T2"), vec![(1, 1), (2, 2)]);
    let (index, status) = read_from_file(Some("{}")).unwrap();
    assert_eq!(status, LoadStatus::Loaded);
    assert!(index.rows().is_empty());
}

#[test]
fn a_persisted_text_that_is_no_index_is_refused() {
    assert_eq!(read_from_file(Some("not json")).unwrap_err(), DecodeError::Syntax);
    assert_eq!(read_from_file(Some(r#"{"a":{"a":[]}}"#)).unwrap_err(), DecodeError::Inconsistent);
}

#[test]
fn querying_an_index_that_is_not_built_answers_nothing() {
    let (pairs, status) = find_common_coords_indexes(None, "T1", "T2").unwrap();
    assert_eq!(pairs, vec![]);
    assert_eq!(status, LoadStatus::NotBuilt);
}

#[test]
fn querying_the_persisted_index_in_the_other_order_finds_the_entry() {
    let text = r#"{"T1":{"T2":[[1,1],[2,2]]}}"#;
    let (pairs, status) = find_common_coords_indexes(Some(text), "T2", "T1").unwrap();
    assert_eq!(pairs, vec![(1, 1), (2, 2)]);
    assert_eq!(status, LoadStatus::Loaded);
}

#[test]
fn querying_the_persisted_index_orients_the_pairs_by_the_query() {
    let text = r#"{"T1":{"T2":[[0,3],[5,5]],"T3":[[9,8]]}}"#;
    assert_eq!(
        find_common_coords_indexes(Some(text), "T1", "T2").unwrap(),
        (vec![(0, 3), (5, 5)], LoadStatus::Loaded)
    );
    assert_eq!(
        find_common_coords_indexes(Some(text), "T2", "T1").unwrap(),
        (vec![(3, 0), (5, 5)], LoadStatus::Loaded)
    );
    assert_eq!(
        find_common_coords_indexes(Some(text), "T3", "T1").unwrap(),
        (vec![(8, 9)], LoadStatus::Loaded)
    );
    assert_eq!(
        find_common_coords_indexes(Some(text), "T2", "T3").unwrap(),
        (vec![], LoadStatus::Loaded)
    );
}

#[test]
fn querying_a_persisted_text_that_is_no_index_fails() {
    assert_eq!(find_common_coords_indexes(Some("[1,2]"), "a", "b").unwrap_err(), DecodeError::Syntax);
}
