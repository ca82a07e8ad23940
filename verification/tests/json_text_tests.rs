use track_match::json_text::{
    chars_of, read_number, read_string, skip_spaces_in, write_number, write_string,
};

fn chars(text: &str) -> Vec<char> {
    text.chars().collect()
}

#[test]
fn chars_of_gives_the_characters_in_order() {
    assert_eq!(chars_of("aé😀\n"), vec!['a', 'é', '😀', '\n']);
    assert!(chars_of("").is_empty());
}

#[test]
fn skip_spaces_stops_at_the_first_other_character() {
    let s = chars(" \t\r\n x  ");
    assert_eq!(skip_spaces_in(&s, 0), 5);
    assert_eq!(skip_spaces_in(&s, 3), 5);
    assert_eq!(skip_spaces_in(&s, 5), 5);
    assert_eq!(skip_spaces_in(&s, 6), 8);
    assert_eq!(skip_spaces_in(&s, 8), 8);
}

#[test]
fn skip_spaces_skips_only_the_white_space_of_json() {
    let s = chars("\u{a0}x");
    assert_eq!(skip_spaces_in(&s, 0), 0);
    let s = chars("\u{b}x");
    assert_eq!(skip_spaces_in(&s, 0), 0);
}

#[test]
fn read_number_reads_a_run_of_digits() {
    assert_eq!(read_number(&chars("12345,"), 0), Some((12345, 5)));
    assert_eq!(read_number(&chars("x907"), 1), Some((907, 4)));
    assert_eq!(read_number(&chars("7"), 0), Some((7, 1)));
    assert_eq!(read_number(&chars("10]"), 0), Some((10, 2)));
}

#[test]
fn read_number_reads_a_lone_zero_only() {
    assert_eq!(read_number(&chars("0"), 0), Some((0, 1)));
    assert_eq!(read_number(&chars("0,"), 0), Some((0, 1)));
    assert_eq!(read_number(&chars("012"), 0), Some((0, 1)));
}

#[test]
fn read_number_needs_a_digit() {
    assert_eq!(read_number(&chars(""), 0), None);
    assert_eq!(read_number(&chars("12"), 2), None);
    assert_eq!(read_number(&chars("-1"), 0), None);
    assert_eq!(read_number(&chars("+1"), 0), None);
    assert_eq!(read_number(&chars(" 1"), 0), None);
    assert_eq!(read_number(&chars("a"), 0), None);
    assert_eq!(read_number(&chars("٣"), 0), None);
}

#[test]
fn read_number_stops_at_the_largest_position() {
    let largest = usize::MAX.to_string();
    assert_eq!(read_number(&chars(&largest), 0), Some((usize::MAX, largest.len())));
    let above = (usize::MAX as u128 + 1).to_string();
    assert_eq!(read_number(&chars(&above), 0), None);
    let longer = format!("{}0", usize::MAX);
    assert_eq!(read_number(&chars(&longer), 0), None);
    assert_eq!(read_number(&chars("99999999999999999999999999999999999999999"), 0), None);
}

#[test]
fn write_number_writes_decimal_digits() {
    let mut out = String::from("n=");
    write_number(&mut out, 0);
    out.push(' ');
    write_number(&mut out, 7);
    out.push(' ');
    write_number(&mut out, 10);
    out.push(' ');
    write_number(&mut out, 9075);
    out.push(' ');
    write_number(&mut out, usize::MAX);
    assert_eq!(out, format!("n=0 7 10 9075 {}", usize::MAX));
}

#[test]
fn a_written_number_is_read_back() {
    for n in [0usize, 1, 9, 10, 11, 99, 100, 101, 65535, 4294967295, usize::MAX - 1, usize::MAX] {
        let mut out = String::new();
        write_number(&mut out, n);
        let len = out.chars().count();
        out.push(',');
        assert_eq!(read_number(&chars(&out), 0), Some((n, len)));
    }
}

#[test]
fn read_string_reads_up_to_the_closing_quote() {
    assert_eq!(read_string(&chars(r#""abc" rest"#), 0), Some(("abc".to_string(), 5)));
    assert_eq!(read_string(&chars(r#"x"""#), 1), Some((String::new(), 3)));
    assert_eq!(read_string(&chars("\"é😀\u{7f}\""), 0), Some(("é😀\u{7f}".to_string(), 5)));
}

#[test]
fn read_string_reads_the_escapes() {
    assert_eq!(
        read_string(&chars(r#""\"\\\/\b\f\n\r\t""#), 0),
        Some(("\"\\/\u{8}\u{c}\n\r\t".to_string(), 18))
    );
    assert_eq!(read_string(&chars(r#""\u0000\u001F\u00e9\uFFFF""#), 0), Some(("\u{0}\u{1f}é\u{ffff}".to_string(), 26)));
    assert_eq!(read_string(&chars(r#""\ud800\udc00""#), 0), Some(("\u{10000}".to_string(), 14)));
    assert_eq!(read_string(&chars(r#""\udbff\udfff""#), 0), Some(("\u{10ffff}".to_string(), 14)));
    assert_eq!(read_string(&chars(r#""\uD7FF\uE000""#), 0), Some(("\u{d7ff}\u{e000}".to_string(), 14)));
}

#[test]
fn read_string_refuses_what_is_no_string() {
    let bad = [
        "",
        "abc",
        "\"abc",
        "\"abc\\",
        "\"abc\\\"",
        r#""\a""#,
        r#""\u""#,
        r#""\u123""#,
        r#""\u123x""#,
        r#""\U0041""#,
        r#""\ud800""#,
        r#""\ud800\n""#,
        r#""\ud800\ud800""#,
        r#""\ud800\u0041""#,
        r#""\udc00""#,
        r#""\udfff\ud800""#,
        "\"a\tb\"",
        "\"a\u{0}b\"",
        "\"a\nb\"",
    ];
    for text in bad {
        assert_eq!(read_string(&chars(text), 0), None, "{:?}", text);
    }
    assert_eq!(read_string(&chars("\"a\""), 3), None);
    assert_eq!(read_string(&chars("x\"a\""), 0), None);
}

#[test]
fn write_string_quotes_and_escapes() {
    let mut out = String::from("k:");
    write_string(&mut out, "plain");
    assert_eq!(out, "k:\"plain\"");
    let mut out = String::new();
    write_string(&mut out, "");
    assert_eq!(out, "\"\"");
    let mut out = String::new();
    write_string(&mut out, "a\"b\\c/d\u{8}\u{c}\n\r\t\u{0}\u{1}\u{b}\u{e}\u{1f} \u{7f}\u{80}é😀");
    assert_eq!(
        out,
        "\"a\\\"b\\\\c/d\\b\\f\\n\\r\\t\\u0000\\u0001\\u000b\\u000e\\u001f \u{7f}\u{80}é😀\""
    );
}

#[test]
fn a_written_string_is_read_back() {
    let texts = ["", "plain", "with \"quotes\"", "back\\slash\\", "\u{0}\u{1}\u{1f}\n\r\t\u{8}\u{c}", "é😀\u{10ffff}\u{d7ff}\u{e000}", "\\u0041", "/"];
    for text in texts {
        let mut out = String::new();
        write_string(&mut out, text);
        let written = chars(&out);
        assert_eq!(read_string(&written, 0), Some((text.to_string(), written.len())));
    }
}

#[test]
fn write_string_agrees_with_serde_json() {
    let all_low: String = (0u32..0x80).map(|c| char::from_u32(c).unwrap()).collect();
    for text in ["", "plain", all_low.as_str(), "é😀\u{2028}\u{2029}\u{feff}"] {
        let mut out = String::new();
        write_string(&mut out, text);
        assert_eq!(out, serde_json::to_string(text).unwrap());
    }
}
