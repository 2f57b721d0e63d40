use memchr::memmem;

use orderbook_aggregator::json_walker::{
    extract_string, read_levels, read_raw_levels, Scanner, MAX_LEVELS,
};
use orderbook_aggregator::types::FixedPoint;

#[test]
fn read_string_basic() {
    let mut s = Scanner::new(r#""hello""#);
    assert_eq!(s.read_string(), Some("hello"));
}

#[test]
fn read_string_with_escape() {
    let mut s = Scanner::new(r#""say \"hi\"""#);
    // Escapes are not resolved: the raw content between the outer quotes.
    assert_eq!(s.read_string(), Some(r#"say \"hi\""#));
}

#[test]
fn read_string_unterminated() {
    for input in [r#""abc"#, r#""abc\"#, r#""abc\""#, "\"", "abc", ""] {
        let mut s = Scanner::new(input);
        assert_eq!(s.read_string(), None, "input: {input:?}");
        assert!(s.pos <= input.len());
        // The scanner is still usable.
        assert!(s.seek(&memmem::Finder::new(b"zzz")).is_none());
    }
}

#[test]
fn read_string_keeps_characters_whole() {
    let mut s = Scanner::new("  \"\u{e9}\u{4e2d}\u{1f600}\",1");
    assert_eq!(s.read_string(), Some("\u{e9}\u{4e2d}\u{1f600}"));
    assert_eq!(s.peek(), Some(b','));
}

#[test]
fn read_u64_parses_number() {
    let mut s = Scanner::new("42,");
    assert_eq!(s.read_u64(), 42);
    assert_eq!(s.pos, 2); // Stopped at the comma.
}

#[test]
fn read_u64_returns_zero_on_overflow() {
    let mut s = Scanner::new("99999999999999999999"); // > u64::MAX
    assert_eq!(s.read_u64(), 0);
}

#[test]
fn read_u64_edge_values() {
    let mut s = Scanner::new(" \t18446744073709551615}");
    assert_eq!(s.read_u64(), u64::MAX);
    assert_eq!(s.peek(), Some(b'}'));
    let mut s = Scanner::new("x");
    assert_eq!(s.read_u64(), 0);
    assert_eq!(s.pos, 0);
}

#[test]
fn seek_advances_past_needle() {
    let mut s = Scanner::new(r#"{"key":"value"}"#);
    let finder = memmem::Finder::new(b"\"key\":");
    s.seek(&finder).unwrap();
    // Right behind the needle, ready to read the value.
    assert_eq!(s.read_string(), Some("value"));
}

#[test]
fn seek_finds_the_first_occurrence_from_the_position() {
    let mut s = Scanner::new("aXbXc");
    let finder = memmem::Finder::new(b"X");
    s.seek(&finder).unwrap();
    assert_eq!(s.pos, 2);
    s.seek(&finder).unwrap();
    assert_eq!(s.pos, 4);
    assert!(s.seek(&finder).is_none());
    assert_eq!(s.pos, 4);
}

#[test]
fn extract_string_finds_value() {
    let json = r#"{"event":"data","message":"hello world"}"#;
    assert_eq!(extract_string(json, b"\"message\":"), Some("hello world"));
    assert_eq!(extract_string(json, b"\"event\":"), Some("data"));
    assert_eq!(extract_string(json, b"\"missing\":"), None);
}

#[test]
fn expect_bytes_with_and_without_whitespace() {
    let mut s = Scanner::new(" [");
    assert!(!s.expect_byte(b'['));
    assert_eq!(s.pos, 0);
    assert!(s.expect(b'['));
    assert_eq!(s.pos, 2);
    assert!(!s.expect(b']'));
}

#[test]
fn read_quoted_decimal_basic() {
    let mut s = Scanner::new(r#""123.45600000""#);
    let fp = s.read_quoted_decimal().unwrap();
    assert_eq!(fp, FixedPoint::parse("123.45600000").unwrap());
}

#[test]
fn read_quoted_decimal_fractional_only() {
    let mut s = Scanner::new(r#""0.06824000""#);
    let fp = s.read_quoted_decimal().unwrap();
    assert_eq!(fp, FixedPoint::parse("0.06824000").unwrap());
}

#[test]
fn read_quoted_decimal_integer_only() {
    let mut s = Scanner::new(r#""42""#);
    let fp = s.read_quoted_decimal().unwrap();
    assert_eq!(fp, FixedPoint::parse("42").unwrap());
}

#[test]
fn read_quoted_decimal_zero() {
    let mut s = Scanner::new(r#""0.00000000""#);
    let fp = s.read_quoted_decimal().unwrap();
    assert_eq!(fp.raw(), 0);
}

#[test]
fn read_quoted_decimal_agrees_with_parse() {
    for text in [
        "", ".", "1.", ".5", "00.1", "0.068240001", "1.2x", "x", "1.2.3", "-1", " 1",
        "999999999999999", "184467440737.09551615", "184467440737.09551616",
        "99999999999999999999999", "0.12345678901234567890",
    ] {
        let json = format!("\"{text}\"");
        let mut s = Scanner::new(&json);
        assert_eq!(s.read_quoted_decimal(), FixedPoint::parse(text), "text: {text:?}");
    }
}

#[test]
fn read_quoted_decimal_stops_behind_the_quote() {
    let mut s = Scanner::new(r#""1.5","2""#);
    assert_eq!(s.read_quoted_decimal().unwrap().raw(), 150_000_000);
    assert_eq!(s.peek(), Some(b','));
    // Unclosed, or not quoted at all.
    assert!(Scanner::new("\"1.5").read_quoted_decimal().is_none());
    assert!(Scanner::new("1.5\"").read_quoted_decimal().is_none());
    assert!(Scanner::new("").read_quoted_decimal().is_none());
}

#[test]
fn read_raw_levels_filters_zero_amount() {
    let json = r#"[["100.0","5.0"],["99.0","0.00000000"],["98.0","3.0"]]"#;
    let mut s = Scanner::new(json);
    let levels = read_raw_levels::<20>(&mut s).unwrap();
    assert_eq!(levels.len(), 2);
    assert_eq!(levels[0].price, FixedPoint::parse("100.0").unwrap());
    assert_eq!(levels[1].price, FixedPoint::parse("98.0").unwrap());
}

#[test]
fn read_raw_levels_rejects_malformed() {
    for (input, label) in [
        (r#"[["not_a_number","1.0"]]"#, "bad price"),
        (r#"[["100.0","xyz"]]"#, "bad amount"),
    ] {
        let mut s = Scanner::new(input);
        assert!(
            read_raw_levels::<20>(&mut s).is_none(),
            "expected None for {label}: {input:?}"
        );
    }
}

#[test]
fn read_raw_levels_rejects_other_shapes() {
    for input in [
        "",
        "[",
        "[[",
        r#"[["1","2"]"#,
        r#"[["1","2"],]"#,
        r#"[["1" ,"2"]]"#,
        r#"[["1","2","3"]]"#,
        r#"[ ["1","2"]]"#,
        r#"{"1":"2"}"#,
    ] {
        let mut s = Scanner::new(input);
        assert!(read_raw_levels::<20>(&mut s).is_none(), "input: {input:?}");
    }
}

#[test]
fn read_raw_levels_empty() {
    let mut s = Scanner::new("[]");
    let levels = read_raw_levels::<20>(&mut s).unwrap();
    assert!(levels.is_empty());
}

#[test]
fn read_raw_levels_caps_at_n() {
    let pairs: Vec<String> = (0..30)
        .map(|i| format!(r#"["{}.0","1.0"]"#, 100 + i))
        .collect();
    let json = format!("[{}]", pairs.join(","));
    let mut s = Scanner::new(&json);
    let levels = read_raw_levels::<5>(&mut s).unwrap();
    assert_eq!(levels.len(), 5);
}

#[test]
fn read_raw_levels_does_not_look_behind_the_last_level() {
    // Two levels are kept; what follows is malformed and not read.
    let mut s = Scanner::new(r#"[["1","1"],["2","1"],["x"]]"#);
    let levels = read_raw_levels::<2>(&mut s).unwrap();
    assert_eq!(levels.len(), 2);
    assert_eq!(levels[1].price.raw(), 200_000_000);
}

#[test]
fn read_optional_raw_levels_without_the_key() {
    let finder = memmem::Finder::new(b"\"bids\":");
    let mut s = Scanner::new(r#"{"asks":[]}"#);
    assert!(s.read_optional_raw_levels::<10>(&finder).unwrap().is_empty());
    assert_eq!(s.pos, 0);
    let mut s = Scanner::new(r#"{"bids":[["2","3"]]}"#);
    let levels = s.read_optional_raw_levels::<10>(&finder).unwrap();
    assert_eq!(levels[0].amount.raw(), 300_000_000);
}

#[test]
fn read_levels_borrows_the_texts() {
    let mut s = Scanner::new(r#" [ [ "1.0" , "2.0" ] , ["3.0","4.0"] ] ,"#);
    let levels = read_levels(&mut s).unwrap();
    assert_eq!(levels.len(), 2);
    assert_eq!(levels[0], ["1.0", "2.0"]);
    assert_eq!(levels[1], ["3.0", "4.0"]);
    assert!(s.expect(b','));
}

#[test]
fn read_levels_caps() {
    let pairs: Vec<String> = (0..100).map(|i| format!(r#"["{i}", "1"]"#)).collect();
    let json = format!("[{}]", pairs.join(", "));
    let mut s = Scanner::new(&json);
    let levels = read_levels(&mut s).unwrap();
    assert_eq!(levels.len(), MAX_LEVELS);
    assert_eq!(levels[MAX_LEVELS - 1], ["19", "1"]);
}

#[test]
fn read_levels_rejects_other_shapes() {
    for input in ["", "[", "{}", r#"[["1"]]"#, r#"[["1","2"]"#, r#"[["1","2"],]"#, "[1]"] {
        let mut s = Scanner::new(input);
        assert!(read_levels(&mut s).is_none(), "input: {input:?}");
    }
}

#[test]
fn levels_read_back_as_they_were_displayed() {
    let values = [(u64::MAX, 1), (0, u64::MAX), (5, 0), (6_824_000, 1_250_000_000)];
    let pairs: Vec<String> = values
        .iter()
        .map(|&(price, amount)| {
            format!(
                r#"["{}","{}"]"#,
                FixedPoint::from_raw(price).to_string(),
                FixedPoint::from_raw(amount).to_string()
            )
        })
        .collect();
    let json = format!("[{}]", pairs.join(","));
    let mut s = Scanner::new(&json);
    let levels = read_raw_levels::<10>(&mut s).unwrap();
    let read: Vec<(u64, u64)> = levels
        .iter()
        .map(|l| (l.price.raw(), l.amount.raw()))
        .collect();
    // All but the one with a zero amount.
    assert_eq!(read, vec![values[0], values[1], values[3]]);
    assert_eq!(s.pos, json.len());
}

#[test]
fn a_reader_without_room_keeps_nothing() {
    for input in [r#"[["1","1"]]"#, r#"[["1","0"],["2","1"]]"#, "[]"] {
        let mut s = Scanner::new(input);
        assert!(read_raw_levels::<0>(&mut s).unwrap().is_empty(), "input: {input:?}");
    }
}

#[test]
fn a_smaller_reader_gives_the_first_levels() {
    let json = r#"[["1","1"],["2","0"],["3","1"],["4","1"],["5","0"]]"#;
    let large = read_raw_levels::<10>(&mut Scanner::new(json)).unwrap();
    assert_eq!(large.len(), 3);
    assert_eq!(read_raw_levels::<1>(&mut Scanner::new(json)).unwrap()[..], large[..1]);
    assert_eq!(read_raw_levels::<2>(&mut Scanner::new(json)).unwrap()[..], large[..2]);
    assert_eq!(read_raw_levels::<3>(&mut Scanner::new(json)).unwrap()[..], large[..]);

    // What only the larger reader looks at can be malformed.
    let json = r#"[["1","1"],["2","1"],["x","1"]]"#;
    assert!(read_raw_levels::<3>(&mut Scanner::new(json)).is_none());
    assert_eq!(read_raw_levels::<2>(&mut Scanner::new(json)).unwrap().len(), 2);
}
