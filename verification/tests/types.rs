use std::collections::HashSet;
use std::mem::size_of;

use orderbook_aggregator::types::{FixedPoint, Level, RawLevel, Summary};
use orderbook_aggregator::{exchange_name, BINANCE_ID, BITSTAMP_ID, EXCHANGES, MAX_EXCHANGES};

fn raw_of(input: &str) -> u64 {
    FixedPoint::parse(input).unwrap().raw()
}

#[test]
fn parse_integer_only() {
    assert_eq!(raw_of("123"), 123 * FixedPoint::SCALE);
}

#[test]
fn parse_with_fractional() {
    assert_eq!(raw_of("0.06824000"), 6_824_000);
}

#[test]
fn parse_short_fractional() {
    assert_eq!(raw_of("101.5"), 101 * FixedPoint::SCALE + 50_000_000);
}

#[test]
fn parse_leading_dot() {
    assert_eq!(raw_of(".5"), 50_000_000);
}

#[test]
fn parse_zero() {
    assert_eq!(raw_of("0"), 0);
}

#[test]
fn parse_trailing_dot() {
    assert_eq!(raw_of("0."), 0);
}

#[test]
fn parse_leading_zeros() {
    assert_eq!(raw_of("00.1"), 10_000_000);
}

#[test]
fn parse_truncates_beyond_8() {
    assert_eq!(raw_of("0.068240001"), 6_824_000);
}

#[test]
fn parse_max_fractional() {
    assert_eq!(raw_of("0.99999999"), 99_999_999);
}

#[test]
fn parse_large_integer() {
    assert_eq!(raw_of("184467440737.0"), 184_467_440_737 * FixedPoint::SCALE);
}

#[test]
fn parse_rejects_invalid_inputs() {
    let cases: &[(&str, &str)] = &[
        ("", "empty"),
        (".", "bare dot"),
        ("abc", "non-digit"),
        ("1.2x", "trailing non-digit"),
        ("-1.0", "negative"),
        ("999999999999999", "overflow"),
        ("1.2.3", "double dot"),
        (" 1", "leading space"),
    ];
    for &(input, label) in cases {
        assert!(
            FixedPoint::parse(input).is_none(),
            "expected None for {label}: {input:?}"
        );
    }
}

#[test]
fn parse_at_the_edge_of_64_bits() {
    assert_eq!(raw_of("184467440737.09551615"), u64::MAX);
    assert!(FixedPoint::parse("184467440737.09551616").is_none());
    assert!(FixedPoint::parse("99999999999999999999").is_none());
    assert_eq!(raw_of("00000000000000000000000001"), FixedPoint::SCALE);
}

#[test]
fn parse_checks_digits_beyond_the_eighth() {
    assert!(FixedPoint::parse("0.12345678x").is_none());
    assert_eq!(raw_of("0.123456789999999999999"), 12_345_678);
}

#[test]
fn parse_rejects_other_alphabets() {
    assert!(FixedPoint::parse("\u{661}\u{662}").is_none());
    assert!(FixedPoint::parse("1\u{ff0e}5").is_none());
}

#[test]
fn display_formatting() {
    let fp = FixedPoint::parse("0.06824000").unwrap();
    assert_eq!(fp.to_string(), "0.06824000");
}

#[test]
fn display_pads_the_fraction() {
    assert_eq!(FixedPoint::from_raw(0).to_string(), "0.00000000");
    assert_eq!(FixedPoint::from_raw(1).to_string(), "0.00000001");
    assert_eq!(FixedPoint::from_raw(1_050_000_000).to_string(), "10.50000000");
    assert_eq!(
        FixedPoint::from_raw(u64::MAX).to_string(),
        "184467440737.09551615"
    );
}

#[test]
fn parse_inverts_display() {
    for value in [0, 1, 99_999_999, 100_000_000, 6_824_000, u64::MAX - 1, u64::MAX] {
        let fp = FixedPoint::from_raw(value);
        assert_eq!(FixedPoint::parse(&fp.to_string()), Some(fp));
    }
}

#[test]
fn ordering_matches_numeric() {
    let a = FixedPoint::parse("0.06824000").unwrap();
    let b = FixedPoint::parse("0.06825000").unwrap();
    assert!(a < b);
}

#[test]
fn ordering_is_that_of_the_raw_values() {
    let small = FixedPoint::from_raw(1);
    let large = FixedPoint::from_raw(u64::MAX);
    assert!(small < large && large > small);
    assert!(small <= small && small >= small);
    assert_eq!(small.cmp(&large), small.partial_cmp(&large).unwrap());
    assert_eq!([large, small].iter().min(), Some(&small));
}

#[test]
fn fixed_point_default_is_zero() {
    assert_eq!(FixedPoint::default(), FixedPoint::from_raw(0));
    let set: HashSet<FixedPoint> = [FixedPoint::default(), FixedPoint::from_raw(0)]
        .into_iter()
        .collect();
    assert_eq!(set.len(), 1);
}

#[test]
fn static_size_assertions() {
    assert_eq!(size_of::<FixedPoint>(), 8);
    assert_eq!(size_of::<RawLevel>(), 16);
    assert_eq!(size_of::<Level>(), 24);
}

#[test]
fn summary_default_is_empty() {
    let summary = Summary::default();
    assert_eq!(summary.spread_raw, 0);
    assert!(summary.bids.is_empty());
    assert!(summary.asks.is_empty());
}

#[test]
fn summary_clone_keeps_the_levels() {
    let mut summary = Summary::default();
    summary.spread_raw = -7;
    summary.bids.push(Level {
        price: FixedPoint::from_raw(1),
        amount: FixedPoint::from_raw(2),
        exchange_id: 1,
    });
    let copy = summary.clone();
    assert_eq!(copy.spread_raw, -7);
    assert_eq!(copy.bids[0], summary.bids[0]);
    assert!(copy.asks.is_empty());
}

#[test]
fn exchange_names() {
    assert_eq!(exchange_name(BINANCE_ID), "binance");
    assert_eq!(exchange_name(BITSTAMP_ID), "bitstamp");
    assert_eq!(EXCHANGES.len(), MAX_EXCHANGES);
}

#[test]
fn leading_zeros_change_nothing() {
    for text in ["0", "7", "12.5", ".25", "3.", "184467440737.09551615", "1x", "..", "1.2.3"] {
        for zeros in ["0", "000", "000000000000000000000000000000"] {
            let padded = format!("{zeros}{text}");
            assert_eq!(FixedPoint::parse(&padded), FixedPoint::parse(text), "{padded}");
        }
    }
    // Nothing and a bare point are no numbers, but a zero makes them one.
    for text in ["", "."] {
        assert_eq!(FixedPoint::parse(text), None);
        assert_eq!(FixedPoint::parse(&format!("0{text}")), Some(FixedPoint::from_raw(0)));
    }
}

#[test]
fn further_decimals_change_nothing() {
    for text in ["0.12345678", ".00000000", "184467440737.09551615", "1.2345678x"] {
        for tail in ["0", "9", "999999999999999999999999"] {
            let longer = format!("{text}{tail}");
            assert_eq!(FixedPoint::parse(&longer), FixedPoint::parse(text), "{longer}");
        }
    }
}
