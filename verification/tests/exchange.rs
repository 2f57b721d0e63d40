use orderbook_aggregator::atomic_slot::{drop_half, slot};
use orderbook_aggregator::exchange::binance::{self, parse_depth_json, BinanceHandler};
use orderbook_aggregator::exchange::bitstamp::{
    self, parse_order_book_json, server_message, BitstampHandler,
};
use orderbook_aggregator::exchange::{
    build_book, deliver_book, payload_head, try_send_book, HandleResult, Processed, WsHandler,
};
use orderbook_aggregator::exchange_name;
use orderbook_aggregator::metrics::ExchangeMetrics;
use orderbook_aggregator::types::{ExchangeId, FixedPoint, OrderBook, RawLevel, DEPTH};
use orderbook_aggregator::BITSTAMP_ID;

const BITSTAMP_JSON_3L: &str = r#"{"data":{"timestamp":"1700000000","microtimestamp":"1700000000000000","bids":[["0.06824000","12.50000000"],["0.06823000","8.30000000"],["0.06822000","5.00000000"]],"asks":[["0.06825000","10.00000000"],["0.06826000","7.20000000"],["0.06827000","3.50000000"]]},"channel":"order_book_ethbtc","event":"data"}"#;

const BINANCE_JSON: &str = r#"{
    "lastUpdateId": 123456789,
    "bids": [
        ["0.06824000", "12.50000000"],
        ["0.06823000", "8.30000000"],
        ["0.06822000", "5.00000000"]
    ],
    "asks": [
        ["0.06825000", "10.00000000"],
        ["0.06826000", "7.20000000"],
        ["0.06827000", "3.50000000"]
    ]
}"#;

fn fixed(v: f64) -> FixedPoint {
    FixedPoint::from_raw((v * FixedPoint::SCALE as f64).round() as u64)
}

fn raw(price: f64, amount: f64) -> RawLevel {
    RawLevel {
        price: fixed(price),
        amount: fixed(amount),
    }
}

fn book(exchange_id: ExchangeId, bids: &[RawLevel], asks: &[RawLevel]) -> OrderBook {
    OrderBook {
        exchange_id,
        bids: bids.iter().copied().collect(),
        asks: asks.iter().copied().collect(),
        decode_start: 0,
    }
}

fn is_done(r: &Processed, result: HandleResult) -> bool {
    match r {
        Processed::Done(x) => *x == result,
        Processed::Book(_) => false,
    }
}

#[test]
fn parse_binance_snapshot() {
    let book = parse_depth_json(BINANCE_JSON, 7).expect("valid JSON");

    assert_eq!(exchange_name(book.exchange_id), "binance");
    assert_eq!(book.bids.len(), 3);
    assert_eq!(book.asks.len(), 3);

    assert_eq!(book.bids[0].price, FixedPoint::parse("0.06824000").unwrap());
    assert_eq!(
        book.bids[0].amount,
        FixedPoint::parse("12.50000000").unwrap()
    );
    assert_eq!(book.bids[2].price, FixedPoint::parse("0.06822000").unwrap());

    assert_eq!(book.asks[0].price, FixedPoint::parse("0.06825000").unwrap());
    assert_eq!(
        book.asks[0].amount,
        FixedPoint::parse("10.00000000").unwrap()
    );
    assert_eq!(book.asks[2].price, FixedPoint::parse("0.06827000").unwrap());
    assert_eq!(book.decode_start, 7);
}

#[test]
fn parse_binance_ignores_unknown_fields() {
    let json = r#"{
        "lastUpdateId": 999,
        "E": 1234567890,
        "bids": [["1.0", "2.0"]],
        "asks": [["3.0", "4.0"]]
    }"#;
    let book = parse_depth_json(json, 0).expect("should ignore unknown fields");
    assert_eq!(book.bids.len(), 1);
    assert_eq!(book.asks.len(), 1);
}

#[test]
fn walk_happy_path() {
    let json = r#"{"lastUpdateId":123,"bids":[["0.06824","12.5"],["0.06823","8.3"],["0.06822","5.0"]],"asks":[["0.06825","10.0"],["0.06826","7.2"],["0.06827","3.5"]]}"#;
    let (seq, bids, asks) = binance::walk(json).expect("valid JSON");
    assert_eq!(seq, 123);
    assert_eq!(bids.len(), 3);
    assert_eq!(asks.len(), 3);
    assert_eq!(bids[0], ["0.06824", "12.5"]);
    assert_eq!(bids[2], ["0.06822", "5.0"]);
    assert_eq!(asks[0], ["0.06825", "10.0"]);
    assert_eq!(asks[2], ["0.06827", "3.5"]);
}

#[test]
fn walk_unknown_fields() {
    let json = r#"{"lastUpdateId":999,"E":1234567890,"bids":[["1.0","2.0"]],"extra":"value","asks":[["3.0","4.0"]],"trailing":true}"#;
    let (seq, bids, asks) = binance::walk(json).expect("should skip unknown fields");
    assert_eq!(seq, 999);
    assert_eq!(bids.len(), 1);
    assert_eq!(asks.len(), 1);
    assert_eq!(bids[0], ["1.0", "2.0"]);
    assert_eq!(asks[0], ["3.0", "4.0"]);
}

#[test]
fn walk_empty_levels() {
    let json = r#"{"bids":[],"asks":[]}"#;
    let (seq, bids, asks) = binance::walk(json).expect("empty arrays are valid");
    assert_eq!(seq, 0);
    assert!(bids.is_empty());
    assert!(asks.is_empty());
}

#[test]
fn binance_walk_malformed_returns_none() {
    for (input, label) in [
        ("", "empty"),
        ("{", "unclosed brace"),
        (r#"{"bids": not_an_array}"#, "non-array bids"),
        ("null", "null literal"),
        (r#"{"bids":[]}"#, "missing asks"),
    ] {
        assert!(
            binance::walk(input).is_none(),
            "expected None for {label}: {input:?}"
        );
    }
}

#[test]
fn parse_bitstamp_data_message() {
    let book = parse_order_book_json(BITSTAMP_JSON_3L, 0).expect("valid data message");

    assert_eq!(book.exchange_id, BITSTAMP_ID);
    assert_eq!(book.bids.len(), 3);
    assert_eq!(book.asks.len(), 3);

    assert_eq!(book.bids[0].price, FixedPoint::parse("0.06824000").unwrap());
    assert_eq!(
        book.bids[0].amount,
        FixedPoint::parse("12.50000000").unwrap()
    );
    assert_eq!(book.asks[0].price, FixedPoint::parse("0.06825000").unwrap());
}

#[test]
fn parse_bitstamp_non_data_event() {
    let json = r#"{
        "event": "bts:subscription_succeeded",
        "channel": "order_book_ethbtc",
        "data": {}
    }"#;
    assert!(parse_order_book_json(json, 0).is_none());
}

#[test]
fn level_capping_at_max() {
    // More levels than are kept.
    let levels: Vec<String> = (0..50)
        .map(|i| format!("[\"{}.0\",\"1.0\"]", 100 + i))
        .collect();
    let json_array = format!("[{}]", levels.join(","));

    let json = format!(r#"{{"event":"data","data":{{"bids":{json_array},"asks":[]}}}}"#,);
    let book = parse_order_book_json(&json, 0).expect("valid JSON");

    assert_eq!(book.bids.len(), DEPTH);
    assert!(book.asks.is_empty());

    assert_eq!(book.bids[0].price, FixedPoint::parse("100.0").unwrap());
    assert_eq!(
        book.bids[DEPTH - 1].price,
        FixedPoint::parse(&format!("{}.0", 100 + DEPTH - 1)).unwrap()
    );
}

#[test]
fn walk_data_event() {
    let json = r#"{"event":"data","channel":"order_book_ethbtc","data":{"timestamp":"1700000000","microtimestamp":"1700000000000000","bids":[["0.06824","12.5"],["0.06823","8.3"],["0.06822","5.0"]],"asks":[["0.06825","10.0"],["0.06826","7.2"],["0.06827","3.5"]]}}"#;
    let (event, micro, bids, asks) = bitstamp::walk(json).expect("valid JSON");
    assert_eq!(event, "data");
    assert_eq!(micro, 1_700_000_000_000_000);
    assert_eq!(bids.len(), 3);
    assert_eq!(asks.len(), 3);
    assert_eq!(bids[0].price, FixedPoint::parse("0.06824").unwrap());
    assert_eq!(bids[0].amount, FixedPoint::parse("12.5").unwrap());
    assert_eq!(asks[0].price, FixedPoint::parse("0.06825").unwrap());
}

#[test]
fn walk_non_data_event() {
    let json = r#"{
        "event": "bts:subscription_succeeded",
        "channel": "order_book_ethbtc",
        "data": {}
    }"#;
    let (event, micro, bids, asks) = bitstamp::walk(json).expect("valid JSON");
    assert_eq!(event, "bts:subscription_succeeded");
    assert_eq!(micro, 0); // No timestamp in other events.
    assert!(bids.is_empty());
    assert!(asks.is_empty());
}

#[test]
fn walk_level_capping() {
    let levels: Vec<String> = (0..50)
        .map(|i| format!("[\"{}.0\",\"1.0\"]", 100 + i))
        .collect();
    let json_array = levels.join(",");
    let json = format!(r#"{{"event":"data","data":{{"bids":[{json_array}],"asks":[]}}}}"#);
    let (event, _micro, bids, asks) = bitstamp::walk(&json).expect("valid JSON");
    assert_eq!(event, "data");
    assert_eq!(bids.len(), DEPTH);
    assert!(asks.is_empty());
    assert_eq!(bids[0].price, FixedPoint::parse("100.0").unwrap());
    assert_eq!(
        bids[DEPTH - 1].price,
        FixedPoint::parse(&format!("{}.0", 100 + DEPTH - 1)).unwrap()
    );
}

#[test]
fn walk_extra_fields() {
    let json = r#"{"event":"data","channel":"order_book_ethbtc","data":{"timestamp":"1700000000","microtimestamp":"1700000000000000","bids":[["3.0","4.0"]],"asks":[["5.0","6.0"]]}}"#;
    let (event, _micro, bids, asks) = bitstamp::walk(json).expect("should skip extra data fields");
    assert_eq!(event, "data");
    assert_eq!(bids[0].price, FixedPoint::parse("3.0").unwrap());
    assert_eq!(asks[0].price, FixedPoint::parse("5.0").unwrap());
}

#[test]
fn walk_real_field_order() {
    // The server sends "data" in front of "event".
    let json = r#"{"data":{"timestamp":"1772110554","microtimestamp":"1772110554110141","bids":[["0.03035870","1.35795438"],["0.03035566","0.08250000"]],"asks":[["0.03036200","10.00000000"],["0.03036500","5.00000000"]]},"channel":"order_book_ethbtc","event":"data"}"#;
    let (event, micro, bids, asks) =
        bitstamp::walk(json).expect("should handle data-before-event order");
    assert_eq!(event, "data");
    assert_eq!(micro, 1_772_110_554_110_141);
    assert_eq!(bids.len(), 2);
    assert_eq!(asks.len(), 2);
    assert_eq!(bids[0].price, FixedPoint::parse("0.03035870").unwrap());
    assert_eq!(asks[0].price, FixedPoint::parse("0.03036200").unwrap());
}

#[test]
fn bitstamp_walk_malformed_returns_none() {
    for (input, label) in [
        ("", "empty"),
        ("{", "unclosed brace"),
        (r#"{"event": 123}"#, "event as number"),
        ("null", "null literal"),
    ] {
        assert!(
            bitstamp::walk(input).is_none(),
            "expected None for {label}: {input:?}"
        );
    }
}

#[test]
fn try_send_slot_overwrites() {
    let (mut sender, mut receiver, mut shared) = slot();
    let b1 = book(0, &[raw(100.0, 1.0)], &[raw(101.0, 1.0)]);
    let b2 = book(0, &[raw(200.0, 2.0)], &[raw(201.0, 2.0)]);
    assert!(try_send_book(&mut sender, &mut shared, b1));
    // The second send overwrites the first.
    assert!(try_send_book(&mut sender, &mut shared, b2));
    // The consumer gets only the latest.
    let latest = receiver.recv(&mut shared).unwrap();
    assert_eq!(latest.bids[0].price, fixed(200.0));
    assert!(receiver.recv(&mut shared).is_none());
}

#[test]
fn try_send_abandoned_returns_false() {
    let (mut sender, receiver, mut shared) = slot::<OrderBook>();
    drop(receiver); // Abandon the consumer.
    drop_half(&mut shared);
    assert!(!try_send_book(
        &mut sender,
        &mut shared,
        book(0, &[raw(100.0, 1.0)], &[raw(101.0, 1.0)]),
    ));
}

#[test]
fn binance_rejects_stale_snapshots() {
    let mut handler = BinanceHandler::new();
    let mut m = ExchangeMetrics::new("binance");
    let frame = |seq: u64| format!(r#"{{"lastUpdateId":{seq},"bids":[["1","1"]],"asks":[]}}"#);

    let first = handler.process_text(&frame(10), 3, &mut m);
    match first {
        Processed::Book(b) => {
            assert_eq!(b.exchange_id, 0);
            assert_eq!(b.decode_start, 3);
            assert_eq!(b.bids.len(), 1);
        }
        Processed::Done(_) => panic!("expected a book"),
    }
    assert_eq!(m.errors, 0);

    // A duplicate, then an older one.
    for seq in [10, 9] {
        let r = handler.process_text(&frame(seq), 4, &mut m);
        assert!(is_done(&r, HandleResult::Continue));
    }
    assert_eq!(m.errors, 2);
    assert_eq!(handler.last_seq, 10);

    // Zero is not compared, and neither is what follows it.
    assert!(matches!(handler.process_text(&frame(0), 5, &mut m), Processed::Book(_)));
    assert!(matches!(handler.process_text(&frame(5), 6, &mut m), Processed::Book(_)));

    // A new connection starts over.
    handler.on_connected();
    assert_eq!(handler.last_seq, 0);
    assert!(matches!(handler.process_text(&frame(1), 7, &mut m), Processed::Book(_)));
    assert_eq!(m.errors, 2);
    assert_eq!(m.messages, 0);
}

#[test]
fn binance_counts_what_it_cannot_read() {
    let mut handler = BinanceHandler::default();
    let mut m = ExchangeMetrics::new("binance");
    let r = handler.process_text("{", 0, &mut m);
    assert!(is_done(&r, HandleResult::Continue));
    assert_eq!(m.errors, 1);

    // A malformed level: the sequence number counts nevertheless.
    let r = handler.process_text(
        r#"{"lastUpdateId":7,"bids":[["x","1"]],"asks":[]}"#,
        0,
        &mut m,
    );
    assert!(is_done(&r, HandleResult::Continue));
    assert_eq!(m.errors, 2);
    assert_eq!(handler.last_seq, 7);
}

#[test]
fn binance_urls() {
    let handler = BinanceHandler::new();
    assert_eq!(BinanceHandler::NAME, "binance");
    assert_eq!(
        handler.ws_url("ethbtc"),
        "wss://stream.binance.com:9443/ws/ethbtc@depth20@100ms"
    );
    assert_eq!(handler.subscribe_message("ethbtc"), None);
}

#[test]
fn bitstamp_urls() {
    let handler = BitstampHandler::default();
    assert_eq!(BitstampHandler::NAME, "bitstamp");
    assert_eq!(handler.ws_url("ethbtc"), "wss://ws.bitstamp.net");
    assert_eq!(
        handler.subscribe_message("ethbtc"),
        Some(
            r#"{"event":"bts:subscribe","data":{"channel":"order_book_ethbtc"}}"#.to_string()
        )
    );
}

#[test]
fn bitstamp_events() {
    let mut handler = BitstampHandler::new();
    let mut m = ExchangeMetrics::new("bitstamp");

    let r = handler.process_text(r#"{"event":"bts:subscription_succeeded"}"#, 0, &mut m);
    assert!(is_done(&r, HandleResult::Continue));
    let r = handler.process_text(r#"{"event":"bts:heartbeat"}"#, 0, &mut m);
    assert!(is_done(&r, HandleResult::Continue));
    assert_eq!(m.errors, 0);

    let r = handler.process_text(r#"{"event":"bts:error","data":{"message":"no"}}"#, 0, &mut m);
    assert!(is_done(&r, HandleResult::Reconnect));
    assert_eq!(m.errors, 1);

    let r = handler.process_text("null", 0, &mut m);
    assert!(is_done(&r, HandleResult::Continue));
    assert_eq!(m.errors, 2);

    let r = handler.process_text(BITSTAMP_JSON_3L, 9, &mut m);
    match r {
        Processed::Book(b) => {
            assert_eq!(b.exchange_id, BITSTAMP_ID);
            assert_eq!(b.decode_start, 9);
        }
        Processed::Done(_) => panic!("expected a book"),
    }
    assert_eq!(handler.last_micro, 1_700_000_000_000_000);

    // The same again is a duplicate.
    let r = handler.process_text(BITSTAMP_JSON_3L, 10, &mut m);
    assert!(is_done(&r, HandleResult::Continue));
    assert_eq!(m.errors, 3);
    handler.on_connected();
    assert_eq!(handler.last_micro, 0);
}

#[test]
fn bitstamp_timestamps() {
    for (text, expected) in [
        ("12", 12),
        ("+12", 12),
        ("", 0),
        ("+", 0),
        ("-1", 0),
        ("1 ", 0),
        ("18446744073709551615", u64::MAX),
        ("18446744073709551616", 0),
    ] {
        let json = format!(r#"{{"microtimestamp":"{text}"}}"#);
        let (event, micro, bids, asks) = bitstamp::walk(&json).unwrap();
        assert_eq!(event, "data");
        assert_eq!(micro, expected, "text: {text:?}");
        assert!(bids.is_empty() && asks.is_empty());
    }
    // A timestamp that is no string reads as zero.
    let (_, micro, bids, _) =
        bitstamp::walk(r#"{"microtimestamp":5,"bids":[["1","2"]]}"#).unwrap();
    assert_eq!(micro, 0);
    assert_eq!(bids.len(), 1);
}

#[test]
fn server_messages() {
    assert_eq!(
        server_message(r#"{"event":"bts:error","data":{"message":"Bad subscription"}}"#),
        "Bad subscription"
    );
    assert_eq!(server_message(r#"{"event":"bts:error"}"#), "unknown");
    assert_eq!(server_message(r#"{"message":7}"#), "unknown");
}

#[test]
fn build_book_stops_at_the_depth() {
    let pairs: Vec<String> = (0..15)
        .map(|i| format!(r#"["{}","{}"]"#, 100 + i, if i == 2 { 0 } else { 1 }))
        .collect();
    let json = format!(r#"{{"bids":[{}],"asks":[["x","1"]]}}"#, pairs.join(","));
    let (_, bids, asks) = binance::walk(&json).unwrap();
    assert_eq!(bids.len(), 15);
    let empty = binance::walk(r#"{"bids":[],"asks":[]}"#).unwrap().1;

    // The level with a zero amount is left out.
    let book = build_book(0, &bids, &empty, 11).unwrap();
    assert_eq!(book.bids.len(), DEPTH);
    assert_eq!(book.bids[2].price, fixed(103.0));
    assert_eq!(book.bids[DEPTH - 1].price, fixed(110.0));
    assert_eq!(book.decode_start, 11);

    // A malformed level spoils the book.
    assert!(build_book(0, &bids, &asks, 11).is_none());
}

#[test]
fn delivered_books_are_counted() {
    let (mut sender, mut receiver, mut shared) = slot();
    let mut m = ExchangeMetrics::new("binance");
    let mut b = book(0, &[raw(100.0, 1.0)], &[]);
    b.decode_start = 1_000;
    let r = deliver_book(b, 1_600, &mut sender, &mut shared, &mut m);
    assert_eq!(r, HandleResult::Continue);
    assert_eq!(m.messages, 1);
    assert_eq!(m.decode_latency.count, 1);
    assert_eq!(m.decode_latency.sum_ns, 600);
    assert_eq!(m.decode_latency.buckets[2], 1);
    assert_eq!(receiver.recv(&mut shared).unwrap().bids.len(), 1);

    // With the consumer gone, the adapter stops.
    drop(receiver);
    drop_half(&mut shared);
    let r = deliver_book(book(0, &[], &[]), 0, &mut sender, &mut shared, &mut m);
    assert_eq!(r, HandleResult::Shutdown);
    assert_eq!(m.messages, 2);
}

#[test]
fn payload_heads() {
    assert_eq!(payload_head("short"), "short");
    assert_eq!(payload_head(""), "");
    let ascii = "a".repeat(500);
    assert_eq!(payload_head(&ascii).len(), 200);
    // A character that would be cut in half is left out.
    let wide = format!("a{}", "\u{e9}".repeat(200));
    assert_eq!(payload_head(&wide).len(), 199);
    let wider = format!("{}\u{1f600}", "a".repeat(198));
    assert_eq!(payload_head(&wider), "a".repeat(198));
}

#[test]
fn books_of_a_run_have_rising_numbers() {
    let mut handler = BinanceHandler::new();
    let mut m = ExchangeMetrics::new("binance");
    let mut numbers: Vec<u64> = Vec::new();
    for n in [5, 7, 7, 3, 6, 8, 4, 20, 19, 21] {
        let text = format!(r#"{{"lastUpdateId":{n},"bids":[["1","1"]],"asks":[]}}"#);
        if let Processed::Book(_) = handler.process_text(&text, 0, &mut m) {
            numbers.push(n);
        }
    }
    assert_eq!(numbers, vec![5, 7, 8, 20, 21]);
    assert_eq!(m.errors, 5);
}

#[test]
fn a_number_of_zero_starts_the_order_anew() {
    let mut handler = BinanceHandler::new();
    let mut m = ExchangeMetrics::new("binance");
    let mut numbers: Vec<u64> = Vec::new();
    for n in [5, 0, 3, 3] {
        let text = format!(r#"{{"lastUpdateId":{n},"bids":[["1","1"]],"asks":[]}}"#);
        if let Processed::Book(_) = handler.process_text(&text, 0, &mut m) {
            numbers.push(n);
        }
    }
    assert_eq!(numbers, vec![5, 0, 3]);
}
