use std::time::Duration;

use orderbook_aggregator::metrics::{
    elapsed_nanos, ExchangeMetrics, Metrics, PromHistogram, SumTexts,
};

fn seconds(h: &PromHistogram) -> String {
    format!("{}", h.sum_ns as f64 / 1_000_000_000.0)
}

fn sums(m: &Metrics) -> SumTexts {
    SumTexts {
        decode: m.exchanges.iter().map(|e| seconds(&e.decode_latency)).collect(),
        merge: seconds(&m.merge_latency),
        e2e: seconds(&m.e2e_latency),
    }
}

#[test]
fn health_all_connected_ok() {
    let mut metrics = Metrics::register(&["binance", "bitstamp"], 0);
    metrics.exchange("binance").connected = true;
    metrics.exchange("bitstamp").connected = true;

    let (status, body) = metrics.health();
    assert_eq!(status, 200);
    assert_eq!(body, "OK\n");
}

#[test]
fn health_partial_degraded() {
    let mut metrics = Metrics::register(&["binance", "bitstamp"], 0);
    metrics.exchange("binance").connected = true;

    let (status, body) = metrics.health();
    assert_eq!(status, 200);
    assert_eq!(body, "DEGRADED\n");
}

#[test]
fn health_none_down() {
    let metrics = Metrics::register(&["binance", "bitstamp"], 0);

    let (status, body) = metrics.health();
    assert_eq!(status, 503);
    assert_eq!(body, "DOWN\n");
}

#[test]
fn health_without_exchanges_is_ok() {
    assert_eq!(Metrics::register(&[], 0).health(), (200, "OK\n"));
}

#[test]
fn histogram_record_and_render() {
    let mut h = PromHistogram::new();

    // 500ns goes to bucket 1, 5us twice to bucket 3.
    h.record(Duration::from_nanos(500).as_nanos());
    h.record(Duration::from_micros(5).as_nanos());
    h.record(Duration::from_micros(5).as_nanos());

    let mut out = String::new();
    h.render("test_hist", "", &seconds(&h), &mut out);

    // Cumulative: 0 up to 100ns, 1 up to 500ns and 1us, 3 up to 5us and beyond.
    assert!(out.contains("test_hist_bucket{le=\"0.0000005\"} 1"));
    assert!(out.contains("test_hist_bucket{le=\"0.000001\"} 1"));
    assert!(out.contains("test_hist_bucket{le=\"0.000005\"} 3"));
    assert!(out.contains("test_hist_bucket{le=\"+Inf\"} 3"));
    assert!(out.contains("test_hist_count 3"));

    // Sum = 500 + 5000 + 5000 = 10500 ns = 0.0000105 s
    assert!(out.contains("test_hist_sum 0.0000105"));
}

#[test]
fn histogram_text_is_exact() {
    let mut h = PromHistogram::new();
    h.record(100);
    h.record(101);
    h.record(100_000_001);
    let mut out = "before\n".to_string();
    h.render("h", "a=\"b\"", "0.1", &mut out);
    let mut expected = "before\nh_bucket{a=\"b\",le=\"0.0000001\"} 1\n".to_string();
    for le in [
        "0.0000005", "0.000001", "0.000005", "0.00001", "0.000025", "0.00005", "0.0001",
        "0.00025", "0.0005", "0.001", "0.005", "0.01", "0.025", "0.05", "0.1",
    ] {
        expected.push_str(&format!("h_bucket{{a=\"b\",le=\"{le}\"}} 2\n"));
    }
    expected.push_str("h_bucket{a=\"b\",le=\"+Inf\"} 3\n");
    expected.push_str("h_sum{a=\"b\"} 0.1\n");
    expected.push_str("h_count{a=\"b\"} 3\n");
    assert_eq!(out, expected);
}

#[test]
fn histogram_buckets_at_their_bounds() {
    for (nanos, bucket) in [
        (0, 0),
        (100, 0),
        (101, 1),
        (500, 1),
        (1_000, 2),
        (1_001, 3),
        (25_000, 5),
        (99_999_999, 15),
        (100_000_000, 15),
        (100_000_001, 16),
        (u128::from(u64::MAX), 16),
        (u128::MAX, 16),
    ] {
        let mut h = PromHistogram::new();
        h.record(nanos);
        assert_eq!(h.buckets[bucket], 1, "nanos: {nanos}");
        assert_eq!(h.buckets.iter().sum::<u64>(), 1);
        assert_eq!(h.count, 1);
        assert_eq!(u128::from(h.sum_ns), nanos.min(u128::from(u64::MAX)));
    }
}

#[test]
fn histogram_sum_wraps() {
    let mut h = PromHistogram::new();
    h.record(u128::from(u64::MAX));
    h.record(3);
    assert_eq!(h.sum_ns, 2);
    assert_eq!(h.count, 2);
}

#[test]
fn exchange_handles_by_name() {
    let mut metrics = Metrics::register(&["binance", "bitstamp"], 0);
    metrics.exchange("bitstamp").errors = 4;
    assert_eq!(metrics.exchanges[1].errors, 4);
    assert_eq!(metrics.exchanges[0].errors, 0);
    assert_eq!(metrics.exchange("bitstamp").name, "bitstamp");
}

#[test]
fn new_exchange_metrics_are_zero() {
    let m = ExchangeMetrics::new("x");
    assert_eq!(m.name, "x");
    assert_eq!((m.messages, m.errors, m.reconnections, m.ring_drops), (0, 0, 0, 0));
    assert!(!m.connected);
    assert_eq!(m.decode_latency.count, 0);
}

#[test]
fn elapsed_is_never_negative() {
    assert_eq!(elapsed_nanos(3, 10), 7);
    assert_eq!(elapsed_nanos(10, 3), 0);
}

#[test]
fn prometheus_exposition() {
    let mut metrics = Metrics::register(&["binance", "bitstamp"], 1_000_000_000);
    metrics.exchange("binance").messages = 12;
    metrics.exchange("bitstamp").errors = 3;
    metrics.exchange("bitstamp").connected = true;
    metrics.merges = 99;
    metrics.exchange("binance").decode_latency.record(2_000);
    metrics.e2e_latency.record(1_500_000_000);
    let text = metrics.to_prometheus(6_999_999_999, &sums(&metrics));

    for line in [
        "# HELP orderbook_messages_total WebSocket messages received\n# TYPE orderbook_messages_total counter\norderbook_messages_total{exchange=\"binance\"} 12\norderbook_messages_total{exchange=\"bitstamp\"} 0\n",
        "# HELP orderbook_errors_total Parse/connection errors\n# TYPE orderbook_errors_total counter\norderbook_errors_total{exchange=\"binance\"} 0\norderbook_errors_total{exchange=\"bitstamp\"} 3\n",
        "# TYPE orderbook_reconnections_total counter\n",
        "# TYPE orderbook_ring_drops_total counter\n",
        "# TYPE orderbook_merges_total counter\norderbook_merges_total 99\n",
        "# TYPE orderbook_exchange_up gauge\norderbook_exchange_up{exchange=\"binance\"} 0\norderbook_exchange_up{exchange=\"bitstamp\"} 1\n",
        "# TYPE orderbook_uptime_seconds gauge\norderbook_uptime_seconds 5\n",
        "# TYPE orderbook_decode_duration_seconds histogram\n",
        "orderbook_decode_duration_seconds_bucket{exchange=\"binance\",le=\"0.000005\"} 1\n",
        "orderbook_decode_duration_seconds_sum{exchange=\"binance\"} 0.000002\n",
        "orderbook_decode_duration_seconds_count{exchange=\"bitstamp\"} 0\n",
        "# TYPE orderbook_merge_duration_seconds histogram\n",
        "orderbook_merge_duration_seconds_sum 0\n",
        "# TYPE orderbook_e2e_duration_seconds histogram\n",
        "orderbook_e2e_duration_seconds_bucket{le=\"0.1\"} 0\n",
        "orderbook_e2e_duration_seconds_bucket{le=\"+Inf\"} 1\n",
        "orderbook_e2e_duration_seconds_sum 1.5\n",
    ] {
        assert!(text.contains(line), "missing: {line}");
    }
    assert!(text.starts_with("# HELP orderbook_messages_total "));
    assert!(text.ends_with("orderbook_e2e_duration_seconds_count 1\n"));
    assert_eq!(text.matches("# TYPE ").count(), 10);
}

#[test]
fn counts_are_of_durations_not_above_the_bound() {
    let bounds = [
        (100, "0.0000001"),
        (1_000, "0.000001"),
        (250_000, "0.00025"),
        (100_000_000, "0.1"),
    ];
    let durations: [u128; 9] =
        [0, 100, 101, 1_000, 1_001, 250_000, 99_999_999, 100_000_001, u128::MAX];
    let mut h = PromHistogram::new();
    for d in durations {
        h.record(d);
    }
    let mut out = String::new();
    h.render("run", "", "0", &mut out);
    for (bound, le) in bounds {
        let count = durations.iter().filter(|&&d| d <= bound).count();
        assert!(out.contains(&format!("run_bucket{{le=\"{le}\"}} {count}\n")), "bound {le}");
    }
    assert_eq!(h.count, 9);
}
