use orderbook_aggregator::merger::{
    count_merge, last_core, merge, merge_top_n, next_poll, on_book, BookStore, Poll, Side,
    TaggedSlice, STALE_THRESHOLD,
};
use orderbook_aggregator::metrics::Metrics;
use orderbook_aggregator::types::{ExchangeId, FixedPoint, OrderBook, RawLevel, DEPTH};

/// The time at which the books of these tests are made.
const NOW: u64 = 100_000_000_000;

/// Ten seconds.
const OLD: u64 = 10_000_000_000;

fn fixed(v: f64) -> FixedPoint {
    FixedPoint::from_raw((v * FixedPoint::SCALE as f64).round() as u64)
}

fn raw(price: f64, amount: f64) -> RawLevel {
    RawLevel {
        price: fixed(price),
        amount: fixed(amount),
    }
}

fn book(exchange_id: ExchangeId, bids: &[RawLevel], asks: &[RawLevel]) -> OrderBook {
    OrderBook {
        exchange_id,
        bids: bids.iter().copied().collect(),
        asks: asks.iter().copied().collect(),
        decode_start: NOW,
    }
}

#[test]
fn merge_two_exchanges() {
    let mut books = BookStore::new();
    books.insert(book(
        0,
        &[raw(100.0, 5.0), raw(99.0, 3.0)],
        &[raw(101.0, 4.0), raw(102.0, 2.0)],
    ));
    books.insert(book(
        1,
        &[raw(100.5, 2.0), raw(99.5, 1.0)],
        &[raw(100.8, 3.0), raw(101.5, 1.0)],
    ));

    let summary = merge(&books);

    // Best bid should be exchange 1 at 100.5.
    assert_eq!(summary.bids[0].exchange_id, 1);
    assert_eq!(summary.bids[0].price, fixed(100.5));

    // Best ask should be exchange 1 at 100.8.
    assert_eq!(summary.asks[0].exchange_id, 1);
    assert_eq!(summary.asks[0].price, fixed(100.8));

    // Spread = 100.8 - 100.5 = 0.3.
    assert_eq!(summary.spread_raw, 30_000_000);

    // All 4 levels on each side.
    assert_eq!(summary.bids.len(), 4);
    assert_eq!(summary.asks.len(), 4);
}

#[test]
fn merge_truncates_to_top_n() {
    let mut books = BookStore::new();

    // Two exchanges at capacity give twice as many levels as come out.
    books.insert(book(
        0,
        &(0..DEPTH)
            .map(|i| raw(100.0 - i as f64, 1.0))
            .collect::<Vec<_>>(),
        &(0..DEPTH)
            .map(|i| raw(101.0 + i as f64, 1.0))
            .collect::<Vec<_>>(),
    ));
    books.insert(book(
        1,
        &(0..DEPTH)
            .map(|i| raw(99.5 - i as f64, 1.0))
            .collect::<Vec<_>>(),
        &(0..DEPTH)
            .map(|i| raw(101.5 + i as f64, 1.0))
            .collect::<Vec<_>>(),
    ));

    let summary = merge(&books);
    assert_eq!(summary.bids.len(), DEPTH);
    assert_eq!(summary.asks.len(), DEPTH);
}

#[test]
fn merge_empty() {
    let books = BookStore::new();

    let summary = merge(&books);
    assert!(summary.bids.is_empty());
    assert!(summary.asks.is_empty());
    assert_eq!(summary.spread_raw, 0);
}

#[test]
fn bid_tiebreak_by_amount() {
    let mut books = BookStore::new();

    // Same price from two exchanges: the larger amount comes first.
    books.insert(book(0, &[raw(100.0, 1.0)], &[]));
    books.insert(book(1, &[raw(100.0, 5.0)], &[]));

    let summary = merge(&books);
    assert_eq!(summary.bids[0].amount, fixed(5.0));
    assert_eq!(summary.bids[1].amount, fixed(1.0));
}

#[test]
fn single_exchange_only() {
    let mut books = BookStore::new();
    books.insert(book(
        0,
        &[raw(100.0, 5.0), raw(99.0, 3.0)],
        &[raw(101.0, 4.0), raw(102.0, 2.0)],
    ));

    let summary = merge(&books);
    assert_eq!(summary.bids.len(), 2);
    assert_eq!(summary.asks.len(), 2);
    assert_eq!(summary.bids[0].price, fixed(100.0));
    assert_eq!(summary.asks[0].price, fixed(101.0));
    // Spread = 101.0 - 100.0 = 1.0.
    assert_eq!(summary.spread_raw, 100_000_000);
}

#[test]
fn crossed_book_negative_spread() {
    let mut books = BookStore::new();

    // The best bid of exchange 0 exceeds the best ask of exchange 1.
    books.insert(book(0, &[raw(102.0, 1.0)], &[raw(103.0, 1.0)]));
    books.insert(book(1, &[raw(99.0, 1.0)], &[raw(101.0, 1.0)]));

    let summary = merge(&books);
    assert_eq!(summary.bids[0].price, fixed(102.0));
    assert_eq!(summary.asks[0].price, fixed(101.0));
    assert!(summary.spread_raw < 0);
    // 101.0 - 102.0 = -1.0.
    assert_eq!(summary.spread_raw, -100_000_000);
}

#[test]
fn ask_tiebreak_by_amount() {
    let mut books = BookStore::new();

    // Same ask price from two exchanges: the larger amount comes first.
    books.insert(book(0, &[], &[raw(100.0, 1.0)]));
    books.insert(book(1, &[], &[raw(100.0, 5.0)]));

    let summary = merge(&books);
    assert_eq!(summary.asks[0].amount, fixed(5.0));
    assert_eq!(summary.asks[1].amount, fixed(1.0));
}

#[test]
fn kway_merge_interleaves() {
    let mut books = BookStore::new();
    books.insert(book(
        0,
        &[raw(100.0, 1.0), raw(98.0, 1.0), raw(96.0, 1.0)],
        &[],
    ));
    books.insert(book(
        1,
        &[raw(99.0, 1.0), raw(97.0, 1.0), raw(95.0, 1.0)],
        &[],
    ));

    let summary = merge(&books);
    let prices: Vec<f64> = summary
        .bids
        .iter()
        .map(|l| l.price.raw() as f64 / FixedPoint::SCALE as f64)
        .collect();
    assert_eq!(prices, vec![100.0, 99.0, 98.0, 97.0, 96.0, 95.0]);
}

#[test]
fn stale_book_eviction() {
    let mut books = BookStore::new();
    let mut old_book = book(0, &[raw(100.0, 1.0)], &[raw(101.0, 1.0)]);
    old_book.decode_start = NOW - OLD;
    books.insert(old_book);

    // Fresh book.
    books.insert(book(1, &[raw(99.0, 2.0)], &[raw(102.0, 3.0)]));

    books.evict_stale(NOW, STALE_THRESHOLD);
    let summary = merge(&books);

    // Only the fresh exchange survives.
    assert_eq!(summary.bids.len(), 1);
    assert_eq!(summary.bids[0].exchange_id, 1);
}

#[test]
fn bookstore_insert_updates_existing() {
    let mut books = BookStore::new();

    books.insert(book(0, &[raw(100.0, 1.0)], &[raw(101.0, 1.0)]));
    // A second book of the same exchange overwrites the first.
    books.insert(book(0, &[raw(200.0, 5.0)], &[raw(201.0, 5.0)]));

    let summary = merge(&books);
    assert_eq!(summary.bids.len(), 1);
    assert_eq!(summary.bids[0].price, fixed(200.0));
    assert_eq!(summary.asks[0].price, fixed(201.0));
}

#[test]
fn bookstore_insert_out_of_range() {
    let mut books = BookStore::new();

    // Valid insert.
    books.insert(book(0, &[raw(100.0, 1.0)], &[]));

    // An id out of range is dropped.
    books.insert(book(99, &[raw(50.0, 1.0)], &[]));

    let summary = merge(&books);
    assert_eq!(summary.bids.len(), 1);
    assert_eq!(summary.bids[0].exchange_id, 0);
}

#[test]
fn bookstore_evict_stale_keeps_fresh() {
    let mut books = BookStore::new();
    books.insert(book(0, &[raw(100.0, 1.0)], &[raw(101.0, 1.0)]));
    books.insert(book(1, &[raw(99.0, 2.0)], &[raw(102.0, 2.0)]));

    // Neither is evicted right away.
    books.evict_stale(NOW, STALE_THRESHOLD);
    let summary = merge(&books);
    assert_eq!(summary.bids.len(), 2);
    assert_eq!(summary.asks.len(), 2);
}

#[test]
fn bookstore_reinsert_after_eviction() {
    let mut books = BookStore::new();
    let mut old_book = book(0, &[raw(100.0, 1.0)], &[raw(101.0, 1.0)]);
    old_book.decode_start = NOW - OLD;
    books.insert(old_book);

    // Evict it.
    books.evict_stale(NOW, STALE_THRESHOLD);
    let summary = merge(&books);
    assert!(summary.bids.is_empty());

    // A fresh book of the same exchange is taken again.
    books.insert(book(0, &[raw(200.0, 5.0)], &[raw(201.0, 5.0)]));
    let summary = merge(&books);
    assert_eq!(summary.bids.len(), 1);
    assert_eq!(summary.bids[0].price, fixed(200.0));
}

#[test]
fn merge_asymmetric_empty_sides() {
    let mut books = BookStore::new();

    // Exchange 0: bids only. Exchange 1: asks only.
    books.insert(book(0, &[raw(100.0, 1.0)], &[]));
    books.insert(book(1, &[], &[raw(101.0, 1.0)]));

    let summary = merge(&books);
    assert_eq!(summary.bids.len(), 1);
    assert_eq!(summary.asks.len(), 1);
    assert_eq!(summary.spread_raw, 100_000_000); // 101 - 100 = 1.0
}

#[test]
fn merge_single_side_only() {
    let mut books = BookStore::new();

    // Only bids from any exchange: no spread.
    books.insert(book(0, &[raw(100.0, 1.0), raw(99.0, 2.0)], &[]));
    books.insert(book(1, &[raw(100.5, 3.0)], &[]));

    let summary = merge(&books);
    assert_eq!(summary.bids.len(), 3);
    assert!(summary.asks.is_empty());
    assert_eq!(summary.spread_raw, 0);
}

#[test]
fn exact_ties_go_to_the_lower_id() {
    let mut books = BookStore::default();
    books.insert(book(1, &[raw(100.0, 1.0)], &[raw(101.0, 1.0)]));
    books.insert(book(0, &[raw(100.0, 1.0)], &[raw(101.0, 1.0)]));
    let summary = merge(&books);
    assert_eq!(summary.bids[0].exchange_id, 0);
    assert_eq!(summary.asks[0].exchange_id, 0);
    assert_eq!(summary.bids[1].exchange_id, 1);
}

#[test]
fn a_book_is_stale_only_beyond_the_threshold() {
    let mut books = BookStore::new();
    books.insert(book(0, &[raw(1.0, 1.0)], &[]));
    books.evict_stale(NOW + STALE_THRESHOLD, STALE_THRESHOLD);
    assert_eq!(merge(&books).bids.len(), 1);
    books.evict_stale(NOW + STALE_THRESHOLD + 1, STALE_THRESHOLD);
    assert!(merge(&books).bids.is_empty());
    // A book from the future has no age.
    books.insert(book(0, &[raw(1.0, 1.0)], &[]));
    books.evict_stale(0, 0);
    assert_eq!(merge(&books).bids.len(), 1);
}

#[test]
fn every_exchange_keeps_its_own_order() {
    let mut books = BookStore::new();
    // Not sorted: the order of the book stays nevertheless.
    books.insert(book(0, &[raw(1.0, 1.0), raw(3.0, 1.0), raw(2.0, 1.0)], &[]));
    books.insert(book(1, &[raw(2.5, 1.0)], &[]));
    let summary = merge(&books);
    let own: Vec<u64> = summary
        .bids
        .iter()
        .filter(|l| l.exchange_id == 0)
        .map(|l| l.price.raw() / FixedPoint::SCALE)
        .collect();
    assert_eq!(own, vec![1, 3, 2]);
    assert_eq!(summary.bids[0].exchange_id, 1);
}

#[test]
fn levels_beyond_the_depth_play_no_part() {
    let many: Vec<RawLevel> = (0..30).map(|i| raw(100.0 - f64::from(i), 1.0)).collect();
    let other: Vec<RawLevel> = (0..30).map(|i| raw(90.5 - f64::from(i), 1.0)).collect();
    let long = [
        TaggedSlice {
            exchange_id: 0,
            levels: &many,
        },
        TaggedSlice {
            exchange_id: 1,
            levels: &other,
        },
    ];
    let short = [
        TaggedSlice {
            exchange_id: 0,
            levels: &many[..DEPTH],
        },
        TaggedSlice {
            exchange_id: 1,
            levels: &other[..DEPTH],
        },
    ];
    let a = merge_top_n(&long, Side::Bids, DEPTH);
    let b = merge_top_n(&short, Side::Bids, DEPTH);
    assert_eq!(a, b);
    assert_eq!(a.len(), DEPTH);
}

#[test]
fn merge_top_n_stops_at_n_and_at_capacity() {
    let many: Vec<RawLevel> = (0..30).map(|i| raw(100.0 + f64::from(i), 1.0)).collect();
    let slices = [TaggedSlice {
        exchange_id: 1,
        levels: &many,
    }];
    assert!(merge_top_n(&slices, Side::Asks, 0).is_empty());
    let three = merge_top_n(&slices, Side::Asks, 3);
    assert_eq!(three.len(), 3);
    assert_eq!(three[2].price, fixed(102.0));
    assert_eq!(merge_top_n(&slices, Side::Asks, 1000).len(), DEPTH);
    assert!(merge_top_n(&[], Side::Asks, 10).is_empty());
}

#[test]
fn spread_beyond_63_bits_wraps() {
    let level = |price: u64| RawLevel {
        price: FixedPoint::from_raw(price),
        amount: FixedPoint::from_raw(1),
    };
    for (ask, bid, spread) in [
        (u64::MAX, u64::MAX - 5, 5),
        (u64::MAX - 5, u64::MAX, -5),
        (i64::MAX as u64, 0, i64::MAX),
        (u64::MAX, 0, -1),
        (0, u64::MAX, 1),
        (0, 1 << 63, i64::MIN),
    ] {
        let mut books = BookStore::new();
        books.insert(book(0, &[level(bid)], &[level(ask)]));
        assert_eq!(merge(&books).spread_raw, spread, "ask {ask}, bid {bid}");
    }
}

#[test]
fn a_book_gives_a_summary_without_stale_ones() {
    let mut books = BookStore::new();
    let first = on_book(&mut books, book(0, &[raw(100.0, 1.0)], &[raw(101.0, 1.0)]), NOW);
    assert_eq!(first.bids.len(), 1);

    let later = NOW + OLD;
    let mut second = book(1, &[raw(99.0, 1.0)], &[raw(102.0, 1.0)]);
    second.decode_start = later;
    let summary = on_book(&mut books, second, later + 5);
    assert_eq!(summary.bids.len(), 1);
    assert_eq!(summary.bids[0].exchange_id, 1);
    assert_eq!(summary.spread_raw, 300_000_000);
}

#[test]
fn poll_decisions() {
    assert_eq!(next_poll(true, &[false, false]), Poll::Cancelled);
    assert_eq!(next_poll(true, &[true, true]), Poll::Cancelled);
    assert_eq!(next_poll(false, &[true, true]), Poll::Abandoned);
    assert_eq!(next_poll(false, &[]), Poll::Abandoned);
    assert_eq!(next_poll(false, &[true, false]), Poll::Look);
}

#[test]
fn merges_are_counted_with_their_latency() {
    let mut registry = Metrics::register(&["binance"], NOW);
    count_merge(&mut registry, NOW, NOW + 700);
    assert_eq!(registry.merges, 1);
    assert_eq!(registry.e2e_latency.count, 1);
    assert_eq!(registry.e2e_latency.sum_ns, 700);
    assert_eq!(registry.e2e_latency.buckets[2], 1);
    assert_eq!(registry.merge_latency.count, 0);
}

#[test]
fn the_merger_takes_the_last_core() {
    assert_eq!(last_core(4), Some(3));
    assert_eq!(last_core(1), Some(0));
    assert_eq!(last_core(0), None);
    assert_eq!(last_core(-1), None);
}

#[test]
fn order_book_clone_keeps_everything() {
    let b = book(1, &[raw(2.0, 1.0)], &[raw(3.0, 1.0), raw(4.0, 1.0)]);
    let c = b.clone();
    assert_eq!(c.exchange_id, 1);
    assert_eq!(c.bids, b.bids);
    assert_eq!(c.asks, b.asks);
    assert_eq!(c.decode_start, NOW);
}

#[test]
fn the_latest_book_of_each_exchange_counts() {
    let mut books = BookStore::new();
    for price in 1..=9 {
        let id = if price % 3 == 0 { 1 } else { 0 };
        books.insert(book(id, &[raw(f64::from(price), 1.0)], &[]));
    }
    let summary = merge(&books);
    let prices: Vec<u64> = summary
        .bids
        .iter()
        .map(|l| l.price.raw() / FixedPoint::SCALE)
        .collect();
    assert_eq!(prices, vec![9, 8]);
}

#[test]
fn sorted_books_give_sorted_sides() {
    let mut books = BookStore::new();
    books.insert(book(
        0,
        &[raw(9.0, 1.0), raw(7.0, 3.0), raw(7.0, 2.0)],
        &[raw(10.0, 1.0), raw(12.0, 1.0)],
    ));
    books.insert(book(
        1,
        &[raw(8.0, 1.0), raw(7.0, 2.5), raw(1.0, 1.0)],
        &[raw(11.0, 1.0), raw(12.0, 2.0)],
    ));
    let summary = merge(&books);
    assert!(summary
        .bids
        .windows(2)
        .all(|w| (w[0].price, w[0].amount) >= (w[1].price, w[1].amount)));
    assert!(summary.asks.windows(2).all(|w| w[0].price <= w[1].price));
    assert_eq!(summary.bids[0].price, fixed(9.0));
    assert_eq!(summary.asks[0].price, fixed(10.0));
    assert_eq!(summary.asks[2].amount, fixed(2.0));
    assert_eq!(summary.spread_raw, 100_000_000);
}

#[test]
fn equal_levels_stand_by_exchange_id() {
    let mut books = BookStore::new();
    let bids = [raw(100.0, 2.0), raw(99.0, 1.0), raw(98.0, 1.0)];
    let asks = [raw(101.0, 2.0), raw(102.0, 1.0), raw(103.0, 1.0)];
    books.insert(book(1, &bids, &asks));
    books.insert(book(0, &bids, &asks));
    let summary = merge(&books);
    for side in [&summary.bids, &summary.asks] {
        let ids: Vec<ExchangeId> = side.iter().map(|l| l.exchange_id).collect();
        assert_eq!(ids, vec![0, 1, 0, 1, 0, 1]);
    }
}

#[test]
fn a_run_of_books_leaves_the_latest_fresh_ones() {
    let arrivals = [(0, 1.0, 0), (1, 2.0, 1), (0, 3.0, 2), (0, 4.0, 3), (1, 5.0, 4)];
    let mut books = BookStore::new();
    for (id, price, secs) in arrivals {
        let now = NOW + secs * 1_000_000_000;
        let mut b = book(id, &[raw(price, 1.0)], &[]);
        b.decode_start = now;
        on_book(&mut books, b, now);
    }
    assert_eq!(books.books[0].as_ref().unwrap().bids[0].price, fixed(4.0));
    assert_eq!(books.books[1].as_ref().unwrap().bids[0].price, fixed(5.0));

    // By now the latest book of exchange 0 is stale, and no earlier one is back.
    let later = NOW + 3_000_000_000 + STALE_THRESHOLD + 1;
    let mut b = book(1, &[raw(6.0, 1.0)], &[]);
    b.decode_start = later;
    let summary = on_book(&mut books, b, later);
    assert!(books.books[0].is_none());
    assert_eq!(books.books[1].as_ref().unwrap().bids[0].price, fixed(6.0));
    assert_eq!(summary.bids.len(), 1);
}
