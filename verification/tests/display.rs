use orderbook_aggregator::display::{
    ask_rows, bid_rows, ends_client, spread_padding, App, Key, Row,
};

#[test]
fn app_counts_updates() {
    let mut app = App::new("ETHBTC".to_string(), 5);
    assert!(app.summary.is_none());
    assert_eq!(app.start, 5);
    app.on_summary(1);
    app.on_summary(2);
    assert_eq!(app.summary, Some(2));
    assert_eq!(app.updates, 2);
    assert_eq!(app.symbol, "ETHBTC");
}

#[test]
fn asks_stand_upside_down() {
    let row = |level, total| Row { level, total };
    assert_eq!(
        ask_rows(3),
        vec![row(2, Some(2)), row(1, Some(1)), row(0, Some(0))]
    );
    assert_eq!(
        bid_rows(2),
        vec![row(0, Some(0)), row(1, Some(1))]
    );
    assert!(ask_rows(0).is_empty());
}

#[test]
fn totals_are_kept_for_ten_levels() {
    let asks = ask_rows(12);
    assert_eq!(asks[0], Row { level: 11, total: Some(9) });
    assert_eq!(asks[9], Row { level: 2, total: Some(0) });
    assert_eq!(asks[10], Row { level: 1, total: None });
    let bids = bid_rows(12);
    assert_eq!(bids[9], Row { level: 9, total: Some(9) });
    assert_eq!(bids[11], Row { level: 11, total: None });
}

#[test]
fn the_spread_is_centred() {
    assert_eq!(spread_padding(30), 20);
    assert_eq!(spread_padding(31), 19);
    assert_eq!(spread_padding(70), 0);
    assert_eq!(spread_padding(1000), 0);
}

#[test]
fn keys_that_end_the_client() {
    assert!(ends_client(Key::Char('q'), false));
    assert!(ends_client(Key::Escape, false));
    assert!(ends_client(Key::Char('c'), true));
    assert!(!ends_client(Key::Char('c'), false));
    assert!(!ends_client(Key::Char('x'), true));
    assert!(!ends_client(Key::Other, true));
}
