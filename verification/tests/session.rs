use orderbook_aggregator::exchange::session::{
    backoff_delay, draw_jitter, grow_backoff, Action, Event, Phase, Session, INITIAL_BACKOFF_MS,
    MAX_BACKOFF_MS,
};
use orderbook_aggregator::exchange::HandleResult;
use orderbook_aggregator::metrics::ExchangeMetrics;

fn start() -> (Session, ExchangeMetrics) {
    let (s, action) = Session::start(false);
    assert_eq!(action, Action::Connect);
    (s, ExchangeMetrics::new("test"))
}

fn reading() -> (Session, ExchangeMetrics) {
    let (mut s, mut m) = start();
    assert_eq!(s.step(Event::Connected, false, &mut m), Action::Subscribe);
    assert_eq!(s.step(Event::Subscribed, false, &mut m), Action::Read);
    assert!(m.connected);
    (s, m)
}

#[test]
fn jitter_stays_in_its_half() {
    for backoff in [0, 1, 2, 3, 1_000, 30_000] {
        for _ in 0..50 {
            let jitter = draw_jitter(backoff);
            let delay = backoff_delay(backoff, jitter);
            assert!(delay >= backoff / 2);
            assert!(delay < backoff.max(1));
        }
    }
}

#[test]
fn jitter_varies() {
    let draws: Vec<u64> = (0..200).map(|_| draw_jitter(30_000)).collect();
    assert!(draws.iter().any(|&d| d != draws[0]));
    assert!(draws.iter().all(|&d| d < 15_000));
}

#[test]
fn backoff_doubles_up_to_the_maximum() {
    let mut backoff = INITIAL_BACKOFF_MS;
    let mut seen = vec![backoff];
    for _ in 0..7 {
        backoff = grow_backoff(backoff, MAX_BACKOFF_MS);
        seen.push(backoff);
    }
    assert_eq!(
        seen,
        vec![1_000, 2_000, 4_000, 8_000, 16_000, 30_000, 30_000, 30_000]
    );
}

#[test]
fn delay_for_a_given_jitter() {
    assert_eq!(backoff_delay(1_000, 0), 500);
    assert_eq!(backoff_delay(1_000, 499), 999);
    let (mut s, mut m) = start();
    assert_eq!(
        s.advance(Event::ConnectFailed, false, 123, &mut m),
        Action::Sleep(623)
    );
}

#[test]
fn a_session_that_starts_cancelled() {
    let (s, action) = Session::start(true);
    assert_eq!(action, Action::Stop);
    assert_eq!(s.phase, Phase::Stopped);
}

#[test]
fn failed_connections_back_off() {
    let (mut s, mut m) = start();
    for (k, event) in [
        Event::ConnectTimedOut,
        Event::ConnectFailed,
        Event::ConnectTimedOut,
    ]
    .into_iter()
    .enumerate()
    {
        let half = s.backoff_ms / 2;
        match s.step(event, false, &mut m) {
            Action::Sleep(delay) => assert!(half <= delay && delay < 2 * half),
            other => panic!("unexpected {other:?}"),
        }
        assert_eq!(m.errors, k as u64 + 1);
        assert_eq!(m.reconnections, k as u64 + 1);
        assert!(!m.connected);
        assert_eq!(s.step(Event::Slept, false, &mut m), Action::Connect);
    }
    assert_eq!(s.backoff_ms, 8_000);
    // A connection resets the backoff.
    assert_eq!(s.step(Event::Connected, false, &mut m), Action::Subscribe);
    assert_eq!(s.backoff_ms, INITIAL_BACKOFF_MS);
}

#[test]
fn a_failed_subscription_is_an_error() {
    let (mut s, mut m) = start();
    s.step(Event::Connected, false, &mut m);
    assert!(m.connected);
    let action = s.step(Event::SubscribeFailed, false, &mut m);
    assert!(matches!(action, Action::Sleep(_)));
    assert!(!m.connected);
    assert_eq!((m.errors, m.reconnections), (1, 1));
}

#[test]
fn reading_goes_on() {
    let (mut s, mut m) = reading();
    let handled = Event::Handled(HandleResult::Continue);
    assert_eq!(s.step(handled, false, &mut m), Action::Read);
    assert_eq!(s.step(Event::OtherFrame, false, &mut m), Action::Read);
    assert_eq!(s.phase, Phase::Reading);
    assert_eq!((m.errors, m.reconnections), (0, 0));
    assert!(m.connected);
}

#[test]
fn lost_connections_reconnect() {
    for (event, errors) in [
        (Event::StreamError, 1),
        (Event::StreamEnded, 0),
        (Event::Handled(HandleResult::Reconnect), 0),
    ] {
        let (mut s, mut m) = reading();
        assert!(matches!(s.step(event, false, &mut m), Action::Sleep(_)));
        assert_eq!(s.phase, Phase::BackingOff);
        assert_eq!((m.errors, m.reconnections), (errors, 1));
        assert!(!m.connected);
    }
}

#[test]
fn a_consumer_that_is_gone_stops_the_session() {
    let (mut s, mut m) = reading();
    let action = s.step(Event::Handled(HandleResult::Shutdown), false, &mut m);
    assert_eq!(action, Action::Stop);
    assert_eq!(s.phase, Phase::Stopped);
    // The connection is closed.
    assert!(!m.connected);
    assert_eq!(m.reconnections, 0);
}

#[test]
fn cancellation_stops_the_session() {
    // While reading.
    let (mut s, mut m) = reading();
    assert_eq!(s.step(Event::Cancelled, true, &mut m), Action::Stop);
    assert!(!m.connected);

    // When the stream ends and shutdown was requested.
    let (mut s, mut m) = reading();
    assert_eq!(s.step(Event::StreamEnded, true, &mut m), Action::Stop);
    assert!(!m.connected);
    assert_eq!(m.reconnections, 0);

    // While backing off.
    let (mut s, mut m) = start();
    s.step(Event::ConnectFailed, false, &mut m);
    assert_eq!(s.step(Event::Cancelled, true, &mut m), Action::Stop);

    // Right after backing off.
    let (mut s, mut m) = start();
    s.step(Event::ConnectFailed, false, &mut m);
    assert_eq!(s.step(Event::Slept, true, &mut m), Action::Stop);
}

#[test]
fn a_long_run_keeps_the_flag_and_the_backoff() {
    let (mut s, mut m) = start();
    let mut action = Action::Connect;
    let mut sleeps = 0;
    for i in 0..500u32 {
        let event = match action {
            Action::Connect => match i % 3 {
                0 => Event::ConnectTimedOut,
                1 => Event::ConnectFailed,
                _ => Event::Connected,
            },
            Action::Subscribe => match i % 4 {
                0 => Event::SubscribeFailed,
                _ => Event::Subscribed,
            },
            Action::Read => match i % 5 {
                0 => Event::StreamEnded,
                1 => Event::OtherFrame,
                2 => Event::StreamError,
                _ => Event::Handled(HandleResult::Continue),
            },
            Action::Sleep(_) => Event::Slept,
            Action::Stop => panic!("nothing stopped the session"),
        };
        action = s.step(event, false, &mut m);
        if matches!(action, Action::Sleep(_)) {
            sleeps += 1;
        }
        assert!((INITIAL_BACKOFF_MS..=MAX_BACKOFF_MS).contains(&s.backoff_ms));
        let up = matches!(s.phase, Phase::Subscribing | Phase::Reading);
        assert_eq!(m.connected, up);
        assert_eq!(m.reconnections, sleeps);
    }
    assert!(sleeps > 0);
}

#[test]
fn nothing_is_drawn_without_a_delay() {
    fastrand::seed(7);
    let expected = draw_jitter(30_000);
    fastrand::seed(7);
    let (mut s, mut m) = reading();
    s.step(Event::Handled(HandleResult::Continue), false, &mut m);
    s.step(Event::OtherFrame, false, &mut m);
    assert_eq!(s.step(Event::StreamEnded, true, &mut m), Action::Stop);
    assert_eq!(draw_jitter(30_000), expected);
}

#[test]
fn one_number_is_drawn_for_a_delay() {
    fastrand::seed(7);
    let jitter = draw_jitter(INITIAL_BACKOFF_MS);
    let next = draw_jitter(30_000);
    fastrand::seed(7);
    let (mut s, mut m) = reading();
    let delay = backoff_delay(INITIAL_BACKOFF_MS, jitter);
    assert_eq!(s.step(Event::StreamEnded, false, &mut m), Action::Sleep(delay));
    assert_eq!(draw_jitter(30_000), next);
}
