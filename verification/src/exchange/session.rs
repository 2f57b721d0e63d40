//! The reconnection loop as a state machine.
//!
//! Connecting, subscribing, reading and sleeping happen elsewhere. A
//! [`Session`] is told how each of them went and says what to do next; it keeps
//! the counters and the backoff.

use vstd::prelude::*;

use crate::exchange::HandleResult;
use crate::metrics;
use crate::metrics::ExchangeMetrics;

verus! {

/// Connection timeout for the WebSocket handshake, in seconds.
pub const CONNECT_TIMEOUT_SECS: u64 = 10;

/// Maximum reconnection backoff in milliseconds.
pub const MAX_BACKOFF_MS: u64 = 30_000;

/// Initial reconnection backoff in milliseconds, before it grows.
pub const INITIAL_BACKOFF_MS: u64 = 1_000;

/// Where a session stands.
#[derive(Debug, Clone, Copy, PartialEq, Eq, Structural)]
pub enum Phase {
    Connecting,
    Subscribing,
    Reading,
    BackingOff,
    Stopped,
}

/// How the last action went.
#[derive(Debug, Clone, Copy, PartialEq, Eq, Structural)]
pub enum Event {
    /// The handshake did not finish in time.
    ConnectTimedOut,
    ConnectFailed,
    Connected,
    /// The subscription was sent, or none is needed.
    Subscribed,
    SubscribeFailed,
    /// A text frame was handled.
    Handled(HandleResult),
    /// A frame that holds no text.
    OtherFrame,
    StreamError,
    StreamEnded,
    /// The wait for a frame or for the backoff was cancelled.
    Cancelled,
    /// The backoff is over.
    Slept,
}

/// What to do next.
#[derive(Debug, Clone, Copy, PartialEq, Eq, Structural)]
pub enum Action {
    Connect,
    /// Reset the adapter, then send its subscription, if it has one.
    Subscribe,
    /// Wait for the next frame, or for cancellation.
    Read,
    /// Wait so many milliseconds, or for cancellation.
    Sleep(u64),
    Stop,
}

/// How many values the random part of a delay can take.
pub open spec fn jitter_bound(backoff_ms: u64) -> u64 {
    if backoff_ms / 2 > 1 {
        backoff_ms / 2
    } else {
        1
    }
}

/// A delay: half the backoff, and a random part up to the other half.
pub open spec fn delay_of(backoff_ms: u64, jitter: u64) -> u64 {
    (backoff_ms / 2 + jitter) as u64
}

/// The backoff after a delay: twice as much, up to `max_ms`.
pub open spec fn grown(backoff_ms: u64, max_ms: u64) -> u64 {
    if backoff_ms * 2 < max_ms {
        (backoff_ms * 2) as u64
    } else {
        max_ms
    }
}

/// `fastrand::u64` on a range from zero: some number below `bound`; which one is
/// left to chance. It panics where there is none.
#[verifier::external_body]
fn random_below(bound: u64) -> (r: u64)
    requires
        bound > 0,
    ensures
        r < bound,
{
    fastrand::u64(0..bound)
}

/// The delay before the next attempt, for a given random part.
pub fn backoff_delay(backoff_ms: u64, jitter: u64) -> (r: u64)
    requires
        jitter < jitter_bound(backoff_ms),
    ensures
        r == delay_of(backoff_ms, jitter),
{
    backoff_ms / 2 + jitter
}

/// Draw the random part of a delay, below [`jitter_bound`] of the backoff.
pub fn draw_jitter(backoff_ms: u64) -> (r: u64)
    ensures
        drawn_below(jitter_bound(backoff_ms), r),
        r < jitter_bound(backoff_ms),
{
    let half: u64 = backoff_ms / 2;
    random_below(
        if half > 1 {
            half
        } else {
            1
        },
    )
}

/// Whether `r` is what the random number generator gave when it was asked for a
/// number below `bound`.
pub closed spec fn drawn_below(bound: u64, r: u64) -> bool {
    call_ensures(random_below, (bound,), r)
}

/// Whether an event is followed by a backoff.
fn needs_delay(event: Event, cancelled: bool) -> (r: bool)
    ensures
        r == backs_off(event, cancelled),
{
    if cancelled {
        return false;
    }
    match event {
        Event::ConnectTimedOut
        | Event::ConnectFailed
        | Event::SubscribeFailed
        | Event::StreamError
        | Event::StreamEnded => true,
        Event::Handled(result) => result == HandleResult::Reconnect,
        _ => false,
    }
}

/// The backoff after a delay. Twice as much, up to `max_ms`.
pub fn grow_backoff(backoff_ms: u64, max_ms: u64) -> (r: u64)
    requires
        backoff_ms * 2 <= u64::MAX,
    ensures
        r == grown(backoff_ms, max_ms),
{
    let doubled: u64 = backoff_ms * 2;
    if doubled < max_ms {
        doubled
    } else {
        max_ms
    }
}

/// A connection to an exchange, over all its reconnections.
#[derive(Debug, Clone, Copy, PartialEq, Eq, Structural)]
pub struct Session {
    pub phase: Phase,
    pub backoff_ms: u64,
}

/// What follows a lost connection: back off and try again, unless cancelled.
pub open spec fn after_loss(s: Session, cancelled: bool, jitter: u64) -> (Session, Action) {
    if cancelled {
        (Session { phase: Phase::Stopped, ..s }, Action::Stop)
    } else {
        (
            Session { phase: Phase::BackingOff, ..s },
            Action::Sleep(delay_of(s.backoff_ms, jitter)),
        )
    }
}

/// Whether an event can occur where the session stands.
pub open spec fn expects(phase: Phase, event: Event) -> bool {
    match event {
        Event::ConnectTimedOut | Event::ConnectFailed | Event::Connected => phase is Connecting,
        Event::Subscribed | Event::SubscribeFailed => phase is Subscribing,
        Event::Handled(_) | Event::OtherFrame | Event::StreamError | Event::StreamEnded => phase
            is Reading,
        Event::Cancelled => phase is Reading || phase is BackingOff,
        Event::Slept => phase is BackingOff,
    }
}

/// Whether an event means that the connection could not be made or was lost.
pub open spec fn loses_connection(event: Event) -> bool {
    match event {
        Event::ConnectTimedOut
        | Event::ConnectFailed
        | Event::SubscribeFailed
        | Event::StreamError
        | Event::StreamEnded => true,
        Event::Handled(result) => result is Reconnect,
        _ => false,
    }
}

/// Whether an event counts as an error.
pub open spec fn is_error(event: Event) -> bool {
    match event {
        Event::ConnectTimedOut
        | Event::ConnectFailed
        | Event::SubscribeFailed
        | Event::StreamError => true,
        _ => false,
    }
}

/// Whether an event is followed by a backoff: a connection is lost, and the
/// session is to go on.
pub open spec fn backs_off(event: Event, cancelled: bool) -> bool {
    loses_connection(event) && !cancelled
}

/// Where an event leads, and what is done there. `cancelled` says whether
/// shutdown was requested by then.
pub open spec fn next(s: Session, event: Event, cancelled: bool, jitter: u64) -> (
    Session,
    Action,
) {
    if loses_connection(event) {
        after_loss(s, cancelled, jitter)
    } else {
        match event {
            Event::Connected => (
                Session { phase: Phase::Subscribing, backoff_ms: INITIAL_BACKOFF_MS },
                Action::Subscribe,
            ),
            Event::Subscribed => (Session { phase: Phase::Reading, ..s }, Action::Read),
            Event::Handled(result) if result is Shutdown => (
                Session { phase: Phase::Stopped, ..s },
                Action::Stop,
            ),
            Event::Cancelled => (Session { phase: Phase::Stopped, ..s }, Action::Stop),
            Event::Slept => {
                let backoff_ms = grown(s.backoff_ms, MAX_BACKOFF_MS);
                if cancelled {
                    (Session { phase: Phase::Stopped, backoff_ms }, Action::Stop)
                } else {
                    (Session { phase: Phase::Connecting, backoff_ms }, Action::Connect)
                }
            },
            _ => (s, Action::Read),
        }
    }
}

/// Whether the exchange counts as connected after an event.
pub open spec fn connected_after(connected: bool, phase: Phase, event: Event) -> bool {
    if event is Connected {
        true
    } else if phase is Connecting || phase is BackingOff {
        connected
    } else if loses_connection(event) || event is Cancelled || event == Event::Handled(
        HandleResult::Shutdown,
    ) {
        false
    } else {
        connected
    }
}

/// The counters after an event.
pub open spec fn counted(
    m: ExchangeMetrics,
    phase: Phase,
    event: Event,
    cancelled: bool,
) -> ExchangeMetrics {
    ExchangeMetrics {
        errors: if is_error(event) {
            metrics::wrapped(m.errors + 1)
        } else {
            m.errors
        },
        reconnections: if backs_off(event, cancelled) {
            metrics::wrapped(m.reconnections + 1)
        } else {
            m.reconnections
        },
        connected: connected_after(m.connected, phase, event),
        ..m
    }
}

impl Session {
    /// The backoff stays within its bounds.
    pub open spec fn wf(&self) -> bool {
        INITIAL_BACKOFF_MS <= self.backoff_ms <= MAX_BACKOFF_MS
    }

    /// Begin: connect, unless cancelled.
    pub fn start(cancelled: bool) -> (r: (Session, Action))
        ensures
            r.0.wf(),
            r.0.backoff_ms == INITIAL_BACKOFF_MS,
            cancelled ==> r.0.phase is Stopped && r.1 is Stop,
            !cancelled ==> r.0.phase is Connecting && r.1 is Connect,
    {
        if cancelled {
            (Session { phase: Phase::Stopped, backoff_ms: INITIAL_BACKOFF_MS }, Action::Stop)
        } else {
            (Session { phase: Phase::Connecting, backoff_ms: INITIAL_BACKOFF_MS }, Action::Connect)
        }
    }

    /// The connection could not be made or was lost.
    fn lose(&mut self, cancelled: bool, jitter: u64, metrics: &mut ExchangeMetrics) -> (r: Action)
        requires
            old(self).wf(),
            jitter < jitter_bound(old(self).backoff_ms),
        ensures
            (*final(self), r) == after_loss(*old(self), cancelled, jitter),
            *final(metrics) == (ExchangeMetrics {
                reconnections: if cancelled {
                    old(metrics).reconnections
                } else {
                    metrics::wrapped(old(metrics).reconnections + 1)
                },
                ..*old(metrics)
            }),
    {
        if cancelled {
            self.phase = Phase::Stopped;
            return Action::Stop;
        }
        metrics.reconnections = metrics.reconnections.wrapping_add(1);
        self.phase = Phase::BackingOff;
        Action::Sleep(backoff_delay(self.backoff_ms, jitter))
    }

    /// Take in how the last action went, for a given random part of a delay, and
    /// say what to do next.
    pub fn advance(
        &mut self,
        event: Event,
        cancelled: bool,
        jitter: u64,
        metrics: &mut ExchangeMetrics,
    ) -> (r: Action)
        requires
            old(self).wf(),
            expects(old(self).phase, event),
            jitter < jitter_bound(old(self).backoff_ms),
        ensures
            final(self).wf(),
            (*final(self), r) == next(*old(self), event, cancelled, jitter),
            *final(metrics) == counted(*old(metrics), old(self).phase, event, cancelled),
    {
        match event {
            Event::ConnectTimedOut | Event::ConnectFailed => {
                metrics.errors = metrics.errors.wrapping_add(1);
                self.lose(cancelled, jitter, metrics)
            },
            Event::Connected => {
                metrics.connected = true;
                self.backoff_ms = INITIAL_BACKOFF_MS;
                self.phase = Phase::Subscribing;
                Action::Subscribe
            },
            Event::Subscribed => {
                self.phase = Phase::Reading;
                Action::Read
            },
            Event::SubscribeFailed | Event::StreamError => {
                metrics.errors = metrics.errors.wrapping_add(1);
                metrics.connected = false;
                self.lose(cancelled, jitter, metrics)
            },
            Event::StreamEnded => {
                metrics.connected = false;
                self.lose(cancelled, jitter, metrics)
            },
            Event::Handled(result) => match result {
                HandleResult::Continue => Action::Read,
                HandleResult::Reconnect => {
                    metrics.connected = false;
                    self.lose(cancelled, jitter, metrics)
                },
                HandleResult::Shutdown => {
                    metrics.connected = false;
                    self.phase = Phase::Stopped;
                    Action::Stop
                },
            },
            Event::OtherFrame => Action::Read,
            Event::Cancelled => {
                if self.phase == Phase::Reading {
                    metrics.connected = false;
                }
                self.phase = Phase::Stopped;
                Action::Stop
            },
            Event::Slept => {
                self.backoff_ms = grow_backoff(self.backoff_ms, MAX_BACKOFF_MS);
                if cancelled {
                    self.phase = Phase::Stopped;
                    Action::Stop
                } else {
                    self.phase = Phase::Connecting;
                    Action::Connect
                }
            },
        }
    }

    /// Take in how the last action went, and say what to do next. The random part
    /// of a delay is drawn only where there is a delay; elsewhere it plays no part.
    pub fn step(&mut self, event: Event, cancelled: bool, metrics: &mut ExchangeMetrics) -> (r:
        Action)
        requires
            old(self).wf(),
            expects(old(self).phase, event),
        ensures
            final(self).wf(),
            backs_off(event, cancelled) ==> exists|jitter: u64|
                {
                    &&& drawn_below(jitter_bound(old(self).backoff_ms), jitter)
                    &&& jitter < jitter_bound(old(self).backoff_ms)
                    &&& (*final(self), r) == #[trigger] next(
                        *old(self),
                        event,
                        cancelled,
                        jitter,
                    )
                },
            !backs_off(event, cancelled) ==> forall|jitter: u64|
                (*final(self), r) == #[trigger] next(*old(self), event, cancelled, jitter),
            *final(metrics) == counted(*old(metrics), old(self).phase, event, cancelled),
    {
        let jitter: u64 = if needs_delay(event, cancelled) {
            draw_jitter(self.backoff_ms)
        } else {
            0
        };
        self.advance(event, cancelled, jitter, metrics)
    }
}

/// Equal jitter: a delay is at least half the backoff and less than all of it.
pub proof fn law_delay_bounds(backoff_ms: u64, jitter: u64)
    requires
        backoff_ms >= 1,
        jitter < jitter_bound(backoff_ms),
    ensures
        backoff_ms / 2 <= delay_of(backoff_ms, jitter) < backoff_ms,
{
}

/// The backoff after `k` delays in a row, starting from the initial one.
pub open spec fn backoff_after(k: nat) -> u64
    decreases k,
{
    if k == 0 {
        INITIAL_BACKOFF_MS
    } else {
        grown(backoff_after((k - 1) as nat), MAX_BACKOFF_MS)
    }
}

/// Two to the power `k`.
pub open spec fn pow2(k: nat) -> int
    decreases k,
{
    if k == 0 {
        1
    } else {
        2 * pow2((k - 1) as nat)
    }
}

/// The backoff doubles with every delay until it reaches the maximum.
pub proof fn law_backoff_grows(k: nat)
    ensures
        backoff_after(k) == if INITIAL_BACKOFF_MS * pow2(k) < MAX_BACKOFF_MS {
            INITIAL_BACKOFF_MS * pow2(k)
        } else {
            MAX_BACKOFF_MS as int
        },
        pow2(k) >= 1,
    decreases k,
{
    if k > 0 {
        law_backoff_grows((k - 1) as nat);
    }
}

/// Whether the connected flag says what the session is doing: it is set exactly
/// while there is a connection.
pub open spec fn in_sync(s: Session, m: ExchangeMetrics) -> bool {
    match s.phase {
        Phase::Subscribing | Phase::Reading => m.connected,
        Phase::Connecting | Phase::BackingOff | Phase::Stopped => !m.connected,
    }
}

/// The connected flag always says whether there is a connection. A session that
/// stops, for whatever reason, leaves it cleared.
pub proof fn law_connected_flag(
    s: Session,
    m: ExchangeMetrics,
    event: Event,
    cancelled: bool,
    jitter: u64,
)
    requires
        in_sync(s, m),
        expects(s.phase, event),
    ensures
        in_sync(
            next(s, event, cancelled, jitter).0,
            counted(m, s.phase, event, cancelled),
        ),
        next(s, event, cancelled, jitter).1 is Stop ==> !counted(
            m,
            s.phase,
            event,
            cancelled,
        ).connected,
{
}

/// After shutdown is requested, a session neither connects nor sleeps again.
pub proof fn law_cancelled_session_stops(s: Session, event: Event, jitter: u64)
    requires
        expects(s.phase, event),
    ensures
        !(next(s, event, true, jitter).1 is Connect),
        !(next(s, event, true, jitter).1 is Sleep),
        loses_connection(event) || event is Cancelled || event is Slept ==> next(
            s,
            event,
            true,
            jitter,
        ).1 is Stop,
{
}

/// A session backs off once per lost connection, and counts it as one
/// reconnection; nothing else is counted as one.
pub proof fn law_reconnections(
    s: Session,
    m: ExchangeMetrics,
    event: Event,
    cancelled: bool,
    jitter: u64,
)
    requires
        expects(s.phase, event),
    ensures
        counted(m, s.phase, event, cancelled).reconnections == if next(
            s,
            event,
            cancelled,
            jitter,
        ).1 is Sleep {
            metrics::wrapped(m.reconnections + 1)
        } else {
            m.reconnections
        },
{
}

/// A lost connection and the backoff that follows lead to the next attempt, with
/// the backoff one step up; a connection takes it back to the start.
pub proof fn law_attempts(s: Session, k: nat, event: Event, jitter: u64, other: u64)
    requires
        s.backoff_ms == backoff_after(k),
        expects(s.phase, event),
    ensures
        loses_connection(event) ==> {
            let (waiting, action) = next(s, event, false, jitter);
            let (again, retry) = next(waiting, Event::Slept, false, other);
            &&& expects(waiting.phase, Event::Slept)
            &&& action == Action::Sleep(delay_of(backoff_after(k), jitter))
            &&& again.phase is Connecting
            &&& again.backoff_ms == backoff_after(k + 1)
            &&& retry is Connect
        },
        event is Connected ==> next(s, event, false, jitter).0.backoff_ms == backoff_after(0),
{
}

/// An event with what else a step takes in.
pub ghost struct Step {
    pub event: Event,
    pub cancelled: bool,
    pub jitter: u64,
}

/// Whether a run of steps can occur from where the session stands.
pub open spec fn fits(s: Session, steps: Seq<Step>) -> bool
    decreases steps.len(),
{
    steps.len() > 0 ==> {
        let step = steps[0];
        &&& expects(s.phase, step.event)
        &&& step.jitter < jitter_bound(s.backoff_ms)
        &&& fits(next(s, step.event, step.cancelled, step.jitter).0, steps.skip(1))
    }
}

/// Where a run of steps leads, and the counters there.
pub open spec fn run(s: Session, m: ExchangeMetrics, steps: Seq<Step>) -> (Session, ExchangeMetrics)
    decreases steps.len(),
{
    if steps.len() == 0 {
        (s, m)
    } else {
        let step = steps[0];
        run(
            next(s, step.event, step.cancelled, step.jitter).0,
            counted(m, s.phase, step.event, step.cancelled),
            steps.skip(1),
        )
    }
}

/// However long a session runs, its backoff stays within its bounds and the
/// connected flag says whether there is a connection; once stopped, nothing can
/// follow.
pub proof fn law_session_runs(s: Session, m: ExchangeMetrics, steps: Seq<Step>)
    requires
        s.wf(),
        in_sync(s, m),
        fits(s, steps),
    ensures
        run(s, m, steps).0.wf(),
        in_sync(run(s, m, steps).0, run(s, m, steps).1),
        s.phase is Stopped ==> steps.len() == 0,
    decreases steps.len(),
{
    if steps.len() > 0 {
        let step = steps[0];
        law_connected_flag(s, m, step.event, step.cancelled, step.jitter);
        law_session_runs(
            next(s, step.event, step.cancelled, step.jitter).0,
            counted(m, s.phase, step.event, step.cancelled),
            steps.skip(1),
        );
    }
}

/// A connection that could not be made or was lost: the session waits half the
/// backoff and the random part, and counts a reconnection, or stops where shutdown
/// was requested. All but an end of the stream and a reconnect that the adapter asks
/// for count as errors. There is no connection any more.
pub proof fn law_lost_connection(
    s: &mut Session,
    event: Event,
    cancelled: bool,
    jitter: u64,
    m: &mut ExchangeMetrics,
    r: Action,
)
    requires
        1_000 <= old(s).backoff_ms <= 30_000,
        call_ensures(Session::advance, (s, event, cancelled, jitter, m), r),
        jitter < old(s).backoff_ms / 2,
        ({
            ||| old(s).phase is Connecting && (event is ConnectTimedOut || event is ConnectFailed)
            ||| old(s).phase is Subscribing && event is SubscribeFailed
            ||| old(s).phase is Reading && (event is StreamError || event is StreamEnded || event
                == Event::Handled(HandleResult::Reconnect))
        }),
    ensures
        final(s).backoff_ms == old(s).backoff_ms,
        cancelled ==> r is Stop && final(s).phase is Stopped,
        !cancelled ==> final(s).phase is BackingOff && (r matches Action::Sleep(d) && d
            == old(s).backoff_ms / 2 + jitter),
        final(m).reconnections == if cancelled {
            old(m).reconnections as int
        } else {
            (old(m).reconnections + 1) % 0x1_0000_0000_0000_0000
        },
        final(m).errors == if event is StreamEnded || event is Handled {
            old(m).errors as int
        } else {
            (old(m).errors + 1) % 0x1_0000_0000_0000_0000
        },
        final(m).connected == (old(m).connected && old(s).phase is Connecting),
        *final(m) == (ExchangeMetrics {
            errors: final(m).errors,
            reconnections: final(m).reconnections,
            connected: final(m).connected,
            ..*old(m)
        }),
{
}

/// A connection takes the backoff back to its start, and is subscribed to, then read
/// for as long as frames come that ask for nothing else; while it lasts, it is
/// reported, and nothing is counted.
pub proof fn law_connection_lasts(
    s: &mut Session,
    event: Event,
    cancelled: bool,
    jitter: u64,
    m: &mut ExchangeMetrics,
    r: Action,
)
    requires
        1_000 <= old(s).backoff_ms <= 30_000,
        call_ensures(Session::advance, (s, event, cancelled, jitter, m), r),
        jitter < old(s).backoff_ms / 2,
        ({
            ||| old(s).phase is Connecting && event is Connected
            ||| old(s).phase is Subscribing && event is Subscribed
            ||| old(s).phase is Reading && (event is OtherFrame || event == Event::Handled(
                HandleResult::Continue,
            ))
        }),
    ensures
        event is Connected ==> {
            &&& r is Subscribe
            &&& final(s).phase is Subscribing
            &&& final(s).backoff_ms == 1_000
        },
        event !is Connected ==> r is Read && final(s).phase is Reading && final(s).backoff_ms
            == old(s).backoff_ms,
        *final(m) == (ExchangeMetrics {
            connected: event is Connected || old(m).connected,
            ..*old(m)
        }),
{
}

/// A consumer that is gone and a cancellation end the session, and with it the
/// connection; nothing is counted.
pub proof fn law_session_ends(
    s: &mut Session,
    event: Event,
    cancelled: bool,
    jitter: u64,
    m: &mut ExchangeMetrics,
    r: Action,
)
    requires
        1_000 <= old(s).backoff_ms <= 30_000,
        call_ensures(Session::advance, (s, event, cancelled, jitter, m), r),
        jitter < old(s).backoff_ms / 2,
        ({
            ||| old(s).phase is Reading && (event is Cancelled || event == Event::Handled(
                HandleResult::Shutdown,
            ))
            ||| old(s).phase is BackingOff && event is Cancelled
        }),
    ensures
        r is Stop,
        final(s).phase is Stopped,
        *final(m) == (ExchangeMetrics {
            connected: old(m).connected && old(s).phase is BackingOff,
            ..*old(m)
        }),
{
}

/// Behind a backoff the session connects again, with the backoff doubled up to half
/// a minute, unless shutdown was requested; nothing is counted.
pub proof fn law_backoff_is_over(
    s: &mut Session,
    cancelled: bool,
    jitter: u64,
    m: &mut ExchangeMetrics,
    r: Action,
)
    requires
        1_000 <= old(s).backoff_ms <= 30_000,
        old(s).phase is BackingOff,
        call_ensures(Session::advance, (s, Event::Slept, cancelled, jitter, m), r),
        jitter < old(s).backoff_ms / 2,
    ensures
        cancelled ==> r is Stop && final(s).phase is Stopped,
        !cancelled ==> r is Connect && final(s).phase is Connecting,
        final(s).backoff_ms == if old(s).backoff_ms < 15_000 {
            2 * old(s).backoff_ms
        } else {
            30_000
        },
        *final(m) == *old(m),
{
}

/// A step says what advancing with some random part says; where it leads to a wait,
/// that is at least half the backoff and less than all of it.
pub proof fn law_step_waits_within_backoff(
    s: &mut Session,
    event: Event,
    cancelled: bool,
    m: &mut ExchangeMetrics,
    r: Action,
)
    requires
        old(s).wf(),
        expects(old(s).phase, event),
        call_ensures(Session::step, (s, event, cancelled, m), r),
    ensures
        r matches Action::Sleep(d) ==> !cancelled && old(s).backoff_ms / 2 <= d
            < old(s).backoff_ms,
        event is ConnectFailed && !cancelled ==> r is Sleep,
        event is Connected ==> r is Subscribe && final(s).backoff_ms == 1_000,
{
    if !backs_off(event, cancelled) {
        let expected = next(*old(s), event, cancelled, 0);
        assert((*final(s), r) == expected);
    }
}

/// A session starts by connecting, with a backoff of a second, unless shutdown was
/// requested.
pub proof fn law_session_starts(cancelled: bool, r: (Session, Action))
    requires
        call_ensures(Session::start, (cancelled,), r),
    ensures
        r.0.backoff_ms == 1_000,
        r.1 is Connect <==> !cancelled,
        r.1 is Stop <==> cancelled,
        r.0.phase is Connecting <==> !cancelled,
        r.0.phase is Stopped <==> cancelled,
{
}

/// The random part of a delay is drawn from the numbers below half the backoff, so
/// that a delay is at least half the backoff and less than all of it; the backoff
/// grows to the smaller of its double and the maximum.
pub proof fn law_backoff_arithmetic(
    backoff_ms: u64,
    max_ms: u64,
    jitter: u64,
    delay: u64,
    grown_ms: u64,
)
    requires
        2 <= backoff_ms,
        backoff_ms * 2 <= u64::MAX,
        call_ensures(draw_jitter, (backoff_ms,), jitter),
        call_ensures(backoff_delay, (backoff_ms, jitter), delay),
        call_ensures(grow_backoff, (backoff_ms, max_ms), grown_ms),
    ensures
        exists|bound: u64| #[trigger]
            drawn_below(bound, jitter) && 2 * bound <= backoff_ms < 2 * bound + 2,
        2 * jitter < backoff_ms,
        2 * (delay - jitter) <= backoff_ms < 2 * (delay - jitter) + 2,
        grown_ms <= max_ms,
        grown_ms <= 2 * backoff_ms,
        grown_ms == max_ms || grown_ms == 2 * backoff_ms,
{
    assert(drawn_below(jitter_bound(backoff_ms), jitter));
}

/// How many steps of a run report an error.
pub open spec fn error_steps(steps: Seq<Step>) -> nat
    decreases steps.len(),
{
    if steps.len() == 0 {
        0
    } else {
        (match steps[0].event {
            Event::ConnectTimedOut
            | Event::ConnectFailed
            | Event::SubscribeFailed
            | Event::StreamError => 1nat,
            _ => 0nat,
        }) + error_steps(steps.skip(1))
    }
}

/// How many steps of a run lose the connection before shutdown is requested.
pub open spec fn lost_steps(steps: Seq<Step>) -> nat
    decreases steps.len(),
{
    if steps.len() == 0 {
        0
    } else {
        (match steps[0].event {
            Event::ConnectTimedOut
            | Event::ConnectFailed
            | Event::SubscribeFailed
            | Event::StreamError
            | Event::StreamEnded
            | Event::Handled(HandleResult::Reconnect) => if steps[0].cancelled {
                0nat
            } else {
                1nat
            },
            _ => 0nat,
        }) + lost_steps(steps.skip(1))
    }
}

proof fn lemma_counting_on(a: u64, one: int, rest: nat)
    requires
        one == 0 || one == 1,
    ensures
        (metrics::wrapped(a + one) + rest) % 0x1_0000_0000_0000_0000 == (a + (one + rest))
            % 0x1_0000_0000_0000_0000,
        metrics::wrapped(a + 0) == a,
{
}

/// Over a run of steps, the errors are as many as the steps that report one, the
/// reconnections as many as the lost connections before shutdown was requested, and
/// the other counters stay.
pub proof fn law_counts_over_run(s: Session, m: ExchangeMetrics, steps: Seq<Step>)
    ensures
        run(s, m, steps).1.errors == (m.errors + error_steps(steps)) % 0x1_0000_0000_0000_0000,
        run(s, m, steps).1.reconnections == (m.reconnections + lost_steps(steps))
            % 0x1_0000_0000_0000_0000,
        run(s, m, steps).1.messages == m.messages,
        run(s, m, steps).1.ring_drops == m.ring_drops,
        run(s, m, steps).1.name == m.name,
        run(s, m, steps).1.decode_latency == m.decode_latency,
    decreases steps.len(),
{
    if steps.len() > 0 {
        let step = steps[0];
        let rest = steps.skip(1);
        let after = counted(m, s.phase, step.event, step.cancelled);
        law_counts_over_run(next(s, step.event, step.cancelled, step.jitter).0, after, rest);
        lemma_counting_on(m.errors, error_steps(steps) - error_steps(rest), error_steps(rest));
        lemma_counting_on(
            m.reconnections,
            lost_steps(steps) - lost_steps(rest),
            lost_steps(rest),
        );
    }
}

/// A step leads where advancing leads with any random part; the two can differ in how
/// long the session is to wait, and in nothing else.
pub proof fn law_step_is_advance(
    s: &mut Session,
    m: &mut ExchangeMetrics,
    r: Action,
    given: &mut Session,
    counts: &mut ExchangeMetrics,
    a: Action,
    event: Event,
    cancelled: bool,
    jitter: u64,
)
    requires
        old(s).wf(),
        expects(old(s).phase, event),
        jitter < jitter_bound(old(s).backoff_ms),
        call_ensures(Session::step, (s, event, cancelled, m), r),
        *old(given) == *old(s),
        *old(counts) == *old(m),
        call_ensures(Session::advance, (given, event, cancelled, jitter, counts), a),
    ensures
        *final(s) == *final(given),
        *final(m) == *final(counts),
        r == a || r is Sleep && a is Sleep,
{
    if !backs_off(event, cancelled) {
        let expected = next(*old(s), event, cancelled, jitter);
        assert((*final(s), r) == expected);
    }
}

} // verus!
