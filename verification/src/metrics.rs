//! Metrics with Prometheus text exposition, and the health of the feed.
//!
//! Counters wrap around at 64 bits. Histograms have logarithmic buckets from
//! 100ns to 100ms, for both decoding in under a microsecond and latency spikes;
//! recording touches one bucket, and cumulative counts are made when rendering.
//!
//! Each text has a spec function that says what stands behind the text so far
//! once it is written.

use vstd::prelude::*;
use vstd::string::*;

use crate::ascii::{DOT, ZERO};
use crate::decimal;
use crate::text;
use crate::text::{append_number, same_text};
use crate::types::FixedPoint;

verus! {

/// Buckets of a histogram that have an upper bound.
pub const NUM_BUCKETS: usize = 16;

/// Counts that a histogram keeps: one per bucket, and one for what is beyond
/// every bound.
pub const NUM_COUNTS: usize = 17;

/// Upper bounds in nanoseconds, and in seconds as Prometheus `le` labels.
pub const BUCKETS: [(u64, &'static str); NUM_BUCKETS] = [
    (100, "0.0000001"),
    (500, "0.0000005"),
    (1_000, "0.000001"),
    (5_000, "0.000005"),
    (10_000, "0.00001"),
    (25_000, "0.000025"),
    (50_000, "0.00005"),
    (100_000, "0.0001"),
    (250_000, "0.00025"),
    (500_000, "0.0005"),
    (1_000_000, "0.001"),
    (5_000_000, "0.005"),
    (10_000_000, "0.01"),
    (25_000_000, "0.025"),
    (50_000_000, "0.05"),
    (100_000_000, "0.1"),
];

/// What a 64-bit counter holds after counting to `n`.
pub open spec fn wrapped(n: int) -> u64 {
    (n % 0x1_0000_0000_0000_0000) as u64
}

/// The upper bound of bucket `i` in nanoseconds.
pub open spec fn bound(i: int) -> u64 {
    BUCKETS@[i].0
}

/// The first bucket from `i` on that takes `nanos`; the overflow bucket where
/// none does.
pub open spec fn bucket_from(nanos: u64, i: int) -> int
    decreases NUM_BUCKETS - i,
{
    if i < 0 || i >= NUM_BUCKETS {
        NUM_BUCKETS as int
    } else if nanos <= bound(i) {
        i
    } else {
        bucket_from(nanos, i + 1)
    }
}

/// The bucket that takes `nanos`.
pub open spec fn bucket_of(nanos: u64) -> int {
    bucket_from(nanos, 0)
}

/// A number of nanoseconds, cut off at 64 bits.
pub open spec fn clamped(nanos: u128) -> u64 {
    if nanos <= u64::MAX {
        nanos as u64
    } else {
        u64::MAX
    }
}

/// The sum of a sequence of counters.
pub open spec fn sum(counts: Seq<u64>) -> int
    decreases counts.len(),
{
    if counts.len() == 0 {
        0
    } else {
        sum(counts.drop_last()) + counts.last()
    }
}

/// Nanoseconds from `start` to `end`, zero where `end` is earlier.
pub open spec fn elapsed(start: u64, end: u64) -> u64 {
    if end < start {
        0
    } else {
        (end - start) as u64
    }
}

/// Nanoseconds from `start` to `end`, zero where `end` is earlier.
pub fn elapsed_nanos(start: u64, end: u64) -> (r: u64)
    ensures
        r == elapsed(start, end),
{
    if end < start {
        0
    } else {
        end - start
    }
}

/// Whether `after` is `before` with one more observation of `nanos`.
pub open spec fn recorded(before: PromHistogram, after: PromHistogram, nanos: u64) -> bool {
    &&& after.buckets@ == before.buckets@.update(
        bucket_of(nanos),
        wrapped(before.buckets@[bucket_of(nanos)] + 1),
    )
    &&& after.sum_ns == wrapped(before.sum_ns + nanos)
    &&& after.count == wrapped(before.count + 1)
}

/// Histogram of durations.
pub struct PromHistogram {
    /// Observations per bucket: index `i` counts those above bound `i - 1` and
    /// up to bound `i`. The last index counts what is beyond every bound.
    pub buckets: [u64; NUM_COUNTS],
    /// Sum of all observed values in nanoseconds.
    pub sum_ns: u64,
    /// Number of observations.
    pub count: u64,
}

impl Default for PromHistogram {
    fn default() -> (r: Self)
        ensures
            r.wf(),
            r.buckets@ == Seq::new(NUM_COUNTS as nat, |i: int| 0u64),
            r.sum_ns == 0,
            r.count == 0,
    {
        Self::new()
    }
}

impl PromHistogram {
    /// Every observation is in one bucket: the counts agree, up to wrapping.
    pub open spec fn wf(&self) -> bool {
        self.count == wrapped(sum(self.buckets@))
    }

    /// A histogram without observations.
    #[must_use]
    pub fn new() -> (r: Self)
        ensures
            r.wf(),
            r.buckets@ == Seq::new(NUM_COUNTS as nat, |i: int| 0u64),
            r.sum_ns == 0,
            r.count == 0,
    {
        let r = Self {
            buckets: [0, 0, 0, 0, 0, 0, 0, 0, 0, 0, 0, 0, 0, 0, 0, 0, 0],
            sum_ns: 0,
            count: 0,
        };
        proof {
            assert(r.buckets@ =~= Seq::new(NUM_COUNTS as nat, |i: int| 0u64));
            lemma_sum_zero(r.buckets@);
        }
        r
    }

    /// Record an observation of so many nanoseconds.
    pub fn record(&mut self, nanos: u128)
        ensures
            old(self).wf() ==> final(self).wf(),
            recorded(*old(self), *final(self), clamped(nanos)),
    {
        let nanos: u64 = if nanos <= u64::MAX as u128 {
            nanos as u64
        } else {
            u64::MAX
        };
        let mut idx: usize = 0;
        while idx < NUM_BUCKETS && nanos > BUCKETS[idx].0
            invariant
                idx <= NUM_BUCKETS,
                bucket_from(nanos, idx as int) == bucket_of(nanos),
            decreases NUM_BUCKETS - idx,
        {
            idx += 1;
        }
        proof {
            lemma_sum_update(
                self.buckets@,
                idx as int,
                wrapped(self.buckets@[idx as int] + 1),
            );
        }
        self.buckets[idx] = self.buckets[idx].wrapping_add(1);
        self.sum_ns = self.sum_ns.wrapping_add(nanos);
        self.count = self.count.wrapping_add(1);
    }

    /// Append the histogram as Prometheus lines. `sum_secs` is the text of
    /// [`Self::sum_ns`] in seconds.
    pub fn render(&self, name: &str, labels: &str, sum_secs: &str, out: &mut String)
        ensures
            final(out)@ == histogram_text(old(out)@, *self, name@, labels@, sum_secs@),
    {
        reveal(histogram_text);
        let ghost start = out@;
        let mut cumulative: u64 = 0;
        let mut i: usize = 0;
        proof {
            assert(self.buckets@.take(0) =~= Seq::<u64>::empty());
        }
        while i < NUM_BUCKETS
            invariant
                i <= NUM_BUCKETS,
                cumulative == wrapped(sum(self.buckets@.take(i as int))),
                out@ == bucket_lines(start, self.buckets@, name@, labels@, i as nat),
            decreases NUM_BUCKETS - i,
        {
            proof {
                assert(self.buckets@.take(i + 1).drop_last() =~= self.buckets@.take(i as int));
            }
            cumulative = cumulative.wrapping_add(self.buckets[i]);
            write_bucket(out, name, labels, BUCKETS[i].1, cumulative);
            i += 1;
        }
        write_bucket(out, name, labels, "+Inf", self.count);
        write_value(out, name, "_sum", labels, sum_secs);
        let mut total = String::new();
        append_number(&mut total, self.count);
        assert(total@ =~= text::number_text(self.count as nat));
        write_value(out, name, "_count", labels, total.as_str());
    }
}

/// A bucket's line behind `out`: how many observations are at most `le`.
pub open spec fn bucket_text(
    out: Seq<char>,
    name: Seq<char>,
    labels: Seq<char>,
    le: Seq<char>,
    count: u64,
) -> Seq<char> {
    let open = out + name + "_bucket{"@;
    let tagged = if labels.len() == 0 {
        open
    } else {
        open + labels + ","@
    };
    tagged + "le=\""@ + le + "\"} "@ + text::number_text(count as nat) + "\n"@
}

/// A histogram's sum or count line behind `out`.
pub open spec fn value_text(
    out: Seq<char>,
    name: Seq<char>,
    suffix: Seq<char>,
    labels: Seq<char>,
    value: Seq<char>,
) -> Seq<char> {
    let named = out + name + suffix;
    let tagged = if labels.len() == 0 {
        named
    } else {
        named + "{"@ + labels + "}"@
    };
    tagged + " "@ + value + "\n"@
}

/// The lines of the first `n` buckets behind `out`, each with the observations
/// up to its bound.
pub open spec fn bucket_lines(
    out: Seq<char>,
    buckets: Seq<u64>,
    name: Seq<char>,
    labels: Seq<char>,
    n: nat,
) -> Seq<char>
    decreases n,
{
    if n == 0 {
        out
    } else {
        bucket_text(
            bucket_lines(out, buckets, name, labels, (n - 1) as nat),
            name,
            labels,
            BUCKETS@[n - 1].1@,
            wrapped(sum(buckets.take(n as int))),
        )
    }
}

/// A whole histogram behind `out`: the buckets, the sum and the count.
#[verifier::opaque]
pub open spec fn histogram_text(
    out: Seq<char>,
    h: PromHistogram,
    name: Seq<char>,
    labels: Seq<char>,
    sum_secs: Seq<char>,
) -> Seq<char> {
    let bounded = bucket_lines(out, h.buckets@, name, labels, NUM_BUCKETS as nat);
    let buckets = bucket_text(bounded, name, labels, "+Inf"@, h.count);
    let with_sum = value_text(buckets, name, "_sum"@, labels, sum_secs);
    value_text(with_sum, name, "_count"@, labels, text::number_text(h.count as nat))
}

/// Append a bucket's line.
fn write_bucket(out: &mut String, name: &str, labels: &str, le: &str, count: u64)
    ensures
        final(out)@ == bucket_text(old(out)@, name@, labels@, le@, count),
{
    out.append(name);
    out.append("_bucket{");
    if !labels.is_empty() {
        out.append(labels);
        out.append(",");
    }
    out.append("le=\"");
    out.append(le);
    out.append("\"} ");
    append_number(out, count);
    out.append("\n");
}

/// Append a sum or count line.
fn write_value(out: &mut String, name: &str, suffix: &str, labels: &str, value: &str)
    ensures
        final(out)@ == value_text(old(out)@, name@, suffix@, labels@, value@),
{
    out.append(name);
    out.append(suffix);
    if !labels.is_empty() {
        out.append("{");
        out.append(labels);
        out.append("}");
    }
    out.append(" ");
    out.append(value);
    out.append("\n");
}

proof fn lemma_sum_zero(counts: Seq<u64>)
    requires
        forall|i: int| 0 <= i < counts.len() ==> #[trigger] counts[i] == 0,
    ensures
        sum(counts) == 0,
    decreases counts.len(),
{
    if counts.len() > 0 {
        lemma_sum_zero(counts.drop_last());
    }
}

proof fn lemma_sum_update(counts: Seq<u64>, i: int, value: u64)
    requires
        0 <= i < counts.len(),
    ensures
        sum(counts.update(i, value)) == sum(counts) - counts[i] + value,
    decreases counts.len(),
{
    let after = counts.update(i, value);
    if i == counts.len() - 1 {
        assert(after.drop_last() =~= counts.drop_last());
    } else {
        lemma_sum_update(counts.drop_last(), i, value);
        assert(after.drop_last() =~= counts.drop_last().update(i, value));
    }
}

/// Counters of a single exchange.
pub struct ExchangeMetrics {
    pub name: &'static str,
    pub messages: u64,
    pub errors: u64,
    pub reconnections: u64,
    pub ring_drops: u64,
    pub connected: bool,
    pub decode_latency: PromHistogram,
}

impl ExchangeMetrics {
    /// Whether the histogram is.
    pub open spec fn wf(&self) -> bool {
        self.decode_latency.wf()
    }

    /// Whether nothing was counted yet.
    pub open spec fn is_zero(&self) -> bool {
        &&& self.messages == 0
        &&& self.errors == 0
        &&& self.reconnections == 0
        &&& self.ring_drops == 0
        &&& !self.connected
        &&& self.decode_latency.buckets@ == Seq::new(NUM_COUNTS as nat, |i: int| 0u64)
        &&& self.decode_latency.sum_ns == 0
        &&& self.decode_latency.count == 0
    }

    /// Counters at zero, not connected.
    pub fn new(name: &'static str) -> (r: Self)
        ensures
            r.wf(),
            r.name == name,
            r.is_zero(),
    {
        Self {
            name,
            messages: 0,
            errors: 0,
            reconnections: 0,
            ring_drops: 0,
            connected: false,
            decode_latency: PromHistogram::new(),
        }
    }
}

/// What is reported per exchange.
#[derive(Debug, Clone, Copy, PartialEq, Eq, Structural)]
pub enum Counter {
    Messages,
    Errors,
    Reconnections,
    RingDrops,
    /// One while connected, zero otherwise.
    Up,
}

/// The value of a counter.
pub open spec fn counter_value(ex: ExchangeMetrics, counter: Counter) -> u64 {
    match counter {
        Counter::Messages => ex.messages,
        Counter::Errors => ex.errors,
        Counter::Reconnections => ex.reconnections,
        Counter::RingDrops => ex.ring_drops,
        Counter::Up => if ex.connected {
            1
        } else {
            0
        },
    }
}

/// Read a counter.
fn read_counter(ex: &ExchangeMetrics, counter: Counter) -> (r: u64)
    ensures
        r == counter_value(*ex, counter),
{
    match counter {
        Counter::Messages => ex.messages,
        Counter::Errors => ex.errors,
        Counter::Reconnections => ex.reconnections,
        Counter::RingDrops => ex.ring_drops,
        Counter::Up => if ex.connected {
            1
        } else {
            0
        },
    }
}

/// The header of a metric behind `out`.
#[verifier::opaque]
pub open spec fn header_text(
    out: Seq<char>,
    name: Seq<char>,
    help: Seq<char>,
    metric_type: Seq<char>,
) -> Seq<char> {
    out + "# HELP "@ + name + " "@ + help + "\n"@ + "# TYPE "@ + name + " "@ + metric_type
        + "\n"@
}

/// Append the `# HELP` and `# TYPE` lines of a metric.
fn write_header(out: &mut String, name: &str, help: &str, metric_type: &str)
    ensures
        final(out)@ == header_text(old(out)@, name@, help@, metric_type@),
{
    reveal(header_text);
    out.append("# HELP ");
    out.append(name);
    out.append(" ");
    out.append(help);
    out.append("\n");
    out.append("# TYPE ");
    out.append(name);
    out.append(" ");
    out.append(metric_type);
    out.append("\n");
}

/// A metric without labels behind `out`.
#[verifier::opaque]
pub open spec fn plain_text(out: Seq<char>, name: Seq<char>, value: u64) -> Seq<char> {
    out + name + " "@ + text::number_text(value as nat) + "\n"@
}

/// Append a metric without labels.
fn write_plain(out: &mut String, name: &str, value: u64)
    ensures
        final(out)@ == plain_text(old(out)@, name@, value),
{
    reveal(plain_text);
    out.append(name);
    out.append(" ");
    append_number(out, value);
    out.append("\n");
}

/// One line per exchange behind `out`, for the first `n` exchanges.
pub open spec fn exchange_lines(
    out: Seq<char>,
    name: Seq<char>,
    exchanges: Seq<ExchangeMetrics>,
    counter: Counter,
    n: nat,
) -> Seq<char>
    decreases n,
{
    if n == 0 {
        out
    } else {
        exchange_lines(out, name, exchanges, counter, (n - 1) as nat) + name + "{exchange=\""@
            + exchanges[n - 1].name@ + "\"} "@ + text::number_text(
            counter_value(exchanges[n - 1], counter) as nat,
        ) + "\n"@
    }
}

/// A metric with one line per exchange behind `out`.
#[verifier::opaque]
pub open spec fn per_exchange_text(
    out: Seq<char>,
    name: Seq<char>,
    help: Seq<char>,
    metric_type: Seq<char>,
    exchanges: Seq<ExchangeMetrics>,
    counter: Counter,
) -> Seq<char> {
    exchange_lines(
        header_text(out, name, help, metric_type),
        name,
        exchanges,
        counter,
        exchanges.len(),
    )
}

/// Append a metric with one line per exchange.
fn write_per_exchange(
    out: &mut String,
    name: &str,
    help: &str,
    metric_type: &str,
    exchanges: &[ExchangeMetrics],
    counter: Counter,
)
    ensures
        final(out)@ == per_exchange_text(
            old(out)@,
            name@,
            help@,
            metric_type@,
            exchanges@,
            counter,
        ),
{
    reveal(per_exchange_text);
    write_header(out, name, help, metric_type);
    let ghost start = out@;
    let mut i: usize = 0;
    while i < exchanges.len()
        invariant
            i <= exchanges@.len(),
            out@ == exchange_lines(start, name@, exchanges@, counter, i as nat),
        decreases exchanges@.len() - i,
    {
        out.append(name);
        out.append("{exchange=\"");
        out.append(exchanges[i].name);
        out.append("\"} ");
        append_number(out, read_counter(&exchanges[i], counter));
        out.append("\n");
        i += 1;
    }
}

/// The sums of the histograms in seconds, as text.
pub struct SumTexts {
    /// Per exchange, in the order of the registry.
    pub decode: Vec<String>,
    pub merge: String,
    pub e2e: String,
}

/// All metrics of the process.
pub struct Metrics {
    pub exchanges: Vec<ExchangeMetrics>,
    pub merges: u64,
    pub merge_latency: PromHistogram,
    pub e2e_latency: PromHistogram,
    /// When the registry was made, in nanoseconds on the process's monotonic
    /// clock.
    pub start_time: u64,
}

/// The decode histograms of the first `n` exchanges behind `out`.
pub open spec fn decode_text(
    out: Seq<char>,
    exchanges: Seq<ExchangeMetrics>,
    sums: Seq<String>,
    n: nat,
) -> Seq<char>
    decreases n,
{
    if n == 0 {
        out
    } else {
        histogram_text(
            decode_text(out, exchanges, sums, (n - 1) as nat),
            exchanges[n - 1].decode_latency,
            "orderbook_decode_duration_seconds"@,
            "exchange=\""@ + exchanges[n - 1].name@ + "\""@,
            sums[n - 1]@,
        )
    }
}

/// Whole seconds from the registry's start to `now`.
pub open spec fn uptime_secs(start_time: u64, now: u64) -> u64 {
    elapsed(start_time, now) / 1_000_000_000
}

/// All counters in the Prometheus text format.
#[verifier::opaque]
pub open spec fn counters_text(m: Metrics, now: u64) -> Seq<char> {
    let ex = m.exchanges@;
    let t = per_exchange_text(
        Seq::empty(),
        "orderbook_messages_total"@,
        "WebSocket messages received"@,
        "counter"@,
        ex,
        Counter::Messages,
    );
    let t = per_exchange_text(
        t,
        "orderbook_errors_total"@,
        "Parse/connection errors"@,
        "counter"@,
        ex,
        Counter::Errors,
    );
    let t = per_exchange_text(
        t,
        "orderbook_reconnections_total"@,
        "WebSocket reconnection attempts"@,
        "counter"@,
        ex,
        Counter::Reconnections,
    );
    let t = per_exchange_text(
        t,
        "orderbook_ring_drops_total"@,
        "Snapshots dropped due to full SPSC ring buffer"@,
        "counter"@,
        ex,
        Counter::RingDrops,
    );
    let t = header_text(
        t,
        "orderbook_merges_total"@,
        "Order book merge operations"@,
        "counter"@,
    );
    let t = plain_text(t, "orderbook_merges_total"@, m.merges);
    let t = per_exchange_text(
        t,
        "orderbook_exchange_up"@,
        "Exchange connection status (1=connected)"@,
        "gauge"@,
        ex,
        Counter::Up,
    );
    let t = header_text(
        t,
        "orderbook_uptime_seconds"@,
        "Seconds since process start"@,
        "gauge"@,
    );
    plain_text(t, "orderbook_uptime_seconds"@, uptime_secs(m.start_time, now))
}

/// All metrics in the Prometheus text format.
pub open spec fn prometheus_text(m: Metrics, now: u64, sums: SumTexts) -> Seq<char> {
    let t = header_text(
        counters_text(m, now),
        "orderbook_decode_duration_seconds"@,
        "WebSocket message decode latency"@,
        "histogram"@,
    );
    let t = decode_text(t, m.exchanges@, sums.decode@, m.exchanges@.len());
    let t = header_text(
        t,
        "orderbook_merge_duration_seconds"@,
        "Order book merge latency"@,
        "histogram"@,
    );
    let t = histogram_text(
        t,
        m.merge_latency,
        "orderbook_merge_duration_seconds"@,
        ""@,
        sums.merge@,
    );
    let t = header_text(
        t,
        "orderbook_e2e_duration_seconds"@,
        "End-to-end latency: WS receive to merged summary published"@,
        "histogram"@,
    );
    histogram_text(t, m.e2e_latency, "orderbook_e2e_duration_seconds"@, ""@, sums.e2e@)
}

/// How many of the first `n` exchanges are connected.
pub open spec fn connected_count(exchanges: Seq<ExchangeMetrics>, n: nat) -> nat
    decreases n,
{
    if n == 0 {
        0
    } else {
        connected_count(exchanges, (n - 1) as nat) + if exchanges[n - 1].connected {
            1nat
        } else {
            0nat
        }
    }
}

/// The index of the exchange of that name; the first, should there be two.
pub open spec fn has_name(exchanges: Seq<ExchangeMetrics>, name: Seq<char>, i: int) -> bool {
    &&& 0 <= i < exchanges.len()
    &&& exchanges[i].name@ == name
    &&& forall|j: int| 0 <= j < i ==> (#[trigger] exchanges[j]).name@ != name
}

impl Metrics {
    /// Whether every histogram is.
    pub open spec fn wf(&self) -> bool {
        &&& forall|i: int| 0 <= i < self.exchanges@.len() ==> (#[trigger] self.exchanges@[i]).wf()
        &&& self.merge_latency.wf()
        &&& self.e2e_latency.wf()
    }

    /// Make the registry, with counters at zero for every exchange.
    #[must_use]
    pub fn register(exchange_names: &[&'static str], now: u64) -> (r: Self)
        ensures
            r.wf(),
            r.exchanges@.len() == exchange_names@.len(),
            forall|i: int|
                0 <= i < exchange_names@.len() ==> (#[trigger] r.exchanges@[i]).name
                    == exchange_names@[i] && r.exchanges@[i].is_zero(),
            r.merges == 0,
            r.merge_latency.count == 0,
            r.merge_latency.sum_ns == 0,
            r.merge_latency.buckets@ == Seq::new(NUM_COUNTS as nat, |i: int| 0u64),
            r.e2e_latency.count == 0,
            r.e2e_latency.sum_ns == 0,
            r.e2e_latency.buckets@ == Seq::new(NUM_COUNTS as nat, |i: int| 0u64),
            r.start_time == now,
    {
        let mut exchanges: Vec<ExchangeMetrics> = Vec::new();
        let mut i: usize = 0;
        while i < exchange_names.len()
            invariant
                i <= exchange_names@.len(),
                exchanges@.len() == i,
                forall|j: int|
                    0 <= j < i ==> (#[trigger] exchanges@[j]).name == exchange_names@[j]
                        && exchanges@[j].is_zero() && exchanges@[j].wf(),
            decreases exchange_names@.len() - i,
        {
            exchanges.push(ExchangeMetrics::new(exchange_names[i]));
            i += 1;
        }
        Self {
            exchanges,
            merges: 0,
            merge_latency: PromHistogram::new(),
            e2e_latency: PromHistogram::new(),
            start_time: now,
        }
    }

    /// The counters of an exchange, by name.
    pub fn exchange(&mut self, name: &str) -> (r: &mut ExchangeMetrics)
        requires
            exists|i: int| has_name(old(self).exchanges@, name@, i),
        ensures
            exists|i: int|
                {
                    &&& #[trigger] has_name(old(self).exchanges@, name@, i)
                    &&& *r == old(self).exchanges@[i]
                    &&& final(self).exchanges@ == old(self).exchanges@.update(i, *final(r))
                },
            final(self).merges == old(self).merges,
            final(self).merge_latency == old(self).merge_latency,
            final(self).e2e_latency == old(self).e2e_latency,
            final(self).start_time == old(self).start_time,
    {
        let len: usize = self.exchanges.len();
        let mut i: usize = 0;
        while !same_text(self.exchanges[i].name, name)
            invariant
                *self == *old(self),
                len == self.exchanges@.len(),
                exists|k: int| has_name(self.exchanges@, name@, k),
                i < self.exchanges@.len(),
                forall|j: int| 0 <= j < i ==> (#[trigger] self.exchanges@[j]).name@ != name@,
            decreases self.exchanges@.len() - i,
        {
            proof {
                let k = choose|k: int| has_name(self.exchanges@, name@, k);
                assert(i < k);
            }
            i += 1;
        }
        assert(has_name(self.exchanges@, name@, i as int));
        &mut self.exchanges[i]
    }

    /// Render all metrics in the Prometheus text format. `sums` holds the sums
    /// of the histograms in seconds.
    pub fn to_prometheus(&self, now: u64, sums: &SumTexts) -> (r: String)
        requires
            sums.decode@.len() == self.exchanges@.len(),
        ensures
            r@ == prometheus_text(*self, now, *sums),
    {
        let mut out = self.render_counters(now);
        write_header(
            &mut out,
            "orderbook_decode_duration_seconds",
            "WebSocket message decode latency",
            "histogram",
        );
        let ghost start = out@;
        let mut i: usize = 0;
        while i < self.exchanges.len()
            invariant
                i <= self.exchanges@.len(),
                sums.decode@.len() == self.exchanges@.len(),
                out@ == decode_text(start, self.exchanges@, sums.decode@, i as nat),
            decreases self.exchanges@.len() - i,
        {
            let mut labels = String::new();
            labels.append("exchange=\"");
            labels.append(self.exchanges[i].name);
            labels.append("\"");
            assert(labels@ =~= "exchange=\""@ + self.exchanges@[i as int].name@ + "\""@);
            self.exchanges[i].decode_latency.render(
                "orderbook_decode_duration_seconds",
                labels.as_str(),
                sums.decode[i].as_str(),
                &mut out,
            );
            i += 1;
        }
        write_header(
            &mut out,
            "orderbook_merge_duration_seconds",
            "Order book merge latency",
            "histogram",
        );
        self.merge_latency.render(
            "orderbook_merge_duration_seconds",
            "",
            sums.merge.as_str(),
            &mut out,
        );
        write_header(
            &mut out,
            "orderbook_e2e_duration_seconds",
            "End-to-end latency: WS receive to merged summary published",
            "histogram",
        );
        self.e2e_latency.render(
            "orderbook_e2e_duration_seconds",
            "",
            sums.e2e.as_str(),
            &mut out,
        );
        out
    }

    /// The counters and gauges.
    fn render_counters(&self, now: u64) -> (r: String)
        ensures
            r@ == counters_text(*self, now),
    {
        reveal(counters_text);
        let mut out = String::new();
        let exchanges = self.exchanges.as_slice();
        write_per_exchange(
            &mut out,
            "orderbook_messages_total",
            "WebSocket messages received",
            "counter",
            exchanges,
            Counter::Messages,
        );
        write_per_exchange(
            &mut out,
            "orderbook_errors_total",
            "Parse/connection errors",
            "counter",
            exchanges,
            Counter::Errors,
        );
        write_per_exchange(
            &mut out,
            "orderbook_reconnections_total",
            "WebSocket reconnection attempts",
            "counter",
            exchanges,
            Counter::Reconnections,
        );
        write_per_exchange(
            &mut out,
            "orderbook_ring_drops_total",
            "Snapshots dropped due to full SPSC ring buffer",
            "counter",
            exchanges,
            Counter::RingDrops,
        );
        write_header(
            &mut out,
            "orderbook_merges_total",
            "Order book merge operations",
            "counter",
        );
        write_plain(&mut out, "orderbook_merges_total", self.merges);
        write_per_exchange(
            &mut out,
            "orderbook_exchange_up",
            "Exchange connection status (1=connected)",
            "gauge",
            exchanges,
            Counter::Up,
        );
        write_header(
            &mut out,
            "orderbook_uptime_seconds",
            "Seconds since process start",
            "gauge",
        );
        let uptime: u64 = elapsed_nanos(self.start_time, now) / 1_000_000_000;
        write_plain(&mut out, "orderbook_uptime_seconds", uptime);
        out
    }

    /// HTTP status and body for a health request: `OK` while all exchanges are
    /// connected, `DEGRADED` while some are, `DOWN` while none is.
    pub fn health(&self) -> (r: (u16, &'static str))
        ensures
            ({
                let connected = connected_count(self.exchanges@, self.exchanges@.len());
                if connected == self.exchanges@.len() {
                    r.0 == 200 && r.1@ == "OK\n"@
                } else if connected > 0 {
                    r.0 == 200 && r.1@ == "DEGRADED\n"@
                } else {
                    r.0 == 503 && r.1@ == "DOWN\n"@
                }
            }),
    {
        let mut connected: usize = 0;
        let mut i: usize = 0;
        while i < self.exchanges.len()
            invariant
                i <= self.exchanges@.len(),
                connected <= i,
                connected == connected_count(self.exchanges@, i as nat),
            decreases self.exchanges@.len() - i,
        {
            if self.exchanges[i].connected {
                connected += 1;
            }
            i += 1;
        }
        if connected == self.exchanges.len() {
            (200, "OK\n")
        } else if connected > 0 {
            (200, "DEGRADED\n")
        } else {
            (503, "DOWN\n")
        }
    }
}

proof fn lemma_bucket_from(nanos: u64, i: int)
    requires
        0 <= i <= NUM_BUCKETS,
        i > 0 ==> bound(i - 1) < nanos,
    ensures
        i <= bucket_from(nanos, i) <= NUM_BUCKETS,
        bucket_from(nanos, i) < NUM_BUCKETS ==> nanos <= bound(bucket_from(nanos, i)),
        bucket_from(nanos, i) > 0 ==> bound(bucket_from(nanos, i) - 1) < nanos,
    decreases NUM_BUCKETS - i,
{
    if i < NUM_BUCKETS && nanos > bound(i) {
        lemma_bucket_from(nanos, i + 1);
    }
}

/// An observation goes into the bucket with the lowest bound that it does not
/// exceed, and into the overflow bucket where it exceeds all.
pub proof fn law_bucket(nanos: u64)
    ensures
        0 <= bucket_of(nanos) <= NUM_BUCKETS,
        bucket_of(nanos) < NUM_BUCKETS ==> nanos <= bound(bucket_of(nanos)),
        bucket_of(nanos) > 0 ==> bound(bucket_of(nanos) - 1) < nanos,
{
    lemma_bucket_from(nanos, 0);
}

proof fn lemma_sum_take(counts: Seq<u64>, i: int, j: int)
    requires
        0 <= i <= j <= counts.len(),
    ensures
        0 <= sum(counts.take(i)) <= sum(counts.take(j)),
    decreases j,
{
    if j > 0 {
        assert(counts.take(j).drop_last() =~= counts.take(j - 1));
        if i < j {
            lemma_sum_take(counts, i, j - 1);
        } else {
            lemma_sum_take(counts, i - 1, j - 1);
        }
    }
}

/// As long as no counter has wrapped around, the cumulative counts never fall
/// from one bucket to the next, and the count of all observations is their last.
pub proof fn law_cumulative(h: PromHistogram, i: int, j: int)
    requires
        h.wf(),
        sum(h.buckets@) <= u64::MAX,
        0 <= i <= j <= h.buckets@.len(),
    ensures
        wrapped(sum(h.buckets@.take(i))) <= wrapped(sum(h.buckets@.take(j))) <= h.count,
        h.count == sum(h.buckets@),
{
    let n = h.buckets@.len() as int;
    assert(h.buckets@.take(n) =~= h.buckets@);
    lemma_sum_take(h.buckets@, i, j);
    lemma_sum_take(h.buckets@, j, n);
}

/// Whether `hs` are the states of a histogram over a run of `record` calls, from
/// a new one to the one that holds all of `durations`.
pub open spec fn recorded_in_turn(hs: Seq<PromHistogram>, durations: Seq<u128>) -> bool {
    &&& hs.len() == durations.len() + 1
    &&& hs[0].buckets@ == Seq::new(NUM_COUNTS as nat, |i: int| 0u64)
    &&& hs[0].sum_ns == 0
    &&& hs[0].count == 0
    &&& forall|k: int|
        0 <= k < durations.len() ==> recorded(
            hs[k],
            hs[k + 1],
            clamped(#[trigger] durations[k]),
        )
}

/// How many durations are not above a bound.
pub open spec fn not_above(durations: Seq<u128>, limit: u64) -> nat {
    durations.filter(|d: u128| d <= limit).len()
}

/// The sum of durations, each cut off at 64 bits.
pub open spec fn total_nanos(durations: Seq<u128>) -> int
    decreases durations.len(),
{
    if durations.len() == 0 {
        0
    } else {
        total_nanos(durations.drop_last()) + clamped(durations.last())
    }
}

/// The bounds rise from bucket to bucket.
proof fn lemma_bounds_rise(i: int, j: int)
    requires
        0 <= i <= j < NUM_BUCKETS,
    ensures
        bound(i) <= bound(j),
    decreases j - i,
{
    if i < j {
        lemma_bounds_rise(i, j - 1);
        assert(bound(j - 1) <= bound(j));
    }
}

/// A duration goes into one of the buckets up to `i` exactly where it is not
/// above bound `i`.
proof fn lemma_bucket_up_to(nanos: u128, i: int)
    requires
        0 <= i < NUM_BUCKETS,
    ensures
        bucket_of(clamped(nanos)) <= i <==> nanos <= bound(i),
{
    let b = bucket_of(clamped(nanos));
    law_bucket(clamped(nanos));
    lemma_bounds_rise(i, NUM_BUCKETS - 1);
    assert(bound(15) == 100_000_000);
    if b <= i {
        lemma_bounds_rise(b, i);
    } else {
        lemma_bounds_rise(i, b - 1);
    }
}

/// One more duration adds one to the number not above a bound, or nothing.
proof fn lemma_not_above_step(durations: Seq<u128>, limit: u64)
    requires
        durations.len() > 0,
    ensures
        not_above(durations, limit) == not_above(durations.drop_last(), limit) + if durations.last()
            <= limit {
            1nat
        } else {
            0nat
        },
{
    reveal(Seq::filter);
}

/// One more observation adds one to the counts at the bounds that it does not
/// exceed, up to wrapping.
proof fn lemma_count_step(before: PromHistogram, after: PromHistogram, nanos: u128, i: int)
    requires
        recorded(before, after, clamped(nanos)),
        0 <= i < NUM_BUCKETS,
    ensures
        wrapped(sum(after.buckets@.take(i + 1))) == wrapped(
            wrapped(sum(before.buckets@.take(i + 1))) + if nanos <= bound(i) {
                1int
            } else {
                0int
            },
        ),
{
    let counts = before.buckets@;
    let b = bucket_of(clamped(nanos));
    law_bucket(clamped(nanos));
    lemma_bucket_up_to(nanos, i);
    if b <= i {
        let value = wrapped(counts[b] + 1);
        assert(after.buckets@.take(i + 1) =~= counts.take(i + 1).update(b, value));
        lemma_sum_update(counts.take(i + 1), b, value);
    } else {
        assert(after.buckets@.take(i + 1) =~= counts.take(i + 1));
    }
}

/// After a run of `record` calls on a new histogram, the count that is rendered at
/// a bound is the number of recorded durations not above it, the count of all is
/// their number, and the sum is their sum, all up to wrapping at 64 bits.
pub proof fn law_counts_at_bounds(hs: Seq<PromHistogram>, durations: Seq<u128>, i: int)
    requires
        recorded_in_turn(hs, durations),
        0 <= i < NUM_BUCKETS,
    ensures
        wrapped(sum(hs.last().buckets@.take(i + 1))) == wrapped(
            not_above(durations, bound(i)) as int,
        ),
        hs.last().count == wrapped(durations.len() as int),
        hs.last().sum_ns == wrapped(total_nanos(durations)),
    decreases durations.len(),
{
    let n = durations.len() as int;
    if n == 0 {
        let zeros = hs[0].buckets@.take(i + 1);
        lemma_sum_zero(zeros);
        reveal(Seq::filter);
    } else {
        let before = durations.drop_last();
        let earlier = hs.drop_last();
        assert(recorded_in_turn(earlier, before)) by {
            assert forall|k: int| 0 <= k < before.len() implies recorded(
                earlier[k],
                earlier[k + 1],
                clamped(#[trigger] before[k]),
            ) by {
                assert(before[k] == durations[k]);
            }
        }
        law_counts_at_bounds(earlier, before, i);
        let d = durations[n - 1];
        assert(recorded(hs[n - 1], hs[n], clamped(d)));
        lemma_count_step(hs[n - 1], hs[n], d, i);
        lemma_not_above_step(durations, bound(i));
        lemma_wrapped_add(before.len() as int, 1);
        lemma_wrapped_add(total_nanos(before), clamped(d) as int);
        lemma_wrapped_add(
            not_above(before, bound(i)) as int,
            not_above(durations, bound(i)) - not_above(before, bound(i)),
        );
    }
}

/// Counting on from a counter that has wrapped gives what counting without
/// wrapping would come to.
proof fn lemma_wrapped_add(a: int, b: int)
    ensures
        wrapped(wrapped(a) + b) == wrapped(a + b),
{
}

/// The feed is `OK` exactly while every exchange is connected, and all are down
/// exactly while none is.
pub proof fn law_connected_count(exchanges: Seq<ExchangeMetrics>, n: nat)
    requires
        n <= exchanges.len(),
    ensures
        connected_count(exchanges, n) <= n,
        connected_count(exchanges, n) == n <==> forall|i: int|
            0 <= i < n ==> (#[trigger] exchanges[i]).connected,
        connected_count(exchanges, n) == 0 <==> forall|i: int|
            0 <= i < n ==> !(#[trigger] exchanges[i]).connected,
    decreases n,
{
    if n > 0 {
        law_connected_count(exchanges, (n - 1) as nat);
        assert(exchanges[n - 1] == exchanges[n - 1]);
    }
}

proof fn lemma_bucket_lines_append(
    out: Seq<char>,
    buckets: Seq<u64>,
    name: Seq<char>,
    labels: Seq<char>,
    n: nat,
)
    ensures
        bucket_lines(out, buckets, name, labels, n) == out + bucket_lines(
            Seq::empty(),
            buckets,
            name,
            labels,
            n,
        ),
    decreases n,
{
    if n > 0 {
        lemma_bucket_lines_append(out, buckets, name, labels, (n - 1) as nat);
        let le = BUCKETS@[n - 1].1@;
        let count = wrapped(sum(buckets.take(n as int)));
        let rest = bucket_lines(Seq::empty(), buckets, name, labels, (n - 1) as nat);
        lemma_bucket_append(out, rest, name, labels, le, count);
    } else {
        assert(out + Seq::<char>::empty() =~= out);
    }
}

proof fn lemma_bucket_append(
    out: Seq<char>,
    rest: Seq<char>,
    name: Seq<char>,
    labels: Seq<char>,
    le: Seq<char>,
    count: u64,
)
    ensures
        bucket_text(out + rest, name, labels, le, count) == out + bucket_text(
            rest,
            name,
            labels,
            le,
            count,
        ),
{
    assert(bucket_text(out + rest, name, labels, le, count) =~= out + bucket_text(
        rest,
        name,
        labels,
        le,
        count,
    ));
}

proof fn lemma_value_append(
    out: Seq<char>,
    rest: Seq<char>,
    name: Seq<char>,
    suffix: Seq<char>,
    labels: Seq<char>,
    value: Seq<char>,
)
    ensures
        value_text(out + rest, name, suffix, labels, value) == out + value_text(
            rest,
            name,
            suffix,
            labels,
            value,
        ),
{
    assert(value_text(out + rest, name, suffix, labels, value) =~= out + value_text(
        rest,
        name,
        suffix,
        labels,
        value,
    ));
}

/// Rendering a histogram only appends: the text so far stays in front, and what
/// follows does not depend on it.
pub proof fn law_render_appends(
    out: Seq<char>,
    h: PromHistogram,
    name: Seq<char>,
    labels: Seq<char>,
    sum_secs: Seq<char>,
)
    ensures
        histogram_text(out, h, name, labels, sum_secs) == out + histogram_text(
            Seq::empty(),
            h,
            name,
            labels,
            sum_secs,
        ),
{
    reveal(histogram_text);
    let n = NUM_BUCKETS as nat;
    let e = Seq::<char>::empty();
    lemma_bucket_lines_append(out, h.buckets@, name, labels, n);
    let a = bucket_lines(e, h.buckets@, name, labels, n);
    lemma_bucket_append(out, a, name, labels, "+Inf"@, h.count);
    let b = bucket_text(a, name, labels, "+Inf"@, h.count);
    lemma_value_append(out, b, name, "_sum"@, labels, sum_secs);
    let c = value_text(b, name, "_sum"@, labels, sum_secs);
    lemma_value_append(out, c, name, "_count"@, labels, text::number_text(h.count as nat));
}

/// Time runs from `start` to `end`, and never backwards.
pub proof fn law_elapsed(start: u64, end: u64, r: u64)
    requires
        call_ensures(elapsed_nanos, (start, end), r),
    ensures
        start <= end ==> start + r == end,
        end <= start ==> r == 0,
{
}

/// The upper bounds of the buckets in nanoseconds.
pub open spec fn upper(i: int) -> int {
    let steps: Seq<int> = seq![
        100,
        500,
        1_000,
        5_000,
        10_000,
        25_000,
        50_000,
        100_000,
        250_000,
        500_000,
        1_000_000,
        5_000_000,
        10_000_000,
        25_000_000,
        50_000_000,
        100_000_000,
    ];
    steps[i]
}

/// Recording an observation adds one to the bucket whose bounds it lies between, to
/// no other bucket and to the count, and adds its nanoseconds, cut off at 64 bits, to
/// the sum; all wrap around.
pub proof fn law_record(h: &mut PromHistogram, nanos: u128, i: int)
    requires
        call_ensures(PromHistogram::record, (h, nanos), ()),
        0 <= i <= 16,
    ensures
        final(h).buckets@[i] == if (i == 0 || upper(i - 1) < nanos) && (i == 16 || nanos <= upper(
            i,
        )) {
            (old(h).buckets@[i] + 1) % 0x1_0000_0000_0000_0000
        } else {
            old(h).buckets@[i] as int
        },
        final(h).count == (old(h).count + 1) % 0x1_0000_0000_0000_0000,
        final(h).sum_ns == (old(h).sum_ns + if nanos <= 0xffff_ffff_ffff_ffff {
            nanos as int
        } else {
            0xffff_ffff_ffff_ffff
        }) % 0x1_0000_0000_0000_0000,
{
    law_bucket(clamped(nanos));
    let b = bucket_of(clamped(nanos));
    assert(forall|k: int| 0 <= k < 16 ==> #[trigger] bound(k) == upper(k));
    if i < 16 {
        lemma_bucket_up_to(nanos, i);
        assert(bound(i) == upper(i));
    }
    if i > 0 {
        lemma_bucket_up_to(nanos, i - 1);
        assert(bound(i - 1) == upper(i - 1));
    }
}

/// Whether a line stands somewhere in a text.
pub open spec fn holds(text: Seq<char>, line: Seq<char>) -> bool {
    exists|k: int|
        0 <= k && k + line.len() <= text.len() && #[trigger] text.subrange(k, k + line.len())
            == line
}

/// Whether a text starts with another.
pub open spec fn starts_with(text: Seq<char>, front: Seq<char>) -> bool {
    &&& front.len() <= text.len()
    &&& text.take(front.len() as int) == front
}

/// What stands in the front of a text stands in the text.
proof fn lemma_holds_on(text: Seq<char>, front: Seq<char>, line: Seq<char>)
    requires
        starts_with(text, front),
        holds(front, line),
    ensures
        holds(text, line),
{
    let k = choose|k: int|
        0 <= k && k + line.len() <= front.len() && #[trigger] front.subrange(k, k + line.len())
            == line;
    assert(text.subrange(k, k + line.len()) =~= text.take(front.len() as int).subrange(
        k,
        k + line.len(),
    ));
}

proof fn lemma_starts_trans(c: Seq<char>, b: Seq<char>, a: Seq<char>)
    requires
        starts_with(c, b),
        starts_with(b, a),
    ensures
        starts_with(c, a),
{
    assert(c.take(a.len() as int) =~= c.take(b.len() as int).take(a.len() as int));
}

/// A text with a line behind it starts with the text and holds the line.
proof fn lemma_line_behind(out: Seq<char>, line: Seq<char>)
    ensures
        starts_with(out + line, out),
        holds(out + line, line),
{
    let t = out + line;
    let k = out.len() as int;
    assert(t.take(k) =~= out);
    assert(t.subrange(k, k + line.len()) =~= line);
}

proof fn lemma_header_front(
    out: Seq<char>,
    name: Seq<char>,
    help: Seq<char>,
    metric_type: Seq<char>,
)
    ensures
        starts_with(header_text(out, name, help, metric_type), out),
        holds(
            header_text(out, name, help, metric_type),
            "# TYPE "@ + name + " "@ + metric_type + "\n"@,
        ),
{
    reveal(header_text);
    let first = "# HELP "@ + name + " "@ + help + "\n"@;
    let second = "# TYPE "@ + name + " "@ + metric_type + "\n"@;
    let t = header_text(out, name, help, metric_type);
    assert(t =~= (out + first) + second);
    lemma_line_behind(out, first);
    lemma_line_behind(out + first, second);
    lemma_starts_trans(t, out + first, out);
}

/// The line of a metric without labels.
pub open spec fn plain_line(name: Seq<char>, value: u64) -> Seq<char> {
    name + " "@ + text::number_text(value as nat) + "\n"@
}

proof fn lemma_plain_front(out: Seq<char>, name: Seq<char>, value: u64)
    ensures
        starts_with(plain_text(out, name, value), out),
        holds(plain_text(out, name, value), plain_line(name, value)),
{
    reveal(plain_text);
    assert(plain_text(out, name, value) =~= out + plain_line(name, value));
    lemma_line_behind(out, plain_line(name, value));
}

/// The line of a metric of one exchange.
pub open spec fn exchange_line(name: Seq<char>, exchange: Seq<char>, value: u64) -> Seq<char> {
    name + "{exchange=\""@ + exchange + "\"} "@ + text::number_text(value as nat) + "\n"@
}

proof fn lemma_exchange_lines_front(
    out: Seq<char>,
    name: Seq<char>,
    exchanges: Seq<ExchangeMetrics>,
    counter: Counter,
    n: nat,
    i: int,
)
    ensures
        starts_with(exchange_lines(out, name, exchanges, counter, n), out),
        0 <= i < n ==> holds(
            exchange_lines(out, name, exchanges, counter, n),
            exchange_line(name, exchanges[i].name@, counter_value(exchanges[i], counter)),
        ),
    decreases n,
{
    let t = exchange_lines(out, name, exchanges, counter, n);
    if n > 0 {
        let prev = exchange_lines(out, name, exchanges, counter, (n - 1) as nat);
        let ex = exchanges[n - 1];
        let line = exchange_line(name, ex.name@, counter_value(ex, counter));
        lemma_exchange_lines_front(out, name, exchanges, counter, (n - 1) as nat, i);
        assert(t =~= prev + line);
        lemma_line_behind(prev, line);
        lemma_starts_trans(t, prev, out);
        if 0 <= i < n - 1 {
            lemma_holds_on(
                t,
                prev,
                exchange_line(name, exchanges[i].name@, counter_value(exchanges[i], counter)),
            );
        }
    } else {
        assert(t.take(out.len() as int) =~= out);
    }
}

proof fn lemma_per_exchange_front(
    out: Seq<char>,
    name: Seq<char>,
    help: Seq<char>,
    metric_type: Seq<char>,
    exchanges: Seq<ExchangeMetrics>,
    counter: Counter,
    i: int,
)
    ensures
        starts_with(per_exchange_text(out, name, help, metric_type, exchanges, counter), out),
        0 <= i < exchanges.len() ==> holds(
            per_exchange_text(out, name, help, metric_type, exchanges, counter),
            exchange_line(name, exchanges[i].name@, counter_value(exchanges[i], counter)),
        ),
{
    reveal(per_exchange_text);
    let head = header_text(out, name, help, metric_type);
    lemma_header_front(out, name, help, metric_type);
    lemma_exchange_lines_front(head, name, exchanges, counter, exchanges.len(), i);
    lemma_starts_trans(
        per_exchange_text(out, name, help, metric_type, exchanges, counter),
        head,
        out,
    );
}

/// The line of a bucket: how many observations are at most `le`.
pub open spec fn bucket_line(
    name: Seq<char>,
    labels: Seq<char>,
    le: Seq<char>,
    count: u64,
) -> Seq<char> {
    name + "_bucket{"@ + (if labels.len() == 0 {
        labels
    } else {
        labels + ","@
    }) + "le=\""@ + le + "\"} "@ + text::number_text(count as nat) + "\n"@
}

/// The line of a histogram's sum or count.
pub open spec fn value_line(
    name: Seq<char>,
    suffix: Seq<char>,
    labels: Seq<char>,
    value: Seq<char>,
) -> Seq<char> {
    name + suffix + (if labels.len() == 0 {
        labels
    } else {
        "{"@ + labels + "}"@
    }) + " "@ + value + "\n"@
}

proof fn lemma_bucket_front(
    out: Seq<char>,
    name: Seq<char>,
    labels: Seq<char>,
    le: Seq<char>,
    count: u64,
)
    ensures
        bucket_text(out, name, labels, le, count) == out + bucket_line(name, labels, le, count),
        starts_with(bucket_text(out, name, labels, le, count), out),
        holds(bucket_text(out, name, labels, le, count), bucket_line(name, labels, le, count)),
{
    let line = bucket_line(name, labels, le, count);
    assert(bucket_text(out, name, labels, le, count) =~= out + line);
    lemma_line_behind(out, line);
}

proof fn lemma_value_front(
    out: Seq<char>,
    name: Seq<char>,
    suffix: Seq<char>,
    labels: Seq<char>,
    value: Seq<char>,
)
    ensures
        value_text(out, name, suffix, labels, value) == out + value_line(
            name,
            suffix,
            labels,
            value,
        ),
        starts_with(value_text(out, name, suffix, labels, value), out),
        holds(
            value_text(out, name, suffix, labels, value),
            value_line(name, suffix, labels, value),
        ),
{
    let line = value_line(name, suffix, labels, value);
    assert(value_text(out, name, suffix, labels, value) =~= out + line);
    lemma_line_behind(out, line);
}

proof fn lemma_bucket_lines_front(
    out: Seq<char>,
    buckets: Seq<u64>,
    name: Seq<char>,
    labels: Seq<char>,
    n: nat,
    i: int,
)
    ensures
        starts_with(bucket_lines(out, buckets, name, labels, n), out),
        0 <= i < n ==> holds(
            bucket_lines(out, buckets, name, labels, n),
            bucket_line(name, labels, BUCKETS@[i].1@, wrapped(sum(buckets.take(i + 1)))),
        ),
    decreases n,
{
    let t = bucket_lines(out, buckets, name, labels, n);
    if n > 0 {
        let prev = bucket_lines(out, buckets, name, labels, (n - 1) as nat);
        lemma_bucket_lines_front(out, buckets, name, labels, (n - 1) as nat, i);
        lemma_bucket_front(
            prev,
            name,
            labels,
            BUCKETS@[n - 1].1@,
            wrapped(sum(buckets.take(n as int))),
        );
        lemma_starts_trans(t, prev, out);
        if 0 <= i < n - 1 {
            lemma_holds_on(
                t,
                prev,
                bucket_line(name, labels, BUCKETS@[i].1@, wrapped(sum(buckets.take(i + 1)))),
            );
        }
    } else {
        assert(t.take(out.len() as int) =~= out);
    }
}

/// Whether a text holds the lines of a histogram: for every bound the observations up
/// to it, all of them at infinity, their sum and their count.
pub open spec fn holds_histogram(
    text: Seq<char>,
    h: PromHistogram,
    name: Seq<char>,
    labels: Seq<char>,
    sum_secs: Seq<char>,
) -> bool {
    &&& forall|i: int|
        0 <= i < 16 ==> holds(
            text,
            bucket_line(
                name,
                labels,
                (#[trigger] BUCKETS@[i]).1@,
                wrapped(sum(h.buckets@.take(i + 1))),
            ),
        )
    &&& holds(text, bucket_line(name, labels, "+Inf"@, h.count))
    &&& holds(text, value_line(name, "_sum"@, labels, sum_secs))
    &&& holds(text, value_line(name, "_count"@, labels, text::number_text(h.count as nat)))
}

proof fn lemma_histogram_front(
    out: Seq<char>,
    h: PromHistogram,
    name: Seq<char>,
    labels: Seq<char>,
    sum_secs: Seq<char>,
)
    ensures
        starts_with(histogram_text(out, h, name, labels, sum_secs), out),
        holds_histogram(histogram_text(out, h, name, labels, sum_secs), h, name, labels, sum_secs),
{
    reveal(histogram_text);
    let t = histogram_text(out, h, name, labels, sum_secs);
    let a = bucket_lines(out, h.buckets@, name, labels, NUM_BUCKETS as nat);
    let b = bucket_text(a, name, labels, "+Inf"@, h.count);
    let c = value_text(b, name, "_sum"@, labels, sum_secs);
    lemma_bucket_lines_front(out, h.buckets@, name, labels, NUM_BUCKETS as nat, 0);
    lemma_bucket_front(a, name, labels, "+Inf"@, h.count);
    lemma_value_front(b, name, "_sum"@, labels, sum_secs);
    lemma_value_front(c, name, "_count"@, labels, text::number_text(h.count as nat));
    lemma_starts_trans(t, c, b);
    lemma_starts_trans(t, b, a);
    lemma_starts_trans(t, a, out);
    lemma_holds_on(t, b, bucket_line(name, labels, "+Inf"@, h.count));
    lemma_holds_on(t, c, value_line(name, "_sum"@, labels, sum_secs));
    assert forall|i: int| 0 <= i < 16 implies holds(
        t,
        bucket_line(
            name,
            labels,
            (#[trigger] BUCKETS@[i]).1@,
            wrapped(sum(h.buckets@.take(i + 1))),
        ),
    ) by {
        lemma_bucket_lines_front(out, h.buckets@, name, labels, NUM_BUCKETS as nat, i);
        lemma_holds_on(
            t,
            a,
            bucket_line(name, labels, BUCKETS@[i].1@, wrapped(sum(h.buckets@.take(i + 1)))),
        );
    }
}

proof fn lemma_histogram_stays(
    text: Seq<char>,
    front: Seq<char>,
    h: PromHistogram,
    name: Seq<char>,
    labels: Seq<char>,
    sum_secs: Seq<char>,
)
    requires
        starts_with(text, front),
        holds_histogram(front, h, name, labels, sum_secs),
    ensures
        holds_histogram(text, h, name, labels, sum_secs),
{
    lemma_holds_on(text, front, bucket_line(name, labels, "+Inf"@, h.count));
    lemma_holds_on(text, front, value_line(name, "_sum"@, labels, sum_secs));
    lemma_holds_on(
        text,
        front,
        value_line(name, "_count"@, labels, text::number_text(h.count as nat)),
    );
    assert forall|i: int| 0 <= i < 16 implies holds(
        text,
        bucket_line(
            name,
            labels,
            (#[trigger] BUCKETS@[i]).1@,
            wrapped(sum(h.buckets@.take(i + 1))),
        ),
    ) by {
        lemma_holds_on(
            text,
            front,
            bucket_line(name, labels, BUCKETS@[i].1@, wrapped(sum(h.buckets@.take(i + 1)))),
        );
    }
}

/// Rendering a histogram leaves the text so far in front and writes a line for every
/// bound, one for infinity, the sum and the count.
pub proof fn law_render_lines(
    h: &PromHistogram,
    name: &str,
    labels: &str,
    sum_secs: &str,
    out: &mut String,
)
    requires
        call_ensures(PromHistogram::render, (h, name, labels, sum_secs, out), ()),
    ensures
        starts_with(final(out)@, old(out)@),
        holds_histogram(final(out)@, *h, name@, labels@, sum_secs@),
{
    lemma_histogram_front(old(out)@, *h, name@, labels@, sum_secs@);
}

proof fn lemma_decode_front(
    out: Seq<char>,
    exchanges: Seq<ExchangeMetrics>,
    sums: Seq<String>,
    n: nat,
    i: int,
)
    ensures
        starts_with(decode_text(out, exchanges, sums, n), out),
        0 <= i < n ==> holds_histogram(
            decode_text(out, exchanges, sums, n),
            exchanges[i].decode_latency,
            "orderbook_decode_duration_seconds"@,
            "exchange=\""@ + exchanges[i].name@ + "\""@,
            sums[i]@,
        ),
    decreases n,
{
    let t = decode_text(out, exchanges, sums, n);
    if n > 0 {
        let prev = decode_text(out, exchanges, sums, (n - 1) as nat);
        lemma_decode_front(out, exchanges, sums, (n - 1) as nat, i);
        lemma_histogram_front(
            prev,
            exchanges[n - 1].decode_latency,
            "orderbook_decode_duration_seconds"@,
            "exchange=\""@ + exchanges[n - 1].name@ + "\""@,
            sums[n - 1]@,
        );
        lemma_starts_trans(t, prev, out);
        if 0 <= i < n - 1 {
            lemma_histogram_stays(
                t,
                prev,
                exchanges[i].decode_latency,
                "orderbook_decode_duration_seconds"@,
                "exchange=\""@ + exchanges[i].name@ + "\""@,
                sums[i]@,
            );
        }
    } else {
        assert(t.take(out.len() as int) =~= out);
    }
}

/// Whether a text reports the counters of an exchange, each under its name.
pub open spec fn reports_exchange(text: Seq<char>, ex: ExchangeMetrics) -> bool {
    &&& holds(text, exchange_line("orderbook_messages_total"@, ex.name@, ex.messages))
    &&& holds(text, exchange_line("orderbook_errors_total"@, ex.name@, ex.errors))
    &&& holds(text, exchange_line("orderbook_reconnections_total"@, ex.name@, ex.reconnections))
    &&& holds(text, exchange_line("orderbook_ring_drops_total"@, ex.name@, ex.ring_drops))
    &&& holds(
        text,
        exchange_line(
            "orderbook_exchange_up"@,
            ex.name@,
            if ex.connected {
                1
            } else {
                0
            },
        ),
    )
}

proof fn lemma_counters(m: Metrics, now: u64, i: int)
    ensures
        0 <= i < m.exchanges@.len() ==> reports_exchange(counters_text(m, now), m.exchanges@[i]),
        holds(counters_text(m, now), plain_line("orderbook_merges_total"@, m.merges)),
        holds(
            counters_text(m, now),
            plain_line("orderbook_uptime_seconds"@, uptime_secs(m.start_time, now)),
        ),
{
    reveal(counters_text);
    let ex = m.exchanges@;
    let a = per_exchange_text(
        Seq::empty(),
        "orderbook_messages_total"@,
        "WebSocket messages received"@,
        "counter"@,
        ex,
        Counter::Messages,
    );
    let b = per_exchange_text(
        a,
        "orderbook_errors_total"@,
        "Parse/connection errors"@,
        "counter"@,
        ex,
        Counter::Errors,
    );
    let c = per_exchange_text(
        b,
        "orderbook_reconnections_total"@,
        "WebSocket reconnection attempts"@,
        "counter"@,
        ex,
        Counter::Reconnections,
    );
    let d = per_exchange_text(
        c,
        "orderbook_ring_drops_total"@,
        "Snapshots dropped due to full SPSC ring buffer"@,
        "counter"@,
        ex,
        Counter::RingDrops,
    );
    let e = header_text(
        d,
        "orderbook_merges_total"@,
        "Order book merge operations"@,
        "counter"@,
    );
    let f = plain_text(e, "orderbook_merges_total"@, m.merges);
    let g = per_exchange_text(
        f,
        "orderbook_exchange_up"@,
        "Exchange connection status (1=connected)"@,
        "gauge"@,
        ex,
        Counter::Up,
    );
    let h = header_text(
        g,
        "orderbook_uptime_seconds"@,
        "Seconds since process start"@,
        "gauge"@,
    );
    let t = plain_text(h, "orderbook_uptime_seconds"@, uptime_secs(m.start_time, now));
    assert(t == counters_text(m, now));
    lemma_per_exchange_front(
        Seq::empty(),
        "orderbook_messages_total"@,
        "WebSocket messages received"@,
        "counter"@,
        ex,
        Counter::Messages,
        i,
    );
    lemma_per_exchange_front(
        a,
        "orderbook_errors_total"@,
        "Parse/connection errors"@,
        "counter"@,
        ex,
        Counter::Errors,
        i,
    );
    lemma_per_exchange_front(
        b,
        "orderbook_reconnections_total"@,
        "WebSocket reconnection attempts"@,
        "counter"@,
        ex,
        Counter::Reconnections,
        i,
    );
    lemma_per_exchange_front(
        c,
        "orderbook_ring_drops_total"@,
        "Snapshots dropped due to full SPSC ring buffer"@,
        "counter"@,
        ex,
        Counter::RingDrops,
        i,
    );
    lemma_header_front(
        d,
        "orderbook_merges_total"@,
        "Order book merge operations"@,
        "counter"@,
    );
    lemma_plain_front(e, "orderbook_merges_total"@, m.merges);
    lemma_per_exchange_front(
        f,
        "orderbook_exchange_up"@,
        "Exchange connection status (1=connected)"@,
        "gauge"@,
        ex,
        Counter::Up,
        i,
    );
    lemma_header_front(
        g,
        "orderbook_uptime_seconds"@,
        "Seconds since process start"@,
        "gauge"@,
    );
    lemma_plain_front(h, "orderbook_uptime_seconds"@, uptime_secs(m.start_time, now));
    lemma_starts_trans(t, h, g);
    lemma_starts_trans(t, g, f);
    lemma_starts_trans(t, f, e);
    lemma_starts_trans(t, e, d);
    lemma_starts_trans(t, d, c);
    lemma_starts_trans(t, c, b);
    lemma_starts_trans(t, b, a);
    lemma_holds_on(t, f, plain_line("orderbook_merges_total"@, m.merges));
    if 0 <= i < ex.len() {
        let x = ex[i];
        lemma_holds_on(t, a, exchange_line("orderbook_messages_total"@, x.name@, x.messages));
        lemma_holds_on(t, b, exchange_line("orderbook_errors_total"@, x.name@, x.errors));
        lemma_holds_on(
            t,
            c,
            exchange_line("orderbook_reconnections_total"@, x.name@, x.reconnections),
        );
        lemma_holds_on(t, d, exchange_line("orderbook_ring_drops_total"@, x.name@, x.ring_drops));
        lemma_holds_on(
            t,
            g,
            exchange_line(
                "orderbook_exchange_up"@,
                x.name@,
                if x.connected {
                    1
                } else {
                    0
                },
            ),
        );
    }
}

/// The Prometheus text reports, for every exchange, each of its counters under the
/// counter's name, whether it is connected, and its decode latencies; and for the
/// process its merges, the whole seconds since its start, and the merge and
/// end-to-end latencies.
pub proof fn law_prometheus_reports(
    m: &Metrics,
    now: u64,
    sums: &SumTexts,
    r: String,
    i: int,
    uptime: u64,
)
    requires
        sums.decode@.len() == m.exchanges@.len(),
        call_ensures(Metrics::to_prometheus, (m, now, sums), r),
        m.start_time <= now,
        uptime * 1_000_000_000 <= now - m.start_time < uptime * 1_000_000_000 + 1_000_000_000,
    ensures
        0 <= i < m.exchanges@.len() ==> {
            let ex = m.exchanges@[i];
            &&& reports_exchange(r@, ex)
            &&& holds_histogram(
                r@,
                ex.decode_latency,
                "orderbook_decode_duration_seconds"@,
                "exchange=\""@ + ex.name@ + "\""@,
                sums.decode@[i]@,
            )
        },
        holds(r@, plain_line("orderbook_merges_total"@, m.merges)),
        holds(r@, plain_line("orderbook_uptime_seconds"@, uptime)),
        holds_histogram(
            r@,
            m.merge_latency,
            "orderbook_merge_duration_seconds"@,
            ""@,
            sums.merge@,
        ),
        holds_histogram(r@, m.e2e_latency, "orderbook_e2e_duration_seconds"@, ""@, sums.e2e@),
{
    let a = counters_text(*m, now);
    let b = header_text(
        a,
        "orderbook_decode_duration_seconds"@,
        "WebSocket message decode latency"@,
        "histogram"@,
    );
    let c = decode_text(b, m.exchanges@, sums.decode@, m.exchanges@.len());
    let d = header_text(
        c,
        "orderbook_merge_duration_seconds"@,
        "Order book merge latency"@,
        "histogram"@,
    );
    let e = histogram_text(
        d,
        m.merge_latency,
        "orderbook_merge_duration_seconds"@,
        ""@,
        sums.merge@,
    );
    let f = header_text(
        e,
        "orderbook_e2e_duration_seconds"@,
        "End-to-end latency: WS receive to merged summary published"@,
        "histogram"@,
    );
    let t = histogram_text(
        f,
        m.e2e_latency,
        "orderbook_e2e_duration_seconds"@,
        ""@,
        sums.e2e@,
    );
    assert(r@ == t);
    lemma_counters(*m, now, i);
    assert(uptime == uptime_secs(m.start_time, now)) by {
        let n = now - m.start_time;
        assert(n / 1_000_000_000 == uptime);
    }
    lemma_header_front(
        a,
        "orderbook_decode_duration_seconds"@,
        "WebSocket message decode latency"@,
        "histogram"@,
    );
    lemma_decode_front(b, m.exchanges@, sums.decode@, m.exchanges@.len(), i);
    lemma_header_front(
        c,
        "orderbook_merge_duration_seconds"@,
        "Order book merge latency"@,
        "histogram"@,
    );
    lemma_histogram_front(
        d,
        m.merge_latency,
        "orderbook_merge_duration_seconds"@,
        ""@,
        sums.merge@,
    );
    lemma_header_front(
        e,
        "orderbook_e2e_duration_seconds"@,
        "End-to-end latency: WS receive to merged summary published"@,
        "histogram"@,
    );
    lemma_histogram_front(f, m.e2e_latency, "orderbook_e2e_duration_seconds"@, ""@, sums.e2e@);
    lemma_starts_trans(t, f, e);
    lemma_starts_trans(t, e, d);
    lemma_starts_trans(t, d, c);
    lemma_starts_trans(t, c, b);
    lemma_starts_trans(t, b, a);
    lemma_histogram_stays(
        t,
        e,
        m.merge_latency,
        "orderbook_merge_duration_seconds"@,
        ""@,
        sums.merge@,
    );
    lemma_holds_on(t, a, plain_line("orderbook_merges_total"@, m.merges));
    lemma_holds_on(t, a, plain_line("orderbook_uptime_seconds"@, uptime));
    if 0 <= i < m.exchanges@.len() {
        let x = m.exchanges@[i];
        lemma_histogram_stays(
            t,
            c,
            x.decode_latency,
            "orderbook_decode_duration_seconds"@,
            "exchange=\""@ + x.name@ + "\""@,
            sums.decode@[i]@,
        );
        lemma_holds_on(t, a, exchange_line("orderbook_messages_total"@, x.name@, x.messages));
        lemma_holds_on(t, a, exchange_line("orderbook_errors_total"@, x.name@, x.errors));
        lemma_holds_on(
            t,
            a,
            exchange_line("orderbook_reconnections_total"@, x.name@, x.reconnections),
        );
        lemma_holds_on(t, a, exchange_line("orderbook_ring_drops_total"@, x.name@, x.ring_drops));
        lemma_holds_on(
            t,
            a,
            exchange_line(
                "orderbook_exchange_up"@,
                x.name@,
                if x.connected {
                    1
                } else {
                    0
                },
            ),
        );
    }
}

/// The feed is reported as good exactly while every exchange is connected, as down
/// exactly while there are exchanges and none is, and as degraded in between.
pub proof fn law_health(m: &Metrics, r: (u16, &'static str))
    requires
        call_ensures(Metrics::health, (m,), r),
    ensures
        ({
            let all = forall|i: int|
                0 <= i < m.exchanges@.len() ==> (#[trigger] m.exchanges@[i]).connected;
            let none = forall|i: int|
                0 <= i < m.exchanges@.len() ==> !(#[trigger] m.exchanges@[i]).connected;
            if all {
                r.0 == 200 && r.1@ == "OK\n"@
            } else if none {
                r.0 == 503 && r.1@ == "DOWN\n"@
            } else {
                r.0 == 200 && r.1@ == "DEGRADED\n"@
            }
        }),
{
    law_connected_count(m.exchanges@, m.exchanges@.len());
}

/// A registry has counters at zero for every exchange, in their order, none of which
/// is connected, and starts its clock when it is made.
pub proof fn law_register(exchange_names: &[&'static str], now: u64, r: Metrics, i: int)
    requires
        call_ensures(Metrics::register, (exchange_names, now), r),
    ensures
        r.exchanges@.len() == exchange_names@.len(),
        r.start_time == now,
        r.merges == 0,
        r.merge_latency.count == 0 && r.merge_latency.sum_ns == 0,
        r.e2e_latency.count == 0 && r.e2e_latency.sum_ns == 0,
        0 <= i < exchange_names@.len() ==> {
            let ex = r.exchanges@[i];
            &&& ex.name@ == exchange_names@[i]@
            &&& ex.messages == 0
            &&& ex.errors == 0
            &&& ex.reconnections == 0
            &&& ex.ring_drops == 0
            &&& !ex.connected
            &&& ex.decode_latency.count == 0
            &&& ex.decode_latency.sum_ns == 0
            &&& forall|j: int| 0 <= j < 17 ==> #[trigger] ex.decode_latency.buckets@[j] == 0
        },
        forall|j: int|
            0 <= j < 17 ==> #[trigger] r.merge_latency.buckets@[j] == 0
                && r.e2e_latency.buckets@[j] == 0,
{
}

/// What is looked up by name are the counters of the first exchange of that name, and
/// what is done to them changes no others.
pub proof fn law_exchange_by_name(
    m: &mut Metrics,
    name: &str,
    r: &mut ExchangeMetrics,
    k: int,
)
    requires
        call_ensures(Metrics::exchange, (m, name), r),
    ensures
        old(r).name@ == name@,
        final(m).exchanges@.len() == old(m).exchanges@.len(),
        0 <= k < old(m).exchanges@.len() && old(m).exchanges@[k].name@ != name@
            ==> final(m).exchanges@[k] == old(m).exchanges@[k],
        exists|i: int|
            {
                &&& 0 <= i < old(m).exchanges@.len()
                &&& #[trigger] old(m).exchanges@[i] == *old(r)
                &&& final(m).exchanges@ == old(m).exchanges@.update(i, *final(r))
                &&& forall|j: int| 0 <= j < i ==> (#[trigger] old(m).exchanges@[j]).name@ != name@
            },
{
}

/// The value of a label: a zero, a point, `k` zeros and the digits of a number.
proof fn lemma_label(label: Seq<char>, k: nat, digits: Seq<u8>, value: int)
    requires
        vstd::utf8::is_ascii_chars(label),
        text::ascii_bytes(label) =~= seq![ZERO, DOT] + decimal::zeros(k) + digits,
        decimal::all_digits(digits),
        digits.len() > 0,
        k + digits.len() <= 8,
        decimal::digits_value(digits) == value,
    ensures
        decimal::fixed_point_of(vstd::utf8::encode_utf8(label)) == Some(
            (value * decimal::pow10((8 - k - digits.len()) as nat)) as u64,
        ),
{
    text::lemma_ascii_bytes(label);
    let b = text::ascii_bytes(label);
    let f = decimal::zeros(k) + digits;
    assert(b[0] == ZERO && b[1] == DOT);
    decimal::lemma_parts(b, 1);
    assert(b.skip(2) =~= f);
    assert(b.take(1) =~= seq![ZERO]);
    assert(seq![ZERO].drop_last() =~= Seq::<u8>::empty());
    assert(decimal::digits_value(seq![ZERO]) == decimal::digits_value(seq![ZERO].drop_last()) * 10
        + 0);
    assert forall|j: int| 0 <= j < f.len() implies decimal::is_digit(#[trigger] f[j]) by {
        if j >= k {
            assert(f[j] == digits[j - k]);
        }
    }
    decimal::lemma_zeros_in_front(k, digits);
    decimal::lemma_fraction_value_bound(f);
    assert(decimal::kept_fraction(f) == f);
}

proof fn lemma_label_digits()
    ensures
        decimal::digits_value(seq![49u8]) == 1,
        decimal::digits_value(seq![53u8]) == 5,
        decimal::digits_value(seq![50u8, 53u8]) == 25,
{
    reveal_with_fuel(decimal::digits_value, 3);
    assert(seq![50u8, 53u8].drop_last() =~= seq![50u8]);
}

#[verifier::rlimit(40)]
proof fn lemma_labels_a(i: int)
    requires
        0 <= i < 4,
    ensures
        decimal::fixed_point_of(vstd::utf8::encode_utf8(BUCKETS@[i].1@)) == Some(
            (bound(i) / 10) as u64,
        ),
{
    decimal::lemma_pow10_table();
    lemma_label_digits();
    if i == 0 {
        assert(decimal::fixed_point_of(vstd::utf8::encode_utf8("0.0000001"@)) == Some(10u64)) by {
            reveal_strlit("0.0000001");
            assert(text::ascii_bytes("0.0000001"@) =~= seq![ZERO, DOT] + decimal::zeros(6)
                + seq![49u8]);
            lemma_label("0.0000001"@, 6, seq![49u8], 1);
        }
    } else if i == 1 {
        assert(decimal::fixed_point_of(vstd::utf8::encode_utf8("0.0000005"@)) == Some(50u64)) by {
            reveal_strlit("0.0000005");
            assert(text::ascii_bytes("0.0000005"@) =~= seq![ZERO, DOT] + decimal::zeros(6)
                + seq![53u8]);
            lemma_label("0.0000005"@, 6, seq![53u8], 5);
        }
    } else if i == 2 {
        assert(decimal::fixed_point_of(vstd::utf8::encode_utf8("0.000001"@)) == Some(100u64)) by {
            reveal_strlit("0.000001");
            assert(text::ascii_bytes("0.000001"@) =~= seq![ZERO, DOT] + decimal::zeros(5)
                + seq![49u8]);
            lemma_label("0.000001"@, 5, seq![49u8], 1);
        }
    } else if i == 3 {
        assert(decimal::fixed_point_of(vstd::utf8::encode_utf8("0.000005"@)) == Some(500u64)) by {
            reveal_strlit("0.000005");
            assert(text::ascii_bytes("0.000005"@) =~= seq![ZERO, DOT] + decimal::zeros(5)
                + seq![53u8]);
            lemma_label("0.000005"@, 5, seq![53u8], 5);
        }
    }
}

#[verifier::rlimit(40)]
proof fn lemma_labels_b(i: int)
    requires
        4 <= i < 8,
    ensures
        decimal::fixed_point_of(vstd::utf8::encode_utf8(BUCKETS@[i].1@)) == Some(
            (bound(i) / 10) as u64,
        ),
{
    decimal::lemma_pow10_table();
    lemma_label_digits();
    if i == 4 {
        assert(decimal::fixed_point_of(vstd::utf8::encode_utf8("0.00001"@)) == Some(1_000u64)) by {
            reveal_strlit("0.00001");
            assert(text::ascii_bytes("0.00001"@) =~= seq![ZERO, DOT] + decimal::zeros(4)
                + seq![49u8]);
            lemma_label("0.00001"@, 4, seq![49u8], 1);
        }
    } else if i == 5 {
        assert(decimal::fixed_point_of(vstd::utf8::encode_utf8("0.000025"@)) == Some(2_500u64)) by {
            reveal_strlit("0.000025");
            assert(text::ascii_bytes("0.000025"@) =~= seq![ZERO, DOT] + decimal::zeros(4)
                + seq![50u8, 53u8]);
            lemma_label("0.000025"@, 4, seq![50u8, 53u8], 25);
        }
    } else if i == 6 {
        assert(decimal::fixed_point_of(vstd::utf8::encode_utf8("0.00005"@)) == Some(5_000u64)) by {
            reveal_strlit("0.00005");
            assert(text::ascii_bytes("0.00005"@) =~= seq![ZERO, DOT] + decimal::zeros(4)
                + seq![53u8]);
            lemma_label("0.00005"@, 4, seq![53u8], 5);
        }
    } else if i == 7 {
        assert(decimal::fixed_point_of(vstd::utf8::encode_utf8("0.0001"@)) == Some(10_000u64)) by {
            reveal_strlit("0.0001");
            assert(text::ascii_bytes("0.0001"@) =~= seq![ZERO, DOT] + decimal::zeros(3)
                + seq![49u8]);
            lemma_label("0.0001"@, 3, seq![49u8], 1);
        }
    }
}

#[verifier::rlimit(40)]
proof fn lemma_labels_c(i: int)
    requires
        8 <= i < 12,
    ensures
        decimal::fixed_point_of(vstd::utf8::encode_utf8(BUCKETS@[i].1@)) == Some(
            (bound(i) / 10) as u64,
        ),
{
    decimal::lemma_pow10_table();
    lemma_label_digits();
    if i == 8 {
        assert(decimal::fixed_point_of(vstd::utf8::encode_utf8("0.00025"@)) == Some(25_000u64)) by {
            reveal_strlit("0.00025");
            assert(text::ascii_bytes("0.00025"@) =~= seq![ZERO, DOT] + decimal::zeros(3)
                + seq![50u8, 53u8]);
            lemma_label("0.00025"@, 3, seq![50u8, 53u8], 25);
        }
    } else if i == 9 {
        assert(decimal::fixed_point_of(vstd::utf8::encode_utf8("0.0005"@)) == Some(50_000u64)) by {
            reveal_strlit("0.0005");
            assert(text::ascii_bytes("0.0005"@) =~= seq![ZERO, DOT] + decimal::zeros(3)
                + seq![53u8]);
            lemma_label("0.0005"@, 3, seq![53u8], 5);
        }
    } else if i == 10 {
        assert(decimal::fixed_point_of(vstd::utf8::encode_utf8("0.001"@)) == Some(100_000u64)) by {
            reveal_strlit("0.001");
            assert(text::ascii_bytes("0.001"@) =~= seq![ZERO, DOT] + decimal::zeros(2)
                + seq![49u8]);
            lemma_label("0.001"@, 2, seq![49u8], 1);
        }
    } else if i == 11 {
        assert(decimal::fixed_point_of(vstd::utf8::encode_utf8("0.005"@)) == Some(500_000u64)) by {
            reveal_strlit("0.005");
            assert(text::ascii_bytes("0.005"@) =~= seq![ZERO, DOT] + decimal::zeros(2)
                + seq![53u8]);
            lemma_label("0.005"@, 2, seq![53u8], 5);
        }
    }
}

#[verifier::rlimit(40)]
proof fn lemma_labels_d(i: int)
    requires
        12 <= i < 16,
    ensures
        decimal::fixed_point_of(vstd::utf8::encode_utf8(BUCKETS@[i].1@)) == Some(
            (bound(i) / 10) as u64,
        ),
{
    decimal::lemma_pow10_table();
    lemma_label_digits();
    if i == 12 {
        assert(decimal::fixed_point_of(vstd::utf8::encode_utf8("0.01"@)) == Some(1_000_000u64)) by {
            reveal_strlit("0.01");
            assert(text::ascii_bytes("0.01"@) =~= seq![ZERO, DOT] + decimal::zeros(1)
                + seq![49u8]);
            lemma_label("0.01"@, 1, seq![49u8], 1);
        }
    } else if i == 13 {
        assert(decimal::fixed_point_of(vstd::utf8::encode_utf8("0.025"@)) == Some(2_500_000u64)) by {
            reveal_strlit("0.025");
            assert(text::ascii_bytes("0.025"@) =~= seq![ZERO, DOT] + decimal::zeros(1)
                + seq![50u8, 53u8]);
            lemma_label("0.025"@, 1, seq![50u8, 53u8], 25);
        }
    } else if i == 14 {
        assert(decimal::fixed_point_of(vstd::utf8::encode_utf8("0.05"@)) == Some(5_000_000u64)) by {
            reveal_strlit("0.05");
            assert(text::ascii_bytes("0.05"@) =~= seq![ZERO, DOT] + decimal::zeros(1)
                + seq![53u8]);
            lemma_label("0.05"@, 1, seq![53u8], 5);
        }
    } else if i == 15 {
        assert(decimal::fixed_point_of(vstd::utf8::encode_utf8("0.1"@)) == Some(10_000_000u64)) by {
            reveal_strlit("0.1");
            assert(text::ascii_bytes("0.1"@) =~= seq![ZERO, DOT] + decimal::zeros(0)
                + seq![49u8]);
            lemma_label("0.1"@, 0, seq![49u8], 1);
        }
    }
}

/// The label of every bound is that bound in seconds: read as a number with eight
/// decimals, it is a tenth of the bound's nanoseconds.
pub proof fn law_labels_are_bounds(i: int, r: Option<FixedPoint>)
    requires
        0 <= i < 16,
        call_ensures(FixedPoint::parse, (BUCKETS@[i].1,), r),
    ensures
        BUCKETS@[i].0 == upper(i),
        r is Some,
        (r->0).0 * 10 == upper(i),
{
    if i < 4 {
        lemma_labels_a(i);
    } else if i < 8 {
        lemma_labels_b(i);
    } else if i < 12 {
        lemma_labels_c(i);
    } else {
        lemma_labels_d(i);
    }
    assert(bound(i) == upper(i) && upper(i) % 10 == 0);
}

/// A new histogram has no observations, and a new exchange has nothing counted and is
/// not connected.
pub proof fn law_new_counters(
    h: PromHistogram,
    d: PromHistogram,
    name: &'static str,
    ex: ExchangeMetrics,
    i: int,
)
    requires
        call_ensures(PromHistogram::new, (), h),
        call_ensures(PromHistogram::default, (), d),
        call_ensures(ExchangeMetrics::new, (name,), ex),
        0 <= i < 17,
    ensures
        h.count == 0 && h.sum_ns == 0 && h.buckets@[i] == 0,
        d.count == 0 && d.sum_ns == 0 && d.buckets@[i] == 0,
        ex.name == name,
        ex.messages == 0 && ex.errors == 0 && ex.reconnections == 0 && ex.ring_drops == 0,
        !ex.connected,
        ex.decode_latency.count == 0 && ex.decode_latency.buckets@[i] == 0,
{
}

/// Lines behind one another.
pub open spec fn joined(lines: Seq<Seq<char>>) -> Seq<char>
    decreases lines.len(),
{
    if lines.len() == 0 {
        Seq::empty()
    } else {
        joined(lines.drop_last()) + lines.last()
    }
}

proof fn lemma_joined_push(lines: Seq<Seq<char>>, line: Seq<char>)
    ensures
        joined(lines.push(line)) == joined(lines) + line,
{
    assert(lines.push(line).drop_last() =~= lines);
}

proof fn lemma_joined_concat(a: Seq<Seq<char>>, b: Seq<Seq<char>>)
    ensures
        joined(a + b) == joined(a) + joined(b),
    decreases b.len(),
{
    if b.len() == 0 {
        assert(a + b =~= a);
        assert(joined(a) + joined(b) =~= joined(a));
    } else {
        lemma_joined_concat(a, b.drop_last());
        assert((a + b).drop_last() =~= a + b.drop_last());
        assert(joined(a) + (joined(b.drop_last()) + b.last()) =~= (joined(a) + joined(
            b.drop_last(),
        )) + b.last());
    }
}

/// The two lines in front of a metric.
pub open spec fn header_lines(name: Seq<char>, help: Seq<char>, kind: Seq<char>) -> Seq<
    Seq<char>,
> {
    seq![
        "# HELP "@ + name + " "@ + help + "\n"@,
        "# TYPE "@ + name + " "@ + kind + "\n"@,
    ]
}

/// The lines of a metric of the exchanges: one for each, in their order.
pub open spec fn metric_lines(
    name: Seq<char>,
    exchanges: Seq<ExchangeMetrics>,
    value: spec_fn(ExchangeMetrics) -> u64,
) -> Seq<Seq<char>> {
    exchanges.map_values(|ex: ExchangeMetrics| exchange_line(name, ex.name@, value(ex)))
}

/// The lines of a histogram: one for each bound, in their order, one for infinity, the
/// sum and the count.
pub open spec fn histogram_lines(
    h: PromHistogram,
    name: Seq<char>,
    labels: Seq<char>,
    sum_secs: Seq<char>,
) -> Seq<Seq<char>> {
    Seq::new(
        16,
        |i: int| bucket_line(name, labels, BUCKETS@[i].1@, wrapped(sum(h.buckets@.take(i + 1)))),
    ).push(bucket_line(name, labels, "+Inf"@, h.count)).push(
        value_line(name, "_sum"@, labels, sum_secs),
    ).push(value_line(name, "_count"@, labels, text::number_text(h.count as nat)))
}

proof fn lemma_header_joined(out: Seq<char>, name: Seq<char>, help: Seq<char>, kind: Seq<char>)
    ensures
        header_text(out, name, help, kind) == out + joined(header_lines(name, help, kind)),
{
    reveal(header_text);
    let lines = header_lines(name, help, kind);
    let e = Seq::<Seq<char>>::empty();
    assert(lines =~= e.push(lines[0]).push(lines[1]));
    lemma_joined_push(e, lines[0]);
    lemma_joined_push(e.push(lines[0]), lines[1]);
    assert(header_text(out, name, help, kind) =~= out + joined(lines));
}

proof fn lemma_exchange_lines_joined(
    out: Seq<char>,
    name: Seq<char>,
    exchanges: Seq<ExchangeMetrics>,
    counter: Counter,
    value: spec_fn(ExchangeMetrics) -> u64,
    n: nat,
)
    requires
        n <= exchanges.len(),
        forall|ex: ExchangeMetrics| #[trigger] value(ex) == counter_value(ex, counter),
    ensures
        exchange_lines(out, name, exchanges, counter, n) == out + joined(
            metric_lines(name, exchanges.take(n as int), value),
        ),
    decreases n,
{
    let lines = metric_lines(name, exchanges.take(n as int), value);
    if n > 0 {
        let prev = metric_lines(name, exchanges.take(n - 1), value);
        lemma_exchange_lines_joined(out, name, exchanges, counter, value, (n - 1) as nat);
        assert(lines.drop_last() =~= prev);
        let ex = exchanges[n - 1];
        assert(lines.last() == exchange_line(name, ex.name@, value(ex)));
        assert(exchange_lines(out, name, exchanges, counter, n) =~= out + joined(lines));
    } else {
        assert(lines =~= Seq::empty());
        assert(out + joined(lines) =~= out);
    }
}

proof fn lemma_per_exchange_joined(
    out: Seq<char>,
    name: Seq<char>,
    help: Seq<char>,
    kind: Seq<char>,
    exchanges: Seq<ExchangeMetrics>,
    counter: Counter,
    value: spec_fn(ExchangeMetrics) -> u64,
)
    requires
        forall|ex: ExchangeMetrics| #[trigger] value(ex) == counter_value(ex, counter),
    ensures
        per_exchange_text(out, name, help, kind, exchanges, counter) == out + joined(
            header_lines(name, help, kind) + metric_lines(name, exchanges, value),
        ),
{
    reveal(per_exchange_text);
    let head = header_lines(name, help, kind);
    let lines = metric_lines(name, exchanges, value);
    lemma_header_joined(out, name, help, kind);
    lemma_exchange_lines_joined(
        header_text(out, name, help, kind),
        name,
        exchanges,
        counter,
        value,
        exchanges.len(),
    );
    assert(exchanges.take(exchanges.len() as int) =~= exchanges);
    lemma_joined_concat(head, lines);
    assert((out + joined(head)) + joined(lines) =~= out + (joined(head) + joined(lines)));
}

proof fn lemma_bucket_lines_joined(
    out: Seq<char>,
    buckets: Seq<u64>,
    name: Seq<char>,
    labels: Seq<char>,
    n: nat,
)
    requires
        n <= 16,
    ensures
        bucket_lines(out, buckets, name, labels, n) == out + joined(
            Seq::new(
                n,
                |i: int|
                    bucket_line(name, labels, BUCKETS@[i].1@, wrapped(sum(buckets.take(i + 1)))),
            ),
        ),
    decreases n,
{
    let line = |i: int|
        bucket_line(name, labels, BUCKETS@[i].1@, wrapped(sum(buckets.take(i + 1))));
    let lines = Seq::new(n, line);
    if n > 0 {
        let prev = Seq::new((n - 1) as nat, line);
        lemma_bucket_lines_joined(out, buckets, name, labels, (n - 1) as nat);
        assert(lines.drop_last() =~= prev);
        assert(bucket_lines(out, buckets, name, labels, n) =~= out + joined(lines));
    } else {
        assert(out + joined(lines) =~= out);
    }
}

proof fn lemma_histogram_joined(
    out: Seq<char>,
    h: PromHistogram,
    name: Seq<char>,
    labels: Seq<char>,
    sum_secs: Seq<char>,
)
    ensures
        histogram_text(out, h, name, labels, sum_secs) == out + joined(
            histogram_lines(h, name, labels, sum_secs),
        ),
{
    reveal(histogram_text);
    let a = Seq::new(
        16,
        |i: int| bucket_line(name, labels, BUCKETS@[i].1@, wrapped(sum(h.buckets@.take(i + 1)))),
    );
    let x = bucket_line(name, labels, "+Inf"@, h.count);
    let y = value_line(name, "_sum"@, labels, sum_secs);
    let z = value_line(name, "_count"@, labels, text::number_text(h.count as nat));
    lemma_bucket_lines_joined(out, h.buckets@, name, labels, 16);
    lemma_joined_push(a, x);
    lemma_joined_push(a.push(x), y);
    lemma_joined_push(a.push(x).push(y), z);
    let t = out + joined(a);
    lemma_bucket_front(t, name, labels, "+Inf"@, h.count);
    lemma_value_front(t + x, name, "_sum"@, labels, sum_secs);
    lemma_value_front(t + x + y, name, "_count"@, labels, text::number_text(h.count as nat));
    lemma_behind(out, joined(a), x, y, z);
}

proof fn lemma_behind(
    out: Seq<char>,
    a: Seq<char>,
    x: Seq<char>,
    y: Seq<char>,
    z: Seq<char>,
)
    ensures
        out + a + x + y + z == out + (a + x + y + z),
{
    assert(out + a + x + y + z =~= out + (a + x + y + z));
}

/// Rendering a histogram appends its lines, in their order, and nothing else.
pub proof fn law_render_is_lines(
    h: &PromHistogram,
    name: &str,
    labels: &str,
    sum_secs: &str,
    out: &mut String,
)
    requires
        call_ensures(PromHistogram::render, (h, name, labels, sum_secs, out), ()),
    ensures
        final(out)@ == old(out)@ + joined(histogram_lines(*h, name@, labels@, sum_secs@)),
{
    lemma_histogram_joined(old(out)@, *h, name@, labels@, sum_secs@);
}

/// The lines of the counters and gauges.
pub open spec fn counter_lines(m: Metrics, uptime: u64) -> Seq<Seq<char>> {
    let ex = m.exchanges@;
    header_lines("orderbook_messages_total"@, "WebSocket messages received"@, "counter"@)
        + metric_lines("orderbook_messages_total"@, ex, |x: ExchangeMetrics| x.messages)
        + header_lines("orderbook_errors_total"@, "Parse/connection errors"@, "counter"@)
        + metric_lines("orderbook_errors_total"@, ex, |x: ExchangeMetrics| x.errors)
        + header_lines(
        "orderbook_reconnections_total"@,
        "WebSocket reconnection attempts"@,
        "counter"@,
    ) + metric_lines("orderbook_reconnections_total"@, ex, |x: ExchangeMetrics| x.reconnections)
        + header_lines(
        "orderbook_ring_drops_total"@,
        "Snapshots dropped due to full SPSC ring buffer"@,
        "counter"@,
    ) + metric_lines("orderbook_ring_drops_total"@, ex, |x: ExchangeMetrics| x.ring_drops)
        + header_lines("orderbook_merges_total"@, "Order book merge operations"@, "counter"@)
        + seq![plain_line("orderbook_merges_total"@, m.merges)] + header_lines(
        "orderbook_exchange_up"@,
        "Exchange connection status (1=connected)"@,
        "gauge"@,
    ) + metric_lines(
        "orderbook_exchange_up"@,
        ex,
        |x: ExchangeMetrics|
            if x.connected {
                1u64
            } else {
                0u64
            },
    ) + header_lines("orderbook_uptime_seconds"@, "Seconds since process start"@, "gauge"@)
        + seq![plain_line("orderbook_uptime_seconds"@, uptime)]
}

proof fn lemma_plain_joined(out: Seq<char>, name: Seq<char>, value: u64)
    ensures
        plain_text(out, name, value) == out + joined(seq![plain_line(name, value)]),
{
    reveal(plain_text);
    let line = plain_line(name, value);
    lemma_joined_push(Seq::empty(), line);
    assert(seq![line] =~= Seq::empty().push(line));
    assert(plain_text(out, name, value) =~= out + joined(seq![line]));
}

/// What stands behind the lines so far stands behind them as lines.
proof fn lemma_joined_more(t: Seq<char>, so_far: Seq<Seq<char>>, more: Seq<Seq<char>>)
    requires
        t == joined(so_far) + joined(more),
    ensures
        t == joined(so_far + more),
{
    lemma_joined_concat(so_far, more);
}

proof fn lemma_counters_joined(m: Metrics, now: u64)
    ensures
        counters_text(m, now) == joined(counter_lines(m, uptime_secs(m.start_time, now))),
{
    reveal(counters_text);
    let ex = m.exchanges@;
    let e = Seq::<char>::empty();
    let l1 = header_lines(
        "orderbook_messages_total"@,
        "WebSocket messages received"@,
        "counter"@,
    ) + metric_lines("orderbook_messages_total"@, ex, |x: ExchangeMetrics| x.messages);
    let l2 = header_lines("orderbook_errors_total"@, "Parse/connection errors"@, "counter"@)
        + metric_lines("orderbook_errors_total"@, ex, |x: ExchangeMetrics| x.errors);
    let l3 = header_lines(
        "orderbook_reconnections_total"@,
        "WebSocket reconnection attempts"@,
        "counter"@,
    ) + metric_lines("orderbook_reconnections_total"@, ex, |x: ExchangeMetrics| x.reconnections);
    let l4 = header_lines(
        "orderbook_ring_drops_total"@,
        "Snapshots dropped due to full SPSC ring buffer"@,
        "counter"@,
    ) + metric_lines("orderbook_ring_drops_total"@, ex, |x: ExchangeMetrics| x.ring_drops);
    let l5 = header_lines("orderbook_merges_total"@, "Order book merge operations"@, "counter"@);
    let l6 = seq![plain_line("orderbook_merges_total"@, m.merges)];
    let up = |x: ExchangeMetrics|
        if x.connected {
            1u64
        } else {
            0u64
        };
    let l7 = header_lines(
        "orderbook_exchange_up"@,
        "Exchange connection status (1=connected)"@,
        "gauge"@,
    ) + metric_lines("orderbook_exchange_up"@, ex, up);
    let l8 = header_lines("orderbook_uptime_seconds"@, "Seconds since process start"@, "gauge"@);
    let uptime = uptime_secs(m.start_time, now);
    let l9 = seq![plain_line("orderbook_uptime_seconds"@, uptime)];
    lemma_per_exchange_joined(
        e,
        "orderbook_messages_total"@,
        "WebSocket messages received"@,
        "counter"@,
        ex,
        Counter::Messages,
        |x: ExchangeMetrics| x.messages,
    );
    let t1 = joined(l1);
    assert(e + t1 =~= t1);
    lemma_per_exchange_joined(
        t1,
        "orderbook_errors_total"@,
        "Parse/connection errors"@,
        "counter"@,
        ex,
        Counter::Errors,
        |x: ExchangeMetrics| x.errors,
    );
    lemma_joined_more(t1 + joined(l2), l1, l2);
    let a2 = l1 + l2;
    lemma_per_exchange_joined(
        joined(a2),
        "orderbook_reconnections_total"@,
        "WebSocket reconnection attempts"@,
        "counter"@,
        ex,
        Counter::Reconnections,
        |x: ExchangeMetrics| x.reconnections,
    );
    lemma_joined_more(joined(a2) + joined(l3), a2, l3);
    let a3 = a2 + l3;
    lemma_per_exchange_joined(
        joined(a3),
        "orderbook_ring_drops_total"@,
        "Snapshots dropped due to full SPSC ring buffer"@,
        "counter"@,
        ex,
        Counter::RingDrops,
        |x: ExchangeMetrics| x.ring_drops,
    );
    lemma_joined_more(joined(a3) + joined(l4), a3, l4);
    let a4 = a3 + l4;
    lemma_header_joined(
        joined(a4),
        "orderbook_merges_total"@,
        "Order book merge operations"@,
        "counter"@,
    );
    lemma_joined_more(joined(a4) + joined(l5), a4, l5);
    let a5 = a4 + l5;
    lemma_plain_joined(joined(a5), "orderbook_merges_total"@, m.merges);
    lemma_joined_more(joined(a5) + joined(l6), a5, l6);
    let a6 = a5 + l6;
    lemma_per_exchange_joined(
        joined(a6),
        "orderbook_exchange_up"@,
        "Exchange connection status (1=connected)"@,
        "gauge"@,
        ex,
        Counter::Up,
        up,
    );
    lemma_joined_more(joined(a6) + joined(l7), a6, l7);
    let a7 = a6 + l7;
    lemma_header_joined(
        joined(a7),
        "orderbook_uptime_seconds"@,
        "Seconds since process start"@,
        "gauge"@,
    );
    lemma_joined_more(joined(a7) + joined(l8), a7, l8);
    let a8 = a7 + l8;
    lemma_plain_joined(joined(a8), "orderbook_uptime_seconds"@, uptime);
    lemma_joined_more(joined(a8) + joined(l9), a8, l9);
    assert(a8 + l9 =~= counter_lines(m, uptime));
}

/// The lines of the decode latencies of the first `n` exchanges.
pub open spec fn decode_lines(
    exchanges: Seq<ExchangeMetrics>,
    sums: Seq<String>,
    n: nat,
) -> Seq<Seq<char>>
    decreases n,
{
    if n == 0 {
        Seq::empty()
    } else {
        decode_lines(exchanges, sums, (n - 1) as nat) + histogram_lines(
            exchanges[n - 1].decode_latency,
            "orderbook_decode_duration_seconds"@,
            "exchange=\""@ + exchanges[n - 1].name@ + "\""@,
            sums[n - 1]@,
        )
    }
}

proof fn lemma_decode_joined(
    out: Seq<char>,
    exchanges: Seq<ExchangeMetrics>,
    sums: Seq<String>,
    n: nat,
)
    ensures
        decode_text(out, exchanges, sums, n) == out + joined(decode_lines(exchanges, sums, n)),
    decreases n,
{
    if n > 0 {
        let prev = decode_lines(exchanges, sums, (n - 1) as nat);
        let ex = exchanges[n - 1];
        let labels = "exchange=\""@ + ex.name@ + "\""@;
        let lines = histogram_lines(
            ex.decode_latency,
            "orderbook_decode_duration_seconds"@,
            labels,
            sums[n - 1]@,
        );
        lemma_decode_joined(out, exchanges, sums, (n - 1) as nat);
        lemma_histogram_joined(
            decode_text(out, exchanges, sums, (n - 1) as nat),
            ex.decode_latency,
            "orderbook_decode_duration_seconds"@,
            labels,
            sums[n - 1]@,
        );
        lemma_joined_concat(prev, lines);
        assert((out + joined(prev)) + joined(lines) =~= out + (joined(prev) + joined(lines)));
    } else {
        assert(out + joined(decode_lines(exchanges, sums, n)) =~= out);
    }
}

/// The Prometheus text consists of the lines of the counters and gauges, of the decode
/// latencies of every exchange, and of the merge and end-to-end latencies, in this
/// order, and of nothing else.
pub proof fn law_prometheus_is_lines(
    m: &Metrics,
    now: u64,
    sums: &SumTexts,
    r: String,
    uptime: u64,
)
    requires
        sums.decode@.len() == m.exchanges@.len(),
        call_ensures(Metrics::to_prometheus, (m, now, sums), r),
        m.start_time <= now,
        uptime * 1_000_000_000 <= now - m.start_time < uptime * 1_000_000_000 + 1_000_000_000,
    ensures
        r@ == joined(
            counter_lines(*m, uptime) + header_lines(
                "orderbook_decode_duration_seconds"@,
                "WebSocket message decode latency"@,
                "histogram"@,
            ) + decode_lines(m.exchanges@, sums.decode@, m.exchanges@.len()) + header_lines(
                "orderbook_merge_duration_seconds"@,
                "Order book merge latency"@,
                "histogram"@,
            ) + histogram_lines(
                m.merge_latency,
                "orderbook_merge_duration_seconds"@,
                ""@,
                sums.merge@,
            ) + header_lines(
                "orderbook_e2e_duration_seconds"@,
                "End-to-end latency: WS receive to merged summary published"@,
                "histogram"@,
            ) + histogram_lines(
                m.e2e_latency,
                "orderbook_e2e_duration_seconds"@,
                ""@,
                sums.e2e@,
            ),
        ),
{
    assert(uptime == uptime_secs(m.start_time, now)) by {
        let n = now - m.start_time;
        assert(n / 1_000_000_000 == uptime);
    }
    let ex = m.exchanges@;
    let a = counter_lines(*m, uptime);
    let l1 = header_lines(
        "orderbook_decode_duration_seconds"@,
        "WebSocket message decode latency"@,
        "histogram"@,
    );
    let l2 = decode_lines(ex, sums.decode@, ex.len());
    let l3 = header_lines(
        "orderbook_merge_duration_seconds"@,
        "Order book merge latency"@,
        "histogram"@,
    );
    let l4 = histogram_lines(
        m.merge_latency,
        "orderbook_merge_duration_seconds"@,
        ""@,
        sums.merge@,
    );
    let l5 = header_lines(
        "orderbook_e2e_duration_seconds"@,
        "End-to-end latency: WS receive to merged summary published"@,
        "histogram"@,
    );
    let l6 = histogram_lines(
        m.e2e_latency,
        "orderbook_e2e_duration_seconds"@,
        ""@,
        sums.e2e@,
    );
    lemma_counters_joined(*m, now);
    lemma_header_joined(
        joined(a),
        "orderbook_decode_duration_seconds"@,
        "WebSocket message decode latency"@,
        "histogram"@,
    );
    lemma_joined_more(joined(a) + joined(l1), a, l1);
    let a1 = a + l1;
    lemma_decode_joined(joined(a1), ex, sums.decode@, ex.len());
    lemma_joined_more(joined(a1) + joined(l2), a1, l2);
    let a2 = a1 + l2;
    lemma_header_joined(
        joined(a2),
        "orderbook_merge_duration_seconds"@,
        "Order book merge latency"@,
        "histogram"@,
    );
    lemma_joined_more(joined(a2) + joined(l3), a2, l3);
    let a3 = a2 + l3;
    lemma_histogram_joined(
        joined(a3),
        m.merge_latency,
        "orderbook_merge_duration_seconds"@,
        ""@,
        sums.merge@,
    );
    lemma_joined_more(joined(a3) + joined(l4), a3, l4);
    let a4 = a3 + l4;
    lemma_header_joined(
        joined(a4),
        "orderbook_e2e_duration_seconds"@,
        "End-to-end latency: WS receive to merged summary published"@,
        "histogram"@,
    );
    lemma_joined_more(joined(a4) + joined(l5), a4, l5);
    let a5 = a4 + l5;
    lemma_histogram_joined(
        joined(a5),
        m.e2e_latency,
        "orderbook_e2e_duration_seconds"@,
        ""@,
        sums.e2e@,
    );
    lemma_joined_more(joined(a5) + joined(l6), a5, l6);
}

} // verus!
