//! Bitstamp order book adapter.
//!
//! Subscribes to the `order_book` channel of a pair, which sends full snapshots.

use arrayvec::ArrayVec;
use memchr::memmem;
use vstd::prelude::*;
use vstd::string::*;

use crate::capped;
use crate::decimal;
use crate::decimal::parse_unsigned;
use crate::exchange;
use crate::exchange::{Frame, HandleResult, Processed, WsHandler};
use crate::grammar;
use crate::json_walker::{extract_string, Scanner};
use crate::metrics::ExchangeMetrics;
use crate::search;
use crate::text::same_text;
use crate::types::{ExchangeId, OrderBook, RawLevel, DEPTH};
use crate::BITSTAMP_ID;

verus! {

/// The keys of an order book message, ready to be searched for.
struct BitstampPatterns {
    bids: memmem::Finder<'static>,
    asks: memmem::Finder<'static>,
    event: memmem::Finder<'static>,
    microtimestamp: memmem::Finder<'static>,
}

/// The key of the bids.
pub open spec fn bids_key() -> Seq<u8> {
    "\"bids\":".spec_bytes()
}

/// The key of the asks.
pub open spec fn asks_key() -> Seq<u8> {
    "\"asks\":".spec_bytes()
}

/// The key of the event name.
pub open spec fn event_key() -> Seq<u8> {
    "\"event\":".spec_bytes()
}

/// The key of the sequence number.
pub open spec fn microtimestamp_key() -> Seq<u8> {
    "\"microtimestamp\":".spec_bytes()
}

/// The key of an error's description.
pub open spec fn message_key() -> Seq<u8> {
    "\"message\":".spec_bytes()
}

fn patterns() -> (r: BitstampPatterns)
    ensures
        search::needle_of(&r.bids) == bids_key(),
        search::needle_of(&r.asks) == asks_key(),
        search::needle_of(&r.event) == event_key(),
        search::needle_of(&r.microtimestamp) == microtimestamp_key(),
{
    BitstampPatterns {
        bids: search::finder_for("\"bids\":".as_bytes()),
        asks: search::finder_for("\"asks\":".as_bytes()),
        event: search::finder_for("\"event\":".as_bytes()),
        microtimestamp: search::finder_for("\"microtimestamp\":".as_bytes()),
    }
}

/// What an order book message holds.
pub ghost struct Message {
    /// The event's name.
    pub event: Seq<u8>,
    /// The timestamp in microseconds, which serves as sequence number; zero
    /// where there is none.
    pub micro: u64,
    pub bids: Seq<RawLevel>,
    pub asks: Seq<RawLevel>,
}

/// The timestamp behind its key at `at`, zero where it is no number, and the
/// position behind it.
pub open spec fn micro_at(b: Seq<u8>, at: int) -> (u64, int) {
    let (value, behind) = grammar::string_at(b, at + microtimestamp_key().len());
    let micro = match value {
        Some(digits) => match decimal::unsigned_of(digits) {
            Some(micro) => micro,
            None => 0,
        },
        None => 0,
    };
    (micro, behind)
}

/// The name of the event that a message reports, wherever in it that stands.
pub open spec fn event_of(b: Seq<u8>) -> Option<Seq<u8>> {
    match search::find_from(b, event_key(), 0) {
        Some(at) => grammar::string_at(b, at + event_key().len()).0,
        None => None,
    }
}

/// What a message holds: the timestamp, then the bids and behind them the asks,
/// of which either may be missing. A message with a timestamp is a data event;
/// of others the event is looked up.
pub open spec fn walk_of(b: Seq<u8>) -> Option<Message> {
    let stamp = search::find_from(b, microtimestamp_key(), 0);
    let (micro, start) = match stamp {
        Some(at) => micro_at(b, at),
        None => (0, 0),
    };
    let (bids, behind_bids) = grammar::optional_raw_levels_at(
        b,
        bids_key(),
        start,
        DEPTH as nat,
    );
    let asks = grammar::optional_raw_levels_at(
        b,
        asks_key(),
        behind_bids,
        DEPTH as nat,
    ).0;
    let event = if stamp is Some {
        Some("data".spec_bytes())
    } else {
        event_of(b)
    };
    if bids is Some && asks is Some && event is Some {
        Some(Message { event: event->0, micro, bids: bids->0, asks: asks->0 })
    } else {
        None
    }
}

/// Single forward pass: timestamp, then bids, then asks. Levels with a zero
/// amount are left out. Only a message without a timestamp is searched again, for
/// its event.
pub fn walk(json: &str) -> (r: Option<
    (&str, u64, ArrayVec<RawLevel, DEPTH>, ArrayVec<RawLevel, DEPTH>),
>)
    ensures
        match walk_of(json.spec_bytes()) {
            Some(message) => {
                &&& r is Some
                &&& (r->0).0.spec_bytes() == message.event
                &&& (r->0).1 == message.micro
                &&& capped::contents(&(r->0).2) == message.bids
                &&& capped::contents(&(r->0).3) == message.asks
            },
            None => r is None,
        },
{
    let p = patterns();
    let mut s = Scanner::new(json);
    let has_data: bool = s.seek(&p.microtimestamp).is_some();
    let micro: u64 = if has_data {
        match s.read_string() {
            Some(digits) => match parse_unsigned(digits) {
                Some(v) => v,
                None => 0,
            },
            None => 0,
        }
    } else {
        0
    };
    let bids: ArrayVec<RawLevel, DEPTH> = match s.read_optional_raw_levels(&p.bids) {
        Some(v) => v,
        None => {
            return None;
        },
    };
    let asks: ArrayVec<RawLevel, DEPTH> = match s.read_optional_raw_levels(&p.asks) {
        Some(v) => v,
        None => {
            return None;
        },
    };
    if has_data {
        return Some(("data", micro, bids, asks));
    }
    s.pos = 0;
    if s.seek(&p.event).is_none() {
        return None;
    }
    match s.read_string() {
        Some(event) => Some((event, micro, bids, asks)),
        None => None,
    }
}

/// Bitstamp `order_book` channel adapter.
pub struct BitstampHandler {
    /// `microtimestamp` of the last snapshot.
    pub last_micro: u64,
}

impl Default for BitstampHandler {
    fn default() -> (r: Self)
        ensures
            r.last_micro == 0,
    {
        BitstampHandler { last_micro: 0 }
    }
}

impl BitstampHandler {
    #[must_use]
    pub fn new() -> (r: Self)
        ensures
            r.last_micro == 0,
    {
        BitstampHandler { last_micro: 0 }
    }
}

impl WsHandler for BitstampHandler {
    const NAME: &'static str = "bitstamp";

    open spec fn id() -> ExchangeId {
        BITSTAMP_ID
    }

    open spec fn url_text(symbol: Seq<char>) -> Seq<char> {
        "wss://ws.bitstamp.net"@
    }

    open spec fn subscription(symbol: Seq<char>) -> Option<Seq<char>> {
        Some(
            "{\"event\":\"bts:subscribe\",\"data\":{\"channel\":\"order_book_"@ + symbol
                + "\"}}"@,
        )
    }

    open spec fn frame_of(text: Seq<u8>) -> Frame {
        match walk_of(text) {
            Some(message) => if message.event == "data".spec_bytes() {
                Frame::Snapshot { seq: message.micro, levels: Some((message.bids, message.asks)) }
            } else if message.event == "bts:error".spec_bytes() {
                Frame::ServerError
            } else {
                Frame::Notice
            },
            None => Frame::Malformed,
        }
    }

    open spec fn last_seen(&self) -> u64 {
        self.last_micro
    }

    fn ws_url(&self, symbol: &str) -> (r: String) {
        "wss://ws.bitstamp.net".to_owned()
    }

    fn subscribe_message(&self, symbol: &str) -> (r: Option<String>) {
        let mut message = String::new();
        message.append("{\"event\":\"bts:subscribe\",\"data\":{\"channel\":\"order_book_");
        message.append(symbol);
        message.append("\"}}");
        assert(message@ =~= Self::subscription(symbol@)->0);
        Some(message)
    }

    fn on_connected(&mut self) {
        self.last_micro = 0;
    }

    fn process_text(
        &mut self,
        text: &str,
        decode_start: u64,
        metrics: &mut ExchangeMetrics,
    ) -> (r: Processed) {
        let (event, micro, bids, asks) = match walk(text) {
            Some(v) => v,
            None => {
                metrics.errors = metrics.errors.wrapping_add(1);
                return Processed::Done(HandleResult::Continue);
            },
        };
        if same_text(event, "data") {
            // Stale or duplicate: microtimestamp should increase.
            if micro > 0 && self.last_micro > 0 && micro <= self.last_micro {
                metrics.errors = metrics.errors.wrapping_add(1);
                return Processed::Done(HandleResult::Continue);
            }
            self.last_micro = micro;
            return Processed::Book(
                OrderBook { exchange_id: BITSTAMP_ID, bids, asks, decode_start },
            );
        }
        if same_text(event, "bts:error") {
            metrics.errors = metrics.errors.wrapping_add(1);
            return Processed::Done(HandleResult::Reconnect);
        }
        Processed::Done(HandleResult::Continue)
    }
}

/// The description in an error of the server, `unknown` where it has none.
pub fn server_message(text: &str) -> (r: &str)
    ensures
        ({
            let found = match search::find_from(text.spec_bytes(), message_key(), 0) {
                Some(at) => grammar::string_at(
                    text.spec_bytes(),
                    at + message_key().len(),
                ).0,
                None => None,
            };
            match found {
                Some(content) => r.spec_bytes() == content,
                None => r@ == "unknown"@,
            }
        }),
{
    match extract_string(text, "\"message\":".as_bytes()) {
        Some(message) => message,
        None => "unknown",
    }
}

/// Decode an `order_book` message whose decoding started at `decode_start`.
/// Returns `None` for events that carry no data.
#[must_use]
pub fn parse_order_book_json(json: &str, decode_start: u64) -> (r: Option<OrderBook>)
    ensures
        match BitstampHandler::frame_of(json.spec_bytes()) {
            Frame::Snapshot { seq, levels: Some(levels) } => r is Some && exchange::is_book(
                r->0,
                BITSTAMP_ID,
                levels,
                decode_start,
            ),
            _ => r is None,
        },
{
    match walk(json) {
        Some((event, _, bids, asks)) => {
            if same_text(event, "data") {
                Some(OrderBook { exchange_id: BITSTAMP_ID, bids, asks, decode_start })
            } else {
                None
            }
        },
        None => None,
    }
}

/// The adapter goes by the name of its exchange.
pub proof fn law_adapter_name()
    ensures
        BitstampHandler::NAME@ == crate::name_of(BitstampHandler::id()),
{
}

/// The subscription of every symbol names that symbol's channel: the message is a
/// subscription in which `order_book_`, the symbol and a closing quote stand.
pub proof fn law_subscription_names_symbol(
    h: &BitstampHandler,
    symbol: &str,
    r: Option<String>,
)
    requires
        call_ensures(<BitstampHandler as WsHandler>::subscribe_message, (h, symbol), r),
    ensures
        r is Some,
        ({
            let message = r->0@;
            let head = "{\"event\":\"bts:subscribe\",\"data\":{\"channel\":\""@;
            let channel = "order_book_"@ + symbol@ + "\""@;
            let n = head.len() as int;
            let end = n + channel.len();
            &&& n > 0
            &&& message.len() == end + 2
            &&& message.take(n) == head
            &&& message.subrange(n, end) == channel
            &&& message.skip(end) == "}}"@
        }),
{
    reveal_strlit("{\"event\":\"bts:subscribe\",\"data\":{\"channel\":\"order_book_");
    reveal_strlit("{\"event\":\"bts:subscribe\",\"data\":{\"channel\":\"");
    reveal_strlit("order_book_");
    reveal_strlit("\"}}");
    reveal_strlit("\"");
    reveal_strlit("}}");
    let message = r->0@;
    let head = "{\"event\":\"bts:subscribe\",\"data\":{\"channel\":\""@;
    let channel = "order_book_"@ + symbol@ + "\""@;
    let n = head.len() as int;
    let end = n + channel.len();
    assert(message.take(n) =~= head);
    assert(message.subrange(n, end) =~= channel);
    assert(message.skip(end) =~= "}}"@);
}

/// Different symbols have different subscriptions, over one and the same URL.
pub proof fn law_subscriptions_differ(
    h: &BitstampHandler,
    a: &str,
    b: &str,
    x: Option<String>,
    y: Option<String>,
    url: String,
)
    requires
        call_ensures(<BitstampHandler as WsHandler>::subscribe_message, (h, a), x),
        call_ensures(<BitstampHandler as WsHandler>::subscribe_message, (h, b), y),
        call_ensures(<BitstampHandler as WsHandler>::ws_url, (h, a), url),
    ensures
        x is Some && y is Some,
        x->0@ == y->0@ <==> a@ == b@,
        url@ == "wss://ws.bitstamp.net"@,
{
    law_subscription_names_symbol(h, a, x);
    law_subscription_names_symbol(h, b, y);
    reveal_strlit("order_book_");
    reveal_strlit("\"");
    if x->0@ == y->0@ {
        let head = "{\"event\":\"bts:subscribe\",\"data\":{\"channel\":\""@;
        let n = head.len() as int;
        let p = "order_book_"@ + a@ + "\""@;
        let q = "order_book_"@ + b@ + "\""@;
        assert(p == q);
        let k = "order_book_"@.len() as int;
        assert(p.subrange(k, k + a@.len()) =~= a@);
        assert(q.subrange(k, k + b@.len()) =~= b@);
    }
}

/// A new adapter remembers no number, and neither does one after a connection is
/// made.
pub proof fn law_adapter_starts_anew(made: BitstampHandler, h: &mut BitstampHandler)
    requires
        call_ensures(BitstampHandler::new, (), made),
        call_ensures(<BitstampHandler as WsHandler>::on_connected, (h,), ()),
    ensures
        made.last_micro == 0,
        final(h).last_micro == 0,
{
}

} // verus!
