//! Binance partial book depth adapter.

use memchr::memmem;
use vstd::prelude::*;
use vstd::string::*;

use crate::exchange;
use crate::exchange::{build_book, Frame, HandleResult, Processed, WsHandler};
use crate::grammar;
use crate::json_walker;
use crate::json_walker::{read_levels, Levels, Scanner, MAX_LEVELS};
use crate::metrics::ExchangeMetrics;
use crate::search;
use crate::types::{ExchangeId, OrderBook};
use crate::BINANCE_ID;

verus! {

/// The keys of a depth message, ready to be searched for.
struct BinancePatterns {
    last_update_id: memmem::Finder<'static>,
    bids: memmem::Finder<'static>,
    asks: memmem::Finder<'static>,
}

/// The key of the sequence number.
pub open spec fn last_update_id_key() -> Seq<u8> {
    "\"lastUpdateId\":".spec_bytes()
}

/// The key of the bids.
pub open spec fn bids_key() -> Seq<u8> {
    "\"bids\":".spec_bytes()
}

/// The key of the asks.
pub open spec fn asks_key() -> Seq<u8> {
    "\"asks\":".spec_bytes()
}

fn patterns() -> (r: BinancePatterns)
    ensures
        search::needle_of(&r.last_update_id) == last_update_id_key(),
        search::needle_of(&r.bids) == bids_key(),
        search::needle_of(&r.asks) == asks_key(),
{
    BinancePatterns {
        last_update_id: search::finder_for("\"lastUpdateId\":".as_bytes()),
        bids: search::finder_for("\"bids\":".as_bytes()),
        asks: search::finder_for("\"asks\":".as_bytes()),
    }
}

/// The texts of the levels behind the first `key` at or after `p`, and the
/// position behind them.
pub open spec fn levels_behind(b: Seq<u8>, key: Seq<u8>, p: int) -> (
    Option<Seq<grammar::TextPair>>,
    int,
) {
    match search::find_from(b, key, p) {
        Some(at) => grammar::text_levels_at(b, at + key.len(), MAX_LEVELS as nat),
        None => (None, p),
    }
}

/// What a depth message holds: the sequence number, zero where it is missing,
/// then the bids and behind them the asks, as texts.
pub open spec fn walk_of(b: Seq<u8>) -> Option<
    (u64, Seq<grammar::TextPair>, Seq<grammar::TextPair>),
> {
    let (seq, start) = match search::find_from(b, last_update_id_key(), 0) {
        Some(at) => grammar::number_at(b, at + last_update_id_key().len()),
        None => (0, 0),
    };
    let (bids, behind_bids) = levels_behind(b, bids_key(), start);
    let asks = levels_behind(b, asks_key(), behind_bids).0;
    if bids is Some && asks is Some {
        Some((seq as u64, bids->0, asks->0))
    } else {
        None
    }
}

/// Single forward pass: `lastUpdateId`, then bids, then asks.
pub fn walk(json: &str) -> (r: Option<(u64, Levels<'_>, Levels<'_>)>)
    ensures
        match walk_of(json.spec_bytes()) {
            Some((seq, bids, asks)) => {
                &&& r is Some
                &&& (r->0).0 == seq
                &&& json_walker::level_texts(&(r->0).1) == bids
                &&& json_walker::level_texts(&(r->0).2) == asks
            },
            None => r is None,
        },
{
    let p = patterns();
    let mut s = Scanner::new(json);
    let seq: u64 = if s.seek(&p.last_update_id).is_some() {
        s.read_u64()
    } else {
        0
    };
    if s.seek(&p.bids).is_none() {
        return None;
    }
    let bids: Levels<'_> = match read_levels(&mut s) {
        Some(v) => v,
        None => {
            return None;
        },
    };
    if s.seek(&p.asks).is_none() {
        return None;
    }
    let asks: Levels<'_> = match read_levels(&mut s) {
        Some(v) => v,
        None => {
            return None;
        },
    };
    Some((seq, bids, asks))
}

/// Binance partial book depth adapter (`depth20@100ms` stream).
pub struct BinanceHandler {
    /// `lastUpdateId` of the last snapshot.
    pub last_seq: u64,
}

impl Default for BinanceHandler {
    fn default() -> (r: Self)
        ensures
            r.last_seq == 0,
    {
        BinanceHandler { last_seq: 0 }
    }
}

impl BinanceHandler {
    #[must_use]
    pub fn new() -> (r: Self)
        ensures
            r.last_seq == 0,
    {
        BinanceHandler { last_seq: 0 }
    }
}

impl WsHandler for BinanceHandler {
    const NAME: &'static str = "binance";

    open spec fn id() -> ExchangeId {
        BINANCE_ID
    }

    open spec fn url_text(symbol: Seq<char>) -> Seq<char> {
        "wss://stream.binance.com:9443/ws/"@ + symbol + "@depth20@100ms"@
    }

    open spec fn subscription(symbol: Seq<char>) -> Option<Seq<char>> {
        None
    }

    open spec fn frame_of(text: Seq<u8>) -> Frame {
        match walk_of(text) {
            Some((seq, bids, asks)) => Frame::Snapshot {
                seq,
                levels: exchange::sides_of_texts(bids, asks),
            },
            None => Frame::Malformed,
        }
    }

    open spec fn last_seen(&self) -> u64 {
        self.last_seq
    }

    fn ws_url(&self, symbol: &str) -> (r: String) {
        let mut url = String::new();
        url.append("wss://stream.binance.com:9443/ws/");
        url.append(symbol);
        url.append("@depth20@100ms");
        assert(url@ =~= Self::url_text(symbol@));
        url
    }

    fn subscribe_message(&self, symbol: &str) -> (r: Option<String>) {
        None
    }

    fn on_connected(&mut self) {
        self.last_seq = 0;
    }

    fn process_text(
        &mut self,
        text: &str,
        decode_start: u64,
        metrics: &mut ExchangeMetrics,
    ) -> (r: Processed) {
        let (seq, bids, asks) = match walk(text) {
            Some(v) => v,
            None => {
                metrics.errors = metrics.errors.wrapping_add(1);
                return Processed::Done(HandleResult::Continue);
            },
        };
        // Stale or duplicate: lastUpdateId should increase.
        if seq > 0 && self.last_seq > 0 && seq <= self.last_seq {
            metrics.errors = metrics.errors.wrapping_add(1);
            return Processed::Done(HandleResult::Continue);
        }
        self.last_seq = seq;
        match build_book(BINANCE_ID, &bids, &asks, decode_start) {
            Some(book) => Processed::Book(book),
            None => {
                metrics.errors = metrics.errors.wrapping_add(1);
                Processed::Done(HandleResult::Continue)
            },
        }
    }
}

/// Decode a `depth20` message whose decoding started at `decode_start`.
#[must_use]
pub fn parse_depth_json(json: &str, decode_start: u64) -> (r: Option<OrderBook>)
    ensures
        match BinanceHandler::frame_of(json.spec_bytes()) {
            Frame::Snapshot { seq, levels: Some(levels) } => r is Some && exchange::is_book(
                r->0,
                BINANCE_ID,
                levels,
                decode_start,
            ),
            _ => r is None,
        },
{
    match walk(json) {
        Some((_, bids, asks)) => build_book(BINANCE_ID, &bids, &asks, decode_start),
        None => None,
    }
}

/// The adapter goes by the name of its exchange.
pub proof fn law_adapter_name()
    ensures
        BinanceHandler::NAME@ == crate::name_of(BinanceHandler::id()),
{
}

/// The URL of every symbol names that symbol's depth stream: behind the address of
/// the server stands the symbol, and behind it the kind of the stream.
pub proof fn law_url_names_symbol(h: &BinanceHandler, symbol: &str, r: String)
    requires
        call_ensures(<BinanceHandler as WsHandler>::ws_url, (h, symbol), r),
    ensures
        ({
            let server = "wss://stream.binance.com:9443/ws/"@;
            let stream = "@depth20@100ms"@;
            let n = server.len() as int;
            let end = n + symbol@.len();
            &&& n > 0
            &&& r@.len() == end + stream.len()
            &&& r@.take(n) == server
            &&& r@.subrange(n, end) == symbol@
            &&& r@.skip(end) == stream
        }),
{
    let server = "wss://stream.binance.com:9443/ws/"@;
    let stream = "@depth20@100ms"@;
    let n = server.len() as int;
    let end = n + symbol@.len();
    reveal_strlit("wss://stream.binance.com:9443/ws/");
    assert(r@.take(n) =~= server);
    assert(r@.subrange(n, end) =~= symbol@);
    assert(r@.skip(end) =~= stream);
}

/// Different symbols have different URLs, and nothing is sent to subscribe.
pub proof fn law_urls_differ(
    h: &BinanceHandler,
    a: &str,
    b: &str,
    x: String,
    y: String,
    sent: Option<String>,
)
    requires
        call_ensures(<BinanceHandler as WsHandler>::ws_url, (h, a), x),
        call_ensures(<BinanceHandler as WsHandler>::ws_url, (h, b), y),
        call_ensures(<BinanceHandler as WsHandler>::subscribe_message, (h, a), sent),
    ensures
        x@ == y@ <==> a@ == b@,
        sent is None,
{
    law_url_names_symbol(h, a, x);
    law_url_names_symbol(h, b, y);
}

/// A new adapter remembers no number, and neither does one after a connection is
/// made.
pub proof fn law_adapter_starts_anew(made: BinanceHandler, h: &mut BinanceHandler)
    requires
        call_ensures(BinanceHandler::new, (), made),
        call_ensures(<BinanceHandler as WsHandler>::on_connected, (h,), ()),
    ensures
        made.last_seq == 0,
        final(h).last_seq == 0,
{
}

} // verus!
