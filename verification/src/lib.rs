//! Order book aggregator.
//!
//! Takes the order books that Binance and Bitstamp send over WebSocket, merges
//! them, and keeps the top ten bid and ask levels with the spread. The library
//! holds what decides and computes; it opens no connection and reads no clock.

use vstd::prelude::*;

pub mod ascii;
pub mod atomic_slot;
pub mod capped;
pub mod config;
pub mod decimal;
pub mod display;
pub mod exchange;
pub mod grammar;
pub mod json_walker;
pub mod merge_laws;
pub mod merger;
pub mod metrics;
pub mod search;
pub mod slot_protocol;
pub mod text;
pub mod types;
pub mod wire_laws;

use types::ExchangeId;

verus! {

/// Supported exchanges. An exchange's id is its index here.
pub const EXCHANGES: [&'static str; 2] = ["binance", "bitstamp"];

/// How many exchanges are supported.
pub const MAX_EXCHANGES: usize = 2;

/// The id of Binance.
pub const BINANCE_ID: ExchangeId = 0;

/// The id of Bitstamp.
pub const BITSTAMP_ID: ExchangeId = 1;

/// The name of the exchange with the given id.
pub open spec fn name_of(id: ExchangeId) -> Seq<char> {
    if id == BINANCE_ID {
        "binance"@
    } else {
        "bitstamp"@
    }
}

/// Resolve an [`ExchangeId`] to its name.
#[must_use]
pub fn exchange_name(id: ExchangeId) -> (r: &'static str)
    requires
        id < MAX_EXCHANGES,
    ensures
        r@ == name_of(id),
{
    EXCHANGES[id as usize]
}

/// The exchange with id zero is Binance, the one with id one is Bitstamp, and their
/// names differ.
pub proof fn law_exchange_names(id: ExchangeId, r: &'static str)
    requires
        id < 2,
        call_ensures(exchange_name, (id,), r),
    ensures
        id == 0 <==> r@ == "binance"@,
        id == 1 <==> r@ == "bitstamp"@,
{
    reveal_strlit("binance");
    reveal_strlit("bitstamp");
    assert("binance"@.len() != "bitstamp"@.len());
}

} // verus!
