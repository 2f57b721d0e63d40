# Order book aggregator

Takes the order books of Binance and Bitstamp as they arrive over WebSocket,
merges them, and streams the top ten bid and ask levels with the spread over
gRPC.

The library under `src/` holds everything that decides and computes. It is
verified with Verus: each function states in its contract what it returns and
changes, and the laws that hold across functions are public proof functions. It
opens no connection and reads no clock; times are nanoseconds on the process's
monotonic clock, handed in by the caller.

## Layout

```
src/
  lib.rs               exchanges and their names
  types.rs             FixedPoint, RawLevel, Level, OrderBook, Summary
  decimal.rs           the value of decimal text
  text.rs              numbers as text
  ascii.rs             bytes that the parsers look for
  capped.rs            what is known of arrayvec::ArrayVec
  search.rs            what is known of memchr::memmem::Finder
  grammar.rs           what the parts of a message say
  json_walker.rs       the scanner that reads them
  wire_laws.rs         what the readers make of messages as they are sent
  exchange/mod.rs      adapters in common, delivery of books
  exchange/binance.rs  Binance depth20 messages
  exchange/bitstamp.rs Bitstamp order_book messages
  exchange/session.rs  the reconnection loop as a state machine
  atomic_slot.rs       triple-buffered slot where the latest value wins
  slot_protocol.rs     a model of its protocol in single steps, with its laws
  merger.rs            latest book per exchange, k-way merge, eviction
  merge_laws.rs        what holds of every merge
  metrics.rs           counters, histograms, Prometheus text, health
  config.rs            settings and symbol validation
  display.rs           what the terminal client shows
tests/                 tests of the library
app/                   server and client: sockets, threads, clock, terminal
```

Prices are fixed-point with eight fractional digits. Floating point appears only
in `app/`, where values go on the wire or on the screen.
