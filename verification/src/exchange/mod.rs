//! Exchange adapters.
//!
//! An adapter says where to connect and what to subscribe to, and turns every
//! text frame into an [`OrderBook`] or into a decision. Both exchanges send full
//! snapshots, so there is no local order book to maintain. A snapshot goes into
//! the exchange's slot, where it replaces one that was not read yet.

use vstd::prelude::*;
use vstd::string::*;

use arrayvec::ArrayVec;

use crate::atomic_slot;
use crate::atomic_slot::{Shared, SlotReceiver, SlotSender};
use crate::capped;
use crate::grammar;
use crate::json_walker;
use crate::json_walker::Levels;
use crate::metrics;
use crate::metrics::{elapsed_nanos, ExchangeMetrics};
use crate::types::{ExchangeId, FixedPoint, OrderBook, RawLevel, DEPTH};

pub mod binance;
pub mod bitstamp;
pub mod session;

verus! {

/// Result of processing a single text frame.
#[derive(Debug, Clone, Copy, PartialEq, Eq, Structural)]
pub enum HandleResult {
    /// Frame processed, keep reading.
    Continue,
    /// Server error or protocol violation: reconnect.
    Reconnect,
    /// Consumer dropped or unrecoverable: stop entirely.
    Shutdown,
}

/// What a text frame came to.
pub enum Processed {
    /// A snapshot to hand on with [`deliver_book`].
    Book(OrderBook),
    /// Nothing to hand on.
    Done(HandleResult),
}

/// What a text frame says.
pub ghost enum Frame {
    /// It could not be read.
    Malformed,
    /// An order book with its sequence number; `None` where its levels could
    /// not be read.
    Snapshot { seq: u64, levels: Option<(Seq<RawLevel>, Seq<RawLevel>)> },
    /// Something that needs no reaction.
    Notice,
    /// The server reports an error.
    ServerError,
}

/// Whether a snapshot is stale or a duplicate: sequence numbers should rise. A
/// number that is zero, or follows zero, is not compared.
pub open spec fn out_of_order(seq: u64, last: u64) -> bool {
    seq > 0 && last > 0 && seq <= last
}

/// The counters after one more error.
pub open spec fn with_error(m: ExchangeMetrics) -> ExchangeMetrics {
    ExchangeMetrics { errors: metrics::wrapped(m.errors + 1), ..m }
}

/// A book of an exchange with the given levels.
pub open spec fn is_book(
    book: OrderBook,
    id: ExchangeId,
    levels: (Seq<RawLevel>, Seq<RawLevel>),
    decode_start: u64,
) -> bool {
    &&& book.exchange_id == id
    &&& capped::contents(&book.bids) == levels.0
    &&& capped::contents(&book.asks) == levels.1
    &&& book.decode_start == decode_start
}

/// The sequence number that an adapter remembers after a frame: that of the last
/// snapshot in order.
pub open spec fn seen_after(frame: Frame, last: u64) -> u64 {
    match frame {
        Frame::Snapshot { seq, levels } if !out_of_order(seq, last) => seq,
        _ => last,
    }
}

/// The counters after a frame. A frame that cannot be read, a snapshot out of
/// order and an error of the server each count as an error.
pub open spec fn counted_after(frame: Frame, last: u64, m: ExchangeMetrics) -> ExchangeMetrics {
    match frame {
        Frame::Malformed => with_error(m),
        Frame::Snapshot { seq, levels } => if out_of_order(seq, last) || levels is None {
            with_error(m)
        } else {
            m
        },
        Frame::Notice => m,
        Frame::ServerError => with_error(m),
    }
}

/// What a frame comes to: a book for a snapshot in order that could be read, a
/// reconnect for an error of the server, and else more reading.
pub open spec fn is_outcome(
    r: Processed,
    frame: Frame,
    last: u64,
    id: ExchangeId,
    decode_start: u64,
) -> bool {
    match frame {
        Frame::Snapshot { seq, levels } => if !out_of_order(seq, last) && levels is Some {
            r is Book && is_book(r->Book_0, id, levels->0, decode_start)
        } else {
            r == Processed::Done(HandleResult::Continue)
        },
        Frame::ServerError => r == Processed::Done(HandleResult::Reconnect),
        _ => r == Processed::Done(HandleResult::Continue),
    }
}

/// A snapshot that gives a book has a higher sequence number than the one
/// remembered, as long as both are above zero. A duplicate gives none, and after
/// a reconnect every number is accepted.
pub proof fn law_snapshot_in_order(seq: u64, last: u64, levels: (Seq<RawLevel>, Seq<RawLevel>))
    ensures
        ({
            let frame = Frame::Snapshot { seq, levels: Some(levels) };
            forall|r: Processed, id: ExchangeId, decode_start: u64|
                #[trigger] is_outcome(r, frame, last, id, decode_start) ==> {
                    &&& r is Book && seq > 0 && last > 0 ==> seq > last
                    &&& r is Book ==> seen_after(frame, last) == seq
                    &&& r is Done ==> seen_after(frame, last) == last
                    &&& last == 0 ==> r is Book
                    &&& seq == last && seq > 0 ==> r is Done
                }
        }),
{
}

/// The sequence number that an adapter remembers after a run of frames.
pub open spec fn seen_after_all(frames: Seq<Frame>, last: u64) -> u64
    decreases frames.len(),
{
    if frames.len() == 0 {
        last
    } else {
        seen_after(frames.last(), seen_after_all(frames.drop_last(), last))
    }
}

/// What each of a run of frames comes to, for an adapter that remembers `last`
/// at the start; decoding of frame `i` started at `starts[i]`.
pub open spec fn are_outcomes(
    outcomes: Seq<Processed>,
    frames: Seq<Frame>,
    last: u64,
    id: ExchangeId,
    starts: Seq<u64>,
) -> bool {
    &&& outcomes.len() == frames.len()
    &&& starts.len() == frames.len()
    &&& forall|i: int|
        0 <= i < frames.len() ==> is_outcome(
            #[trigger] outcomes[i],
            frames[i],
            seen_after_all(frames.take(i), last),
            id,
            starts[i],
        )
}

/// Whether the sequence numbers of all snapshots from `i` up to `j` are above
/// zero.
pub open spec fn all_numbered(frames: Seq<Frame>, i: int, j: int) -> bool {
    forall|m: int|
        i <= m <= j && #[trigger] frames[m] is Snapshot ==> frames[m]->Snapshot_seq > 0
}

/// Behind a snapshot that was in order, the remembered number is not below that
/// of the snapshot.
proof fn lemma_seen_rises(frames: Seq<Frame>, last: u64, i: int, j: int)
    requires
        0 <= i < j <= frames.len(),
        frames[i] is Snapshot,
        !out_of_order(frames[i]->Snapshot_seq, seen_after_all(frames.take(i), last)),
        all_numbered(frames, i, j - 1),
    ensures
        seen_after_all(frames.take(j), last) >= frames[i]->Snapshot_seq,
    decreases j,
{
    assert(frames.take(j).drop_last() =~= frames.take(j - 1));
    assert(frames.take(j).last() == frames[j - 1]);
    assert(frames[i]->Snapshot_seq > 0);
    if i < j - 1 {
        lemma_seen_rises(frames, last, i, j - 1);
    }
}

/// Over a run of frames of one connection, the sequence numbers of the snapshots
/// that give books strictly increase, as long as all from the first of the two to
/// the second are above zero.
pub proof fn law_snapshots_in_order(
    outcomes: Seq<Processed>,
    frames: Seq<Frame>,
    last: u64,
    id: ExchangeId,
    starts: Seq<u64>,
    i: int,
    j: int,
)
    requires
        are_outcomes(outcomes, frames, last, id, starts),
        0 <= i < j < frames.len(),
        outcomes[i] is Book,
        outcomes[j] is Book,
        all_numbered(frames, i, j),
    ensures
        frames[i] is Snapshot,
        frames[j] is Snapshot,
        frames[i]->Snapshot_seq < frames[j]->Snapshot_seq,
{
    assert(frames[j]->Snapshot_seq > 0);
    assert(frames[i]->Snapshot_seq > 0);
    lemma_seen_rises(frames, last, i, j);
}

/// Exchange-specific behaviour, called by the reconnection loop.
pub trait WsHandler: Sized + Send + 'static {
    /// Short lowercase name, for logging and thread naming.
    const NAME: &'static str;

    /// The id of the exchange.
    spec fn id() -> ExchangeId;

    /// The WebSocket URL for a symbol.
    spec fn url_text(symbol: Seq<char>) -> Seq<char>;

    /// The message to subscribe with, if the exchange wants one.
    spec fn subscription(symbol: Seq<char>) -> Option<Seq<char>>;

    /// What a text frame says.
    spec fn frame_of(text: Seq<u8>) -> Frame;

    /// Sequence number of the last snapshot of this connection; zero where there
    /// was none.
    spec fn last_seen(&self) -> u64;

    /// Build the WebSocket URL for the given symbol.
    fn ws_url(&self, symbol: &str) -> (r: String)
        ensures
            r@ == Self::url_text(symbol@),
    ;

    /// Optional message to send right after connecting.
    fn subscribe_message(&self, symbol: &str) -> (r: Option<String>)
        ensures
            match Self::subscription(symbol@) {
                Some(message) => r is Some && r->0@ == message,
                None => r is None,
            },
    ;

    /// Called once a connection is established, before reading: forgets the
    /// sequence numbers of the connection before.
    fn on_connected(&mut self)
        ensures
            final(self).last_seen() == 0,
    ;

    /// Process a single text frame, whose decoding started at `decode_start`.
    fn process_text(
        &mut self,
        text: &str,
        decode_start: u64,
        metrics: &mut ExchangeMetrics,
    ) -> (r: Processed)
        ensures
            is_outcome(
                r,
                Self::frame_of(text.spec_bytes()),
                old(self).last_seen(),
                Self::id(),
                decode_start,
            ),
            final(self).last_seen() == seen_after(
                Self::frame_of(text.spec_bytes()),
                old(self).last_seen(),
            ),
            *final(metrics) == counted_after(
                Self::frame_of(text.spec_bytes()),
                old(self).last_seen(),
                *old(metrics),
            ),
    ;
}

/// A snapshot with readable levels gives a book of just these levels, and is
/// remembered, wherever its number is above the remembered one or either is zero.
/// No counter changes.
pub proof fn law_rising_snapshot_gives_book<H: WsHandler>(
    h: &mut H,
    text: &str,
    decode_start: u64,
    m: &mut ExchangeMetrics,
    r: Processed,
    seq: u64,
    bids: Seq<RawLevel>,
    asks: Seq<RawLevel>,
)
    requires
        call_ensures(H::process_text, (h, text, decode_start, m), r),
        H::frame_of(text.spec_bytes()) == (Frame::Snapshot { seq, levels: Some((bids, asks)) }),
        seq > old(h).last_seen() || seq == 0 || old(h).last_seen() == 0,
    ensures
        r matches Processed::Book(book) && book.exchange_id == H::id() && capped::contents(
            &book.bids,
        ) == bids && capped::contents(&book.asks) == asks && book.decode_start == decode_start,
        final(h).last_seen() == seq,
        *final(m) == *old(m),
{
}

/// A snapshot whose number is not above the remembered one gives no book, whatever
/// its levels: it counts as an error, and reading goes on as before.
pub proof fn law_repeated_snapshot_is_dropped<H: WsHandler>(
    h: &mut H,
    text: &str,
    decode_start: u64,
    m: &mut ExchangeMetrics,
    r: Processed,
)
    requires
        call_ensures(H::process_text, (h, text, decode_start, m), r),
        H::frame_of(text.spec_bytes()) is Snapshot,
        0 < H::frame_of(text.spec_bytes())->Snapshot_seq <= old(h).last_seen(),
    ensures
        r == Processed::Done(HandleResult::Continue),
        final(h).last_seen() == old(h).last_seen(),
        final(m).errors == (old(m).errors + 1) % 0x1_0000_0000_0000_0000,
        *final(m) == (ExchangeMetrics { errors: final(m).errors, ..*old(m) }),
{
}

/// A frame that cannot be read, in whole or in its levels, gives no book and counts
/// as an error, and reading goes on; the number of a snapshot whose levels cannot be
/// read is remembered where it is in order. An error of the server counts as one and
/// leads to a reconnect; other frames that hold no snapshot change nothing.
pub proof fn law_other_frames_give_no_book<H: WsHandler>(
    h: &mut H,
    text: &str,
    decode_start: u64,
    m: &mut ExchangeMetrics,
    r: Processed,
)
    requires
        call_ensures(H::process_text, (h, text, decode_start, m), r),
        match H::frame_of(text.spec_bytes()) {
            Frame::Snapshot { seq, levels } => levels is None,
            _ => true,
        },
    ensures
        ({
            let frame = H::frame_of(text.spec_bytes());
            &&& r == Processed::Done(
                if frame is ServerError {
                    HandleResult::Reconnect
                } else {
                    HandleResult::Continue
                },
            )
            &&& frame !is Snapshot ==> final(h).last_seen() == old(h).last_seen()
            &&& frame is Snapshot && (frame->Snapshot_seq > old(h).last_seen()
                || frame->Snapshot_seq == 0 || old(h).last_seen() == 0) ==> final(h).last_seen()
                == frame->Snapshot_seq
            &&& final(m).errors == if frame is Notice {
                old(m).errors as int
            } else {
                (old(m).errors + 1) % 0x1_0000_0000_0000_0000
            }
            &&& *final(m) == (ExchangeMetrics { errors: final(m).errors, ..*old(m) })
        }),
{
}

/// A new connection forgets the numbers of the one before, so that its first
/// readable snapshot gives a book, whatever its number.
pub proof fn law_reconnect_starts_anew<H: WsHandler>(
    h: &mut H,
    later: &mut H,
    text: &str,
    decode_start: u64,
    m: &mut ExchangeMetrics,
    r: Processed,
)
    requires
        call_ensures(H::on_connected, (h,), ()),
        *old(later) == *final(h),
        call_ensures(H::process_text, (later, text, decode_start, m), r),
        H::frame_of(text.spec_bytes()) is Snapshot,
        H::frame_of(text.spec_bytes())->Snapshot_levels is Some,
    ensures
        r is Book,
        final(later).last_seen() == H::frame_of(text.spec_bytes())->Snapshot_seq,
{
}

/// The levels that pairs of texts stand for, behind those in `acc`: the first
/// `n` with a nonzero amount. `None` where one of the pairs up to there is
/// malformed.
pub open spec fn levels_of_texts(
    texts: Seq<grammar::TextPair>,
    acc: Seq<RawLevel>,
    n: nat,
) -> Option<Seq<RawLevel>>
    decreases texts.len(),
{
    if acc.len() >= n || texts.len() == 0 {
        Some(acc)
    } else {
        let price = FixedPoint::spec_parse(texts[0].0);
        let amount = FixedPoint::spec_parse(texts[0].1);
        if price is Some && amount is Some {
            levels_of_texts(
                texts.skip(1),
                grammar::with_nonzero(
                    acc,
                    RawLevel { price: price->0, amount: amount->0 },
                ),
                n,
            )
        } else {
            None
        }
    }
}

/// Both sides of a book from pairs of texts.
pub open spec fn sides_of_texts(
    bids: Seq<grammar::TextPair>,
    asks: Seq<grammar::TextPair>,
) -> Option<(Seq<RawLevel>, Seq<RawLevel>)> {
    let b = levels_of_texts(bids, Seq::empty(), DEPTH as nat);
    let a = levels_of_texts(asks, Seq::empty(), DEPTH as nat);
    if b is Some && a is Some {
        Some((b->0, a->0))
    } else {
        None
    }
}

/// Parse the texts of one side: the first [`DEPTH`] levels with a nonzero amount.
fn parse_levels(texts: &Levels<'_>) -> (r: Option<ArrayVec<RawLevel, DEPTH>>)
    ensures
        ({
            let expected = levels_of_texts(
                json_walker::level_texts(texts),
                Seq::empty(),
                DEPTH as nat,
            );
            &&& r is Some == expected is Some
            &&& r is Some ==> capped::contents(&r->0) == expected->0
        }),
{
    let pairs = texts.as_slice();
    let ghost all = json_walker::level_texts(texts);
    let mut levels: ArrayVec<RawLevel, DEPTH> = ArrayVec::new();
    let mut i: usize = 0;
    assert(all.skip(0) =~= all);
    while i < pairs.len() && levels.as_slice().len() < DEPTH
        invariant
            pairs@ == capped::contents(texts),
            all == json_walker::level_texts(texts),
            i <= pairs@.len(),
            levels_of_texts(all.skip(i as int), capped::contents(&levels), DEPTH as nat)
                == levels_of_texts(all, Seq::empty(), DEPTH as nat),
        decreases pairs@.len() - i,
    {
        let ghost rest = all.skip(i as int);
        assert(rest[0] == json_walker::texts_of(pairs@[i as int]));
        assert(rest.skip(1) =~= all.skip(i + 1));
        let price: FixedPoint = match FixedPoint::parse(pairs[i][0]) {
            Some(v) => v,
            None => {
                return None;
            },
        };
        let amount: FixedPoint = match FixedPoint::parse(pairs[i][1]) {
            Some(v) => v,
            None => {
                return None;
            },
        };
        if amount.raw() != 0 {
            capped::try_push(&mut levels, RawLevel { price, amount });
        }
        i += 1;
    }
    Some(levels)
}

/// Build a book from the texts of its levels. `None` where one that counts is
/// malformed.
pub fn build_book(
    exchange_id: ExchangeId,
    bids: &Levels<'_>,
    asks: &Levels<'_>,
    decode_start: u64,
) -> (r: Option<OrderBook>)
    ensures
        match sides_of_texts(json_walker::level_texts(bids), json_walker::level_texts(asks)) {
            Some(levels) => r is Some && is_book(r->0, exchange_id, levels, decode_start),
            None => r is None,
        },
{
    match (parse_levels(bids), parse_levels(asks)) {
        (Some(bids), Some(asks)) => Some(OrderBook { exchange_id, bids, asks, decode_start }),
        _ => None,
    }
}

/// Put a book into the slot, where it replaces one that was not read. Returns
/// `false`, and puts nothing there, if the consumer is gone.
pub fn try_send_book(
    sender: &mut SlotSender<OrderBook>,
    shared: &mut Shared<OrderBook>,
    book: OrderBook,
) -> (r: bool)
    requires
        old(shared).wf(),
        old(sender).back < 3,
        old(sender).back != old(shared).middle(),
    ensures
        r == (old(shared).refcount != 1),
        r ==> final(shared).pending() == Some(book),
        !r ==> *final(sender) == *old(sender) && *final(shared) == *old(shared),
        final(shared).refcount == old(shared).refcount,
        forall|rx: SlotReceiver<OrderBook>|
            atomic_slot::linked(*old(sender), rx, *old(shared)) ==> atomic_slot::linked(
                *final(sender),
                rx,
                *final(shared),
            ),
{
    if sender.is_abandoned(shared) {
        return false;
    }
    sender.send(shared, book);
    true
}

/// Count a decoded book and put it into the slot. `now` is when it was decoded.
pub fn deliver_book(
    book: OrderBook,
    now: u64,
    sender: &mut SlotSender<OrderBook>,
    shared: &mut Shared<OrderBook>,
    metrics: &mut ExchangeMetrics,
) -> (r: HandleResult)
    requires
        old(shared).wf(),
        old(sender).back < 3,
        old(sender).back != old(shared).middle(),
    ensures
        r == if old(shared).refcount == 1 {
            HandleResult::Shutdown
        } else {
            HandleResult::Continue
        },
        r is Continue ==> final(shared).pending() == Some(book),
        r is Shutdown ==> *final(sender) == *old(sender) && *final(shared) == *old(shared),
        final(shared).refcount == old(shared).refcount,
        forall|rx: SlotReceiver<OrderBook>|
            atomic_slot::linked(*old(sender), rx, *old(shared)) ==> atomic_slot::linked(
                *final(sender),
                rx,
                *final(shared),
            ),
        final(metrics).messages == metrics::wrapped(old(metrics).messages + 1),
        metrics::recorded(
            old(metrics).decode_latency,
            final(metrics).decode_latency,
            metrics::elapsed(book.decode_start, now),
        ),
        old(metrics).wf() ==> final(metrics).wf(),
        final(metrics).name == old(metrics).name,
        final(metrics).errors == old(metrics).errors,
        final(metrics).reconnections == old(metrics).reconnections,
        final(metrics).ring_drops == old(metrics).ring_drops,
        final(metrics).connected == old(metrics).connected,
{
    metrics.decode_latency.record(elapsed_nanos(book.decode_start, now) as u128);
    metrics.messages = metrics.messages.wrapping_add(1);
    if !try_send_book(sender, shared, book) {
        return HandleResult::Shutdown;
    }
    HandleResult::Continue
}

/// How much of a frame that could not be read is worth logging, in bytes.
pub const PAYLOAD_HEAD: usize = 200;

/// The start of a frame, for logging: at most [`PAYLOAD_HEAD`] bytes, cut
/// between two characters.
pub fn payload_head(text: &str) -> (r: &str)
    ensures
        r.spec_bytes().len() <= PAYLOAD_HEAD,
        r.spec_bytes() == text.spec_bytes().take(r.spec_bytes().len() as int),
        vstd::utf8::is_char_boundary(text.spec_bytes(), r.spec_bytes().len() as int),
        forall|i: int|
            r.spec_bytes().len() < i <= text.spec_bytes().len() && i <= PAYLOAD_HEAD
                ==> !vstd::utf8::is_char_boundary(text.spec_bytes(), i),
{
    let ghost b = text.spec_bytes();
    let len: usize = text.as_bytes().len();
    let mut end: usize = if len < PAYLOAD_HEAD {
        len
    } else {
        PAYLOAD_HEAD
    };
    proof {
        vstd::utf8::encode_utf8_valid_utf8(text@);
        vstd::utf8::is_char_boundary_start_end_of_seq(b);
    }
    while !text.is_char_boundary(end)
        invariant
            b == text.spec_bytes(),
            end <= b.len(),
            end <= PAYLOAD_HEAD,
            vstd::utf8::is_char_boundary(b, 0),
            forall|i: int|
                end < i <= b.len() && i <= PAYLOAD_HEAD ==> !vstd::utf8::is_char_boundary(b, i),
        decreases end,
    {
        end -= 1;
    }
    let (head, _) = text.split_at(end);
    assert(head.spec_bytes() =~= b.take(end as int));
    head
}

/// A decoded book counts as one message, and its latency runs from the start of
/// decoding. It is what the consumer receives next, unless the consumer is gone: the
/// adapter is told to stop then, and the slot stays as it is.
pub proof fn law_delivery(
    book: OrderBook,
    now: u64,
    sender: &mut SlotSender<OrderBook>,
    shared: &mut Shared<OrderBook>,
    m: &mut ExchangeMetrics,
    r: HandleResult,
    receiver: &mut SlotReceiver<OrderBook>,
    later: &mut Shared<OrderBook>,
    got: Option<OrderBook>,
)
    requires
        atomic_slot::linked(*old(sender), *old(receiver), *old(shared)),
        call_ensures(deliver_book, (book, now, sender, shared, m), r),
        *old(later) == *final(shared),
        call_ensures(SlotReceiver::<OrderBook>::recv, (receiver, later), got),
    ensures
        r is Shutdown <==> old(shared).refcount == 1,
        r is Continue <==> old(shared).refcount != 1,
        r is Continue ==> got == Some(book),
        r is Shutdown ==> *final(shared) == *old(shared),
        final(m).messages == (old(m).messages + 1) % 0x1_0000_0000_0000_0000,
        final(m).decode_latency.count == (old(m).decode_latency.count + 1)
            % 0x1_0000_0000_0000_0000,
        final(m).decode_latency.sum_ns == (old(m).decode_latency.sum_ns + if now
            > book.decode_start {
            now - book.decode_start
        } else {
            0
        }) % 0x1_0000_0000_0000_0000,
        final(m).errors == old(m).errors,
        final(m).reconnections == old(m).reconnections,
        final(m).ring_drops == old(m).ring_drops,
        final(m).connected == old(m).connected,
        final(m).name == old(m).name,
{
}

/// What is logged of a frame is its start: all of it where it has at most 200 bytes,
/// and else as many whole characters as fit in these.
pub proof fn law_payload_head(text: &str, r: &str)
    requires
        call_ensures(payload_head, (text,), r),
    ensures
        r.spec_bytes().len() <= 200,
        r.spec_bytes().len() <= text.spec_bytes().len(),
        forall|i: int|
            0 <= i < r.spec_bytes().len() ==> #[trigger] r.spec_bytes()[i]
                == text.spec_bytes()[i],
        text.spec_bytes().len() <= 200 ==> r@ == text@,
        forall|i: int|
            r.spec_bytes().len() < i <= 200 && i <= text.spec_bytes().len()
                ==> !vstd::utf8::is_char_boundary(text.spec_bytes(), i),
{
    let b = text.spec_bytes();
    let n = r.spec_bytes().len() as int;
    vstd::utf8::encode_utf8_valid_utf8(text@);
    vstd::utf8::is_char_boundary_start_end_of_seq(b);
    vstd::utf8::encode_utf8_decode_utf8(text@);
    vstd::utf8::encode_utf8_decode_utf8(r@);
    assert(vstd::utf8::is_char_boundary(b, n));
    assert(n <= b.len());
    if b.len() <= 200 {
        assert(n == b.len());
        assert(b.take(n) =~= b);
    }
}

/// A book is put into the slot exactly while the consumer is there, and is then what
/// it receives next.
pub proof fn law_try_send_book(
    sender: &mut SlotSender<OrderBook>,
    shared: &mut Shared<OrderBook>,
    book: OrderBook,
    r: bool,
    receiver: &mut SlotReceiver<OrderBook>,
    later: &mut Shared<OrderBook>,
    got: Option<OrderBook>,
)
    requires
        atomic_slot::linked(*old(sender), *old(receiver), *old(shared)),
        call_ensures(try_send_book, (sender, shared, book), r),
        *old(later) == *final(shared),
        call_ensures(SlotReceiver::<OrderBook>::recv, (receiver, later), got),
    ensures
        r <==> old(shared).refcount != 1,
        r ==> got == Some(book),
        !r ==> *final(shared) == *old(shared),
{
}

} // verus!
