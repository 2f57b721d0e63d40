//! Order book merger.
//!
//! Keeps the latest book per exchange and merges them into one [`Summary`]: a
//! k-way merge of books that come sorted, instead of a sort of all levels.

use arrayvec::ArrayVec;
use vstd::prelude::*;

use crate::capped;
use crate::metrics;
use crate::metrics::{elapsed_nanos, Metrics};
use crate::types::{ExchangeId, Level, OrderBook, RawLevel, Summary, DEPTH};
use crate::MAX_EXCHANGES;

verus! {

/// Books older than this are evicted before merging, in nanoseconds: five
/// seconds. Longer than network jitter or a quick reconnect, shorter than it
/// takes for old prices to look like an arbitrage opportunity.
pub const STALE_THRESHOLD: u64 = 5_000_000_000;

/// A side of the book, which decides the order of its levels.
#[derive(Debug, Clone, Copy, PartialEq, Eq, Structural)]
pub enum Side {
    /// Highest price first.
    Bids,
    /// Lowest price first.
    Asks,
}

/// The price and amount of a level, without its exchange.
pub open spec fn untagged(level: Level) -> RawLevel {
    RawLevel { price: level.price, amount: level.amount }
}

/// Whether `a` comes before `b` on a side of the book: by price, then by the
/// larger amount.
pub open spec fn precedes(side: Side, a: RawLevel, b: RawLevel) -> bool {
    ||| match side {
        Side::Bids => a.price.0 > b.price.0,
        Side::Asks => a.price.0 < b.price.0,
    }
    ||| a.price.0 == b.price.0 && a.amount.0 > b.amount.0
}

/// Whether level `a` comes before level `b`; the exchange plays no part.
pub open spec fn ahead(side: Side, a: Level, b: Level) -> bool {
    precedes(side, untagged(a), untagged(b))
}

/// Whether no level comes before one in front of it.
pub open spec fn sorted(side: Side, levels: Seq<Level>) -> bool {
    forall|i: int, j: int| 0 <= i < j < levels.len() ==> !ahead(side, levels[j], levels[i])
}

/// Levels with the exchange that they come from.
pub open spec fn tagged(id: ExchangeId, levels: Seq<RawLevel>) -> Seq<Level> {
    levels.map_values(
        |l: RawLevel| Level { price: l.price, amount: l.amount, exchange_id: id },
    )
}

/// Whether list `i` starts with the level that comes first of all: nothing at
/// the start of another list is ahead of it, and where two lists start alike,
/// the earlier list goes first.
pub open spec fn starts_best(side: Side, lists: Seq<Seq<Level>>, i: int) -> bool {
    &&& 0 <= i < lists.len()
    &&& lists[i].len() > 0
    &&& forall|j: int|
        0 <= j < lists.len() && #[trigger] lists[j].len() > 0 && j != i ==> if j < i {
            ahead(side, lists[i][0], lists[j][0])
        } else {
            !ahead(side, lists[j][0], lists[i][0])
        }
}

/// The list that starts with the level that comes first of all.
pub open spec fn best_list(side: Side, lists: Seq<Seq<Level>>) -> int {
    choose|i: int| starts_best(side, lists, i)
}

/// The lists without the first level of list `i`.
pub open spec fn without_first(lists: Seq<Seq<Level>>, i: int) -> Seq<Seq<Level>> {
    lists.update(i, lists[i].drop_first())
}

/// The first `n` levels of all lists taken together: again and again the best
/// level that any list starts with.
pub open spec fn merged(side: Side, lists: Seq<Seq<Level>>, n: nat) -> Seq<Level>
    decreases n,
{
    if n == 0 || !exists|i: int| starts_best(side, lists, i) {
        Seq::empty()
    } else {
        let i = best_list(side, lists);
        seq![lists[i][0]] + merged(side, without_first(lists, i), (n - 1) as nat)
    }
}

/// Only one list starts best.
pub proof fn lemma_best_unique(side: Side, lists: Seq<Seq<Level>>, i: int)
    requires
        starts_best(side, lists, i),
    ensures
        best_list(side, lists) == i,
{
    let b = best_list(side, lists);
    assert(starts_best(side, lists, b));
    if b != i {
        assert(lists[b].len() > 0);
        assert(lists[i].len() > 0);
    }
}

/// Exchange id and the levels of its book, for one side.
pub struct TaggedSlice<'a> {
    pub exchange_id: ExchangeId,
    pub levels: &'a [RawLevel],
}

impl<'a> TaggedSlice<'a> {
    /// The levels with their exchange.
    pub open spec fn list(&self) -> Seq<Level> {
        tagged(self.exchange_id, self.levels@)
    }
}

/// The lists that slices stand for.
pub open spec fn lists_of(slices: Seq<TaggedSlice<'_>>) -> Seq<Seq<Level>> {
    Seq::new(slices.len(), |i: int| slices[i].list())
}

/// What is left of the lists behind the cursors.
pub open spec fn behind(lists: Seq<Seq<Level>>, cursors: Seq<usize>) -> Seq<Seq<Level>> {
    Seq::new(lists.len(), |i: int| lists[i].skip(cursors[i] as int))
}

/// Whether `a` comes before `b` on a side of the book.
fn goes_first(side: Side, a: &RawLevel, b: &RawLevel) -> (r: bool)
    ensures
        r == precedes(side, *a, *b),
{
    if a.price.raw() == b.price.raw() {
        a.amount.raw() > b.amount.raw()
    } else {
        match side {
            Side::Bids => a.price.raw() > b.price.raw(),
            Side::Asks => a.price.raw() < b.price.raw(),
        }
    }
}

/// K-way merge of sorted slices into the first `n` levels, with exchange. At
/// most [`DEPTH`] levels are kept.
pub fn merge_top_n(slices: &[TaggedSlice<'_>], side: Side, n: usize) -> (r: ArrayVec<Level, DEPTH>)
    requires
        slices@.len() <= MAX_EXCHANGES,
    ensures
        capped::contents(&r) == merged(
            side,
            lists_of(slices@),
            if n < DEPTH {
                n as nat
            } else {
                DEPTH as nat
            },
        ),
{
    let k: usize = slices.len();
    let mut cursors: [usize; MAX_EXCHANGES] = [0, 0];
    let mut result: ArrayVec<Level, DEPTH> = ArrayVec::new();
    let ghost lists = lists_of(slices@);
    let ghost m: nat = if n < DEPTH {
        n as nat
    } else {
        DEPTH as nat
    };
    let mut count: usize = 0;
    proof {
        assert forall|i: int| 0 <= i < k implies #[trigger] behind(lists, cursors@)[i]
            == lists[i] by {
            assert(lists[i].skip(0) =~= lists[i]);
        }
        assert(behind(lists, cursors@) =~= lists);
    }
    while count < n
        invariant
            k == slices@.len(),
            k <= MAX_EXCHANGES,
            lists == lists_of(slices@),
            m == if n < DEPTH {
                n as nat
            } else {
                DEPTH as nat
            },
            count <= n,
            count <= DEPTH,
            capped::contents(&result).len() == count,
            forall|i: int| 0 <= i < k ==> #[trigger] cursors@[i] <= slices@[i].levels@.len(),
            merged(side, lists, m) == capped::contents(&result) + merged(
                side,
                behind(lists, cursors@),
                (m - count) as nat,
            ),
        ensures
            capped::contents(&result) == merged(side, lists, m),
        decreases n - count,
    {
        let ghost rest = behind(lists, cursors@);
        let mut best: Option<usize> = None;
        let mut i: usize = 0;
        while i < k
            invariant
                k == slices@.len(),
                k <= MAX_EXCHANGES,
                i <= k,
                lists == lists_of(slices@),
                rest == behind(lists, cursors@),
                forall|i: int| 0 <= i < k ==> #[trigger] cursors@[i] <= slices@[i].levels@.len(),
                match best {
                    None => forall|j: int| 0 <= j < i ==> (#[trigger] rest[j]).len() == 0,
                    Some(b) => b < i && starts_best(side, rest.take(i as int), b as int),
                },
            decreases k - i,
        {
            let ghost seen = rest.take(i as int);
            let ghost next = rest.take(i + 1);
            proof {
                assert(next =~= seen.push(rest[i as int]));
                assert(rest[i as int].len() == slices@[i as int].levels@.len()
                    - cursors@[i as int]);
            }
            if cursors[i] < slices[i].levels.len() {
                assert(untagged(rest[i as int][0])
                    == slices@[i as int].levels@[cursors@[i as int] as int]);
                match best {
                    None => {
                        best = Some(i);
                        proof {
                            assert forall|j: int|
                                0 <= j < next.len() && #[trigger] next[j].len() > 0 && j
                                    != i implies false by {
                                assert(next[j] == rest[j]);
                            }
                        }
                    },
                    Some(b) => {
                        assert(seen[b as int] == rest[b as int]);
                        assert(untagged(rest[b as int][0])
                            == slices@[b as int].levels@[cursors@[b as int] as int]);
                        if goes_first(
                            side,
                            &slices[i].levels[cursors[i]],
                            &slices[b].levels[cursors[b]],
                        ) {
                            best = Some(i);
                        }
                        proof {
                            assert forall|j: int|
                                0 <= j < next.len() && #[trigger] next[j].len() > 0 implies (j
                                == i || (seen[j] == next[j] && seen[j].len() > 0)) by {}
                        }
                    },
                }
            } else {
                proof {
                    if best is Some {
                        assert forall|j: int|
                            0 <= j < next.len() && #[trigger] next[j].len() > 0 implies (seen[j]
                            == next[j] && seen[j].len() > 0) by {}
                    }
                }
            }
            i += 1;
        }
        assert(rest.take(k as int) =~= rest);
        let chosen: usize = match best {
            Some(b) => b,
            None => {
                proof {
                    assert forall|j: int| !starts_best(side, rest, j) by {}
                    assert(capped::contents(&result) =~= merged(side, lists, m));
                }
                break;
            },
        };
        let ghost before = capped::contents(&result);
        let raw: &RawLevel = &slices[chosen].levels[cursors[chosen]];
        let level: Level = Level {
            price: raw.price,
            amount: raw.amount,
            exchange_id: slices[chosen].exchange_id,
        };
        assert(rest[chosen as int][0] == level);
        if !capped::try_push(&mut result, level) {
            proof {
                assert(merged(side, rest, 0) =~= Seq::empty());
                assert(capped::contents(&result) =~= merged(side, lists, m));
            }
            break;
        }
        proof {
            lemma_best_unique(side, rest, chosen as int);
            let after = without_first(rest, chosen as int);
            if count < m {
                assert(capped::contents(&result) + merged(side, after, (m - count - 1) as nat)
                    =~= before + merged(side, rest, (m - count) as nat));
            }
            let moved = cursors@.update(
                chosen as int,
                (cursors@[chosen as int] + 1) as usize,
            );
            assert(after[chosen as int] =~= behind(lists, moved)[chosen as int]);
            assert(after =~= behind(lists, moved));
        }
        cursors[chosen] = cursors[chosen] + 1;
        count += 1;
    }
    result
}

/// Latest book per exchange, indexed by exchange id.
pub struct BookStore {
    pub books: [Option<OrderBook>; MAX_EXCHANGES],
}

/// The levels of a book on one side, with its exchange.
pub open spec fn book_list(side: Side, book: OrderBook) -> Seq<Level> {
    tagged(
        book.exchange_id,
        match side {
            Side::Bids => capped::contents(&book.bids),
            Side::Asks => capped::contents(&book.asks),
        },
    )
}

/// The levels of a slot on one side; none where there is no book.
pub open spec fn slot_list(side: Side, slot: Option<OrderBook>) -> Seq<Level> {
    match slot {
        Some(book) => book_list(side, book),
        None => Seq::empty(),
    }
}

/// Whether a book is more than `threshold` nanoseconds old at `now`. A book
/// from later than `now` has no age.
pub open spec fn is_stale(book: OrderBook, now: u64, threshold: u64) -> bool {
    metrics::elapsed(book.decode_start, now) > threshold
}

/// The slots of a store with a book in its exchange's place. One whose exchange
/// id is out of range changes nothing.
pub open spec fn inserted(slots: Seq<Option<OrderBook>>, book: OrderBook) -> Seq<
    Option<OrderBook>,
> {
    if book.exchange_id < slots.len() {
        slots.update(book.exchange_id as int, Some(book))
    } else {
        slots
    }
}

/// The slots of a store without the books that are stale at `now`.
pub open spec fn evicted(slots: Seq<Option<OrderBook>>, now: u64, threshold: u64) -> Seq<
    Option<OrderBook>,
> {
    slots.map_values(
        |slot: Option<OrderBook>|
            match slot {
                Some(book) if is_stale(book, now, threshold) => None,
                _ => slot,
            },
    )
}

impl Default for BookStore {
    fn default() -> (r: Self)
        ensures
            r.wf(),
            r@ == seq![None::<OrderBook>, None::<OrderBook>],
    {
        Self::new()
    }
}

impl View for BookStore {
    type V = Seq<Option<OrderBook>>;

    open spec fn view(&self) -> Seq<Option<OrderBook>> {
        self.books@
    }
}

impl BookStore {
    /// Every book stands at the index that is its exchange id.
    pub open spec fn wf(&self) -> bool {
        &&& self@.len() == MAX_EXCHANGES
        &&& forall|i: int|
            0 <= i < self@.len() && #[trigger] self@[i] is Some ==> self@[i]->0.exchange_id == i
    }

    /// The levels of every exchange on one side, by exchange id; none where
    /// there is no book.
    pub open spec fn lists(&self, side: Side) -> Seq<Seq<Level>> {
        Seq::new(self@.len(), |i: int| slot_list(side, self@[i]))
    }

    /// A store without books.
    #[must_use]
    pub fn new() -> (r: Self)
        ensures
            r.wf(),
            r@ == seq![None::<OrderBook>, None::<OrderBook>],
    {
        let r = Self { books: [None, None] };
        assert(r@ =~= seq![None::<OrderBook>, None::<OrderBook>]);
        r
    }

    /// Put a book in its exchange's place. One whose exchange id is out of range
    /// is dropped.
    pub fn insert(&mut self, book: OrderBook)
        requires
            old(self).wf(),
        ensures
            final(self).wf(),
            final(self)@ == inserted(old(self)@, book),
    {
        let idx: usize = book.exchange_id as usize;
        if idx < MAX_EXCHANGES {
            self.books[idx] = Some(book);
        }
    }

    /// Evict the books that are older than `threshold`.
    pub fn evict_stale(&mut self, now: u64, threshold: u64)
        requires
            old(self).wf(),
        ensures
            final(self).wf(),
            final(self)@ == evicted(old(self)@, now, threshold),
    {
        let mut i: usize = 0;
        while i < MAX_EXCHANGES
            invariant
                self.wf(),
                old(self).wf(),
                i <= MAX_EXCHANGES,
                forall|j: int|
                    0 <= j < i ==> #[trigger] self@[j] == evicted(old(self)@, now, threshold)[j],
                forall|j: int| i <= j < MAX_EXCHANGES ==> #[trigger] self@[j] == old(self)@[j],
            decreases MAX_EXCHANGES - i,
        {
            let stale: bool = match &self.books[i] {
                Some(book) => elapsed_nanos(book.decode_start, now) > threshold,
                None => false,
            };
            if stale {
                self.books[i] = None;
            }
            i += 1;
        }
        assert(self@ =~= evicted(old(self)@, now, threshold));
    }
}

/// Ask price minus bid price of the first levels, in units of `10^-8`; zero
/// where a side is empty.
pub open spec fn spread_of(bids: Seq<Level>, asks: Seq<Level>) -> int {
    if bids.len() > 0 && asks.len() > 0 {
        asks[0].price.0 - bids[0].price.0
    } else {
        0
    }
}

/// The 64-bit signed integer that equals `d` up to a multiple of `2^64`, for a
/// difference of two 64-bit numbers. It is `d` itself wherever that fits.
pub open spec fn wrapped(d: int) -> int {
    if d > i64::MAX {
        d - 0x1_0000_0000_0000_0000
    } else if d < i64::MIN {
        d + 0x1_0000_0000_0000_0000
    } else {
        d
    }
}

/// The merged summary of the books in a store.
pub open spec fn is_summary(r: Summary, store: BookStore) -> bool {
    &&& capped::contents(&r.bids) == merged(Side::Bids, store.lists(Side::Bids), DEPTH as nat)
    &&& capped::contents(&r.asks) == merged(Side::Asks, store.lists(Side::Asks), DEPTH as nat)
    &&& r.spread_raw == wrapped(
        spread_of(capped::contents(&r.bids), capped::contents(&r.asks)),
    )
}

/// Ask price minus bid price, in two's complement.
fn price_difference(ask: u64, bid: u64) -> (r: i64)
    ensures
        r == wrapped(ask - bid),
{
    let d: u64 = ask.wrapping_sub(bid);
    if d <= i64::MAX as u64 {
        d as i64
    } else {
        -((u64::MAX - d) as i64) - 1
    }
}

/// One side of all books, by exchange id; `empty` stands for a missing book.
fn side_slices<'a>(
    books: &'a BookStore,
    empty: &'a ArrayVec<RawLevel, DEPTH>,
    side: Side,
) -> (r: ArrayVec<TaggedSlice<'a>, MAX_EXCHANGES>)
    requires
        capped::contents(empty).len() == 0,
    ensures
        lists_of(capped::contents(&r)) == books.lists(side),
{
    let mut slices: ArrayVec<TaggedSlice<'a>, MAX_EXCHANGES> = ArrayVec::new();
    let mut i: usize = 0;
    while i < MAX_EXCHANGES
        invariant
            i <= MAX_EXCHANGES,
            capped::contents(empty).len() == 0,
            capped::contents(&slices).len() == i,
            forall|j: int|
                0 <= j < i ==> (#[trigger] capped::contents(&slices)[j]).list() == books.lists(
                    side,
                )[j],
        decreases MAX_EXCHANGES - i,
    {
        let slice: TaggedSlice<'a> = match &books.books[i] {
            Some(book) => {
                let levels: &'a [RawLevel] = match side {
                    Side::Bids => book.bids.as_slice(),
                    Side::Asks => book.asks.as_slice(),
                };
                TaggedSlice { exchange_id: book.exchange_id, levels }
            },
            None => TaggedSlice { exchange_id: i as u8, levels: empty.as_slice() },
        };
        assert(slice.list() =~= books.lists(side)[i as int]);
        capped::try_push(&mut slices, slice);
        i += 1;
    }
    assert(lists_of(capped::contents(&slices)) =~= books.lists(side));
    slices
}

/// Merge all exchange order books into a single [`Summary`].
#[must_use]
pub fn merge(books: &BookStore) -> (r: Summary)
    ensures
        is_summary(r, *books),
{
    let empty: ArrayVec<RawLevel, DEPTH> = ArrayVec::new();
    let bid_slices = side_slices(books, &empty, Side::Bids);
    let ask_slices = side_slices(books, &empty, Side::Asks);
    let bids = merge_top_n(bid_slices.as_slice(), Side::Bids, DEPTH);
    let asks = merge_top_n(ask_slices.as_slice(), Side::Asks, DEPTH);
    let bid_levels = bids.as_slice();
    let ask_levels = asks.as_slice();
    let spread_raw: i64 = if bid_levels.len() > 0 && ask_levels.len() > 0 {
        price_difference(ask_levels[0].price.raw(), bid_levels[0].price.raw())
    } else {
        0
    };
    Summary { spread_raw, bids, asks }
}

/// What the merger does next.
#[derive(Debug, Clone, Copy, PartialEq, Eq, Structural)]
pub enum Poll {
    /// Shutdown was requested: exit.
    Cancelled,
    /// All producers are gone: exit.
    Abandoned,
    /// Look for a book in every slot.
    Look,
}

/// Whether the producer of every slot is gone.
pub open spec fn all_gone(abandoned: Seq<bool>) -> bool {
    forall|i: int| 0 <= i < abandoned.len() ==> #[trigger] abandoned[i]
}

/// Decide whether to go on. `abandoned` says of every slot whether its producer
/// is gone.
pub fn next_poll(cancelled: bool, abandoned: &[bool]) -> (r: Poll)
    ensures
        r == if cancelled {
            Poll::Cancelled
        } else if all_gone(abandoned@) {
            Poll::Abandoned
        } else {
            Poll::Look
        },
{
    if cancelled {
        return Poll::Cancelled;
    }
    let mut i: usize = 0;
    while i < abandoned.len()
        invariant
            !cancelled,
            i <= abandoned@.len(),
            forall|j: int| 0 <= j < i ==> #[trigger] abandoned@[j],
        decreases abandoned@.len() - i,
    {
        if !abandoned[i] {
            return Poll::Look;
        }
        i += 1;
    }
    Poll::Abandoned
}

/// Take in a book: put it in its exchange's place, evict what is stale at `now`,
/// and merge. Every book that comes in gives a new summary.
pub fn on_book(books: &mut BookStore, book: OrderBook, now: u64) -> (r: Summary)
    requires
        old(books).wf(),
    ensures
        final(books).wf(),
        final(books)@ == evicted(inserted(old(books)@, book), now, STALE_THRESHOLD),
        is_summary(r, *final(books)),
{
    books.insert(book);
    books.evict_stale(now, STALE_THRESHOLD);
    merge(books)
}

/// Count a merge whose summary was published at `now`, for a book whose decoding
/// started at `decode_start`.
pub fn count_merge(registry: &mut Metrics, decode_start: u64, now: u64)
    ensures
        metrics::recorded(
            old(registry).e2e_latency,
            final(registry).e2e_latency,
            metrics::elapsed(decode_start, now),
        ),
        final(registry).merges == metrics::wrapped(old(registry).merges + 1),
        final(registry).exchanges == old(registry).exchanges,
        final(registry).merge_latency == old(registry).merge_latency,
        final(registry).start_time == old(registry).start_time,
        old(registry).wf() ==> final(registry).wf(),
{
    registry.e2e_latency.record(elapsed_nanos(decode_start, now) as u128);
    registry.merges = registry.merges.wrapping_add(1);
}

/// The core to pin the merger to: the last of those online. `None` where their
/// number is not known.
pub fn last_core(cpus: i64) -> (r: Option<u64>)
    ensures
        r == if cpus > 0 {
            Some((cpus - 1) as u64)
        } else {
            None
        },
{
    if cpus > 0 {
        Some((cpus - 1) as u64)
    } else {
        None
    }
}

} // verus!
