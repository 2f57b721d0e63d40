//! What the terminal client shows: its state, which level stands in which row,
//! how the spread is centred, and which keys end it.

use vstd::prelude::*;

use crate::metrics;

verus! {

/// Running totals that are kept per side.
pub const MAX_DISPLAY: usize = 10;

/// Width of the spread line.
pub const SPREAD_WIDTH: usize = 70;

/// State of the client. `S` is a summary as it came from the server.
pub struct App<S> {
    pub summary: Option<S>,
    pub updates: u64,
    /// When the client started, in nanoseconds on a monotonic clock.
    pub start: u64,
    pub symbol: String,
}

impl<S> App<S> {
    /// A client that is waiting for data.
    pub fn new(symbol: String, now: u64) -> (r: Self)
        ensures
            r.summary is None,
            r.updates == 0,
            r.start == now,
            r.symbol == symbol,
    {
        App { summary: None, updates: 0, start: now, symbol }
    }

    /// Take in a summary.
    pub fn on_summary(&mut self, summary: S)
        ensures
            final(self).summary == Some(summary),
            final(self).updates == metrics::wrapped(old(self).updates + 1),
            final(self).start == old(self).start,
            final(self).symbol == old(self).symbol,
    {
        self.summary = Some(summary);
        self.updates = self.updates.wrapping_add(1);
    }
}

/// A row of the book.
#[derive(Debug, Clone, Copy, PartialEq, Eq, Structural)]
pub struct Row {
    /// Index of its level, best first.
    pub level: usize,
    /// Index of its running total, best first; `None` beyond those kept.
    pub total: Option<usize>,
}

/// How many running totals a side with `n` levels has.
pub open spec fn totals_kept(n: usize) -> usize {
    if n < MAX_DISPLAY {
        n
    } else {
        MAX_DISPLAY
    }
}

/// Row `i` of `n` asks: the worst ask at the top, the best at the bottom, with
/// the totals in reverse too.
pub open spec fn ask_row(n: usize, i: int) -> Row {
    Row {
        level: (n - 1 - i) as usize,
        total: if i < totals_kept(n) {
            Some((totals_kept(n) - 1 - i) as usize)
        } else {
            None
        },
    }
}

/// Row `i` of `n` bids: the best bid at the top.
pub open spec fn bid_row(n: usize, i: int) -> Row {
    Row {
        level: i as usize,
        total: if i < totals_kept(n) {
            Some(i as usize)
        } else {
            None
        },
    }
}

/// The rows of `n` asks, top to bottom.
pub fn ask_rows(n: usize) -> (r: Vec<Row>)
    ensures
        r@ == Seq::new(n as nat, |i: int| ask_row(n, i)),
{
    let kept: usize = if n < MAX_DISPLAY {
        n
    } else {
        MAX_DISPLAY
    };
    let mut rows: Vec<Row> = Vec::new();
    let mut i: usize = 0;
    while i < n
        invariant
            i <= n,
            kept == totals_kept(n),
            rows@ == Seq::new(i as nat, |j: int| ask_row(n, j)),
        decreases n - i,
    {
        let total: Option<usize> = if i < kept {
            Some(kept - 1 - i)
        } else {
            None
        };
        rows.push(Row { level: n - 1 - i, total });
        i += 1;
        assert(rows@ =~= Seq::new(i as nat, |j: int| ask_row(n, j)));
    }
    rows
}

/// The rows of `n` bids, top to bottom.
pub fn bid_rows(n: usize) -> (r: Vec<Row>)
    ensures
        r@ == Seq::new(n as nat, |i: int| bid_row(n, i)),
{
    let kept: usize = if n < MAX_DISPLAY {
        n
    } else {
        MAX_DISPLAY
    };
    let mut rows: Vec<Row> = Vec::new();
    let mut i: usize = 0;
    while i < n
        invariant
            i <= n,
            kept == totals_kept(n),
            rows@ == Seq::new(i as nat, |j: int| bid_row(n, j)),
        decreases n - i,
    {
        let total: Option<usize> = if i < kept {
            Some(i)
        } else {
            None
        };
        rows.push(Row { level: i, total });
        i += 1;
        assert(rows@ =~= Seq::new(i as nat, |j: int| bid_row(n, j)));
    }
    rows
}

/// How many dashes stand on each side of the spread's text, to centre it.
pub fn spread_padding(text_len: usize) -> (r: usize)
    ensures
        r == if text_len < SPREAD_WIDTH {
            (SPREAD_WIDTH - text_len) / 2
        } else {
            0
        },
{
    if text_len < SPREAD_WIDTH {
        (SPREAD_WIDTH - text_len) / 2
    } else {
        0
    }
}

/// A key that was pressed.
#[derive(Debug, Clone, Copy, PartialEq, Eq, Structural)]
pub enum Key {
    Char(char),
    Escape,
    Other,
}

/// Whether a key ends the client: `q`, escape, or control with `c`.
pub fn ends_client(key: Key, control: bool) -> (r: bool)
    ensures
        r == (key == Key::Char('q') || key == Key::Escape || (key == Key::Char('c') && control)),
{
    match key {
        Key::Char(c) => c == 'q' || (c == 'c' && control),
        Key::Escape => true,
        Key::Other => false,
    }
}

/// Every level has one row. Bids stand best first from the top, asks best first from
/// the bottom, so that the best of both sides meet in the middle.
pub proof fn law_rows_meet_in_the_middle(n: usize, asks: Vec<Row>, bids: Vec<Row>, i: int)
    requires
        call_ensures(ask_rows, (n,), asks),
        call_ensures(bid_rows, (n,), bids),
        0 <= i < n,
    ensures
        asks@.len() == n,
        bids@.len() == n,
        bids@[i].level == i,
        asks@[i].level + i + 1 == n,
        asks@[i].level == bids@[n - 1 - i].level,
{
}

/// A side of at most ten levels shows every level with its own total; of more levels
/// the first ten rows of a side have the totals of its ten best levels, in the order
/// of the rows, and the others have none.
pub proof fn law_totals_in_rows(n: usize, asks: Vec<Row>, bids: Vec<Row>, i: int)
    requires
        call_ensures(ask_rows, (n,), asks),
        call_ensures(bid_rows, (n,), bids),
        0 <= i < n,
    ensures
        n <= 10 ==> asks@[i].total == Some(asks@[i].level) && bids@[i].total == Some(
            bids@[i].level,
        ),
        asks@[i].total is Some <==> i < 10,
        bids@[i].total is Some <==> i < 10,
        i < 10 ==> bids@[i].total->0 == i,
        n >= 10 && i < 10 ==> asks@[i].total->0 + i == 9,
{
}

/// The spread's text is centred: with the dashes on both sides it fills the width, up
/// to a place, and text that is too long has none.
pub proof fn law_spread_is_centred(text_len: usize, r: usize)
    requires
        call_ensures(spread_padding, (text_len,), r),
    ensures
        text_len <= 70 ==> 69 <= 2 * r + text_len <= 70,
        text_len >= 70 ==> r == 0,
{
}

/// A client counts every summary and shows the latest; its symbol and start stay.
pub proof fn law_client_shows_the_latest<S>(app: &mut App<S>, summary: S)
    requires
        call_ensures(App::<S>::on_summary, (app, summary), ()),
    ensures
        final(app).summary == Some(summary),
        final(app).updates == (old(app).updates + 1) % 0x1_0000_0000_0000_0000,
        final(app).start == old(app).start,
        final(app).symbol == old(app).symbol,
{
}

/// The client ends on `q` and on escape, on `c` only with control, and on no other
/// key.
pub proof fn law_keys(key: Key, control: bool, r: bool)
    requires
        call_ensures(ends_client, (key, control), r),
    ensures
        r ==> key == Key::Escape || key == Key::Char('q') || key == Key::Char('c'),
        key == Key::Char('c') ==> r == control,
        key == Key::Escape || key == Key::Char('q') ==> r,
{
}

} // verus!
