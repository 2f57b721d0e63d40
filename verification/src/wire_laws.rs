//! What the readers make of messages as the exchanges send them, and what holds of
//! whatever they accept: strings, numbers and levels, then whole messages up to the
//! book that an adapter gives.

use arrayvec::ArrayVec;
use memchr::memmem;
use vstd::prelude::*;
use vstd::string::*;

use crate::ascii::{CLOSE_BRACKET, COMMA, DOT, OPEN_BRACKET, QUOTE};
use crate::capped;
use crate::decimal;
use crate::exchange;
use crate::exchange::binance;
use crate::exchange::binance::BinanceHandler;
use crate::exchange::bitstamp;
use crate::exchange::bitstamp::BitstampHandler;
use crate::exchange::{HandleResult, Processed, WsHandler};
use crate::grammar;
use crate::json_walker;
use crate::json_walker::{Levels, Scanner, MAX_LEVELS};
use crate::metrics::ExchangeMetrics;
use crate::search;
use crate::text;
use crate::types;
use crate::types::{ExchangeId, FixedPoint, OrderBook, RawLevel, DEPTH};

verus! {

/// A text between quotes.
pub open spec fn quoted(t: Seq<u8>) -> Seq<u8> {
    seq![QUOTE] + t + seq![QUOTE]
}

/// A level: `["price","amount"]`.
pub open spec fn pair_json(pair: grammar::TextPair) -> Seq<u8> {
    seq![OPEN_BRACKET] + quoted(pair.0) + seq![COMMA] + quoted(pair.1) + seq![CLOSE_BRACKET]
}

/// Levels with commas between them.
pub open spec fn pairs_json(pairs: Seq<grammar::TextPair>) -> Seq<u8>
    decreases pairs.len(),
{
    if pairs.len() == 0 {
        Seq::empty()
    } else if pairs.len() == 1 {
        pair_json(pairs[0])
    } else {
        pair_json(pairs[0]) + seq![COMMA] + pairs_json(pairs.skip(1))
    }
}

/// One side of a book, as the exchanges send it.
pub open spec fn levels_json(pairs: Seq<grammar::TextPair>) -> Seq<u8> {
    seq![OPEN_BRACKET] + pairs_json(pairs) + seq![CLOSE_BRACKET]
}

/// Whether a text holds digits and points only.
pub open spec fn is_plain(t: Seq<u8>) -> bool {
    forall|i: int| 0 <= i < t.len() ==> decimal::is_digit(#[trigger] t[i]) || t[i] == DOT
}

/// Whether all texts of the levels do.
pub open spec fn all_plain(pairs: Seq<grammar::TextPair>) -> bool {
    forall|i: int|
        0 <= i < pairs.len() ==> is_plain((#[trigger] pairs[i]).0) && is_plain(pairs[i].1)
}

/// Whether all texts of the levels are decimal numbers that fit.
pub open spec fn all_decimal(pairs: Seq<grammar::TextPair>) -> bool {
    forall|i: int|
        0 <= i < pairs.len() ==> FixedPoint::spec_parse((#[trigger] pairs[i]).0) is Some
            && FixedPoint::spec_parse(pairs[i].1) is Some
}

/// What stands at a place stands there part by part.
proof fn lemma_occurs_concat(b: Seq<u8>, x: Seq<u8>, y: Seq<u8>, p: int)
    requires
        search::occurs_at(b, x + y, p),
    ensures
        search::occurs_at(b, x, p),
        search::occurs_at(b, y, p + x.len()),
{
    let t = x + y;
    assert forall|i: int| 0 <= i < t.len() implies b[p + i] == #[trigger] t[i] by {
        assert(b.subrange(p, p + t.len())[i] == t[i]);
    }
    assert(b.subrange(p, p + x.len()) =~= x) by {
        assert forall|i: int| 0 <= i < x.len() implies b[p + i] == x[i] by {
            assert(t[i] == x[i]);
        }
    }
    assert(b.subrange(p + x.len(), p + x.len() + y.len()) =~= y) by {
        assert forall|i: int| 0 <= i < y.len() implies b[p + x.len() + i] == y[i] by {
            assert(t[x.len() + i] == y[i]);
        }
    }
}

/// What stands at a place, byte by byte.
proof fn lemma_occurs_bytes(b: Seq<u8>, t: Seq<u8>, p: int)
    requires
        search::occurs_at(b, t, p),
    ensures
        0 <= p <= p + t.len() <= b.len(),
        forall|i: int| 0 <= i < t.len() ==> b[p + i] == #[trigger] t[i],
{
    assert forall|i: int| 0 <= i < t.len() implies b[p + i] == #[trigger] t[i] by {
        assert(b.subrange(p, p + t.len())[i] == t[i]);
    }
}

/// A number that fits holds digits and points only.
proof fn lemma_decimal_is_plain(t: Seq<u8>)
    requires
        FixedPoint::spec_parse(t) is Some,
    ensures
        is_plain(t),
{
    decimal::lemma_find_byte(t, DOT, 0);
    let dot = decimal::find_byte(t, DOT, 0);
    assert forall|i: int| 0 <= i < t.len() implies decimal::is_digit(#[trigger] t[i]) || t[i]
        == DOT by {
        if i < dot {
            assert(decimal::integer_part(t)[i] == t[i]);
        } else if i > dot {
            assert(decimal::fraction_part(t)[i - dot - 1] == t[i]);
        }
    }
}

/// Digits whose value fits are read to their end.
proof fn lemma_integer_stop_at(b: Seq<u8>, d: Seq<u8>, start: int, k: int)
    requires
        search::occurs_at(b, d, start),
        decimal::all_digits(d),
        decimal::digits_value(d) <= u64::MAX,
        0 <= k <= d.len(),
        start + d.len() < b.len() ==> !decimal::is_digit(b[start + d.len()]),
    ensures
        grammar::integer_stop(b, start + k, decimal::digits_value(d.take(k))) == start + d.len(),
    decreases d.len() - k,
{
    lemma_occurs_bytes(b, d, start);
    if k < d.len() {
        assert(b[start + k] == d[k]);
        decimal::lemma_digits_value_push(d, k);
        decimal::lemma_digits_value_monotone(d, k + 1);
        lemma_integer_stop_at(b, d, start, k + 1);
    }
}

proof fn lemma_digits_end_at(b: Seq<u8>, d: Seq<u8>, start: int, k: int)
    requires
        search::occurs_at(b, d, start),
        decimal::all_digits(d),
        0 <= k <= d.len(),
        start + d.len() < b.len() ==> !decimal::is_digit(b[start + d.len()]),
    ensures
        grammar::digits_end(b, start + k) == start + d.len(),
    decreases d.len() - k,
{
    lemma_occurs_bytes(b, d, start);
    if k < d.len() {
        assert(b[start + k] == d[k]);
        lemma_digits_end_at(b, d, start, k + 1);
    }
}

/// A quoted decimal reads as its value, up to behind the closing quote.
pub proof fn law_quoted_decimal(b: Seq<u8>, t: Seq<u8>, p: int)
    requires
        search::occurs_at(b, quoted(t), p),
        FixedPoint::spec_parse(t) is Some,
    ensures
        grammar::quoted_decimal_at(b, p) == (FixedPoint::spec_parse(t), p + t.len() + 2),
{
    let q = quoted(t);
    lemma_occurs_bytes(b, q, p);
    lemma_decimal_is_plain(t);
    let start = p + 1;
    let end = start + t.len();
    assert(b[p] == q[0]);
    assert(b[end] == q[t.len() as int + 1]);
    assert forall|j: int| start <= j < end implies b[j] == t[j - start] by {
        assert(b[p + (j - p)] == q[j - p]);
    }
    decimal::lemma_find_byte_is(b, QUOTE, start, end);
    assert(b.subrange(start, end) =~= t);
    // Where reading stops.
    decimal::lemma_find_byte(t, DOT, 0);
    let dot = decimal::find_byte(t, DOT, 0);
    let int_digits = decimal::integer_part(t);
    assert(b.subrange(start, start + dot) =~= int_digits);
    decimal::lemma_fraction_value_bound(decimal::fraction_part(t));
    decimal::lemma_digits_value_nonneg(int_digits);
    assert(int_digits.take(0) =~= Seq::empty());
    if dot < t.len() {
        assert(b[start + dot] == DOT);
    }
    lemma_integer_stop_at(b, int_digits, start, 0);
    if dot < t.len() {
        let frac = decimal::fraction_part(t);
        assert(b.subrange(start + dot + 1, end) =~= frac);
        lemma_digits_end_at(b, frac, start + dot + 1, 0);
    }
}

/// A level in compact JSON reads as its price and amount.
proof fn lemma_pair(b: Seq<u8>, pair: grammar::TextPair, p: int)
    requires
        search::occurs_at(b, pair_json(pair), p),
        FixedPoint::spec_parse(pair.0) is Some,
        FixedPoint::spec_parse(pair.1) is Some,
    ensures
        grammar::pair_at(b, p) == (
            Some(
                RawLevel {
                    price: FixedPoint::spec_parse(pair.0)->0,
                    amount: FixedPoint::spec_parse(pair.1)->0,
                },
            ),
            p + pair_json(pair).len(),
        ),
{
    let a = seq![OPEN_BRACKET];
    let c = seq![COMMA];
    let e = seq![CLOSE_BRACKET];
    let x = a + quoted(pair.0);
    let y = x + c;
    let z = y + quoted(pair.1);
    lemma_occurs_concat(b, z, e, p);
    lemma_occurs_concat(b, y, quoted(pair.1), p);
    lemma_occurs_concat(b, x, c, p);
    lemma_occurs_concat(b, a, quoted(pair.0), p);
    lemma_occurs_bytes(b, a, p);
    lemma_occurs_bytes(b, c, p + x.len());
    lemma_occurs_bytes(b, e, p + z.len());
    assert(b[p + 0] == a[0]);
    assert(b[p + x.len() + 0] == c[0]);
    assert(b[p + z.len() + 0] == e[0]);
    law_quoted_decimal(b, pair.0, p + 1);
    law_quoted_decimal(b, pair.1, p + y.len());
}

/// Levels in compact JSON, behind those in `acc`, read as what their texts stand
/// for; reading stops among them or behind the bracket that closes them.
proof fn lemma_pairs(
    b: Seq<u8>,
    pairs: Seq<grammar::TextPair>,
    p: int,
    acc: Seq<RawLevel>,
    n: nat,
)
    requires
        pairs.len() > 0,
        acc.len() <= n,
        all_decimal(pairs),
        search::occurs_at(b, pairs_json(pairs) + seq![CLOSE_BRACKET], p),
    ensures
        grammar::pairs_from(b, p, acc, n).0 == exchange::levels_of_texts(pairs, acc, n),
        grammar::pairs_from(b, p, acc, n).0 is Some,
        p <= grammar::pairs_from(b, p, acc, n).1 <= p + pairs_json(pairs).len() + 1,
    decreases pairs.len(),
{
    let pair = pairs[0];
    let here = pair_json(pair);
    let close = seq![CLOSE_BRACKET];
    let rest = pairs.skip(1);
    let level = RawLevel {
        price: FixedPoint::spec_parse(pair.0)->0,
        amount: FixedPoint::spec_parse(pair.1)->0,
    };
    let levels = grammar::with_nonzero(acc, level);
    let behind = p + here.len();
    if pairs.len() == 1 {
        lemma_occurs_concat(b, here, close, p);
        lemma_occurs_bytes(b, close, behind);
        assert(b[behind + 0] == close[0]);
        lemma_pair(b, pair, p);
        assert(exchange::levels_of_texts(rest, levels, n) == Some(levels));
    } else {
        let comma = seq![COMMA];
        let tail = pairs_json(rest) + close;
        assert(pairs_json(pairs) + close =~= here + (comma + tail));
        lemma_occurs_concat(b, here, comma + tail, p);
        lemma_occurs_concat(b, comma, tail, behind);
        lemma_occurs_bytes(b, comma, behind);
        assert(b[behind + 0] == comma[0]);
        lemma_pair(b, pair, p);
        if levels.len() < n {
            assert forall|i: int| 0 <= i < rest.len() implies FixedPoint::spec_parse(
                (#[trigger] rest[i]).0,
            ) is Some && FixedPoint::spec_parse(rest[i].1) is Some by {
                assert(rest[i] == pairs[i + 1]);
            }
            lemma_pairs(b, rest, behind + 1, levels, n);
        } else {
            assert(exchange::levels_of_texts(rest, levels, n) == Some(levels));
            lemma_occurs_bytes(b, tail, behind + 1);
        }
    }
}

/// The levels that pairs of decimal texts stand for.
pub open spec fn parsed(pairs: Seq<grammar::TextPair>) -> Seq<RawLevel> {
    pairs.map_values(
        |pair: grammar::TextPair|
            RawLevel {
                price: FixedPoint::spec_parse(pair.0)->0,
                amount: FixedPoint::spec_parse(pair.1)->0,
            },
    )
}

/// The levels whose amount is not zero, in their order.
pub open spec fn nonzero(levels: Seq<RawLevel>) -> Seq<RawLevel> {
    levels.filter(|l: RawLevel| l.amount.0 != 0)
}

/// The first `n` levels, or all where there are fewer.
pub open spec fn first_levels(levels: Seq<RawLevel>, n: nat) -> Seq<RawLevel> {
    if levels.len() <= n {
        levels
    } else {
        levels.take(n as int)
    }
}

/// Pairs of decimal texts stand for the first `n` of their levels with a nonzero
/// amount, in their order.
pub proof fn law_first_nonzero(pairs: Seq<grammar::TextPair>, acc: Seq<RawLevel>, n: nat)
    requires
        all_decimal(pairs),
        acc.len() <= n,
    ensures
        exchange::levels_of_texts(pairs, acc, n) == Some(
            first_levels(acc + nonzero(parsed(pairs)), n),
        ),
    decreases pairs.len(),
{
    let all = parsed(pairs);
    let pred = |l: RawLevel| l.amount.0 != 0;
    if pairs.len() == 0 {
        assert(nonzero(all) =~= Seq::empty());
        assert(acc + nonzero(all) =~= acc);
    } else if acc.len() == n {
        assert(first_levels(acc + nonzero(all), n) =~= acc);
    } else {
        let rest = pairs.skip(1);
        assert forall|i: int| 0 <= i < rest.len() implies FixedPoint::spec_parse(
            (#[trigger] rest[i]).0,
        ) is Some && FixedPoint::spec_parse(rest[i].1) is Some by {
            assert(rest[i] == pairs[i + 1]);
        }
        assert(all =~= seq![all[0]] + parsed(rest));
        Seq::filter_distributes_over_add(seq![all[0]], parsed(rest), pred);
        reveal_with_fuel(Seq::filter, 2);
        assert(seq![all[0]].drop_last() =~= Seq::empty());
        let levels = grammar::with_nonzero(acc, all[0]);
        law_first_nonzero(rest, levels, n);
        assert(acc + nonzero(all) =~= levels + nonzero(parsed(rest)));
    }
}

/// One side of a book in compact JSON reads as what its texts stand for: the
/// first `n` levels with a nonzero amount, in their order.
pub proof fn law_raw_levels(b: Seq<u8>, pairs: Seq<grammar::TextPair>, p: int, n: nat)
    requires
        all_decimal(pairs),
        search::occurs_at(b, levels_json(pairs), p),
    ensures
        grammar::raw_levels_at(b, p, n).0 == exchange::levels_of_texts(pairs, Seq::empty(), n),
        grammar::raw_levels_at(b, p, n).0 == Some(first_levels(nonzero(parsed(pairs)), n)),
        p <= grammar::raw_levels_at(b, p, n).1 <= p + levels_json(pairs).len(),
{
    let open = seq![OPEN_BRACKET];
    let close = seq![CLOSE_BRACKET];
    law_first_nonzero(pairs, Seq::empty(), n);
    assert(Seq::empty() + nonzero(parsed(pairs)) =~= nonzero(parsed(pairs)));
    assert(levels_json(pairs) =~= open + (pairs_json(pairs) + close));
    lemma_occurs_concat(b, open, pairs_json(pairs) + close, p);
    lemma_occurs_bytes(b, open, p);
    assert(b[p + 0] == open[0]);
    lemma_occurs_bytes(b, pairs_json(pairs) + close, p + 1);
    assert(b[p + 1 + 0] == (pairs_json(pairs) + close)[0]);
    if pairs.len() > 0 {
        assert(pairs_json(pairs)[0] == OPEN_BRACKET);
        lemma_pairs(b, pairs, p + 1, Seq::empty(), n);
    } else {
        assert(exchange::levels_of_texts(pairs, Seq::empty(), n) == Some(Seq::<RawLevel>::empty()));
    }
}

/// A text without quotes and backslashes ends at the quote behind it.
proof fn lemma_string_end_plain(b: Seq<u8>, i: int, end: int)
    requires
        0 <= i <= end < b.len(),
        forall|j: int| i <= j < end ==> decimal::is_digit(#[trigger] b[j]) || b[j] == DOT,
        b[end] == QUOTE,
    ensures
        grammar::string_end(b, i) == end,
    decreases end - i,
{
    if i < end {
        lemma_string_end_plain(b, i + 1, end);
    }
}

/// A quoted text of digits and points reads as that text.
proof fn lemma_string(b: Seq<u8>, t: Seq<u8>, p: int)
    requires
        search::occurs_at(b, quoted(t), p),
        is_plain(t),
    ensures
        grammar::after_space(b, p) == p,
        grammar::string_at(b, p) == (Some(t), p + t.len() + 2),
{
    let q = quoted(t);
    lemma_occurs_bytes(b, q, p);
    let start = p + 1;
    let end = start + t.len();
    assert(b[p + 0] == q[0]);
    assert(b[p + (t.len() + 1)] == q[t.len() as int + 1]);
    assert forall|j: int| start <= j < end implies decimal::is_digit(#[trigger] b[j]) || b[j]
        == DOT by {
        assert(b[p + (j - p)] == q[j - p]);
        assert(q[j - p] == t[j - start]);
    }
    lemma_string_end_plain(b, start, end);
    assert(b.subrange(start, end) =~= t) by {
        assert forall|j: int| 0 <= j < t.len() implies b[start + j] == t[j] by {
            assert(b[p + (j + 1)] == q[j + 1]);
        }
    }
}

/// A level in compact JSON reads as its two texts.
proof fn lemma_text_pair(b: Seq<u8>, pair: grammar::TextPair, p: int)
    requires
        search::occurs_at(b, pair_json(pair), p),
        is_plain(pair.0),
        is_plain(pair.1),
    ensures
        grammar::text_pair_at(b, p) == (Some(pair), p + pair_json(pair).len()),
{
    let a = seq![OPEN_BRACKET];
    let c = seq![COMMA];
    let e = seq![CLOSE_BRACKET];
    let x = a + quoted(pair.0);
    let y = x + c;
    let z = y + quoted(pair.1);
    lemma_occurs_concat(b, z, e, p);
    lemma_occurs_concat(b, y, quoted(pair.1), p);
    lemma_occurs_concat(b, x, c, p);
    lemma_occurs_concat(b, a, quoted(pair.0), p);
    lemma_occurs_bytes(b, a, p);
    lemma_occurs_bytes(b, c, p + x.len());
    lemma_occurs_bytes(b, e, p + z.len());
    assert(b[p + 0] == a[0]);
    assert(b[p + x.len() + 0] == c[0]);
    assert(b[p + z.len() + 0] == e[0]);
    lemma_string(b, pair.0, p + 1);
    lemma_string(b, pair.1, p + y.len());
}

/// The first `n` of a list of levels, or all where there are fewer.
pub open spec fn first_texts(pairs: Seq<grammar::TextPair>, n: nat) -> Seq<grammar::TextPair> {
    if pairs.len() <= n {
        pairs
    } else {
        pairs.take(n as int)
    }
}

proof fn lemma_text_pairs(
    b: Seq<u8>,
    pairs: Seq<grammar::TextPair>,
    p: int,
    acc: Seq<grammar::TextPair>,
    n: nat,
)
    requires
        pairs.len() > 0,
        acc.len() <= n,
        all_plain(pairs),
        search::occurs_at(b, pairs_json(pairs) + seq![CLOSE_BRACKET], p),
    ensures
        grammar::text_pairs_from(b, p, acc, n).0 == Some(first_texts(acc + pairs, n)),
        p <= grammar::text_pairs_from(b, p, acc, n).1 <= p + pairs_json(pairs).len() + 1,
    decreases pairs.len(),
{
    let pair = pairs[0];
    let here = pair_json(pair);
    let close = seq![CLOSE_BRACKET];
    let rest = pairs.skip(1);
    let levels = acc.push(pair);
    let behind = p + here.len();
    assert(is_plain(pairs[0].0) && is_plain(pairs[0].1));
    if pairs.len() == 1 {
        lemma_occurs_concat(b, here, close, p);
        lemma_occurs_bytes(b, close, behind);
        assert(b[behind + 0] == close[0]);
        lemma_text_pair(b, pair, p);
        assert(acc + pairs =~= levels);
        assert(levels.take(acc.len() as int) =~= acc);
    } else {
        let comma = seq![COMMA];
        let tail = pairs_json(rest) + close;
        assert(pairs_json(pairs) + close =~= here + (comma + tail));
        lemma_occurs_concat(b, here, comma + tail, p);
        lemma_occurs_concat(b, comma, tail, behind);
        lemma_occurs_bytes(b, comma, behind);
        assert(b[behind + 0] == comma[0]);
        lemma_text_pair(b, pair, p);
        if levels.len() < n {
            assert forall|i: int| 0 <= i < rest.len() implies is_plain((#[trigger] rest[i]).0)
                && is_plain(rest[i].1) by {
                assert(rest[i] == pairs[i + 1]);
            }
            lemma_text_pairs(b, rest, behind + 1, levels, n);
            assert(levels + rest =~= acc + pairs);
        } else {
            assert(first_texts(acc + pairs, n) =~= levels.take(n as int));
            assert(levels.take(acc.len() as int) =~= acc);
            assert(levels.take(levels.len() as int) =~= levels);
            lemma_occurs_bytes(b, tail, behind + 1);
        }
    }
}

/// One side of a book in compact JSON reads as the texts of its first `n`
/// levels.
pub proof fn law_text_levels(b: Seq<u8>, pairs: Seq<grammar::TextPair>, p: int, n: nat)
    requires
        all_plain(pairs),
        search::occurs_at(b, levels_json(pairs), p),
    ensures
        grammar::text_levels_at(b, p, n).0 == Some(first_texts(pairs, n)),
        p <= grammar::text_levels_at(b, p, n).1 <= p + levels_json(pairs).len(),
{
    let open = seq![OPEN_BRACKET];
    let close = seq![CLOSE_BRACKET];
    assert(levels_json(pairs) =~= open + (pairs_json(pairs) + close));
    lemma_occurs_concat(b, open, pairs_json(pairs) + close, p);
    lemma_occurs_bytes(b, open, p);
    assert(b[p + 0] == open[0]);
    lemma_occurs_bytes(b, pairs_json(pairs) + close, p + 1);
    assert(b[p + 1 + 0] == (pairs_json(pairs) + close)[0]);
    if pairs.len() > 0 {
        assert(pairs_json(pairs)[0] == OPEN_BRACKET);
        lemma_text_pairs(b, pairs, p + 1, Seq::empty(), n);
        assert(Seq::<grammar::TextPair>::empty() + pairs =~= pairs);
    } else {
        assert(first_texts(pairs, n) =~= Seq::empty());
    }
}

/// Levels that are read behind those in `acc` keep `acc` in front. Whatever reads
/// with room for `n` reads with room for `m`, and gives the first `m` of its
/// levels.
proof fn lemma_pairs_capacity(b: Seq<u8>, p: int, acc: Seq<RawLevel>, m: nat, n: nat)
    requires
        acc.len() <= m <= n,
        grammar::pairs_from(b, p, acc, n).0 is Some,
    ensures
        acc.len() <= grammar::pairs_from(b, p, acc, n).0->0.len(),
        grammar::pairs_from(b, p, acc, n).0->0.take(acc.len() as int) == acc,
        grammar::pairs_from(b, p, acc, m).0 == Some(
            first_levels(grammar::pairs_from(b, p, acc, n).0->0, m),
        ),
    decreases b.len() - p,
{
    let (pair, behind) = grammar::pair_at(b, p);
    let levels = grammar::with_nonzero(acc, pair->0);
    let all = grammar::pairs_from(b, p, acc, n).0->0;
    grammar::lemma_pair_end(b, p);
    assert(acc.take(acc.len() as int) =~= acc);
    assert(levels.take(acc.len() as int) =~= acc);
    assert(levels.take(levels.len() as int) =~= levels);
    if levels.len() < n && grammar::byte_at(b, behind, COMMA) {
        let room = if levels.len() <= m {
            m
        } else {
            levels.len()
        };
        lemma_pairs_capacity(b, behind + 1, levels, room, n);
        assert(all.take(levels.len() as int).take(acc.len() as int) =~= all.take(
            acc.len() as int,
        ));
    }
}

/// Where a reader of prices and amounts with room for `n` levels can read a side,
/// one with less room can too, and gives the first of the same levels. The same
/// holds of the reader that looks for a key first.
pub proof fn law_raw_levels_capacity(b: Seq<u8>, key: Seq<u8>, p: int, m: nat, n: nat)
    requires
        m <= n,
    ensures
        grammar::raw_levels_at(b, p, n).0 is Some ==> grammar::raw_levels_at(b, p, m).0 == Some(
            first_levels(grammar::raw_levels_at(b, p, n).0->0, m),
        ),
        grammar::optional_raw_levels_at(b, key, p, n).0 is Some
            ==> grammar::optional_raw_levels_at(b, key, p, m).0 == Some(
            first_levels(grammar::optional_raw_levels_at(b, key, p, n).0->0, m),
        ),
{
    let at = match search::find_from(b, key, p) {
        Some(at) => at + key.len(),
        None => p,
    };
    if grammar::raw_levels_at(b, p, n).0 is Some && !grammar::byte_at(b, p + 1, CLOSE_BRACKET) {
        lemma_pairs_capacity(b, p + 1, Seq::empty(), m, n);
    }
    if grammar::raw_levels_at(b, at, n).0 is Some && !grammar::byte_at(b, at + 1, CLOSE_BRACKET) {
        lemma_pairs_capacity(b, at + 1, Seq::empty(), m, n);
    }
}

proof fn lemma_text_pairs_capacity(
    b: Seq<u8>,
    p: int,
    acc: Seq<grammar::TextPair>,
    m: nat,
    n: nat,
)
    requires
        acc.len() <= m <= n,
        grammar::text_pairs_from(b, p, acc, n).0 is Some,
    ensures
        acc.len() <= grammar::text_pairs_from(b, p, acc, n).0->0.len(),
        grammar::text_pairs_from(b, p, acc, n).0->0.take(acc.len() as int) == acc,
        grammar::text_pairs_from(b, p, acc, m).0 == Some(
            first_texts(grammar::text_pairs_from(b, p, acc, n).0->0, m),
        ),
    decreases b.len() - p,
{
    let (pair, behind) = grammar::text_pair_at(b, p);
    let levels = acc.push(pair->0);
    let next = grammar::after_space(b, behind);
    let all = grammar::text_pairs_from(b, p, acc, n).0->0;
    grammar::lemma_text_pair_end(b, p);
    grammar::lemma_after_space(b, behind);
    assert(acc.take(acc.len() as int) =~= acc);
    assert(levels.take(acc.len() as int) =~= acc);
    assert(levels.take(levels.len() as int) =~= levels);
    if levels.len() < n && grammar::byte_at(b, next, COMMA) {
        let room = if levels.len() <= m {
            m
        } else {
            levels.len()
        };
        lemma_text_pairs_capacity(b, next + 1, levels, room, n);
        assert(all.take(levels.len() as int).take(acc.len() as int) =~= all.take(
            acc.len() as int,
        ));
    }
}

/// Where a reader of level texts with room for `n` levels can read a side, one
/// with less room can too, and gives the first of the same texts.
pub proof fn law_text_levels_capacity(b: Seq<u8>, p: int, m: nat, n: nat)
    requires
        m <= n,
        grammar::text_levels_at(b, p, n).0 is Some,
    ensures
        grammar::text_levels_at(b, p, m).0 == Some(
            first_texts(grammar::text_levels_at(b, p, n).0->0, m),
        ),
{
    let first = grammar::after_space(b, grammar::after_space(b, p) + 1);
    if !grammar::byte_at(b, first, CLOSE_BRACKET) {
        lemma_text_pairs_capacity(b, first, Seq::empty(), m, n);
    }
}

/// Whether a byte can stand in the levels of a book.
pub open spec fn is_level_byte(x: u8) -> bool {
    decimal::is_digit(x) || x == DOT || x == QUOTE || x == COMMA || x == OPEN_BRACKET || x
        == CLOSE_BRACKET
}

proof fn lemma_pairs_bytes(pairs: Seq<grammar::TextPair>)
    requires
        all_plain(pairs),
    ensures
        forall|i: int|
            0 <= i < pairs_json(pairs).len() ==> is_level_byte(#[trigger] pairs_json(pairs)[i]),
    decreases pairs.len(),
{
    if pairs.len() > 0 {
        let pair = pairs[0];
        assert(is_plain(pairs[0].0) && is_plain(pairs[0].1));
        let here = pair_json(pair);
        assert forall|i: int| 0 <= i < here.len() implies is_level_byte(#[trigger] here[i]) by {
            let m = pair.0.len() as int;
            if 2 <= i < m + 2 {
                assert(here[i] == pair.0[i - 2]);
            } else if m + 5 <= i < here.len() - 2 {
                assert(here[i] == pair.1[i - m - 5]);
            }
        }
        if pairs.len() > 1 {
            let rest = pairs.skip(1);
            assert forall|i: int| 0 <= i < rest.len() implies is_plain((#[trigger] rest[i]).0)
                && is_plain(rest[i].1) by {
                assert(rest[i] == pairs[i + 1]);
            }
            lemma_pairs_bytes(rest);
            let all = pairs_json(pairs);
            assert forall|i: int| 0 <= i < all.len() implies is_level_byte(#[trigger] all[i]) by {
                if i < here.len() {
                    assert(all[i] == here[i]);
                } else if i > here.len() {
                    assert(all[i] == pairs_json(rest)[i - here.len() - 1]);
                }
            }
        }
    }
}

/// The levels of a book hold no letters, and end with a bracket.
proof fn lemma_levels_bytes(pairs: Seq<grammar::TextPair>)
    requires
        all_plain(pairs),
    ensures
        forall|i: int|
            0 <= i < levels_json(pairs).len() ==> is_level_byte(#[trigger] levels_json(pairs)[i]),
        levels_json(pairs).len() > 0,
        levels_json(pairs).last() == CLOSE_BRACKET,
{
    lemma_pairs_bytes(pairs);
    let all = levels_json(pairs);
    assert forall|i: int| 0 <= i < all.len() implies is_level_byte(#[trigger] all[i]) by {
        if 0 < i < all.len() - 1 {
            assert(all[i] == pairs_json(pairs)[i - 1]);
        }
    }
}

/// A key starts with a quote and a letter.
pub open spec fn is_key(key: Seq<u8>) -> bool {
    &&& key.len() >= 2
    &&& key[0] == QUOTE
    &&& !is_level_byte(key[1])
}

/// A key behind a comma, behind the levels of a book, is found from anywhere in
/// those levels.
proof fn lemma_find_key_behind(
    b: Seq<u8>,
    key: Seq<u8>,
    pairs: Seq<grammar::TextPair>,
    p: int,
    from: int,
)
    requires
        is_key(key),
        all_plain(pairs),
        search::occurs_at(b, levels_json(pairs) + seq![COMMA] + key, p),
        p <= from <= p + levels_json(pairs).len(),
    ensures
        search::find_from(b, key, from) == Some(p + levels_json(pairs).len() + 1),
        search::occurs_at(b, key, p + levels_json(pairs).len() + 1),
{
    let levels = levels_json(pairs);
    let comma = seq![COMMA];
    let at = p + levels.len() + 1;
    lemma_occurs_concat(b, levels + comma, key, p);
    lemma_occurs_concat(b, levels, comma, p);
    lemma_occurs_bytes(b, levels, p);
    lemma_occurs_bytes(b, comma, p + levels.len());
    assert(b[p + levels.len() + 0] == comma[0]);
    lemma_levels_bytes(pairs);
    assert forall|j: int| from <= j < at implies !search::occurs_at(b, key, j) by {
        if search::occurs_at(b, key, j) {
            lemma_occurs_bytes(b, key, j);
            assert(b[j + 0] == key[0]);
            assert(b[j + 1] == key[1]);
            if j < at - 1 {
                assert(b[p + (j - p)] == levels[j - p]);
                if j < at - 2 {
                    assert(b[p + (j + 1 - p)] == levels[j + 1 - p]);
                }
            }
        }
    }
    search::lemma_find_from(b, key, from, at);
}

/// A key right behind a comma is found from the comma.
proof fn lemma_find_key(b: Seq<u8>, key: Seq<u8>, p: int)
    requires
        is_key(key),
        search::occurs_at(b, seq![COMMA] + key, p),
    ensures
        search::find_from(b, key, p) == Some(p + 1),
        search::occurs_at(b, key, p + 1),
{
    let comma = seq![COMMA];
    lemma_occurs_concat(b, comma, key, p);
    lemma_occurs_bytes(b, comma, p);
    assert(b[p + 0] == comma[0]);
    assert forall|j: int| p <= j < p + 1 implies !search::occurs_at(b, key, j) by {
        if search::occurs_at(b, key, j) {
            lemma_occurs_bytes(b, key, j);
            assert(b[j + 0] == key[0]);
        }
    }
    search::lemma_find_from(b, key, p, p + 1);
}

/// Digits whose value fits are read as that value.
proof fn lemma_number(b: Seq<u8>, d: Seq<u8>, start: int, k: int)
    requires
        search::occurs_at(b, d, start),
        decimal::all_digits(d),
        decimal::digits_value(d) <= u64::MAX,
        0 <= k <= d.len(),
        start + d.len() < b.len() ==> !decimal::is_digit(b[start + d.len()]),
    ensures
        grammar::number_from(b, start + k, decimal::digits_value(d.take(k))) == (
            decimal::digits_value(d),
            start + d.len(),
        ),
    decreases d.len() - k,
{
    lemma_occurs_bytes(b, d, start);
    if k < d.len() {
        assert(b[start + k] == d[k]);
        decimal::lemma_digits_value_push(d, k);
        decimal::lemma_digits_value_monotone(d, k + 1);
        lemma_number(b, d, start, k + 1);
    } else {
        assert(d.take(k) =~= d);
    }
}

proof fn lemma_keys()
    ensures
        is_key(binance::last_update_id_key()),
        is_key(binance::bids_key()),
        is_key(binance::asks_key()),
        is_key(bitstamp::microtimestamp_key()),
        is_key(bitstamp::bids_key()),
        is_key(bitstamp::asks_key()),
{
    reveal_strlit("\"lastUpdateId\":");
    reveal_strlit("\"bids\":");
    reveal_strlit("\"asks\":");
    reveal_strlit("\"microtimestamp\":");
    text::lemma_ascii_bytes("\"lastUpdateId\":"@);
    text::lemma_ascii_bytes("\"bids\":"@);
    text::lemma_ascii_bytes("\"asks\":"@);
    text::lemma_ascii_bytes("\"microtimestamp\":"@);
}

/// Both sides of a book with their keys, as they stand in a message of either
/// exchange.
pub open spec fn sides_json(
    bids_key: Seq<u8>,
    bids: Seq<grammar::TextPair>,
    asks_key: Seq<u8>,
    asks: Seq<grammar::TextPair>,
) -> Seq<u8> {
    seq![COMMA] + bids_key + levels_json(bids) + seq![COMMA] + asks_key + levels_json(asks)
}

/// Where the parts of both sides stand.
proof fn lemma_sides(
    b: Seq<u8>,
    bids_key: Seq<u8>,
    bids: Seq<grammar::TextPair>,
    asks_key: Seq<u8>,
    asks: Seq<grammar::TextPair>,
    p: int,
)
    requires
        search::occurs_at(b, sides_json(bids_key, bids, asks_key, asks), p),
    ensures
        search::occurs_at(b, seq![COMMA] + bids_key, p),
        search::occurs_at(b, levels_json(bids), p + 1 + bids_key.len()),
        search::occurs_at(
            b,
            levels_json(bids) + seq![COMMA] + asks_key,
            p + 1 + bids_key.len(),
        ),
        search::occurs_at(
            b,
            levels_json(asks),
            p + 2 + bids_key.len() + levels_json(bids).len() + asks_key.len(),
        ),
{
    let head = seq![COMMA] + bids_key;
    let middle = levels_json(bids) + seq![COMMA] + asks_key;
    let last = levels_json(asks);
    assert(sides_json(bids_key, bids, asks_key, asks) =~= (head + middle) + last);
    lemma_occurs_concat(b, head + middle, last, p);
    lemma_occurs_concat(b, head, middle, p);
    lemma_occurs_concat(b, levels_json(bids) + seq![COMMA], asks_key, p + head.len());
    lemma_occurs_concat(b, levels_json(bids), seq![COMMA], p + head.len());
}

/// A depth message of Binance, with anything in front that does not hold its
/// first key, and anything behind: it reads as its sequence number and the texts
/// of its levels.
pub proof fn law_binance_message(
    b: Seq<u8>,
    digits: Seq<u8>,
    bids: Seq<grammar::TextPair>,
    asks: Seq<grammar::TextPair>,
    at: int,
)
    requires
        search::first_at(b, binance::last_update_id_key(), 0, at),
        search::occurs_at(
            b,
            binance::last_update_id_key() + digits + sides_json(
                binance::bids_key(),
                bids,
                binance::asks_key(),
                asks,
            ),
            at,
        ),
        digits.len() > 0,
        decimal::all_digits(digits),
        decimal::digits_value(digits) <= u64::MAX,
        all_plain(bids),
        all_plain(asks),
    ensures
        binance::walk_of(b) == Some(
            (
                decimal::digits_value(digits) as u64,
                first_texts(bids, MAX_LEVELS as nat),
                first_texts(asks, MAX_LEVELS as nat),
            ),
        ),
        BinanceHandler::frame_of(b) == (exchange::Frame::Snapshot {
            seq: decimal::digits_value(digits) as u64,
            levels: exchange::sides_of_texts(
                first_texts(bids, MAX_LEVELS as nat),
                first_texts(asks, MAX_LEVELS as nat),
            ),
        }),
{
    lemma_keys();
    let key = binance::last_update_id_key();
    let bids_key = binance::bids_key();
    let asks_key = binance::asks_key();
    let sides = sides_json(bids_key, bids, asks_key, asks);
    lemma_occurs_concat(b, key + digits, sides, at);
    lemma_occurs_concat(b, key, digits, at);
    search::lemma_find_from(b, key, 0, at);
    let start = at + key.len();
    let p = start + digits.len();
    lemma_occurs_bytes(b, digits, start);
    lemma_occurs_bytes(b, sides, p);
    assert(b[start + 0] == digits[0]);
    assert(b[p + 0] == sides[0]);
    decimal::lemma_digits_value_nonneg(digits);
    assert(digits.take(0) =~= Seq::empty());
    lemma_number(b, digits, start, 0);
    lemma_sides(b, bids_key, bids, asks_key, asks, p);
    lemma_find_key(b, bids_key, p);
    let first = p + 1 + bids_key.len();
    law_text_levels(b, bids, first, MAX_LEVELS as nat);
    let from = grammar::text_levels_at(b, first, MAX_LEVELS as nat).1;
    lemma_find_key_behind(b, asks_key, bids, first, from);
    law_text_levels(
        b,
        asks,
        first + levels_json(bids).len() + 1 + asks_key.len(),
        MAX_LEVELS as nat,
    );
}

/// A data message of Bitstamp, with anything in front that does not hold its
/// first key, and anything behind: it reads as its timestamp and what its levels
/// stand for.
pub proof fn law_bitstamp_message(
    b: Seq<u8>,
    digits: Seq<u8>,
    bids: Seq<grammar::TextPair>,
    asks: Seq<grammar::TextPair>,
    at: int,
)
    requires
        search::first_at(b, bitstamp::microtimestamp_key(), 0, at),
        search::occurs_at(
            b,
            bitstamp::microtimestamp_key() + quoted(digits) + sides_json(
                bitstamp::bids_key(),
                bids,
                bitstamp::asks_key(),
                asks,
            ),
            at,
        ),
        digits.len() > 0,
        decimal::all_digits(digits),
        decimal::digits_value(digits) <= u64::MAX,
        all_decimal(bids),
        all_decimal(asks),
    ensures
        exchange::sides_of_texts(bids, asks) is Some,
        BitstampHandler::frame_of(b) == (exchange::Frame::Snapshot {
            seq: decimal::digits_value(digits) as u64,
            levels: exchange::sides_of_texts(bids, asks),
        }),
{
    lemma_keys();
    let key = bitstamp::microtimestamp_key();
    let bids_key = bitstamp::bids_key();
    let asks_key = bitstamp::asks_key();
    let sides = sides_json(bids_key, bids, asks_key, asks);
    lemma_occurs_concat(b, key + quoted(digits), sides, at);
    lemma_occurs_concat(b, key, quoted(digits), at);
    search::lemma_find_from(b, key, 0, at);
    let start = at + key.len();
    let p = start + digits.len() + 2;
    assert(is_plain(digits));
    lemma_string(b, digits, start);
    assert(decimal::is_digit(digits[0]));
    lemma_sides(b, bids_key, bids, asks_key, asks, p);
    lemma_find_key(b, bids_key, p);
    lemma_all_decimal_is_plain(bids);
    let first = p + 1 + bids_key.len();
    law_raw_levels(b, bids, first, DEPTH as nat);
    let from = grammar::raw_levels_at(b, first, DEPTH as nat).1;
    lemma_find_key_behind(b, asks_key, bids, first, from);
    law_raw_levels(
        b,
        asks,
        first + levels_json(bids).len() + 1 + asks_key.len(),
        DEPTH as nat,
    );
}

proof fn lemma_all_decimal_is_plain(pairs: Seq<grammar::TextPair>)
    requires
        all_decimal(pairs),
    ensures
        all_plain(pairs),
{
    assert forall|i: int| 0 <= i < pairs.len() implies is_plain((#[trigger] pairs[i]).0)
        && is_plain(pairs[i].1) by {
        lemma_decimal_is_plain(pairs[i].0);
        lemma_decimal_is_plain(pairs[i].1);
    }
}

/// The texts of levels, as [`FixedPoint`] displays them.
pub open spec fn displayed(levels: Seq<RawLevel>) -> Seq<grammar::TextPair> {
    levels.map_values(
        |l: RawLevel|
            (
                vstd::utf8::encode_utf8(l.price.display_text()),
                vstd::utf8::encode_utf8(l.amount.display_text()),
            ),
    )
}

/// Levels that are displayed and sent as compact JSON are read back as they
/// were: the first `n` of those with a nonzero amount.
pub proof fn law_levels_round_trip(b: Seq<u8>, levels: Seq<RawLevel>, p: int, n: nat)
    requires
        search::occurs_at(b, levels_json(displayed(levels)), p),
    ensures
        grammar::raw_levels_at(b, p, n).0 == Some(first_levels(nonzero(levels), n)),
{
    let pairs = displayed(levels);
    assert forall|i: int| 0 <= i < pairs.len() implies FixedPoint::spec_parse(
        (#[trigger] pairs[i]).0,
    ) == Some(levels[i].price) && FixedPoint::spec_parse(pairs[i].1) == Some(
        levels[i].amount,
    ) by {
        types::law_parse_inverts_display(levels[i].price);
        types::law_parse_inverts_display(levels[i].amount);
    }
    assert(parsed(pairs) =~= levels);
    law_raw_levels(b, pairs, p, n);
}

/// Whether bytes are blanks, tabs and line ends only.
pub open spec fn all_space(w: Seq<u8>) -> bool {
    forall|i: int|
        0 <= i < w.len() ==> #[trigger] w[i] == 32 || w[i] == 9 || w[i] == 10 || w[i] == 13
}

/// Whether bytes can stand between the quotes of a string: a quote only behind a
/// backslash, and behind a backslash always another byte.
pub open spec fn is_content(t: Seq<u8>) -> bool
    decreases t.len(),
{
    if t.len() == 0 {
        true
    } else if t[0] == 92 {
        t.len() >= 2 && is_content(t.skip(2))
    } else {
        t[0] != 34 && is_content(t.skip(1))
    }
}

/// Whether all texts of the levels can stand between quotes.
pub open spec fn all_content(pairs: Seq<grammar::TextPair>) -> bool {
    forall|i: int|
        0 <= i < pairs.len() ==> is_content((#[trigger] pairs[i]).0) && is_content(pairs[i].1)
}

/// Skipping stops behind the whitespace.
proof fn lemma_spaces(b: Seq<u8>, w: Seq<u8>, p: int)
    requires
        search::occurs_at(b, w, p),
        all_space(w),
        p + w.len() < b.len() ==> !grammar::is_space(b[p + w.len()]),
    ensures
        grammar::after_space(b, p) == p + w.len(),
    decreases w.len(),
{
    if w.len() > 0 {
        lemma_occurs_bytes(b, w, p);
        assert(b[p + 0] == w[0]);
        assert(w =~= seq![w[0]] + w.skip(1));
        lemma_occurs_concat(b, seq![w[0]], w.skip(1), p);
        assert forall|i: int| 0 <= i < w.skip(1).len() implies {
            let x = #[trigger] w.skip(1)[i];
            x == 32 || x == 9 || x == 10 || x == 13
        } by {
            assert(w.skip(1)[i] == w[i + 1]);
        }
        lemma_spaces(b, w.skip(1), p + 1);
    }
}

/// Behind whitespace, a byte that is none is found.
proof fn lemma_token(b: Seq<u8>, w: Seq<u8>, byte: u8, p: int)
    requires
        search::occurs_at(b, w + seq![byte], p),
        all_space(w),
        !grammar::is_space(byte),
    ensures
        grammar::after_space(b, p) == p + w.len(),
        grammar::token_at(b, p, byte),
{
    let x = seq![byte];
    lemma_occurs_concat(b, w, x, p);
    lemma_occurs_bytes(b, x, p + w.len());
    assert(b[p + w.len() + 0] == x[0]);
    lemma_spaces(b, w, p);
}

/// The content of a string ends at the quote behind it.
proof fn lemma_string_end_content(b: Seq<u8>, t: Seq<u8>, i: int)
    requires
        search::occurs_at(b, t, i),
        is_content(t),
        i + t.len() < b.len() ==> b[i + t.len()] == QUOTE,
    ensures
        grammar::string_end(b, i) == i + t.len(),
    decreases t.len(),
{
    if t.len() > 0 {
        lemma_occurs_bytes(b, t, i);
        assert(b[i + 0] == t[0]);
        let n: int = if t[0] == 92 {
            2
        } else {
            1
        };
        assert(t =~= t.take(n) + t.skip(n));
        lemma_occurs_concat(b, t.take(n), t.skip(n), i);
        lemma_string_end_content(b, t.skip(n), i + n);
    }
}

/// A quoted content behind whitespace reads as that content.
proof fn lemma_spaced_string(b: Seq<u8>, w: Seq<u8>, t: Seq<u8>, p: int)
    requires
        search::occurs_at(b, w + quoted(t), p),
        all_space(w),
        is_content(t),
    ensures
        grammar::after_space(b, p) == p + w.len(),
        grammar::string_at(b, p) == (Some(t), p + w.len() + t.len() + 2),
{
    let quote = seq![QUOTE];
    let open = p + w.len();
    lemma_occurs_concat(b, w, quoted(t), p);
    lemma_occurs_concat(b, quote + t, quote, open);
    lemma_occurs_concat(b, quote, t, open);
    lemma_occurs_bytes(b, quote, open);
    assert(b[open + 0] == quote[0]);
    lemma_occurs_bytes(b, quote, open + 1 + t.len());
    assert(b[open + 1 + t.len() + 0] == quote[0]);
    lemma_spaces(b, w, p);
    lemma_string_end_content(b, t, open + 1);
    assert(b.subrange(open + 1, open + 1 + t.len()) == t);
}

/// Reading a string gives the bytes between its quotes, escapes and all, and stops
/// behind the closing quote. Whitespace may stand in front.
pub proof fn law_read_string<'a>(
    s: &mut Scanner<'a>,
    r: Option<&'a str>,
    w: Seq<u8>,
    t: Seq<u8>,
)
    requires
        old(s).wf(),
        call_ensures(Scanner::<'a>::read_string, (s,), r),
        search::occurs_at(old(s).buf@, w + quoted(t), old(s).pos as int),
        all_space(w),
        is_content(t),
    ensures
        r is Some,
        r->0.spec_bytes() == t,
        final(s).pos == old(s).pos + w.len() + t.len() + 2,
{
    lemma_spaced_string(old(s).buf@, w, t, old(s).pos as int);
}

/// A string that never ends gives nothing, and neither does anything else than a
/// string.
pub proof fn law_read_string_refuses<'a>(
    s: &mut Scanner<'a>,
    r: Option<&'a str>,
    w: Seq<u8>,
    t: Seq<u8>,
)
    requires
        old(s).wf(),
        call_ensures(Scanner::<'a>::read_string, (s,), r),
        old(s).buf@.skip(old(s).pos as int) == w + t,
        all_space(w),
        t.len() > 0 ==> t[0] != 32 && t[0] != 9 && t[0] != 10 && t[0] != 13,
        t.len() > 0 && t[0] == 34 ==> is_content(t.skip(1)),
    ensures
        r is None,
{
    let b = old(s).buf@;
    let p = old(s).pos as int;
    assert(b.subrange(p, p + (w + t).len()) =~= b.skip(p));
    assert(search::occurs_at(b, w + t, p));
    lemma_occurs_concat(b, w, t, p);
    if t.len() > 0 {
        lemma_occurs_bytes(b, t, p + w.len());
        assert(b[p + w.len() + 0] == t[0]);
    }
    lemma_spaces(b, w, p);
    if t.len() > 0 && t[0] == 34 {
        let quote = seq![t[0]];
        assert(t =~= quote + t.skip(1));
        lemma_occurs_concat(b, quote, t.skip(1), p + w.len());
        lemma_string_end_content(b, t.skip(1), p + w.len() + 1);
    }
}

/// Digits that are worth too much read as zero.
proof fn lemma_number_too_large(b: Seq<u8>, d: Seq<u8>, start: int, k: int)
    requires
        search::occurs_at(b, d, start),
        decimal::all_digits(d),
        decimal::digits_value(d) > u64::MAX,
        0 <= k <= d.len(),
        decimal::digits_value(d.take(k)) <= u64::MAX,
    ensures
        grammar::number_from(b, start + k, decimal::digits_value(d.take(k))).0 == 0,
        start <= grammar::number_from(b, start + k, decimal::digits_value(d.take(k))).1 <= start
            + d.len(),
    decreases d.len() - k,
{
    lemma_occurs_bytes(b, d, start);
    if k < d.len() {
        assert(b[start + k] == d[k]);
        decimal::lemma_digits_value_push(d, k);
        if decimal::digits_value(d.take(k + 1)) <= u64::MAX {
            lemma_number_too_large(b, d, start, k + 1);
        }
    } else {
        assert(d.take(k) =~= d);
    }
}

/// Reading a number gives what its digits spell, zero where that is beyond 64 bits or
/// there are none. Whitespace may stand in front, and reading stops behind the digits
/// of a number that fits.
pub proof fn law_read_number<'a>(s: &mut Scanner<'a>, r: u64, w: Seq<u8>, d: Seq<u8>)
    requires
        old(s).wf(),
        call_ensures(Scanner::<'a>::read_u64, (s,), r),
        search::occurs_at(old(s).buf@, w + d, old(s).pos as int),
        all_space(w),
        forall|i: int| 0 <= i < d.len() ==> 48 <= #[trigger] d[i] <= 57,
        ({
            let end = old(s).pos + w.len() + d.len();
            let next = old(s).buf@[end];
            &&& end < old(s).buf@.len() ==> !(48 <= next <= 57)
            &&& end < old(s).buf@.len() && d.len() == 0 ==> next != 32 && next != 9 && next != 10
                && next != 13
        }),
    ensures
        r == if decimal::place_value(d) <= 0xffff_ffff_ffff_ffff {
            decimal::place_value(d)
        } else {
            0
        },
        decimal::place_value(d) <= 0xffff_ffff_ffff_ffff ==> final(s).pos == old(s).pos + w.len()
            + d.len(),
{
    let b = old(s).buf@;
    let p = old(s).pos as int;
    lemma_spaced_number(b, w, d, p);
}

proof fn lemma_spaced_number(b: Seq<u8>, w: Seq<u8>, d: Seq<u8>, p: int)
    requires
        search::occurs_at(b, w + d, p),
        all_space(w),
        decimal::all_digits(d),
        p + w.len() + d.len() < b.len() ==> !decimal::is_digit(b[p + w.len() + d.len()]),
        p + w.len() < b.len() && d.len() == 0 ==> !grammar::is_space(b[p + w.len()]),
    ensures
        decimal::place_value(d) >= 0,
        decimal::digits_value(d) == decimal::place_value(d),
        decimal::place_value(d) <= u64::MAX ==> grammar::number_at(b, p) == (
            decimal::place_value(d),
            p + w.len() + d.len(),
        ),
        decimal::place_value(d) > u64::MAX ==> grammar::number_at(b, p).0 == 0 && p + w.len()
            <= grammar::number_at(b, p).1 <= p + w.len() + d.len(),
{
    let start = p + w.len();
    lemma_occurs_concat(b, w, d, p);
    lemma_occurs_bytes(b, d, start);
    if d.len() > 0 {
        assert(b[start + 0] == d[0]);
    }
    lemma_spaces(b, w, p);
    decimal::law_digits_by_place(d);
    decimal::lemma_digits_value_nonneg(d);
    assert(d.take(0) =~= Seq::empty());
    if decimal::digits_value(d) <= u64::MAX {
        lemma_number(b, d, start, 0);
    } else {
        lemma_number_too_large(b, d, start, 0);
    }
}

/// Whatever a quoted decimal is read as, that is what the text between its quotes is
/// parsed as, and reading stops behind the closing quote.
proof fn lemma_quoted_decimal_only(b: Seq<u8>, p: int)
    requires
        grammar::quoted_decimal_at(b, p).0 is Some,
    ensures
        ({
            let (value, end) = grammar::quoted_decimal_at(b, p);
            let t = b.subrange(p + 1, end - 1);
            &&& 0 <= p
            &&& p + 2 <= end <= b.len()
            &&& search::occurs_at(b, quoted(t), p)
            &&& FixedPoint::spec_parse(t) == value
        }),
{
    decimal::lemma_find_byte(b, QUOTE, p + 1);
    let close = decimal::find_byte(b, QUOTE, p + 1);
    let t = b.subrange(p + 1, close);
    assert(b.subrange(p, p + quoted(t).len()) =~= quoted(t));
    law_quoted_decimal(b, t, p);
}

/// A quoted decimal reads as what its text is parsed as, up to behind the closing
/// quote; and nothing else is read as a decimal.
pub proof fn law_read_quoted_decimal<'a>(
    s: &mut Scanner<'a>,
    r: Option<FixedPoint>,
    t: &str,
    parsed: Option<FixedPoint>,
)
    requires
        old(s).wf(),
        call_ensures(Scanner::<'a>::read_quoted_decimal, (s,), r),
        call_ensures(FixedPoint::parse, (t,), parsed),
    ensures
        search::occurs_at(old(s).buf@, quoted(t.spec_bytes()), old(s).pos as int) && parsed is Some
            ==> r == parsed && final(s).pos == old(s).pos + t.spec_bytes().len() + 2,
        r is Some ==> {
            let text = old(s).buf@.subrange(old(s).pos + 1, final(s).pos - 1);
            &&& old(s).pos + 2 <= final(s).pos
            &&& search::occurs_at(old(s).buf@, quoted(text), old(s).pos as int)
            &&& text == t.spec_bytes() ==> r == parsed
        },
{
    let b = old(s).buf@;
    let p = old(s).pos as int;
    if search::occurs_at(b, quoted(t.spec_bytes()), p) && parsed is Some {
        law_quoted_decimal(b, t.spec_bytes(), p);
    }
    if r is Some {
        lemma_quoted_decimal_only(b, p);
    }
}

/// A level that is read stands in the message as a pair of quoted decimals.
proof fn lemma_pair_was_sent(b: Seq<u8>, p: int) -> (pair: grammar::TextPair)
    requires
        grammar::pair_at(b, p).0 is Some,
    ensures
        search::occurs_at(b, pair_json(pair), p),
        FixedPoint::spec_parse(pair.0) == Some(grammar::pair_at(b, p).0->0.price),
        FixedPoint::spec_parse(pair.1) == Some(grammar::pair_at(b, p).0->0.amount),
        grammar::pair_at(b, p).1 == p + pair_json(pair).len(),
{
    let (price, behind_price) = grammar::quoted_decimal_at(b, p + 1);
    let (amount, behind_amount) = grammar::quoted_decimal_at(b, behind_price + 1);
    lemma_quoted_decimal_only(b, p + 1);
    lemma_quoted_decimal_only(b, behind_price + 1);
    let pair = (
        b.subrange(p + 2, behind_price - 1),
        b.subrange(behind_price + 2, behind_amount - 1),
    );
    lemma_occurs_bytes(b, quoted(pair.0), p + 1);
    lemma_occurs_bytes(b, quoted(pair.1), behind_price + 1);
    let json = pair_json(pair);
    assert(b.subrange(p, p + json.len()) =~= json) by {
        assert forall|i: int| 0 <= i < json.len() implies b[p + i] == json[i] by {
            let q = quoted(pair.0);
            let r = quoted(pair.1);
            if 1 <= i < 1 + q.len() {
                assert(b[p + 1 + (i - 1)] == q[i - 1]);
            } else if 2 + q.len() <= i < json.len() - 1 {
                assert(b[behind_price + 1 + (i - 2 - q.len())] == r[i - 2 - q.len()]);
            }
        }
    }
    pair
}

/// Every level that is read behind those in `acc` stands in the message as a pair of
/// quoted decimals, and its amount is not zero.
proof fn lemma_levels_were_sent(b: Seq<u8>, p: int, acc: Seq<RawLevel>, n: nat, k: int)
    requires
        grammar::pairs_from(b, p, acc, n).0 is Some,
        acc.len() <= k < grammar::pairs_from(b, p, acc, n).0->0.len(),
    ensures
        ({
            let l = grammar::pairs_from(b, p, acc, n).0->0[k];
            &&& l.amount.0 != 0
            &&& exists|at: int, pair: grammar::TextPair| #[trigger]
                search::occurs_at(b, pair_json(pair), at) && FixedPoint::spec_parse(pair.0)
                    == Some(l.price) && FixedPoint::spec_parse(pair.1) == Some(l.amount)
        }),
    decreases b.len() - p,
{
    let (found, behind) = grammar::pair_at(b, p);
    let levels = grammar::with_nonzero(acc, found->0);
    let all = grammar::pairs_from(b, p, acc, n).0->0;
    grammar::lemma_pair_end(b, p);
    let pair = lemma_pair_was_sent(b, p);
    assert(search::occurs_at(b, pair_json(pair), p));
    if levels.len() < n && grammar::byte_at(b, behind, COMMA) {
        if k >= levels.len() {
            lemma_levels_were_sent(b, behind + 1, levels, n, k);
        } else {
            lemma_pairs_capacity(b, behind + 1, levels, levels.len(), n);
            assert(all.take(levels.len() as int)[k] == all[k]);
        }
    }
}

/// Levels in compact JSON are read as what their texts are parsed as: the first `N`
/// with a nonzero amount, in their order. And whatever is read was sent: each level
/// stands in the message as a pair of quoted decimals, with a nonzero amount.
pub proof fn law_read_raw_levels<const N: usize>(
    s: &mut Scanner<'_>,
    r: Option<ArrayVec<RawLevel, N>>,
    pairs: Seq<grammar::TextPair>,
    k: int,
)
    requires
        old(s).wf(),
        N <= u32::MAX,
        call_ensures(json_walker::read_raw_levels::<N>, (s,), r),
    ensures
        all_decimal(pairs) && search::occurs_at(old(s).buf@, levels_json(pairs), old(s).pos as int)
            ==> r is Some && capped::contents(&r->0) == first_levels(
            nonzero(parsed(pairs)),
            N as nat,
        ),
        r is Some && 0 <= k < capped::contents(&r->0).len() ==> {
            let l = capped::contents(&r->0)[k];
            &&& l.amount.0 != 0
            &&& exists|at: int, pair: grammar::TextPair| #[trigger]
                search::occurs_at(old(s).buf@, pair_json(pair), at) && FixedPoint::spec_parse(
                    pair.0,
                ) == Some(l.price) && FixedPoint::spec_parse(pair.1) == Some(l.amount)
        },
{
    let b = old(s).buf@;
    let p = old(s).pos as int;
    if all_decimal(pairs) && search::occurs_at(b, levels_json(pairs), p) {
        law_raw_levels(b, pairs, p, N as nat);
    }
    if r is Some && 0 <= k < capped::contents(&r->0).len() {
        lemma_levels_were_sent(b, p + 1, Seq::empty(), N as nat, k);
    }
}

/// The whitespace around the parts of a level.
pub ghost struct Gaps {
    pub open: Seq<u8>,
    pub price: Seq<u8>,
    pub comma: Seq<u8>,
    pub amount: Seq<u8>,
    pub close: Seq<u8>,
    /// In front of what follows the level.
    pub behind: Seq<u8>,
}

/// Whether the gaps hold whitespace only.
pub open spec fn are_gaps(g: Gaps) -> bool {
    &&& all_space(g.open)
    &&& all_space(g.price)
    &&& all_space(g.comma)
    &&& all_space(g.amount)
    &&& all_space(g.close)
    &&& all_space(g.behind)
}

/// A level with whitespace around its parts, but for what stands behind it.
pub open spec fn spaced_pair(pair: grammar::TextPair, g: Gaps) -> Seq<u8> {
    (g.open + seq![OPEN_BRACKET]) + (g.price + quoted(pair.0)) + (g.comma + seq![COMMA]) + (
    g.amount + quoted(pair.1)) + (g.close + seq![CLOSE_BRACKET])
}

/// Levels with whitespace around their parts, up to the bracket that ends them.
pub open spec fn spaced_pairs(pairs: Seq<grammar::TextPair>, gaps: Seq<Gaps>) -> Seq<u8>
    decreases pairs.len(),
{
    if pairs.len() == 0 {
        Seq::empty()
    } else if pairs.len() == 1 {
        spaced_pair(pairs[0], gaps[0]) + (gaps[0].behind + seq![CLOSE_BRACKET])
    } else {
        spaced_pair(pairs[0], gaps[0]) + (gaps[0].behind + seq![COMMA]) + spaced_pairs(
            pairs.skip(1),
            gaps.skip(1),
        )
    }
}

/// One side of a book with whitespace around its parts; `front` stands in front of
/// it, and `inside` in it where it has no levels.
pub open spec fn spaced_levels(
    front: Seq<u8>,
    pairs: Seq<grammar::TextPair>,
    gaps: Seq<Gaps>,
    inside: Seq<u8>,
) -> Seq<u8> {
    (front + seq![OPEN_BRACKET]) + if pairs.len() == 0 {
        inside + seq![CLOSE_BRACKET]
    } else {
        spaced_pairs(pairs, gaps)
    }
}

/// Whether there are gaps for every level, of whitespace only.
pub open spec fn gaps_fit(pairs: Seq<grammar::TextPair>, gaps: Seq<Gaps>) -> bool {
    &&& gaps.len() == pairs.len()
    &&& forall|i: int| 0 <= i < gaps.len() ==> are_gaps(#[trigger] gaps[i])
}

proof fn lemma_spaced_pair(b: Seq<u8>, pair: grammar::TextPair, g: Gaps, p: int)
    requires
        search::occurs_at(b, spaced_pair(pair, g), p),
        are_gaps(g),
        is_content(pair.0),
        is_content(pair.1),
    ensures
        grammar::text_pair_at(b, p) == (Some(pair), p + spaced_pair(pair, g).len()),
{
    let v = g.open + seq![OPEN_BRACKET];
    let w = g.price + quoted(pair.0);
    let x = g.comma + seq![COMMA];
    let y = g.amount + quoted(pair.1);
    let z = g.close + seq![CLOSE_BRACKET];
    lemma_occurs_concat(b, v + w + x + y, z, p);
    lemma_occurs_concat(b, v + w + x, y, p);
    lemma_occurs_concat(b, v + w, x, p);
    lemma_occurs_concat(b, v, w, p);
    lemma_token(b, g.open, OPEN_BRACKET, p);
    let second = p + v.len();
    lemma_spaced_string(b, g.price, pair.0, second);
    let third = second + w.len();
    lemma_token(b, g.comma, COMMA, third);
    let fourth = third + x.len();
    lemma_spaced_string(b, g.amount, pair.1, fourth);
    lemma_token(b, g.close, CLOSE_BRACKET, fourth + y.len());
}

proof fn lemma_spaced_pairs(
    b: Seq<u8>,
    pairs: Seq<grammar::TextPair>,
    gaps: Seq<Gaps>,
    p: int,
    acc: Seq<grammar::TextPair>,
    n: nat,
)
    requires
        pairs.len() > 0,
        acc.len() <= n,
        gaps_fit(pairs, gaps),
        all_content(pairs),
        search::occurs_at(b, spaced_pairs(pairs, gaps), p),
    ensures
        grammar::text_pairs_from(b, p, acc, n).0 == Some(first_texts(acc + pairs, n)),
        p <= grammar::text_pairs_from(b, p, acc, n).1 <= p + spaced_pairs(pairs, gaps).len(),
    decreases pairs.len(),
{
    let pair = pairs[0];
    let g = gaps[0];
    let here = spaced_pair(pair, g);
    let rest = pairs.skip(1);
    let levels = acc.push(pair);
    let behind = p + here.len();
    assert(is_content(pairs[0].0) && is_content(pairs[0].1));
    assert(are_gaps(gaps[0]));
    assert(levels.take(acc.len() as int) =~= acc);
    assert(levels.take(levels.len() as int) =~= levels);
    if pairs.len() == 1 {
        lemma_occurs_concat(b, here, g.behind + seq![CLOSE_BRACKET], p);
        lemma_token(b, g.behind, CLOSE_BRACKET, behind);
        lemma_spaced_pair(b, pair, g, p);
        assert(acc + pairs =~= levels);
    } else {
        let comma = g.behind + seq![COMMA];
        let tail = spaced_pairs(rest, gaps.skip(1));
        lemma_occurs_concat(b, here + comma, tail, p);
        lemma_occurs_concat(b, here, comma, p);
        lemma_token(b, g.behind, COMMA, behind);
        lemma_spaced_pair(b, pair, g, p);
        if levels.len() < n {
            assert forall|i: int| 0 <= i < rest.len() implies is_content((#[trigger] rest[i]).0)
                && is_content(rest[i].1) by {
                assert(rest[i] == pairs[i + 1]);
            }
            assert forall|i: int| 0 <= i < gaps.skip(1).len() implies are_gaps(
                #[trigger] gaps.skip(1)[i],
            ) by {
                assert(gaps.skip(1)[i] == gaps[i + 1]);
            }
            lemma_spaced_pairs(b, rest, gaps.skip(1), behind + comma.len(), levels, n);
            assert(levels + rest =~= acc + pairs);
        } else {
            assert(first_texts(acc + pairs, n) =~= levels.take(n as int));
        }
    }
}

/// One side of a book reads as the texts of its first `n` levels, however much
/// whitespace stands around its parts.
proof fn lemma_spaced_levels(
    b: Seq<u8>,
    front: Seq<u8>,
    pairs: Seq<grammar::TextPair>,
    gaps: Seq<Gaps>,
    inside: Seq<u8>,
    p: int,
    n: nat,
)
    requires
        all_space(front),
        all_space(inside),
        gaps_fit(pairs, gaps),
        all_content(pairs),
        search::occurs_at(b, spaced_levels(front, pairs, gaps, inside), p),
    ensures
        grammar::text_levels_at(b, p, n).0 == Some(first_texts(pairs, n)),
        p <= grammar::text_levels_at(b, p, n).1 <= p + spaced_levels(
            front,
            pairs,
            gaps,
            inside,
        ).len(),
{
    let open = front + seq![OPEN_BRACKET];
    let start = p + open.len();
    if pairs.len() == 0 {
        let close = inside + seq![CLOSE_BRACKET];
        lemma_occurs_concat(b, open, close, p);
        lemma_token(b, front, OPEN_BRACKET, p);
        lemma_token(b, inside, CLOSE_BRACKET, start);
        assert(first_texts(pairs, n) =~= Seq::empty());
    } else {
        let tail = spaced_pairs(pairs, gaps);
        let g = gaps[0];
        assert(are_gaps(gaps[0]));
        lemma_occurs_concat(b, open, tail, p);
        lemma_token(b, front, OPEN_BRACKET, p);
        let first = g.open + seq![OPEN_BRACKET];
        let others = tail.skip(first.len() as int);
        assert(tail =~= first + others);
        lemma_occurs_concat(b, first, others, start);
        lemma_token(b, g.open, OPEN_BRACKET, start);
        lemma_spaced_pairs(b, pairs, gaps, start, Seq::empty(), n);
        assert(Seq::<grammar::TextPair>::empty() + pairs =~= pairs);
        // Whitespace in front of the first level is skipped once or twice.
        let at = grammar::after_space(b, start);
        assert(grammar::after_space(b, at) == at);
        assert(grammar::text_pair_at(b, at) == grammar::text_pair_at(b, start));
        assert(grammar::text_pairs_from(b, at, Seq::empty(), n) == grammar::text_pairs_from(
            b,
            start,
            Seq::empty(),
            n,
        ));
    }
}

/// Reading the levels of a side as texts gives the first twenty, in their order,
/// however much whitespace stands around the parts.
pub proof fn law_read_levels<'a>(
    s: &mut Scanner<'a>,
    r: Option<Levels<'a>>,
    front: Seq<u8>,
    pairs: Seq<grammar::TextPair>,
    gaps: Seq<Gaps>,
    inside: Seq<u8>,
)
    requires
        old(s).wf(),
        call_ensures(json_walker::read_levels, (s,), r),
        all_space(front),
        all_space(inside),
        gaps_fit(pairs, gaps),
        all_content(pairs),
        search::occurs_at(
            old(s).buf@,
            spaced_levels(front, pairs, gaps, inside),
            old(s).pos as int,
        ),
    ensures
        r is Some,
        json_walker::level_texts(&r->0) == first_texts(pairs, 20),
{
    lemma_spaced_levels(old(s).buf@, front, pairs, gaps, inside, old(s).pos as int, 20);
}

/// What a depth message of Binance consists of: where its keys stand, and what
/// stands behind them.
pub ghost struct Depth {
    /// Whether the key of the number stands in the message.
    pub has_number: bool,
    pub number_at: int,
    pub number_gap: Seq<u8>,
    pub digits: Seq<u8>,
    pub bids_at: int,
    pub bids_gap: Seq<u8>,
    pub bids: Seq<grammar::TextPair>,
    pub bids_gaps: Seq<Gaps>,
    pub bids_inside: Seq<u8>,
    pub asks_at: int,
    pub asks_gap: Seq<u8>,
    pub asks: Seq<grammar::TextPair>,
    pub asks_gaps: Seq<Gaps>,
    pub asks_inside: Seq<u8>,
}

/// Whether bytes are a depth message with these parts: the number, the bids and the
/// asks behind their keys, in this order, with whitespace wherever JSON allows it
/// and with anything else in between. The number may be missing, with its key or
/// without; it has no digits then, and is worth zero.
pub open spec fn is_depth_message(b: Seq<u8>, d: Depth) -> bool {
    let number_key = "\"lastUpdateId\":".spec_bytes();
    let bids_key = "\"bids\":".spec_bytes();
    let asks_key = "\"asks\":".spec_bytes();
    let number = d.number_gap + d.digits;
    let number_end = d.number_at + number_key.len() + number.len();
    let bids = spaced_levels(d.bids_gap, d.bids, d.bids_gaps, d.bids_inside);
    let asks = spaced_levels(d.asks_gap, d.asks, d.asks_gaps, d.asks_inside);
    &&& if d.has_number {
        &&& search::first_at(b, number_key, 0, d.number_at)
        &&& search::occurs_at(b, number, d.number_at + number_key.len())
        &&& number_end < b.len() ==> !(48 <= b[number_end] <= 57)
        &&& number_end < b.len() && d.digits.len() == 0 ==> b[number_end] != 32 && b[number_end]
            != 9 && b[number_end] != 10 && b[number_end] != 13
        &&& search::first_at(b, bids_key, number_end, d.bids_at)
    } else {
        &&& forall|i: int| !search::occurs_at(b, number_key, i)
        &&& d.digits.len() == 0
        &&& search::first_at(b, bids_key, 0, d.bids_at)
    }
    &&& all_space(d.number_gap)
    &&& forall|i: int| 0 <= i < d.digits.len() ==> 48 <= #[trigger] d.digits[i] <= 57
    &&& search::occurs_at(b, bids, d.bids_at + bids_key.len())
    &&& all_space(d.bids_gap)
    &&& all_space(d.bids_inside)
    &&& gaps_fit(d.bids, d.bids_gaps)
    &&& search::first_at(b, asks_key, d.bids_at + bids_key.len(), d.asks_at)
    &&& d.asks_at >= d.bids_at + bids_key.len() + bids.len()
    &&& search::occurs_at(b, asks, d.asks_at + asks_key.len())
    &&& all_space(d.asks_gap)
    &&& all_space(d.asks_inside)
    &&& gaps_fit(d.asks, d.asks_gaps)
}

/// The sequence number of a depth message: what its digits spell, zero where that is
/// beyond 64 bits.
pub open spec fn depth_number(d: Depth) -> int {
    if decimal::place_value(d.digits) <= 0xffff_ffff_ffff_ffff {
        decimal::place_value(d.digits)
    } else {
        0
    }
}

proof fn lemma_depth_message(b: Seq<u8>, d: Depth)
    requires
        is_depth_message(b, d),
        all_content(d.bids),
        all_content(d.asks),
    ensures
        0 <= depth_number(d) <= u64::MAX,
        binance::walk_of(b) == Some(
            (
                depth_number(d) as u64,
                first_texts(d.bids, 20),
                first_texts(d.asks, 20),
            ),
        ),
{
    let number_key = binance::last_update_id_key();
    let bids_key = binance::bids_key();
    let asks_key = binance::asks_key();
    let start = d.number_at + number_key.len();
    let end = start + d.number_gap.len() + d.digits.len();
    if d.has_number {
        search::lemma_find_from(b, number_key, 0, d.number_at);
        lemma_spaced_number(b, d.number_gap, d.digits, start);
        let stop = grammar::number_at(b, start).1;
        lemma_occurs_bytes(b, d.number_gap + d.digits, start);
        lemma_keys();
        assert forall|j: int| stop <= j < d.bids_at implies !search::occurs_at(
            b,
            bids_key,
            j,
        ) by {
            if j < end && search::occurs_at(b, bids_key, j) {
                lemma_occurs_bytes(b, bids_key, j);
                assert(b[j + 0] == bids_key[0]);
                let n = d.number_gap.len();
                assert((d.number_gap + d.digits)[j - start] == d.digits[j - start - n]);
                assert(b[start + (j - start)] == (d.number_gap + d.digits)[j - start]);
            }
        }
        search::lemma_find_from(b, bids_key, stop, d.bids_at);
    } else {
        search::lemma_find_from(b, bids_key, 0, d.bids_at);
    }
    let first = d.bids_at + bids_key.len();
    lemma_spaced_levels(b, d.bids_gap, d.bids, d.bids_gaps, d.bids_inside, first, 20);
    let from = grammar::text_levels_at(b, first, 20).1;
    assert(search::first_at(b, asks_key, from, d.asks_at));
    search::lemma_find_from(b, asks_key, from, d.asks_at);
    lemma_spaced_levels(
        b,
        d.asks_gap,
        d.asks,
        d.asks_gaps,
        d.asks_inside,
        d.asks_at + asks_key.len(),
        20,
    );
}

proof fn lemma_decimal_is_content(t: Seq<u8>)
    requires
        is_plain(t),
    ensures
        is_content(t),
    decreases t.len(),
{
    if t.len() > 0 {
        assert(decimal::is_digit(t[0]) || t[0] == DOT);
        let rest = t.skip(1);
        assert forall|i: int| 0 <= i < rest.len() implies decimal::is_digit(#[trigger] rest[i])
            || rest[i] == DOT by {
            assert(rest[i] == t[i + 1]);
        }
        lemma_decimal_is_content(rest);
    }
}

proof fn lemma_all_decimal_is_content(pairs: Seq<grammar::TextPair>)
    requires
        all_decimal(pairs),
    ensures
        all_content(pairs),
{
    assert forall|i: int| 0 <= i < pairs.len() implies is_content((#[trigger] pairs[i]).0)
        && is_content(pairs[i].1) by {
        lemma_decimal_is_plain(pairs[i].0);
        lemma_decimal_is_plain(pairs[i].1);
        lemma_decimal_is_content(pairs[i].0);
        lemma_decimal_is_content(pairs[i].1);
    }
}

/// A walk over a depth message of Binance gives its number and the texts of its
/// first twenty bids and asks.
pub proof fn law_binance_walk<'a>(
    json: &'a str,
    r: Option<(u64, Levels<'a>, Levels<'a>)>,
    d: Depth,
)
    requires
        call_ensures(binance::walk, (json,), r),
        is_depth_message(json.spec_bytes(), d),
        all_content(d.bids),
        all_content(d.asks),
    ensures
        r is Some,
        (r->0).0 == depth_number(d),
        json_walker::level_texts(&(r->0).1) == first_texts(d.bids, 20),
        json_walker::level_texts(&(r->0).2) == first_texts(d.asks, 20),
{
    lemma_depth_message(json.spec_bytes(), d);
}

/// The levels that a depth message of Binance stands for: of its first twenty levels
/// the first ten with a nonzero amount.
pub open spec fn depth_levels(pairs: Seq<grammar::TextPair>) -> Seq<RawLevel> {
    first_levels(nonzero(parsed(first_texts(pairs, 20))), 10)
}

proof fn lemma_depth_sides(d: Depth)
    requires
        all_decimal(d.bids),
        all_decimal(d.asks),
    ensures
        exchange::sides_of_texts(first_texts(d.bids, 20), first_texts(d.asks, 20)) == Some(
            (depth_levels(d.bids), depth_levels(d.asks)),
        ),
{
    let bids = first_texts(d.bids, 20);
    let asks = first_texts(d.asks, 20);
    assert forall|i: int| 0 <= i < bids.len() implies FixedPoint::spec_parse(
        (#[trigger] bids[i]).0,
    ) is Some && FixedPoint::spec_parse(bids[i].1) is Some by {
        assert(bids[i] == d.bids[i]);
    }
    assert forall|i: int| 0 <= i < asks.len() implies FixedPoint::spec_parse(
        (#[trigger] asks[i]).0,
    ) is Some && FixedPoint::spec_parse(asks[i].1) is Some by {
        assert(asks[i] == d.asks[i]);
    }
    law_first_nonzero(bids, Seq::empty(), 10);
    law_first_nonzero(asks, Seq::empty(), 10);
    assert(Seq::<RawLevel>::empty() + nonzero(parsed(bids)) =~= nonzero(parsed(bids)));
    assert(Seq::<RawLevel>::empty() + nonzero(parsed(asks)) =~= nonzero(parsed(asks)));
}

/// A depth message of Binance whose number is above the remembered one, or where
/// either is zero, gives a book of its levels, and its number is remembered; one
/// whose number is not above gives none and counts as an error. Where a text that is
/// looked at is malformed, it counts as an error too, and the number is remembered.
pub proof fn law_binance_message_gives_book(
    h: &mut BinanceHandler,
    text: &str,
    decode_start: u64,
    m: &mut ExchangeMetrics,
    r: Processed,
    d: Depth,
)
    requires
        call_ensures(
            <BinanceHandler as WsHandler>::process_text,
            (h, text, decode_start, m),
            r,
        ),
        is_depth_message(text.spec_bytes(), d),
        all_content(d.bids),
        all_content(d.asks),
        all_decimal(d.bids) && all_decimal(d.asks) || spoiled(first_texts(d.bids, 20))
            || spoiled(first_texts(d.asks, 20)),
    ensures
        ({
            let seq = depth_number(d);
            let last = old(h).last_seq;
            if (seq > last || seq == 0 || last == 0) && !(all_decimal(d.bids) && all_decimal(
                d.asks,
            )) {
                &&& r == Processed::Done(HandleResult::Continue)
                &&& final(h).last_seq == seq
                &&& final(m).errors == (old(m).errors + 1) % 0x1_0000_0000_0000_0000
                &&& *final(m) == (ExchangeMetrics { errors: final(m).errors, ..*old(m) })
            } else if seq > last || seq == 0 || last == 0 {
                &&& r matches Processed::Book(book) && book.exchange_id == 0 && capped::contents(
                    &book.bids,
                ) == depth_levels(d.bids) && capped::contents(&book.asks) == depth_levels(d.asks)
                    && book.decode_start == decode_start
                &&& final(h).last_seq == seq
                &&& *final(m) == *old(m)
            } else {
                &&& r == Processed::Done(HandleResult::Continue)
                &&& final(h).last_seq == last
                &&& final(m).errors == (old(m).errors + 1) % 0x1_0000_0000_0000_0000
                &&& *final(m) == (ExchangeMetrics { errors: final(m).errors, ..*old(m) })
            }
        }),
{
    lemma_depth_message(text.spec_bytes(), d);
    if all_decimal(d.bids) && all_decimal(d.asks) {
        lemma_depth_sides(d);
    } else {
        lemma_spoiled(first_texts(d.bids, 20));
        lemma_spoiled(first_texts(d.asks, 20));
    }
}

/// Decoding a depth message of Binance gives a book of its levels, whatever its
/// number.
pub proof fn law_binance_message_decodes(
    json: &str,
    decode_start: u64,
    r: Option<OrderBook>,
    d: Depth,
)
    requires
        call_ensures(binance::parse_depth_json, (json, decode_start), r),
        is_depth_message(json.spec_bytes(), d),
        all_decimal(d.bids),
        all_decimal(d.asks),
    ensures
        r is Some,
        r->0.exchange_id == 0,
        capped::contents(&r->0.bids) == depth_levels(d.bids),
        capped::contents(&r->0.asks) == depth_levels(d.asks),
        r->0.decode_start == decode_start,
{
    lemma_all_decimal_is_content(d.bids);
    lemma_all_decimal_is_content(d.asks);
    lemma_depth_message(json.spec_bytes(), d);
    lemma_depth_sides(d);
}

/// A message of Binance that lacks the bids or the asks is refused, and counts as an
/// error.
pub proof fn law_binance_needs_both_sides(
    h: &mut BinanceHandler,
    text: &str,
    decode_start: u64,
    m: &mut ExchangeMetrics,
    r: Processed,
    book: Option<OrderBook>,
)
    requires
        call_ensures(
            <BinanceHandler as WsHandler>::process_text,
            (h, text, decode_start, m),
            r,
        ),
        call_ensures(binance::parse_depth_json, (text, decode_start), book),
        (forall|at: int| !search::occurs_at(text.spec_bytes(), "\"bids\":".spec_bytes(), at)) || (
        forall|at: int| !search::occurs_at(text.spec_bytes(), "\"asks\":".spec_bytes(), at)),
    ensures
        r == Processed::Done(HandleResult::Continue),
        book is None,
        final(h).last_seq == old(h).last_seq,
        final(m).errors == (old(m).errors + 1) % 0x1_0000_0000_0000_0000,
        *final(m) == (ExchangeMetrics { errors: final(m).errors, ..*old(m) }),
{
}

/// A book is built of the first ten levels with a nonzero amount of each side. It is
/// refused exactly where a text that is looked at is malformed.
pub proof fn law_build_book(
    exchange_id: ExchangeId,
    bids: &Levels<'_>,
    asks: &Levels<'_>,
    decode_start: u64,
    r: Option<OrderBook>,
)
    requires
        call_ensures(exchange::build_book, (exchange_id, bids, asks, decode_start), r),
    ensures
        ({
            let x = json_walker::level_texts(bids);
            let y = json_walker::level_texts(asks);
            &&& all_decimal(x) && all_decimal(y) ==> {
                &&& r is Some
                &&& r->0.exchange_id == exchange_id
                &&& capped::contents(&r->0.bids) == first_levels(nonzero(parsed(x)), 10)
                &&& capped::contents(&r->0.asks) == first_levels(nonzero(parsed(y)), 10)
                &&& r->0.decode_start == decode_start
            }
            &&& spoiled(x) || spoiled(y) <==> r is None
        }),
{
    let x = json_walker::level_texts(bids);
    let y = json_walker::level_texts(asks);
    if all_decimal(x) && all_decimal(y) {
        law_first_nonzero(x, Seq::empty(), 10);
        law_first_nonzero(y, Seq::empty(), 10);
        assert(Seq::<RawLevel>::empty() + nonzero(parsed(x)) =~= nonzero(parsed(x)));
        assert(Seq::<RawLevel>::empty() + nonzero(parsed(y)) =~= nonzero(parsed(y)));
    }
    lemma_spoiled(x);
    lemma_spoiled(y);
}

/// Whether a text of the levels is malformed and, of the levels in front of it, fewer
/// than ten have a nonzero amount.
pub open spec fn spoiled(pairs: Seq<grammar::TextPair>) -> bool {
    exists|k: int|
        0 <= k < pairs.len() && (FixedPoint::spec_parse((#[trigger] pairs[k]).0) is None
            || FixedPoint::spec_parse(pairs[k].1) is None) && nonzero(parsed(pairs.take(k))).len()
            < 10 && all_decimal(pairs.take(k))
}

proof fn lemma_spoiled(pairs: Seq<grammar::TextPair>)
    ensures
        spoiled(pairs) <==> exchange::levels_of_texts(pairs, Seq::empty(), 10) is None,
{
    if all_decimal(pairs) {
        law_first_nonzero(pairs, Seq::empty(), 10);
    } else {
        assert(pairs.take(pairs.len() as int) =~= pairs);
        let k = lemma_first_malformed(pairs, pairs.len() as int);
        let good = pairs.take(k);
        lemma_levels_up_to(pairs, k, Seq::empty(), 10);
        law_first_nonzero(good, Seq::empty(), 10);
        assert(Seq::<RawLevel>::empty() + nonzero(parsed(good)) =~= nonzero(parsed(good)));
        if spoiled(pairs) {
            let j = choose|j: int|
                0 <= j < pairs.len() && (FixedPoint::spec_parse((#[trigger] pairs[j]).0) is None
                    || FixedPoint::spec_parse(pairs[j].1) is None) && nonzero(
                    parsed(pairs.take(j)),
                ).len() < 10 && all_decimal(pairs.take(j));
            if j < k {
                assert(good[j] == pairs[j]);
            } else if k < j {
                assert(pairs.take(j)[k] == pairs[k]);
            }
        } else {
            assert(FixedPoint::spec_parse(pairs[k].0) is None || FixedPoint::spec_parse(pairs[k].1)
                is None);
        }
    }
}

/// The first level of which a text is malformed.
proof fn lemma_first_malformed(pairs: Seq<grammar::TextPair>, n: int) -> (k: int)
    requires
        0 <= n <= pairs.len(),
        !all_decimal(pairs.take(n)),
    ensures
        0 <= k < n,
        FixedPoint::spec_parse(pairs[k].0) is None || FixedPoint::spec_parse(pairs[k].1) is None,
        all_decimal(pairs.take(k)),
    decreases n,
{
    let last = n - 1;
    if all_decimal(pairs.take(last)) {
        let i = choose|i: int|
            0 <= i < pairs.take(n).len() && !(FixedPoint::spec_parse(
                (#[trigger] pairs.take(n)[i]).0,
            ) is Some && FixedPoint::spec_parse(pairs.take(n)[i].1) is Some);
        if i < last {
            assert(pairs.take(last)[i] == pairs.take(n)[i]);
        }
        last
    } else {
        lemma_first_malformed(pairs, last)
    }
}

/// Reading levels up to the first malformed one.
proof fn lemma_levels_up_to(
    pairs: Seq<grammar::TextPair>,
    k: int,
    acc: Seq<RawLevel>,
    n: nat,
)
    requires
        0 <= k < pairs.len(),
        FixedPoint::spec_parse(pairs[k].0) is None || FixedPoint::spec_parse(pairs[k].1) is None,
        all_decimal(pairs.take(k)),
        acc.len() <= n,
    ensures
        (acc + nonzero(parsed(pairs.take(k)))).len() < n <==> exchange::levels_of_texts(
            pairs,
            acc,
            n,
        ) is None,
    decreases k,
{
    let good = pairs.take(k);
    let pred = |l: RawLevel| l.amount.0 != 0;
    if k == 0 {
        assert(nonzero(parsed(good)) =~= Seq::empty());
    } else if acc.len() < n {
        let rest = pairs.skip(1);
        let all = parsed(good);
        assert(good[0] == pairs[0]);
        assert(rest.take(k - 1) =~= good.skip(1));
        assert forall|i: int| 0 <= i < rest.take(k - 1).len() implies FixedPoint::spec_parse(
            (#[trigger] rest.take(k - 1)[i]).0,
        ) is Some && FixedPoint::spec_parse(rest.take(k - 1)[i].1) is Some by {
            assert(rest.take(k - 1)[i] == good[i + 1]);
        }
        assert(all =~= seq![all[0]] + parsed(good.skip(1)));
        Seq::filter_distributes_over_add(seq![all[0]], parsed(good.skip(1)), pred);
        reveal_with_fuel(Seq::filter, 2);
        assert(seq![all[0]].drop_last() =~= Seq::empty());
        let levels = grammar::with_nonzero(acc, all[0]);
        lemma_levels_up_to(rest, k - 1, levels, n);
        assert(acc + nonzero(all) =~= levels + nonzero(parsed(good.skip(1))));
    }
}

/// What an order book message of Bitstamp consists of: where its keys stand, and what
/// stands behind them. The timestamp and either side may be missing.
pub ghost struct Sent {
    pub stamp_at: int,
    pub stamp_gap: Seq<u8>,
    /// Whether the timestamp is a string.
    pub stamp_quoted: bool,
    /// The timestamp: the content of the string, or how anything else starts.
    pub stamp: Option<Seq<u8>>,
    pub event_at: int,
    pub event_gap: Seq<u8>,
    pub event: Seq<u8>,
    pub bids_at: int,
    pub bids: Option<Seq<grammar::TextPair>>,
    pub asks_at: int,
    pub asks: Option<Seq<grammar::TextPair>>,
}

/// Whether bytes are a message with these parts: the timestamp, then the bids and
/// behind them the asks, in compact JSON, with anything else in between. Where the
/// timestamp is missing, the event stands anywhere; where it is no string, what counts
/// is how it starts.
pub open spec fn is_sent_message(b: Seq<u8>, d: Sent) -> bool {
    let stamp_key = "\"microtimestamp\":".spec_bytes();
    let event_key = "\"event\":".spec_bytes();
    let bids_key = "\"bids\":".spec_bytes();
    let asks_key = "\"asks\":".spec_bytes();
    let start = match d.stamp {
        Some(t) => d.stamp_at + stamp_key.len() + d.stamp_gap.len() + if d.stamp_quoted {
            t.len() + 2
        } else {
            0
        },
        None => 0,
    };
    let bids_start = d.bids_at + bids_key.len();
    &&& match d.stamp {
        Some(t) => {
            &&& search::first_at(b, stamp_key, 0, d.stamp_at)
            &&& all_space(d.stamp_gap)
            &&& if d.stamp_quoted {
                &&& search::occurs_at(b, d.stamp_gap + quoted(t), d.stamp_at + stamp_key.len())
                &&& is_content(t)
            } else {
                &&& search::occurs_at(b, d.stamp_gap + t, d.stamp_at + stamp_key.len())
                &&& t.len() == 1
                &&& t[0] != 34 && t[0] != 32 && t[0] != 9 && t[0] != 10 && t[0] != 13
            }
        },
        None => {
            &&& forall|i: int| !search::occurs_at(b, stamp_key, i)
            &&& search::first_at(b, event_key, 0, d.event_at)
            &&& search::occurs_at(b, d.event_gap + quoted(d.event), d.event_at + event_key.len())
            &&& all_space(d.event_gap)
            &&& is_content(d.event)
        },
    }
    &&& match d.bids {
        Some(pairs) => {
            &&& search::first_at(b, bids_key, start, d.bids_at)
            &&& search::occurs_at(b, levels_json(pairs), bids_start)
            &&& all_decimal(pairs)
        },
        None => forall|i: int| start <= i ==> !search::occurs_at(b, bids_key, i),
    }
    &&& match d.asks {
        Some(pairs) => {
            &&& search::first_at(
                b,
                asks_key,
                if d.bids is Some {
                    bids_start
                } else {
                    start
                },
                d.asks_at,
            )
            &&& d.bids is Some ==> d.asks_at >= bids_start + levels_json(d.bids->0).len()
            &&& search::occurs_at(b, levels_json(pairs), d.asks_at + asks_key.len())
            &&& all_decimal(pairs)
        },
        None => forall|i: int|
            (if d.bids is Some {
                bids_start
            } else {
                start
            }) <= i ==> !search::occurs_at(b, asks_key, i),
    }
}

/// Whether bytes are digits, at least one, that spell a number of 64 bits.
pub open spec fn spells_number(digits: Seq<u8>) -> bool {
    &&& digits.len() > 0
    &&& forall|i: int| 0 <= i < digits.len() ==> 48 <= #[trigger] digits[i] <= 57
    &&& decimal::place_value(digits) <= 0xffff_ffff_ffff_ffff
}

/// The number that the content of a timestamp stands for: what its digits spell, with
/// or without a plus sign in front, and zero where it is no number or does not fit in
/// 64 bits.
pub open spec fn number_in(t: Seq<u8>) -> int {
    let digits = if t.len() > 0 && t[0] == 43 {
        t.skip(1)
    } else {
        t
    };
    if spells_number(digits) {
        decimal::place_value(digits)
    } else {
        0
    }
}

/// The number of a message's timestamp, zero where it has none or that is no string.
pub open spec fn stamp_number(d: Sent) -> int {
    if d.stamp is Some && d.stamp_quoted {
        number_in(d.stamp->0)
    } else {
        0
    }
}

/// The levels that a side of a message stands for: the first ten with a nonzero
/// amount, none where the side is missing.
pub open spec fn sent_levels(side: Option<Seq<grammar::TextPair>>) -> Seq<RawLevel> {
    match side {
        Some(pairs) => first_levels(nonzero(parsed(pairs)), 10),
        None => Seq::empty(),
    }
}

proof fn lemma_no_first(b: Seq<u8>, key: Seq<u8>, from: int)
    requires
        forall|i: int| from <= i ==> !search::occurs_at(b, key, i),
    ensures
        search::find_from(b, key, from) is None,
{
    assert forall|i: int| !search::first_at(b, key, from, i) by {}
}

proof fn lemma_stamp_number(t: Seq<u8>)
    ensures
        0 <= number_in(t) <= u64::MAX,
        number_in(t) == match decimal::unsigned_of(t) {
            Some(v) => v,
            None => 0,
        },
{
    let digits = decimal::unsigned_digits(t);
    decimal::law_digits_by_place(digits);
    if decimal::all_digits(digits) {
        decimal::lemma_digits_value_nonneg(digits);
        assert forall|i: int| 0 <= i < digits.len() implies 48 <= #[trigger] digits[i] <= 57 by {
            assert(decimal::is_digit(digits[i]));
        }
    } else {
        let i = choose|i: int| 0 <= i < digits.len() && !decimal::is_digit(#[trigger] digits[i]);
        assert(!(48 <= digits[i] <= 57));
    }
}

proof fn lemma_sent_message(b: Seq<u8>, d: Sent)
    requires
        is_sent_message(b, d),
    ensures
        0 <= stamp_number(d) <= u64::MAX,
        bitstamp::walk_of(b) == Some(
            (bitstamp::Message {
                event: if d.stamp is Some {
                    "data".spec_bytes()
                } else {
                    d.event
                },
                micro: stamp_number(d) as u64,
                bids: sent_levels(d.bids),
                asks: sent_levels(d.asks),
            }),
        ),
{
    let stamp_key = bitstamp::microtimestamp_key();
    let event_key = bitstamp::event_key();
    let bids_key = bitstamp::bids_key();
    let asks_key = bitstamp::asks_key();
    let start = match d.stamp {
        Some(t) => d.stamp_at + stamp_key.len() + d.stamp_gap.len() + if d.stamp_quoted {
            t.len() + 2
        } else {
            0
        },
        None => 0,
    };
    match d.stamp {
        Some(t) => {
            search::lemma_find_from(b, stamp_key, 0, d.stamp_at);
            if d.stamp_quoted {
                lemma_spaced_string(b, d.stamp_gap, t, d.stamp_at + stamp_key.len());
                lemma_stamp_number(t);
            } else {
                assert(t =~= seq![t[0]]);
                lemma_token(b, d.stamp_gap, t[0], d.stamp_at + stamp_key.len());
            }
        },
        None => {
            lemma_no_first(b, stamp_key, 0);
            search::lemma_find_from(b, event_key, 0, d.event_at);
            lemma_spaced_string(b, d.event_gap, d.event, d.event_at + event_key.len());
        },
    }
    let behind = grammar::optional_raw_levels_at(b, bids_key, start, DEPTH as nat).1;
    match d.bids {
        Some(pairs) => {
            search::lemma_find_from(b, bids_key, start, d.bids_at);
            law_raw_levels(b, pairs, d.bids_at + bids_key.len(), 10);
        },
        None => {
            lemma_no_first(b, bids_key, start);
        },
    }
    match d.asks {
        Some(pairs) => {
            assert(search::first_at(b, asks_key, behind, d.asks_at));
            search::lemma_find_from(b, asks_key, behind, d.asks_at);
            law_raw_levels(b, pairs, d.asks_at + asks_key.len(), 10);
        },
        None => {
            lemma_no_first(b, asks_key, behind);
        },
    }
}

/// A walk over a message of Bitstamp gives its event, which is data wherever there is
/// a timestamp, the number of the timestamp and both sides.
pub proof fn law_bitstamp_walk<'a>(
    json: &'a str,
    r: Option<(&'a str, u64, ArrayVec<RawLevel, DEPTH>, ArrayVec<RawLevel, DEPTH>)>,
    d: Sent,
)
    requires
        call_ensures(bitstamp::walk, (json,), r),
        is_sent_message(json.spec_bytes(), d),
    ensures
        r is Some,
        (r->0).0.spec_bytes() == if d.stamp is Some {
            "data".spec_bytes()
        } else {
            d.event
        },
        (r->0).1 == stamp_number(d),
        capped::contents(&(r->0).2) == sent_levels(d.bids),
        capped::contents(&(r->0).3) == sent_levels(d.asks),
{
    lemma_sent_message(json.spec_bytes(), d);
}

/// A message of Bitstamp with data, whose timestamp is above the remembered one or
/// where either is zero, gives a book of its levels, and its timestamp is remembered;
/// one whose timestamp is not above gives none and counts as an error. An error of the
/// server counts and leads to a reconnect, and any other event changes nothing.
pub proof fn law_bitstamp_message_gives_book(
    h: &mut BitstampHandler,
    text: &str,
    decode_start: u64,
    m: &mut ExchangeMetrics,
    r: Processed,
    d: Sent,
)
    requires
        call_ensures(
            <BitstampHandler as WsHandler>::process_text,
            (h, text, decode_start, m),
            r,
        ),
        is_sent_message(text.spec_bytes(), d),
    ensures
        ({
            let micro = stamp_number(d);
            let last = old(h).last_micro;
            let error = {
                &&& final(m).errors == (old(m).errors + 1) % 0x1_0000_0000_0000_0000
                &&& *final(m) == (ExchangeMetrics { errors: final(m).errors, ..*old(m) })
            };
            if d.stamp is Some || d.event == "data".spec_bytes() {
                if micro > last || micro == 0 || last == 0 {
                    &&& r matches Processed::Book(book) && book.exchange_id == 1
                        && capped::contents(&book.bids) == sent_levels(d.bids) && capped::contents(
                        &book.asks,
                    ) == sent_levels(d.asks) && book.decode_start == decode_start
                    &&& final(h).last_micro == micro
                    &&& *final(m) == *old(m)
                } else {
                    &&& r == Processed::Done(HandleResult::Continue)
                    &&& final(h).last_micro == last
                    &&& error
                }
            } else if d.event == "bts:error".spec_bytes() {
                &&& r == Processed::Done(HandleResult::Reconnect)
                &&& final(h).last_micro == last
                &&& error
            } else {
                &&& r == Processed::Done(HandleResult::Continue)
                &&& final(h).last_micro == last
                &&& *final(m) == *old(m)
            }
        }),
{
    lemma_sent_message(text.spec_bytes(), d);
}

/// Decoding a message of Bitstamp gives a book of its levels, whatever its timestamp,
/// where it holds data, and nothing for any other event.
pub proof fn law_bitstamp_message_decodes(
    json: &str,
    decode_start: u64,
    r: Option<OrderBook>,
    d: Sent,
)
    requires
        call_ensures(bitstamp::parse_order_book_json, (json, decode_start), r),
        is_sent_message(json.spec_bytes(), d),
    ensures
        r is Some <==> d.stamp is Some || d.event == "data".spec_bytes(),
        r is Some ==> {
            &&& r->0.exchange_id == 1
            &&& capped::contents(&r->0.bids) == sent_levels(d.bids)
            &&& capped::contents(&r->0.asks) == sent_levels(d.asks)
            &&& r->0.decode_start == decode_start
        },
{
    lemma_sent_message(json.spec_bytes(), d);
}

/// Every level of a book that a message of Bitstamp gives stands in the message as a
/// pair of quoted decimals, and its amount is not zero.
pub proof fn law_bitstamp_levels_were_sent(
    json: &str,
    decode_start: u64,
    r: Option<OrderBook>,
    k: int,
)
    requires
        call_ensures(bitstamp::parse_order_book_json, (json, decode_start), r),
        r is Some,
    ensures
        0 <= k < capped::contents(&r->0.bids).len() ==> was_sent(
            json.spec_bytes(),
            capped::contents(&r->0.bids)[k],
        ),
        0 <= k < capped::contents(&r->0.asks).len() ==> was_sent(
            json.spec_bytes(),
            capped::contents(&r->0.asks)[k],
        ),
{
    let b = json.spec_bytes();
    let stamp = search::find_from(b, bitstamp::microtimestamp_key(), 0);
    let start = match stamp {
        Some(at) => bitstamp::micro_at(b, at).1,
        None => 0,
    };
    let n = DEPTH as nat;
    let bids_at = search::find_from(b, bitstamp::bids_key(), start);
    let behind = grammar::optional_raw_levels_at(b, bitstamp::bids_key(), start, n).1;
    let asks_at = search::find_from(b, bitstamp::asks_key(), behind);
    if 0 <= k < capped::contents(&r->0.bids).len() {
        let p = bids_at->0 + bitstamp::bids_key().len();
        lemma_levels_were_sent(b, p + 1, Seq::empty(), n, k);
    }
    if 0 <= k < capped::contents(&r->0.asks).len() {
        let p = asks_at->0 + bitstamp::asks_key().len();
        lemma_levels_were_sent(b, p + 1, Seq::empty(), n, k);
    }
}

/// Whether a level stands in a message as a pair of quoted decimals, with a nonzero
/// amount.
pub open spec fn was_sent(b: Seq<u8>, l: RawLevel) -> bool {
    &&& l.amount.0 != 0
    &&& exists|at: int, pair: grammar::TextPair| #[trigger]
        search::occurs_at(b, pair_json(pair), at) && FixedPoint::spec_parse(pair.0) == Some(
            l.price,
        ) && FixedPoint::spec_parse(pair.1) == Some(l.amount)
}

/// A message of Bitstamp with neither timestamp nor event is refused, and counts as
/// an error.
pub proof fn law_bitstamp_needs_event(
    h: &mut BitstampHandler,
    text: &str,
    decode_start: u64,
    m: &mut ExchangeMetrics,
    r: Processed,
    book: Option<OrderBook>,
)
    requires
        call_ensures(
            <BitstampHandler as WsHandler>::process_text,
            (h, text, decode_start, m),
            r,
        ),
        call_ensures(bitstamp::parse_order_book_json, (text, decode_start), book),
        forall|i: int|
            !search::occurs_at(text.spec_bytes(), "\"microtimestamp\":".spec_bytes(), i),
        forall|i: int| !search::occurs_at(text.spec_bytes(), "\"event\":".spec_bytes(), i),
    ensures
        r == Processed::Done(HandleResult::Continue),
        book is None,
        final(h).last_micro == old(h).last_micro,
        final(m).errors == (old(m).errors + 1) % 0x1_0000_0000_0000_0000,
        *final(m) == (ExchangeMetrics { errors: final(m).errors, ..*old(m) }),
{
}

/// The description of an error of the server is the string behind its key, `unknown`
/// where there is no such key.
pub proof fn law_server_message(text: &str, r: &str, w: Seq<u8>, t: Seq<u8>, at: int)
    requires
        call_ensures(bitstamp::server_message, (text,), r),
    ensures
        search::first_at(text.spec_bytes(), "\"message\":".spec_bytes(), 0, at) && all_space(w)
            && is_content(t) && search::occurs_at(
            text.spec_bytes(),
            w + quoted(t),
            at + "\"message\":".spec_bytes().len(),
        ) ==> r.spec_bytes() == t,
        (forall|i: int| !search::occurs_at(text.spec_bytes(), "\"message\":".spec_bytes(), i))
            ==> r@ == "unknown"@,
{
    let b = text.spec_bytes();
    let key = bitstamp::message_key();
    if search::first_at(b, key, 0, at) && all_space(w) && is_content(t) && search::occurs_at(
        b,
        w + quoted(t),
        at + key.len(),
    ) {
        search::lemma_find_from(b, key, 0, at);
        lemma_spaced_string(b, w, t, at + key.len());
    }
}

/// A seek leads behind the first place, from where the scanner stands, at which the
/// key stands; without one it leads nowhere.
pub proof fn law_seek<'a>(
    s: &mut Scanner<'a>,
    finder: &memmem::Finder<'_>,
    r: Option<()>,
    j: int,
)
    requires
        old(s).wf(),
        call_ensures(Scanner::<'a>::seek, (s, finder), r),
    ensures
        ({
            let key = search::needle_of(finder);
            let b = old(s).buf@;
            &&& r is Some ==> {
                let at = final(s).pos - key.len();
                &&& old(s).pos <= at
                &&& at + key.len() <= b.len()
                &&& forall|i: int| 0 <= i < key.len() ==> b[at + i] == key[i]
                &&& old(s).pos <= j < at ==> b.subrange(j, j + key.len()) != key
            }
            &&& r is None ==> {
                &&& final(s).pos == old(s).pos
                &&& old(s).pos <= j && j + key.len() <= b.len() ==> b.subrange(j, j + key.len())
                    != key
            }
        }),
{
    let key = search::needle_of(finder);
    let b = old(s).buf@;
    let p = old(s).pos as int;
    if r is Some {
        let at = choose|at: int| search::first_at(b, key, p, at);
        assert(search::first_at(b, key, p, at));
        lemma_occurs_bytes(b, key, at);
        if p <= j < at && b.subrange(j, j + key.len()) == key {
            assert(search::occurs_at(b, key, j));
        }
    } else if p <= j && j + key.len() <= b.len() && b.subrange(j, j + key.len()) == key {
        lemma_first_exists(b, key, p, j);
    }
}

/// Where a key stands anywhere, it stands somewhere first.
proof fn lemma_first_exists(b: Seq<u8>, key: Seq<u8>, from: int, at: int)
    requires
        from <= at,
        search::occurs_at(b, key, at),
    ensures
        exists|i: int| search::first_at(b, key, from, i),
    decreases at - from,
{
    if exists|j: int| from <= j < at && search::occurs_at(b, key, j) {
        let j = choose|j: int| from <= j < at && search::occurs_at(b, key, j);
        lemma_first_exists(b, key, from, j);
    } else {
        assert(search::first_at(b, key, from, at));
    }
}

/// Levels whose key is missing are none, and the scanner stays where it is; behind
/// their key they are read as they stand.
pub proof fn law_read_optional_raw_levels<'a, const N: usize>(
    s: &mut Scanner<'a>,
    finder: &memmem::Finder<'_>,
    r: Option<ArrayVec<RawLevel, N>>,
    at: int,
    pairs: Seq<grammar::TextPair>,
)
    requires
        old(s).wf(),
        N <= u32::MAX,
        call_ensures(Scanner::<'a>::read_optional_raw_levels::<N>, (s, finder), r),
    ensures
        ({
            let key = search::needle_of(finder);
            let b = old(s).buf@;
            &&& (forall|i: int| old(s).pos <= i ==> !search::occurs_at(b, key, i)) ==> {
                &&& r is Some
                &&& capped::contents(&r->0).len() == 0
                &&& final(s).pos == old(s).pos
            }
            &&& search::first_at(b, key, old(s).pos as int, at) && all_decimal(pairs)
                && search::occurs_at(b, levels_json(pairs), at + key.len()) ==> {
                &&& r is Some
                &&& capped::contents(&r->0) == first_levels(nonzero(parsed(pairs)), N as nat)
            }
        }),
{
    let key = search::needle_of(finder);
    let b = old(s).buf@;
    let p = old(s).pos as int;
    if search::first_at(b, key, p, at) && all_decimal(pairs) && search::occurs_at(
        b,
        levels_json(pairs),
        at + key.len(),
    ) {
        search::lemma_find_from(b, key, p, at);
        law_raw_levels(b, pairs, at + key.len(), N as nat);
    }
}

/// The string behind the first occurrence of a key is extracted, whitespace in
/// between or not; without the key there is none.
pub proof fn law_extract_string<'a>(
    json: &'a str,
    pattern: &[u8],
    r: Option<&'a str>,
    w: Seq<u8>,
    t: Seq<u8>,
    at: int,
)
    requires
        call_ensures(json_walker::extract_string, (json, pattern), r),
    ensures
        search::first_at(json.spec_bytes(), pattern@, 0, at) && all_space(w) && is_content(t)
            && search::occurs_at(json.spec_bytes(), w + quoted(t), at + pattern@.len())
            ==> r is Some && r->0.spec_bytes() == t,
        (forall|i: int| !search::occurs_at(json.spec_bytes(), pattern@, i)) ==> r is None,
{
    let b = json.spec_bytes();
    if search::first_at(b, pattern@, 0, at) && all_space(w) && is_content(t) && search::occurs_at(
        b,
        w + quoted(t),
        at + pattern@.len(),
    ) {
        search::lemma_find_from(b, pattern@, 0, at);
        lemma_spaced_string(b, w, t, at + pattern@.len());
    }
}

/// A look at the next byte does not move the scanner; expecting a byte moves past it,
/// and past whitespace in front of it where that is allowed, and tells whether it was
/// there.
pub proof fn law_next_byte<'a>(
    s: &Scanner<'a>,
    next: Option<u8>,
    strict: &mut Scanner<'a>,
    loose: &mut Scanner<'a>,
    skipped: &mut Scanner<'a>,
    byte: u8,
    there: bool,
    found: bool,
    w: Seq<u8>,
    then: u8,
)
    requires
        s.wf(),
        call_ensures(Scanner::<'a>::peek, (s,), next),
        *old(strict) == *s,
        call_ensures(Scanner::<'a>::expect_byte, (strict, byte), there),
        *old(loose) == *s,
        call_ensures(Scanner::<'a>::expect, (loose, byte), found),
        *old(skipped) == *s,
        call_ensures(Scanner::<'a>::skip_ws, (skipped,), ()),
        all_space(w),
        then != 32 && then != 9 && then != 10 && then != 13,
        search::occurs_at(s.buf@, w + seq![then], s.pos as int),
    ensures
        next == Some(s.buf@[s.pos as int]),
        there <==> s.buf@[s.pos as int] == byte,
        final(strict).pos == s.pos + if there {
            1int
        } else {
            0int
        },
        found <==> then == byte,
        final(loose).pos == s.pos + w.len() + if found {
            1int
        } else {
            0int
        },
        final(skipped).pos == s.pos + w.len(),
{
    let b = s.buf@;
    let p = s.pos as int;
    let one = seq![then];
    lemma_occurs_concat(b, w, one, p);
    lemma_occurs_bytes(b, one, p + w.len());
    assert(b[p + w.len() + 0] == one[0]);
    lemma_token(b, w, then, p);
}

/// A string that is read stands in the message between quotes.
proof fn lemma_string_was_sent(b: Seq<u8>, p: int)
    requires
        0 <= p <= b.len(),
        grammar::string_at(b, p).0 is Some,
    ensures
        search::occurs_at(
            b,
            quoted(grammar::string_at(b, p).0->0),
            grammar::after_space(b, p),
        ),
{
    grammar::lemma_after_space(b, p);
    let open = grammar::after_space(b, p);
    grammar::lemma_string_end(b, open + 1);
    let close = grammar::string_end(b, open + 1);
    let t = b.subrange(open + 1, close);
    assert(b.subrange(open, open + quoted(t).len()) =~= quoted(t));
}

/// Both texts of every level that is read behind those in `acc` stand in the message
/// between quotes.
proof fn lemma_texts_were_sent(
    b: Seq<u8>,
    p: int,
    acc: Seq<grammar::TextPair>,
    n: nat,
    k: int,
)
    requires
        0 <= p <= b.len(),
        grammar::text_pairs_from(b, p, acc, n).0 is Some,
        acc.len() <= k < grammar::text_pairs_from(b, p, acc, n).0->0.len(),
    ensures
        ({
            let pair = grammar::text_pairs_from(b, p, acc, n).0->0[k];
            exists|i: int, j: int|
                i < j && #[trigger] search::occurs_at(b, quoted(pair.0), i)
                    && #[trigger] search::occurs_at(b, quoted(pair.1), j)
        }),
    decreases b.len() - p,
{
    let (found, behind) = grammar::text_pair_at(b, p);
    let levels = acc.push(found->0);
    let all = grammar::text_pairs_from(b, p, acc, n).0->0;
    let next = grammar::after_space(b, behind);
    grammar::lemma_text_pair_end(b, p);
    grammar::lemma_after_space(b, behind);
    grammar::lemma_after_space(b, p);
    let start = grammar::after_space(b, p) + 1;
    grammar::lemma_string_end_at(b, start);
    lemma_string_was_sent(b, start);
    let behind_price = grammar::string_at(b, start).1;
    grammar::lemma_after_space(b, behind_price);
    grammar::lemma_after_space(b, start);
    let second = grammar::after_space(b, behind_price) + 1;
    lemma_string_was_sent(b, second);
    grammar::lemma_after_space(b, second);
    let i = grammar::after_space(b, start);
    let j = grammar::after_space(b, second);
    grammar::lemma_string_end(b, i + 1);
    assert(i < j);
    assert(search::occurs_at(b, quoted((found->0).0), i));
    assert(search::occurs_at(b, quoted((found->0).1), j));
    if levels.len() < n && grammar::byte_at(b, next, COMMA) {
        if k >= levels.len() {
            lemma_texts_were_sent(b, next + 1, levels, n, k);
        } else {
            lemma_text_pairs_capacity(b, next + 1, levels, levels.len(), n);
            assert(all.take(levels.len() as int)[k] == all[k]);
            assert(all[k] == found->0);
        }
    } else {
        assert(all[k] == found->0);
    }
}

/// Whatever texts of levels are read, at most twenty, stand in the message between
/// quotes, each price in front of its amount.
pub proof fn law_level_texts_were_sent<'a>(s: &mut Scanner<'a>, r: Option<Levels<'a>>, k: int)
    requires
        old(s).wf(),
        call_ensures(json_walker::read_levels, (s,), r),
        r is Some,
    ensures
        0 <= k < json_walker::level_texts(&r->0).len() ==> {
            let pair = json_walker::level_texts(&r->0)[k];
            exists|i: int, j: int|
                i < j && #[trigger] search::occurs_at(old(s).buf@, quoted(pair.0), i)
                    && #[trigger] search::occurs_at(old(s).buf@, quoted(pair.1), j)
        },
{
    let b = old(s).buf@;
    let p = old(s).pos as int;
    grammar::lemma_after_space(b, p);
    let first = grammar::after_space(b, grammar::after_space(b, p) + 1);
    grammar::lemma_after_space(b, grammar::after_space(b, p) + 1);
    if 0 <= k < json_walker::level_texts(&r->0).len() {
        lemma_texts_were_sent(b, first, Seq::empty(), MAX_LEVELS as nat, k);
    }
}

/// A scanner starts in front of the whole message.
pub proof fn law_new_scanner<'a>(json: &'a str, r: Scanner<'a>)
    requires
        call_ensures(Scanner::<'a>::new, (json,), r),
    ensures
        r.pos == 0,
        r.buf@ == json.spec_bytes(),
{
}

/// What stands at a place in parts stands there as a whole.
proof fn lemma_occurs_join(b: Seq<u8>, x: Seq<u8>, y: Seq<u8>, p: int)
    requires
        search::occurs_at(b, x, p),
        search::occurs_at(b, y, p + x.len()),
    ensures
        search::occurs_at(b, x + y, p),
{
    lemma_occurs_bytes(b, x, p);
    lemma_occurs_bytes(b, y, p + x.len());
    let t = x + y;
    assert(b.subrange(p, p + t.len()) =~= t) by {
        assert forall|i: int| 0 <= i < t.len() implies b[p + i] == t[i] by {
            if i < x.len() {
                assert(b[p + i] == x[i]);
            } else {
                assert(b[p + x.len() + (i - x.len())] == y[i - x.len()]);
            }
        }
    }
}

proof fn lemma_occurs_byte(b: Seq<u8>, byte: u8, p: int)
    requires
        grammar::byte_at(b, p, byte),
    ensures
        search::occurs_at(b, seq![byte], p),
{
    assert(b.subrange(p, p + 1) =~= seq![byte]);
}

/// Levels that are read are pairs in compact JSON with commas between them. Behind the
/// last one that was looked at, the list ends, or goes on where there is no more room.
proof fn lemma_pairs_exact(b: Seq<u8>, p: int, acc: Seq<RawLevel>, n: nat) -> (pairs: Seq<
    grammar::TextPair,
>)
    requires
        grammar::pairs_from(b, p, acc, n).0 is Some,
        acc.len() < n,
    ensures
        pairs.len() > 0,
        all_decimal(pairs),
        search::occurs_at(b, pairs_json(pairs), p),
        grammar::pairs_from(b, p, acc, n).0 == exchange::levels_of_texts(pairs, acc, n),
        ({
            let end = p + pairs_json(pairs).len();
            ||| grammar::byte_at(b, end, CLOSE_BRACKET)
            ||| grammar::byte_at(b, end, COMMA) && grammar::pairs_from(b, p, acc, n).0->0.len()
                == n
        }),
        grammar::pairs_from(b, p, acc, n).1 == p + pairs_json(pairs).len() + 1,
    decreases b.len() - p,
{
    let (found, behind) = grammar::pair_at(b, p);
    let levels = grammar::with_nonzero(acc, found->0);
    grammar::lemma_pair_end(b, p);
    let pair = lemma_pair_was_sent(b, p);
    if levels.len() < n && grammar::byte_at(b, behind, COMMA) {
        let rest = lemma_pairs_exact(b, behind + 1, levels, n);
        let pairs = seq![pair] + rest;
        assert(pairs.skip(1) =~= rest);
        lemma_occurs_byte(b, COMMA, behind);
        lemma_occurs_join(b, pair_json(pair), seq![COMMA], p);
        lemma_occurs_join(b, pair_json(pair) + seq![COMMA], pairs_json(rest), p);
        assert forall|i: int| 0 <= i < pairs.len() implies FixedPoint::spec_parse(
            (#[trigger] pairs[i]).0,
        ) is Some && FixedPoint::spec_parse(pairs[i].1) is Some by {
            if i > 0 {
                assert(pairs[i] == rest[i - 1]);
            }
        }
        pairs
    } else {
        let pairs = seq![pair];
        assert(pairs.skip(1) =~= Seq::empty());
        assert(exchange::levels_of_texts(pairs.skip(1), levels, n) == Some(levels));
        pairs
    }
}

/// Whatever a reader of levels accepts is a list of pairs of quoted decimals in compact
/// JSON, and what it gives are its first levels with a nonzero amount. What it looks at
/// goes up to the end of the list, or to the comma behind the last level that there was
/// room for.
pub proof fn law_raw_levels_are_a_list<const N: usize>(
    s: &mut Scanner<'_>,
    r: Option<ArrayVec<RawLevel, N>>,
)
    requires
        old(s).wf(),
        0 < N <= u32::MAX,
        call_ensures(json_walker::read_raw_levels::<N>, (s,), r),
        r is Some,
    ensures
        exists|pairs: Seq<grammar::TextPair>|
            {
                let b = old(s).buf@;
                let p = old(s).pos as int;
                let whole = #[trigger] levels_json(pairs);
                &&& all_decimal(pairs)
                &&& capped::contents(&r->0) == first_levels(nonzero(parsed(pairs)), N as nat)
                &&& final(s).pos == p + whole.len()
                &&& {
                    ||| search::occurs_at(b, whole, p)
                    ||| search::occurs_at(b, whole.drop_last().push(COMMA), p) && capped::contents(
                        &r->0,
                    ).len() == N
                }
            },
{
    let b = old(s).buf@;
    let p = old(s).pos as int;
    let open = seq![OPEN_BRACKET];
    lemma_occurs_byte(b, OPEN_BRACKET, p);
    if grammar::byte_at(b, p + 1, CLOSE_BRACKET) {
        let pairs = Seq::<grammar::TextPair>::empty();
        lemma_occurs_byte(b, CLOSE_BRACKET, p + 1);
        lemma_occurs_join(b, open, seq![CLOSE_BRACKET], p);
        assert(levels_json(pairs) =~= open + seq![CLOSE_BRACKET]);
        assert(nonzero(parsed(pairs)) =~= Seq::empty());
        assert(all_decimal(pairs));
        assert(capped::contents(&r->0) =~= first_levels(nonzero(parsed(pairs)), N as nat));
    } else {
        let pairs = lemma_pairs_exact(b, p + 1, Seq::empty(), N as nat);
        let json = pairs_json(pairs);
        let end = p + 1 + json.len();
        let whole = levels_json(pairs);
        law_first_nonzero(pairs, Seq::empty(), N as nat);
        assert(Seq::<RawLevel>::empty() + nonzero(parsed(pairs)) =~= nonzero(parsed(pairs)));
        lemma_occurs_join(b, open, json, p);
        if grammar::byte_at(b, end, CLOSE_BRACKET) {
            lemma_occurs_byte(b, CLOSE_BRACKET, end);
            lemma_occurs_join(b, open + json, seq![CLOSE_BRACKET], p);
        } else {
            lemma_occurs_byte(b, COMMA, end);
            lemma_occurs_join(b, open + json, seq![COMMA], p);
            assert(whole.drop_last().push(COMMA) =~= open + json + seq![COMMA]);
        }
    }
}

/// What is skipped as whitespace is whitespace.
proof fn lemma_skipped_is_space(b: Seq<u8>, p: int)
    requires
        0 <= p <= b.len(),
    ensures
        p <= grammar::after_space(b, p) <= b.len(),
        all_space(b.subrange(p, grammar::after_space(b, p))),
        search::occurs_at(b, b.subrange(p, grammar::after_space(b, p)), p),
    decreases b.len() - p,
{
    grammar::lemma_after_space(b, p);
    let w = b.subrange(p, grammar::after_space(b, p));
    if p < b.len() && grammar::is_space(b[p]) {
        lemma_skipped_is_space(b, p + 1);
        let rest = b.subrange(p + 1, grammar::after_space(b, p + 1));
        assert forall|i: int| 0 <= i < w.len() implies {
            let x = #[trigger] w[i];
            x == 32 || x == 9 || x == 10 || x == 13
        } by {
            if i > 0 {
                assert(w[i] == rest[i - 1]);
            }
        }
    }
}

/// What is read as the content of a string is one.
proof fn lemma_read_is_content(b: Seq<u8>, i: int)
    requires
        0 <= i <= b.len(),
        grammar::string_end(b, i) < b.len(),
    ensures
        i <= grammar::string_end(b, i),
        is_content(b.subrange(i, grammar::string_end(b, i))),
    decreases b.len() - i,
{
    grammar::lemma_string_end(b, i);
    let end = grammar::string_end(b, i);
    let t = b.subrange(i, end);
    if i < end {
        let n: int = if b[i] == 92 {
            2
        } else {
            1
        };
        lemma_read_is_content(b, i + n);
        assert(t[0] == b[i]);
        assert(t.skip(n) =~= b.subrange(i + n, end));
    }
}

/// A string that is read stands behind whitespace between quotes.
proof fn lemma_string_exact(b: Seq<u8>, p: int)
    requires
        0 <= p <= b.len(),
        grammar::string_at(b, p).0 is Some,
    ensures
        ({
            let w = b.subrange(p, grammar::after_space(b, p));
            let t = grammar::string_at(b, p).0->0;
            &&& all_space(w)
            &&& is_content(t)
            &&& search::occurs_at(b, w + quoted(t), p)
            &&& grammar::string_at(b, p).1 == p + w.len() + t.len() + 2
            &&& grammar::string_at(b, p).1 <= b.len()
        }),
{
    lemma_skipped_is_space(b, p);
    lemma_string_was_sent(b, p);
    let open = grammar::after_space(b, p);
    let w = b.subrange(p, open);
    let t = grammar::string_at(b, p).0->0;
    lemma_read_is_content(b, open + 1);
    lemma_occurs_join(b, w, quoted(t), p);
}

/// A byte that is found behind whitespace stands there.
proof fn lemma_token_exact(b: Seq<u8>, p: int, byte: u8)
    requires
        0 <= p <= b.len(),
        grammar::token_at(b, p, byte),
    ensures
        ({
            let w = b.subrange(p, grammar::after_space(b, p));
            &&& all_space(w)
            &&& search::occurs_at(b, w + seq![byte], p)
            &&& w.len() == grammar::after_space(b, p) - p
        }),
{
    lemma_skipped_is_space(b, p);
    lemma_occurs_byte(b, byte, grammar::after_space(b, p));
    lemma_occurs_join(b, b.subrange(p, grammar::after_space(b, p)), seq![byte], p);
}

/// The gaps around the parts of a level that is read.
pub open spec fn gaps_at(b: Seq<u8>, p: int) -> Gaps {
    let open = grammar::after_space(b, p);
    let behind_price = grammar::string_at(b, open + 1).1;
    let comma = grammar::after_space(b, behind_price);
    let behind_amount = grammar::string_at(b, comma + 1).1;
    let end = grammar::text_pair_at(b, p).1;
    Gaps {
        open: b.subrange(p, open),
        price: b.subrange(open + 1, grammar::after_space(b, open + 1)),
        comma: b.subrange(behind_price, comma),
        amount: b.subrange(comma + 1, grammar::after_space(b, comma + 1)),
        close: b.subrange(behind_amount, grammar::after_space(b, behind_amount)),
        behind: b.subrange(end, grammar::after_space(b, end)),
    }
}

proof fn lemma_text_pair_exact(b: Seq<u8>, p: int)
    requires
        0 <= p <= b.len(),
        grammar::text_pair_at(b, p).0 is Some,
    ensures
        ({
            let pair = grammar::text_pair_at(b, p).0->0;
            let g = gaps_at(b, p);
            &&& are_gaps(g)
            &&& is_content(pair.0)
            &&& is_content(pair.1)
            &&& search::occurs_at(b, spaced_pair(pair, g), p)
            &&& grammar::text_pair_at(b, p).1 == p + spaced_pair(pair, g).len()
            &&& g.behind.len() == grammar::after_space(b, grammar::text_pair_at(b, p).1)
                - grammar::text_pair_at(b, p).1
        }),
{
    let pair = grammar::text_pair_at(b, p).0->0;
    let g = gaps_at(b, p);
    grammar::lemma_text_pair_end(b, p);
    let v = g.open + seq![OPEN_BRACKET];
    let w = g.price + quoted(pair.0);
    let x = g.comma + seq![COMMA];
    let y = g.amount + quoted(pair.1);
    let z = g.close + seq![CLOSE_BRACKET];
    grammar::lemma_after_space(b, p);
    lemma_token_exact(b, p, OPEN_BRACKET);
    let second = p + v.len();
    lemma_string_exact(b, second);
    let third = second + w.len();
    grammar::lemma_after_space(b, third);
    lemma_token_exact(b, third, COMMA);
    let fourth = third + x.len();
    lemma_string_exact(b, fourth);
    let fifth = fourth + y.len();
    grammar::lemma_after_space(b, fifth);
    lemma_token_exact(b, fifth, CLOSE_BRACKET);
    lemma_occurs_join(b, v, w, p);
    lemma_occurs_join(b, v + w, x, p);
    lemma_occurs_join(b, v + w + x, y, p);
    lemma_occurs_join(b, v + w + x + y, z, p);
    lemma_skipped_is_space(b, grammar::text_pair_at(b, p).1);
}

/// Levels with whitespace around their parts and commas between them, up to behind the
/// last of them.
pub open spec fn spaced_front(pairs: Seq<grammar::TextPair>, gaps: Seq<Gaps>) -> Seq<u8>
    decreases pairs.len(),
{
    if pairs.len() == 0 {
        Seq::empty()
    } else if pairs.len() == 1 {
        spaced_pair(pairs[0], gaps[0]) + gaps[0].behind
    } else {
        spaced_pair(pairs[0], gaps[0]) + (gaps[0].behind + seq![COMMA]) + spaced_front(
            pairs.skip(1),
            gaps.skip(1),
        )
    }
}

proof fn lemma_text_pairs_exact(
    b: Seq<u8>,
    p: int,
    acc: Seq<grammar::TextPair>,
    n: nat,
) -> (r: (Seq<grammar::TextPair>, Seq<Gaps>))
    requires
        0 <= p <= b.len(),
        grammar::text_pairs_from(b, p, acc, n).0 is Some,
        acc.len() < n,
    ensures
        r.0.len() > 0,
        gaps_fit(r.0, r.1),
        all_content(r.0),
        search::occurs_at(b, spaced_front(r.0, r.1), p),
        grammar::text_pairs_from(b, p, acc, n).0->0 == acc + r.0,
        ({
            let end = p + spaced_front(r.0, r.1).len();
            &&& grammar::text_pairs_from(b, p, acc, n).1 == end + 1
            &&& {
                ||| grammar::byte_at(b, end, CLOSE_BRACKET)
                ||| grammar::byte_at(b, end, COMMA) && acc.len() + r.0.len() == n
            }
        }),
    decreases b.len() - p,
{
    let (found, behind) = grammar::text_pair_at(b, p);
    let pair = found->0;
    let levels = acc.push(pair);
    let g = gaps_at(b, p);
    let next = grammar::after_space(b, behind);
    grammar::lemma_text_pair_end(b, p);
    lemma_text_pair_exact(b, p);
    lemma_skipped_is_space(b, behind);
    let here = spaced_pair(pair, g);
    if levels.len() < n && grammar::byte_at(b, next, COMMA) {
        let rest = lemma_text_pairs_exact(b, next + 1, levels, n);
        let pairs = seq![pair] + rest.0;
        let gaps = seq![g] + rest.1;
        assert(pairs.skip(1) =~= rest.0);
        assert(gaps.skip(1) =~= rest.1);
        lemma_occurs_byte(b, COMMA, next);
        lemma_occurs_join(b, g.behind, seq![COMMA], behind);
        lemma_occurs_join(b, here, g.behind + seq![COMMA], p);
        lemma_occurs_join(
            b,
            here + (g.behind + seq![COMMA]),
            spaced_front(rest.0, rest.1),
            p,
        );
        assert(levels + rest.0 =~= acc + pairs);
        assert forall|i: int| 0 <= i < pairs.len() implies is_content((#[trigger] pairs[i]).0)
            && is_content(pairs[i].1) by {
            if i > 0 {
                assert(pairs[i] == rest.0[i - 1]);
            }
        }
        assert forall|i: int| 0 <= i < gaps.len() implies are_gaps(#[trigger] gaps[i]) by {
            if i > 0 {
                assert(gaps[i] == rest.1[i - 1]);
            }
        }
        (pairs, gaps)
    } else {
        let pairs = seq![pair];
        let gaps = seq![g];
        lemma_occurs_join(b, here, g.behind, p);
        assert(levels =~= acc + pairs);
        (pairs, gaps)
    }
}

/// Whether texts stand from `p` on as a list of pairs of strings with whitespace around
/// their parts, and `end` is behind the bracket that closes it or, where there are
/// twenty, behind the comma with which it goes on.
pub open spec fn is_text_list(
    b: Seq<u8>,
    p: int,
    pairs: Seq<grammar::TextPair>,
    front: Seq<u8>,
    gaps: Seq<Gaps>,
    end: int,
) -> bool {
    let whole = front + seq![OPEN_BRACKET] + spaced_front(pairs, gaps);
    &&& all_space(front)
    &&& gaps_fit(pairs, gaps)
    &&& all_content(pairs)
    &&& search::occurs_at(b, whole, p)
    &&& end == p + whole.len() + 1
    &&& end <= b.len()
    &&& b[end - 1] == CLOSE_BRACKET || b[end - 1] == COMMA && pairs.len() == 20
}

/// Whatever the reader of level texts accepts is a list of pairs of strings, with
/// whitespace around their parts, and what it gives are the contents of these strings.
/// What it looks at goes up to the end of the list, or to the comma behind the
/// twentieth level.
pub proof fn law_level_texts_are_a_list<'a>(s: &mut Scanner<'a>, r: Option<Levels<'a>>)
    requires
        old(s).wf(),
        call_ensures(json_walker::read_levels, (s,), r),
        r is Some,
        json_walker::level_texts(&r->0).len() > 0,
    ensures
        exists|front: Seq<u8>, gaps: Seq<Gaps>| #[trigger]
            is_text_list(
                old(s).buf@,
                old(s).pos as int,
                json_walker::level_texts(&r->0),
                front,
                gaps,
                final(s).pos as int,
            ),
{
    let b = old(s).buf@;
    let p = old(s).pos as int;
    let open = grammar::after_space(b, p);
    let front = b.subrange(p, open);
    lemma_token_exact(b, p, OPEN_BRACKET);
    grammar::lemma_after_space(b, p);
    let first = grammar::after_space(b, open + 1);
    lemma_skipped_is_space(b, open + 1);
    let w = b.subrange(open + 1, first);
    let (pairs, gaps) = lemma_text_pairs_exact(b, first, Seq::empty(), 20);
    assert(Seq::<grammar::TextPair>::empty() + pairs =~= pairs);
    // What stands in front of the first level belongs to its gaps.
    let g = gaps[0];
    let wide = gaps.update(0, Gaps { open: w + g.open, ..g });
    assert forall|i: int| 0 <= i < wide.len() implies are_gaps(#[trigger] wide[i]) by {
        assert(are_gaps(gaps[i]));
        if i == 0 {
            let x = w + g.open;
            assert forall|k: int| 0 <= k < x.len() implies {
                let y = #[trigger] x[k];
                y == 32 || y == 9 || y == 10 || y == 13
            } by {
                if k < w.len() {
                    assert(x[k] == w[k]);
                } else {
                    assert(x[k] == g.open[k - w.len()]);
                }
            }
        }
    }
    assert(wide.skip(1) =~= gaps.skip(1));
    assert(spaced_front(pairs, wide) =~= w + spaced_front(pairs, gaps));
    lemma_occurs_join(b, w, spaced_front(pairs, gaps), open + 1);
    lemma_occurs_join(b, front + seq![OPEN_BRACKET], spaced_front(pairs, wide), p);
    assert(is_text_list(b, p, pairs, front, wide, final(s).pos as int));
}

/// Whether the timestamp of a message, if it has one, ends at `start`.
pub open spec fn stamp_ends(b: Seq<u8>, d: Sent, start: int) -> bool {
    let key = "\"microtimestamp\":".spec_bytes();
    match d.stamp {
        Some(t) => {
            &&& search::first_at(b, key, 0, d.stamp_at)
            &&& d.stamp_quoted
            &&& search::occurs_at(b, d.stamp_gap + quoted(t), d.stamp_at + key.len())
            &&& all_space(d.stamp_gap)
            &&& is_content(t)
            &&& start == d.stamp_at + key.len() + d.stamp_gap.len() + t.len() + 2
        },
        None => {
            &&& forall|i: int| !search::occurs_at(b, key, i)
            &&& start == 0
        },
    }
}

/// Where the bids or the asks behind their key cannot be read, a message of Bitstamp
/// counts as an error and gives no book.
pub proof fn law_bitstamp_refuses_malformed(
    h: &mut BitstampHandler,
    text: &str,
    decode_start: u64,
    m: &mut ExchangeMetrics,
    r: Processed,
    book: Option<OrderBook>,
    d: Sent,
    start: int,
    bids: &mut Scanner<'_>,
    bids_read: Option<ArrayVec<RawLevel, DEPTH>>,
    asks: &mut Scanner<'_>,
    asks_read: Option<ArrayVec<RawLevel, DEPTH>>,
)
    requires
        call_ensures(
            <BitstampHandler as WsHandler>::process_text,
            (h, text, decode_start, m),
            r,
        ),
        call_ensures(bitstamp::parse_order_book_json, (text, decode_start), book),
        stamp_ends(text.spec_bytes(), d, start),
        old(bids).wf(),
        old(bids).src == text,
        search::first_at(
            text.spec_bytes(),
            "\"bids\":".spec_bytes(),
            start,
            old(bids).pos - "\"bids\":".spec_bytes().len(),
        ),
        call_ensures(json_walker::read_raw_levels::<DEPTH>, (bids,), bids_read),
        old(asks).wf(),
        old(asks).src == text,
        search::first_at(
            text.spec_bytes(),
            "\"asks\":".spec_bytes(),
            final(bids).pos as int,
            old(asks).pos - "\"asks\":".spec_bytes().len(),
        ),
        call_ensures(json_walker::read_raw_levels::<DEPTH>, (asks,), asks_read),
        bids_read is None || asks_read is None,
    ensures
        r == Processed::Done(HandleResult::Continue),
        book is None,
        final(h).last_micro == old(h).last_micro,
        final(m).errors == (old(m).errors + 1) % 0x1_0000_0000_0000_0000,
{
    let b = text.spec_bytes();
    let key = bitstamp::microtimestamp_key();
    match d.stamp {
        Some(t) => {
            search::lemma_find_from(b, key, 0, d.stamp_at);
            lemma_spaced_string(b, d.stamp_gap, t, d.stamp_at + key.len());
        },
        None => {
            lemma_no_first(b, key, 0);
        },
    }
    search::lemma_find_from(
        b,
        bitstamp::bids_key(),
        start,
        old(bids).pos - bitstamp::bids_key().len(),
    );
    search::lemma_find_from(
        b,
        bitstamp::asks_key(),
        final(bids).pos as int,
        old(asks).pos - bitstamp::asks_key().len(),
    );
}

/// Whether the number of a depth message, if it has one, fits and ends at `start`.
pub open spec fn number_ends(b: Seq<u8>, d: Depth, start: int) -> bool {
    let key = "\"lastUpdateId\":".spec_bytes();
    if d.digits.len() > 0 {
        &&& search::first_at(b, key, 0, d.number_at)
        &&& search::occurs_at(b, d.number_gap + d.digits, d.number_at + key.len())
        &&& all_space(d.number_gap)
        &&& spells_number(d.digits)
        &&& start == d.number_at + key.len() + d.number_gap.len() + d.digits.len()
        &&& start < b.len() ==> !(48 <= b[start] <= 57)
    } else {
        &&& forall|i: int| !search::occurs_at(b, key, i)
        &&& start == 0
    }
}

/// Where the bids or the asks behind their key cannot be read, a message of Binance
/// counts as an error and gives no book, and its number is not remembered.
pub proof fn law_binance_refuses_malformed<'a>(
    h: &mut BinanceHandler,
    text: &'a str,
    decode_start: u64,
    m: &mut ExchangeMetrics,
    r: Processed,
    book: Option<OrderBook>,
    d: Depth,
    start: int,
    bids: &mut Scanner<'a>,
    bids_read: Option<Levels<'a>>,
    asks: &mut Scanner<'a>,
    asks_read: Option<Levels<'a>>,
)
    requires
        call_ensures(
            <BinanceHandler as WsHandler>::process_text,
            (h, text, decode_start, m),
            r,
        ),
        call_ensures(binance::parse_depth_json, (text, decode_start), book),
        number_ends(text.spec_bytes(), d, start),
        old(bids).wf(),
        old(bids).src == text,
        search::first_at(
            text.spec_bytes(),
            "\"bids\":".spec_bytes(),
            start,
            old(bids).pos - "\"bids\":".spec_bytes().len(),
        ),
        call_ensures(json_walker::read_levels, (bids,), bids_read),
        old(asks).wf(),
        old(asks).src == text,
        search::first_at(
            text.spec_bytes(),
            "\"asks\":".spec_bytes(),
            final(bids).pos as int,
            old(asks).pos - "\"asks\":".spec_bytes().len(),
        ),
        call_ensures(json_walker::read_levels, (asks,), asks_read),
        bids_read is None || asks_read is None,
    ensures
        r == Processed::Done(HandleResult::Continue),
        book is None,
        final(h).last_seq == old(h).last_seq,
        final(m).errors == (old(m).errors + 1) % 0x1_0000_0000_0000_0000,
{
    let b = text.spec_bytes();
    let key = binance::last_update_id_key();
    if d.digits.len() > 0 {
        search::lemma_find_from(b, key, 0, d.number_at);
        lemma_spaced_number(b, d.number_gap, d.digits, d.number_at + key.len());
    } else {
        lemma_no_first(b, key, 0);
    }
    search::lemma_find_from(
        b,
        binance::bids_key(),
        start,
        old(bids).pos - binance::bids_key().len(),
    );
    search::lemma_find_from(
        b,
        binance::asks_key(),
        final(bids).pos as int,
        old(asks).pos - binance::asks_key().len(),
    );
}

} // verus!
