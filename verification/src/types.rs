//! Core domain types for order book data.
//!
//! All types on the hot path keep their levels inline, in an [`ArrayVec`]: no
//! heap allocation between a received message and the merged output.

use std::cmp::Ordering;

use arrayvec::ArrayVec;
use vstd::arithmetic::power::pow;
use vstd::prelude::*;
use vstd::string::*;

use crate::ascii::{DOT, ZERO};
use crate::capped;
use crate::decimal;
use crate::decimal::{power_of_ten, FRACTION_DIGITS, SCALE};
use crate::text;
use crate::text::{append_number, append_padded};

verus! {

/// Order book depth: levels per side, in the book of one exchange and in the
/// merged output. Exchanges send their levels sorted, so a level beyond the
/// output depth can never appear in the merged output.
pub const DEPTH: usize = 10;

/// Fixed-point decimal with 8 fractional digits: `value * 10^-8` stored as
/// `u64`. The order of two values is that of the numbers they stand for.
#[derive(Debug, Clone, Copy, PartialEq, Eq, Structural, Ord, Hash)]
pub struct FixedPoint(pub u64);

impl PartialOrd for FixedPoint {
    fn partial_cmp(&self, other: &Self) -> (r: Option<Ordering>) {
        if self.0 < other.0 {
            Some(Ordering::Less)
        } else if self.0 == other.0 {
            Some(Ordering::Equal)
        } else {
            Some(Ordering::Greater)
        }
    }
}

impl vstd::std_specs::cmp::PartialOrdSpecImpl for FixedPoint {
    open spec fn obeys_partial_cmp_spec() -> bool {
        true
    }

    open spec fn partial_cmp_spec(&self, other: &Self) -> Option<Ordering> {
        if self.0 < other.0 {
            Some(Ordering::Less)
        } else if self.0 == other.0 {
            Some(Ordering::Equal)
        } else {
            Some(Ordering::Greater)
        }
    }
}

impl Default for FixedPoint {
    fn default() -> (r: Self)
        ensures
            r == FixedPoint(0),
    {
        FixedPoint(0)
    }
}

impl FixedPoint {
    /// What one unit is worth: ten to the eighth.
    pub const SCALE: u64 = 100_000_000;

    /// The value that a decimal text stands for.
    pub open spec fn spec_parse(text: Seq<u8>) -> Option<FixedPoint> {
        match decimal::fixed_point_of(text) {
            Some(raw) => Some(FixedPoint(raw)),
            None => None,
        }
    }

    /// `"123.456"` becomes `FixedPoint(12345600000)`, with no float in between.
    ///
    /// Returns `None` on empty input, non-digit bytes, or overflow.
    #[must_use]
    pub fn parse(s: &str) -> (r: Option<Self>)
        ensures
            r == FixedPoint::spec_parse(s.spec_bytes()),
    {
        let bytes = s.as_bytes();
        let len: usize = bytes.len();
        let ghost b = bytes@;
        let mut i: usize = 0;
        let mut int_part: u64 = 0;
        while i < len && bytes[i] != DOT
            invariant
                b == bytes@,
                len == b.len(),
                i <= len,
                forall|j: int| 0 <= j < i ==> decimal::is_digit(#[trigger] b[j]),
                int_part == decimal::digits_value(b.take(i as int)),
                b == s.spec_bytes(),
            decreases len - i,
        {
            let d: u8 = bytes[i].wrapping_sub(ZERO);
            if d > 9 {
                proof {
                    decimal::lemma_bad_integer(b, i as int);
                }
                return None;
            }
            proof {
                decimal::lemma_digits_value_push(b, i as int);
                decimal::lemma_digits_value_nonneg(b.take(i as int));
            }
            let shifted: u64 = match int_part.checked_mul(10) {
                Some(v) => v,
                None => {
                    proof {
                        decimal::lemma_integer_overflow(b, i as int);
                    }
                    return None;
                },
            };
            int_part = match shifted.checked_add(d as u64) {
                Some(v) => v,
                None => {
                    proof {
                        decimal::lemma_integer_overflow(b, i as int);
                    }
                    return None;
                },
            };
            i += 1;
        }
        let int_digits: usize = i;
        proof {
            decimal::lemma_parts(b, i as int);
            decimal::lemma_digits_value_nonneg(decimal::integer_part(b));
        }
        let mut frac_part: u64 = 0;
        let mut frac_digits: u32 = 0;
        let ghost f = decimal::fraction_part(b);
        if i < len {
            i += 1;
            let start: usize = i;
            while i < len && frac_digits < FRACTION_DIGITS
                invariant
                    b == bytes@,
                    len == b.len(),
                    start <= i <= len,
                    f == b.skip(start as int),
                    f == decimal::fraction_part(b),
                    frac_digits == i - start,
                    frac_digits <= FRACTION_DIGITS,
                    forall|j: int| 0 <= j < frac_digits ==> decimal::is_digit(#[trigger] f[j]),
                    frac_part == decimal::digits_value(f.take(frac_digits as int)),
                    b == s.spec_bytes(),
                decreases len - i,
            {
                let d: u8 = bytes[i].wrapping_sub(ZERO);
                assert(b[i as int] == f[frac_digits as int]);
                if d > 9 {
                    assert(!decimal::is_decimal(b));
                    return None;
                }
                proof {
                    decimal::lemma_digits_value_push(f, frac_digits as int);
                    decimal::lemma_digits_value_bound(f.take(frac_digits as int));
                    decimal::lemma_pow10_monotone(frac_digits as nat, 8);
                    decimal::lemma_pow10_table();
                }
                frac_part = frac_part * 10 + d as u64;
                frac_digits += 1;
                i += 1;
            }
            while i < len
                invariant
                    b == bytes@,
                    len == b.len(),
                    start <= i <= len,
                    f == b.skip(start as int),
                    f == decimal::fraction_part(b),
                    forall|j: int| 0 <= j < i - start ==> decimal::is_digit(#[trigger] f[j]),
                    b == s.spec_bytes(),
                decreases len - i,
            {
                let d: u8 = bytes[i].wrapping_sub(ZERO);
                assert(b[i as int] == f[i - start]);
                if d > 9 {
                    assert(!decimal::is_decimal(b));
                    return None;
                }
                i += 1;
            }
        }
        // A bare point, or nothing at all.
        if int_digits == 0 && frac_digits == 0 {
            return None;
        }
        proof {
            assert(f.take(frac_digits as int) =~= decimal::kept_fraction(f));
            decimal::lemma_fraction_value_bound(f);
            decimal::lemma_digits_value_nonneg(f.take(frac_digits as int));
        }
        let pad: u64 = power_of_ten(FRACTION_DIGITS - frac_digits);
        frac_part = frac_part * pad;
        let units: u64 = match int_part.checked_mul(Self::SCALE) {
            Some(v) => v,
            None => {
                return None;
            },
        };
        let value: u64 = match units.checked_add(frac_part) {
            Some(v) => v,
            None => {
                return None;
            },
        };
        Some(FixedPoint(value))
    }

    /// Construct from a raw value.
    #[must_use]
    pub fn from_raw(val: u64) -> (r: Self)
        ensures
            r == FixedPoint(val),
    {
        FixedPoint(val)
    }

    /// The raw inner value.
    #[must_use]
    pub fn raw(self) -> (r: u64)
        ensures
            r == self.0,
    {
        self.0
    }

    /// The value as decimal text: the integer part, a point, eight digits.
    pub open spec fn display_text(self) -> Seq<char> {
        text::number_text((self.0 / SCALE) as nat).push('.') + text::padded_text(
            (self.0 % SCALE) as nat,
            FRACTION_DIGITS as nat,
        )
    }

    /// `FixedPoint(6824000)` becomes `"0.06824000"`.
    #[must_use]
    pub fn to_string(self) -> (r: String)
        ensures
            r@ == self.display_text(),
    {
        let mut out = String::new();
        append_number(&mut out, self.0 / Self::SCALE);
        proof {
            reveal_strlit(".");
        }
        out.append(".");
        append_padded(&mut out, self.0 % Self::SCALE, FRACTION_DIGITS);
        assert(out@ =~= self.display_text());
        out
    }
}

/// Parsing the text of a value gives the value back.
pub proof fn law_parse_inverts_display(x: FixedPoint)
    ensures
        FixedPoint::spec_parse(vstd::utf8::encode_utf8(x.display_text())) == Some(x),
{
    let units = (x.0 / SCALE) as nat;
    let frac = (x.0 % SCALE) as nat;
    let head = text::number_text(units);
    let tail = text::padded_text(frac, FRACTION_DIGITS as nat);
    decimal::lemma_pow10_table();
    text::lemma_number_text(units);
    text::lemma_padded_text(frac, FRACTION_DIGITS as nat);
    let t = x.display_text();
    assert forall|i: int| 0 <= i < t.len() implies '\0' <= #[trigger] t[i] <= '\u{7f}' by {
        if i < head.len() {
            assert(t[i] == head[i]);
        } else if i > head.len() {
            assert(t[i] == tail[i - head.len() - 1]);
        }
    }
    text::lemma_ascii_bytes(t);
    let b = text::ascii_bytes(t);
    let n = head.len() as int;
    assert forall|j: int| 0 <= j < n implies decimal::is_digit(#[trigger] b[j]) by {
        assert('0' <= head[j] <= '9');
    }
    assert(b[n] == DOT);
    decimal::lemma_parts(b, n);
    assert(decimal::integer_part(b) =~= text::ascii_bytes(head));
    assert(decimal::fraction_part(b) =~= text::ascii_bytes(tail));
    assert forall|j: int| 0 <= j < tail.len() implies decimal::is_digit(
        #[trigger] text::ascii_bytes(tail)[j],
    ) by {
        assert('0' <= tail[j] <= '9');
    }
}

/// The order of values is that of the numbers in the texts they were parsed
/// from, digits beyond the eighth behind the point aside.
pub proof fn law_parse_keeps_order(s: Seq<u8>, t: Seq<u8>)
    requires
        FixedPoint::spec_parse(s) is Some,
        FixedPoint::spec_parse(t) is Some,
    ensures
        ({
            let a = FixedPoint::spec_parse(s)->0;
            let b = FixedPoint::spec_parse(t)->0;
            &&& a.0 < b.0 <==> decimal::decimal_value(s) < decimal::decimal_value(t)
            &&& a == b <==> decimal::decimal_value(s) == decimal::decimal_value(t)
        }),
{
    decimal::lemma_digits_value_nonneg(decimal::integer_part(s));
    decimal::lemma_digits_value_nonneg(decimal::integer_part(t));
    decimal::lemma_fraction_value_bound(decimal::fraction_part(s));
    decimal::lemma_fraction_value_bound(decimal::fraction_part(t));
}

/// Zeros in front of a text change nothing in what it is parsed as. The texts that
/// hold no digit, nothing at all and a bare point, are left out: a zero makes a
/// number of them.
pub proof fn law_parse_ignores_leading_zeros(s: Seq<u8>, k: nat)
    requires
        s.len() > 0,
        s != seq![DOT],
    ensures
        FixedPoint::spec_parse(decimal::zeros(k) + s) == FixedPoint::spec_parse(s),
{
    let t = decimal::zeros(k) + s;
    let digits = decimal::integer_part(s);
    decimal::lemma_parts_behind_zeros(k, s);
    decimal::lemma_zeros_in_front(k, digits);
    decimal::lemma_find_byte(s, DOT, 0);
    if digits.len() + decimal::fraction_part(s).len() == 0 {
        assert(s =~= seq![DOT]);
    }
    if decimal::all_digits(decimal::integer_part(t)) {
        assert forall|i: int| 0 <= i < digits.len() implies decimal::is_digit(
            #[trigger] digits[i],
        ) by {
            assert(decimal::integer_part(t)[k + i] == digits[i]);
        }
    }
}

/// Digits behind the eighth decimal change nothing in what a text is parsed as.
pub proof fn law_parse_ignores_further_decimals(s: Seq<u8>, tail: Seq<u8>)
    requires
        decimal::find_byte(s, DOT, 0) < s.len(),
        decimal::fraction_part(s).len() >= FRACTION_DIGITS,
        decimal::all_digits(tail),
    ensures
        FixedPoint::spec_parse(s + tail) == FixedPoint::spec_parse(s),
{
    let short = decimal::fraction_part(s);
    let long = decimal::fraction_part(s + tail);
    decimal::lemma_parts_with_tail(s, tail);
    assert(decimal::kept_fraction(long) =~= decimal::kept_fraction(short));
    if decimal::all_digits(long) {
        assert forall|i: int| 0 <= i < short.len() implies decimal::is_digit(
            #[trigger] short[i],
        ) by {
            assert(long[i] == short[i]);
        }
    }
}

/// The raw value of a text with integer digits `i` and fraction digits `f`.
proof fn lemma_value_of_parts(s: Seq<u8>, i: Seq<u8>, f: Seq<u8>)
    requires
        decimal::integer_part(s) == i,
        decimal::fraction_part(s) == f,
        decimal::all_digits(i),
        decimal::all_digits(f),
    ensures
        ({
            let kept = decimal::kept_fraction(f);
            let exact = decimal::place_value(i + kept);
            &&& decimal::decimal_value(s) == exact * pow(10, (8 - kept.len()) as nat)
            &&& decimal::decimal_value(s) * pow(10, kept.len()) == exact * 100_000_000
        }),
{
    let kept = decimal::kept_fraction(f);
    let k = kept.len();
    let pad = (8 - k) as nat;
    decimal::lemma_digits_value_concat(i, kept);
    decimal::law_digits_by_place(i + kept);
    decimal::lemma_pow10_add(k, pad);
    decimal::lemma_pow10_table();
    decimal::lemma_pow10_is_pow(k);
    decimal::lemma_pow10_is_pow(pad);
    let x = decimal::digits_value(i);
    let y = decimal::digits_value(kept);
    let low = decimal::pow10(k);
    let high = decimal::pow10(pad);
    let exact = x * low + y;
    assert(exact * high == x * (low * high) + y * high) by (nonlinear_arith)
        requires
            exact == x * low + y,
    ;
    assert((exact * high) * low == exact * (low * high)) by (nonlinear_arith);
}

/// A text of digits with a point among them is parsed as the number that it spells,
/// up to eight digits behind the point: with `k` of those, the value is what all
/// its digits spell, times `10^(8-k)`. It is refused exactly where that is too
/// large.
pub proof fn law_parse_spells_decimal(
    s: &str,
    r: Option<FixedPoint>,
    i: Seq<u8>,
    f: Seq<u8>,
)
    requires
        call_ensures(FixedPoint::parse, (s,), r),
        s.spec_bytes() == i + seq![46u8] + f,
        forall|j: int| 0 <= j < i.len() ==> 48 <= #[trigger] i[j] <= 57,
        forall|j: int| 0 <= j < f.len() ==> 48 <= #[trigger] f[j] <= 57,
        i.len() + f.len() > 0,
    ensures
        ({
            let kept = if f.len() <= 8 {
                f
            } else {
                f.take(8)
            };
            let exact = decimal::place_value(i + kept);
            &&& r is Some <==> exact * pow(10, (8 - kept.len()) as nat)
                <= 0xffff_ffff_ffff_ffff
            &&& r is Some ==> (r->0).0 == exact * pow(10, (8 - kept.len()) as nat)
            &&& r is Some ==> (r->0).0 * pow(10, kept.len()) == exact * 100_000_000
        }),
{
    let b = s.spec_bytes();
    let n = i.len() as int;
    assert(b[n] == DOT);
    assert forall|j: int| 0 <= j < n implies decimal::is_digit(#[trigger] b[j]) by {
        assert(b[j] == i[j]);
    }
    decimal::lemma_parts(b, n);
    assert(b.take(n) =~= i);
    assert(b.skip(n + 1) =~= f);
    lemma_value_of_parts(b, i, f);
    decimal::lemma_digits_value_nonneg(i);
    decimal::lemma_fraction_value_bound(f);
}

/// A text of digits alone is parsed as the number that it spells, in units of
/// `10^-8`. It is refused exactly where that is too large.
pub proof fn law_parse_spells_integer(s: &str, r: Option<FixedPoint>)
    requires
        call_ensures(FixedPoint::parse, (s,), r),
        s.spec_bytes().len() > 0,
        forall|j: int|
            0 <= j < s.spec_bytes().len() ==> 48 <= #[trigger] s.spec_bytes()[j] <= 57,
    ensures
        r is Some <==> decimal::place_value(s.spec_bytes()) * 100_000_000
            <= 0xffff_ffff_ffff_ffff,
        r is Some ==> (r->0).0 == decimal::place_value(s.spec_bytes()) * 100_000_000,
{
    let b = s.spec_bytes();
    let n = b.len() as int;
    decimal::lemma_parts(b, n);
    assert(b.take(n) =~= b);
    lemma_value_of_parts(b, b, Seq::empty());
    assert(b + Seq::<u8>::empty() =~= b);
    decimal::lemma_pow10_table();
    decimal::lemma_pow10_is_pow(8);
    decimal::lemma_digits_value_nonneg(b);
}

/// What is parsed holds digits and at most one point, and at least one digit.
pub proof fn law_parse_rejects_the_rest(s: &str, r: Option<FixedPoint>)
    requires
        call_ensures(FixedPoint::parse, (s,), r),
        r is Some,
    ensures
        forall|j: int|
            0 <= j < s.spec_bytes().len() ==> 48 <= #[trigger] s.spec_bytes()[j] <= 57
                || s.spec_bytes()[j] == 46,
        forall|j: int, k: int|
            0 <= j < k < s.spec_bytes().len() ==> s.spec_bytes()[j] != 46
                || s.spec_bytes()[k] != 46,
        exists|j: int|
            0 <= j < s.spec_bytes().len() && 48 <= #[trigger] s.spec_bytes()[j] <= 57,
{
    let b = s.spec_bytes();
    let i = decimal::integer_part(b);
    let f = decimal::fraction_part(b);
    decimal::lemma_find_byte(b, DOT, 0);
    let dot = decimal::find_byte(b, DOT, 0);
    assert forall|j: int| 0 <= j < b.len() && j != dot implies 48 <= #[trigger] b[j] <= 57 by {
        if j < dot {
            assert(i[j] == b[j]);
        } else {
            assert(f[j - dot - 1] == b[j]);
        }
    }
    if dot > 0 {
        assert(48 <= b[0] <= 57);
    } else {
        assert(48 <= b[1] <= 57);
    }
}

/// A zero appended behind a text with a decimal point does not change what it is
/// parsed as. A bare point is left out: a zero makes a number of it.
pub proof fn law_parse_ignores_appended_zero(
    s: &str,
    x: Option<FixedPoint>,
    t: &str,
    y: Option<FixedPoint>,
    dot: int,
)
    requires
        call_ensures(FixedPoint::parse, (s,), x),
        call_ensures(FixedPoint::parse, (t,), y),
        t.spec_bytes() == s.spec_bytes().push(48),
        0 <= dot < s.spec_bytes().len(),
        s.spec_bytes()[dot] == 46,
        s.spec_bytes().len() > 1,
    ensures
        x == y,
{
    let b = s.spec_bytes();
    let zero = seq![48u8];
    assert(t.spec_bytes() =~= b + zero);
    decimal::lemma_find_byte(b, DOT, 0);
    decimal::lemma_parts_with_tail(b, zero);
    let i = decimal::integer_part(b);
    let f = decimal::fraction_part(b);
    let g = f + zero;
    assert(g =~= f.push(48));
    if decimal::all_digits(g) {
        assert forall|j: int| 0 <= j < f.len() implies decimal::is_digit(#[trigger] f[j]) by {
            assert(g[j] == f[j]);
        }
    }
    if f.len() < 8 {
        let k = f.len();
        assert(decimal::kept_fraction(g) == g);
        assert(g.drop_last() =~= f);
        let v = decimal::digits_value(f);
        let q = decimal::pow10((7 - k) as nat);
        assert((v * 10) * q == v * (10 * q)) by (nonlinear_arith);
    } else {
        assert(decimal::kept_fraction(g) =~= decimal::kept_fraction(f));
    }
}

/// One value is less than another exactly where its raw value is.
pub proof fn law_order_of_values(a: FixedPoint, b: FixedPoint, less: bool)
    requires
        call_ensures(FixedPoint::lt, (&a, &b), less),
    ensures
        less <==> a.0 < b.0,
{
}

/// A value is displayed as its integer part without leading zeros, a point and
/// eight digits; all digits together spell the raw value.
pub proof fn law_display_spells_value(x: FixedPoint, r: String)
    requires
        call_ensures(FixedPoint::to_string, (x,), r),
    ensures
        r@.len() >= 10,
        r@[r@.len() - 9] == '.',
        forall|j: int|
            0 <= j < r@.len() && j != r@.len() - 9 ==> '0' <= #[trigger] r@[j] <= '9',
        r@[0] == '0' ==> r@.len() == 10,
        ({
            let digits = r@.remove(r@.len() - 9);
            decimal::place_value(Seq::new(digits.len(), |j: int| digits[j] as u8)) == x.0
        }),
{
    let units = (x.0 / SCALE) as nat;
    let frac = (x.0 % SCALE) as nat;
    let head = text::number_text(units);
    let tail = text::padded_text(frac, FRACTION_DIGITS as nat);
    let t = x.display_text();
    decimal::lemma_pow10_table();
    text::lemma_number_text(units);
    text::lemma_no_leading_zero(units);
    text::lemma_padded_text(frac, FRACTION_DIGITS as nat);
    let n = head.len() as int;
    assert(t[n] == '.');
    assert forall|j: int| 0 <= j < t.len() && j != n implies '0' <= #[trigger] t[j] <= '9' by {
        if j < n {
            assert(t[j] == head[j]);
        } else {
            assert(t[j] == tail[j - n - 1]);
        }
    }
    assert(t[0] == head[0]);
    let digits = t.remove(n);
    let bytes = text::ascii_bytes(head) + text::ascii_bytes(tail);
    assert(Seq::new(digits.len(), |j: int| digits[j] as u8) =~= bytes);
    decimal::lemma_digits_value_concat(text::ascii_bytes(head), text::ascii_bytes(tail));
    decimal::law_digits_by_place(bytes);
}

/// What is displayed is parsed as the value that was displayed.
pub proof fn law_display_then_parse(x: FixedPoint, shown: String, s: &str, r: Option<FixedPoint>)
    requires
        call_ensures(FixedPoint::to_string, (x,), shown),
        s@ == shown@,
        call_ensures(FixedPoint::parse, (s,), r),
    ensures
        r == Some(x),
{
    law_parse_inverts_display(x);
}

/// Compact exchange identifier: its index among the supported exchanges.
pub type ExchangeId = u8;

/// A price/amount pair without exchange attribution, for use inside an
/// [`OrderBook`], where all levels come from one exchange.
#[derive(Debug, Clone, Copy, PartialEq, Eq, Structural)]
pub struct RawLevel {
    pub price: FixedPoint,
    pub amount: FixedPoint,
}

/// A price level with exchange attribution, for use in the merged [`Summary`],
/// where levels of different exchanges are interleaved.
#[derive(Debug, Clone, Copy, PartialEq, Eq, Structural)]
pub struct Level {
    pub price: FixedPoint,
    pub amount: FixedPoint,
    pub exchange_id: ExchangeId,
}

/// Order book snapshot of a single exchange. Exchanges send bids sorted by
/// falling price and asks by rising price.
#[derive(Debug)]
pub struct OrderBook {
    pub exchange_id: ExchangeId,
    pub bids: ArrayVec<RawLevel, DEPTH>,
    pub asks: ArrayVec<RawLevel, DEPTH>,
    /// When decoding started, in nanoseconds on the process's monotonic clock:
    /// where end-to-end latency and age are measured from.
    pub decode_start: u64,
}

impl Clone for OrderBook {
    fn clone(&self) -> (r: Self)
        ensures
            r.exchange_id == self.exchange_id,
            capped::contents(&r.bids) == capped::contents(&self.bids),
            capped::contents(&r.asks) == capped::contents(&self.asks),
            r.decode_start == self.decode_start,
    {
        OrderBook {
            exchange_id: self.exchange_id,
            bids: self.bids.clone(),
            asks: self.asks.clone(),
            decode_start: self.decode_start,
        }
    }
}

/// Merged top of book across all exchanges.
#[derive(Debug)]
pub struct Summary {
    /// `best_ask - best_bid` in units of `10^-8`. Negative for crossed books,
    /// zero if either side is empty.
    pub spread_raw: i64,
    pub bids: ArrayVec<Level, DEPTH>,
    pub asks: ArrayVec<Level, DEPTH>,
}

impl Clone for Summary {
    fn clone(&self) -> (r: Self)
        ensures
            r.spread_raw == self.spread_raw,
            capped::contents(&r.bids) == capped::contents(&self.bids),
            capped::contents(&r.asks) == capped::contents(&self.asks),
    {
        Summary {
            spread_raw: self.spread_raw,
            bids: self.bids.clone(),
            asks: self.asks.clone(),
        }
    }
}

impl Default for Summary {
    fn default() -> (r: Self)
        ensures
            r.spread_raw == 0,
            capped::contents(&r.bids) == Seq::<Level>::empty(),
            capped::contents(&r.asks) == Seq::<Level>::empty(),
    {
        Summary { spread_raw: 0, bids: ArrayVec::new(), asks: ArrayVec::new() }
    }
}

/// A clone of a book has its exchange, its levels and its time.
pub proof fn law_clone_of_book(book: &OrderBook, r: OrderBook, i: int)
    requires
        call_ensures(OrderBook::clone, (book,), r),
    ensures
        r.exchange_id == book.exchange_id,
        r.decode_start == book.decode_start,
        capped::contents(&r.bids).len() == capped::contents(&book.bids).len(),
        capped::contents(&r.asks).len() == capped::contents(&book.asks).len(),
        capped::contents(&r.bids)[i] == capped::contents(&book.bids)[i],
        capped::contents(&r.asks)[i] == capped::contents(&book.asks)[i],
{
}

/// A clone of a summary has its spread and its levels; a summary by default has
/// neither.
pub proof fn law_clone_of_summary(summary: &Summary, r: Summary, fresh: Summary, i: int)
    requires
        call_ensures(Summary::clone, (summary,), r),
        call_ensures(Summary::default, (), fresh),
    ensures
        r.spread_raw == summary.spread_raw,
        capped::contents(&r.bids).len() == capped::contents(&summary.bids).len(),
        capped::contents(&r.asks).len() == capped::contents(&summary.asks).len(),
        capped::contents(&r.bids)[i] == capped::contents(&summary.bids)[i],
        capped::contents(&r.asks)[i] == capped::contents(&summary.asks)[i],
        fresh.spread_raw == 0,
        capped::contents(&fresh.bids).len() == 0,
        capped::contents(&fresh.asks).len() == 0,
{
}

/// A raw value goes in and comes out as it is; zero is the default.
pub proof fn law_raw_values(val: u64, x: FixedPoint, out: u64, zero: FixedPoint)
    requires
        call_ensures(FixedPoint::from_raw, (val,), x),
        call_ensures(FixedPoint::raw, (x,), out),
        call_ensures(FixedPoint::default, (), zero),
    ensures
        out == val,
        x.0 == val,
        zero.0 == 0,
{
}

} // verus!
