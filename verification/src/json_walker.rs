//! Shared scanner utilities for zero-copy JSON parsing.
//!
//! A byte-level [`Scanner`] walks a message once, from front to back: it seeks
//! to a key, then reads the value behind it. Quoted decimals go straight into
//! [`FixedPoint`], with no text in between.

use arrayvec::ArrayVec;
use memchr::memmem;
use vstd::prelude::*;
use vstd::string::*;

use crate::ascii::{
    BACKSLASH, CARRIAGE_RETURN, CLOSE_BRACKET, COMMA, DOT, NEWLINE, OPEN_BRACKET, QUOTE, SPACE, TAB,
    ZERO,
};
use crate::capped;
use crate::decimal;
use crate::decimal::{power_of_ten, FRACTION_DIGITS};
use crate::grammar;
use crate::search;
use crate::types::{FixedPoint, RawLevel};

verus! {

/// Levels per side that [`read_levels`] keeps.
pub const MAX_LEVELS: usize = 20;

/// Borrowed `[price, amount]` texts of one side of a book, as they stand in the
/// message.
pub type Levels<'a> = ArrayVec<[&'a str; 2], MAX_LEVELS>;

/// The bytes of the two texts of a level.
pub open spec fn texts_of(level: [&str; 2]) -> grammar::TextPair {
    (level@[0].spec_bytes(), level@[1].spec_bytes())
}

/// The texts of all levels, first to last.
pub open spec fn level_texts(levels: &Levels<'_>) -> Seq<grammar::TextPair> {
    capped::contents(levels).map_values(|level: [&str; 2]| texts_of(level))
}

/// Byte scanner that tracks its position in a message.
pub struct Scanner<'a> {
    pub buf: &'a [u8],
    pub src: &'a str,
    pub pos: usize,
}

impl<'a> Scanner<'a> {
    /// The bytes are those of the text, and the position lies in it.
    pub open spec fn wf(&self) -> bool {
        &&& self.buf@ == self.src.spec_bytes()
        &&& self.pos <= self.buf@.len()
    }

    /// A scanner at the start of a message.
    pub fn new(json: &'a str) -> (r: Self)
        ensures
            r.wf(),
            r.src == json,
            r.pos == 0,
    {
        Self { buf: json.as_bytes(), src: json, pos: 0 }
    }

    /// The byte at the position, if there is one.
    pub fn peek(&self) -> (r: Option<u8>)
        requires
            self.wf(),
        ensures
            r == if self.pos < self.buf@.len() {
                Some(self.buf@[self.pos as int])
            } else {
                None
            },
    {
        if self.pos < self.buf.len() {
            Some(self.buf[self.pos])
        } else {
            None
        }
    }

    /// Move past whitespace.
    pub fn skip_ws(&mut self)
        requires
            old(self).wf(),
        ensures
            final(self).wf(),
            final(self).src == old(self).src,
            final(self).pos == grammar::after_space(old(self).buf@, old(self).pos as int),
    {
        let ghost b = self.buf@;
        let ghost start = self.pos as int;
        while self.pos < self.buf.len()
            invariant
                self.wf(),
                self.src == old(self).src,
                b == self.buf@,
                b == old(self).buf@,
                start == old(self).pos,
                grammar::after_space(b, self.pos as int) == grammar::after_space(b, start),
            decreases self.buf@.len() - self.pos,
        {
            let c: u8 = self.buf[self.pos];
            if c == SPACE || c == TAB || c == NEWLINE || c == CARRIAGE_RETURN {
                self.pos = self.pos + 1;
            } else {
                return ;
            }
        }
    }

    /// Move past `byte` if it stands at the position. No whitespace is skipped.
    pub fn expect_byte(&mut self, byte: u8) -> (r: bool)
        requires
            old(self).wf(),
        ensures
            final(self).wf(),
            final(self).src == old(self).src,
            r == grammar::byte_at(old(self).buf@, old(self).pos as int, byte),
            final(self).pos == old(self).pos + if r {
                1int
            } else {
                0int
            },
    {
        if self.pos < self.buf.len() && self.buf[self.pos] == byte {
            self.pos = self.pos + 1;
            true
        } else {
            false
        }
    }

    /// Move past whitespace, and past `byte` if it comes next.
    pub fn expect(&mut self, byte: u8) -> (r: bool)
        requires
            old(self).wf(),
        ensures
            final(self).wf(),
            final(self).src == old(self).src,
            r == grammar::token_at(old(self).buf@, old(self).pos as int, byte),
            final(self).pos == grammar::after_space(old(self).buf@, old(self).pos as int) + if r {
                1int
            } else {
                0int
            },
    {
        self.skip_ws();
        self.expect_byte(byte)
    }

    /// Seek to a key pattern and move past it. Without one the position stays.
    pub fn seek(&mut self, finder: &memmem::Finder<'_>) -> (r: Option<()>)
        requires
            old(self).wf(),
        ensures
            final(self).wf(),
            final(self).src == old(self).src,
            match search::find_from(
                old(self).buf@,
                search::needle_of(finder),
                old(self).pos as int,
            ) {
                Some(at) => r is Some && final(self).pos == at + search::needle_of(finder).len(),
                None => r is None && final(self).pos == old(self).pos,
            },
    {
        let ghost b = self.buf@;
        let ghost n = search::needle_of(finder);
        let ghost p = self.pos as int;
        let needle_len: usize = finder.needle().len();
        let tail = vstd::slice::slice_subrange(self.buf, self.pos, self.buf.len());
        assert(tail@ =~= b.skip(p));
        match finder.find(tail) {
            Some(offset) => {
                proof {
                    search::lemma_occurs_in_tail(b, n, p, offset as int);
                    assert forall|j: int| p <= j < p + offset implies !search::occurs_at(
                        b,
                        n,
                        j,
                    ) by {
                        search::lemma_occurs_in_tail(b, n, p, j - p);
                        assert(!search::occurs_at(tail@, n, j - p));
                    }
                    search::lemma_find_from(b, n, p, p + offset);
                }
                self.pos = self.pos + offset + needle_len;
                Some(())
            },
            None => {
                proof {
                    assert forall|j: int| !search::first_at(b, n, p, j) by {
                        if p <= j {
                            search::lemma_occurs_in_tail(b, n, p, j - p);
                            assert(!search::occurs_at(tail@, n, j - p));
                        }
                    }
                }
                None
            },
        }
    }

    /// Read the content of a JSON string as a borrowed `&str`, escapes and all.
    pub fn read_string(&mut self) -> (r: Option<&'a str>)
        requires
            old(self).wf(),
        ensures
            final(self).wf(),
            final(self).src == old(self).src,
            final(self).pos == grammar::string_at(old(self).buf@, old(self).pos as int).1,
            match grammar::string_at(old(self).buf@, old(self).pos as int).0 {
                Some(content) => r is Some && r->0.spec_bytes() == content,
                None => r is None,
            },
    {
        let ghost b = self.buf@;
        let ghost p = self.pos as int;
        self.skip_ws();
        let len: usize = self.buf.len();
        if self.pos >= len || self.buf[self.pos] != QUOTE {
            return None;
        }
        self.pos = self.pos + 1;
        let start: usize = self.pos;
        let ghost close = grammar::string_end(b, start as int);
        while self.pos < len
            invariant
                self.wf(),
                self.src == old(self).src,
                b == self.buf@,
                b == old(self).buf@,
                p == old(self).pos,
                len == b.len(),
                start <= self.pos,
                start == grammar::after_space(b, p) + 1,
                grammar::byte_at(b, start - 1, QUOTE),
                close == grammar::string_end(b, start as int),
                close == grammar::string_end(b, self.pos as int),
            decreases len - self.pos,
        {
            let c: u8 = self.buf[self.pos];
            if c == QUOTE {
                let end: usize = self.pos;
                let content = text_between(self.src, start, end);
                self.pos = self.pos + 1;
                return Some(content);
            } else if c == BACKSLASH && len - self.pos >= 2 {
                self.pos = self.pos + 2;
            } else {
                // A backslash as the last byte hides nothing: the text ends.
                assert(c == BACKSLASH ==> grammar::string_end(b, self.pos + 2) == len);
                self.pos = self.pos + 1;
            }
        }
        None
    }

    /// Read an unsigned integer. Zero where there is none, or on overflow.
    pub fn read_u64(&mut self) -> (r: u64)
        requires
            old(self).wf(),
        ensures
            final(self).wf(),
            final(self).src == old(self).src,
            (r as int, final(self).pos as int) == grammar::number_at(
                old(self).buf@,
                old(self).pos as int,
            ),
    {
        let ghost b = self.buf@;
        let ghost p = self.pos as int;
        self.skip_ws();
        let mut val: u64 = 0;
        while self.pos < self.buf.len()
            invariant
                self.wf(),
                self.src == old(self).src,
                b == self.buf@,
                b == old(self).buf@,
                p == old(self).pos,
                grammar::number_from(b, self.pos as int, val as int) == grammar::number_at(b, p),
            decreases b.len() - self.pos,
        {
            let d: u8 = self.buf[self.pos].wrapping_sub(ZERO);
            if d > 9 {
                return val;
            }
            let shifted: u64 = match val.checked_mul(10) {
                Some(v) => v,
                None => {
                    return 0;
                },
            };
            val = match shifted.checked_add(d as u64) {
                Some(v) => v,
                None => {
                    return 0;
                },
            };
            self.pos = self.pos + 1;
        }
        val
    }

    /// Read a JSON quoted decimal straight into [`FixedPoint`], in one forward
    /// pass: the opening quote, digits and point, the closing quote. Compact
    /// JSON only: no whitespace is skipped.
    pub fn read_quoted_decimal(&mut self) -> (r: Option<FixedPoint>)
        requires
            old(self).wf(),
        ensures
            final(self).wf(),
            final(self).src == old(self).src,
            (r, final(self).pos as int) == grammar::quoted_decimal_at(
                old(self).buf@,
                old(self).pos as int,
            ),
    {
        let ghost b = self.buf@;
        let ghost p = self.pos as int;
        let len: usize = self.buf.len();
        if self.pos >= len || self.buf[self.pos] != QUOTE {
            return None;
        }
        self.pos = self.pos + 1;
        let start: usize = self.pos;
        let ghost close = decimal::find_byte(b, QUOTE, start as int);
        let ghost text = b.subrange(start as int, close);
        proof {
            decimal::lemma_find_byte(b, QUOTE, start as int);
            assert(b.subrange(start as int, start as int) =~= Seq::empty());
        }
        let mut int_part: u64 = 0;
        while self.pos < len && self.buf[self.pos] != DOT && self.buf[self.pos] != QUOTE
            invariant
                self.wf(),
                self.src == old(self).src,
                b == self.buf@,
                b == old(self).buf@,
                p == old(self).pos,
                grammar::byte_at(b, p, QUOTE),
                len == b.len(),
                start == p + 1,
                start <= self.pos <= close <= len,
                close == decimal::find_byte(b, QUOTE, start as int),
                close < len ==> b[close] == QUOTE,
                text == b.subrange(start as int, close),
                forall|j: int| start <= j < self.pos ==> decimal::is_digit(#[trigger] b[j]),
                forall|j: int| start <= j < close ==> b[j] != QUOTE,
                int_part == decimal::digits_value(b.subrange(start as int, self.pos as int)),
                grammar::integer_stop(b, start as int, 0) == grammar::integer_stop(
                    b,
                    self.pos as int,
                    int_part as int,
                ),
            decreases len - self.pos,
        {
            let ghost k = self.pos - start;
            let d: u8 = self.buf[self.pos].wrapping_sub(ZERO);
            proof {
                assert(self.pos < close);
                assert forall|j: int| 0 <= j <= k implies text[j] == b[start + j] by {}
            }
            if d > 9 {
                proof {
                    decimal::lemma_bad_integer(text, k);
                }
                return None;
            }
            proof {
                assert(b.subrange(start as int, self.pos as int) =~= text.take(k));
                assert(b.subrange(start as int, self.pos + 1) =~= text.take(k + 1));
                decimal::lemma_digits_value_push(text, k);
                decimal::lemma_digits_value_nonneg(text.take(k));
            }
            let shifted: u64 = match int_part.checked_mul(10) {
                Some(v) => v,
                None => {
                    proof {
                        decimal::lemma_integer_overflow(text, k);
                    }
                    return None;
                },
            };
            int_part = match shifted.checked_add(d as u64) {
                Some(v) => v,
                None => {
                    proof {
                        decimal::lemma_integer_overflow(text, k);
                    }
                    return None;
                },
            };
            self.pos = self.pos + 1;
        }
        let int_end: usize = self.pos;
        let int_digits: usize = int_end - start;
        let mut frac_part: u64 = 0;
        let mut frac_digits: u32 = 0;
        let ghost has_dot = int_end < len && b[int_end as int] == DOT;
        let ghost from = int_end + 1;
        if self.pos < len && self.buf[self.pos] == DOT {
            self.pos = self.pos + 1;
            proof {
                assert(int_end < close);
                assert forall|j: int| 0 <= j < int_digits implies decimal::is_digit(
                    #[trigger] text[j],
                ) by {
                    assert(text[j] == b[start + j]);
                }
                decimal::lemma_parts(text, int_digits as int);
                assert(b.subrange(from, from) =~= Seq::empty());
            }
            while self.pos < len && self.buf[self.pos] != QUOTE && frac_digits < FRACTION_DIGITS
                invariant
                    self.wf(),
                    self.src == old(self).src,
                    b == self.buf@,
                    b == old(self).buf@,
                    p == old(self).pos,
                    grammar::byte_at(b, p, QUOTE),
                    len == b.len(),
                    start == p + 1,
                    start <= int_end,
                    from == int_end + 1,
                    grammar::byte_at(b, int_end as int, DOT),
                    from <= self.pos <= close <= len,
                    close == decimal::find_byte(b, QUOTE, start as int),
                    close < len ==> b[close] == QUOTE,
                    text == b.subrange(start as int, close),
                    forall|j: int| start <= j < close ==> b[j] != QUOTE,
                    int_digits == int_end - start,
                    decimal::fraction_part(text) == text.skip(int_digits + 1),
                    grammar::integer_stop(b, start as int, 0) == int_end,
                    forall|j: int| from <= j < self.pos ==> decimal::is_digit(#[trigger] b[j]),
                    frac_digits == self.pos - from,
                    frac_digits <= FRACTION_DIGITS,
                    frac_part == decimal::digits_value(b.subrange(from, self.pos as int)),
                    grammar::digits_end(b, from) == grammar::digits_end(b, self.pos as int),
                decreases len - self.pos,
            {
                let d: u8 = self.buf[self.pos].wrapping_sub(ZERO);
                let ghost k = self.pos - from;
                assert(self.pos < close);
                if d > 9 {
                    assert(decimal::fraction_part(text)[k] == b[self.pos as int]);
                    assert(!decimal::is_decimal(text));
                    return None;
                }
                proof {
                    let f = b.skip(from);
                    assert(b.subrange(from, self.pos as int) =~= f.take(k));
                    assert(b.subrange(from, self.pos + 1) =~= f.take(k + 1));
                    decimal::lemma_digits_value_push(f, k);
                    decimal::lemma_digits_value_bound(f.take(k));
                    decimal::lemma_pow10_monotone(k as nat, 8);
                    decimal::lemma_pow10_table();
                }
                frac_part = frac_part * 10 + d as u64;
                frac_digits += 1;
                self.pos = self.pos + 1;
            }
            // Skip any fractional digits beyond the eighth.
            while self.pos < len && self.buf[self.pos] != QUOTE
                invariant
                    self.wf(),
                    self.src == old(self).src,
                    b == self.buf@,
                    b == old(self).buf@,
                    p == old(self).pos,
                    grammar::byte_at(b, p, QUOTE),
                    len == b.len(),
                    start == p + 1,
                    start <= int_end,
                    from == int_end + 1,
                    grammar::byte_at(b, int_end as int, DOT),
                    from <= self.pos <= close <= len,
                    close == decimal::find_byte(b, QUOTE, start as int),
                    close < len ==> b[close] == QUOTE,
                    text == b.subrange(start as int, close),
                    forall|j: int| start <= j < close ==> b[j] != QUOTE,
                    int_digits == int_end - start,
                    decimal::fraction_part(text) == text.skip(int_digits + 1),
                    grammar::integer_stop(b, start as int, 0) == int_end,
                    forall|j: int| from <= j < self.pos ==> decimal::is_digit(#[trigger] b[j]),
                    grammar::digits_end(b, from) == grammar::digits_end(b, self.pos as int),
                    from + frac_digits <= self.pos,
                    frac_digits <= FRACTION_DIGITS,
                    frac_digits < FRACTION_DIGITS ==> frac_digits == self.pos - from,
                    frac_digits < FRACTION_DIGITS ==> self.pos == len || b[self.pos as int]
                        == QUOTE,
                decreases len - self.pos,
            {
                let d: u8 = self.buf[self.pos].wrapping_sub(ZERO);
                assert(self.pos < close);
                if d > 9 {
                    assert(decimal::fraction_part(text)[self.pos - from] == b[self.pos as int]);
                    assert(!decimal::is_decimal(text));
                    return None;
                }
                self.pos = self.pos + 1;
            }
        }
        let ghost end = self.pos as int;
        proof {
            assert(end == len || b[end] == QUOTE);
            assert(close == end);
            assert forall|j: int| 0 <= j < int_digits implies decimal::is_digit(
                #[trigger] text[j],
            ) by {
                assert(text[j] == b[start + j]);
            }
            decimal::lemma_parts(text, int_digits as int);
            assert(text.take(int_digits as int) =~= b.subrange(start as int, int_end as int));
            decimal::lemma_digits_value_nonneg(decimal::integer_part(text));
        }
        let ghost f = decimal::fraction_part(text);
        proof {
            if has_dot {
                assert(f =~= b.subrange(from, end));
            }
            assert forall|j: int| 0 <= j < f.len() implies decimal::is_digit(#[trigger] f[j]) by {
                assert(f[j] == b[from + j]);
            }
        }
        // Nothing between the quotes but, at most, a point.
        if int_digits == 0 && frac_digits == 0 {
            return None;
        }
        if self.pos >= len || self.buf[self.pos] != QUOTE {
            return None;
        }
        self.pos = self.pos + 1;
        proof {
            assert(decimal::kept_fraction(f) =~= f.take(frac_digits as int));
            if has_dot {
                assert(f.take(frac_digits as int) =~= b.subrange(from, from + frac_digits));
            }
            decimal::lemma_fraction_value_bound(f);
            decimal::lemma_digits_value_nonneg(decimal::kept_fraction(f));
        }
        let pad: u64 = power_of_ten(FRACTION_DIGITS - frac_digits);
        frac_part = frac_part * pad;
        let units: u64 = match int_part.checked_mul(FixedPoint::SCALE) {
            Some(v) => v,
            None => {
                return None;
            },
        };
        let value: u64 = match units.checked_add(frac_part) {
            Some(v) => v,
            None => {
                return None;
            },
        };
        Some(FixedPoint::from_raw(value))
    }

    /// Seek to a key pattern and read the levels behind it. Empty if the key is
    /// absent.
    pub fn read_optional_raw_levels<const N: usize>(
        &mut self,
        finder: &memmem::Finder<'_>,
    ) -> (r: Option<ArrayVec<RawLevel, N>>)
        requires
            old(self).wf(),
            N <= u32::MAX,
        ensures
            final(self).wf(),
            final(self).src == old(self).src,
            ({
                let expected = grammar::optional_raw_levels_at(
                    old(self).buf@,
                    search::needle_of(finder),
                    old(self).pos as int,
                    N as nat,
                );
                &&& r is Some == expected.0 is Some
                &&& r is Some ==> capped::contents(&r->0) == expected.0->0
                &&& final(self).pos == expected.1
            }),
    {
        if self.seek(finder).is_some() {
            read_raw_levels(self)
        } else {
            Some(ArrayVec::new())
        }
    }
}

/// Read an array of `["price","amount"]` pairs straight into [`RawLevel`]s.
/// Levels with a zero amount are left out; the first `N` others are kept, and
/// once there are as many, reading stops.
///
/// Compact JSON only: no whitespace is skipped.
pub fn read_raw_levels<const N: usize>(s: &mut Scanner<'_>) -> (r: Option<ArrayVec<RawLevel, N>>)
    requires
        old(s).wf(),
        N <= u32::MAX,
    ensures
        final(s).wf(),
        final(s).src == old(s).src,
        ({
            let expected = grammar::raw_levels_at(old(s).buf@, old(s).pos as int, N as nat);
            &&& r is Some == expected.0 is Some
            &&& r is Some ==> capped::contents(&r->0) == expected.0->0
            &&& final(s).pos == expected.1
        }),
{
    let ghost b = s.buf@;
    let ghost p = s.pos as int;
    if !s.expect_byte(OPEN_BRACKET) {
        return None;
    }
    let mut levels: ArrayVec<RawLevel, N> = ArrayVec::new();
    if s.expect_byte(CLOSE_BRACKET) {
        return Some(levels);
    }
    loop
        invariant
            s.wf(),
            s.src == old(s).src,
            b == s.buf@,
            b == old(s).buf@,
            p == old(s).pos,
            grammar::byte_at(b, p, OPEN_BRACKET),
            !grammar::byte_at(b, p + 1, CLOSE_BRACKET),
            capped::contents(&levels).len() <= N,
            grammar::pairs_from(b, s.pos as int, capped::contents(&levels), N as nat)
                == grammar::pairs_from(b, p + 1, Seq::empty(), N as nat),
        decreases b.len() - s.pos,
    {
        let ghost at = s.pos as int;
        let ghost acc = capped::contents(&levels);
        proof {
            grammar::lemma_pair_end(b, at);
        }
        if !s.expect_byte(OPEN_BRACKET) {
            return None;
        }
        let price: FixedPoint = match s.read_quoted_decimal() {
            Some(v) => v,
            None => {
                return None;
            },
        };
        if !s.expect_byte(COMMA) {
            return None;
        }
        let amount: FixedPoint = match s.read_quoted_decimal() {
            Some(v) => v,
            None => {
                return None;
            },
        };
        if !s.expect_byte(CLOSE_BRACKET) {
            return None;
        }
        if amount.raw() != 0 {
            if !capped::try_push(&mut levels, RawLevel { price, amount }) {
                return Some(levels);
            }
        }
        if s.expect_byte(COMMA) {
            if levels.as_slice().len() == N {
                return Some(levels);
            }
        } else if s.expect_byte(CLOSE_BRACKET) {
            return Some(levels);
        } else {
            return None;
        }
    }
}

/// Read an array of `["price", "amount"]` pairs as borrowed texts. The first
/// [`MAX_LEVELS`] pairs are kept, and once there are as many, reading stops.
/// Whitespace may stand between the parts.
pub fn read_levels<'a>(s: &mut Scanner<'a>) -> (r: Option<Levels<'a>>)
    requires
        old(s).wf(),
    ensures
        final(s).wf(),
        final(s).src == old(s).src,
        ({
            let expected = grammar::text_levels_at(
                old(s).buf@,
                old(s).pos as int,
                MAX_LEVELS as nat,
            );
            &&& r is Some == expected.0 is Some
            &&& r is Some ==> level_texts(&r->0) == expected.0->0
            &&& final(s).pos == expected.1
        }),
{
    let ghost b = s.buf@;
    let ghost p = s.pos as int;
    if !s.expect(OPEN_BRACKET) {
        return None;
    }
    let mut levels: Levels<'a> = ArrayVec::new();
    assert(level_texts(&levels) =~= Seq::<grammar::TextPair>::empty());
    if s.expect(CLOSE_BRACKET) {
        return Some(levels);
    }
    let ghost first = s.pos as int;
    loop
        invariant
            s.wf(),
            s.src == old(s).src,
            b == s.buf@,
            b == old(s).buf@,
            p == old(s).pos,
            grammar::token_at(b, p, OPEN_BRACKET),
            first == grammar::after_space(b, grammar::after_space(b, p) + 1),
            !grammar::byte_at(b, first, CLOSE_BRACKET),
            capped::contents(&levels).len() <= MAX_LEVELS,
            grammar::text_pairs_from(b, s.pos as int, level_texts(&levels), MAX_LEVELS as nat)
                == grammar::text_pairs_from(b, first, Seq::empty(), MAX_LEVELS as nat),
        decreases b.len() - s.pos,
    {
        let ghost at = s.pos as int;
        let ghost acc = level_texts(&levels);
        proof {
            grammar::lemma_text_pair_end(b, at);
        }
        if !s.expect(OPEN_BRACKET) {
            return None;
        }
        let price: &'a str = match s.read_string() {
            Some(v) => v,
            None => {
                return None;
            },
        };
        if !s.expect(COMMA) {
            return None;
        }
        let amount: &'a str = match s.read_string() {
            Some(v) => v,
            None => {
                return None;
            },
        };
        if !s.expect(CLOSE_BRACKET) {
            return None;
        }
        proof {
            grammar::lemma_after_space(b, s.pos as int);
        }
        let pair: [&'a str; 2] = [price, amount];
        if !capped::try_push(&mut levels, pair) {
            return Some(levels);
        }
        assert(level_texts(&levels) =~= acc.push(texts_of(pair)));
        if s.expect(COMMA) {
            if levels.as_slice().len() == MAX_LEVELS {
                return Some(levels);
            }
        } else if s.expect_byte(CLOSE_BRACKET) {
            return Some(levels);
        } else {
            return None;
        }
    }
}

/// The string value behind the first occurrence of a key pattern. The pattern
/// includes the key and the colon, such as `"message":`.
#[must_use]
pub fn extract_string<'a>(json: &'a str, pattern: &[u8]) -> (r: Option<&'a str>)
    ensures
        match search::find_from(json.spec_bytes(), pattern@, 0) {
            Some(at) => {
                let content = grammar::string_at(json.spec_bytes(), at + pattern@.len()).0;
                &&& r is Some == content is Some
                &&& r is Some ==> r->0.spec_bytes() == content->0
            },
            None => r is None,
        },
{
    let finder = search::finder_for(pattern);
    let mut s = Scanner::new(json);
    if s.seek(&finder).is_none() {
        return None;
    }
    s.read_string()
}

/// The part of a text between two bytes of which the first stands behind a
/// quote and the second is one. Such cuts never split a character.
fn text_between<'a>(src: &'a str, start: usize, end: usize) -> (r: &'a str)
    requires
        0 < start <= end < src.spec_bytes().len(),
        src.spec_bytes()[start - 1] == QUOTE,
        src.spec_bytes()[end as int] == QUOTE,
    ensures
        r.spec_bytes() == src.spec_bytes().subrange(start as int, end as int),
{
    let ghost b = src.spec_bytes();
    proof {
        vstd::utf8::encode_utf8_valid_utf8(src@);
        vstd::utf8::is_char_boundary_iff_not_is_continuation_byte(b, end as int);
    }
    let (head, _) = src.split_at(end);
    let ghost h = head.spec_bytes();
    proof {
        vstd::utf8::encode_utf8_valid_utf8(head@);
        lemma_boundary_behind_ascii(h, start as int);
    }
    let (_, content) = head.split_at(start);
    assert(content.spec_bytes() =~= b.subrange(start as int, end as int));
    content
}

/// Behind an ASCII byte a new character starts.
proof fn lemma_boundary_behind_ascii(b: Seq<u8>, i: int)
    requires
        vstd::utf8::valid_utf8(b),
        0 < i <= b.len(),
        b[i - 1] < 0x80,
    ensures
        vstd::utf8::is_char_boundary(b, i),
    decreases b.len(),
{
    let n = vstd::utf8::length_of_first_scalar(b);
    let rest = vstd::utf8::pop_first_scalar(b);
    if i == n {
        reveal_with_fuel(vstd::utf8::is_char_boundary, 2);
    } else if i > n {
        assert(rest[i - n - 1] == b[i - 1]);
        lemma_boundary_behind_ascii(rest, i - n);
    }
}

} // verus!
