//! What the parts of a message say: for every kind of value a spec function from
//! the bytes and a position to the value that starts there, and to the position
//! where reading it stops.

use vstd::prelude::*;

use crate::ascii::{
    BACKSLASH, CARRIAGE_RETURN, CLOSE_BRACKET, COMMA, DOT, NEWLINE, OPEN_BRACKET, QUOTE, SPACE, TAB,
};
use crate::decimal;
use crate::search;
use crate::types::{FixedPoint, RawLevel};

verus! {

/// Whether a byte is JSON whitespace.
pub open spec fn is_space(b: u8) -> bool {
    b == SPACE || b == TAB || b == NEWLINE || b == CARRIAGE_RETURN
}

/// The first index at or after `p` that holds no whitespace.
pub open spec fn after_space(b: Seq<u8>, p: int) -> int
    decreases b.len() - p,
{
    if 0 <= p < b.len() && is_space(b[p]) {
        after_space(b, p + 1)
    } else {
        p
    }
}

/// Whether `byte` stands at index `p`.
pub open spec fn byte_at(b: Seq<u8>, p: int, byte: u8) -> bool {
    0 <= p < b.len() && b[p] == byte
}

/// The index of the quote that ends a string whose content starts at `i`, or
/// the length of `b` when nothing ends it. A backslash hides the byte behind it.
pub open spec fn string_end(b: Seq<u8>, i: int) -> int
    decreases b.len() + 1 - i,
{
    if i < 0 || i >= b.len() {
        b.len() as int
    } else if b[i] == QUOTE {
        i
    } else if b[i] == BACKSLASH {
        string_end(b, i + 2)
    } else {
        string_end(b, i + 1)
    }
}

/// The raw content of the string that starts at `p`, after whitespace, and the
/// position behind it. A string that never ends swallows the rest.
pub open spec fn string_at(b: Seq<u8>, p: int) -> (Option<Seq<u8>>, int) {
    let open = after_space(b, p);
    if !byte_at(b, open, QUOTE) {
        (None, open)
    } else {
        let close = string_end(b, open + 1);
        if close < b.len() {
            (Some(b.subrange(open + 1, close)), close + 1)
        } else {
            (None, b.len() as int)
        }
    }
}

/// Digits from `i` on, added to what `acc` holds already, and the position
/// behind them. A number beyond 64 bits reads as zero and stops at the digit
/// that was too much.
pub open spec fn number_from(b: Seq<u8>, i: int, acc: int) -> (int, int)
    decreases b.len() - i,
{
    if 0 <= i < b.len() && decimal::is_digit(b[i]) {
        let next = acc * 10 + decimal::digit_value(b[i]);
        if next > u64::MAX {
            (0, i)
        } else {
            number_from(b, i + 1, next)
        }
    } else {
        (acc, i)
    }
}

/// The number that starts at `p`, after whitespace, and the position behind it.
pub open spec fn number_at(b: Seq<u8>, p: int) -> (int, int) {
    number_from(b, after_space(b, p), 0)
}

/// Where the digits that start at `i` end, or where they grow, together with
/// `acc`, beyond 64 bits.
pub open spec fn integer_stop(b: Seq<u8>, i: int, acc: int) -> int
    decreases b.len() - i,
{
    if 0 <= i < b.len() && decimal::is_digit(b[i]) && acc * 10 + decimal::digit_value(b[i])
        <= u64::MAX {
        integer_stop(b, i + 1, acc * 10 + decimal::digit_value(b[i]))
    } else {
        i
    }
}

/// Where the digits that start at `i` end.
pub open spec fn digits_end(b: Seq<u8>, i: int) -> int
    decreases b.len() - i,
{
    if 0 <= i < b.len() && decimal::is_digit(b[i]) {
        digits_end(b, i + 1)
    } else {
        i
    }
}

/// Where reading a decimal that starts at `start` stops: behind the closing
/// quote when there is a number in front of it, else at the byte that is out of
/// place.
pub open spec fn decimal_stop(b: Seq<u8>, start: int) -> int {
    let int_end = integer_stop(b, start, 0);
    if 0 <= int_end < b.len() && decimal::is_digit(b[int_end]) {
        int_end
    } else {
        let has_dot = byte_at(b, int_end, DOT);
        let end = if has_dot {
            digits_end(b, int_end + 1)
        } else {
            int_end
        };
        let digits = end - start - if has_dot {
            1int
        } else {
            0int
        };
        if byte_at(b, end, QUOTE) && digits > 0 {
            end + 1
        } else {
            end
        }
    }
}

/// The quoted decimal that starts at `p`: the value of the text up to the next
/// quote, and the position where reading stops.
pub open spec fn quoted_decimal_at(b: Seq<u8>, p: int) -> (Option<FixedPoint>, int) {
    if !byte_at(b, p, QUOTE) {
        (None, p)
    } else {
        let close = decimal::find_byte(b, QUOTE, p + 1);
        let value = if close < b.len() {
            FixedPoint::spec_parse(b.subrange(p + 1, close))
        } else {
            None
        };
        (value, decimal_stop(b, p + 1))
    }
}

/// The pair `["price","amount"]` that starts at `p`, and the position behind it
/// or at the byte that is out of place.
pub open spec fn pair_at(b: Seq<u8>, p: int) -> (Option<RawLevel>, int) {
    if !byte_at(b, p, OPEN_BRACKET) {
        (None, p)
    } else {
        let (price, behind_price) = quoted_decimal_at(b, p + 1);
        if price is None || !byte_at(b, behind_price, COMMA) {
            (None, behind_price)
        } else {
            let (amount, behind_amount) = quoted_decimal_at(b, behind_price + 1);
            if amount is None || !byte_at(b, behind_amount, CLOSE_BRACKET) {
                (None, behind_amount)
            } else {
                (Some(RawLevel { price: price->0, amount: amount->0 }), behind_amount + 1)
            }
        }
    }
}

/// `levels` with `level` behind them, unless its amount is zero.
pub open spec fn with_nonzero(levels: Seq<RawLevel>, level: RawLevel) -> Seq<RawLevel> {
    if level.amount.0 != 0 {
        levels.push(level)
    } else {
        levels
    }
}

/// The pairs from `p` to the end of their array, behind those in `acc`: all
/// whose amount is not zero, or the first `n` of them, and the position where
/// reading stops. Once `n` are there, what follows is not looked at.
pub open spec fn pairs_from(b: Seq<u8>, p: int, acc: Seq<RawLevel>, n: nat) -> (
    Option<Seq<RawLevel>>,
    int,
)
    decreases b.len() - p,
{
    let (pair, behind) = pair_at(b, p);
    if pair is None {
        (None, behind)
    } else {
        let levels = with_nonzero(acc, pair->0);
        if levels.len() > n {
            (Some(acc), behind)
        } else if byte_at(b, behind, COMMA) {
            if levels.len() == n {
                (Some(levels), behind + 1)
            } else {
                proof {
                    lemma_pair_end(b, p);
                }
                pairs_from(b, behind + 1, levels, n)
            }
        } else if byte_at(b, behind, CLOSE_BRACKET) {
            (Some(levels), behind + 1)
        } else {
            (None, behind)
        }
    }
}

/// The array of pairs that starts at `p`: the first `n` of them with a nonzero
/// amount, and the position where reading stops.
pub open spec fn raw_levels_at(b: Seq<u8>, p: int, n: nat) -> (Option<Seq<RawLevel>>, int) {
    if !byte_at(b, p, OPEN_BRACKET) {
        (None, p)
    } else if byte_at(b, p + 1, CLOSE_BRACKET) {
        (Some(Seq::empty()), p + 2)
    } else {
        pairs_from(b, p + 1, Seq::empty(), n)
    }
}

/// The levels behind the first `key` at or after `p`; none where the key is
/// absent, and the position is kept.
pub open spec fn optional_raw_levels_at(b: Seq<u8>, key: Seq<u8>, p: int, n: nat) -> (
    Option<Seq<RawLevel>>,
    int,
) {
    match search::find_from(b, key, p) {
        Some(at) => raw_levels_at(b, at + key.len(), n),
        None => (Some(Seq::empty()), p),
    }
}

/// The bytes of a price text and of an amount text.
pub type TextPair = (Seq<u8>, Seq<u8>);

/// Whether `byte` is what comes at `p` once whitespace is left out.
pub open spec fn token_at(b: Seq<u8>, p: int, byte: u8) -> bool {
    byte_at(b, after_space(b, p), byte)
}

/// The pair `["price", "amount"]` that starts at `p`, as two texts, and the
/// position behind it or at the byte that is out of place. Whitespace may stand
/// in front of every part.
pub open spec fn text_pair_at(b: Seq<u8>, p: int) -> (Option<TextPair>, int) {
    if !token_at(b, p, OPEN_BRACKET) {
        (None, after_space(b, p))
    } else {
        let (price, behind_price) = string_at(b, after_space(b, p) + 1);
        if price is None {
            (None, behind_price)
        } else if !token_at(b, behind_price, COMMA) {
            (None, after_space(b, behind_price))
        } else {
            let (amount, behind_amount) = string_at(b, after_space(b, behind_price) + 1);
            if amount is None {
                (None, behind_amount)
            } else if !token_at(b, behind_amount, CLOSE_BRACKET) {
                (None, after_space(b, behind_amount))
            } else {
                (Some((price->0, amount->0)), after_space(b, behind_amount) + 1)
            }
        }
    }
}

/// The pairs from `p` to the end of their array, behind those in `acc`: all of
/// them, or the first `n`, and the position where reading stops. Once `n` are
/// there and another would follow, what follows is not looked at.
pub open spec fn text_pairs_from(b: Seq<u8>, p: int, acc: Seq<TextPair>, n: nat) -> (
    Option<Seq<TextPair>>,
    int,
)
    decreases b.len() - p,
{
    let (pair, behind) = text_pair_at(b, p);
    if pair is None {
        (None, behind)
    } else {
        let levels = acc.push(pair->0);
        let next = after_space(b, behind);
        if levels.len() > n {
            (Some(acc), behind)
        } else if byte_at(b, next, COMMA) {
            if levels.len() == n {
                (Some(levels), next + 1)
            } else {
                proof {
                    lemma_text_pair_end(b, p);
                    lemma_after_space(b, behind);
                }
                text_pairs_from(b, next + 1, levels, n)
            }
        } else if byte_at(b, next, CLOSE_BRACKET) {
            (Some(levels), next + 1)
        } else {
            (None, next)
        }
    }
}

/// The array of text pairs that starts at `p`: the first `n` of them and the
/// position where reading stops.
pub open spec fn text_levels_at(b: Seq<u8>, p: int, n: nat) -> (Option<Seq<TextPair>>, int) {
    let open = after_space(b, p);
    let first = after_space(b, open + 1);
    if !byte_at(b, open, OPEN_BRACKET) {
        (None, open)
    } else if byte_at(b, first, CLOSE_BRACKET) {
        (Some(Seq::empty()), first + 1)
    } else {
        text_pairs_from(b, first, Seq::empty(), n)
    }
}

/// A pair of texts that was read lies inside the message and is not empty.
pub proof fn lemma_text_pair_end(b: Seq<u8>, p: int)
    ensures
        0 <= p <= b.len() ==> p <= text_pair_at(b, p).1 <= b.len(),
        text_pair_at(b, p).0 is Some ==> 0 <= p < text_pair_at(b, p).1 <= b.len(),
{
    lemma_after_space(b, p);
    if token_at(b, p, OPEN_BRACKET) {
        let start = after_space(b, p) + 1;
        lemma_string_end_at(b, start);
        let behind_price = string_at(b, start).1;
        lemma_after_space(b, behind_price);
        if token_at(b, behind_price, COMMA) {
            let second = after_space(b, behind_price) + 1;
            lemma_string_end_at(b, second);
            lemma_after_space(b, string_at(b, second).1);
        }
    }
}

/// A pair that was read lies inside the message and is not empty.
pub proof fn lemma_pair_end(b: Seq<u8>, p: int)
    ensures
        0 <= p <= b.len() ==> p <= pair_at(b, p).1 <= b.len(),
        pair_at(b, p).0 is Some ==> 0 <= p < pair_at(b, p).1 <= b.len(),
{
    if byte_at(b, p, OPEN_BRACKET) {
        lemma_quoted_decimal_end(b, p + 1);
        let (price, behind_price) = quoted_decimal_at(b, p + 1);
        if byte_at(b, behind_price, COMMA) {
            lemma_quoted_decimal_end(b, behind_price + 1);
        }
    }
}

pub proof fn lemma_integer_stop(b: Seq<u8>, i: int, acc: int)
    requires
        0 <= i <= b.len(),
    ensures
        i <= integer_stop(b, i, acc) <= b.len(),
        forall|j: int| i <= j < integer_stop(b, i, acc) ==> decimal::is_digit(#[trigger] b[j]),
    decreases b.len() - i,
{
    if i < b.len() && decimal::is_digit(b[i]) && acc * 10 + decimal::digit_value(b[i]) <= u64::MAX {
        lemma_integer_stop(b, i + 1, acc * 10 + decimal::digit_value(b[i]));
    }
}

pub proof fn lemma_digits_end(b: Seq<u8>, i: int)
    requires
        0 <= i <= b.len(),
    ensures
        i <= digits_end(b, i) <= b.len(),
        forall|j: int| i <= j < digits_end(b, i) ==> decimal::is_digit(#[trigger] b[j]),
        digits_end(b, i) < b.len() ==> !decimal::is_digit(b[digits_end(b, i)]),
    decreases b.len() - i,
{
    if i < b.len() && decimal::is_digit(b[i]) {
        lemma_digits_end(b, i + 1);
    }
}

/// Reading a quoted decimal never moves backwards nor past the end.
pub proof fn lemma_quoted_decimal_end(b: Seq<u8>, p: int)
    requires
        0 <= p <= b.len(),
    ensures
        p <= quoted_decimal_at(b, p).1 <= b.len(),
{
    if byte_at(b, p, QUOTE) {
        lemma_integer_stop(b, p + 1, 0);
        let int_end = integer_stop(b, p + 1, 0);
        if byte_at(b, int_end, DOT) {
            lemma_digits_end(b, int_end + 1);
        }
    }
}

/// Skipping whitespace never moves backwards nor past the end.
pub proof fn lemma_after_space(b: Seq<u8>, p: int)
    ensures
        p <= after_space(b, p),
        p <= b.len() ==> after_space(b, p) <= b.len(),
    decreases b.len() - p,
{
    if 0 <= p < b.len() && is_space(b[p]) {
        lemma_after_space(b, p + 1);
    }
}

pub proof fn lemma_string_end(b: Seq<u8>, i: int)
    requires
        0 <= i <= b.len() + 1,
    ensures
        string_end(b, i) <= b.len(),
        i <= b.len() ==> i <= string_end(b, i),
        string_end(b, i) < b.len() ==> b[string_end(b, i)] == QUOTE,
    decreases b.len() + 1 - i,
{
    if i < b.len() && b[i] != QUOTE {
        if b[i] == BACKSLASH {
            lemma_string_end(b, i + 2);
        } else {
            lemma_string_end(b, i + 1);
        }
    }
}

/// Reading a string never moves backwards nor past the end.
pub proof fn lemma_string_end_at(b: Seq<u8>, p: int)
    requires
        0 <= p <= b.len(),
    ensures
        p <= string_at(b, p).1 <= b.len(),
{
    lemma_after_space(b, p);
    if byte_at(b, after_space(b, p), QUOTE) {
        lemma_string_end(b, after_space(b, p) + 1);
    }
}

} // verus!
