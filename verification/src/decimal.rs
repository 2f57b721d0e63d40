//! The meaning of decimal text: what a run of ASCII digits is worth, and which
//! fixed-point value a text such as `123.456` stands for.

use vstd::arithmetic::power::pow;
use vstd::prelude::*;
use vstd::string::*;

use crate::ascii::{DOT, NINE, PLUS, ZERO};

verus! {

/// Fractional digits that a fixed-point value keeps.
pub const FRACTION_DIGITS: u32 = 8;

/// What one unit is worth in a fixed-point value: ten to the power of
/// [`FRACTION_DIGITS`].
pub const SCALE: u64 = 100_000_000;

/// Powers of ten, for padding a short fraction with a single multiplication.
pub const POW10: [u64; 9] = [
    1,
    10,
    100,
    1_000,
    10_000,
    100_000,
    1_000_000,
    10_000_000,
    100_000_000,
];

/// Whether a byte is an ASCII digit.
pub open spec fn is_digit(b: u8) -> bool {
    ZERO <= b <= NINE
}

/// What an ASCII digit is worth.
pub open spec fn digit_value(b: u8) -> int {
    b - ZERO
}

/// Whether every byte is an ASCII digit.
pub open spec fn all_digits(s: Seq<u8>) -> bool {
    forall|i: int| 0 <= i < s.len() ==> is_digit(#[trigger] s[i])
}

/// The natural number that a run of ASCII digits spells in base ten. The empty
/// run is worth zero.
pub open spec fn digits_value(s: Seq<u8>) -> int
    decreases s.len(),
{
    if s.len() == 0 {
        0
    } else {
        digits_value(s.drop_last()) * 10 + digit_value(s.last())
    }
}

/// Ten to the power `n`.
pub open spec fn pow10(n: nat) -> int
    decreases n,
{
    if n == 0 {
        1
    } else {
        10 * pow10((n - 1) as nat)
    }
}

/// The first index at or after `from` that holds `b`, or the length of `s` when
/// there is none.
pub open spec fn find_byte(s: Seq<u8>, b: u8, from: int) -> int
    decreases s.len() - from,
{
    if from < 0 || from >= s.len() {
        s.len() as int
    } else if s[from] == b {
        from
    } else {
        find_byte(s, b, from + 1)
    }
}

/// The digits in front of the decimal point.
pub open spec fn integer_part(s: Seq<u8>) -> Seq<u8> {
    s.take(find_byte(s, DOT, 0))
}

/// The bytes behind the decimal point; empty where there is none.
pub open spec fn fraction_part(s: Seq<u8>) -> Seq<u8> {
    let dot = find_byte(s, DOT, 0);
    if dot < s.len() {
        s.skip(dot + 1)
    } else {
        Seq::empty()
    }
}

/// The fraction's digits that count: all of them, or the first eight.
pub open spec fn kept_fraction(s: Seq<u8>) -> Seq<u8> {
    if s.len() <= FRACTION_DIGITS {
        s
    } else {
        s.take(FRACTION_DIGITS as int)
    }
}

/// What a fraction is worth in units of `1 / SCALE`: its first eight digits,
/// padded on the right with zeros.
pub open spec fn fraction_value(s: Seq<u8>) -> int {
    digits_value(kept_fraction(s)) * pow10((FRACTION_DIGITS - kept_fraction(s).len()) as nat)
}

/// Whether a text is a decimal number: digits with at most one point among
/// them, and at least one digit.
pub open spec fn is_decimal(s: Seq<u8>) -> bool {
    &&& all_digits(integer_part(s))
    &&& all_digits(fraction_part(s))
    &&& integer_part(s).len() + fraction_part(s).len() > 0
}

/// The value of a decimal number in units of `1 / SCALE`, with digits beyond
/// the eighth behind the point cut off.
pub open spec fn decimal_value(s: Seq<u8>) -> int {
    digits_value(integer_part(s)) * SCALE + fraction_value(fraction_part(s))
}

/// The raw fixed-point value that a text stands for: `None` where the text is
/// no decimal number or its value does not fit in 64 bits.
pub open spec fn fixed_point_of(s: Seq<u8>) -> Option<u64> {
    if is_decimal(s) && decimal_value(s) <= u64::MAX {
        Some(decimal_value(s) as u64)
    } else {
        None
    }
}

/// The digits of an unsigned number, without a leading plus sign.
pub open spec fn unsigned_digits(s: Seq<u8>) -> Seq<u8> {
    if s.len() > 0 && s[0] == PLUS {
        s.skip(1)
    } else {
        s
    }
}

/// The unsigned number that a text stands for: digits, at least one, with at
/// most a plus sign in front. `None` where the text is something else or the
/// number does not fit in 64 bits.
pub open spec fn unsigned_of(s: Seq<u8>) -> Option<u64> {
    let digits = unsigned_digits(s);
    if digits.len() > 0 && all_digits(digits) && digits_value(digits) <= u64::MAX {
        Some(digits_value(digits) as u64)
    } else {
        None
    }
}

pub proof fn lemma_find_byte(s: Seq<u8>, b: u8, from: int)
    requires
        0 <= from <= s.len(),
    ensures
        from <= find_byte(s, b, from) <= s.len(),
        forall|j: int| from <= j < find_byte(s, b, from) ==> s[j] != b,
        find_byte(s, b, from) < s.len() ==> s[find_byte(s, b, from)] == b,
    decreases s.len() - from,
{
    if from < s.len() && s[from] != b {
        lemma_find_byte(s, b, from + 1);
    }
}

/// An index with the byte, and without it anywhere between, is the one found.
pub proof fn lemma_find_byte_is(s: Seq<u8>, b: u8, from: int, at: int)
    requires
        0 <= from <= at <= s.len(),
        forall|j: int| from <= j < at ==> s[j] != b,
        at < s.len() ==> s[at] == b,
    ensures
        find_byte(s, b, from) == at,
{
    lemma_find_byte(s, b, from);
    let found = find_byte(s, b, from);
    if found < at {
        assert(s[found] != b);
    } else if at < found {
        assert(s[at] != b);
    }
}

/// A digit run is worth at least zero.
pub proof fn lemma_digits_value_nonneg(s: Seq<u8>)
    requires
        all_digits(s),
    ensures
        digits_value(s) >= 0,
    decreases s.len(),
{
    if s.len() > 0 {
        assert(is_digit(s.last()));
        lemma_digits_value_nonneg(s.drop_last());
    }
}

/// One more digit multiplies the value by ten and adds the digit.
pub proof fn lemma_digits_value_push(s: Seq<u8>, i: int)
    requires
        0 <= i < s.len(),
    ensures
        digits_value(s.take(i + 1)) == digits_value(s.take(i)) * 10 + digit_value(s[i]),
{
    assert(s.take(i + 1).drop_last() =~= s.take(i));
}

/// Longer prefixes of a digit run are worth no less.
pub proof fn lemma_digits_value_monotone(s: Seq<u8>, i: int)
    requires
        all_digits(s),
        0 <= i <= s.len(),
    ensures
        digits_value(s.take(i)) <= digits_value(s),
    decreases s.len() - i,
{
    if i == s.len() {
        assert(s.take(i) =~= s);
    } else {
        lemma_digits_value_push(s, i);
        lemma_digits_value_nonneg(s.take(i));
        assert(is_digit(s[i]));
        lemma_digits_value_monotone(s, i + 1);
    }
}

/// A run of `n` digits is worth less than ten to the power `n`.
pub proof fn lemma_digits_value_bound(s: Seq<u8>)
    requires
        all_digits(s),
    ensures
        0 <= digits_value(s) < pow10(s.len()),
    decreases s.len(),
{
    if s.len() > 0 {
        assert(is_digit(s.last()));
        lemma_digits_value_bound(s.drop_last());
    }
}

pub proof fn lemma_pow10_table()
    ensures
        pow10(0) == 1,
        pow10(1) == 10,
        pow10(2) == 100,
        pow10(3) == 1_000,
        pow10(4) == 10_000,
        pow10(5) == 100_000,
        pow10(6) == 1_000_000,
        pow10(7) == 10_000_000,
        pow10(8) == 100_000_000,
{
    reveal_with_fuel(pow10, 9);
}

pub proof fn lemma_pow10_positive(n: nat)
    ensures
        pow10(n) > 0,
    decreases n,
{
    if n > 0 {
        lemma_pow10_positive((n - 1) as nat);
    }
}

pub proof fn lemma_pow10_add(a: nat, b: nat)
    ensures
        pow10(a) * pow10(b) == pow10(a + b),
    decreases a,
{
    if a > 0 {
        let p = pow10((a - 1) as nat);
        let q = pow10(b);
        lemma_pow10_add((a - 1) as nat, b);
        assert((10 * p) * q == 10 * (p * q)) by (nonlinear_arith);
    }
}

/// A fraction is worth less than one unit.
pub proof fn lemma_fraction_value_bound(s: Seq<u8>)
    requires
        all_digits(s),
    ensures
        0 <= fraction_value(s) < SCALE,
{
    let kept = kept_fraction(s);
    lemma_digits_value_bound(kept);
    lemma_pow10_table();
    let v = digits_value(kept);
    let pad = (FRACTION_DIGITS - kept.len()) as nat;
    lemma_pow10_add(kept.len(), pad);
    lemma_pow10_positive(pad);
    let low = pow10(kept.len());
    let high = pow10(pad);
    assert(0 <= v * high < low * high) by (nonlinear_arith)
        requires
            0 <= v < low,
            0 < high,
    ;
}

pub proof fn lemma_pow10_monotone(a: nat, b: nat)
    requires
        a <= b,
    ensures
        pow10(a) <= pow10(b),
    decreases b,
{
    if a < b {
        lemma_pow10_monotone(a, (b - 1) as nat);
        lemma_pow10_positive((b - 1) as nat);
    }
}

/// A byte in front of any point that is no digit spoils the number.
pub proof fn lemma_bad_integer(s: Seq<u8>, i: int)
    requires
        0 <= i < s.len(),
        forall|j: int| 0 <= j < i ==> is_digit(#[trigger] s[j]),
        !is_digit(s[i]),
        s[i] != DOT,
    ensures
        fixed_point_of(s) is None,
{
    lemma_find_byte(s, DOT, 0);
    let dot = find_byte(s, DOT, 0);
    if dot <= i && dot < i {
        assert(is_digit(s[dot]));
    }
    assert(integer_part(s)[i] == s[i]);
}

/// Leading digits that are worth too much make the whole number too large.
pub proof fn lemma_integer_overflow(s: Seq<u8>, i: int)
    requires
        0 <= i < s.len(),
        forall|j: int| 0 <= j <= i ==> is_digit(#[trigger] s[j]),
        digits_value(s.take(i + 1)) > u64::MAX,
    ensures
        fixed_point_of(s) is None,
{
    lemma_find_byte(s, DOT, 0);
    let dot = find_byte(s, DOT, 0);
    if dot <= i {
        assert(is_digit(s[dot]));
    }
    if is_decimal(s) {
        lemma_digits_value_monotone(integer_part(s), i + 1);
        assert(integer_part(s).take(i + 1) =~= s.take(i + 1));
        lemma_fraction_value_bound(fraction_part(s));
    }
}

/// Where the integer digits end, the parts of the number are known.
pub proof fn lemma_parts(s: Seq<u8>, i: int)
    requires
        0 <= i <= s.len(),
        forall|j: int| 0 <= j < i ==> is_digit(#[trigger] s[j]),
        i < s.len() ==> s[i] == DOT,
    ensures
        find_byte(s, DOT, 0) == i,
        integer_part(s) == s.take(i),
        all_digits(integer_part(s)),
        i < s.len() ==> fraction_part(s) == s.skip(i + 1),
        i == s.len() ==> fraction_part(s) == Seq::<u8>::empty(),
{
    lemma_find_byte_is(s, DOT, 0, i);
}

/// A run of `k` zeros.
pub open spec fn zeros(k: nat) -> Seq<u8> {
    Seq::new(k, |i: int| ZERO)
}

/// Zeros in front of a run of digits add nothing to its value.
pub proof fn lemma_zeros_in_front(k: nat, s: Seq<u8>)
    ensures
        digits_value(zeros(k) + s) == digits_value(s),
    decreases s.len(), k,
{
    let t = zeros(k) + s;
    if s.len() > 0 {
        lemma_zeros_in_front(k, s.drop_last());
        assert(t.drop_last() =~= zeros(k) + s.drop_last());
    } else if k > 0 {
        lemma_zeros_in_front((k - 1) as nat, s);
        assert(t.drop_last() =~= zeros((k - 1) as nat) + s);
    }
}

/// The parts of a text with zeros in front.
pub proof fn lemma_parts_behind_zeros(k: nat, s: Seq<u8>)
    ensures
        integer_part(zeros(k) + s) == zeros(k) + integer_part(s),
        fraction_part(zeros(k) + s) == fraction_part(s),
{
    let t = zeros(k) + s;
    lemma_find_byte(s, DOT, 0);
    let dot = find_byte(s, DOT, 0);
    assert forall|j: int| 0 <= j < k + dot implies t[j] != DOT by {
        if j >= k {
            assert(t[j] == s[j - k]);
        }
    }
    lemma_find_byte_is(t, DOT, 0, k + dot);
    assert(integer_part(t) =~= zeros(k) + integer_part(s));
    assert(fraction_part(t) =~= fraction_part(s));
}

/// The parts of a text that has a point, with more bytes behind it.
pub proof fn lemma_parts_with_tail(s: Seq<u8>, tail: Seq<u8>)
    requires
        find_byte(s, DOT, 0) < s.len(),
    ensures
        integer_part(s + tail) == integer_part(s),
        fraction_part(s + tail) == fraction_part(s) + tail,
{
    let t = s + tail;
    lemma_find_byte(s, DOT, 0);
    let dot = find_byte(s, DOT, 0);
    assert forall|j: int| 0 <= j < dot implies t[j] != DOT by {
        assert(t[j] == s[j]);
    }
    lemma_find_byte_is(t, DOT, 0, dot);
    assert(integer_part(t) =~= integer_part(s));
    assert(fraction_part(t) =~= fraction_part(s) + tail);
}

/// What digits are worth by their places: the digit with `k` digits behind it
/// counts `10^k` times.
pub open spec fn place_value(s: Seq<u8>) -> int
    decreases s.len(),
{
    if s.len() == 0 {
        0
    } else {
        (s[0] - 48) * pow(10, (s.len() - 1) as nat) + place_value(s.skip(1))
    }
}

proof fn lemma_place_value_push(s: Seq<u8>, d: u8)
    ensures
        place_value(s.push(d)) == 10 * place_value(s) + (d - 48),
    decreases s.len(),
{
    vstd::arithmetic::power::lemma_pow0(10);
    let t = s.push(d);
    if s.len() == 0 {
        assert(t.skip(1) =~= Seq::empty());
        assert(place_value(t.skip(1)) == 0);
        assert((t[0] - 48) * 1 == t[0] - 48);
    } else {
        let n = (s.len() - 1) as nat;
        lemma_place_value_push(s.skip(1), d);
        assert(t.skip(1) =~= s.skip(1).push(d));
        reveal(pow);
        assert(pow(10, n + 1) == 10 * pow(10, n));
        let a = s[0] - 48;
        let q = pow(10, n);
        assert(a * (10 * q) == 10 * (a * q)) by (nonlinear_arith);
    }
}

/// Powers of ten are powers of ten.
pub proof fn lemma_pow10_is_pow(n: nat)
    ensures
        pow10(n) == pow(10, n),
    decreases n,
{
    reveal(pow);
    if n > 0 {
        lemma_pow10_is_pow((n - 1) as nat);
    }
}

/// A run of digits is worth what its digits are worth by their places.
pub proof fn law_digits_by_place(s: Seq<u8>)
    ensures
        digits_value(s) == place_value(s),
    decreases s.len(),
{
    if s.len() > 0 {
        law_digits_by_place(s.drop_last());
        lemma_place_value_push(s.drop_last(), s.last());
        assert(s.drop_last().push(s.last()) =~= s);
    }
}

/// Digits behind others move those up by their number of places.
pub proof fn lemma_digits_value_concat(a: Seq<u8>, b: Seq<u8>)
    ensures
        digits_value(a + b) == digits_value(a) * pow10(b.len()) + digits_value(b),
    decreases b.len(),
{
    let t = a + b;
    if b.len() == 0 {
        assert(t =~= a);
        assert(digits_value(a) * 1 == digits_value(a));
    } else {
        let c = b.drop_last();
        lemma_digits_value_concat(a, c);
        assert(t.drop_last() =~= a + c);
        let x = digits_value(a);
        let q = pow10(c.len());
        assert((x * q) * 10 == x * (10 * q)) by (nonlinear_arith);
    }
}

/// The entry of [`POW10`] at `n` is ten to the power `n`.
pub fn power_of_ten(n: u32) -> (r: u64)
    requires
        n <= FRACTION_DIGITS,
    ensures
        r == pow10(n as nat),
{
    proof {
        lemma_pow10_table();
    }
    POW10[n as usize]
}

/// Read an unsigned number from text.
pub fn parse_unsigned(s: &str) -> (r: Option<u64>)
    ensures
        r == unsigned_of(s.spec_bytes()),
{
    let bytes = s.as_bytes();
    let len: usize = bytes.len();
    let ghost d = unsigned_digits(bytes@);
    let start: usize = if len > 0 && bytes[0] == PLUS {
        1
    } else {
        0
    };
    if start == len {
        return None;
    }
    let mut value: u64 = 0;
    let mut i: usize = start;
    while i < len
        invariant
            bytes@ == s.spec_bytes(),
            d == unsigned_digits(bytes@),
            len == bytes@.len(),
            start <= i <= len,
            d.len() == len - start,
            forall|j: int| 0 <= j < d.len() ==> #[trigger] d[j] == bytes@[start + j],
            forall|j: int| 0 <= j < i - start ==> is_digit(#[trigger] d[j]),
            value == digits_value(d.take(i - start)),
        decreases len - i,
    {
        let ghost k = i - start;
        let digit: u8 = bytes[i].wrapping_sub(ZERO);
        assert(d[k] == bytes@[i as int]);
        if digit > 9 {
            assert(!is_digit(d[k]));
            return None;
        }
        proof {
            lemma_digits_value_push(d, k);
            lemma_digits_value_nonneg(d.take(k));
            if all_digits(d) {
                lemma_digits_value_monotone(d, k + 1);
            }
        }
        let shifted: u64 = match value.checked_mul(10) {
            Some(v) => v,
            None => {
                return None;
            },
        };
        value = match shifted.checked_add(digit as u64) {
            Some(v) => v,
            None => {
                return None;
            },
        };
        i += 1;
    }
    assert(d.take(d.len() as int) =~= d);
    Some(value)
}

/// An unsigned number is what its digits spell, with or without a plus sign in front;
/// it is refused where it does not fit, and so is everything else.
pub proof fn law_parse_unsigned(s: &str, r: Option<u64>, d: Seq<u8>)
    requires
        call_ensures(parse_unsigned, (s,), r),
        s.spec_bytes() == d || s.spec_bytes() == seq![43u8] + d,
        s.spec_bytes() == d ==> d.len() == 0 || d[0] != 43,
    ensures
        r is Some <==> {
            &&& d.len() > 0
            &&& forall|i: int| 0 <= i < d.len() ==> 48 <= #[trigger] d[i] <= 57
            &&& place_value(d) <= 0xffff_ffff_ffff_ffff
        },
        r is Some ==> r->0 == place_value(d),
{
    law_digits_by_place(d);
    let b = s.spec_bytes();
    if b == seq![43u8] + d {
        assert(b[0] == 43);
        assert(b.skip(1) =~= d);
    }
    assert(unsigned_digits(b) == d);
    if all_digits(d) {
        lemma_digits_value_nonneg(d);
    }
}

/// The entry of the table at `n` is ten to the power `n`.
pub proof fn law_power_of_ten(n: u32, r: u64)
    requires
        n <= 8,
        call_ensures(power_of_ten, (n,), r),
    ensures
        r == pow(10, n as nat),
{
    lemma_pow10_is_pow(n as nat);
}

} // verus!
