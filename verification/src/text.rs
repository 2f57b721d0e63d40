//! Numbers as text: the decimal digits of a number, plain or padded.

use vstd::arithmetic::power::pow;
use vstd::prelude::*;
use vstd::string::*;

use crate::decimal;

verus! {

/// The character for a decimal digit.
pub open spec fn digit_char(d: int) -> char {
    (48 + d) as char
}

/// A number in base ten, without leading zeros.
pub open spec fn number_text(n: nat) -> Seq<char>
    decreases n,
{
    if n < 10 {
        seq![digit_char(n as int)]
    } else {
        number_text(n / 10).push(digit_char((n % 10) as int))
    }
}

/// The last `width` digits of a number, with zeros in front where it has fewer.
pub open spec fn padded_text(n: nat, width: nat) -> Seq<char>
    decreases width,
{
    if width == 0 {
        Seq::empty()
    } else {
        padded_text(n / 10, (width - 1) as nat).push(digit_char((n % 10) as int))
    }
}

/// The bytes of a text that holds ASCII characters only.
pub open spec fn ascii_bytes(s: Seq<char>) -> Seq<u8> {
    Seq::new(s.len(), |i: int| s[i] as u8)
}

/// Whether every character is a decimal digit.
pub open spec fn all_digit_chars(s: Seq<char>) -> bool {
    forall|i: int| 0 <= i < s.len() ==> '0' <= #[trigger] s[i] <= '9'
}

/// The text of a single digit.
fn digit(d: u64) -> (r: &'static str)
    requires
        d < 10,
    ensures
        r@ == seq![digit_char(d as int)],
{
    proof {
        reveal_strlit("0");
        reveal_strlit("1");
        reveal_strlit("2");
        reveal_strlit("3");
        reveal_strlit("4");
        reveal_strlit("5");
        reveal_strlit("6");
        reveal_strlit("7");
        reveal_strlit("8");
        reveal_strlit("9");
    }
    match d {
        0 => "0",
        1 => "1",
        2 => "2",
        3 => "3",
        4 => "4",
        5 => "5",
        6 => "6",
        7 => "7",
        8 => "8",
        _ => "9",
    }
}

/// Append a number in base ten.
pub fn append_number(out: &mut String, n: u64)
    ensures
        final(out)@ == old(out)@ + number_text(n as nat),
    decreases n,
{
    let ghost before = out@;
    if n >= 10 {
        append_number(out, n / 10);
    }
    out.append(digit(n % 10));
    assert(out@ =~= before + number_text(n as nat));
}

/// Append the last `width` digits of a number, zeros in front.
pub fn append_padded(out: &mut String, n: u64, width: u32)
    ensures
        final(out)@ == old(out)@ + padded_text(n as nat, width as nat),
    decreases width,
{
    let ghost before = out@;
    if width > 0 {
        append_padded(out, n / 10, width - 1);
        out.append(digit(n % 10));
    }
    assert(out@ =~= before + padded_text(n as nat, width as nat));
}

/// Whether two texts are the same: their characters, and so their bytes.
pub fn same_text(a: &str, b: &str) -> (r: bool)
    ensures
        r == (a@ == b@),
        r == (a.spec_bytes() == b.spec_bytes()),
{
    let x = a.as_bytes();
    let y = b.as_bytes();
    proof {
        vstd::utf8::encode_utf8_decode_utf8(a@);
        vstd::utf8::encode_utf8_decode_utf8(b@);
    }
    if x.len() != y.len() {
        return false;
    }
    let mut i: usize = 0;
    while i < x.len()
        invariant
            x@ == a.spec_bytes(),
            y@ == b.spec_bytes(),
            x@.len() == y@.len(),
            i <= x@.len(),
            forall|j: int| 0 <= j < i ==> #[trigger] x@[j] == y@[j],
        decreases x@.len() - i,
    {
        if x[i] != y[i] {
            return false;
        }
        i += 1;
    }
    assert(x@ =~= y@);
    true
}

proof fn lemma_push_digit(s: Seq<char>, d: int)
    requires
        all_digit_chars(s),
        0 <= d < 10,
    ensures
        all_digit_chars(s.push(digit_char(d))),
        decimal::digits_value(ascii_bytes(s.push(digit_char(d)))) == decimal::digits_value(
            ascii_bytes(s),
        ) * 10 + d,
{
    let t = s.push(digit_char(d));
    assert(ascii_bytes(t).drop_last() =~= ascii_bytes(s));
    assert(digit_char(d) as u8 == 48 + d);
}

/// The text of a number is made of digits, at least one, and spells the number.
pub proof fn lemma_number_text(n: nat)
    ensures
        number_text(n).len() > 0,
        all_digit_chars(number_text(n)),
        decimal::digits_value(ascii_bytes(number_text(n))) == n,
    decreases n,
{
    if n < 10 {
        lemma_push_digit(Seq::empty(), n as int);
        assert(number_text(n) =~= Seq::empty().push(digit_char(n as int)));
    } else {
        lemma_number_text(n / 10);
        lemma_push_digit(number_text(n / 10), (n % 10) as int);
    }
}

/// What [`append_number`] writes are digits that are worth the number by their
/// places, and the first is zero only where it stands alone.
pub proof fn law_number_is_spelled(out: &mut String, n: u64)
    requires
        call_ensures(append_number, (out, n), ()),
    ensures
        final(out)@.len() > old(out)@.len(),
        final(out)@.take(old(out)@.len() as int) == old(out)@,
        ({
            let t = final(out)@.skip(old(out)@.len() as int);
            &&& forall|i: int| 0 <= i < t.len() ==> '0' <= #[trigger] t[i] <= '9'
            &&& t[0] == '0' ==> t.len() == 1
            &&& decimal::place_value(Seq::new(t.len(), |i: int| t[i] as u8)) == n
        }),
{
    let t = number_text(n as nat);
    lemma_number_text(n as nat);
    lemma_no_leading_zero(n as nat);
    decimal::law_digits_by_place(ascii_bytes(t));
    assert(final(out)@.take(old(out)@.len() as int) =~= old(out)@);
    assert(final(out)@.skip(old(out)@.len() as int) =~= t);
    assert(Seq::new(t.len(), |i: int| t[i] as u8) =~= ascii_bytes(t));
}

/// The first digit of a number is zero only where it stands alone.
pub proof fn lemma_no_leading_zero(n: nat)
    ensures
        number_text(n).len() > 0,
        number_text(n)[0] == '0' ==> n == 0,
        n == 0 ==> number_text(n).len() == 1,
    decreases n,
{
    if n >= 10 {
        lemma_no_leading_zero(n / 10);
    }
}

/// Two texts are found to be the same exactly where they have the same characters.
pub proof fn law_same_text(a: &str, b: &str, r: bool)
    requires
        call_ensures(same_text, (a, b), r),
    ensures
        r <==> a@.len() == b@.len() && forall|i: int| 0 <= i < a@.len() ==> a@[i] == b@[i],
{
    if a@.len() == b@.len() && forall|i: int| 0 <= i < a@.len() ==> a@[i] == b@[i] {
        assert(a@ =~= b@);
    }
}

/// A padded number has `width` digits and, where they suffice, spells the number.
pub proof fn lemma_padded_text(n: nat, width: nat)
    requires
        n < decimal::pow10(width),
    ensures
        padded_text(n, width).len() == width,
        all_digit_chars(padded_text(n, width)),
        decimal::digits_value(ascii_bytes(padded_text(n, width))) == n,
    decreases width,
{
    if width > 0 {
        lemma_padded_text(n / 10, (width - 1) as nat);
        lemma_push_digit(padded_text(n / 10, (width - 1) as nat), (n % 10) as int);
    }
}

/// Characters that are all ASCII are encoded one byte each.
pub proof fn lemma_ascii_bytes(s: Seq<char>)
    requires
        vstd::utf8::is_ascii_chars(s),
    ensures
        vstd::utf8::encode_utf8(s) == ascii_bytes(s),
{
    vstd::utf8::is_ascii_chars_encode_utf8(s);
}

/// What [`append_padded`] writes are `width` digits; for a number that has no more,
/// they are worth the number by their places.
pub proof fn law_padded_number_is_spelled(out: &mut String, n: u64, width: u32)
    requires
        n < pow(10, width as nat),
        call_ensures(append_padded, (out, n, width), ()),
    ensures
        final(out)@.len() == old(out)@.len() + width,
        final(out)@.take(old(out)@.len() as int) == old(out)@,
        ({
            let t = final(out)@.skip(old(out)@.len() as int);
            &&& forall|i: int| 0 <= i < t.len() ==> '0' <= #[trigger] t[i] <= '9'
            &&& decimal::place_value(Seq::new(t.len(), |i: int| t[i] as u8)) == n
        }),
{
    let t = padded_text(n as nat, width as nat);
    decimal::lemma_pow10_is_pow(width as nat);
    lemma_padded_text(n as nat, width as nat);
    decimal::law_digits_by_place(ascii_bytes(t));
    assert(final(out)@.take(old(out)@.len() as int) =~= old(out)@);
    assert(final(out)@.skip(old(out)@.len() as int) =~= t);
    assert(Seq::new(t.len(), |i: int| t[i] as u8) =~= ascii_bytes(t));
}

} // verus!
