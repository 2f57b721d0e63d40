//! Configuration of the server, and what a valid trading pair is.

use vstd::prelude::*;
use vstd::string::*;

verus! {

/// Trading pair where none is given.
pub const DEFAULT_SYMBOL: &'static str = "ethbtc";

/// gRPC server port where none is given.
pub const DEFAULT_PORT: u16 = 50051;

/// Metrics and health HTTP port where none is given.
pub const DEFAULT_METRICS_PORT: u16 = 9090;

/// Settings of the server.
#[derive(Debug, Clone)]
pub struct Config {
    /// Trading pair symbol, such as `ethbtc`.
    pub symbol: String,
    /// gRPC server port.
    pub port: u16,
    /// Metrics and health HTTP port.
    pub metrics_port: u16,
}

impl Default for Config {
    fn default() -> (r: Self)
        ensures
            r.symbol@ == "ethbtc"@,
            r.port == 50051,
            r.metrics_port == 9090,
    {
        Config {
            symbol: DEFAULT_SYMBOL.to_owned(),
            port: DEFAULT_PORT,
            metrics_port: DEFAULT_METRICS_PORT,
        }
    }
}

/// Whether a character is an ASCII letter or digit.
pub open spec fn is_alphanumeric(c: char) -> bool {
    'a' <= c <= 'z' || 'A' <= c <= 'Z' || '0' <= c <= '9'
}

/// An ASCII letter in lower case; other characters as they are.
pub open spec fn lower(c: char) -> char {
    if 'A' <= c <= 'Z' {
        (c as u8 + 32) as char
    } else {
        c
    }
}

/// Whether a symbol is made of ASCII letters and digits only.
pub open spec fn all_alphanumeric(symbol: Seq<char>) -> bool {
    forall|i: int| 0 <= i < symbol.len() ==> is_alphanumeric(#[trigger] symbol[i])
}

/// What validation makes of a symbol: the symbol in lower case, or the error.
pub open spec fn validated(symbol: Seq<char>) -> Result<Seq<char>, Seq<char>> {
    if symbol.len() == 0 {
        Err("symbol cannot be empty"@)
    } else if !all_alphanumeric(symbol) {
        Err("symbol must be alphanumeric, got: "@ + symbol)
    } else {
        Ok(symbol.map_values(|c: char| lower(c)))
    }
}

/// The lower case of an upper case letter.
fn lower_letter(b: u8) -> (r: &'static str)
    requires
        65 <= b <= 90,
    ensures
        r@ == seq![lower(b as char)],
{
    proof {
        reveal_strlit("a");
        reveal_strlit("b");
        reveal_strlit("c");
        reveal_strlit("d");
        reveal_strlit("e");
        reveal_strlit("f");
        reveal_strlit("g");
        reveal_strlit("h");
        reveal_strlit("i");
        reveal_strlit("j");
        reveal_strlit("k");
        reveal_strlit("l");
        reveal_strlit("m");
        reveal_strlit("n");
        reveal_strlit("o");
        reveal_strlit("p");
        reveal_strlit("q");
        reveal_strlit("r");
        reveal_strlit("s");
        reveal_strlit("t");
        reveal_strlit("u");
        reveal_strlit("v");
        reveal_strlit("w");
        reveal_strlit("x");
        reveal_strlit("y");
        reveal_strlit("z");
    }
    match b {
        65 => "a",
        66 => "b",
        67 => "c",
        68 => "d",
        69 => "e",
        70 => "f",
        71 => "g",
        72 => "h",
        73 => "i",
        74 => "j",
        75 => "k",
        76 => "l",
        77 => "m",
        78 => "n",
        79 => "o",
        80 => "p",
        81 => "q",
        82 => "r",
        83 => "s",
        84 => "t",
        85 => "u",
        86 => "v",
        87 => "w",
        88 => "x",
        89 => "y",
        _ => "z",
    }
}

/// Check that a trading pair symbol is not empty and alphanumeric, and turn it
/// into lower case, as the exchanges expect it.
pub fn validate_symbol(s: &str) -> (r: Result<String, String>)
    ensures
        match validated(s@) {
            Ok(symbol) => r is Ok && r->Ok_0@ == symbol,
            Err(message) => r is Err && r->Err_0@ == message,
        },
{
    if s.is_empty() {
        return Err("symbol cannot be empty".to_owned());
    }
    if !is_valid(s) {
        let mut message = String::new();
        message.append("symbol must be alphanumeric, got: ");
        message.append(s);
        assert(message@ =~= "symbol must be alphanumeric, got: "@ + s@);
        return Err(message);
    }
    let mut symbol = String::new();
    let len: usize = s.unicode_len();
    let ghost expected = s@.map_values(|c: char| lower(c));
    let mut i: usize = 0;
    while i < len
        invariant
            len == s@.len(),
            i <= len,
            all_alphanumeric(s@),
            s.is_ascii(),
            expected == s@.map_values(|c: char| lower(c)),
            symbol@ == expected.take(i as int),
        decreases len - i,
    {
        let b: u8 = s.get_ascii(i);
        let ghost before = symbol@;
        assert(is_alphanumeric(s@[i as int]));
        if 65 <= b && b <= 90 {
            symbol.append(lower_letter(b));
        } else {
            symbol.append(s.substring_ascii(i, i + 1));
        }
        assert(symbol@ =~= expected.take(i + 1));
        i += 1;
    }
    assert(expected.take(len as int) =~= expected);
    Ok(symbol)
}

/// Whether a text is made of ASCII letters and digits only.
fn is_valid(s: &str) -> (r: bool)
    ensures
        r == all_alphanumeric(s@),
        r ==> s.is_ascii(),
{
    if !s.is_ascii() {
        return false;
    }
    let len: usize = s.unicode_len();
    let mut i: usize = 0;
    while i < len
        invariant
            len == s@.len(),
            i <= len,
            s.is_ascii(),
            forall|j: int| 0 <= j < i ==> is_alphanumeric(#[trigger] s@[j]),
        decreases len - i,
    {
        let b: u8 = s.get_ascii(i);
        let letter: bool = (97 <= b && b <= 122) || (65 <= b && b <= 90);
        let digit: bool = 48 <= b && b <= 57;
        if !letter && !digit {
            assert(!is_alphanumeric(s@[i as int]));
            return false;
        }
        i += 1;
    }
    true
}

/// A valid symbol is accepted again, and stays as it is.
pub proof fn law_validation_is_idempotent(symbol: Seq<char>)
    requires
        validated(symbol) is Ok,
    ensures
        validated(validated(symbol)->Ok_0) == Ok::<Seq<char>, Seq<char>>(validated(symbol)->Ok_0),
{
    let once = validated(symbol)->Ok_0;
    assert forall|i: int| 0 <= i < once.len() implies is_alphanumeric(#[trigger] once[i]) && lower(
        once[i],
    ) == once[i] by {
        assert(is_alphanumeric(symbol[i]));
    }
    assert(once.map_values(|c: char| lower(c)) =~= once);
}

/// A symbol is accepted exactly where it is not empty and made of ASCII letters and
/// digits; it comes back letter by letter, capital letters as their small ones and
/// everything else as it is. What is refused is named in the error.
pub proof fn law_validate_symbol(s: &str, r: Result<String, String>)
    requires
        call_ensures(validate_symbol, (s,), r),
    ensures
        r is Ok <==> s@.len() > 0 && forall|i: int|
            0 <= i < s@.len() ==> {
                let c = #[trigger] s@[i];
                'a' <= c <= 'z' || 'A' <= c <= 'Z' || '0' <= c <= '9'
            },
        r is Ok ==> r->Ok_0@.len() == s@.len() && forall|i: int|
            0 <= i < s@.len() ==> (#[trigger] r->Ok_0@[i]) as int == s@[i] as int + if 'A'
                <= s@[i] <= 'Z' {
                32int
            } else {
                0int
            },
        r is Err && s@.len() > 0 ==> r->Err_0@ == "symbol must be alphanumeric, got: "@ + s@,
        s@.len() == 0 ==> r is Err && r->Err_0@ == "symbol cannot be empty"@,
{
    if r is Ok {
        assert forall|i: int| 0 <= i < s@.len() implies (#[trigger] r->Ok_0@[i]) as int
            == s@[i] as int + if 'A' <= s@[i] <= 'Z' {
            32int
        } else {
            0int
        } by {
            assert(is_alphanumeric(s@[i]));
            assert(r->Ok_0@[i] == lower(s@[i]));
        }
        assert forall|i: int| 0 <= i < s@.len() implies {
            let c = #[trigger] s@[i];
            'a' <= c <= 'z' || 'A' <= c <= 'Z' || '0' <= c <= '9'
        } by {
            assert(is_alphanumeric(s@[i]));
        }
    } else if s@.len() > 0 {
        let i = choose|i: int| 0 <= i < s@.len() && !is_alphanumeric(#[trigger] s@[i]);
        assert(!is_alphanumeric(s@[i]));
    }
}

/// Symbols that differ in more than the case of their letters stay different.
pub proof fn law_symbols_stay_apart(a: &str, b: &str, x: String, y: String)
    requires
        call_ensures(validate_symbol, (a,), Ok::<String, String>(x)),
        call_ensures(validate_symbol, (b,), Ok::<String, String>(y)),
    ensures
        x@ == y@ <==> a@.len() == b@.len() && forall|i: int|
            0 <= i < a@.len() ==> {
                ||| #[trigger] a@[i] == b@[i]
                ||| 'A' <= a@[i] <= 'Z' && b@[i] as int == a@[i] as int + 32
                ||| 'A' <= b@[i] <= 'Z' && a@[i] as int == b@[i] as int + 32
            },
{
    law_validate_symbol(a, Ok::<String, String>(x));
    law_validate_symbol(b, Ok::<String, String>(y));
    if x@ == y@ {
        assert forall|i: int| 0 <= i < a@.len() implies {
            ||| #[trigger] a@[i] == b@[i]
            ||| 'A' <= a@[i] <= 'Z' && b@[i] as int == a@[i] as int + 32
            ||| 'A' <= b@[i] <= 'Z' && a@[i] as int == b@[i] as int + 32
        } by {
            assert(x@[i] == y@[i]);
            assert(b@[i] == b@[i]);
        }
    }
    if a@.len() == b@.len() && forall|i: int|
        0 <= i < a@.len() ==> {
            ||| #[trigger] a@[i] == b@[i]
            ||| 'A' <= a@[i] <= 'Z' && b@[i] as int == a@[i] as int + 32
            ||| 'A' <= b@[i] <= 'Z' && a@[i] as int == b@[i] as int + 32
        } {
        assert forall|i: int| 0 <= i < x@.len() implies x@[i] == y@[i] by {
            let c = a@[i];
            let d = b@[i];
        }
        assert(x@ =~= y@);
    }
}

} // verus!
