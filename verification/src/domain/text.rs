//! How values are written into messages: numbers in decimal, names quoted
//! and escaped, lists joined.

use vstd::prelude::*;

use super::ids::hex_digit;

verus! {

/// The decimal digit for `d`, which is below ten.
pub open spec fn digit(d: nat) -> char {
    if d == 0 {
        '0'
    } else if d == 1 {
        '1'
    } else if d == 2 {
        '2'
    } else if d == 3 {
        '3'
    } else if d == 4 {
        '4'
    } else if d == 5 {
        '5'
    } else if d == 6 {
        '6'
    } else if d == 7 {
        '7'
    } else if d == 8 {
        '8'
    } else {
        '9'
    }
}

/// `n` written in decimal, without leading zeros.
pub open spec fn decimal(n: nat) -> Seq<char>
    decreases n,
{
    if n < 10 {
        seq![digit(n)]
    } else {
        decimal(n / 10).push(digit(n % 10))
    }
}

/// Whether `c` is an ASCII control character: below a space, or delete.
pub open spec fn is_control(c: char) -> bool {
    (c as u32) < 0x20 || (c as u32) == 0x7f
}

/// What `char::escape_debug` writes for `c`: the character itself where it
/// is printable, else an escape. For a character beyond ASCII this is also
/// what `{:?}` writes for it inside a quoted string.
pub uninterp spec fn debug_escape(c: char) -> Seq<char>;

/// `c` as `char::escape_debug` writes it.
///
/// Trusted: the result is claimed to be `debug_escape(c)`, a name for
/// what std's `char::escape_debug` yields for `c`; nothing more is said of
/// it. Which characters std counts as printable is its own table.
#[verifier::external_body]
fn escape_debug_text(c: char) -> (r: String)
    ensures
        r@ == debug_escape(c),
{
    c.escape_debug().to_string()
}

/// `n`, below 0x80, in lowercase hex without leading zeros.
pub open spec fn short_hex(n: u32) -> Seq<char> {
    if n < 16 {
        seq![hex_digit(n as u8)]
    } else {
        seq![hex_digit((n / 16) as u8), hex_digit((n % 16) as u8)]
    }
}

/// How a character is written inside a quoted name.
pub open spec fn escaped_char(c: char) -> Seq<char> {
    if c == '"' {
        seq!['\\', '"']
    } else if c == '\\' {
        seq!['\\', '\\']
    } else if c == '\n' {
        seq!['\\', 'n']
    } else if c == '\r' {
        seq!['\\', 'r']
    } else if c == '\t' {
        seq!['\\', 't']
    } else if c == '\0' {
        seq!['\\', '0']
    } else if is_control(c) {
        seq!['\\', 'u', '{'] + short_hex(c as u32) + seq!['}']
    } else if (c as u32) >= 0x80 {
        debug_escape(c)
    } else {
        seq![c]
    }
}

/// `s` with each character escaped.
pub open spec fn escaped(s: Seq<char>) -> Seq<char>
    decreases s.len(),
{
    if s.len() == 0 {
        Seq::empty()
    } else {
        escaped(s.drop_last()) + escaped_char(s.last())
    }
}

/// `s` between double quotes, escaped.
pub open spec fn quoted(s: Seq<char>) -> Seq<char> {
    seq!['"'] + escaped(s) + seq!['"']
}

/// `parts` with `sep` between each two.
pub open spec fn joined_with(parts: Seq<Seq<char>>, sep: Seq<char>) -> Seq<char>
    decreases parts.len(),
{
    if parts.len() == 0 {
        Seq::empty()
    } else if parts.len() == 1 {
        parts[0]
    } else {
        joined_with(parts.drop_last(), sep) + sep + parts.last()
    }
}

/// The text of the decimal digit `d`.
fn digit_str(d: u64) -> (r: &'static str)
    requires
        d < 10,
    ensures
        r@ == seq![digit(d as nat)],
{
    proof {
        reveal_strlit("0");
        reveal_strlit("1");
        reveal_strlit("2");
        reveal_strlit("3");
        reveal_strlit("4");
        reveal_strlit("5");
        reveal_strlit("6");
        reveal_strlit("7");
        reveal_strlit("8");
        reveal_strlit("9");
    }
    if d == 0 {
        "0"
    } else if d == 1 {
        "1"
    } else if d == 2 {
        "2"
    } else if d == 3 {
        "3"
    } else if d == 4 {
        "4"
    } else if d == 5 {
        "5"
    } else if d == 6 {
        "6"
    } else if d == 7 {
        "7"
    } else if d == 8 {
        "8"
    } else {
        "9"
    }
}

/// `n` in decimal.
pub fn decimal_text(n: u64) -> (r: String)
    ensures
        r@ == decimal(n as nat),
    decreases n,
{
    if n < 10 {
        let mut s = String::new();
        s.append(digit_str(n));
        s
    } else {
        let mut s = decimal_text(n / 10);
        s.append(digit_str(n % 10));
        s
    }
}

/// The hex digit for `n`, below sixteen.
fn hex_digit_text(n: u32) -> (r: &'static str)
    requires
        n < 16,
    ensures
        r@ == seq![hex_digit(n as u8)],
{
    let digits = "0123456789abcdef";
    proof {
        reveal_strlit("0123456789abcdef");
    }
    let one = digits.substring_char(n as usize, n as usize + 1);
    assert(digits@[n as int] == hex_digit(n as u8));
    assert(one@ =~= seq![hex_digit(n as u8)]);
    one
}

/// A control character as `\u{..}` writes it.
fn control_text(c: char) -> (r: String)
    requires
        is_control(c),
    ensures
        r@ == seq!['\\', 'u', '{'] + short_hex(c as u32) + seq!['}'],
{
    proof {
        reveal_strlit("\\u{");
        reveal_strlit("}");
    }
    let n: u32 = c as u32;
    let mut out = String::from_str("\\u{");
    if n < 16 {
        out.append(hex_digit_text(n));
    } else {
        out.append(hex_digit_text(n / 16));
        out.append(hex_digit_text(n % 16));
    }
    out.append("}");
    out
}

/// `s` between double quotes, escaped.
pub fn quote(s: &str) -> (r: String)
    ensures
        r@ == quoted(s@),
{
    proof {
        reveal_strlit("\"");
        reveal_strlit("\\\"");
        reveal_strlit("\\\\");
        reveal_strlit("\\n");
        reveal_strlit("\\r");
        reveal_strlit("\\t");
        reveal_strlit("\\0");
    }
    let mut out = String::from_str("\"");
    let n = s.unicode_len();
    let mut i: usize = 0;
    while i < n
        invariant
            n == s@.len(),
            i <= n,
            out@ == seq!['"'] + escaped(s@.take(i as int)),
        decreases n - i,
    {
        let c = s.get_char(i);
        let ghost before = out@;
        if c == '"' {
            out.append("\\\"");
        } else if c == '\\' {
            out.append("\\\\");
        } else if c == '\n' {
            out.append("\\n");
        } else if c == '\r' {
            out.append("\\r");
        } else if c == '\t' {
            out.append("\\t");
        } else if c == '\0' {
            out.append("\\0");
        } else if (c as u32) < 0x20 || (c as u32) == 0x7f {
            let t = control_text(c);
            out.append(t.as_str());
        } else if (c as u32) >= 0x80 {
            let t = escape_debug_text(c);
            out.append(t.as_str());
        } else {
            out.append(s.substring_char(i, i + 1));
        }
        proof {
            reveal_strlit("\\\"");
            reveal_strlit("\\\\");
            reveal_strlit("\\n");
            reveal_strlit("\\r");
            reveal_strlit("\\t");
            reveal_strlit("\\0");
            assert(s@.take(i + 1).drop_last() =~= s@.take(i as int));
            assert(s@.take(i + 1).last() == c);
            assert(s@.subrange(i as int, i + 1) =~= seq![c]);
            assert(out@ =~= before + escaped_char(c));
        }
        i = i + 1;
    }
    out.append("\"");
    assert(s@.take(n as int) =~= s@);
    out
}

/// `parts` with `sep` between each two.
pub fn join_texts(parts: &Vec<String>, sep: &str) -> (r: String)
    ensures
        r@ == joined_with(super::values::texts(parts@), sep@),
{
    let ghost t = super::values::texts(parts@);
    let mut out = String::new();
    let mut i: usize = 0;
    while i < parts.len()
        invariant
            t == super::values::texts(parts@),
            i <= parts.len(),
            out@ == joined_with(t.take(i as int), sep@),
        decreases parts.len() - i,
    {
        proof {
            assert(t.take(i + 1).drop_last() =~= t.take(i as int));
            assert(t.take(i + 1).last() == parts@[i as int]@);
            if i == 0 {
                assert(out@ =~= Seq::<char>::empty());
            }
        }
        if i > 0 {
            out.append(sep);
        }
        out.append(parts[i].as_str());
        proof {
            if i == 0 {
                assert(t.take(1)[0] == parts@[0]@);
                assert(out@ =~= parts@[0]@);
            }
        }
        i = i + 1;
    }
    assert(t.take(parts.len() as int) =~= t);
    out
}

} // verus!
