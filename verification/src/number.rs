//! Integer parsing and formatting: the `u64::from_str_radix` rules used to
//! read addresses and bases, and the decimal / hexadecimal renderings used in
//! reports and `atos` arguments.

use vstd::prelude::*;

use crate::text::{
    append_chars, chars_of, starts_with_spec, string_of, sub_chars, trim, trim_spec,
};

verus! {

/// Why a string is not an integer (the kinds of `std::num::ParseIntError`
/// that an unsigned parse can produce).
#[derive(Debug, Clone, Copy, PartialEq, Eq, Structural)]
pub enum IntErrorKind {
    /// The string is empty.
    Empty,
    /// A character is not a digit of the radix (or a lone sign).
    InvalidDigit,
    /// The value does not fit in a `u64`.
    PosOverflow,
}

/// `char::to_digit(radix)` for `radix <= 36`.
pub open spec fn digit_value(c: char, radix: nat) -> Option<nat> {
    let u = c as u32;
    let d: int = if 0x30 <= u <= 0x39 {
        u - 0x30
    } else if 0x61 <= u <= 0x7a {
        u - 0x61 + 10
    } else if 0x41 <= u <= 0x5a {
        u - 0x41 + 10
    } else {
        36
    };
    if d < radix {
        Some(d as nat)
    } else {
        None
    }
}

/// The value of the digit string `ds`, read left to right as
/// `u64::from_str_radix` does: at each character, a non-digit is reported
/// before an overflow.
pub open spec fn digits_value(ds: Seq<char>, radix: nat) -> Result<u64, IntErrorKind>
    decreases ds.len(),
{
    if ds.len() == 0 {
        Ok(0)
    } else {
        match digits_value(ds.drop_last(), radix) {
            Err(e) => Err(e),
            Ok(acc) => match digit_value(ds.last(), radix) {
                None => Err(IntErrorKind::InvalidDigit),
                Some(d) => if acc * radix + d > u64::MAX {
                    Err(IntErrorKind::PosOverflow)
                } else {
                    Ok((acc * radix + d) as u64)
                },
            },
        }
    }
}

/// `u64::from_str_radix(s, radix)`: an optional `+` followed by digits.
pub open spec fn from_str_radix_spec(s: Seq<char>, radix: nat) -> Result<u64, IntErrorKind> {
    if s.len() == 0 {
        Err(IntErrorKind::Empty)
    } else if s.len() == 1 && (s[0] == '+' || s[0] == '-') {
        Err(IntErrorKind::InvalidDigit)
    } else if s[0] == '+' {
        digits_value(s.drop_first(), radix)
    } else {
        digits_value(s, radix)
    }
}

/// The two spellings of the hexadecimal prefix.
pub open spec fn has_hex_prefix(s: Seq<char>) -> bool {
    starts_with_spec(s, seq!['0', 'x']) || starts_with_spec(s, seq!['0', 'X'])
}

/// What `parse_hex` reads: the trimmed text, without a `0x`/`0X` prefix.
pub open spec fn hex_body(value: Seq<char>) -> Seq<char> {
    let t = trim_spec(value);
    if has_hex_prefix(t) {
        t.skip(2)
    } else {
        t
    }
}

/// What `parse_hex` returns.
pub open spec fn parse_hex_spec(value: Seq<char>) -> Option<u64> {
    match from_str_radix_spec(hex_body(value), 16) {
        Ok(v) => Some(v),
        Err(_) => None,
    }
}

/// What `parse_int_auto` returns: hexadecimal after a `0x`/`0X` prefix,
/// decimal otherwise, around trimmed text.
pub open spec fn parse_int_auto_spec(value: Seq<char>) -> Result<u64, IntErrorKind> {
    let t = trim_spec(value);
    if has_hex_prefix(t) {
        from_str_radix_spec(t.skip(2), 16)
    } else {
        from_str_radix_spec(t, 10)
    }
}

/// The lower-case digit for `d < 16`.
pub open spec fn digit_char(d: nat) -> char {
    if d < 10 {
        (d + 0x30) as char
    } else {
        (d - 10 + 0x61) as char
    }
}

/// The digits of `v` in `base`, most significant first, without leading zeros.
pub open spec fn digits_spec(v: nat, base: nat) -> Seq<char>
    decreases v,
{
    if base < 2 || v < base {
        seq![digit_char(v)]
    } else {
        proof {
            assert(v / base < v) by (nonlinear_arith)
                requires
                    base >= 2,
                    v >= base,
            ;
        }
        digits_spec(v / base, base).push(digit_char(v % base))
    }
}

/// `format!("0x{value:x}")`.
pub open spec fn format_hex_spec(value: nat) -> Seq<char> {
    seq!['0', 'x'] + digits_spec(value, 16)
}

/// `s` right-aligned in a field of `width` characters.
pub open spec fn pad_left(s: Seq<char>, width: nat) -> Seq<char> {
    if s.len() >= width {
        s
    } else {
        Seq::new((width - s.len()) as nat, |i: int| ' ') + s
    }
}

/// `format!("{count:6}")`.
pub open spec fn count_text_spec(count: nat) -> Seq<char> {
    pad_left(digits_spec(count, 10), 6)
}

fn digit_of(c: char, radix: u32) -> (r: Option<u32>)
    requires
        2 <= radix <= 36,
    ensures
        r matches Some(d) ==> digit_value(c, radix as nat) == Some(d as nat),
        r is None ==> digit_value(c, radix as nat) is None,
{
    let u = c as u32;
    let d: u32 = if 0x30 <= u && u <= 0x39 {
        u - 0x30
    } else if 0x61 <= u && u <= 0x7a {
        u - 0x61 + 10
    } else if 0x41 <= u && u <= 0x5a {
        u - 0x41 + 10
    } else {
        36
    };
    if d < radix {
        Some(d)
    } else {
        None
    }
}

/// `u64::from_str_radix` over characters.
pub fn from_str_radix(s: &Vec<char>, radix: u32) -> (r: Result<u64, IntErrorKind>)
    requires
        2 <= radix <= 36,
    ensures
        r == from_str_radix_spec(s@, radix as nat),
{
    let n = s.len();
    if n == 0 {
        return Err(IntErrorKind::Empty);
    }
    if n == 1 && (s[0] == '+' || s[0] == '-') {
        return Err(IntErrorKind::InvalidDigit);
    }
    let start: usize = if s[0] == '+' {
        1
    } else {
        0
    };
    let ghost ds = s@.skip(start as int);
    assert(start == 1 ==> ds == s@.drop_first());
    assert(start == 0 ==> ds == s@);
    assert(from_str_radix_spec(s@, radix as nat) == digits_value(ds, radix as nat));
    let mut acc: u64 = 0;
    let mut k: usize = start;
    assert(ds.take(0).len() == 0);
    while k < n
        invariant
            n == s.len(),
            2 <= radix <= 36,
            start <= k <= n,
            ds == s@.skip(start as int),
            from_str_radix_spec(s@, radix as nat) == digits_value(ds, radix as nat),
            digits_value(ds.take(k - start), radix as nat) == Ok::<u64, IntErrorKind>(acc),
        decreases n - k,
    {
        let ghost pre = ds.take(k - start);
        let ghost cur = ds.take(k - start + 1);
        assert(cur.drop_last() == pre);
        assert(cur.last() == s@[k as int]);
        let d = match digit_of(s[k], radix) {
            Some(d) => d,
            None => {
                assert(digits_value(cur, radix as nat) == Err::<u64, IntErrorKind>(
                    IntErrorKind::InvalidDigit,
                ));
                proof {
                    lemma_digits_err_persists(ds, radix as nat, k - start + 1);
                }
                assert(digits_value(ds, radix as nat) == Err::<u64, IntErrorKind>(
                    IntErrorKind::InvalidDigit,
                ));
                assert(from_str_radix_spec(s@, radix as nat) == digits_value(ds, radix as nat));
                return Err(IntErrorKind::InvalidDigit);
            },
        };
        let next = match acc.checked_mul(radix as u64) {
            Some(m) => m.checked_add(d as u64),
            None => None,
        };
        match next {
            Some(v) => {
                acc = v;
            },
            None => {
                assert(acc * radix + d > u64::MAX) by (nonlinear_arith)
                    requires
                        next is None,
                        next == (if acc * radix <= u64::MAX {
                            if acc * radix + d <= u64::MAX {
                                Some((acc * radix + d) as u64)
                            } else {
                                None::<u64>
                            }
                        } else {
                            None::<u64>
                        }),
                ;
                assert(digits_value(cur, radix as nat) == Err::<u64, IntErrorKind>(
                    IntErrorKind::PosOverflow,
                ));
                proof {
                    lemma_digits_err_persists(ds, radix as nat, k - start + 1);
                }
                assert(from_str_radix_spec(s@, radix as nat) == digits_value(ds, radix as nat));
                return Err(IntErrorKind::PosOverflow);
            },
        }
        k = k + 1;
    }
    assert(ds.take(n - start) == ds);
    Ok(acc)
}

/// Once a prefix of the digits fails, every longer prefix fails the same way.
proof fn lemma_digits_err_persists(ds: Seq<char>, radix: nat, i: int)
    requires
        0 <= i <= ds.len(),
        digits_value(ds.take(i), radix) is Err,
    ensures
        digits_value(ds, radix) == digits_value(ds.take(i), radix),
    decreases ds.len() - i,
{
    if i < ds.len() {
        let next = ds.take(i + 1);
        assert(next.drop_last() == ds.take(i));
        lemma_digits_err_persists(ds, radix, i + 1);
    } else {
        assert(ds.take(i) == ds);
    }
}

fn has_hex_prefix_exec(t: &Vec<char>) -> (b: bool)
    ensures
        b == has_hex_prefix(t@),
{
    if t.len() < 2 {
        return false;
    }
    let b = t[0] == '0' && (t[1] == 'x' || t[1] == 'X');
    assert(t@.subrange(0, 2) == seq![t@[0], t@[1]]);
    b
}

/// Parses an address written in hexadecimal, with or without a `0x` / `0X`
/// prefix, ignoring surrounding white space.
pub fn parse_hex(value: &str) -> (r: Option<u64>)
    ensures
        r == parse_hex_spec(value@),
{
    let cs = chars_of(value);
    let t = trim(&cs);
    let body = if has_hex_prefix_exec(&t) {
        sub_chars(&t, 2, t.len())
    } else {
        t
    };
    match from_str_radix(&body, 16) {
        Ok(v) => Some(v),
        Err(_) => None,
    }
}

/// Parses an integer: hexadecimal after a `0x` / `0X` prefix, decimal
/// otherwise, ignoring surrounding white space.
pub fn parse_int_auto(value: &str) -> (r: Result<u64, IntErrorKind>)
    ensures
        r == parse_int_auto_spec(value@),
{
    let cs = chars_of(value);
    let t = trim(&cs);
    if has_hex_prefix_exec(&t) {
        let body = sub_chars(&t, 2, t.len());
        from_str_radix(&body, 16)
    } else {
        from_str_radix(&t, 10)
    }
}

fn digit_char_exec(d: u64) -> (c: char)
    requires
        d < 16,
    ensures
        c == digit_char(d as nat),
{
    if d < 10 {
        ((d as u8) + 0x30) as char
    } else {
        ((d as u8) - 10 + 0x61) as char
    }
}

/// Appends the digits of `v` in `base` to `out`.
pub fn push_digits(out: &mut Vec<char>, v: u64, base: u64)
    requires
        base == 10 || base == 16,
    ensures
        final(out)@ == old(out)@ + digits_spec(v as nat, base as nat),
    decreases v,
{
    if v >= base {
        push_digits(out, v / base, base);
    }
    out.push(digit_char_exec(v % base));
}

/// `format!("0x{value:x}")`.
pub fn format_hex(value: u64) -> (s: String)
    ensures
        s@ == format_hex_spec(value as nat),
{
    let mut out: Vec<char> = Vec::new();
    out.push('0');
    out.push('x');
    push_digits(&mut out, value, 16);
    string_of(&out)
}

/// `format!("{count:6}")`: the decimal count right-aligned in six columns.
pub fn count_text(count: u64) -> (s: String)
    ensures
        s@ == count_text_spec(count as nat),
{
    let mut digits: Vec<char> = Vec::new();
    push_digits(&mut digits, count, 10);
    assert(digits@ == digits_spec(count as nat, 10));
    let mut out: Vec<char> = Vec::new();
    let pad: usize = if digits.len() < 6 {
        6 - digits.len()
    } else {
        0
    };
    for i in 0..pad
        invariant
            out@ == Seq::new(i as nat, |j: int| ' '),
    {
        out.push(' ');
        assert(out@ == Seq::new((i + 1) as nat, |j: int| ' '));
    }
    append_chars(&mut out, &digits);
    string_of(&out)
}

} // verus!
