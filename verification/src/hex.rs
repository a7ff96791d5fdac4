//! Hexadecimal digits: their characters, their values, and zero-padded numbers.

use vstd::prelude::*;
use crate::text::push_char;

verus! {

/// The lower-case hexadecimal digit that stands for `n`, for `0 <= n < 16`.
pub open spec fn hex_digit(n: int) -> char {
    if n < 10 {
        (48 + n) as char
    } else {
        (87 + n) as char
    }
}

/// The value of a hexadecimal digit of either case; `None` for any other character.
pub open spec fn hex_value(c: char) -> Option<int> {
    let code = c as int;
    if 48 <= code <= 57 {
        Some(code - 48)
    } else if 97 <= code <= 102 {
        Some(code - 87)
    } else if 65 <= code <= 70 {
        Some(code - 55)
    } else {
        None
    }
}

/// The byte that two hexadecimal digits stand for, high nibble first.
pub open spec fn byte_of_digits(high: char, low: char) -> u8 {
    match (hex_value(high), hex_value(low)) {
        (Some(h), Some(l)) => (16 * h + l) as u8,
        _ => 0,
    }
}

/// The two hexadecimal digits of a byte, high nibble first.
pub open spec fn byte_hex(b: u8) -> Seq<char> {
    seq![hex_digit(b as int / 16), hex_digit(b as int % 16)]
}

/// `n` in hexadecimal, most significant digit first, padded with zeros on the left to at
/// least `width` digits (and never fewer than one).
pub open spec fn hex_padded(n: nat, width: nat) -> Seq<char>
    decreases n, width,
{
    if n < 16 && width <= 1 {
        seq![hex_digit(n as int)]
    } else {
        let narrower = if width > 0 {
            (width - 1) as nat
        } else {
            0
        };
        hex_padded(n / 16, narrower).push(hex_digit((n % 16) as int))
    }
}

/// Every digit has the value it stands for.
pub proof fn lemma_hex_digit_value(n: int)
    requires
        0 <= n < 16,
    ensures
        hex_value(hex_digit(n)) == Some(n),
{
}

/// Returns the lower-case hexadecimal digit of `n`.
pub fn hex_char(n: u8) -> (c: char)
    requires
        n < 16,
    ensures
        c == hex_digit(n as int),
{
    if n < 10 {
        (48u8 + n) as char
    } else {
        (87u8 + n) as char
    }
}

/// Returns the value of the hexadecimal digit `c`, or `None` when `c` is not one.
pub fn hex_digit_value(c: char) -> (v: Option<u8>)
    ensures
        match v {
            Some(d) => hex_value(c) == Some(d as int) && d < 16,
            None => hex_value(c) is None,
        },
{
    let code: u32 = c as u32;
    if 48 <= code && code <= 57 {
        Some((code - 48) as u8)
    } else if 97 <= code && code <= 102 {
        Some((code - 87) as u8)
    } else if 65 <= code && code <= 70 {
        Some((code - 55) as u8)
    } else {
        None
    }
}

/// Returns the byte that the digits `high` and `low` stand for, or `None` when either is
/// not a hexadecimal digit.
pub fn byte_from_digits(high: char, low: char) -> (b: Option<u8>)
    ensures
        match b {
            Some(v) => hex_value(high) is Some && hex_value(low) is Some && v == byte_of_digits(
                high,
                low,
            ),
            None => hex_value(high) is None || hex_value(low) is None,
        },
{
    match hex_digit_value(high) {
        None => None,
        Some(h) => match hex_digit_value(low) {
            None => None,
            Some(l) => Some(16 * h + l),
        },
    }
}

/// Appends the two hexadecimal digits of `b` to `out`.
pub fn push_byte_hex(out: &mut String, b: u8)
    ensures
        final(out)@ == old(out)@ + byte_hex(b),
{
    push_char(out, hex_char(b / 16));
    push_char(out, hex_char(b % 16));
    proof {
        assert(out@ =~= old(out)@ + byte_hex(b));
    }
}

/// Appends `n` in hexadecimal to `out`, padded with zeros to at least `width` digits.
pub fn push_hex(out: &mut String, n: u64, width: usize)
    ensures
        final(out)@ == old(out)@ + hex_padded(n as nat, width as nat),
{
    let mut low: Vec<char> = Vec::new();
    let mut m: u64 = n;
    let mut rest: usize = width;
    while m >= 16 || rest > 1
        invariant
            hex_padded(n as nat, width as nat) == hex_padded(m as nat, rest as nat) + low@.reverse(),
        decreases m + rest,
    {
        let ghost before = low@;
        low.push(hex_char((m % 16) as u8));
        proof {
            let d = hex_digit((m % 16) as int);
            assert(low@.reverse() =~= seq![d] + before.reverse());
            let narrower: nat = if rest > 0 { (rest - 1) as nat } else { 0 };
            assert(hex_padded(m as nat, rest as nat) + before.reverse() =~= hex_padded(
                (m / 16) as nat,
                narrower,
            ) + (seq![d] + before.reverse()));
        }
        m = m / 16;
        if rest > 0 {
            rest = rest - 1;
        }
    }
    let ghost before = low@;
    low.push(hex_char(m as u8));
    proof {
        assert(low@.reverse() =~= seq![hex_digit(m as int)] + before.reverse());
        assert(low@.reverse() =~= hex_padded(n as nat, width as nat));
    }
    let mut i: usize = low.len();
    while i > 0
        invariant
            i <= low.len(),
            out@ == old(out)@ + low@.reverse().take(low.len() - i),
        decreases i,
    {
        i = i - 1;
        push_char(out, low[i]);
        proof {
            let r = low@.reverse();
            assert(r.take(low.len() - i) =~= r.take(low.len() - i - 1).push(low@[i as int]));
            assert(out@ =~= old(out)@ + r.take(low.len() - i));
        }
    }
    proof {
        assert(low@.reverse().take(low.len() as int) =~= low@.reverse());
    }
}

} // verus!
