//! Turning what the user typed into the bytes to look for.
//!
//! Two forms are read.  `1f 8b 08` is a list of bytes, each written as one or two
//! hexadecimal digits and set apart by whitespace.  `0x088b1f` is one hexadecimal word; its
//! bytes are taken from left to right, or from right to left when the word is said to be
//! little-endian, and a word with an odd number of digits is read as if it began with a
//! further `0`.  White space around either form is ignored.

use vstd::prelude::*;
use crate::hex::{byte_from_digits, byte_of_digits, hex_digit_value, hex_value};
use crate::pattern::Pattern;

verus! {

/// The order in which the bytes of a hexadecimal word are looked for.
#[derive(Clone, Copy, Debug, PartialEq, Eq, Structural)]
pub enum Endian {
    /// As written, most significant byte first.
    Big,
    /// Reversed, least significant byte first.
    Little,
}

/// Why a text is not a pattern.
#[derive(Clone, Copy, Debug, PartialEq, Eq, Structural)]
pub enum PatternError {
    /// The text names no byte at all.
    Empty,
    /// The characters `[from, to)` of the text are a token that is not a byte in
    /// hexadecimal: the first such token of a byte list, or a hexadecimal word with a
    /// character that is no digit, or what follows a word.
    NotHex { from: usize, to: usize },
}

/// Whether `c` is white space, as Unicode defines it.
pub open spec fn is_space(c: char) -> bool {
    let u = c as int;
    ||| 0x09 <= u <= 0x0d
    ||| u == 0x20
    ||| u == 0x85
    ||| u == 0xa0
    ||| u == 0x1680
    ||| 0x2000 <= u <= 0x200a
    ||| u == 0x2028
    ||| u == 0x2029
    ||| u == 0x202f
    ||| u == 0x205f
    ||| u == 0x3000
}

/// The index of the first character at or after `i` that is not white space, or the
/// length of `s` when there is none.
pub open spec fn skip_spaces(s: Seq<char>, i: int) -> int
    decreases s.len() - i,
{
    if 0 <= i < s.len() && is_space(s[i]) {
        skip_spaces(s, i + 1)
    } else {
        i
    }
}

/// The index of the first character at or after `i` that is white space, or the length of
/// `s` when there is none.
pub open spec fn word_end(s: Seq<char>, i: int) -> int
    decreases s.len() - i,
{
    if 0 <= i < s.len() && !is_space(s[i]) {
        word_end(s, i + 1)
    } else {
        i
    }
}

/// Skipping goes forward, stays within the text, and a word has at least one character.
pub proof fn lemma_skips_advance(s: Seq<char>, i: int)
    ensures
        skip_spaces(s, i) >= i,
        word_end(s, i) >= i,
        i <= s.len() ==> skip_spaces(s, i) <= s.len() && word_end(s, i) <= s.len(),
        0 <= i < s.len() && !is_space(s[i]) ==> word_end(s, i) > i,
        0 <= i && skip_spaces(s, i) < s.len() ==> !is_space(s[skip_spaces(s, i)]),
        0 <= i && word_end(s, i) < s.len() ==> is_space(s[word_end(s, i)]),
    decreases s.len() - i,
{
    if 0 <= i < s.len() {
        lemma_skips_advance(s, i + 1);
    }
}

/// Every character of `t` is a hexadecimal digit.
pub open spec fn all_hex(t: Seq<char>) -> bool {
    forall|i: int| 0 <= i < t.len() ==> (#[trigger] hex_value(t[i])) is Some
}

/// The byte that a token of a byte list stands for: one or two hexadecimal digits.
pub open spec fn token_value(t: Seq<char>) -> Option<u8> {
    if t.len() == 1 && all_hex(t) {
        Some(byte_of_digits('0', t[0]))
    } else if t.len() == 2 && all_hex(t) {
        Some(byte_of_digits(t[0], t[1]))
    } else {
        None
    }
}

/// The bytes that the tokens of `s` from index `i` on stand for, in order; or where the
/// first token that is not a byte starts and ends.
pub open spec fn token_bytes(s: Seq<char>, i: int) -> Result<Seq<u8>, (int, int)>
    decreases s.len() - i,
{
    let a = skip_spaces(s, i);
    if i < 0 || a >= s.len() {
        Ok(Seq::empty())
    } else {
        let b = word_end(s, a);
        proof {
            lemma_skips_advance(s, i);
            lemma_skips_advance(s, a);
        }
        match token_value(s.subrange(a, b)) {
            None => Err((a, b)),
            Some(v) => match token_bytes(s, b) {
                Ok(rest) => Ok(seq![v] + rest),
                Err(at) => Err(at),
            },
        }
    }
}

/// The bytes of a hexadecimal word, most significant first.  A word with an odd number of
/// digits is read with a `0` before it.
pub open spec fn word_bytes(digits: Seq<char>) -> Seq<u8> {
    let padded = if digits.len() % 2 == 1 {
        seq!['0'] + digits
    } else {
        digits
    };
    Seq::new(padded.len() / 2, |i: int| byte_of_digits(padded[2 * i], padded[2 * i + 1]))
}

/// The bytes in the order in which they are looked for.
pub open spec fn in_order(bytes: Seq<u8>, endian: Endian) -> Seq<u8> {
    match endian {
        Endian::Big => bytes,
        Endian::Little => bytes.reverse(),
    }
}

/// The bytes that a hexadecimal word, written without its `0x`, stands for.
pub open spec fn word_value(digits: Seq<char>, endian: Endian) -> Seq<u8> {
    in_order(word_bytes(digits), endian)
}

/// Whether the text has `0x` at index `i`, in either case.
pub open spec fn has_word_prefix(s: Seq<char>, i: int) -> bool {
    0 <= i && i + 2 <= s.len() && s[i] == '0' && (s[i + 1] == 'x' || s[i + 1] == 'X')
}

/// What the text `s` stands for.
pub open spec fn pattern_of(s: Seq<char>, endian: Endian) -> Result<Seq<u8>, PatternError> {
    let start = skip_spaces(s, 0);
    if has_word_prefix(s, start) {
        let end = word_end(s, start);
        let next = skip_spaces(s, end);
        let digits = s.subrange(start + 2, end);
        if next < s.len() {
            Err(PatternError::NotHex { from: next as usize, to: word_end(s, next) as usize })
        } else if digits.len() == 0 {
            Err(PatternError::Empty)
        } else if !all_hex(digits) {
            Err(PatternError::NotHex { from: start as usize, to: end as usize })
        } else {
            Ok(word_value(digits, endian))
        }
    } else {
        match token_bytes(s, start) {
            Err(at) => Err(PatternError::NotHex { from: at.0 as usize, to: at.1 as usize }),
            Ok(bytes) => if bytes.len() == 0 {
                Err(PatternError::Empty)
            } else {
                Ok(bytes)
            },
        }
    }
}

/// A word said to be little-endian stands for the bytes of the same word said to be
/// big-endian, in reverse.
pub proof fn lemma_little_is_big_reversed(digits: Seq<char>)
    ensures
        word_value(digits, Endian::Little) == word_value(digits, Endian::Big).reverse(),
{
}

/// Tells whether `c` is white space.
pub fn is_whitespace(c: char) -> (b: bool)
    ensures
        b == is_space(c),
{
    let u: u32 = c as u32;
    (0x09 <= u && u <= 0x0d) || u == 0x20 || u == 0x85 || u == 0xa0 || u == 0x1680 || (0x2000 <= u
        && u <= 0x200a) || u == 0x2028 || u == 0x2029 || u == 0x202f || u == 0x205f || u == 0x3000
}

/// Returns the index of the first character at or after `i` that is not white space.
fn after_spaces(s: &[char], i: usize) -> (j: usize)
    requires
        i <= s@.len(),
    ensures
        j == skip_spaces(s@, i as int),
        i <= j <= s@.len(),
{
    let mut j: usize = i;
    while j < s.len() && is_whitespace(s[j])
        invariant
            i <= j <= s@.len(),
            skip_spaces(s@, i as int) == skip_spaces(s@, j as int),
        decreases s@.len() - j,
    {
        j = j + 1;
    }
    j
}

/// Returns the index of the first character at or after `i` that is white space.
fn after_word(s: &[char], i: usize) -> (j: usize)
    requires
        i <= s@.len(),
    ensures
        j == word_end(s@, i as int),
        i <= j <= s@.len(),
{
    let mut j: usize = i;
    while j < s.len() && !is_whitespace(s[j])
        invariant
            i <= j <= s@.len(),
            word_end(s@, i as int) == word_end(s@, j as int),
        decreases s@.len() - j,
    {
        j = j + 1;
    }
    j
}

/// Reads the token `s[from .. to]` of a byte list.
fn read_token(s: &[char], from: usize, to: usize) -> (v: Option<u8>)
    requires
        from <= to <= s@.len(),
    ensures
        v == token_value(s@.subrange(from as int, to as int)),
{
    let ghost t = s@.subrange(from as int, to as int);
    if to - from == 1 {
        proof {
            assert(t[0] == s@[from as int]);
            assert(hex_value('0') == Some(0int));
        }
        byte_from_digits('0', s[from])
    } else if to - from == 2 {
        proof {
            assert(t[0] == s@[from as int]);
            assert(t[1] == s@[from + 1]);
        }
        byte_from_digits(s[from], s[from + 1])
    } else {
        None
    }
}

/// Reads the byte list that starts at index `start` of `s`, or finds its first token
/// that is not a byte.
fn read_tokens(s: &[char], start: usize) -> (bytes: Result<Vec<u8>, (usize, usize)>)
    requires
        start <= s@.len(),
    ensures
        match bytes {
            Ok(v) => token_bytes(s@, start as int) == Ok::<Seq<u8>, (int, int)>(v@),
            Err(at) => token_bytes(s@, start as int) == Err::<Seq<u8>, (int, int)>(
                (at.0 as int, at.1 as int),
            ),
        },
{
    let ghost whole = token_bytes(s@, start as int);
    let mut out: Vec<u8> = Vec::new();
    let mut i: usize = start;
    loop
        invariant
            start <= i <= s@.len(),
            whole == token_bytes(s@, start as int),
            whole == match token_bytes(s@, i as int) {
                Ok(rest) => Ok(out@ + rest),
                Err(at) => Err(at),
            },
        decreases s@.len() - i,
    {
        let a: usize = after_spaces(s, i);
        if a >= s.len() {
            proof {
                assert(out@ + Seq::<u8>::empty() =~= out@);
            }
            return Ok(out);
        }
        let b: usize = after_word(s, a);
        proof {
            lemma_skips_advance(s@, i as int);
            lemma_skips_advance(s@, a as int);
        }
        match read_token(s, a, b) {
            None => {
                return Err((a, b));
            },
            Some(v) => {
                let ghost before = out@;
                out.push(v);
                proof {
                    match token_bytes(s@, b as int) {
                        Ok(rest) => {
                            assert(before + (seq![v] + rest) =~= out@ + rest);
                        },
                        Err(_) => {},
                    }
                }
                i = b;
            },
        }
    }
}

/// The digit at index `j` of a word that is read with a leading `0` when `odd`.
fn padded_digit(s: &[char], from: usize, to: usize, odd: bool, j: usize) -> (c: char)
    requires
        from <= to <= s@.len(),
        j < (to - from) + if odd { 1int } else { 0int },
    ensures
        c == (if odd {
            seq!['0'] + s@.subrange(from as int, to as int)
        } else {
            s@.subrange(from as int, to as int)
        })[j as int],
{
    if odd {
        if j == 0 {
            '0'
        } else {
            s[from + (j - 1)]
        }
    } else {
        s[from + j]
    }
}

/// Reads the hexadecimal word `s[from .. to]`, which has at least one character; `None`
/// when one of them is no digit.
fn read_word(s: &[char], from: usize, to: usize, endian: Endian) -> (bytes: Option<Vec<u8>>)
    requires
        from < to <= s@.len(),
    ensures
        match bytes {
            Some(v) => all_hex(s@.subrange(from as int, to as int)) && v@ == word_value(
                s@.subrange(from as int, to as int),
                endian,
            ) && v@.len() > 0,
            None => !all_hex(s@.subrange(from as int, to as int)),
        },
{
    let ghost digits = s@.subrange(from as int, to as int);
    let mut i: usize = from;
    while i < to
        invariant
            from <= i <= to <= s@.len(),
            digits == s@.subrange(from as int, to as int),
            forall|j: int| 0 <= j < i - from ==> (#[trigger] hex_value(digits[j])) is Some,
        decreases to - i,
    {
        assert(digits[i - from] == s@[i as int]);
        if hex_digit_value(s[i]).is_none() {
            return None;
        }
        i = i + 1;
    }
    assert(all_hex(digits));
    let odd: bool = (to - from) % 2 == 1;
    let count: usize = (to - from) / 2 + if odd {
        1
    } else {
        0
    };
    let ghost padded = if odd {
        seq!['0'] + digits
    } else {
        digits
    };
    proof {
        assert(hex_value('0') == Some(0int));
        assert(padded.len() == 2 * count);
        assert(forall|j: int| 0 <= j < padded.len() ==> (#[trigger] hex_value(padded[j])) is Some) by {
            assert forall|j: int| 0 <= j < padded.len() implies (#[trigger] hex_value(
                padded[j],
            )) is Some by {
                if odd && j > 0 {
                    assert(padded[j] == digits[j - 1]);
                }
            }
        }
    }
    let mut out: Vec<u8> = Vec::new();
    let mut n: usize = 0;
    while n < count
        invariant
            n <= count,
            from < to <= s@.len(),
            digits == s@.subrange(from as int, to as int),
            padded == if odd {
                seq!['0'] + digits
            } else {
                digits
            },
            padded.len() == 2 * count,
            forall|j: int| 0 <= j < padded.len() ==> (#[trigger] hex_value(padded[j])) is Some,
            out@ == word_bytes(digits).take(n as int),
            word_bytes(digits).len() == count,
        decreases count - n,
    {
        let high: char = padded_digit(s, from, to, odd, 2 * n);
        let low: char = padded_digit(s, from, to, odd, 2 * n + 1);
        assert(hex_value(padded[2 * n]) is Some);
        assert(hex_value(padded[2 * n + 1]) is Some);
        out.push(byte_from_digits(high, low).unwrap());
        proof {
            let all = word_bytes(digits);
            assert(all.take(n + 1) =~= all.take(n as int).push(all[n as int]));
        }
        n = n + 1;
    }
    proof {
        assert(word_bytes(digits).take(count as int) =~= word_bytes(digits));
    }
    match endian {
        Endian::Big => Some(out),
        Endian::Little => {
            let mut turned: Vec<u8> = Vec::new();
            let mut m: usize = out.len();
            while m > 0
                invariant
                    m <= out@.len(),
                    turned@ == out@.reverse().take(out@.len() - m),
                decreases m,
            {
                m = m - 1;
                turned.push(out[m]);
                proof {
                    let r = out@.reverse();
                    assert(r.take(out@.len() - m) =~= r.take(out@.len() - m - 1).push(
                        out@[m as int],
                    ));
                }
            }
            proof {
                assert(out@.reverse().take(out@.len() as int) =~= out@.reverse());
            }
            Some(turned)
        },
    }
}

/// Copies the characters of `text`.
fn chars_of(text: &str) -> (chars: Vec<char>)
    ensures
        chars@ == text@,
{
    let mut chars: Vec<char> = Vec::new();
    for c in it: text.chars()
        invariant
            chars@ == it.seq().take(it.index() as int),
            it.seq() == text@,
    {
        chars.push(c);
    }
    chars
}

/// Reads the characters `s` as a pattern.
pub fn parse_chars(s: &[char], endian: Endian) -> (result: Result<Pattern, PatternError>)
    ensures
        match result {
            Ok(p) => pattern_of(s@, endian) == Ok::<Seq<u8>, PatternError>(p@),
            Err(e) => pattern_of(s@, endian) == Err::<Seq<u8>, PatternError>(e),
        },
{
    let start: usize = after_spaces(s, 0);
    let word: bool = s.len() - start >= 2 && s[start] == '0' && (s[start + 1] == 'x' || s[start
        + 1] == 'X');
    let bytes: Vec<u8> = if word {
        let end: usize = after_word(s, start);
        proof {
            lemma_skips_advance(s@, start as int);
            assert(!is_space('0') && !is_space('x') && !is_space('X'));
            assert(word_end(s@, start as int) == word_end(s@, start + 1));
            assert(word_end(s@, start + 1) == word_end(s@, start + 2));
            lemma_skips_advance(s@, start + 2);
        }
        let next: usize = after_spaces(s, end);
        if next < s.len() {
            return Err(PatternError::NotHex { from: next, to: after_word(s, next) });
        }
        if start + 2 == end {
            proof {
                assert(s@.subrange(start + 2, end as int).len() == 0);
            }
            return Err(PatternError::Empty);
        }
        match read_word(s, start + 2, end, endian) {
            None => {
                return Err(PatternError::NotHex { from: start, to: end });
            },
            Some(v) => v,
        }
    } else {
        match read_tokens(s, start) {
            Err(at) => {
                return Err(PatternError::NotHex { from: at.0, to: at.1 });
            },
            Ok(v) => v,
        }
    };
    match Pattern::new(bytes) {
        Some(p) => Ok(p),
        None => Err(PatternError::Empty),
    }
}

/// Reads `text` as a pattern: a list of bytes in hexadecimal, or one hexadecimal word
/// after `0x` whose bytes are taken in the order that `endian` names.
pub fn parse_pattern(text: &str, endian: Endian) -> (result: Result<Pattern, PatternError>)
    ensures
        match result {
            Ok(p) => pattern_of(text@, endian) == Ok::<Seq<u8>, PatternError>(p@),
            Err(e) => pattern_of(text@, endian) == Err::<Seq<u8>, PatternError>(e),
        },
{
    let chars = chars_of(text);
    parse_chars(chars.as_slice(), endian)
}

} // verus!
