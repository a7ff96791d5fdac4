//! Exact search for a byte string inside one buffer, done by a regular-expression engine
//! that is handed the bytes as escaped literals.

use vstd::prelude::*;
use vstd::slice::slice_to_vec;
use crate::hex::{byte_hex, byte_of_digits, hex_digit, lemma_hex_digit_value, push_byte_hex};
use crate::literal::successive;
use crate::pattern::Pattern;
use crate::text::push_char;

verus! {

/// Why a search gave no offsets.
#[derive(Clone, Copy, Debug, PartialEq, Eq, Structural)]
pub enum SearchError {
    /// The engine would not build a matcher for the pattern.
    InvalidPattern,
    /// The source was scanned to its end and does not hold the pattern.
    NotFound,
}

/// The character at index `i` of the escaped form of `lit`: each byte takes four
/// characters, a backslash, an `x` and its two hexadecimal digits.
pub open spec fn escaped_char(lit: Seq<u8>, i: int) -> char {
    let b = lit[i / 4];
    if i % 4 == 0 {
        '\\'
    } else if i % 4 == 1 {
        'x'
    } else if i % 4 == 2 {
        hex_digit(b as int / 16)
    } else {
        hex_digit(b as int % 16)
    }
}

/// The expression that matches exactly the bytes `lit`: `\x1f\x8b\x08` for the bytes
/// `1f 8b 08`.
pub open spec fn escaped(lit: Seq<u8>) -> Seq<char> {
    Seq::new(4 * lit.len(), |i: int| escaped_char(lit, i))
}

/// The bytes that an escaped expression spells out, one for each four characters.
pub open spec fn unescaped(text: Seq<char>) -> Seq<u8> {
    Seq::new(text.len() / 4, |i: int| byte_of_digits(text[4 * i + 2], text[4 * i + 3]))
}

/// `text` is the escaped form of at least one byte.
pub open spec fn is_escaped_literal(text: Seq<char>) -> bool {
    text.len() > 0 && escaped(unescaped(text)) == text
}

/// The sequence of the same numbers as mathematical integers.
pub open spec fn as_ints(s: Seq<usize>) -> Seq<int> {
    Seq::new(s.len(), |i: int| s[i] as int)
}

/// Escaping loses nothing: the bytes can be read back from the expression.
pub proof fn lemma_escape_round_trip(lit: Seq<u8>)
    ensures
        unescaped(escaped(lit)) == lit,
        lit.len() > 0 ==> is_escaped_literal(escaped(lit)),
{
    let text = escaped(lit);
    assert forall|i: int| 0 <= i < lit.len() implies #[trigger] unescaped(text)[i] == lit[i] by {
        lemma_hex_digit_value(lit[i] as int / 16);
        lemma_hex_digit_value(lit[i] as int % 16);
        assert((4 * i + 2) / 4 == i && (4 * i + 2) % 4 == 2);
        assert((4 * i + 3) / 4 == i && (4 * i + 3) % 4 == 3);
    }
    assert(unescaped(text) =~= lit);
}

/// Escaping byte by byte: one more byte adds its four characters at the end.
pub proof fn lemma_escaped_push(lit: Seq<u8>, b: u8)
    ensures
        escaped(lit.push(b)) == escaped(lit) + seq!['\\', 'x'] + byte_hex(b),
{
    let longer = lit.push(b);
    let joined = escaped(lit) + seq!['\\', 'x'] + byte_hex(b);
    assert forall|i: int| 0 <= i < joined.len() implies escaped(longer)[i] == joined[i] by {
        if i < 4 * lit.len() {
            assert(longer[i / 4] == lit[i / 4]);
        } else {
            assert(i / 4 == lit.len());
        }
    }
    assert(escaped(longer) =~= joined);
}

/// `regex::bytes::Regex`: an expression compiled for searching bytes.  Nothing inside it
/// is looked at here.
#[verifier::external_type_specification]
#[verifier::external_body]
pub struct ExRegex(regex::bytes::Regex);

/// `regex::Error`: why the engine refused an expression.  Nothing inside it is looked at
/// here.
#[verifier::external_type_specification]
#[verifier::external_body]
pub struct ExRegexError(regex::Error);

/// The expression text that a compiled expression was built from, as
/// `regex::bytes::Regex::as_str` gives it back, for one that was built with Unicode mode off.
pub uninterp spec fn built_from(re: regex::bytes::Regex) -> Seq<char>;

/// Whether the engine builds an expression from `text`: whether
/// `regex::bytes::RegexBuilder::new(text).unicode(false).build()` returns `Ok`.  The
/// builder is given the text and fixed options and nothing else, so the same text always
/// gets the same answer.  The engine refuses a text that is not an expression and one whose
/// compiled program is larger than a limit that is a constant of the engine; that size is
/// counted in bytes, so the name stands for the answer of the engine as it is built for
/// one target.
pub uninterp spec fn engine_accepts(text: Seq<char>) -> bool;

/// `regex::bytes::RegexBuilder::new(text).unicode(false).build()`: compiles `text` as an
/// expression over raw bytes.  It succeeds exactly on the texts that the engine accepts,
/// of which nothing more is claimed here; what it returns on success keeps `text` as its
/// source.
#[verifier::external_body]
fn build_engine(text: &str) -> (built: Result<regex::bytes::Regex, regex::Error>)
    ensures
        built is Ok <==> engine_accepts(text@),
        built matches Ok(re) ==> built_from(re) == text@,
{
    regex::bytes::RegexBuilder::new(text).unicode(false).build()
}

/// `regex::bytes::Regex::find_iter`, keeping the start of each match.  For an expression
/// made only of `\xNN` escapes, built with Unicode mode off, each escape matches the one
/// byte `NN`, so the matches are the occurrences of those bytes; the iterator yields the
/// leftmost one, then the leftmost one that starts at or after its end, until none is
/// left.
#[verifier::external_body]
fn find_starts(re: &regex::bytes::Regex, hay: &[u8]) -> (starts: Vec<usize>)
    requires
        is_escaped_literal(built_from(*re)),
    ensures
        as_ints(starts@) == successive(hay@, unescaped(built_from(*re)), 0),
{
    re.find_iter(hay).map(|m| m.start()).collect()
}

/// Writes the expression that matches exactly `bytes`.
pub fn escape(bytes: &[u8]) -> (text: String)
    ensures
        text@ == escaped(bytes@),
{
    let mut text = String::new();
    let mut i: usize = 0;
    while i < bytes.len()
        invariant
            i <= bytes.len(),
            text@ == escaped(bytes@.take(i as int)),
        decreases bytes.len() - i,
    {
        let ghost before = text@;
        push_char(&mut text, '\\');
        push_char(&mut text, 'x');
        push_byte_hex(&mut text, bytes[i]);
        proof {
            lemma_escaped_push(bytes@.take(i as int), bytes[i as int]);
            assert(bytes@.take(i + 1) =~= bytes@.take(i as int).push(bytes[i as int]));
            assert(text@ =~= before + seq!['\\', 'x'] + byte_hex(bytes[i as int]));
        }
        i = i + 1;
    }
    proof {
        assert(bytes@.take(bytes.len() as int) =~= bytes@);
    }
    text
}

/// A compiled search for one pattern, ready to be run on any number of buffers.
pub struct Matcher {
    engine: regex::bytes::Regex,
    literal: Vec<u8>,
}

impl View for Matcher {
    type V = Seq<u8>;

    /// The bytes that the matcher looks for.
    closed spec fn view(&self) -> Seq<u8> {
        self.literal@
    }
}

impl Matcher {
    #[verifier::type_invariant]
    spec fn well_formed(self) -> bool {
        &&& self.literal@.len() > 0
        &&& built_from(self.engine) == escaped(self.literal@)
    }

    /// Builds the matcher for `pattern`.  It is built exactly when the engine accepts the
    /// escaped form of the pattern; when it does not, the pattern is reported as invalid.
    pub fn new(pattern: &Pattern) -> (made: Result<Matcher, SearchError>)
        ensures
            made is Ok <==> engine_accepts(escaped(pattern@)),
            match made {
                Ok(m) => m@ == pattern@,
                Err(e) => e == SearchError::InvalidPattern,
            },
    {
        let literal = slice_to_vec(pattern.as_bytes());
        let text = escape(literal.as_slice());
        match build_engine(text.as_str()) {
            Ok(engine) => Ok(Matcher { engine, literal }),
            Err(_) => Err(SearchError::InvalidPattern),
        }
    }

    /// The number of bytes looked for, which is at least one.
    pub fn len(&self) -> (n: usize)
        ensures
            n == self@.len(),
            n > 0,
    {
        proof {
            use_type_invariant(self);
        }
        self.literal.len()
    }

    /// Finds the successive non-overlapping occurrences of the pattern in `hay`, leftmost
    /// first, and returns where each starts.
    pub fn find_in(&self, hay: &[u8]) -> (starts: Vec<usize>)
        ensures
            as_ints(starts@) == successive(hay@, self@, 0),
    {
        proof {
            use_type_invariant(self);
            lemma_escape_round_trip(self.literal@);
        }
        find_starts(&self.engine, hay)
    }
}

} // verus!
