//! Appending characters to a `String`.

use vstd::prelude::*;

verus! {

/// `String::push`: appends the character `c` to the end of `s`, leaving what was there
/// before it unchanged.
#[verifier::external_body]
pub(crate) fn push_char(s: &mut String, c: char)
    ensures
        final(s)@ == old(s)@.push(c),
{
    s.push(c)
}

} // verus!
