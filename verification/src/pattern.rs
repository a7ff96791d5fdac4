//! The byte sequence to look for.

use vstd::prelude::*;

verus! {

/// A non-empty sequence of bytes to find, fixed once it is built.
pub struct Pattern {
    bytes: Vec<u8>,
}

impl View for Pattern {
    type V = Seq<u8>;

    closed spec fn view(&self) -> Seq<u8> {
        self.bytes@
    }
}

impl Pattern {
    #[verifier::type_invariant]
    spec fn well_formed(self) -> bool {
        self.bytes@.len() > 0
    }

    /// Makes a pattern of `bytes`; there is no pattern of no bytes.
    pub fn new(bytes: Vec<u8>) -> (made: Option<Pattern>)
        ensures
            match made {
                Some(p) => bytes@.len() > 0 && p@ == bytes@,
                None => bytes@.len() == 0,
            },
    {
        if bytes.len() == 0 {
            None
        } else {
            Some(Pattern { bytes })
        }
    }

    /// The bytes of the pattern, of which there is at least one.
    pub fn as_bytes(&self) -> (bytes: &[u8])
        ensures
            bytes@ == self@,
            bytes@.len() > 0,
    {
        proof {
            use_type_invariant(self);
        }
        self.bytes.as_slice()
    }

    /// The number of bytes in the pattern, which is at least one.
    pub fn len(&self) -> (n: usize)
        ensures
            n == self@.len(),
            n > 0,
    {
        proof {
            use_type_invariant(self);
        }
        self.bytes.len()
    }
}

} // verus!
