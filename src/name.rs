//! Record names as they are stored: bytes that may end with a NUL terminator.

use vstd::prelude::*;
use vstd::slice::slice_subrange;

verus! {

/// A record name, borrowed from a record's bytes.
#[derive(Eq, PartialEq)]
pub struct Name<'a>(&'a [u8]);

impl<'a> View for Name<'a> {
    type V = Seq<u8>;

    closed spec fn view(&self) -> Seq<u8> {
        self.0@
    }
}

/// A name's bytes without a trailing NUL terminator.
pub open spec fn without_nul(s: Seq<u8>) -> Seq<u8> {
    if s.len() > 0 && s.last() == 0u8 {
        s.drop_last()
    } else {
        s
    }
}

impl<'a> Name<'a> {
    /// Wraps the stored bytes of a name.
    pub fn new(src: &'a [u8]) -> (r: Name<'a>)
        ensures
            r@ == src@,
    {
        Name(src)
    }

    /// Returns the name as bytes, without the trailing `NUL` terminator.
    pub fn as_bytes(&self) -> (r: &[u8])
        ensures
            r@ == without_nul(self@),
    {
        let s = self.0;
        if s.len() > 0 && s[s.len() - 1] == 0 {
            slice_subrange(s, 0, s.len() - 1)
        } else {
            s
        }
    }
}

impl<'a> From<Name<'a>> for Vec<u8> {
    fn from(name: Name<'a>) -> (r: Vec<u8>)
        ensures
            r@ == without_nul(name@),
    {
        let s = name.as_bytes();
        let mut out: Vec<u8> = Vec::new();
        let mut i: usize = 0;
        while i < s.len()
            invariant
                i <= s@.len(),
                out@ == s@.subrange(0, i as int),
            decreases s@.len() - i,
        {
            out.push(s[i]);
            i = i + 1;
            assert(out@ =~= s@.subrange(0, i as int));
        }
        assert(s@.subrange(0, s@.len() as int) =~= s@);
        out
    }
}

impl<'a> vstd::std_specs::convert::FromSpecImpl<Name<'a>> for Vec<u8> {
    open spec fn obeys_from_spec() -> bool {
        false
    }

    open spec fn from_spec(name: Name<'a>) -> Vec<u8> {
        arbitrary()
    }
}

} // verus!
