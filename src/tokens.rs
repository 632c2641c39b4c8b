//! Tokenizing for file-backed storage: elements are separated by runs of ASCII
//! whitespace, and a scanner is fed the stored bytes one at a time.
use vstd::prelude::*;

verus! {

/// The bytes that separate tokens: space, tab, line feed, form feed, carriage return.
pub open spec fn delimiter(b: u8) -> bool {
    b == 0x20 || b == 0x09 || b == 0x0a || b == 0x0c || b == 0x0d
}

pub fn is_delimiter(b: u8) -> (r: bool)
    ensures
        r == delimiter(b),
{
    b == 0x20 || b == 0x09 || b == 0x0a || b == 0x0c || b == 0x0d
}

/// Collects the bytes of the token being read.
pub struct TokenScanner {
    pending: Vec<u8>,
}

impl TokenScanner {
    /// The bytes read since the last token ended; never a delimiter among them.
    pub closed spec fn pending(&self) -> Seq<u8> {
        self.pending@
    }

    pub fn new() -> (r: Self)
        ensures
            r.pending() == Seq::<u8>::empty(),
    {
        TokenScanner { pending: Vec::new() }
    }

    /// Takes the next byte. A delimiter ends the pending token, which is returned
    /// if it is not empty; any other byte extends it.
    pub fn feed(&mut self, byte: u8) -> (r: Option<Vec<u8>>)
        ensures
            delimiter(byte) ==> final(self).pending().len() == 0,
            delimiter(byte) && old(self).pending().len() > 0 ==> (r matches Some(t) && t@
                == old(self).pending()),
            delimiter(byte) && old(self).pending().len() == 0 ==> r is None,
            !delimiter(byte) ==> r is None && final(self).pending() == old(self).pending().push(
                byte,
            ),
    {
        if is_delimiter(byte) {
            if self.pending.len() == 0 {
                None
            } else {
                let mut token = Vec::new();
                std::mem::swap(&mut token, &mut self.pending);
                Some(token)
            }
        } else {
            self.pending.push(byte);
            None
        }
    }

    /// The input has ended: returns the pending token if there is one.
    pub fn finish(&mut self) -> (r: Option<Vec<u8>>)
        ensures
            final(self).pending().len() == 0,
            old(self).pending().len() > 0 ==> (r matches Some(t) && t@ == old(self).pending()),
            old(self).pending().len() == 0 ==> r is None,
    {
        if self.pending.len() == 0 {
            None
        } else {
            let mut token = Vec::new();
            std::mem::swap(&mut token, &mut self.pending);
            Some(token)
        }
    }
}

} // verus!
