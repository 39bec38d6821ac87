//! UTF-8 encoded text: a validating reader over bytes, and a builder that
//! writes text into an owned byte buffer.
use vstd::prelude::*;
use crate::error::Error;
use vstd::string::StringSliceAdditionalSpecFns;

verus! {

/// Marker type for the owned-text kind: ties the reader and builder forms
/// of a text value together.
#[derive(Copy, Clone)]
pub struct Owned(());

/// Whether a byte sequence is valid UTF-8; what `std::str::from_utf8`
/// accepts, a function of the bytes alone.
pub uninterp spec fn is_utf8(bytes: Seq<u8>) -> bool;

/// Relies on `std::str::from_utf8`: succeeds exactly on valid UTF-8, and
/// the text it returns borrows those very bytes.
#[verifier::external_body]
fn utf8_reader<'a>(v: &'a [u8]) -> (r: Option<&'a str>)
    ensures
        match r {
            Some(t) => is_utf8(v@) && t.spec_bytes() == v@,
            None => !is_utf8(v@),
        },
{
    std::str::from_utf8(v).ok()
}

/// Relies on `std::str::from_utf8`: accepts exactly the valid UTF-8 byte
/// sequences.
#[verifier::external_body]
fn utf8_check(bytes: &Vec<u8>) -> (r: bool)
    ensures
        r == is_utf8(bytes@),
{
    std::str::from_utf8(bytes).is_ok()
}

/// Borrows `v` as text, rejecting bytes that are not valid UTF-8.
pub fn new_reader<'a>(v: &'a [u8]) -> (r: Result<&'a str, Error>)
    ensures
        match r {
            Ok(t) => is_utf8(v@) && t.spec_bytes() == v@,
            Err(e) => !is_utf8(v@) && e matches Error::NonUtf8Text,
        },
{
    match utf8_reader(v) {
        Some(t) => Ok(t),
        None => Err(Error::NonUtf8Text),
    }
}

/// Writes text into an owned byte buffer, tracking the write position.
pub struct Builder {
    pub bytes: Vec<u8>,
    pub pos: usize,
}

impl Builder {
    /// Wraps a byte buffer for text building at write position `pos`.  A
    /// buffer resumed at a nonzero position must already hold valid UTF-8.
    pub fn new(bytes: Vec<u8>, pos: u32) -> (r: Result<Builder, Error>)
        ensures
            match r {
                Ok(b) => b.bytes@ == bytes@ && b.pos == pos && (pos != 0 ==> is_utf8(bytes@)),
                Err(e) => pos != 0 && !is_utf8(bytes@) && e matches Error::NonUtf8Text,
            },
    {
        if pos != 0 {
            if !utf8_check(&bytes) {
                return Err(Error::NonUtf8Text);
            }
        }
        Ok(Builder { bytes, pos: pos as usize })
    }

    /// Appends one ASCII byte at the write position.
    pub fn push_ascii(&mut self, ascii: u8)
        requires
            ascii < 128,
            old(self).pos < old(self).bytes@.len(),
        ensures
            final(self).bytes@ == old(self).bytes@.update(old(self).pos as int, ascii),
            final(self).pos == old(self).pos + 1,
    {
        let p = self.pos;
        let _cap = self.bytes.len();
        self.bytes[p] = ascii;
        self.pos = p + 1;
    }

    /// Appends a string's bytes at the write position.
    pub fn push_str(&mut self, string: &str)
        requires
            old(self).pos + string.spec_bytes().len() <= old(self).bytes@.len(),
        ensures
            final(self).pos == old(self).pos + string.spec_bytes().len(),
            final(self).bytes@.len() == old(self).bytes@.len(),
            forall|i: int| 0 <= i < old(self).pos ==> final(self).bytes@[i] == old(self).bytes@[i],
            final(self).bytes@.subrange(
                old(self).pos as int,
                old(self).pos + string.spec_bytes().len(),
            ) == string.spec_bytes(),
            forall|i: int|
                old(self).pos + string.spec_bytes().len() <= i < old(self).bytes@.len()
                    ==> final(self).bytes@[i] == old(self).bytes@[i],
    {
        let bytes = string.as_bytes();
        let n = bytes.len();
        let p = self.pos;
        let cap = self.bytes.len();
        let mut ii: usize = 0;
        while ii < n
            invariant
                ii <= n,
                n == string.spec_bytes().len(),
                bytes@ == string.spec_bytes(),
                p + n <= cap,
                cap == self.bytes@.len(),
                self.bytes@.len() <= usize::MAX,
                self.pos == p,
                p == old(self).pos,
                self.bytes@.len() == old(self).bytes@.len(),
                forall|i: int| 0 <= i < p ==> self.bytes@[i] == old(self).bytes@[i],
                self.bytes@.subrange(p as int, p + ii) == string.spec_bytes().take(ii as int),
                forall|i: int|
                    p + ii <= i < self.bytes@.len() ==> self.bytes@[i] == old(self).bytes@[i],
            decreases n - ii,
        {
            let b = bytes[ii];
            self.bytes[p + ii] = b;
            ii += 1;
            proof {
                assert(self.bytes@.subrange(p as int, p + ii) =~= string.spec_bytes().take(
                    ii as int,
                ));
            }
        }
        proof {
            assert(string.spec_bytes().take(n as int) =~= string.spec_bytes());
        }
        self.pos = p + n;
    }

    /// Clears the text: zeroes everything written so far and resets the
    /// write position to the start.
    pub fn clear(&mut self)
        requires
            old(self).pos <= old(self).bytes@.len(),
        ensures
            final(self).pos == 0,
            final(self).bytes@.len() == old(self).bytes@.len(),
            forall|i: int| 0 <= i < old(self).pos ==> final(self).bytes@[i] == 0,
            forall|i: int|
                old(self).pos <= i < old(self).bytes@.len() ==> final(self).bytes@[i] == old(
                    self,
                ).bytes@[i],
    {
        let p = self.pos;
        let cap = self.bytes.len();
        let mut ii: usize = 0;
        while ii < p
            invariant
                ii <= p,
                p <= cap,
                cap == self.bytes@.len(),
                self.pos == p,
                p == old(self).pos,
                self.bytes@.len() == old(self).bytes@.len(),
                forall|i: int| 0 <= i < ii ==> self.bytes@[i] == 0,
                forall|i: int| ii <= i < self.bytes@.len() ==> self.bytes@[i] == old(self).bytes@[i],
            decreases p - ii,
        {
            self.bytes[ii] = 0;
            ii += 1;
        }
        self.pos = 0;
    }
}

} // verus!
