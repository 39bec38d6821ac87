//! An in-memory non-blocking byte source.
//!
//! A `ByteStream` holds every byte its producer has delivered so far and a
//! cursor over how many of them the decoder has consumed.  Draining takes as
//! many bytes as are currently present — never blocking — so a drain that
//! stops short is exactly the decoder's suspend trigger, unless the producer
//! has closed the stream, which turns a short drain into a premature
//! end-of-stream error.
use vstd::prelude::*;
use crate::error::Error;

verus! {

pub struct ByteStream {
    data: Vec<u8>,
    pos: usize,
    closed: bool,
}

impl ByteStream {
    /// Every byte the producer has delivered so far, in order.
    pub closed spec fn delivered(&self) -> Seq<u8> {
        self.data@
    }

    /// How many delivered bytes the decoder has consumed.
    pub closed spec fn consumed(&self) -> nat {
        self.pos as nat
    }

    /// Whether the producer has signaled end of stream.
    pub closed spec fn is_closed(&self) -> bool {
        self.closed
    }

    /// The delivered bytes not yet consumed: what a drain can take now.
    pub open spec fn remaining(&self) -> Seq<u8> {
        self.delivered().skip(self.consumed() as int)
    }

    pub open spec fn wf(&self) -> bool {
        self.consumed() <= self.delivered().len()
    }

    /// An open stream with nothing delivered yet.
    pub fn new() -> (r: ByteStream)
        ensures
            r.wf(),
            r.delivered() == Seq::<u8>::empty(),
            r.consumed() == 0,
            !r.is_closed(),
    {
        ByteStream { data: Vec::new(), pos: 0, closed: false }
    }

    /// How many delivered bytes are present and not yet consumed.
    pub fn available_len(&self) -> (r: usize)
        requires
            self.wf(),
        ensures
            r == self.remaining().len(),
    {
        self.data.len() - self.pos
    }

    /// The producer delivers more bytes.
    pub fn feed(&mut self, bytes: &[u8])
        requires
            old(self).wf(),
            !old(self).is_closed(),
        ensures
            final(self).wf(),
            final(self).delivered() == old(self).delivered() + bytes@,
            final(self).consumed() == old(self).consumed(),
            !final(self).is_closed(),
    {
        let n = bytes.len();
        let mut i: usize = 0;
        while i < n
            invariant
                i <= n,
                n == bytes@.len(),
                self.wf(),
                self.pos == old(self).pos,
                !self.closed,
                self.data@ == old(self).data@ + bytes@.take(i as int),
            decreases n - i,
        {
            self.data.push(bytes[i]);
            i += 1;
            proof {
                assert(self.data@ =~= old(self).data@ + bytes@.take(i as int));
            }
        }
        proof {
            assert(bytes@.take(n as int) =~= bytes@);
        }
    }

    /// The producer signals end of stream: nothing more will be delivered.
    pub fn close(&mut self)
        requires
            old(self).wf(),
        ensures
            final(self).wf(),
            final(self).delivered() == old(self).delivered(),
            final(self).consumed() == old(self).consumed(),
            final(self).is_closed(),
    {
        self.closed = true;
    }

    /// Fills `buf` from position `start` with as many unconsumed bytes as are
    /// present, returning the new fill position.  Stopping short of the end
    /// of `buf` is the suspend trigger — unless the stream is closed, in
    /// which case running dry before `buf` is full is a premature end of
    /// stream.
    pub fn drain_into(&mut self, buf: &mut Vec<u8>, start: usize) -> (r: Result<usize, Error>)
        requires
            old(self).wf(),
            start <= old(buf)@.len(),
        ensures
            final(self).wf(),
            final(self).delivered() == old(self).delivered(),
            final(self).is_closed() == old(self).is_closed(),
            final(buf)@.len() == old(buf)@.len(),
            match r {
                Ok(n) => {
                    let k = n - start;
                    &&& start <= n <= final(buf)@.len()
                    &&& k == if old(self).remaining().len() <= old(buf)@.len() - start {
                        old(self).remaining().len() as int
                    } else {
                        old(buf)@.len() - start
                    }
                    &&& final(self).consumed() == old(self).consumed() + k
                    &&& final(buf)@ == old(buf)@.take(start as int) + old(self).remaining().take(k)
                        + old(buf)@.skip(n as int)
                    &&& (n < final(buf)@.len() ==> !old(self).is_closed())
                },
                Err(e) => {
                    &&& e matches Error::PrematureEof
                    &&& old(self).is_closed()
                    &&& old(self).remaining().len() < old(buf)@.len() - start
                    &&& final(self).consumed() == old(self).delivered().len()
                },
            },
    {
        let want = buf.len() - start;
        let have = self.data.len() - self.pos;
        let k = if have < want {
            have
        } else {
            want
        };
        let mut i: usize = 0;
        while i < k
            invariant
                i <= k,
                self.wf(),
                self == old(self),
                self.data@.len() <= usize::MAX,
                buf@.len() <= usize::MAX,
                start + k <= buf@.len(),
                self.pos + k <= self.data@.len(),
                k <= buf@.len() - start,
                buf@.len() == old(buf)@.len(),
                buf@ == old(buf)@.take(start as int) + self.remaining().take(i as int) + old(
                    buf,
                )@.skip((start + i) as int),
            decreases k - i,
        {
            let b = self.data[self.pos + i];
            buf[start + i] = b;
            i += 1;
            proof {
                assert(buf@ =~= old(buf)@.take(start as int) + self.remaining().take(i as int)
                    + old(buf)@.skip((start + i) as int));
            }
        }
        self.pos = self.pos + k;
        if k < want && self.closed {
            Err(Error::PrematureEof)
        } else {
            Ok(start + k)
        }
    }
}

} // verus!
