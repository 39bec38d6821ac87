//! The non-blocking byte drain over a real stream.
use vstd::prelude::*;
use crate::error::Error;

verus! {

/// How one read call on the underlying stream ended.
pub enum ReadStep {
    /// This many bytes arrived; zero means the stream has ended.
    Bytes(usize),
    /// Nothing is available right now; trying again later may succeed.
    WouldBlock,
    /// Any other stream error, carried unchanged.
    Failed(std::io::Error),
}

/// Relies on `std::io::Read::read`: reads once into the tail of `buf` from
/// position `start`, retrying interrupted calls immediately, and reports how
/// the call ended.  What arrives is the stream's to choose: nothing is
/// assumed beyond the buffer's length staying fixed, the bytes before
/// `start` staying put, and the count fitting the room.
#[verifier::external_body]
fn read_retrying<R: std::io::Read>(read: &mut R, buf: &mut Vec<u8>, start: usize) -> (r: ReadStep)
    requires
        start <= old(buf)@.len(),
    ensures
        final(buf)@.len() == old(buf)@.len(),
        forall|i: int| 0 <= i < start ==> final(buf)@[i] == old(buf)@[i],
        r matches ReadStep::Bytes(n) ==> start + n <= final(buf)@.len(),
{
    loop {
        match read.read(&mut buf[start..]) {
            Ok(n) => {
                return ReadStep::Bytes(n);
            },
            Err(e) if e.kind() == std::io::ErrorKind::WouldBlock => {
                return ReadStep::WouldBlock;
            },
            Err(e) if e.kind() == std::io::ErrorKind::Interrupted => {},
            Err(e) => {
                return ReadStep::Failed(e);
            },
        }
    }
}

/// Reads from `read` into `buf` from position `start` until the buffer is
/// full or the read would block, returning the new fill position.  A read
/// that reports zero bytes while the buffer is not yet full is a premature
/// end of stream; any other stream error is passed on unchanged; an
/// interrupted read is retried invisibly.
pub fn async_read_all<R: std::io::Read>(read: &mut R, buf: &mut Vec<u8>, start: usize) -> (r:
    Result<usize, Error>)
    requires
        start <= old(buf)@.len(),
    ensures
        final(buf)@.len() == old(buf)@.len(),
        forall|i: int| 0 <= i < start ==> final(buf)@[i] == old(buf)@[i],
        match r {
            Ok(n) => start <= n <= final(buf)@.len(),
            Err(e) => e matches Error::PrematureEof || e matches Error::Stream(_),
        },
{
    let mut idx = start;
    let len = buf.len();
    while idx < len
        invariant
            start <= idx <= len,
            len == buf@.len(),
            len == old(buf)@.len(),
            forall|i: int| 0 <= i < start ==> buf@[i] == old(buf)@[i],
        decreases len - idx,
    {
        match read_retrying(read, buf, idx) {
            ReadStep::Bytes(n) => {
                if n == 0 {
                    return Err(Error::PrematureEof);
                }
                idx = idx + n;
            },
            ReadStep::WouldBlock => {
                return Ok(idx);
            },
            ReadStep::Failed(e) => {
                return Err(Error::Stream(e));
            },
        }
    }
    Ok(idx)
}

} // verus!
