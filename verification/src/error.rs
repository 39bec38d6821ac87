//! Decode errors and decode options.
use vstd::prelude::*;

verus! {

/// The largest segment count a message may declare; a table whose count is
/// `MAX_SEGMENT_COUNT` or more is rejected.
pub const MAX_SEGMENT_COUNT: u32 = 512;

/// Words a default reader is willing to traverse: 8 MiW.
pub const DEFAULT_TRAVERSAL_LIMIT: u64 = 8388608;

/// `std::io::Error` carried through unchanged when the underlying byte
/// source fails; opaque to this crate, nothing is assumed of its contents.
#[verifier::external_type_specification]
#[verifier::external_body]
pub struct ExIoError(std::io::Error);

/// An error that aborts an in-progress decode.  None of these is recoverable:
/// the continuation, if any, is discarded and the caller starts over.
#[derive(Debug)]
pub enum Error {
    /// The segment table declares `MAX_SEGMENT_COUNT` segments or more.
    TooManySegments { count: u32 },
    /// The segment table declares zero segments (only reachable when the
    /// count field wraps around from `0xFFFFFFFF`).
    TooFewSegments,
    /// The declared total message size exceeds the configured traversal
    /// limit; raised before any allocation proportional to the total.
    MessageTooLarge { total_words: u64 },
    /// The source reported end of stream before the expected byte count.
    PrematureEof,
    /// Any other error from the underlying byte source, passed on unchanged.
    Stream(std::io::Error),
    /// A text field did not validate as UTF-8.
    NonUtf8Text,
}

/// Options a caller supplies to a decode.
#[derive(Clone, Copy, PartialEq, Eq, Structural)]
pub struct ReaderOptions {
    /// Upper bound, in words, on the total size of an accepted message.
    pub traversal_limit_in_words: u64,
}

impl ReaderOptions {
    pub fn new() -> (r: ReaderOptions)
        ensures
            r.traversal_limit_in_words == DEFAULT_TRAVERSAL_LIMIT,
    {
        ReaderOptions { traversal_limit_in_words: DEFAULT_TRAVERSAL_LIMIT }
    }
}

} // verus!
