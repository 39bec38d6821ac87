//! Message-framing layer of a binary serialization format: a resumable,
//! non-blocking decoder for a length-prefixed, segmented message envelope.
//!
//! The decoder consumes a byte source in three phases (first table word,
//! remaining table entries, segment bodies).  Whenever the source runs out of
//! bytes mid-phase, the decoder suspends by returning a continuation value
//! that captures exactly the partial progress; the caller resumes it once
//! more bytes may be available.
pub mod error;
pub mod value;
pub mod wire;
pub mod stream;
pub mod decode;
pub mod laws;
pub mod io;
pub mod text;
