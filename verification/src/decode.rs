//! The resumable three-phase decoder.
//!
//! Each phase drains the byte source, and either completes — handing its
//! result to the next phase — or suspends by returning a continuation that
//! captures exactly the bytes collected so far.  Every contract here is
//! stated against [`crate::wire::spec_decode`], the wire format as one
//! function on bytes, so a decode's outcome depends only on the bytes the
//! source delivers, never on how they were split across suspensions.
use vstd::prelude::*;
use crate::error::Error;
use crate::error::ReaderOptions;
use crate::error::MAX_SEGMENT_COUNT;
use crate::value::AsyncValue;
use crate::value::WriteContinuation;
use crate::stream::ByteStream;
use crate::wire::table_bytes;
use crate::wire::lens_from_rest;
use crate::wire::total_words;
use crate::wire::slices_of;
use crate::wire::first_word_parse;
use crate::wire::rest_parse;
use crate::wire::SpecDecode;
use crate::wire::spec_decode;
use crate::wire::words_at;
use crate::wire::read_le32;
use crate::wire::read_le64;

verus! {

/// The value of a non-blocking write: finished, or to be continued.
pub type AsyncWrite = AsyncValue<(), WriteContinuation>;

/// The value of a non-blocking message read: a finished reader, or the
/// state to resume from.
pub type AsyncRead = AsyncValue<MessageReader, ReadContinuation>;

/// State captured when a read suspends: one shape per suspend point.
pub enum ReadContinuation {
    /// Suspended while reading the first word of the segment table.
    /// `buf` is the 8-byte scratch buffer, `idx` how much of it is filled.
    SegmentTableFirst { buf: Vec<u8>, idx: usize },
    /// Suspended while reading the rest of the segment table; the first
    /// word's results are carried along.
    SegmentTableRest { segment_count: usize, first_segment_len: usize, buf: Vec<u8>, idx: usize },
    /// Suspended while reading the segment bodies into the message's one
    /// allocation; `idx` counts the bytes already in place.
    Segments { segment_slices: Vec<(usize, usize)>, owned_space: Vec<u8>, idx: usize },
}

impl ReadContinuation {
    /// How many more bytes the suspended phase still needs before it can
    /// complete or move on.
    pub fn bytes_needed(&self) -> (r: usize)
        requires
            match self {
                ReadContinuation::SegmentTableFirst { buf, idx } => idx <= buf@.len(),
                ReadContinuation::SegmentTableRest { buf, idx, .. } => idx <= buf@.len(),
                ReadContinuation::Segments { owned_space, idx, .. } => idx <= owned_space@.len(),
            },
        ensures
            r == match self {
                ReadContinuation::SegmentTableFirst { buf, idx } => buf@.len() - *idx,
                ReadContinuation::SegmentTableRest { buf, idx, .. } => buf@.len() - *idx,
                ReadContinuation::Segments { owned_space, idx, .. } => owned_space@.len() - *idx,
            },
    {
        match self {
            ReadContinuation::SegmentTableFirst { buf, idx } => buf.len() - *idx,
            ReadContinuation::SegmentTableRest { buf, idx, .. } => buf.len() - *idx,
            ReadContinuation::Segments { owned_space, idx, .. } => owned_space.len() - *idx,
        }
    }
}

/// A fully decoded message: the validated segment slices and the one
/// allocation holding every segment's words, owned for good.
pub struct MessageReader {
    pub options: ReaderOptions,
    pub segment_slices: Vec<(usize, usize)>,
    pub owned_space: Vec<u8>,
}

/// An executable slice list agrees with its mathematical model.
pub open spec fn slices_match(v: Seq<(usize, usize)>, s: Seq<(nat, nat)>) -> bool {
    &&& v.len() == s.len()
    &&& forall|i: int|
        0 <= i < v.len() ==> (#[trigger] v[i]).0 == s[i].0 && v[i].1 == s[i].1
}

impl MessageReader {
    /// Slices are ordered ranges that stay inside the owned buffer.
    pub open spec fn wf(&self) -> bool {
        forall|i: int|
            0 <= i < self.segment_slices@.len() ==> (#[trigger] self.segment_slices@[i]).0
                <= self.segment_slices@[i].1 && 8 * self.segment_slices@[i].1
                <= self.owned_space@.len()
    }

    /// How many segments the message has.
    pub fn segment_count(&self) -> (r: usize)
        ensures
            r == self.segment_slices@.len(),
    {
        self.segment_slices.len()
    }

    /// The words of segment `i`, copied out of the shared buffer.
    pub fn get_segment(&self, i: usize) -> (r: Vec<u64>)
        requires
            self.wf(),
            i < self.segment_slices@.len(),
        ensures
            r@ == words_at(
                self.owned_space@,
                self.segment_slices@[i as int].0 as nat,
                (self.segment_slices@[i as int].1 - self.segment_slices@[i as int].0) as nat,
            ),
    {
        let (start, end) = self.segment_slices[i];
        // taking the length as an exec value keeps the offsets below in range
        let _space_len = self.owned_space.len();
        let count = end - start;
        let mut words: Vec<u64> = Vec::new();
        let mut j: usize = 0;
        while j < count
            invariant
                j <= count,
                count == end - start,
                start <= end,
                8 * end <= self.owned_space@.len(),
                self.owned_space@.len() <= usize::MAX,
                words@ == words_at(self.owned_space@, start as nat, j as nat),
            decreases count - j,
        {
            let w = read_le64(&self.owned_space, 8 * (start + j));
            words.push(w);
            j += 1;
            proof {
                assert(words@ =~= words_at(self.owned_space@, start as nat, j as nat));
            }
        }
        words
    }
}

/// A new zeroed buffer of `len` bytes.
pub fn zeroed_bytes(len: usize) -> (r: Vec<u8>)
    ensures
        r@ == Seq::new(len as nat, |i: int| 0u8),
{
    let mut v: Vec<u8> = Vec::new();
    let mut i: usize = 0;
    while i < len
        invariant
            i <= len,
            v@ == Seq::new(i as nat, |j: int| 0u8),
        decreases len - i,
    {
        v.push(0);
        i += 1;
        proof {
            assert(v@ =~= Seq::new(i as nat, |j: int| 0u8));
        }
    }
    v
}

/// A new buffer for the remaining segment-table entries: the lengths past
/// the first, padded to a whole word — `(segment_count / 2) * 8` bytes.
pub fn create_segment_table_buf(segment_count: usize) -> (r: Vec<u8>)
    requires
        segment_count < 512,
    ensures
        r@ == Seq::new(((segment_count / 2) * 8) as nat, |i: int| 0u8),
{
    zeroed_bytes((segment_count / 2) * 8)
}

/// How many bytes drain from a source offering `fed` into `room` free bytes.
pub open spec fn drain_count(fed: Seq<u8>, room: nat) -> nat {
    if fed.len() <= room {
        fed.len()
    } else {
        room
    }
}

/// Reads or continues reading the first word of the segment table.  The
/// result is a function of the bytes gathered for this word — the prior
/// partial fill of `buf` followed by whatever the source has — validated as
/// `first_word_parse` says.
pub fn read_segment_table_first(read: &mut ByteStream, buf: Vec<u8>, idx: usize) -> (r: Result<
    AsyncValue<(usize, usize), ReadContinuation>,
    Error,
>)
    requires
        old(read).wf(),
        buf@.len() == 8,
        idx <= 8,
    ensures
        final(read).wf(),
        final(read).delivered() == old(read).delivered(),
        final(read).is_closed() == old(read).is_closed(),
        ({
            let pre = buf@.take(idx as int);
            let fed = old(read).remaining();
            let room = (8 - idx) as nat;
            let got = pre + fed.take(drain_count(fed, room) as int);
            &&& got.len() < 8 ==> {
                &&& final(read).consumed() == old(read).consumed() + fed.len()
                &&& if old(read).is_closed() {
                    r matches Err(e) && e matches Error::PrematureEof
                } else {
                    r matches Ok(v) && v matches AsyncValue::Continue(c)
                        && c matches ReadContinuation::SegmentTableFirst { buf: b, idx: j }
                        && b@.len() == 8 && j == got.len() && b@.take(j as int) == got
                }
            }
            &&& got.len() == 8 ==> {
                &&& final(read).consumed() == old(read).consumed() + room
                &&& match first_word_parse(got) {
                    Err(e) => r matches Err(e2) && e2 == e,
                    Ok((count, first)) => r matches Ok(v) && v matches AsyncValue::Complete(t)
                        && t.0 == count && t.1 == first,
                }
            }
        }),
{
    let mut buf = buf;
    let ghost pre = buf@.take(idx as int);
    let ghost fed = old(read).remaining();
    let n = match read.drain_into(&mut buf, idx) {
        Ok(n) => n,
        Err(e) => {
            proof {
                assert(read.consumed() == old(read).consumed() + old(read).remaining().len());
            }
            return Err(e);
        },
    };
    if n < 8 {
        proof {
            assert(buf@.take(n as int) =~= pre + fed.take(drain_count(fed, (8 - idx) as nat) as int));
        }
        return Ok(AsyncValue::Continue(ReadContinuation::SegmentTableFirst { buf, idx: n }));
    }
    proof {
        assert(buf@ =~= pre + fed.take(drain_count(fed, (8 - idx) as nat) as int));
    }
    let raw = read_le32(&buf, 0);
    let segment_count = raw.wrapping_add(1);
    if segment_count >= MAX_SEGMENT_COUNT {
        return Err(Error::TooManySegments { count: segment_count });
    }
    if segment_count == 0 {
        return Err(Error::TooFewSegments);
    }
    let first_segment_len = read_le32(&buf, 4);
    Ok(AsyncValue::Complete((segment_count as usize, first_segment_len as usize)))
}

/// Reads or continues reading the remaining segment-table entries, given
/// the first word's results.  On completion the table is interpreted and
/// validated as `rest_parse` says: the ordered, contiguous segment slices
/// and their total, rejected — before anything proportional to it is
/// allocated — when the total exceeds the traversal limit.
pub fn read_segment_table_rest(
    read: &mut ByteStream,
    options: ReaderOptions,
    segment_count: usize,
    first_segment_len: usize,
    buf: Vec<u8>,
    idx: usize,
) -> (r: Result<AsyncValue<(usize, Vec<(usize, usize)>), ReadContinuation>, Error>)
    requires
        old(read).wf(),
        2 <= segment_count < 512,
        first_segment_len < 0x100000000,
        buf@.len() == (segment_count / 2) * 8,
        idx <= buf@.len(),
        8 * options.traversal_limit_in_words <= usize::MAX,
    ensures
        final(read).wf(),
        final(read).delivered() == old(read).delivered(),
        final(read).is_closed() == old(read).is_closed(),
        ({
            let pre = buf@.take(idx as int);
            let fed = old(read).remaining();
            let room = (buf@.len() - idx) as nat;
            let got = pre + fed.take(drain_count(fed, room) as int);
            &&& got.len() < buf@.len() ==> {
                &&& final(read).consumed() == old(read).consumed() + fed.len()
                &&& if old(read).is_closed() {
                    r matches Err(e) && e matches Error::PrematureEof
                } else {
                    r matches Ok(v) && v matches AsyncValue::Continue(c)
                        && c matches ReadContinuation::SegmentTableRest {
                        segment_count: sc,
                        first_segment_len: fl,
                        buf: b,
                        idx: j,
                    } && sc == segment_count && fl == first_segment_len && b@.len() == buf@.len()
                        && j == got.len() && b@.take(j as int) == got
                }
            }
            &&& got.len() == buf@.len() ==> {
                &&& final(read).consumed() == old(read).consumed() + room
                &&& match rest_parse(
                    segment_count as nat,
                    first_segment_len as nat,
                    got,
                    options.traversal_limit_in_words as nat,
                ) {
                    Err(e) => r matches Err(e2) && e2 == e,
                    Ok((total, slices)) => r matches Ok(v) && v matches AsyncValue::Complete(t)
                        && t.0 == total && slices_match(t.1@, slices),
                }
            }
        }),
{
    let mut buf = buf;
    let ghost pre = buf@.take(idx as int);
    let ghost fed = old(read).remaining();
    let buf_len = buf.len();
    let n = match read.drain_into(&mut buf, idx) {
        Ok(n) => n,
        Err(e) => {
            proof {
                assert(read.consumed() == old(read).consumed() + old(read).remaining().len());
            }
            return Err(e);
        },
    };
    let ghost got = pre + fed.take(drain_count(fed, (buf@.len() - idx) as nat) as int);
    if n < buf_len {
        proof {
            assert(buf@.take(n as int) =~= got);
        }
        return Ok(
            AsyncValue::Continue(
                ReadContinuation::SegmentTableRest {
                    segment_count,
                    first_segment_len,
                    buf,
                    idx: n,
                },
            ),
        );
    }
    proof {
        assert(buf@ =~= got);
    }
    let ghost lens = lens_from_rest(first_segment_len as nat, buf@, segment_count as nat);
    proof {
        assert forall|i: int| 0 <= i < lens.len() implies lens[i] <= 0xFFFFFFFF as nat by {
            crate::wire::lemma_le32_at_bound(buf@, 4 * (i - 1));
        }
    }
    // First pass over the table: the total word count, accumulated wide
    // enough that it cannot overflow.
    let mut total: u64 = first_segment_len as u64;
    proof {
        assert(lens.take(1).drop_last() =~= Seq::<nat>::empty());
        assert(total_words(Seq::<nat>::empty()) == 0);
        assert(lens.take(1).last() == first_segment_len as nat);
        assert(total_words(lens.take(1)) == first_segment_len);
    }
    let mut i: usize = 0;
    while i < segment_count - 1
        invariant
            2 <= segment_count < 512,
            i <= segment_count - 1,
            buf@.len() == (segment_count / 2) * 8,
            lens == lens_from_rest(first_segment_len as nat, buf@, segment_count as nat),
            lens.len() == segment_count,
            forall|p: int| 0 <= p < lens.len() ==> lens[p] <= 0xFFFFFFFF as nat,
            total == total_words(lens.take(i + 1)),
            total <= (i + 1) * 0x100000000,
        decreases segment_count - 1 - i,
    {
        let len_i = read_le32(&buf, 4 * i);
        proof {
            assert(lens[i + 1] == len_i as nat);
            crate::wire::lemma_total_take_step(lens, i + 1);
        }
        total = total + len_i as u64;
        i += 1;
    }
    proof {
        assert(lens.take(segment_count as int) =~= lens);
    }
    if total > options.traversal_limit_in_words {
        return Err(Error::MessageTooLarge { total_words: total });
    }
    // Second pass: the slices, contiguous ranges carried by a running total.
    let mut segment_slices: Vec<(usize, usize)> = Vec::new();
    let mut start: u64 = 0;
    let mut j: usize = 0;
    proof {
        assert(lens.take(0) =~= Seq::<nat>::empty());
    }
    while j < segment_count
        invariant
            2 <= segment_count < 512,
            j <= segment_count,
            buf@.len() == (segment_count / 2) * 8,
            first_segment_len < 0x100000000,
            lens == lens_from_rest(first_segment_len as nat, buf@, segment_count as nat),
            lens.len() == segment_count,
            total == total_words(lens),
            total <= options.traversal_limit_in_words,
            8 * options.traversal_limit_in_words <= usize::MAX,
            start == total_words(lens.take(j as int)),
            segment_slices@.len() == j,
            slices_match(segment_slices@, slices_of(lens).take(j as int)),
        decreases segment_count - j,
    {
        let len_j: u64 = if j == 0 {
            first_segment_len as u64
        } else {
            read_le32(&buf, 4 * (j - 1)) as u64
        };
        proof {
            assert(lens[j as int] == len_j as nat);
            crate::wire::lemma_total_take_step(lens, j as int);
            crate::wire::lemma_total_take_le(lens, j + 1);
        }
        let end: u64 = start + len_j;
        segment_slices.push((start as usize, end as usize));
        proof {
            assert(segment_slices@.take(j as int) =~= segment_slices@.drop_last());
            assert(slices_match(segment_slices@, slices_of(lens).take(j + 1)));
        }
        start = end;
        j += 1;
    }
    proof {
        assert(slices_of(lens).take(segment_count as int) =~= slices_of(lens));
        crate::wire::lemma_total_take_le(lens, segment_count as int);
    }
    Ok(AsyncValue::Complete((total as usize, segment_slices)))
}

/// Reads or continues reading the segment bodies into the message's one
/// allocation.  On completion the filled allocation, the slices and the
/// options become the finished message reader.
pub fn read_segments(
    read: &mut ByteStream,
    options: ReaderOptions,
    segment_slices: Vec<(usize, usize)>,
    owned_space: Vec<u8>,
    idx: usize,
) -> (r: Result<AsyncValue<MessageReader, ReadContinuation>, Error>)
    requires
        old(read).wf(),
        idx <= owned_space@.len(),
        forall|i: int|
            0 <= i < segment_slices@.len() ==> (#[trigger] segment_slices@[i]).0
                <= segment_slices@[i].1 && 8 * segment_slices@[i].1 <= owned_space@.len(),
    ensures
        final(read).wf(),
        final(read).delivered() == old(read).delivered(),
        final(read).is_closed() == old(read).is_closed(),
        ({
            let pre = owned_space@.take(idx as int);
            let fed = old(read).remaining();
            let room = (owned_space@.len() - idx) as nat;
            let got = pre + fed.take(drain_count(fed, room) as int);
            &&& got.len() < owned_space@.len() ==> {
                &&& final(read).consumed() == old(read).consumed() + fed.len()
                &&& if old(read).is_closed() {
                    r matches Err(e) && e matches Error::PrematureEof
                } else {
                    r matches Ok(v) && v matches AsyncValue::Continue(c)
                        && c matches ReadContinuation::Segments {
                        segment_slices: s2,
                        owned_space: b,
                        idx: j,
                    } && s2@ == segment_slices@ && b@.len() == owned_space@.len() && j == got.len()
                        && b@.take(j as int) == got
                }
            }
            &&& got.len() == owned_space@.len() ==> {
                &&& final(read).consumed() == old(read).consumed() + room
                &&& r matches Ok(v) && v matches AsyncValue::Complete(msg) && msg.wf()
                    && msg.options == options && msg.segment_slices@ == segment_slices@
                    && msg.owned_space@ == got
            }
        }),
{
    let mut owned_space = owned_space;
    let ghost pre = owned_space@.take(idx as int);
    let ghost fed = old(read).remaining();
    let space_len = owned_space.len();
    let n = match read.drain_into(&mut owned_space, idx) {
        Ok(n) => n,
        Err(e) => {
            proof {
                assert(read.consumed() == old(read).consumed() + old(read).remaining().len());
            }
            return Err(e);
        },
    };
    let ghost got = pre + fed.take(drain_count(fed, (owned_space@.len() - idx) as nat) as int);
    if n < space_len {
        proof {
            assert(owned_space@.take(n as int) =~= got);
        }
        return Ok(
            AsyncValue::Continue(
                ReadContinuation::Segments { segment_slices, owned_space, idx: n },
            ),
        );
    }
    proof {
        assert(owned_space@ =~= got);
    }
    Ok(AsyncValue::Complete(MessageReader { options, segment_slices, owned_space }))
}

/// The segment table at the head of `t`, interpreted and validated whole.
pub open spec fn table_result(t: Seq<u8>, limit: nat) -> Result<(nat, Seq<(nat, nat)>), Error> {
    match first_word_parse(t.take(8)) {
        Err(e) => Err(e),
        Ok((count, first)) => rest_parse(count, first, t.skip(8), limit),
    }
}

/// A continuation is exactly the decoder's state after consuming `pre`, the
/// input bytes so far of a message that still needs more.  Resuming it with
/// further bytes `t` must behave as a fresh decode of `pre + t`.
pub open spec fn cont_matches(c: ReadContinuation, pre: Seq<u8>, limit: nat) -> bool {
    match c {
        ReadContinuation::SegmentTableFirst { buf, idx } => {
            &&& buf@.len() == 8
            &&& idx < 8
            &&& pre == buf@.take(idx as int)
        },
        ReadContinuation::SegmentTableRest { segment_count, first_segment_len, buf, idx } => {
            &&& 2 <= segment_count < 512
            &&& first_word_parse(pre.take(8)) == Ok::<(nat, nat), Error>(
                (segment_count as nat, first_segment_len as nat),
            )
            &&& buf@.len() == (segment_count / 2) * 8
            &&& idx < buf@.len()
            &&& pre.len() == 8 + idx
            &&& buf@.take(idx as int) == pre.skip(8)
        },
        ReadContinuation::Segments { segment_slices, owned_space, idx } => {
            let count = segment_slices@.len() as nat;
            &&& 1 <= count < 512
            &&& pre.len() == table_bytes(count) + idx
            &&& idx < owned_space@.len()
            &&& match table_result(pre.take(table_bytes(count) as int), limit) {
                Ok((total, slices)) => {
                    &&& owned_space@.len() == 8 * total
                    &&& slices_match(segment_slices@, slices)
                    &&& owned_space@.take(idx as int) == pre.skip(table_bytes(count) as int)
                },
                Err(e) => false,
            }
        },
    }
}

/// What one call of the decoder — fresh, with `pre` empty, or a resumption
/// of a continuation for `pre` — must produce, given the source's state
/// before (`s0`) and after (`s1`): exactly what `spec_decode` says of all
/// the message bytes seen, however they were split across calls.
pub open spec fn decode_step_ok(
    r: Result<AsyncValue<MessageReader, ReadContinuation>, Error>,
    pre: Seq<u8>,
    s0: ByteStream,
    s1: ByteStream,
    options: ReaderOptions,
) -> bool {
    let limit = options.traversal_limit_in_words as nat;
    let input = pre + s0.remaining();
    &&& s1.wf()
    &&& s1.delivered() == s0.delivered()
    &&& s1.is_closed() == s0.is_closed()
    &&& match spec_decode(input, limit) {
        SpecDecode::Done { slices, body, consumed } => {
            &&& r matches Ok(v) && v matches AsyncValue::Complete(msg) && msg.wf()
                && msg.options == options && slices_match(msg.segment_slices@, slices)
                && msg.owned_space@ == body
            &&& s1.consumed() == s0.consumed() + consumed - pre.len()
        },
        SpecDecode::Fail(e) => r matches Err(e2) && e2 == e,
        SpecDecode::NeedMore => {
            if s0.is_closed() {
                r matches Err(e) && e matches Error::PrematureEof
            } else {
                r matches Ok(v) && v matches AsyncValue::Continue(c) && cont_matches(
                    c,
                    input,
                    limit,
                ) && s1.consumed() == s0.consumed() + s0.remaining().len()
            }
        },
    }
}

/// A decode outcome carries over to a shorter account of the consumed
/// prefix: what one phase-helper guarantees about its own prefix `p2` is
/// what an enclosing call guarantees about its prefix `p1`, provided the
/// two accounts describe the same total input.
proof fn lemma_step_shift(
    r: Result<AsyncValue<MessageReader, ReadContinuation>, Error>,
    p1: Seq<u8>,
    p2: Seq<u8>,
    s0: ByteStream,
    sm: ByteStream,
    s1: ByteStream,
    options: ReaderOptions,
)
    requires
        s0.wf(),
        sm.wf(),
        decode_step_ok(r, p2, sm, s1, options),
        sm.delivered() == s0.delivered(),
        sm.is_closed() == s0.is_closed(),
        sm.consumed() >= s0.consumed(),
        p2.len() == p1.len() + sm.consumed() - s0.consumed(),
        p1 + s0.remaining() == p2 + sm.remaining(),
    ensures
        decode_step_ok(r, p1, s0, s1, options),
{
    assert((p1 + s0.remaining()).len() == (p2 + sm.remaining()).len());
}

/// Reads a whole message from the source: the three phases in sequence,
/// each phase's suspension short-circuiting the operation into a
/// continuation for [`resume_read`].  The outcome is what `spec_decode`
/// says of the bytes the source has.
pub fn read_message(read: &mut ByteStream, options: ReaderOptions) -> (r: Result<
    AsyncValue<MessageReader, ReadContinuation>,
    Error,
>)
    requires
        old(read).wf(),
        8 * options.traversal_limit_in_words <= usize::MAX,
    ensures
        decode_step_ok(r, Seq::<u8>::empty(), *old(read), *final(read), options),
{
    let buf = zeroed_bytes(8);
    proof {
        assert(buf@.take(0) =~= Seq::<u8>::empty());
    }
    decode_from_first(read, options, buf, 0)
}

/// Decodes a message whose first-word phase holds `idx` bytes of `buf`:
/// the common spine of [`read_message`] and of resuming a first-word
/// suspension.
fn decode_from_first(read: &mut ByteStream, options: ReaderOptions, buf: Vec<u8>, idx: usize) -> (r:
    Result<AsyncValue<MessageReader, ReadContinuation>, Error>)
    requires
        old(read).wf(),
        buf@.len() == 8,
        idx <= 8,
        8 * options.traversal_limit_in_words <= usize::MAX,
    ensures
        decode_step_ok(r, buf@.take(idx as int), *old(read), *final(read), options),
{
    let ghost pre = buf@.take(idx as int);
    let ghost fed = old(read).remaining();
    let ghost input = pre + fed;
    let ghost limit = options.traversal_limit_in_words as nat;
    proof {
        assert(fed.take(drain_count(fed, (8 - idx) as nat) as int) =~= if fed.len() + idx <= 8 {
            fed
        } else {
            fed.take(8 - idx)
        });
        if fed.len() + idx <= 8 {
            assert(pre + fed =~= input);
        } else {
            assert(pre + fed.take(8 - idx) =~= input.take(8));
        }
    }
    let first_word = match read_segment_table_first(read, buf, idx) {
        Err(e) => {
            return Err(e);
        },
        Ok(AsyncValue::Continue(c)) => {
            return Ok(AsyncValue::Continue(c));
        },
        Ok(AsyncValue::Complete(t)) => t,
    };
    let (segment_count, first_segment_len) = first_word;
    let ghost sm = *read;
    proof {
        assert(input.take(8).take(8) =~= input.take(8));
        crate::wire::lemma_le32_at_bound(input.take(8), 4);
        assert(sm.remaining() =~= input.skip(8));
        assert(input.take(8).skip(8) =~= Seq::<u8>::empty());
        assert(input.take(8) + input.skip(8) =~= input);
    }
    let r = if segment_count == 1 {
        if (first_segment_len as u64) > options.traversal_limit_in_words {
            proof {
                lemma_single_lens(first_segment_len as nat, input.skip(8));
            }
            return Err(Error::MessageTooLarge { total_words: first_segment_len as u64 });
        }
        let mut segment_slices: Vec<(usize, usize)> = Vec::new();
        segment_slices.push((0, first_segment_len));
        let owned = zeroed_bytes(8 * first_segment_len);
        proof {
            lemma_single_lens(first_segment_len as nat, input.take(8).skip(8));
            let lens = lens_from_rest(first_segment_len as nat, input.take(8).skip(8), 1);
            assert(slices_match(segment_slices@, slices_of(lens))) by {
                assert(lens.take(0) =~= Seq::<nat>::empty());
                assert(lens.take(1) =~= lens);
            }
            assert(owned@.take(0) =~= Seq::<u8>::empty());
            assert(input.take(8).skip(8) =~= Seq::<u8>::empty());
        }
        decode_from_segments(read, options, segment_slices, owned, 0, Ghost(input.take(8)))
    } else {
        let tbl = create_segment_table_buf(segment_count);
        proof {
            assert(tbl@.take(0) =~= Seq::<u8>::empty());
            assert(input.take(8).skip(8) =~= Seq::<u8>::empty());
        }
        decode_from_rest(
            read,
            options,
            segment_count,
            first_segment_len,
            tbl,
            0,
            Ghost(input.take(8)),
        )
    };
    proof {
        lemma_step_shift(r, pre, input.take(8), *old(read), sm, *final(read), options);
    }
    r
}

/// Decodes onward from the remaining-table phase, `idx` bytes of `buf`
/// already filled, `pre` being the message bytes consumed so far (the first
/// table word, then the partial fill).
fn decode_from_rest(
    read: &mut ByteStream,
    options: ReaderOptions,
    segment_count: usize,
    first_segment_len: usize,
    buf: Vec<u8>,
    idx: usize,
    Ghost(pre): Ghost<Seq<u8>>,
) -> (r: Result<AsyncValue<MessageReader, ReadContinuation>, Error>)
    requires
        old(read).wf(),
        8 * options.traversal_limit_in_words <= usize::MAX,
        2 <= segment_count < 512,
        buf@.len() == (segment_count / 2) * 8,
        idx <= buf@.len(),
        pre.len() == 8 + idx,
        first_word_parse(pre.take(8)) == Ok::<(nat, nat), Error>(
            (segment_count as nat, first_segment_len as nat),
        ),
        buf@.take(idx as int) == pre.skip(8),
    ensures
        decode_step_ok(r, pre, *old(read), *final(read), options),
{
    let ghost fed = old(read).remaining();
    let ghost input = pre + fed;
    let ghost limit = options.traversal_limit_in_words as nat;
    let ghost restlen = buf@.len() as nat;
    proof {
        crate::wire::lemma_le32_at_bound(pre.take(8), 4);
        assert(input.take(8) =~= pre.take(8));
        assert(input.skip(8) =~= pre.skip(8) + fed);
        assert(fed.take(drain_count(fed, (restlen - idx) as nat) as int) =~= if fed.len() + idx
            <= restlen {
            fed
        } else {
            fed.take(restlen - idx)
        });
        if fed.len() + idx <= restlen {
            assert(pre.skip(8) + fed =~= input.skip(8));
        } else {
            assert(pre.skip(8) + fed.take(restlen - idx) =~= input.skip(8).take(restlen as int));
        }
    }
    let rest = match read_segment_table_rest(
        read,
        options,
        segment_count,
        first_segment_len,
        buf,
        idx,
    ) {
        Err(e) => {
            proof {
                if input.skip(8).len() >= restlen {
                    lemma_rest_lens_agree(
                        first_segment_len as nat,
                        input.skip(8),
                        segment_count as nat,
                    );
                }
            }
            return Err(e);
        },
        Ok(AsyncValue::Continue(c)) => {
            return Ok(AsyncValue::Continue(c));
        },
        Ok(AsyncValue::Complete(t)) => t,
    };
    let (total, segment_slices) = rest;
    let ghost sm = *read;
    let ghost tb = (8 + restlen) as nat;
    let ghost pre2 = input.take(tb as int);
    proof {
        lemma_rest_lens_agree(first_segment_len as nat, input.skip(8), segment_count as nat);
        let lens = lens_from_rest(first_segment_len as nat, input.skip(8), segment_count as nat);
        assert forall|i: int| 0 <= i < segment_slices@.len() implies (
        #[trigger] segment_slices@[i]).0 <= segment_slices@[i].1 && segment_slices@[i].1
            <= total_words(lens) by {
            crate::wire::lemma_total_take_step(lens, i);
            crate::wire::lemma_total_take_le(lens, i + 1);
        }
        assert(sm.remaining() =~= input.skip(tb as int));
        assert(pre2.take(8) =~= input.take(8));
        assert(pre2.skip(8) =~= input.skip(8).take(restlen as int));
        assert(pre2 + input.skip(tb as int) =~= input);
        lemma_rest_lens_agree(first_segment_len as nat, pre2.skip(8), segment_count as nat);
        assert(pre2.skip(8).take(restlen as int) =~= pre2.skip(8));
        assert(pre2.take(tb as int) =~= pre2);
        if fed.len() + idx == restlen {
            assert(input.skip(8).take(restlen as int) =~= input.skip(8));
        }
    }
    let owned = zeroed_bytes(8 * total);
    proof {
        assert(owned@.take(0) =~= Seq::<u8>::empty());
        assert(pre2.skip(tb as int) =~= Seq::<u8>::empty());
    }
    let r = decode_from_segments(read, options, segment_slices, owned, 0, Ghost(pre2));
    proof {
        lemma_step_shift(r, pre, pre2, *old(read), sm, *final(read), options);
    }
    r
}

/// Decodes onward from the segment-body phase, `idx` bytes of the
/// allocation already filled, `pre` being the message bytes consumed so far
/// (the whole table, then the partial body).
fn decode_from_segments(
    read: &mut ByteStream,
    options: ReaderOptions,
    segment_slices: Vec<(usize, usize)>,
    owned_space: Vec<u8>,
    idx: usize,
    Ghost(pre): Ghost<Seq<u8>>,
) -> (r: Result<AsyncValue<MessageReader, ReadContinuation>, Error>)
    requires
        old(read).wf(),
        1 <= segment_slices@.len() < 512,
        idx <= owned_space@.len(),
        pre.len() == table_bytes(segment_slices@.len() as nat) + idx,
        ({
            let limit = options.traversal_limit_in_words as nat;
            let tb = table_bytes(segment_slices@.len() as nat);
            match table_result(pre.take(tb as int), limit) {
                Ok((total, slices)) => {
                    &&& slices_match(segment_slices@, slices)
                    &&& owned_space@.len() == 8 * total
                    &&& owned_space@.take(idx as int) == pre.skip(tb as int)
                },
                Err(e) => false,
            }
        }),
    ensures
        decode_step_ok(r, pre, *old(read), *final(read), options),
{
    let ghost limit = options.traversal_limit_in_words as nat;
    let ghost count = segment_slices@.len() as nat;
    let ghost tb = table_bytes(count);
    let ghost fed = old(read).remaining();
    let ghost input = pre + fed;
    proof {
        assert(input.take(8) =~= pre.take(8));
        assert(input.take(tb as int) =~= pre.take(tb as int));
        assert(pre.take(tb as int).take(8) =~= pre.take(8));
        let first_parse = first_word_parse(pre.take(8));
        let (c0, f0) = first_parse->Ok_0;
        assert(c0 == count);
        assert(input.take(tb as int).skip(8) =~= input.skip(8).take((tb - 8) as int));
        assert(pre.take(tb as int).skip(8) =~= input.skip(8).take((tb - 8) as int));
        if count == 1 {
            lemma_single_lens(f0, input.take(tb as int).skip(8));
            lemma_single_lens(f0, input.skip(8));
        } else {
            lemma_rest_lens_agree(f0, input.skip(8), count);
        }
        assert(rest_parse(count, f0, input.skip(8), limit) == table_result(
            pre.take(tb as int),
            limit,
        ));
        let (total, slices) = table_result(pre.take(tb as int), limit)->Ok_0;
        assert forall|i: int| 0 <= i < segment_slices@.len() implies (
        #[trigger] segment_slices@[i]).0 <= segment_slices@[i].1 && 8 * segment_slices@[i].1
            <= owned_space@.len() by {
            let lens = lens_from_rest(f0, input.skip(8), count);
            crate::wire::lemma_total_take_step(lens, i);
            crate::wire::lemma_total_take_le(lens, i + 1);
        }
        assert(fed.take(drain_count(fed, (owned_space@.len() - idx) as nat) as int) =~= if fed.len()
            + idx <= owned_space@.len() {
            fed
        } else {
            fed.take(owned_space@.len() - idx)
        });
    }
    let r = read_segments(read, options, segment_slices, owned_space, idx);
    proof {
        let total = (owned_space@.len() / 8) as nat;
        if fed.len() + idx >= owned_space@.len() {
            assert(input.len() >= tb + owned_space@.len());
            assert(pre.skip(tb as int) + fed.take(owned_space@.len() - idx) =~= input.subrange(
                tb as int,
                (tb + owned_space@.len()) as int,
            ));
        } else {
            assert(input.len() < tb + owned_space@.len());
            assert(pre.skip(tb as int) + fed =~= input.skip(tb as int));
        }
    }
    r
}

/// Resumes a suspended read with whatever bytes the source has gained
/// since, continuing the exact phase the continuation captured.  Whatever
/// account `pre` of the already-consumed message bytes the continuation
/// matches, the outcome is what `spec_decode` says of `pre` followed by the
/// source's bytes — so decoding split across any number of suspensions
/// agrees with decoding the whole input in one pass.
#[verifier::rlimit(50)]
pub fn resume_read(
    read: &mut ByteStream,
    continuation: ReadContinuation,
    options: ReaderOptions,
) -> (r: Result<AsyncValue<MessageReader, ReadContinuation>, Error>)
    requires
        old(read).wf(),
        8 * options.traversal_limit_in_words <= usize::MAX,
        exists|pre: Seq<u8>|
            cont_matches(continuation, pre, options.traversal_limit_in_words as nat),
    ensures
        forall|pre: Seq<u8>|
            cont_matches(continuation, pre, options.traversal_limit_in_words as nat)
                ==> decode_step_ok(r, pre, *old(read), *final(read), options),
{
    let ghost limit = options.traversal_limit_in_words as nat;
    let ghost cont0 = continuation;
    match continuation {
        ReadContinuation::SegmentTableFirst { buf, idx } => {
            let ghost pre0 = choose|pre: Seq<u8>| cont_matches(cont0, pre, limit);
            let r = decode_from_first(read, options, buf, idx);
            proof {
                assert forall|pre: Seq<u8>| cont_matches(cont0, pre, limit) implies decode_step_ok(
                    r,
                    pre,
                    *old(read),
                    *final(read),
                    options,
                ) by {}
            }
            r
        },
        ReadContinuation::SegmentTableRest { segment_count, first_segment_len, buf, idx } => {
            let ghost pre0 = choose|pre: Seq<u8>| cont_matches(cont0, pre, limit);
            let r = decode_from_rest(
                read,
                options,
                segment_count,
                first_segment_len,
                buf,
                idx,
                Ghost(pre0),
            );
            proof {
                assert forall|pre: Seq<u8>| cont_matches(cont0, pre, limit) implies decode_step_ok(
                    r,
                    pre,
                    *old(read),
                    *final(read),
                    options,
                ) by {
                    lemma_equiv_rest(r, pre0, pre, *old(read), *final(read), options);
                }
            }
            r
        },
        ReadContinuation::Segments { segment_slices, owned_space, idx } => {
            let ghost pre0 = choose|pre: Seq<u8>| cont_matches(cont0, pre, limit);
            let ghost count = segment_slices@.len() as nat;
            proof {
                lemma_table_pins_lens(pre0.take(table_bytes(count) as int), limit, segment_slices@);
            }
            let r = decode_from_segments(
                read,
                options,
                segment_slices,
                owned_space,
                idx,
                Ghost(pre0),
            );
            proof {
                assert forall|pre: Seq<u8>| cont_matches(cont0, pre, limit) implies decode_step_ok(
                    r,
                    pre,
                    *old(read),
                    *final(read),
                    options,
                ) by {
                    let tb = table_bytes(count) as int;
                    lemma_table_pins_lens(pre.take(tb), limit, segment_slices@);
                    let p1 = table_result(pre0.take(tb), limit)->Ok_0;
                    let p2 = table_result(pre.take(tb), limit)->Ok_0;
                    assert(p1.1 =~= p2.1);
                    assert(p1.0 == p2.0);
                    assert(table_result(pre0.take(tb), limit) == table_result(pre.take(tb), limit));
                    assert(first_word_parse(pre0.take(tb).take(8)) == first_word_parse(
                        pre.take(tb).take(8),
                    ));
                    assert(pre0.skip(tb) == pre.skip(tb));
                    lemma_equiv_segs(r, pre0, pre, *old(read), *final(read), options, count);
                }
            }
            r
        },
    }
}

/// A table parse whose slices match a given slice list is pinned by that
/// list: the parsed first-word values and every parsed length equal the
/// spans the slices describe.
proof fn lemma_table_pins_lens(t: Seq<u8>, limit: nat, v: Seq<(usize, usize)>)
    requires
        table_result(t, limit) matches Ok(p) && slices_match(v, p.1),
    ensures
        ({
            let (c0, f0) = first_word_parse(t.take(8))->Ok_0;
            &&& first_word_parse(t.take(8)) matches Ok(q)
            &&& c0 == v.len()
            &&& v.len() >= 1 ==> f0 == v[0].1 - v[0].0
            &&& forall|j: int|
                0 <= j < v.len() ==> lens_from_rest(f0, t.skip(8), c0)[j] == v[j].1 - v[j].0
            &&& table_result(t, limit)->Ok_0.0 == total_words(lens_from_rest(f0, t.skip(8), c0))
        }),
{
    let (c0, f0) = first_word_parse(t.take(8))->Ok_0;
    let lens = lens_from_rest(f0, t.skip(8), c0);
    let slices = slices_of(lens);
    assert forall|j: int| 0 <= j < v.len() implies lens[j] == v[j].1 - v[j].0 by {
        crate::wire::lemma_total_take_step(lens, j);
    }
    if v.len() >= 1 {
        assert(lens[0] == f0);
    }
}

/// Two accounts of the bytes behind one suspended remaining-table phase
/// decode alike: only the first word's parse and the bytes after the first
/// word matter to everything downstream.
proof fn lemma_equiv_rest(
    r: Result<AsyncValue<MessageReader, ReadContinuation>, Error>,
    pre1: Seq<u8>,
    pre2: Seq<u8>,
    s0: ByteStream,
    s1: ByteStream,
    options: ReaderOptions,
)
    requires
        s0.wf(),
        pre1.len() == pre2.len(),
        pre1.len() >= 8,
        first_word_parse(pre1.take(8)) == first_word_parse(pre2.take(8)),
        pre1.skip(8) == pre2.skip(8),
        decode_step_ok(r, pre1, s0, s1, options),
    ensures
        decode_step_ok(r, pre2, s0, s1, options),
{
    let limit = options.traversal_limit_in_words as nat;
    let t = s0.remaining();
    let i1 = pre1 + t;
    let i2 = pre2 + t;
    assert(i1.take(8) =~= pre1.take(8));
    assert(i2.take(8) =~= pre2.take(8));
    assert(i1.skip(8) =~= pre1.skip(8) + t);
    assert(i2.skip(8) =~= pre2.skip(8) + t);
    lemma_decode_same_after_first(i1, i2, limit);
    match spec_decode(i1, limit) {
        SpecDecode::NeedMore => {
            if !s0.is_closed() {
                let c2 = (r->Ok_0)->Continue_0;
                lemma_cont_same_after_first(c2, i1, i2, limit);
            }
        },
        SpecDecode::Fail(e) => {},
        SpecDecode::Done { slices, body, consumed } => {},
    }
}

/// Two accounts of the bytes behind one suspended segment-body phase
/// decode alike: the parsed table and the bytes after it are pinned by the
/// continuation, and nothing else matters downstream.
proof fn lemma_equiv_segs(
    r: Result<AsyncValue<MessageReader, ReadContinuation>, Error>,
    pre1: Seq<u8>,
    pre2: Seq<u8>,
    s0: ByteStream,
    s1: ByteStream,
    options: ReaderOptions,
    count: nat,
)
    requires
        s0.wf(),
        1 <= count < 512,
        pre1.len() == pre2.len(),
        pre1.len() >= table_bytes(count),
        ({
            let limit = options.traversal_limit_in_words as nat;
            let tb = table_bytes(count) as int;
            &&& table_result(pre1.take(tb), limit) == table_result(pre2.take(tb), limit)
            &&& table_result(pre1.take(tb), limit) matches Ok(p) && p.1.len() == count
            &&& first_word_parse(pre1.take(tb).take(8)) == first_word_parse(pre2.take(tb).take(8))
            &&& pre1.skip(tb) == pre2.skip(tb)
        }),
        decode_step_ok(r, pre1, s0, s1, options),
    ensures
        decode_step_ok(r, pre2, s0, s1, options),
{
    let limit = options.traversal_limit_in_words as nat;
    let tb = table_bytes(count) as int;
    let restlen = tb - 8;
    let t = s0.remaining();
    let i1 = pre1 + t;
    let i2 = pre2 + t;
    assert(i1.take(8) =~= pre1.take(8));
    assert(i2.take(8) =~= pre2.take(8));
    assert(pre1.take(tb).take(8) =~= pre1.take(8));
    assert(pre2.take(tb).take(8) =~= pre2.take(8));
    let parse = first_word_parse(pre1.take(8));
    let (c0, f0) = parse->Ok_0;
    assert(c0 == count);
    // The lengths each side reads from its input agree with the lengths of
    // its pinned table, which agree with each other.
    assert(i1.skip(8).take(restlen) =~= pre1.take(tb).skip(8));
    assert(i2.skip(8).take(restlen) =~= pre2.take(tb).skip(8));
    if count == 1 {
        lemma_single_lens(f0, i1.skip(8));
        lemma_single_lens(f0, i2.skip(8));
        lemma_single_lens(f0, pre1.take(tb).skip(8));
        lemma_single_lens(f0, pre2.take(tb).skip(8));
    } else {
        lemma_rest_lens_agree(f0, i1.skip(8), count);
        lemma_rest_lens_agree(f0, i2.skip(8), count);
    }
    let lens_a = lens_from_rest(f0, pre1.take(tb).skip(8), count);
    let lens_b = lens_from_rest(f0, pre2.take(tb).skip(8), count);
    assert(slices_of(lens_a) == slices_of(lens_b));
    crate::wire::lemma_slices_pin_lens(lens_a, lens_b);
    assert(lens_from_rest(f0, i1.skip(8), count) == lens_from_rest(f0, i2.skip(8), count));
    assert(rest_parse(c0, f0, i1.skip(8), limit) == rest_parse(c0, f0, i2.skip(8), limit));
    assert(i1.skip(tb) =~= pre1.skip(tb) + t);
    assert(i2.skip(tb) =~= pre2.skip(tb) + t);
    match spec_decode(i1, limit) {
        SpecDecode::NeedMore => {
            if !s0.is_closed() {
                let c2 = (r->Ok_0)->Continue_0;
                lemma_cont_same_after_table(c2, i1, i2, limit, count);
            }
        },
        SpecDecode::Fail(e) => {},
        SpecDecode::Done { slices, body, consumed } => {
            let total = rest_parse(c0, f0, i1.skip(8), limit)->Ok_0.0;
            assert(i1.subrange(tb, tb + 8 * total) =~= i1.skip(tb).take(8 * total as int));
            assert(i2.subrange(tb, tb + 8 * total) =~= i2.skip(tb).take(8 * total as int));
        },
    }
}

/// Two inputs of one length, with the same first-word parse and the same
/// bytes past the first word, decode identically.
proof fn lemma_decode_same_after_first(i1: Seq<u8>, i2: Seq<u8>, limit: nat)
    requires
        i1.len() == i2.len(),
        i1.len() >= 8 ==> first_word_parse(i1.take(8)) == first_word_parse(i2.take(8)),
        i1.skip(8) == i2.skip(8),
    ensures
        spec_decode(i1, limit) == spec_decode(i2, limit),
{
    if i1.len() >= 8 {
        match first_word_parse(i1.take(8)) {
            Err(e) => {},
            Ok((c0, f0)) => {
                if i1.len() >= table_bytes(c0) {
                    match rest_parse(c0, f0, i1.skip(8), limit) {
                        Err(e) => {},
                        Ok((total, slices)) => {
                            if i1.len() >= table_bytes(c0) + 8 * total {
                                let tb = table_bytes(c0) as int;
                                assert(i1.subrange(tb, tb + 8 * total) =~= i1.skip(8).subrange(
                                    tb - 8,
                                    tb - 8 + 8 * total,
                                ));
                                assert(i2.subrange(tb, tb + 8 * total) =~= i2.skip(8).subrange(
                                    tb - 8,
                                    tb - 8 + 8 * total,
                                ));
                            }
                        },
                    }
                }
            },
        }
    }
}

/// A continuation matching one input matches any other of the same length
/// with the same first-word parse and the same bytes past the first word.
proof fn lemma_cont_same_after_first(c: ReadContinuation, i1: Seq<u8>, i2: Seq<u8>, limit: nat)
    requires
        i1.len() == i2.len(),
        i1.len() >= 8,
        first_word_parse(i1.take(8)) == first_word_parse(i2.take(8)),
        i1.skip(8) == i2.skip(8),
        cont_matches(c, i1, limit),
    ensures
        cont_matches(c, i2, limit),
{
    match c {
        ReadContinuation::SegmentTableFirst { buf, idx } => {
            // A first-word suspension means fewer than eight bytes arrived,
            // yet the whole first word is already present.
            assert(false);
        },
        ReadContinuation::SegmentTableRest { segment_count, first_segment_len, buf, idx } => {
        },
        ReadContinuation::Segments { segment_slices, owned_space, idx } => {
            let count2 = segment_slices@.len() as nat;
            let tb2 = table_bytes(count2) as int;
            assert(i1.take(tb2).take(8) =~= i1.take(8));
            assert(i2.take(tb2).take(8) =~= i2.take(8));
            assert(i1.take(tb2).skip(8) =~= i1.skip(8).take(tb2 - 8));
            assert(i2.take(tb2).skip(8) =~= i2.skip(8).take(tb2 - 8));
            assert(table_result(i1.take(tb2), limit) == table_result(i2.take(tb2), limit));
            assert(i1.skip(tb2) =~= i1.skip(8).skip(tb2 - 8));
            assert(i2.skip(tb2) =~= i2.skip(8).skip(tb2 - 8));
        },
    }
}

/// A continuation matching one input matches any other of the same length
/// whose table parses identically and whose bytes past the table agree.
proof fn lemma_cont_same_after_table(
    c: ReadContinuation,
    i1: Seq<u8>,
    i2: Seq<u8>,
    limit: nat,
    count: nat,
)
    requires
        1 <= count < 512,
        i1.len() == i2.len(),
        i1.len() >= table_bytes(count),
        first_word_parse(i1.take(8)) == first_word_parse(i2.take(8)),
        first_word_parse(i1.take(8)) matches Ok(p) && p.0 == count,
        rest_parse(count, first_word_parse(i1.take(8))->Ok_0.1, i1.skip(8), limit) == rest_parse(
            count,
            first_word_parse(i1.take(8))->Ok_0.1,
            i2.skip(8),
            limit,
        ),
        i1.skip(table_bytes(count) as int) == i2.skip(table_bytes(count) as int),
        cont_matches(c, i1, limit),
    ensures
        cont_matches(c, i2, limit),
{
    let tb = table_bytes(count) as int;
    let f0 = first_word_parse(i1.take(8))->Ok_0.1;
    match c {
        ReadContinuation::SegmentTableFirst { buf, idx } => {
            // A first-word suspension means fewer than eight bytes arrived,
            // yet the whole table is already present.
            assert(false);
        },
        ReadContinuation::SegmentTableRest { segment_count, first_segment_len, buf, idx } => {
            // A remaining-table suspension would mean the input is shorter
            // than its own table, yet the whole table is already present.
            assert(i1.len() == 8 + idx);
            assert(idx < (segment_count / 2) * 8);
            assert(segment_count == count);
            assert(false);
        },
        ReadContinuation::Segments { segment_slices, owned_space, idx } => {
            let count2 = segment_slices@.len() as nat;
            let tb2 = table_bytes(count2) as int;
            assert(i1.take(tb2).take(8) =~= i1.take(8));
            assert(i2.take(tb2).take(8) =~= i2.take(8));
            let p2 = table_result(i1.take(tb2), limit)->Ok_0;
            assert(p2.1.len() == count2);
            assert(count2 == count);
            assert(i1.take(tb2).skip(8) =~= i1.skip(8).take(tb2 - 8));
            assert(i2.take(tb2).skip(8) =~= i2.skip(8).take(tb2 - 8));
            if count == 1 {
                lemma_single_lens(f0, i1.take(tb2).skip(8));
                lemma_single_lens(f0, i2.take(tb2).skip(8));
                lemma_single_lens(f0, i1.skip(8));
                lemma_single_lens(f0, i2.skip(8));
            } else {
                lemma_rest_lens_agree(f0, i1.skip(8), count);
                lemma_rest_lens_agree(f0, i2.skip(8), count);
            }
            assert(table_result(i1.take(tb2), limit) == table_result(i2.take(tb2), limit));
            assert(i1.skip(tb2) == i2.skip(tb2));
        },
    }
}

/// The lengths list of a single-segment message is just the first length.
proof fn lemma_single_lens(first: nat, rest: Seq<u8>)
    ensures
        lens_from_rest(first, rest, 1) =~= seq![first],
        total_words(lens_from_rest(first, rest, 1)) == first,
{
    let lens = lens_from_rest(first, rest, 1);
    assert(lens =~= seq![first]);
    assert(lens.drop_last() =~= Seq::<nat>::empty());
    assert(total_words(Seq::<nat>::empty()) == 0);
}

/// The remaining-table lengths depend only on the table's own bytes: a
/// prefix of the unconsumed input long enough to hold the table reads the
/// same lengths as the input itself.
proof fn lemma_rest_lens_agree(first: nat, rest: Seq<u8>, count: nat)
    requires
        2 <= count < 512,
        rest.len() >= (count / 2) * 8,
    ensures
        lens_from_rest(first, rest.take(((count / 2) * 8) as int), count) =~= lens_from_rest(
            first,
            rest,
            count,
        ),
{
    let cut = ((count / 2) * 8) as int;
    let a = lens_from_rest(first, rest.take(cut), count);
    let b = lens_from_rest(first, rest, count);
    assert forall|i: int| 0 <= i < count implies a[i] == b[i] by {
        if i > 0 {
            assert(4 * (i - 1) + 4 <= cut);
        }
    }
}

} // verus!
