//! Mathematical model of the wire format.
//!
//! A message starts with a segment table: one word holding the segment count
//! (stored as count minus one, little-endian 32-bit, with wraparound) and the
//! first segment's length in words; when the count is above one, the
//! remaining lengths follow as further 32-bit values, padded with four zero
//! bytes when the count is even so the table ends on a word boundary.  The
//! segments' raw words follow, concatenated in order.
use vstd::prelude::*;
use crate::error::Error;

verus! {

/// The little-endian 32-bit value stored at byte offset `off`.
pub open spec fn le32_at(s: Seq<u8>, off: int) -> nat
    recommends
        0 <= off,
        off + 4 <= s.len(),
{
    (s[off] as nat) + 256 * (s[off + 1] as nat) + 65536 * (s[off + 2] as nat) + 16777216 * (
    s[off + 3] as nat)
}

/// The little-endian 64-bit value stored at byte offset `off`.
pub open spec fn le64_at(s: Seq<u8>, off: int) -> nat
    recommends
        0 <= off,
        off + 8 <= s.len(),
{
    le32_at(s, off) + 0x100000000 * le32_at(s, off + 4)
}

/// The four little-endian bytes of a 32-bit value.
pub open spec fn le32_bytes(n: nat) -> Seq<u8>
    recommends
        n < 0x100000000,
{
    seq![
        (n % 256) as u8,
        ((n / 256) % 256) as u8,
        ((n / 65536) % 256) as u8,
        ((n / 16777216) % 256) as u8,
    ]
}

/// The eight little-endian bytes of a word.
pub open spec fn le64_bytes(n: u64) -> Seq<u8> {
    le32_bytes((n as nat) % 0x100000000) + le32_bytes((n as nat) / 0x100000000)
}

/// The segment count declared by a table's first word: the stored field plus
/// one, wrapping around modulo 2^32.
pub open spec fn wire_segment_count(s: Seq<u8>) -> nat
    recommends
        s.len() >= 4,
{
    if le32_at(s, 0) == 0xFFFFFFFF {
        0
    } else {
        le32_at(s, 0) + 1
    }
}

/// Bytes occupied by the whole segment table for a given segment count: one
/// word, plus, past the first segment, one 32-bit length per segment padded
/// to a whole word.
pub open spec fn table_bytes(count: nat) -> nat {
    8 + (count / 2) * 8
}

/// The segment lengths (in words): the first came from the table's first
/// word, the rest are consecutive 32-bit values of the remaining table.
pub open spec fn lens_from_rest(first: nat, rest: Seq<u8>, count: nat) -> Seq<nat> {
    Seq::new(count, |i: int| if i == 0 { first } else { le32_at(rest, 4 * (i - 1)) })
}

/// Total words across all segments.
pub open spec fn total_words(lens: Seq<nat>) -> nat
    decreases lens.len(),
{
    if lens.len() == 0 {
        0
    } else {
        total_words(lens.drop_last()) + lens.last()
    }
}

/// The segment slices: word ranges into one shared buffer, contiguous and in
/// order, each starting where the previous ended.
pub open spec fn slices_of(lens: Seq<nat>) -> Seq<(nat, nat)> {
    Seq::new(lens.len(), |i: int| (total_words(lens.take(i)), total_words(lens.take(i + 1))))
}

/// What the first table word means: the segment count and the first
/// segment's length, or the error that rejects the count.
pub open spec fn first_word_parse(w: Seq<u8>) -> Result<(nat, nat), Error>
    recommends
        w.len() == 8,
{
    let count = wire_segment_count(w);
    if count >= 512 {
        Err(Error::TooManySegments { count: count as u32 })
    } else if count == 0 {
        Err(Error::TooFewSegments)
    } else {
        Ok((count, le32_at(w, 4)))
    }
}

/// What the remaining table means, given the first word's result: the total
/// word count and the segment slices, or the error when the total exceeds
/// the traversal limit.
pub open spec fn rest_parse(count: nat, first: nat, rest: Seq<u8>, limit: nat) -> Result<
    (nat, Seq<(nat, nat)>),
    Error,
>
    recommends
        1 <= count < 512,
        rest.len() >= (count / 2) * 8,
{
    let lens = lens_from_rest(first, rest, count);
    let total = total_words(lens);
    if total > limit {
        Err(Error::MessageTooLarge { total_words: total as u64 })
    } else {
        Ok((total, slices_of(lens)))
    }
}

/// The outcome of decoding a (possibly partial) byte sequence.
pub enum SpecDecode {
    /// Not enough bytes yet to finish; more input is needed.
    NeedMore,
    /// The bytes present already determine a decode error.
    Fail(Error),
    /// A whole message: its segment slices, the raw bytes of its segments,
    /// and how many input bytes it occupies.
    Done { slices: Seq<(nat, nat)>, body: Seq<u8>, consumed: nat },
}

/// The whole framing layer as one function on bytes: what a decoder must
/// produce when `s` is the input received so far.  Checks are ordered as the
/// decode performs them: count validation after the first word, the
/// traversal-limit check after the table and before anything proportional to
/// the total is allocated.
pub open spec fn spec_decode(s: Seq<u8>, limit: nat) -> SpecDecode {
    if s.len() < 8 {
        SpecDecode::NeedMore
    } else {
        match first_word_parse(s.take(8)) {
            Err(e) => SpecDecode::Fail(e),
            Ok((count, first)) => {
                if s.len() < table_bytes(count) {
                    SpecDecode::NeedMore
                } else {
                    match rest_parse(count, first, s.skip(8), limit) {
                        Err(e) => SpecDecode::Fail(e),
                        Ok((total, slices)) => {
                            let end = table_bytes(count) + 8 * total;
                            if s.len() < end {
                                SpecDecode::NeedMore
                            } else {
                                SpecDecode::Done {
                                    slices: slices,
                                    body: s.subrange(table_bytes(count) as int, end as int),
                                    consumed: end,
                                }
                            }
                        },
                    }
                }
            },
        }
    }
}

/// The words of a segment, read out of the shared body buffer: `count` words
/// starting at word offset `start`.
pub open spec fn words_at(body: Seq<u8>, start: nat, count: nat) -> Seq<u64> {
    Seq::new(count, |i: int| le64_at(body, 8 * (start + i)) as u64)
}

/// The wire encoding of the lengths past the first, one 32-bit value each.
pub open spec fn rest_lens_bytes(lens: Seq<nat>) -> Seq<u8>
    decreases lens.len(),
{
    if lens.len() == 0 {
        Seq::empty()
    } else {
        le32_bytes(lens.first()) + rest_lens_bytes(lens.drop_first())
    }
}

/// The wire encoding of a whole segment table for the given lengths.
pub open spec fn encode_table(lens: Seq<nat>) -> Seq<u8>
    recommends
        1 <= lens.len() < 512,
{
    le32_bytes((lens.len() - 1) as nat) + le32_bytes(lens.first()) + rest_lens_bytes(
        lens.drop_first(),
    ) + if lens.len() % 2 == 0 {
        seq![0u8, 0u8, 0u8, 0u8]
    } else {
        Seq::empty()
    }
}

/// The wire encoding of one segment's words.
pub open spec fn words_bytes(ws: Seq<u64>) -> Seq<u8>
    decreases ws.len(),
{
    if ws.len() == 0 {
        Seq::empty()
    } else {
        le64_bytes(ws.first()) + words_bytes(ws.drop_first())
    }
}

/// The wire encoding of the segment bodies, concatenated in order.
pub open spec fn segments_bytes(segs: Seq<Seq<u64>>) -> Seq<u8>
    decreases segs.len(),
{
    if segs.len() == 0 {
        Seq::empty()
    } else {
        words_bytes(segs.first()) + segments_bytes(segs.drop_first())
    }
}

/// The lengths, in words, of a list of segments.
pub open spec fn seg_lens(segs: Seq<Seq<u64>>) -> Seq<nat> {
    Seq::new(segs.len(), |i: int| segs[i].len())
}

/// The full wire encoding of a message: segment table, then segment bodies.
pub open spec fn spec_encode(segs: Seq<Seq<u64>>) -> Seq<u8>
    recommends
        1 <= segs.len() < 512,
{
    encode_table(seg_lens(segs)) + segments_bytes(segs)
}

/// A 32-bit field never reaches 2^32.
pub proof fn lemma_le32_at_bound(s: Seq<u8>, off: int)
    ensures
        le32_at(s, off) < 0x100000000,
{
}

/// Extending a prefix of the lengths by one adds that segment's words.
pub proof fn lemma_total_take_step(lens: Seq<nat>, j: int)
    requires
        0 <= j < lens.len(),
    ensures
        total_words(lens.take(j + 1)) == total_words(lens.take(j)) + lens[j],
{
    assert(lens.take(j + 1).drop_last() =~= lens.take(j));
    assert(lens.take(j + 1).last() == lens[j]);
}

/// A prefix of the lengths never exceeds the whole total.
pub proof fn lemma_total_take_le(lens: Seq<nat>, j: int)
    requires
        0 <= j <= lens.len(),
    ensures
        total_words(lens.take(j)) <= total_words(lens),
    decreases lens.len() - j,
{
    if j == lens.len() {
        assert(lens.take(j) =~= lens);
    } else {
        lemma_total_take_step(lens, j);
        lemma_total_take_le(lens, j + 1);
    }
}

/// Slice lists determine the lengths they were built from: equal slices
/// mean equal lengths.
pub proof fn lemma_slices_pin_lens(lens1: Seq<nat>, lens2: Seq<nat>)
    requires
        slices_of(lens1) == slices_of(lens2),
        lens1.len() == lens2.len(),
    ensures
        lens1 =~= lens2,
{
    assert forall|j: int| 0 <= j < lens1.len() implies lens1[j] == lens2[j] by {
        lemma_total_take_step(lens1, j);
        lemma_total_take_step(lens2, j);
        assert(slices_of(lens1)[j] == slices_of(lens2)[j]);
    }
}

/// Reads the little-endian 32-bit value at byte offset `off` of `buf`.
pub fn read_le32(buf: &Vec<u8>, off: usize) -> (r: u32)
    requires
        off + 4 <= buf@.len(),
    ensures
        r as nat == le32_at(buf@, off as int),
{
    // taking the length as an exec value keeps the offsets below in range
    let _len = buf.len();
    let b0 = buf[off] as u32;
    let b1 = buf[off + 1] as u32;
    let b2 = buf[off + 2] as u32;
    let b3 = buf[off + 3] as u32;
    b0 + 256 * b1 + 65536 * b2 + 16777216 * b3
}

/// Reads the little-endian 64-bit word at byte offset `off` of `buf`.
pub fn read_le64(buf: &Vec<u8>, off: usize) -> (r: u64)
    requires
        off + 8 <= buf@.len(),
    ensures
        r as nat == le64_at(buf@, off as int),
{
    let _len = buf.len();
    let lo = read_le32(buf, off) as u64;
    let hi = read_le32(buf, off + 4) as u64;
    lo + 0x100000000 * hi
}


/// Appends the four little-endian bytes of `x`.
pub fn push_le32(out: &mut Vec<u8>, x: u32)
    ensures
        final(out)@ == old(out)@ + le32_bytes(x as nat),
{
    out.push((x % 256) as u8);
    out.push(((x / 256) % 256) as u8);
    out.push(((x / 65536) % 256) as u8);
    out.push(((x / 16777216) % 256) as u8);
    proof {
        assert(out@ =~= old(out)@ + le32_bytes(x as nat));
    }
}

/// Appends the eight little-endian bytes of the word `w`.
pub fn push_le64(out: &mut Vec<u8>, w: u64)
    ensures
        final(out)@ == old(out)@ + le64_bytes(w),
{
    push_le32(out, (w % 0x100000000) as u32);
    push_le32(out, (w / 0x100000000) as u32);
    proof {
        assert(out@ =~= old(out)@ + le64_bytes(w));
    }
}

/// Encodes a message on the wire: the segment table, then each segment's
/// words in order.  The inverse of the decoder, used to state and test the
/// round trip.
pub fn encode_message(segments: &Vec<Vec<u64>>) -> (r: Vec<u8>)
    requires
        1 <= segments@.len() < 512,
        forall|i: int| 0 <= i < segments@.len() ==> (#[trigger] segments@[i])@.len() < 0x100000000,
    ensures
        r@ == spec_encode(segments@.map_values(|v: Vec<u64>| v@)),
{
    let ghost segs = segments@.map_values(|v: Vec<u64>| v@);
    let ghost lens = seg_lens(segs);
    let count = segments.len();
    let mut out: Vec<u8> = Vec::new();
    push_le32(&mut out, (count - 1) as u32);
    push_le32(&mut out, segments[0].len() as u32);
    let mut i: usize = 1;
    while i < count
        invariant
            1 <= i <= count,
            count == segs.len(),
            segs == segments@.map_values(|v: Vec<u64>| v@),
            lens == seg_lens(segs),
            count < 512,
            forall|p: int| 0 <= p < segs.len() ==> (#[trigger] segs[p]).len() < 0x100000000,
            out@ == le32_bytes((count - 1) as nat) + le32_bytes(lens.first())
                + rest_lens_bytes(lens.skip(1).take(i - 1)),
        decreases count - i,
    {
        proof {
            lemma_rest_lens_bytes_push(lens.skip(1).take(i - 1), lens.skip(1)[i - 1]);
            assert(lens.skip(1).take(i as int) =~= lens.skip(1).take(i - 1).push(
                lens.skip(1)[i - 1],
            ));
        }
        push_le32(&mut out, segments[i].len() as u32);
        i += 1;
    }
    proof {
        assert(lens.skip(1).take((count - 1) as int) =~= lens.skip(1));
        assert(lens.drop_first() =~= lens.skip(1));
    }
    if count % 2 == 0 {
        out.push(0);
        out.push(0);
        out.push(0);
        out.push(0);
    }
    proof {
        if count % 2 == 0 {
            assert(out@ =~= encode_table(lens));
        } else {
            assert(out@ + Seq::<u8>::empty() =~= out@);
            assert(out@ =~= encode_table(lens));
        }
    }
    let ghost table = out@;
    let mut s: usize = 0;
    while s < count
        invariant
            s <= count,
            count == segs.len(),
            segs == segments@.map_values(|v: Vec<u64>| v@),
            out@ == table + segments_bytes(segs.take(s as int)),
        decreases count - s,
    {
        let seg = &segments[s];
        let seg_len = seg.len();
        let ghost words0 = out@;
        let mut j: usize = 0;
        while j < seg_len
            invariant
                j <= seg_len,
                seg_len == seg@.len(),
                seg@ == segs[s as int],
                s < segs.len(),
                out@ == words0 + words_bytes(seg@.take(j as int)),
            decreases seg_len - j,
        {
            proof {
                lemma_words_bytes_push(seg@.take(j as int), seg@[j as int]);
                assert(seg@.take(j + 1) =~= seg@.take(j as int).push(seg@[j as int]));
            }
            push_le64(&mut out, seg[j]);
            j += 1;
        }
        proof {
            assert(seg@.take(seg_len as int) =~= seg@);
            lemma_segments_bytes_push(segs.take(s as int), segs[s as int]);
            assert(segs.take(s as int + 1) =~= segs.take(s as int).push(segs[s as int]));
            assert(out@ =~= table + segments_bytes(segs.take(s as int + 1)));
        }
        s += 1;
    }
    proof {
        assert(segs.take(count as int) =~= segs);
    }
    out
}

/// Appending one more length to the encoded length list appends its bytes.
pub proof fn lemma_rest_lens_bytes_push(ls: Seq<nat>, x: nat)
    ensures
        rest_lens_bytes(ls.push(x)) == rest_lens_bytes(ls) + le32_bytes(x),
    decreases ls.len(),
{
    if ls.len() == 0 {
        assert(ls.push(x).drop_first() =~= Seq::<nat>::empty());
        assert(ls.push(x).first() == x);
        assert(rest_lens_bytes(ls.push(x)) == le32_bytes(x) + rest_lens_bytes(ls.push(x).drop_first()));
        assert(rest_lens_bytes(Seq::<nat>::empty()) == Seq::<u8>::empty());
        assert(rest_lens_bytes(ls) == Seq::<u8>::empty());
        assert(le32_bytes(x) + Seq::<u8>::empty() =~= le32_bytes(x));
        assert(Seq::<u8>::empty() + le32_bytes(x) =~= le32_bytes(x));
    } else {
        lemma_rest_lens_bytes_push(ls.drop_first(), x);
        assert(ls.push(x).drop_first() =~= ls.drop_first().push(x));
        assert(ls.push(x).first() == ls.first());
        assert(rest_lens_bytes(ls.push(x)) == le32_bytes(ls.first()) + rest_lens_bytes(ls.drop_first().push(x)));
        assert(rest_lens_bytes(ls) == le32_bytes(ls.first()) + rest_lens_bytes(ls.drop_first()));
        assert(le32_bytes(ls.first()) + (rest_lens_bytes(ls.drop_first()) + le32_bytes(x)) =~= (
        le32_bytes(ls.first()) + rest_lens_bytes(ls.drop_first())) + le32_bytes(x));
    }
}

/// Appending one more word to an encoded word list appends its bytes.
pub proof fn lemma_words_bytes_push(ws: Seq<u64>, x: u64)
    ensures
        words_bytes(ws.push(x)) == words_bytes(ws) + le64_bytes(x),
    decreases ws.len(),
{
    if ws.len() == 0 {
        assert(ws.push(x).drop_first() =~= Seq::<u64>::empty());
        assert(ws.push(x).first() == x);
        assert(words_bytes(ws.push(x)) == le64_bytes(x) + words_bytes(ws.push(x).drop_first()));
        assert(words_bytes(Seq::<u64>::empty()) == Seq::<u8>::empty());
        assert(words_bytes(ws) == Seq::<u8>::empty());
        assert(le64_bytes(x) + Seq::<u8>::empty() =~= le64_bytes(x));
        assert(Seq::<u8>::empty() + le64_bytes(x) =~= le64_bytes(x));
    } else {
        lemma_words_bytes_push(ws.drop_first(), x);
        assert(ws.push(x).drop_first() =~= ws.drop_first().push(x));
        assert(ws.push(x).first() == ws.first());
        assert(words_bytes(ws.push(x)) == le64_bytes(ws.first()) + words_bytes(ws.drop_first().push(x)));
        assert(words_bytes(ws) == le64_bytes(ws.first()) + words_bytes(ws.drop_first()));
        assert(le64_bytes(ws.first()) + (words_bytes(ws.drop_first()) + le64_bytes(x)) =~= (
        le64_bytes(ws.first()) + words_bytes(ws.drop_first())) + le64_bytes(x));
    }
}

/// Appending one more segment to the encoded bodies appends its bytes.
pub proof fn lemma_segments_bytes_push(segs: Seq<Seq<u64>>, x: Seq<u64>)
    ensures
        segments_bytes(segs.push(x)) == segments_bytes(segs) + words_bytes(x),
    decreases segs.len(),
{
    if segs.len() == 0 {
        assert(segs.push(x).drop_first() =~= Seq::<Seq<u64>>::empty());
        assert(segs.push(x).first() == x);
        assert(segments_bytes(segs.push(x)) == words_bytes(x) + segments_bytes(segs.push(x).drop_first()));
        assert(segments_bytes(Seq::<Seq<u64>>::empty()) == Seq::<u8>::empty());
        assert(segments_bytes(segs) == Seq::<u8>::empty());
        assert(words_bytes(x) + Seq::<u8>::empty() =~= words_bytes(x));
        assert(Seq::<u8>::empty() + words_bytes(x) =~= words_bytes(x));
    } else {
        lemma_segments_bytes_push(segs.drop_first(), x);
        assert(segs.push(x).drop_first() =~= segs.drop_first().push(x));
        assert(segs.push(x).first() == segs.first());
        assert(segments_bytes(segs.push(x)) == words_bytes(segs.first()) + segments_bytes(segs.drop_first().push(x)));
        assert(segments_bytes(segs) == words_bytes(segs.first()) + segments_bytes(segs.drop_first()));
        assert(words_bytes(segs.first()) + (segments_bytes(segs.drop_first()) + words_bytes(x))
            =~= (words_bytes(segs.first()) + segments_bytes(segs.drop_first())) + words_bytes(x));
    }
}

} // verus!
