//! The laws of the framing layer, proved of its mathematical model — and,
//! through the decoder's contracts, of the executable code.
use vstd::prelude::*;
use crate::error::Error;
use crate::wire::le32_at;
use crate::wire::le64_at;
use crate::wire::le32_bytes;
use crate::wire::le64_bytes;
use crate::wire::wire_segment_count;
use crate::wire::table_bytes;
use crate::wire::lens_from_rest;
use crate::wire::total_words;
use crate::wire::slices_of;
use crate::wire::first_word_parse;
use crate::wire::rest_parse;
use crate::wire::SpecDecode;
use crate::wire::spec_decode;
use crate::wire::words_at;
use crate::wire::rest_lens_bytes;
use crate::wire::encode_table;
use crate::wire::words_bytes;
use crate::wire::segments_bytes;
use crate::wire::seg_lens;
use crate::wire::spec_encode;
use crate::wire::lemma_total_take_step;
use crate::wire::lemma_total_take_le;

verus! {

/// Reading a 32-bit value back from its own little-endian bytes gives the
/// value.
proof fn lemma_le32_value(s: Seq<u8>, off: int, n: nat)
    requires
        n < 0x100000000,
        0 <= off,
        off + 4 <= s.len(),
        s.subrange(off, off + 4) == le32_bytes(n),
    ensures
        le32_at(s, off) == n,
{
    assert(s[off] == le32_bytes(n)[0]);
    assert(s[off + 1] == le32_bytes(n)[1]);
    assert(s[off + 2] == le32_bytes(n)[2]);
    assert(s[off + 3] == le32_bytes(n)[3]);
    vstd::arithmetic::div_mod::lemma_fundamental_div_mod(n as int, 256);
    vstd::arithmetic::div_mod::lemma_fundamental_div_mod(n as int / 256, 256);
    vstd::arithmetic::div_mod::lemma_fundamental_div_mod(n as int / 65536, 256);
    vstd::arithmetic::div_mod::lemma_div_denominator(n as int, 256, 256);
    vstd::arithmetic::div_mod::lemma_div_denominator(n as int, 65536, 256);
    assert(n as int / 16777216 < 256);
    vstd::arithmetic::div_mod::lemma_small_mod((n / 16777216) as nat, 256);
}

/// Reading a word back from its own little-endian bytes gives the word.
#[verifier::rlimit(100)]
proof fn lemma_le64_value(s: Seq<u8>, off: int, w: u64)
    requires
        0 <= off,
        off + 8 <= s.len(),
        s.subrange(off, off + 8) == le64_bytes(w),
    ensures
        le64_at(s, off) == w,
{
    let lo = (w as nat) % 0x100000000;
    let hi = (w as nat) / 0x100000000;
    vstd::arithmetic::div_mod::lemma_fundamental_div_mod(w as int, 0x100000000);
    assert(le64_bytes(w) == le32_bytes(lo) + le32_bytes(hi));
    assert forall|k: int| 0 <= k < 4 implies s[off + k] == le32_bytes(lo)[k] && s[off + 4 + k]
        == le32_bytes(hi)[k] by {
        assert(s.subrange(off, off + 8)[k] == le64_bytes(w)[k]);
        assert(s.subrange(off, off + 8)[4 + k] == le64_bytes(w)[4 + k]);
    }
    assert(s.subrange(off, off + 4) =~= le32_bytes(lo));
    assert(s.subrange(off + 4, off + 8) =~= le32_bytes(hi));
    lemma_le32_value(s, off, lo);
    lemma_le32_value(s, off + 4, hi);
}

/// The encoded length list is four bytes per length.
proof fn lemma_rest_lens_bytes_len(ls: Seq<nat>)
    ensures
        rest_lens_bytes(ls).len() == 4 * ls.len(),
    decreases ls.len(),
{
    if ls.len() > 0 {
        lemma_rest_lens_bytes_len(ls.drop_first());
    }
}

/// The encoded word list is eight bytes per word.
proof fn lemma_words_bytes_len(ws: Seq<u64>)
    ensures
        words_bytes(ws).len() == 8 * ws.len(),
    decreases ws.len(),
{
    if ws.len() > 0 {
        lemma_words_bytes_len(ws.drop_first());
    }
}

/// A total can be taken from the front as well as from the back.
proof fn lemma_total_words_front(lens: Seq<nat>)
    requires
        lens.len() > 0,
    ensures
        total_words(lens) == lens.first() + total_words(lens.drop_first()),
    decreases lens.len(),
{
    if lens.len() == 1 {
        assert(lens.drop_last() =~= Seq::<nat>::empty());
        assert(lens.drop_first() =~= Seq::<nat>::empty());
    } else {
        lemma_total_words_front(lens.drop_last());
        assert(lens.drop_last().drop_first() =~= lens.drop_first().drop_last());
        assert(lens.drop_last().first() == lens.first());
        assert(lens.drop_first().last() == lens.last());
        assert(total_words(lens.drop_first()) == total_words(lens.drop_first().drop_last())
            + lens.drop_first().last());
    }
}

/// The encoded bodies are eight bytes per word of the total.
proof fn lemma_segments_bytes_len(segs: Seq<Seq<u64>>)
    ensures
        segments_bytes(segs).len() == 8 * total_words(seg_lens(segs)),
    decreases segs.len(),
{
    if segs.len() == 0 {
        assert(seg_lens(segs) =~= Seq::<nat>::empty());
    } else {
        lemma_segments_bytes_len(segs.drop_first());
        lemma_words_bytes_len(segs.first());
        lemma_total_words_front(seg_lens(segs));
        assert(seg_lens(segs).drop_first() =~= seg_lens(segs.drop_first()));
        assert(seg_lens(segs).first() == segs.first().len());
    }
}

/// The whole encoded table occupies exactly the table's wire size.
proof fn lemma_encode_table_len(lens: Seq<nat>)
    requires
        1 <= lens.len() < 512,
    ensures
        encode_table(lens).len() == table_bytes(lens.len()),
{
    lemma_rest_lens_bytes_len(lens.drop_first());
}

/// The j-th encoded length reads back as itself, whatever follows the list.
proof fn lemma_rest_lens_bytes_index(ls: Seq<nat>, j: int, t: Seq<u8>)
    requires
        0 <= j < ls.len(),
        forall|k: int| 0 <= k < ls.len() ==> ls[k] < 0x100000000,
    ensures
        le32_at(rest_lens_bytes(ls) + t, 4 * j) == ls[j],
    decreases j,
{
    lemma_rest_lens_bytes_len(ls);
    if j == 0 {
        let s = rest_lens_bytes(ls) + t;
        assert(s.subrange(0, 4) =~= le32_bytes(ls[0]));
        lemma_le32_value(s, 0, ls[0]);
    } else {
        lemma_rest_lens_bytes_index(ls.drop_first(), j - 1, t);
        let inner = rest_lens_bytes(ls.drop_first()) + t;
        assert(rest_lens_bytes(ls) + t =~= le32_bytes(ls.first()) + inner);
        assert(le32_at(le32_bytes(ls.first()) + inner, 4 * j) == le32_at(inner, 4 * (j - 1)));
        assert(ls.drop_first()[j - 1] == ls[j]);
    }
}

/// The j-th encoded word reads back as itself, whatever follows the list.
proof fn lemma_words_bytes_index(ws: Seq<u64>, j: int, t: Seq<u8>)
    requires
        0 <= j < ws.len(),
    ensures
        le64_at(words_bytes(ws) + t, 8 * j) == ws[j],
    decreases j,
{
    lemma_words_bytes_len(ws);
    if j == 0 {
        let s = words_bytes(ws) + t;
        assert(s.subrange(0, 8) =~= le64_bytes(ws[0]));
        lemma_le64_value(s, 0, ws[0]);
    } else {
        lemma_words_bytes_index(ws.drop_first(), j - 1, t);
        let inner = words_bytes(ws.drop_first()) + t;
        assert(words_bytes(ws) + t =~= le64_bytes(ws.first()) + inner);
        assert(le64_at(le64_bytes(ws.first()) + inner, 8 * j) == le64_at(inner, 8 * (j - 1)));
        assert(ws.drop_first()[j - 1] == ws[j]);
    }
}

/// A word read past a prefix is a word of what follows it.
proof fn lemma_le64_shift(a: Seq<u8>, b: Seq<u8>, off: int)
    requires
        0 <= off,
        off + 8 <= b.len(),
    ensures
        le64_at(a + b, a.len() + off) == le64_at(b, off),
{
    assert forall|k: int| 0 <= k < 8 implies (a + b)[#[trigger] (a.len() + off + k)] == b[off
        + k] by {}
    assert(le32_at(a + b, a.len() + off) == le32_at(b, off));
    assert(le32_at(a + b, a.len() + off + 4) == le32_at(b, off + 4));
}

/// Each segment's words read back as themselves out of the concatenated
/// bodies, at the word offset its slice gives.
proof fn lemma_segment_words(segs: Seq<Seq<u64>>, i: int, t: Seq<u8>)
    requires
        0 <= i < segs.len(),
    ensures
        words_at(
            segments_bytes(segs) + t,
            total_words(seg_lens(segs).take(i)),
            segs[i].len(),
        ) == segs[i],
    decreases i,
{
    let lens = seg_lens(segs);
    if i == 0 {
        assert(lens.take(0) =~= Seq::<nat>::empty());
        let s = segments_bytes(segs) + t;
        let inner = segments_bytes(segs.drop_first()) + t;
        assert(s =~= words_bytes(segs.first()) + inner);
        assert forall|j: int| 0 <= j < segs[0].len() implies words_at(s, 0, segs[0].len())[j]
            == segs[0][j] by {
            lemma_words_bytes_index(segs[0], j, inner);
            assert(words_bytes(segs.first()) + inner =~= s);
        }
        assert(words_at(s, 0, segs[0].len()) =~= segs[0]);
    } else {
        lemma_segment_words(segs.drop_first(), i - 1, t);
        let s = segments_bytes(segs) + t;
        let inner = segments_bytes(segs.drop_first()) + t;
        assert(s =~= words_bytes(segs.first()) + inner);
        lemma_words_bytes_len(segs.first());
        let start = total_words(lens.take(i));
        let lens2 = seg_lens(segs.drop_first());
        assert(lens.take(i).drop_first() =~= lens2.take(i - 1));
        lemma_total_words_front(lens.take(i));
        let start2 = total_words(lens2.take(i - 1));
        assert(start == segs[0].len() + start2);
        assert(segs.drop_first()[i - 1] == segs[i]);
        assert forall|j: int| 0 <= j < segs[i].len() implies words_at(s, start, segs[i].len())[j]
            == segs[i][j] by {
            lemma_segments_bytes_len(segs.drop_first());
            lemma_total_take_step(lens2, i - 1);
            lemma_total_take_le(lens2, i);
            assert(lens2.take(lens2.len() as int) =~= lens2);
            assert(start2 + j + 1 <= total_words(lens2));
            lemma_le64_shift(words_bytes(segs.first()), inner, 8 * (start2 + j));
            assert(8 * (start + j) == words_bytes(segs.first()).len() + 8 * (start2 + j));
            assert(le64_at(s, 8 * (start + j)) == le64_at(inner, 8 * (start2 + j)));
        }
        assert(words_at(s, start, segs[i].len()) =~= words_at(
            inner,
            start2,
            segs[i].len(),
        ));
    }
}

/// The lengths a decoder reads depend only on the table region: cutting the
/// remaining input anywhere past the table leaves them unchanged.
proof fn lemma_lens_within(first: nat, rest: Seq<u8>, count: nat, cut: int)
    requires
        1 <= count < 512,
        (count / 2) * 8 <= cut <= rest.len(),
    ensures
        lens_from_rest(first, rest.take(cut), count) =~= lens_from_rest(first, rest, count),
{
    let a = lens_from_rest(first, rest.take(cut), count);
    let b = lens_from_rest(first, rest, count);
    assert forall|i: int| 0 <= i < count implies a[i] == b[i] by {
        if i > 0 {
            assert(4 * (i - 1) + 4 <= cut);
        }
    }
}

/// Round trip: encoding any non-empty list of at most 511 segments, each
/// below 2^32 words, with a total within the traversal limit, and then
/// decoding the bytes, completes exactly: the slices are the prefix sums of
/// the segment lengths, the whole encoding is consumed, and every segment's
/// words read back equal to the original — however the decoder's input was
/// split, since `spec_decode` is a function of the bytes alone.
pub proof fn lemma_round_trip(segs: Seq<Seq<u64>>, limit: nat)
    requires
        1 <= segs.len() < 512,
        forall|i: int| 0 <= i < segs.len() ==> (#[trigger] segs[i]).len() < 0x100000000,
        total_words(seg_lens(segs)) <= limit,
    ensures
        ({
            let lens = seg_lens(segs);
            let enc = spec_encode(segs);
            &&& spec_decode(enc, limit) == SpecDecode::Done {
                slices: slices_of(lens),
                body: segments_bytes(segs),
                consumed: enc.len() as nat,
            }
            &&& forall|i: int|
                0 <= i < segs.len() ==> words_at(
                    segments_bytes(segs),
                    slices_of(lens)[i].0,
                    (slices_of(lens)[i].1 - slices_of(lens)[i].0) as nat,
                ) == segs[i]
        }),
{
    let lens = seg_lens(segs);
    let count = segs.len() as nat;
    let enc = spec_encode(segs);
    let table = encode_table(lens);
    let bodies = segments_bytes(segs);
    let total = total_words(lens);
    lemma_encode_table_len(lens);
    lemma_segments_bytes_len(segs);
    lemma_rest_lens_bytes_len(lens.drop_first());
    // The first word: the count field and the first length read back.
    assert(enc.subrange(0, 4) =~= le32_bytes((count - 1) as nat));
    assert(enc.subrange(4, 8) =~= le32_bytes(lens.first()));
    assert(enc.take(8).subrange(0, 4) =~= le32_bytes((count - 1) as nat));
    assert(enc.take(8).subrange(4, 8) =~= le32_bytes(lens.first()));
    lemma_le32_value(enc.take(8), 0, (count - 1) as nat);
    lemma_le32_value(enc.take(8), 4, lens.first());
    assert(wire_segment_count(enc.take(8)) == count);
    assert(first_word_parse(enc.take(8)) == Ok::<(nat, nat), Error>((count, lens.first())));
    // The remaining lengths read back.
    let pad = if count % 2 == 0 {
        seq![0u8, 0u8, 0u8, 0u8]
    } else {
        Seq::<u8>::empty()
    };
    assert(enc.skip(8) =~= rest_lens_bytes(lens.drop_first()) + (pad + bodies));
    let decoded = lens_from_rest(lens.first(), enc.skip(8), count);
    assert forall|i: int| 0 <= i < count implies decoded[i] == lens[i] by {
        if i > 0 {
            lemma_rest_lens_bytes_index(lens.drop_first(), i - 1, pad + bodies);
        }
    }
    assert(decoded =~= lens);
    assert(rest_parse(count, lens.first(), enc.skip(8), limit) == Ok::<
        (nat, Seq<(nat, nat)>),
        Error,
    >((total, slices_of(lens))));
    // Everything is present: the decode completes and consumes it all.
    assert(enc.len() == table_bytes(count) + 8 * total);
    assert(enc.subrange(table_bytes(count) as int, enc.len() as int) =~= bodies);
    assert(spec_decode(enc, limit) == SpecDecode::Done {
        slices: slices_of(lens),
        body: bodies,
        consumed: enc.len() as nat,
    });
    // Each segment's words come back unchanged.
    assert forall|i: int| 0 <= i < segs.len() implies words_at(
        bodies,
        slices_of(lens)[i].0,
        (slices_of(lens)[i].1 - slices_of(lens)[i].0) as nat,
    ) == segs[i] by {
        lemma_total_take_step(lens, i);
        lemma_segment_words(segs, i, Seq::<u8>::empty());
        assert(bodies + Seq::<u8>::empty() =~= bodies);
    }
}

/// Segment slices are contiguous and in order: the first starts at zero
/// and each later one begins exactly where the one before it ends.
pub proof fn lemma_slices_contiguous(lens: Seq<nat>)
    ensures
        lens.len() > 0 ==> slices_of(lens)[0].0 == 0,
        forall|i: int|
            0 <= i < lens.len() - 1 ==> (#[trigger] slices_of(lens)[i + 1]).0 == slices_of(
                lens,
            )[i].1,
{
    if lens.len() > 0 {
        assert(lens.take(0) =~= Seq::<nat>::empty());
    }
}

/// Single-segment shortcut: when the first word declares one segment, the
/// table is that word alone — the remaining-table phase reads nothing — and
/// the sole segment's length is the word directly following the count.
pub proof fn lemma_single_segment(s: Seq<u8>, limit: nat)
    requires
        s.len() >= 8,
        first_word_parse(s.take(8)) matches Ok(p) && p.0 == 1,
    ensures
        table_bytes(1) == 8,
        ({
            let f = first_word_parse(s.take(8))->Ok_0.1;
            spec_decode(s, limit) == if f > limit {
                SpecDecode::Fail(Error::MessageTooLarge { total_words: f as u64 })
            } else if s.len() < 8 + 8 * f {
                SpecDecode::NeedMore
            } else {
                SpecDecode::Done {
                    slices: seq![(0nat, f)],
                    body: s.subrange(8, 8 + 8 * f as int),
                    consumed: (8 + 8 * f) as nat,
                }
            }
        }),
{
    let f = first_word_parse(s.take(8))->Ok_0.1;
    let lens = lens_from_rest(f, s.skip(8), 1);
    assert(lens =~= seq![f]);
    assert(lens.drop_last() =~= Seq::<nat>::empty());
    assert(total_words(Seq::<nat>::empty()) == 0);
    assert(total_words(lens) == f);
    assert(lens.take(0) =~= Seq::<nat>::empty());
    assert(lens.take(1) =~= lens);
    if f <= limit {
        assert(slices_of(lens) =~= seq![(0nat, f)]);
    }
}

/// Premature end of stream: cutting the encoding of a complete message
/// anywhere short of its full length leaves a decode that still needs more
/// bytes — never a truncated success and never a different error.  A source
/// that is closed at that point therefore yields a premature-end error, as
/// the decoder's contract requires of every input whose decode needs more.
pub proof fn lemma_truncated_needs_more(bytes: Seq<u8>, t: int, limit: nat)
    requires
        spec_decode(bytes, limit) matches SpecDecode::Done { .. },
        0 <= t < spec_decode(bytes, limit)->Done_consumed,
        t <= bytes.len(),
    ensures
        spec_decode(bytes.take(t), limit) == SpecDecode::NeedMore,
{
    let cut = bytes.take(t);
    if t < 8 {
    } else {
        assert(cut.take(8) =~= bytes.take(8));
        let (count, first) = first_word_parse(bytes.take(8))->Ok_0;
        let tb = table_bytes(count);
        if t < tb {
        } else {
            assert(cut.skip(8) =~= bytes.skip(8).take(t - 8));
            lemma_lens_within(first, bytes.skip(8), count, t - 8);
            assert(lens_from_rest(first, cut.skip(8), count) == lens_from_rest(
                first,
                bytes.skip(8),
                count,
            ));
        }
    }
}

} // verus!
