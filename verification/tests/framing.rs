use capnp_framing::decode::create_segment_table_buf;
use capnp_framing::decode::read_message;
use capnp_framing::decode::read_segment_table_first;
use capnp_framing::decode::read_segment_table_rest;
use capnp_framing::decode::resume_read;
use capnp_framing::decode::zeroed_bytes;
use capnp_framing::decode::MessageReader;
use capnp_framing::decode::ReadContinuation;
use capnp_framing::error::Error;
use capnp_framing::error::ReaderOptions;
use capnp_framing::stream::ByteStream;
use capnp_framing::value::AsyncValue;
use capnp_framing::wire::encode_message;

fn closed_stream(data: &[u8]) -> ByteStream {
    let mut s = ByteStream::new();
    s.feed(data);
    s.close();
    s
}

fn read_segment_table(data: &[u8]) -> Result<(usize, Vec<(usize, usize)>), Error> {
    let mut s = closed_stream(data);
    let first_word = read_segment_table_first(&mut s, zeroed_bytes(8), 0)?;
    let (segment_count, first_segment_len) = first_word.unwrap();
    if segment_count == 1 {
        Ok((first_segment_len, vec![(0, first_segment_len)]))
    } else {
        let buf = create_segment_table_buf(segment_count);
        let rest = read_segment_table_rest(
            &mut s,
            ReaderOptions::new(),
            segment_count,
            first_segment_len,
            buf,
            0,
        )?;
        Ok(rest.unwrap())
    }
}

#[test]
fn test_read_segment_table() {
    let mut buf = vec![];

    buf.extend(
        [0, 0, 0, 0, // 1 segments
             0, 0, 0, 0] // 0 length
            .iter()
            .cloned(),
    );
    let (words, segment_slices) = read_segment_table(&buf[..]).unwrap();
    assert_eq!(0, words);
    assert_eq!(vec![(0, 0)], segment_slices);
    buf.clear();

    buf.extend(
        [0, 0, 0, 0, // 1 segments
             1, 0, 0, 0] // 1 length
            .iter()
            .cloned(),
    );
    let (words, segment_slices) = read_segment_table(&buf[..]).unwrap();
    assert_eq!(1, words);
    assert_eq!(vec![(0, 1)], segment_slices);
    buf.clear();

    buf.extend(
        [1, 0, 0, 0, // 2 segments
             1, 0, 0, 0, // 1 length
             1, 0, 0, 0, // 1 length
             0, 0, 0, 0] // padding
            .iter()
            .cloned(),
    );
    let (words, segment_slices) = read_segment_table(&buf[..]).unwrap();
    assert_eq!(2, words);
    assert_eq!(vec![(0, 1), (1, 2)], segment_slices);
    buf.clear();

    buf.extend(
        [2, 0, 0, 0, // 3 segments
             1, 0, 0, 0, // 1 length
             1, 0, 0, 0, // 1 length
             0, 1, 0, 0] // 256 length
            .iter()
            .cloned(),
    );
    let (words, segment_slices) = read_segment_table(&buf[..]).unwrap();
    assert_eq!(258, words);
    assert_eq!(vec![(0, 1), (1, 2), (2, 258)], segment_slices);
    buf.clear();

    buf.extend(
        [3, 0, 0, 0, // 4 segments
             77, 0, 0, 0, // 77 length
             23, 0, 0, 0, // 23 length
             1, 0, 0, 0, // 1 length
             99, 0, 0, 0, // 99 length
             0, 0, 0, 0] // padding
            .iter()
            .cloned(),
    );
    let (words, segment_slices) = read_segment_table(&buf[..]).unwrap();
    assert_eq!(200, words);
    assert_eq!(vec![(0, 77), (77, 100), (100, 101), (101, 200)], segment_slices);
    buf.clear();
}

#[test]
fn test_read_invalid_segment_table() {
    let mut buf = vec![];

    buf.extend([0, 2, 0, 0].iter().cloned()); // 513 segments
    buf.extend([0; 513 * 4].iter().cloned());
    assert!(read_segment_table(&buf[..]).is_err());
    buf.clear();

    buf.extend([0, 0, 0, 0].iter().cloned()); // 1 segments
    assert!(read_segment_table(&buf[..]).is_err());
    buf.clear();

    buf.extend([0, 0, 0, 0].iter().cloned()); // 1 segments
    buf.extend([0; 3].iter().cloned());
    assert!(read_segment_table(&buf[..]).is_err());
    buf.clear();

    buf.extend([255, 255, 255, 255].iter().cloned()); // 0 segments
    assert!(read_segment_table(&buf[..]).is_err());
    buf.clear();
}

fn decode_byte_by_byte(data: &[u8], options: ReaderOptions) -> MessageReader {
    let mut s = ByteStream::new();
    let mut state = read_message(&mut s, options).unwrap();
    let mut i = 0;
    loop {
        match state {
            AsyncValue::Complete(msg) => return msg,
            AsyncValue::Continue(c) => {
                assert!(i < data.len(), "decoder wants more than the whole encoding");
                s.feed(&data[i..i + 1]);
                i += 1;
                state = resume_read(&mut s, c, options).unwrap();
            },
        }
    }
}

fn round_trip(segments: Vec<Vec<u64>>) {
    let data = encode_message(&segments);
    let msg = decode_byte_by_byte(&data, ReaderOptions::new());
    assert_eq!(msg.segment_count(), segments.len());
    for (k, seg) in segments.iter().enumerate() {
        assert_eq!(&msg.get_segment(k)[..], &seg[..]);
    }
}

#[test]
fn check_round_trip() {
    round_trip(vec![vec![]]);
    round_trip(vec![vec![1, 2, 3]]);
    round_trip(vec![vec![0xAB54A98CEB1F0AD2], vec![], vec![1, 2, 3, 4, 5]]);
    round_trip(vec![vec![77; 10], vec![23; 9], vec![1], vec![99; 3]]);
    round_trip(vec![vec![], vec![]]);
}

#[test]
fn single_segment_skips_rest_of_table() {
    // One segment: the table is a single word, the segment's length is the
    // word right after the count, and nothing more is needed to complete.
    let data = [0, 0, 0, 0, 2, 0, 0, 0, 9, 0, 0, 0, 0, 0, 0, 0, 7, 0, 0, 0, 0, 0, 0, 0];
    let mut s = closed_stream(&data);
    let msg = read_message(&mut s, ReaderOptions::new()).unwrap().unwrap();
    assert_eq!(msg.segment_count(), 1);
    assert_eq!(msg.get_segment(0), vec![9u64, 7u64]);
}

#[test]
fn wraparound_count_is_too_few() {
    let data = [255, 255, 255, 255, 0, 0, 0, 0];
    let mut s = closed_stream(&data);
    let r = read_segment_table_first(&mut s, zeroed_bytes(8), 0);
    assert!(matches!(r, Err(Error::TooFewSegments)));
}

#[test]
fn count_boundary_at_limit() {
    // A stored count field of 510 declares 511 segments: accepted.
    let data = [254, 1, 0, 0, 0, 0, 0, 0];
    let mut s = closed_stream(&data);
    let r = read_segment_table_first(&mut s, zeroed_bytes(8), 0).unwrap();
    let (count, first_len) = r.unwrap();
    assert_eq!(count, 511);
    assert_eq!(first_len, 0);

    // A stored count field of 511 declares 512 segments: rejected.
    let data = [255, 1, 0, 0, 0, 0, 0, 0];
    let mut s = closed_stream(&data);
    let r = read_segment_table_first(&mut s, zeroed_bytes(8), 0);
    assert!(matches!(r, Err(Error::TooManySegments { count: 512 })));
}

#[test]
fn traversal_limit_boundary() {
    // Two segments of 4 and 6 words: exactly at a limit of 10, over at 9.
    let segments = vec![vec![5u64; 4], vec![8u64; 6]];
    let data = encode_message(&segments);

    let at_limit = ReaderOptions { traversal_limit_in_words: 10 };
    let msg = decode_byte_by_byte(&data, at_limit);
    assert_eq!(msg.segment_count(), 2);

    let below = ReaderOptions { traversal_limit_in_words: 9 };
    let mut s = closed_stream(&data);
    let r = read_message(&mut s, below);
    assert!(matches!(r, Err(Error::MessageTooLarge { total_words: 10 })));
}

#[test]
fn traversal_limit_single_segment() {
    // The limit binds single-segment messages too.
    let segments = vec![vec![1u64; 3]];
    let data = encode_message(&segments);
    let mut s = closed_stream(&data);
    let r = read_message(&mut s, ReaderOptions { traversal_limit_in_words: 2 });
    assert!(matches!(r, Err(Error::MessageTooLarge { total_words: 3 })));
    let mut s = closed_stream(&data);
    assert!(read_message(&mut s, ReaderOptions { traversal_limit_in_words: 3 }).is_ok());
}

#[test]
fn premature_eof_at_every_truncation() {
    let segments = vec![vec![11u64, 12, 13], vec![], vec![14u64, 15]];
    let data = encode_message(&segments);
    for t in 0..data.len() {
        let mut s = closed_stream(&data[..t]);
        let r = read_message(&mut s, ReaderOptions::new());
        assert!(
            matches!(r, Err(Error::PrematureEof)),
            "truncation at {} must end the stream early",
            t
        );
    }
    let mut s = closed_stream(&data);
    let whole = read_message(&mut s, ReaderOptions::new()).unwrap();
    assert!(matches!(whole, AsyncValue::Complete(_)));
}

#[test]
fn split_decode_equals_one_pass() {
    let segments = vec![vec![3u64, 1, 4, 1, 5], vec![9u64], vec![], vec![2u64, 6]];
    let data = encode_message(&segments);

    let mut whole = closed_stream(&data);
    let one_pass = read_message(&mut whole, ReaderOptions::new()).unwrap().unwrap();

    for cut in 0..=data.len() {
        let mut s = ByteStream::new();
        s.feed(&data[..cut]);
        let mut state = read_message(&mut s, ReaderOptions::new()).unwrap();
        if let AsyncValue::Continue(c) = state {
            s.feed(&data[cut..]);
            s.close();
            state = resume_read(&mut s, c, ReaderOptions::new()).unwrap();
        }
        let msg = state.unwrap();
        assert_eq!(msg.segment_count(), one_pass.segment_count());
        for k in 0..segments.len() {
            assert_eq!(msg.get_segment(k), one_pass.get_segment(k));
        }
    }
}

#[test]
fn continuation_shapes_follow_phases() {
    // 2 segments: 8 table-first bytes, 8 more table bytes, then bodies.
    let segments = vec![vec![1u64], vec![2u64]];
    let data = encode_message(&segments);
    let opts = ReaderOptions::new();

    let mut s = ByteStream::new();
    s.feed(&data[..3]);
    let c = read_message(&mut s, opts).unwrap().unwrap_continuation();
    assert!(matches!(c, ReadContinuation::SegmentTableFirst { idx: 3, .. }));

    s.feed(&data[3..12]);
    let c = resume_read(&mut s, c, opts).unwrap().unwrap_continuation();
    assert!(matches!(c, ReadContinuation::SegmentTableRest { segment_count: 2, first_segment_len: 1, idx: 4, .. }));

    s.feed(&data[12..20]);
    let c = resume_read(&mut s, c, opts).unwrap().unwrap_continuation();
    assert!(matches!(c, ReadContinuation::Segments { idx: 4, .. }));

    s.feed(&data[20..]);
    let msg = resume_read(&mut s, c, opts).unwrap().unwrap();
    assert_eq!(msg.get_segment(0), vec![1u64]);
    assert_eq!(msg.get_segment(1), vec![2u64]);
}

#[test]
fn trailing_bytes_stay_unconsumed() {
    // The decoder consumes exactly one message and leaves the rest.
    let segments = vec![vec![5u64], vec![6u64]];
    let mut data = encode_message(&segments);
    data.extend([0xAA, 0xBB, 0xCC]);
    let mut s = closed_stream(&data);
    let msg = read_message(&mut s, ReaderOptions::new()).unwrap().unwrap();
    assert_eq!(msg.segment_count(), 2);
    assert_eq!(s.available_len(), 3);
}

#[test]
fn encode_message_exact_bytes() {
    // The concrete wire shapes: one empty segment, and two one-word segments
    // with a padding word closing the table.
    assert_eq!(encode_message(&vec![vec![]]), vec![0u8; 8]);
    let enc = encode_message(&vec![vec![0x0807060504030201u64], vec![0x100000000u64]]);
    assert_eq!(
        enc,
        vec![
            1, 0, 0, 0, // 2 segments
            1, 0, 0, 0, // 1 length
            1, 0, 0, 0, // 1 length
            0, 0, 0, 0, // padding
            1, 2, 3, 4, 5, 6, 7, 8, // first word
            0, 0, 0, 0, 1, 0, 0, 0, // second word
        ]
    );
}
