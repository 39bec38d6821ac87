use std::io::Cursor;
use std::io::Read;

use capnp_framing::error::Error;
use capnp_framing::io::async_read_all;
use capnp_framing::text::new_reader;
use capnp_framing::text::Builder;

#[test]
fn new_reader_accepts_utf8() {
    let r = new_reader("grüße".as_bytes()).unwrap();
    assert_eq!(r, "grüße");
}

#[test]
fn new_reader_rejects_invalid_bytes() {
    let r = new_reader(&[0x67, 0xFF, 0xFE]);
    assert!(matches!(r, Err(Error::NonUtf8Text)));
}

#[test]
fn builder_push_and_clear() {
    let mut b = Builder::new(vec![0u8; 8], 0).unwrap();
    b.push_ascii(b'h');
    b.push_ascii(b'i');
    b.push_str("ya!");
    assert_eq!(b.pos, 5);
    assert_eq!(b.bytes, vec![b'h', b'i', b'y', b'a', b'!', 0, 0, 0]);
    b.clear();
    assert_eq!(b.pos, 0);
    assert_eq!(b.bytes, vec![0u8; 8]);
}

#[test]
fn builder_new_validates_resumed_text() {
    let r = Builder::new(vec![0xFF, 0xFF], 1);
    assert!(matches!(r, Err(Error::NonUtf8Text)));
    let ok = Builder::new(vec![b'o', b'k'], 2).unwrap();
    assert_eq!(ok.pos, 2);
}

#[test]
fn async_read_all_fills_from_stream() {
    let mut cur = Cursor::new(vec![1u8, 2, 3, 4]);
    let mut buf = vec![0u8; 4];
    let n = async_read_all(&mut cur, &mut buf, 0).unwrap();
    assert_eq!(n, 4);
    assert_eq!(buf, vec![1, 2, 3, 4]);
}

#[test]
fn async_read_all_premature_eof() {
    let mut cur = Cursor::new(vec![1u8, 2]);
    let mut buf = vec![0u8; 4];
    let r = async_read_all(&mut cur, &mut buf, 0);
    assert!(matches!(r, Err(Error::PrematureEof)));
}

struct Trickle {
    data: Vec<u8>,
    pos: usize,
    end: usize,
    interrupts: usize,
}

impl Read for Trickle {
    fn read(&mut self, buf: &mut [u8]) -> std::io::Result<usize> {
        if self.interrupts > 0 {
            self.interrupts -= 1;
            return Err(std::io::Error::new(std::io::ErrorKind::Interrupted, "again"));
        }
        if self.pos >= self.end {
            return Err(std::io::Error::new(std::io::ErrorKind::WouldBlock, "dry"));
        }
        if buf.is_empty() || self.pos >= self.data.len() {
            return Ok(0);
        }
        buf[0] = self.data[self.pos];
        self.pos += 1;
        Ok(1)
    }
}

#[test]
fn async_read_all_stops_at_would_block() {
    // An interrupted read is retried invisibly; a would-block read ends the
    // drain with a partial fill.
    let mut src = Trickle { data: vec![9u8, 8, 7, 6], pos: 0, end: 2, interrupts: 1 };
    let mut buf = vec![0u8; 4];
    let n = async_read_all(&mut src, &mut buf, 0).unwrap();
    assert_eq!(n, 2);
    assert_eq!(buf, vec![9, 8, 0, 0]);
}

struct Broken;

impl Read for Broken {
    fn read(&mut self, _buf: &mut [u8]) -> std::io::Result<usize> {
        Err(std::io::Error::new(std::io::ErrorKind::ConnectionReset, "gone"))
    }
}

#[test]
fn async_read_all_passes_stream_errors_on() {
    let mut src = Broken;
    let mut buf = vec![0u8; 2];
    let r = async_read_all(&mut src, &mut buf, 0);
    match r {
        Err(Error::Stream(e)) => assert_eq!(e.kind(), std::io::ErrorKind::ConnectionReset),
        _ => panic!("expected the stream error to come through unchanged"),
    }
}
