use lib::bit_reader::ByteSource;
use lib::compress::Action;
use lib::error::CompressionError;
use lib::lz4::decoder::Lz4Decoder;
use lib::lz4::encoder::{compress_bound, Lz4Encoder};

fn lz4(input: &[u8], action: Action) -> Result<Vec<u8>, CompressionError> {
    let mut encoder = Lz4Encoder::new();
    let mut src = ByteSource::new(input.to_vec());
    let mut out = Vec::new();
    loop {
        match encoder.next(&mut src, action) {
            Some(Ok(b)) => out.push(b),
            Some(Err(e)) => return Err(e),
            None => return Ok(out),
        }
    }
}

fn unlz4(bytes: Vec<u8>) -> Result<Vec<u8>, CompressionError> {
    let mut src = ByteSource::new(bytes);
    let mut decoder = Lz4Decoder::new();
    let mut out = Vec::new();
    loop {
        match decoder.next(&mut src)? {
            Some(b) => out.push(b),
            None => return Ok(out),
        }
    }
}

#[test]
fn lz4_encoder_stores_block() {
    assert_eq!(
        lz4(b"abc", Action::Finish),
        Ok(vec![
            0x04, 0x22, 0x4d, 0x18, 0x60, 0x50, 0xfb, 0x03, 0x00, 0x00, 0x80, b'a', b'b', b'c', 0, 0, 0, 0, 0, 0, 0,
            0,
        ])
    );
}

#[test]
fn lz4_encoder_empty() {
    assert_eq!(lz4(b"", Action::Finish), Ok(vec![0x04, 0x22, 0x4d, 0x18, 0x60, 0x50, 0xfb, 0, 0, 0, 0, 0, 0, 0, 0]));
}

#[test]
fn lz4_encoder_run_does_not_end() {
    assert_eq!(lz4(b"abc", Action::Run), Ok(vec![0x04, 0x22, 0x4d, 0x18, 0x60, 0x50, 0xfb]));
}

#[test]
fn lz4_encoder_round_trip() {
    let input: Vec<u8> = (0..300000u32).map(|i| (i % 253) as u8).collect();
    let out = lz4(&input, Action::Finish).unwrap();
    assert_eq!(out.len(), 7 + 4 + 262144 + 4 + (300000 - 262144) + 8);
    assert_eq!(unlz4(out), Ok(input));
}

#[test]
fn lz4_compress_bound() {
    assert_eq!(compress_bound(0), 16);
    assert_eq!(compress_bound(510), 528);
    assert_eq!(compress_bound(0x7E00_0001), 0);
}
