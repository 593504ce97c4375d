use lib::bit_reader::{ByteSource, RightBitReader};
use lib::deflate::decoder::Deflater;
use lib::error::CompressionError;

fn inflate_with(mut decoder: Deflater, bytes: Vec<u8>) -> Result<Vec<u8>, CompressionError> {
    let mut reader = RightBitReader::new(ByteSource::new(bytes));
    let mut out = Vec::new();
    loop {
        match decoder.next(&mut reader) {
            Some(Ok(b)) => out.push(b),
            Some(Err(e)) => return Err(e),
            None => return Ok(out),
        }
    }
}

fn inflate(bytes: Vec<u8>) -> Result<Vec<u8>, CompressionError> {
    inflate_with(Deflater::new(), bytes)
}

fn repeated_lines() -> Vec<u8> {
    let mut v = Vec::new();
    for i in 0..60 {
        v.extend_from_slice(format!("line {} of some text that repeats a lot\n", i % 7).as_bytes());
    }
    v
}

#[test]
fn deflate_stored_block() {
    let bytes = vec![0x01, 0x05, 0x00, 0xfa, 0xff, 0x68, 0x65, 0x6c, 0x6c, 0x6f];
    assert_eq!(inflate(bytes), Ok(b"hello".to_vec()));
}

#[test]
fn deflate_fixed_block_with_copies() {
    let bytes = vec![0xcb, 0x48, 0xcd, 0xc9, 0xc9, 0x57, 0xc8, 0x40, 0x90, 0x00];
    assert_eq!(inflate(bytes), Ok(b"hello hello hello".to_vec()));
}

#[test]
fn deflate_dynamic_block() {
    let bytes = vec![
        0xed, 0xd0, 0xb9, 0x0d, 0x80, 0x40, 0x0c, 0x04, 0xc0, 0x9c, 0x2a, 0xb6, 0x04, 0xfe, 0x7e,
        0x1c, 0x18, 0x81, 0x74, 0x87, 0x11, 0xe7, 0x80, 0xf2, 0x11, 0x1d, 0x6c, 0xce, 0xe6, 0x13,
        0x4d, 0x39, 0x4e, 0x47, 0x8f, 0xd8, 0xd0, 0xa2, 0x3a, 0xd2, 0x9f, 0x44, 0xee, 0x96, 0xb8,
        0xfd, 0x72, 0xcb, 0x06, 0x43, 0x89, 0xec, 0xca, 0xc7, 0x06, 0x8e, 0x8d, 0x1c, 0x9b, 0x38,
        0x36, 0x73, 0x6c, 0xe1, 0xd8, 0xca, 0x31, 0x85, 0x28, 0x44, 0x21, 0x0a, 0x51, 0x88, 0x42,
        0x14, 0xf2, 0xf7, 0x90, 0x17,
    ];
    assert_eq!(inflate(bytes), Ok(repeated_lines()));
}

#[test]
fn deflate_overlapping_copy() {
    let bytes = vec![0x4b, 0x4c, 0x1c, 0x05, 0xc4, 0x02, 0x00];
    assert_eq!(inflate(bytes), Ok(vec![b'a'; 300]));
}

#[test]
fn deflate_empty() {
    assert_eq!(inflate(vec![0x03, 0x00]), Ok(Vec::new()));
}

#[test]
fn deflate_with_dictionary() {
    let decoder = Deflater::with_dict(b"hello world");
    assert_eq!(inflate_with(decoder, vec![0xcb, 0x40, 0x30, 0x01]), Ok(b"hello world".to_vec()));
}

#[test]
fn deflate_reference_before_start_is_error() {
    assert_eq!(inflate(vec![0xcb, 0x40, 0x30, 0x01]), Err(CompressionError::DataError));
}

#[test]
fn deflate_reserved_block_type() {
    assert_eq!(inflate(vec![0x07, 0x00]), Err(CompressionError::DataError));
}

#[test]
fn deflate_bad_stored_length_check() {
    let bytes = vec![0x01, 0x05, 0x00, 0xfb, 0xff, 0x68, 0x65, 0x6c, 0x6c, 0x6f];
    assert_eq!(inflate(bytes), Err(CompressionError::DataError));
}

#[test]
fn deflate_truncated() {
    let bytes = vec![0x01, 0x05, 0x00, 0xfa, 0xff, 0x68, 0x65];
    assert_eq!(inflate(bytes), Err(CompressionError::UnexpectedEof));
}

#[test]
fn deflate_no_input() {
    assert_eq!(inflate(Vec::new()), Err(CompressionError::UnexpectedEof));
}
