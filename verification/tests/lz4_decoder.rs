use lib::bit_reader::ByteSource;
use lib::error::CompressionError;
use lib::lz4::decoder::Lz4Decoder;

fn unlz4(bytes: Vec<u8>) -> Result<Vec<u8>, CompressionError> {
    let mut src = ByteSource::new(bytes);
    let mut decoder = Lz4Decoder::new();
    let mut out = Vec::new();
    loop {
        match decoder.next(&mut src)? {
            Some(b) => out.push(b),
            None => return Ok(out),
        }
    }
}

fn hello_frame() -> Vec<u8> {
    vec![
        0x04, 0x22, 0x4d, 0x18, 0x40, 0x40, 0xc0, 0x0f, 0x00, 0x00, 0x00, 0x62, 0x68, 0x65, 0x6c,
        0x6c, 0x6f, 0x20, 0x06, 0x00, 0x50, 0x68, 0x65, 0x6c, 0x6c, 0x6f, 0x00, 0x00, 0x00, 0x00,
    ]
}

#[test]
fn lz4_literals_and_match() {
    assert_eq!(unlz4(hello_frame()), Ok(b"hello hello hello".to_vec()));
}

#[test]
fn lz4_long_literal_run() {
    let bytes = vec![
        0x04, 0x22, 0x4d, 0x18, 0x40, 0x40, 0xc0, 0x16, 0x00, 0x00, 0x00, 0xf0, 0x05, 0x61, 0x62,
        0x63, 0x64, 0x65, 0x66, 0x67, 0x68, 0x69, 0x6a, 0x6b, 0x6c, 0x6d, 0x6e, 0x6f, 0x70, 0x71,
        0x72, 0x73, 0x74, 0x00, 0x00, 0x00, 0x00,
    ];
    assert_eq!(unlz4(bytes), Ok(b"abcdefghijklmnopqrst".to_vec()));
}

#[test]
fn lz4_overlapping_match() {
    let bytes = vec![
        0x04, 0x22, 0x4d, 0x18, 0x40, 0x40, 0xc0, 0x06, 0x00, 0x00, 0x00, 0x16, 0x61, 0x01, 0x00,
        0x10, 0x62, 0x00, 0x00, 0x00, 0x00,
    ];
    let mut expected = vec![b'a'; 11];
    expected.push(b'b');
    assert_eq!(unlz4(bytes), Ok(expected));
}

#[test]
fn lz4_stored_then_compressed_block() {
    let bytes = vec![
        0x04, 0x22, 0x4d, 0x18, 0x40, 0x40, 0xc0, 0x03, 0x00, 0x00, 0x80, 0x78, 0x79, 0x7a, 0x0f,
        0x00, 0x00, 0x00, 0x62, 0x68, 0x65, 0x6c, 0x6c, 0x6f, 0x20, 0x06, 0x00, 0x50, 0x68, 0x65,
        0x6c, 0x6c, 0x6f, 0x00, 0x00, 0x00, 0x00,
    ];
    assert_eq!(unlz4(bytes), Ok(b"xyzhello hello hello".to_vec()));
}

#[test]
fn lz4_block_checksum() {
    let bytes = vec![
        0x04, 0x22, 0x4d, 0x18, 0x50, 0x40, 0xc0, 0x0f, 0x00, 0x00, 0x00, 0x62, 0x68, 0x65, 0x6c,
        0x6c, 0x6f, 0x20, 0x06, 0x00, 0x50, 0x68, 0x65, 0x6c, 0x6c, 0x6f, 0xb1, 0xcd, 0x9b, 0x87,
        0x00, 0x00, 0x00, 0x00,
    ];
    assert_eq!(unlz4(bytes.clone()), Ok(b"hello hello hello".to_vec()));
    let mut bad = bytes;
    bad[26] ^= 1;
    assert_eq!(unlz4(bad), Err(CompressionError::DataError));
}

#[test]
fn lz4_content_size_in_header() {
    let bytes = vec![
        0x04, 0x22, 0x4d, 0x18, 0x48, 0x40, 0x03, 0x00, 0x00, 0x00, 0x00, 0x00, 0x00, 0x00, 0x0f,
        0x03, 0x00, 0x00, 0x80, 0x78, 0x79, 0x7a, 0x00, 0x00, 0x00, 0x00,
    ];
    assert_eq!(unlz4(bytes), Ok(b"xyz".to_vec()));
}

#[test]
fn lz4_empty_frame() {
    let bytes = vec![0x04, 0x22, 0x4d, 0x18, 0x40, 0x40, 0xc0, 0x00, 0x00, 0x00, 0x00];
    assert_eq!(unlz4(bytes), Ok(Vec::new()));
}

#[test]
fn lz4_bad_magic() {
    let mut bytes = hello_frame();
    bytes[0] = 0x05;
    assert_eq!(unlz4(bytes), Err(CompressionError::DataError));
}

#[test]
fn lz4_bad_version() {
    let mut bytes = hello_frame();
    bytes[4] = 0x80;
    assert_eq!(unlz4(bytes), Err(CompressionError::DataError));
}

#[test]
fn lz4_bad_header_checksum() {
    let mut bytes = hello_frame();
    bytes[6] = 0xc1;
    assert_eq!(unlz4(bytes), Err(CompressionError::DataError));
}

#[test]
fn lz4_zero_offset() {
    let mut bytes = hello_frame();
    bytes[18] = 0x00;
    assert_eq!(unlz4(bytes), Err(CompressionError::DataError));
}

#[test]
fn lz4_offset_past_start() {
    let mut bytes = hello_frame();
    bytes[18] = 0x07;
    assert_eq!(unlz4(bytes), Err(CompressionError::DataError));
}

#[test]
fn lz4_truncated() {
    let bytes = hello_frame()[..15].to_vec();
    assert_eq!(unlz4(bytes), Err(CompressionError::UnexpectedEof));
}

#[test]
fn lz4_no_end_mark() {
    let bytes = hello_frame()[..26].to_vec();
    let mut src = ByteSource::new(bytes);
    let mut decoder = Lz4Decoder::new();
    let mut out = Vec::new();
    let r = loop {
        match decoder.next(&mut src) {
            Ok(Some(b)) => out.push(b),
            other => break other,
        }
    };
    assert_eq!(out, b"hello hello hello".to_vec());
    assert_eq!(r, Err(CompressionError::UnexpectedEof));
}
