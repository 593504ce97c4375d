use lib::bit_reader::{ByteSource, RightBitReader};
use lib::error::CompressionError;
use lib::gzip::decoder::GZipDecoder;

fn gunzip(bytes: Vec<u8>) -> Result<Vec<u8>, CompressionError> {
    let mut reader = RightBitReader::new(ByteSource::new(bytes));
    let mut decoder = GZipDecoder::new();
    let mut out = Vec::new();
    loop {
        match decoder.next(&mut reader)? {
            Some(b) => out.push(b),
            None => return Ok(out),
        }
    }
}

fn plain() -> Vec<u8> {
    vec![
        0x1f, 0x8b, 0x08, 0x00, 0x00, 0x00, 0x00, 0x00, 0x02, 0x03, 0xcb, 0x48, 0xcd, 0xc9, 0xc9,
        0x57, 0x28, 0xcf, 0x2f, 0xca, 0x49, 0x01, 0x00, 0x85, 0x11, 0x4a, 0x0d, 0x0b, 0x00, 0x00,
        0x00,
    ]
}

#[test]
fn gzip_plain() {
    assert_eq!(gunzip(plain()), Ok(b"hello world".to_vec()));
}

#[test]
fn gzip_empty() {
    let bytes = vec![
        0x1f, 0x8b, 0x08, 0x00, 0x00, 0x00, 0x00, 0x00, 0x02, 0x03, 0x03, 0x00, 0x00, 0x00, 0x00,
        0x00, 0x00, 0x00, 0x00, 0x00,
    ];
    assert_eq!(gunzip(bytes), Ok(Vec::new()));
}

#[test]
fn gzip_extra_field() {
    let bytes = vec![
        0x1f, 0x8b, 0x08, 0x04, 0x00, 0x00, 0x00, 0x00, 0x00, 0xff, 0x03, 0x00, 0x61, 0x62, 0x63,
        0xcb, 0xc8, 0x04, 0x00, 0xac, 0x2a, 0x93, 0xd8, 0x02, 0x00, 0x00, 0x00,
    ];
    assert_eq!(gunzip(bytes), Ok(b"hi".to_vec()));
}

#[test]
fn gzip_file_name() {
    let bytes = vec![
        0x1f, 0x8b, 0x08, 0x08, 0x00, 0x00, 0x00, 0x00, 0x00, 0xff, 0x6e, 0x61, 0x6d, 0x65, 0x00,
        0xcb, 0xc8, 0x04, 0x00, 0xac, 0x2a, 0x93, 0xd8, 0x02, 0x00, 0x00, 0x00,
    ];
    assert_eq!(gunzip(bytes), Ok(b"hi".to_vec()));
}

#[test]
fn gzip_header_crc() {
    let bytes = vec![
        0x1f, 0x8b, 0x08, 0x02, 0x00, 0x00, 0x00, 0x00, 0x00, 0xff, 0x90, 0xc9, 0xcb, 0xc8, 0x04,
        0x00, 0xac, 0x2a, 0x93, 0xd8, 0x02, 0x00, 0x00, 0x00,
    ];
    assert_eq!(gunzip(bytes), Ok(b"hi".to_vec()));
}

#[test]
fn gzip_bad_header_crc() {
    let bytes = vec![
        0x1f, 0x8b, 0x08, 0x02, 0x00, 0x00, 0x00, 0x00, 0x00, 0xff, 0x91, 0xc9, 0xcb, 0xc8, 0x04,
        0x00, 0xac, 0x2a, 0x93, 0xd8, 0x02, 0x00, 0x00, 0x00,
    ];
    assert_eq!(gunzip(bytes), Err(CompressionError::DataError));
}

#[test]
fn gzip_bad_magic() {
    let mut bytes = plain();
    bytes[1] = 0x8c;
    assert_eq!(gunzip(bytes), Err(CompressionError::DataError));
}

#[test]
fn gzip_bad_method() {
    let mut bytes = plain();
    bytes[2] = 0x07;
    assert_eq!(gunzip(bytes), Err(CompressionError::DataError));
}

#[test]
fn gzip_reserved_flag() {
    let mut bytes = plain();
    bytes[3] = 0x20;
    assert_eq!(gunzip(bytes), Err(CompressionError::DataError));
}

#[test]
fn gzip_bad_data_crc() {
    let mut bytes = plain();
    bytes[23] ^= 0x01;
    assert_eq!(gunzip(bytes), Err(CompressionError::DataError));
}

#[test]
fn gzip_bad_size() {
    let mut bytes = plain();
    bytes[27] = 12;
    assert_eq!(gunzip(bytes), Err(CompressionError::DataError));
}

#[test]
fn gzip_truncated_header() {
    assert_eq!(gunzip(plain()[..6].to_vec()), Err(CompressionError::UnexpectedEof));
}

#[test]
fn gzip_truncated_trailer() {
    let bytes = plain();
    let n = bytes.len();
    assert_eq!(gunzip(bytes[..n - 2].to_vec()), Err(CompressionError::UnexpectedEof));
}
