use lib::bit_reader::{ByteSource, LeftBitReader};
use lib::bzip2::decoder::{BZip2Decoder, BlockRandomise};
use lib::bzip2::error::BZip2Error;

fn decode_all(bytes: Vec<u8>) -> Result<Vec<u8>, BZip2Error> {
    let mut reader = LeftBitReader::new(ByteSource::new(bytes));
    let mut decoder = BZip2Decoder::new();
    let mut out = Vec::new();
    loop {
        match decoder.next(&mut reader)? {
            Some(c) => out.push(c),
            None => return Ok(out),
        }
    }
}

const A_NEWLINE: [u8; 39] = [
    0x42, 0x5A, 0x68, 0x39, 0x31, 0x41, 0x59, 0x26, 0x53, 0x59, 0x63, 0x3E, 0xD6, 0xE2, 0x00,
    0x00, 0x00, 0xC1, 0x00, 0x00, 0x10, 0x20, 0x00, 0x20, 0x00, 0x21, 0x00, 0x82, 0xB1, 0x77,
    0x24, 0x53, 0x85, 0x09, 0x06, 0x33, 0xED, 0x6E, 0x20,
];

const ABC: [u8; 38] = [
    0x42, 0x5a, 0x68, 0x39, 0x31, 0x41, 0x59, 0x26, 0x53, 0x59, 0x64, 0x8c, 0xbb, 0x73, 0x00,
    0x00, 0x00, 0x01, 0x00, 0x38, 0x00, 0x20, 0x00, 0x21, 0x98, 0x19, 0x84, 0x61, 0x77, 0x24,
    0x53, 0x85, 0x09, 0x06, 0x48, 0xcb, 0xb7, 0x30,
];

const DEF: [u8; 38] = [
    0x42, 0x5a, 0x68, 0x39, 0x31, 0x41, 0x59, 0x26, 0x53, 0x59, 0x42, 0x3c, 0xb0, 0xf9, 0x00,
    0x00, 0x00, 0x01, 0x00, 0x07, 0x00, 0x20, 0x00, 0x21, 0x98, 0x19, 0x84, 0x61, 0x77, 0x24,
    0x53, 0x85, 0x09, 0x04, 0x23, 0xcb, 0x0f, 0x90,
];

#[test]
fn bzip2_decodes_a_newline() {
    assert_eq!(decode_all(A_NEWLINE.to_vec()), Ok(b"a\n".to_vec()));
}

#[test]
fn bzip2_decodes_long_run() {
    let bytes = vec![
        0x42, 0x5a, 0x68, 0x39, 0x31, 0x41, 0x59, 0x26, 0x53, 0x59, 0x49, 0xdc, 0x4f, 0x63, 0x00,
        0x00, 0x01, 0x81, 0x01, 0xa0, 0x00, 0x00, 0x80, 0x00, 0x08, 0x20, 0x00, 0x20, 0xaa, 0x6d,
        0x41, 0x98, 0xba, 0x83, 0xc5, 0xdc, 0x91, 0x4e, 0x14, 0x24, 0x12, 0x77, 0x13, 0xd8, 0xc0,
    ];
    assert_eq!(decode_all(bytes), Ok(vec![b'a'; 1000]));
}

#[test]
fn bzip2_decodes_repeated_text() {
    let bytes = vec![
        0x42, 0x5a, 0x68, 0x39, 0x31, 0x41, 0x59, 0x26, 0x53, 0x59, 0x43, 0xb1, 0x86, 0x33, 0x00,
        0x00, 0xd4, 0x51, 0x80, 0x00, 0x10, 0x40, 0x00, 0x06, 0x44, 0x90, 0x80, 0x20, 0x00, 0x48,
        0x29, 0x51, 0x1b, 0x48, 0x0a, 0x55, 0x18, 0x0d, 0xa2, 0xc5, 0x23, 0x11, 0x62, 0x91, 0xea,
        0x2e, 0x11, 0x75, 0x17, 0x54, 0x8d, 0x14, 0x8e, 0xa2, 0xe2, 0x2d, 0x22, 0xf0, 0xbb, 0x92,
        0x29, 0xc2, 0x84, 0x82, 0x1d, 0x8c, 0x31, 0x98,
    ];
    let mut expected = Vec::new();
    for _ in 0..50 {
        expected.extend_from_slice(b"hello hello hello world\n");
    }
    assert_eq!(decode_all(bytes), Ok(expected));
}

#[test]
fn bzip2_decodes_empty_stream() {
    let bytes = vec![0x42, 0x5a, 0x68, 0x39, 0x17, 0x72, 0x45, 0x38, 0x50, 0x90, 0x00, 0x00, 0x00, 0x00];
    assert_eq!(decode_all(bytes), Ok(Vec::new()));
}

#[test]
fn bzip2_decodes_two_streams_in_a_row() {
    let mut bytes = ABC.to_vec();
    bytes.extend_from_slice(&DEF);
    assert_eq!(decode_all(bytes), Ok(b"abcdef".to_vec()));
}

#[test]
fn bzip2_empty_input_is_not_bzip2() {
    assert_eq!(decode_all(Vec::new()), Err(BZip2Error::DataErrorMagicFirst));
}

#[test]
fn bzip2_bad_block_size_digit() {
    let mut bytes = A_NEWLINE.to_vec();
    bytes[3] = b'0';
    assert_eq!(decode_all(bytes), Err(BZip2Error::DataErrorMagicFirst));
}

#[test]
fn bzip2_bad_second_header_is_magic_error() {
    let mut bytes = ABC.to_vec();
    bytes.extend_from_slice(&[0x42, 0x5a, 0x68, 0x30]);
    assert_eq!(decode_all(bytes), Err(BZip2Error::DataErrorMagic));
}

#[test]
fn bzip2_truncated_stream() {
    let bytes = A_NEWLINE[..20].to_vec();
    assert_eq!(decode_all(bytes), Err(BZip2Error::UnexpectedEof));
}

#[test]
fn bzip2_wrong_block_crc() {
    let mut bytes = A_NEWLINE.to_vec();
    bytes[10] ^= 0x01;
    assert_eq!(decode_all(bytes), Err(BZip2Error::DataError));
}

#[test]
fn bzip2_wrong_stream_crc() {
    let mut bytes = A_NEWLINE.to_vec();
    bytes[36] ^= 0x10;
    assert_eq!(decode_all(bytes), Err(BZip2Error::DataError));
}

#[test]
fn bzip2_bad_block_marker() {
    let mut bytes = A_NEWLINE.to_vec();
    bytes[4] = 0x32;
    assert_eq!(decode_all(bytes), Err(BZip2Error::DataError));
}

#[test]
fn bzip2_randomise_first_flip() {
    let mut r = BlockRandomise::new();
    let mut calls = 0;
    loop {
        calls += 1;
        if r.next() {
            break;
        }
    }
    assert_eq!(calls, 618);
}

#[test]
fn bzip2_bad_third_magic_byte() {
    let bytes = vec![0x42, 0x5A, 0x78, 0x39, 0x17, 0x72, 0x45, 0x38, 0x50, 0x90, 0x00, 0x00, 0x00, 0x00];
    assert_eq!(decode_all(bytes), Err(BZip2Error::DataErrorMagicFirst));
}

#[test]
fn bzip2_bad_block_magic() {
    let mut bytes = A_NEWLINE.to_vec();
    bytes[6] = 0x00;
    assert_eq!(decode_all(bytes), Err(BZip2Error::DataError));
}

#[test]
fn bzip2_empty_stream() {
    let bytes = vec![0x42, 0x5A, 0x68, 0x39, 0x17, 0x72, 0x45, 0x38, 0x50, 0x90, 0x00, 0x00, 0x00, 0x00];
    assert_eq!(decode_all(bytes), Ok(Vec::new()));
}
