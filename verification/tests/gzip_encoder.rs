use lib::bit_reader::{ByteSource, RightBitReader};
use lib::compress::Action;
use lib::error::CompressionError;
use lib::gzip::decoder::GZipDecoder;
use lib::gzip::encoder::GZipEncoder;

fn gzip(input: &[u8]) -> Result<Vec<u8>, CompressionError> {
    let mut encoder = GZipEncoder::new();
    let mut src = ByteSource::new(input.to_vec());
    let mut out = Vec::new();
    loop {
        match encoder.next(&mut src, Action::Finish) {
            Some(Ok(b)) => out.push(b),
            Some(Err(e)) => return Err(e),
            None => return Ok(out),
        }
    }
}

fn gunzip(bytes: Vec<u8>) -> Result<Vec<u8>, CompressionError> {
    let mut reader = RightBitReader::new(ByteSource::new(bytes));
    let mut decoder = GZipDecoder::new();
    let mut out = Vec::new();
    loop {
        match decoder.next(&mut reader)? {
            Some(b) => out.push(b),
            None => return Ok(out),
        }
    }
}

fn check(testarray: &[u8]) {
    let encoded = gzip(testarray);
    let decoded = gunzip(encoded.unwrap()).unwrap();
    assert_eq!(testarray.to_vec(), decoded);
}

#[test]
fn gzip_encoder_test_unit() {
    assert_eq!(
        gzip(b"a"),
        Ok(vec![
            0x1f, 0x8b, 0x08, 0x00, 0x00, 0x00, 0x00, 0x00, 0x00, 0xFF, 0x4b, 0x04, 0x00, 0x43, 0xbe, 0xb7, 0xe8,
            0x01, 0x00, 0x00, 0x00,
        ])
    );
}

#[test]
fn mod_test_empty() {
    check(&[]);
}

#[test]
fn mod_test_unit() {
    check(b"a");
}

#[test]
fn mod_test_arr() {
    check(b"aaaaaaaaaaa");
}

#[test]
fn mod_test_std() {
    check(b"aabbaabbaaabbbaaabbbaabbaabb");
}

#[test]
fn mod_test_long() {
    check(&(b"a".iter().cycle().take(260).cloned().collect::<Vec<u8>>()));
}

#[test]
fn gzip_trailer_holds_crc_and_size() {
    let out = gzip(b"hello world").unwrap();
    let n = out.len();
    assert_eq!(&out[n - 8..n - 4], &[0x85, 0x11, 0x4a, 0x0d]);
    assert_eq!(&out[n - 4..], &[11, 0, 0, 0]);
}

#[test]
fn gzip_round_trip_multiblock() {
    let mut input = Vec::new();
    let mut x: u32 = 12345;
    for _ in 0..150000 {
        x = x.wrapping_mul(1103515245).wrapping_add(12345);
        input.push((x >> 16) as u8);
    }
    check(&input);
}

fn noise(n: usize, seed: u32) -> Vec<u8> {
    let mut x = seed;
    let mut v = Vec::with_capacity(n);
    for _ in 0..n {
        x ^= x << 13;
        x ^= x >> 17;
        x ^= x << 5;
        v.push((x >> 8) as u8);
    }
    v
}

#[test]
fn mod_test_multiblocks() {
    check(&noise(323_742, 0x0BAD_5EED));
}

#[test]
fn mod_test_multiblocks2() {
    check(&noise(323_742, 0x1234_5678));
}

#[test]
fn mod_test_multiblocks3() {
    check(&noise(0xF_FFFF, 0x9E37_79B9));
}

#[test]
fn mod_test_multiblocks6() {
    check(&noise(6, 0x2545_F491));
}

#[test]
fn mod_test_multiblocks4() {
    check(&noise(0x10_000, 0x2545_F491));
}

#[test]
fn mod_test_multiblocks5() {
    check(&noise(0x10_0001, 0x2545_F491));
}
