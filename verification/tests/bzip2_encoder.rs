use lib::bit_reader::{ByteSource, LeftBitReader};
use lib::bzip2::decoder::BZip2Decoder;
use lib::bzip2::encoder::BZip2Encoder;
use lib::compress::Action;
use lib::error::CompressionError;

fn bzip2(input: &[u8], level: usize) -> Result<Vec<u8>, CompressionError> {
    let mut encoder = BZip2Encoder::new(level);
    let mut src = ByteSource::new(input.to_vec());
    let mut out = Vec::new();
    loop {
        match encoder.next(&mut src, Action::Finish) {
            Some(Ok(b)) => out.push(b),
            Some(Err(e)) => return Err(e),
            None => return Ok(out),
        }
    }
}

fn bunzip2(bytes: Vec<u8>) -> Vec<u8> {
    let mut reader = LeftBitReader::new(ByteSource::new(bytes));
    let mut decoder = BZip2Decoder::new();
    let mut out = Vec::new();
    loop {
        match decoder.next(&mut reader).unwrap() {
            Some(c) => out.push(c),
            None => return out,
        }
    }
}

#[test]
fn bzip2_test_unit() {
    let ret = bzip2(b"a\n", 9);
    assert_eq!(
        ret,
        Ok(vec![
            0x42, 0x5A, 0x68, 0x39, 0x31, 0x41, 0x59, 0x26, 0x53, 0x59, 0x63, 0x3E, 0xD6, 0xE2, 0x00, 0x00, 0x00, 0xC1,
            0x00, 0x00, 0x10, 0x20, 0x00, 0x20, 0x00, 0x21, 0x00, 0x82, 0xB1, 0x77, 0x24, 0x53, 0x85, 0x09, 0x06, 0x33,
            0xED, 0x6E, 0x20,
        ])
    );
    assert_eq!(bunzip2(ret.unwrap()), b"a\n".to_vec());
}

#[test]
fn bzip2_test_long() {
    let data = b"a".iter().cycle().take(1000).cloned().collect::<Vec<u8>>();
    let compressed = bzip2(&data, 9).unwrap();
    assert_eq!(bunzip2(compressed), data);
}

#[test]
fn bzip2_round_trip_text() {
    let mut data = Vec::new();
    for i in 0..20000u32 {
        data.extend_from_slice(format!("line {} of the text, {}\n", i, i % 7).as_bytes());
    }
    let compressed = bzip2(&data, 1).unwrap();
    assert!(compressed.len() < data.len() / 4);
    assert_eq!(bunzip2(compressed), data);
}

#[test]
fn bzip2_round_trip_noise_two_blocks() {
    let mut data = Vec::new();
    let mut x: u32 = 7;
    for _ in 0..250000 {
        x = x.wrapping_mul(1103515245).wrapping_add(12345);
        data.push((x >> 16) as u8);
    }
    let compressed = bzip2(&data, 2).unwrap();
    assert_eq!(bunzip2(compressed), data);
}

#[test]
fn bzip2_round_trip_empty() {
    let compressed = bzip2(b"", 9).unwrap();
    assert_eq!(bunzip2(compressed), Vec::<u8>::new());
}
