use lib::bit_reader::ByteSource;
use lib::compress::Action;
use lib::error::CompressionError;
use lib::lzhuf::encoder::LzhufEncoder;
use lib::lzhuf_compression::LzhufCompression;

fn lzh(input: &[u8]) -> Result<Vec<u8>, CompressionError> {
    let mut encoder = LzhufEncoder::new(&LzhufCompression::Lh7);
    let mut src = ByteSource::new(input.to_vec());
    let mut out = Vec::new();
    loop {
        match encoder.next(&mut src, Action::Finish) {
            Some(Ok(b)) => out.push(b),
            Some(Err(e)) => return Err(e),
            None => return Ok(out),
        }
    }
}

/// Packs runs of bits, most significant bit first, padding the last byte.
fn pack(runs: &[(u32, usize)]) -> Vec<u8> {
    let mut out = Vec::new();
    let mut acc: u64 = 0;
    let mut n = 0;
    for &(d, l) in runs {
        acc = (acc << l) | (d as u64 & ((1u64 << l) - 1));
        n += l;
        while n >= 8 {
            out.push((acc >> (n - 8)) as u8);
            n -= 8;
            acc &= (1u64 << n) - 1;
        }
    }
    if n > 0 {
        out.push((acc << (8 - n)) as u8);
    }
    out
}

#[test]
fn lzhuf_test_arr() {
    let r = [
        (2, 16), (4, 5), (0, 3), (0, 3), (1, 3), (0, 2), (1, 3), (264, 9), (0, 1), (77, 9), (1, 1), (0, 1), (145, 9),
        (1, 1), (0, 5), (0, 5), (0, 1), (1, 1),
    ];
    assert_eq!(lzh(b"aaaaaaaaaaa"), Ok(pack(&r)));
}

#[test]
fn lzhuf_test_empty() {
    assert_eq!(lzh(b""), Ok(vec![]));
}

#[test]
fn lzhuf_test_unit() {
    let r = [(1, 16), (0, 5), (0, 5), (0, 9), (97, 9), (0, 5), (0, 5)];
    assert_eq!(lzh(b"a"), Ok(pack(&r)));
}

#[test]
fn test_midarr() {
    let input: Vec<u8> = b"a".iter().cycle().take(260).cloned().collect();
    let r = [
        (3, 16), (5, 5), (0, 3), (0, 3), (1, 3), (0, 2), (2, 3), (2, 3), (510, 9), (0, 1), (77, 9), (3, 2), (0, 1),
        (138, 9), (3, 2), (0, 1), (232, 9), (2, 2), (0, 5), (0, 5), (2, 2), (0, 1), (3, 2),
    ];
    assert_eq!(lzh(&input), Ok(pack(&r)));
}

fn lzh_with(input: &[u8], method: LzhufCompression) -> Vec<u8> {
    let mut encoder = LzhufEncoder::new(&method);
    let mut src = ByteSource::new(input.to_vec());
    let mut out = Vec::new();
    loop {
        match encoder.next(&mut src, Action::Finish) {
            Some(Ok(b)) => out.push(b),
            Some(Err(e)) => panic!("{:?}", e),
            None => return out,
        }
    }
}

fn unlzh(data: Vec<u8>, method: LzhufCompression) -> Result<Vec<u8>, CompressionError> {
    let mut reader = lib::bit_reader::LeftBitReader::new(ByteSource::new(data));
    let mut decoder = lib::lzhuf::decoder::LzhufDecoder::new(&method);
    let mut out = Vec::new();
    loop {
        match decoder.next(&mut reader) {
            Some(Ok(b)) => out.push(b),
            Some(Err(e)) => return Err(e),
            None => return Ok(out),
        }
    }
}

#[test]
fn lzhuf_round_trip_small() {
    for input in [&b""[..], b"a", b"aaaaaaaaaaa", b"aabbaabbaaabbbaaabbbaabbaabb"] {
        let enc = lzh_with(input, LzhufCompression::Lh7);
        assert_eq!(unlzh(enc, LzhufCompression::Lh7), Ok(input.to_vec()));
    }
}

#[test]
fn lzhuf_round_trip_methods() {
    let mut input = Vec::new();
    for i in 0..40000u32 {
        input.extend_from_slice(format!("{} {} ", i % 97, i % 13).as_bytes());
    }
    let enc = lzh_with(&input, LzhufCompression::Lh4);
    assert_eq!(unlzh(enc, LzhufCompression::Lh4), Ok(input.clone()));
    let enc = lzh_with(&input, LzhufCompression::Lh5);
    assert!(enc.len() < input.len() / 2);
    assert_eq!(unlzh(enc, LzhufCompression::Lh5), Ok(input.clone()));
    let enc = lzh_with(&input, LzhufCompression::Lh7);
    assert_eq!(unlzh(enc, LzhufCompression::Lh7), Ok(input));
}

#[test]
fn lzhuf_round_trip_noise() {
    let mut input = Vec::new();
    let mut x: u32 = 99;
    for _ in 0..70000 {
        x = x.wrapping_mul(1103515245).wrapping_add(12345);
        input.push((x >> 16) as u8);
    }
    let enc = lzh_with(&input, LzhufCompression::Lh6);
    assert_eq!(unlzh(enc, LzhufCompression::Lh6), Ok(input));
}
