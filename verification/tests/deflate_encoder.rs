use lib::bit_reader::ByteSource;
use lib::compress::Action;
use lib::deflate::decoder::Deflater;
use lib::deflate::encoder::{Inflater, InflaterInner};
use lib::error::CompressionError;

fn encode(input: &[u8]) -> Result<Vec<u8>, CompressionError> {
    let mut encoder = Inflater::new();
    let mut src = ByteSource::new(input.to_vec());
    let mut out = Vec::new();
    loop {
        match encoder.next(&mut src, Action::Finish) {
            Some(Ok(b)) => out.push(b),
            Some(Err(e)) => return Err(e),
            None => return Ok(out),
        }
    }
}

/// Packs runs of bits, least significant bit first, padding the last byte.
fn pack(runs: &[(u32, usize)]) -> Vec<u8> {
    let mut out = Vec::new();
    let mut acc: u64 = 0;
    let mut n = 0;
    for &(d, l) in runs {
        acc |= (d as u64) << n;
        n += l;
        while n >= 8 {
            out.push(acc as u8);
            acc >>= 8;
            n -= 8;
        }
    }
    if n > 0 {
        out.push(acc as u8);
    }
    out
}

fn decode(data: &[u8]) -> Vec<u8> {
    let mut reader = lib::bit_reader::RightBitReader::new(ByteSource::new(data.to_vec()));
    let mut dec = Deflater::new();
    let mut out = Vec::new();
    while let Some(r) = dec.next(&mut reader) {
        out.push(r.unwrap());
    }
    out
}

#[test]
fn encoder_test_empty() {
    assert_eq!(encode(&[]), Ok(vec![3, 0]));
}

#[test]
fn deflate_encoder_test_unit() {
    assert_eq!(encode(b"a"), Ok(vec![0x4B, 0x04, 0]));
}

#[test]
fn encoder_test_arr() {
    assert_eq!(encode(b"aaaaaaaaaaa"), Ok(vec![0x4B, 0x44, 0, 0]));
}

#[test]
fn test_arr2() {
    let a = encode(b"aabbaabbaaabbbaaabbbaabbaabb");
    let b = pack(&[(1, 1), (1, 2), (137, 8), (137, 8), (73, 8), (73, 8), (16, 7), (0, 0), (24, 5), (0, 0), (137, 8), (73, 8), (8, 7), (0, 0), (4, 5), (1, 1), (16, 7), (0, 0), (24, 5), (0, 0), (0, 7)]);
    assert_eq!(a, Ok(b));
}

#[test]
fn test_arr3() {
    let input: Vec<u8> = (144..256).map(|x| x as u8).collect();
    let a = encode(&input);
    let mut r: Vec<(u32, usize)> = vec![(1, 1), (0, 2), (0, 5), (112, 16), (65423, 16)];
    for x in 144..256 {
        r.push((x, 8));
    }
    assert_eq!(a, Ok(pack(&r)));
}

#[test]
fn test_arr4() {
    let input: Vec<u8> = (144..256).cycle().take(224).map(|x| x as u8).collect();
    let a = encode(&input);
    let b = pack(&[(1, 1), (2, 2), (23, 5), (13, 5), (14, 4), (2, 3), (4, 3), (3, 3), (0, 3), (0, 3), (2, 3), (0, 3), (2, 3), (0, 3), (0, 3), (0, 3), (0, 3), (0, 3), (0, 3), (0, 3), (0, 3), (0, 3), (4, 3), (3, 3), (127, 7), (15, 4), (3, 3), (2, 2), (1, 2), (3, 2), (1, 2), (3, 2), (1, 2), (0, 2), (0, 2), (2, 2), (1, 2), (3, 2), (1, 2), (3, 2), (0, 2), (2, 2), (1, 2), (3, 2), (1, 2), (1, 2), (0, 2), (2, 2), (1, 2), (3, 2), (1, 2), (0, 2), (0, 2), (2, 2), (1, 2), (1, 2), (0, 2), (0, 2), (0, 2), (2, 2), (2, 2), (0, 2), (2, 2), (1, 2), (3, 2), (1, 2), (3, 2), (1, 2), (3, 2), (2, 2), (2, 2), (0, 2), (2, 2), (1, 2), (3, 2), (1, 2), (3, 2), (1, 2), (3, 2), (0, 2), (0, 2), (2, 2), (0, 2), (2, 2), (0, 2), (0, 2), (3, 3), (11, 7), (2, 2), (3, 3), (2, 7), (7, 4), (28, 7), (92, 7), (60, 7), (124, 7), (2, 7), (66, 7), (34, 7), (98, 7), (18, 7), (82, 7), (50, 7), (114, 7), (10, 7), (74, 7), (42, 7), (106, 7), (0, 6), (26, 7), (90, 7), (58, 7), (122, 7), (6, 7), (70, 7), (38, 7), (102, 7), (22, 7), (86, 7), (54, 7), (118, 7), (14, 7), (32, 6), (78, 7), (46, 7), (110, 7), (30, 7), (94, 7), (62, 7), (126, 7), (1, 7), (65, 7), (33, 7), (97, 7), (16, 6), (17, 7), (81, 7), (49, 7), (113, 7), (9, 7), (73, 7), (41, 7), (105, 7), (25, 7), (89, 7), (48, 6), (57, 7), (121, 7), (5, 7), (69, 7), (37, 7), (8, 6), (40, 6), (24, 6), (101, 7), (21, 7), (56, 6), (85, 7), (53, 7), (117, 7), (13, 7), (77, 7), (45, 7), (109, 7), (29, 7), (93, 7), (61, 7), (125, 7), (3, 7), (67, 7), (35, 7), (99, 7), (19, 7), (83, 7), (51, 7), (115, 7), (11, 7), (75, 7), (4, 6), (43, 7), (107, 7), (27, 7), (91, 7), (59, 7), (123, 7), (7, 7), (71, 7), (39, 7), (103, 7), (23, 7), (87, 7), (55, 7), (119, 7), (15, 7), (79, 7), (47, 7), (111, 7), (31, 7), (36, 6), (20, 6), (95, 7), (52, 6), (63, 7), (12, 6), (127, 7), (13, 4), (0, 1), (15, 5), (44, 6)]);
    assert_eq!(a, Ok(b));
}

#[test]
fn deflate_round_trip_text() {
    let input = b"the quick brown fox jumps over the lazy dog, the quick brown fox again and again".to_vec();
    let enc = encode(&input).unwrap();
    assert_eq!(decode(&enc), input);
}

#[test]
fn deflate_round_trip_long() {
    let mut input = Vec::new();
    for i in 0..70000u32 {
        input.push(((i * 7 + i / 13) % 251) as u8);
    }
    let enc = encode(&input).unwrap();
    assert_eq!(decode(&enc), input);
}

#[test]
fn deflate_round_trip_repeats() {
    let mut input = Vec::new();
    for i in 0..5000u32 {
        input.push((i % 10) as u8 + b'0');
    }
    let enc = encode(&input).unwrap();
    assert!(enc.len() < input.len() / 10);
    assert_eq!(decode(&enc), input);
}

#[test]
fn enc_tab_to_freq_runs() {
    let tab = [8u8, 8, 8, 8, 8, 8, 8, 8, 0, 0, 0, 0, 0, 0, 0, 0, 0, 0, 0, 0, 5, 5, 0, 0, 7];
    let (list, freq) = InflaterInner::enc_tab_to_freq(&tab);
    assert_eq!(list, vec![(8, 0), (16, 3), (8, 0), (18, 1), (5, 0), (5, 0), (0, 0), (0, 0), (7, 0)]);
    assert_eq!(freq[8], 2);
    assert_eq!(freq[16], 1);
    assert_eq!(freq[18], 1);
    assert_eq!(freq[5], 2);
    assert_eq!(freq[0], 2);
    assert_eq!(freq[7], 1);
}

#[test]
fn enc_tab_to_freq_long_zero_run() {
    let tab = vec![0u8; 150];
    let (list, freq) = InflaterInner::enc_tab_to_freq(&tab);
    assert_eq!(list, vec![(18, 127), (18, 1)]);
    assert_eq!(freq[18], 2);
}

fn check(testarray: &[u8]) {
    let encoded = encode(testarray).unwrap();
    assert_eq!(testarray.to_vec(), decode(&encoded));
}

#[test]
fn deflate_mod_test_empty() {
    check(&[]);
}

#[test]
fn deflate_mod_test_unit() {
    check(b"a");
}

#[test]
fn deflate_mod_test_arr() {
    check(b"aaaaaaaaaaa");
}

#[test]
fn deflate_mod_test_std() {
    check(b"aabbaabbaaabbbaaabbbaabbaabb");
}

#[test]
fn deflate_mod_test_long() {
    check(&(b"a".iter().cycle().take(260).cloned().collect::<Vec<u8>>()));
}

#[test]
fn test_long2() {
    check(&((144..256).cycle().take(224).map(|x| x as u8).collect::<Vec<u8>>()));
}

fn noise(n: usize, seed: u32) -> Vec<u8> {
    let mut x = seed;
    let mut v = Vec::with_capacity(n);
    for _ in 0..n {
        x ^= x << 13;
        x ^= x >> 17;
        x ^= x << 5;
        v.push((x >> 8) as u8);
    }
    v
}

#[test]
fn test_multiblocks() {
    check(&noise(323_742, 0xDAE1_4B0B));
}

#[test]
fn test_multiblocks2() {
    check(&noise(323_742, 0xDAE1_4B0B));
}

#[test]
fn test_multiblocks3() {
    check(&noise(0xF_FFFF, 0xDAE1_4B0B));
}

#[test]
fn test_multiblocks6() {
    check(&noise(6, 0xDAE1_4B0B));
}

#[test]
fn test_multiblocks4() {
    check(&noise(0x10_000, 0xDAE1_4B0B));
}

#[test]
fn test_multiblocks5() {
    check(&noise(0x10_0001, 0xDAE1_4B0B));
}

#[test]
fn deflate_encoder_stored_block_form() {
    let input = noise(1000, 0x2545_F491);
    let out = encode(&input).unwrap();
    assert_eq!(out.len(), 1 + 4 + 1000);
    assert_eq!(out[0], 0x01);
    assert_eq!(&out[1..5], &[0xE8, 0x03, 0x17, 0xFC]);
    assert_eq!(&out[5..], &input[..]);
}
