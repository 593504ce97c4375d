use lib::bit_reader::ByteSource;
use lib::compress::Action;
use lib::lzss::decoder::LzssDecoder;
use lib::lzss::encoder::LzssEncoder;
use lib::lzss::{LzssCode, LzssComparison};
use std::cmp::Ordering;

#[derive(Clone, Copy)]
struct Comparison;

impl LzssComparison for Comparison {
    fn compare_codes(&self, lhs: LzssCode, rhs: LzssCode) -> Ordering {
        comparison(lhs, rhs)
    }
}

fn comparison(lhs: LzssCode, rhs: LzssCode) -> Ordering {
    match (lhs, rhs) {
        (LzssCode::Reference { len: llen, pos: lpos }, LzssCode::Reference { len: rlen, pos: rpos }) => {
            ((llen << 3) + rpos).cmp(&((rlen << 3) + lpos)).reverse()
        }
        (LzssCode::Symbol(_), LzssCode::Symbol(_)) => Ordering::Equal,
        (_, LzssCode::Symbol(_)) => Ordering::Greater,
        (LzssCode::Symbol(_), _) => Ordering::Less,
    }
}

fn run<F: LzssComparison>(encoder: &mut LzssEncoder<F>, data: &[u8], action: Action) -> Vec<LzssCode> {
    let mut src = ByteSource::new(data.to_vec());
    let mut out = Vec::new();
    while let Some(r) = encoder.next(&mut src, action) {
        out.push(r.unwrap());
    }
    out
}

fn encode(data: &[u8]) -> Vec<LzssCode> {
    let mut encoder = LzssEncoder::new(Comparison, 0x1_0000, 256, 3, 3);
    run(&mut encoder, data, Action::Flush)
}

fn cycle_bytes(n: usize) -> Vec<u8> {
    (0..n).map(|x| (x % 256) as u8).collect()
}

#[test]
fn encoder_test_unit() {
    assert_eq!(encode(b"a"), vec![LzssCode::Symbol(b'a')]);
}

#[test]
fn encoder_test_2len() {
    let mut encoder = LzssEncoder::new(Comparison, 0x1_0000, 256, 3, 3);
    let mut ret = run(&mut encoder, b"a", Action::Run);
    ret.append(&mut run(&mut encoder, b"a", Action::Flush));
    assert_eq!(ret, vec![LzssCode::Symbol(b'a'), LzssCode::Symbol(b'a')]);
}

#[test]
fn encoder_test_3len() {
    assert_eq!(
        encode(b"aaa"),
        vec![LzssCode::Symbol(b'a'), LzssCode::Symbol(b'a'), LzssCode::Symbol(b'a')]
    );
}

#[test]
fn encoder_test_4len() {
    assert_eq!(encode(b"aaaa"), vec![LzssCode::Symbol(b'a'), LzssCode::Reference { len: 3, pos: 0 }]);
}

#[test]
fn encoder_test_short_len() {
    assert_eq!(
        encode(b"aaaaaaaaaaa"),
        vec![LzssCode::Symbol(b'a'), LzssCode::Reference { len: 10, pos: 0 }]
    );
}

#[test]
fn encoder_test_middle_repeat() {
    assert_eq!(
        encode(&vec![b'a'; 256]),
        vec![LzssCode::Symbol(b'a'), LzssCode::Reference { len: 255, pos: 0 }]
    );
}

#[test]
fn encoder_test_long_repeat() {
    assert_eq!(
        encode(&vec![b'a'; 259]),
        vec![
            LzssCode::Symbol(b'a'),
            LzssCode::Reference { len: 256, pos: 0 },
            LzssCode::Symbol(b'a'),
            LzssCode::Symbol(b'a'),
        ]
    );
}

#[test]
fn encoder_test_long_repeat2() {
    assert_eq!(
        encode(&vec![b'a'; 260]),
        vec![
            LzssCode::Symbol(b'a'),
            LzssCode::Reference { len: 256, pos: 0 },
            LzssCode::Reference { len: 3, pos: 0 },
        ]
    );
}

#[test]
fn encoder_test_5() {
    assert_eq!(
        encode(b"aaabbbaaabbb"),
        vec![
            LzssCode::Symbol(b'a'),
            LzssCode::Symbol(b'a'),
            LzssCode::Symbol(b'a'),
            LzssCode::Symbol(b'b'),
            LzssCode::Symbol(b'b'),
            LzssCode::Symbol(b'b'),
            LzssCode::Reference { len: 6, pos: 5 },
        ]
    );
}

#[test]
fn encoder_test_6() {
    assert_eq!(
        encode(b"aabbaabbaaabbbaaabbbaabbaabb"),
        vec![
            LzssCode::Symbol(b'a'),
            LzssCode::Symbol(b'a'),
            LzssCode::Symbol(b'b'),
            LzssCode::Symbol(b'b'),
            LzssCode::Reference { len: 6, pos: 3 },
            LzssCode::Symbol(b'a'),
            LzssCode::Symbol(b'b'),
            LzssCode::Reference { len: 10, pos: 5 },
            LzssCode::Reference { len: 6, pos: 3 },
        ]
    );
}

#[test]
fn test_7() {
    let ret = encode(&cycle_bytes(0x1_0000));
    let mut result = (0..256).map(|x| LzssCode::Symbol(x as u8)).collect::<Vec<_>>();
    result.append(&mut vec![LzssCode::Reference { len: 256, pos: 255 }; 255]);
    assert_eq!(ret, result);
}

#[test]
fn test_8() {
    let ret = encode(&cycle_bytes(768));
    let mut result = (0..256).map(|x| LzssCode::Symbol(x as u8)).collect::<Vec<_>>();
    result.append(&mut vec![LzssCode::Reference { len: 256, pos: 255 }; 2]);
    assert_eq!(ret, result);
}

#[test]
fn test_9() {
    let mut encoder = LzssEncoder::with_dict(Comparison, 0x1_0000, 256, 3, 3, &cycle_bytes(256));
    let ret = run(&mut encoder, &cycle_bytes(512), Action::Flush);
    assert_eq!(ret, vec![LzssCode::Reference { len: 256, pos: 255 }; 2]);
}

#[test]
fn test_10() {
    let mut encoder = LzssEncoder::with_dict(Comparison, 0x1_0000, 256, 3, 3, &cycle_bytes(0x1_0001));
    let ret = run(&mut encoder, &cycle_bytes(512), Action::Flush);
    assert_eq!(
        ret,
        vec![LzssCode::Reference { len: 256, pos: 256 }, LzssCode::Reference { len: 256, pos: 255 }]
    );
}

#[test]
fn test_11() {
    let mut source = b"abc".to_vec();
    source.append(&mut vec![b'd'; 0x1_0000 - 3]);
    source.append(&mut b"abc".to_vec());
    let ret = encode(&source);
    let mut result = vec![
        LzssCode::Symbol(b'a'),
        LzssCode::Symbol(b'b'),
        LzssCode::Symbol(b'c'),
        LzssCode::Symbol(b'd'),
    ];
    result.append(&mut vec![LzssCode::Reference { len: 256, pos: 0 }; 255]);
    result.push(LzssCode::Reference { len: 252, pos: 0 });
    result.push(LzssCode::Reference { len: 3, pos: 65535 });
    assert_eq!(ret, result);
}

fn decode(codes: &[LzssCode]) -> Vec<u8> {
    let mut decoder = LzssDecoder::new(0x1_0000);
    let mut at = 0;
    let mut out = Vec::new();
    while let Some(r) = decoder.next(codes, &mut at) {
        out.push(r.unwrap());
    }
    out
}

#[test]
fn decoder_test() {
    let testvec = b"aabbaabbaaabbbaaabbbaabbaabb";
    assert_eq!(decode(&encode(testvec)), testvec.to_vec());
}

#[test]
fn lzss_round_trip_varied_text() {
    let mut text = Vec::new();
    for i in 0..2000u32 {
        text.push(b"the quick brown fox "[(i % 20) as usize]);
        if i % 37 == 0 {
            text.push((i % 251) as u8);
        }
    }
    assert_eq!(decode(&encode(&text)), text);
}

#[test]
fn lzss_round_trip_empty() {
    assert_eq!(encode(b""), Vec::new());
}
