use lib::lzss::decoder::LzssDecoder;
use lib::lzss::LzssCode;

fn decode_all(decoder: &mut LzssDecoder, codes: &[LzssCode]) -> Vec<Result<u8, lib::error::CompressionError>> {
    let mut at = 0;
    let mut out = Vec::new();
    while let Some(r) = decoder.next(codes, &mut at) {
        out.push(r);
    }
    out
}

#[test]
fn lzss_decodes_literals_and_copies() {
    let codes = [
        LzssCode::Symbol(b'a'),
        LzssCode::Symbol(b'b'),
        LzssCode::Reference { len: 5, pos: 1 },
        LzssCode::Symbol(b'c'),
    ];
    let mut decoder = LzssDecoder::new(0x1_0000);
    let out: Vec<u8> = decode_all(&mut decoder, &codes).into_iter().map(|r| r.unwrap()).collect();
    assert_eq!(out, b"abababac".to_vec());
}

#[test]
fn lzss_copy_of_last_byte_repeats_it() {
    let codes = [LzssCode::Symbol(b'x'), LzssCode::Reference { len: 4, pos: 0 }];
    let mut decoder = LzssDecoder::new(16);
    let out: Vec<u8> = decode_all(&mut decoder, &codes).into_iter().map(|r| r.unwrap()).collect();
    assert_eq!(out, b"xxxxx".to_vec());
}

#[test]
fn lzss_empty_references_are_passed_over() {
    let codes = [LzssCode::Reference { len: 0, pos: 9 }, LzssCode::Symbol(7)];
    let mut decoder = LzssDecoder::new(16);
    let out: Vec<u8> = decode_all(&mut decoder, &codes).into_iter().map(|r| r.unwrap()).collect();
    assert_eq!(out, vec![7]);
}

#[test]
fn lzss_reference_before_start() {
    let codes = [LzssCode::Symbol(1), LzssCode::Reference { len: 2, pos: 1 }];
    let mut decoder = LzssDecoder::new(16);
    let out = decode_all(&mut decoder, &codes);
    assert_eq!(out, vec![Ok(1), Err(lib::error::CompressionError::DataError)]);
}

#[test]
fn lzss_with_dict() {
    let codes = [LzssCode::Reference { len: 3, pos: 2 }];
    let mut decoder = LzssDecoder::with_dict(16, b"xyz");
    let out: Vec<u8> = decode_all(&mut decoder, &codes).into_iter().map(|r| r.unwrap()).collect();
    assert_eq!(out, b"xyz".to_vec());
}
