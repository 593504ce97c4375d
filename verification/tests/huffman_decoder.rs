use lib::bit_reader::{ByteSource, LeftBitReader, RightBitReader};
use lib::bit_writer::{LeftBitWriter, RightBitWriter};
use lib::huffman::decoder::{HuffmanDecoder, HuffmanError, Left, Right};
use lib::huffman_encoder::{LeftHuffmanEncoder, RightHuffmanEncoder};

fn test_array() -> Vec<u16> {
    "abccddeeeeffffgggggggghhhhhhhh"
        .bytes()
        .map(|b| u16::from(b - 0x60))
        .collect::<Vec<u16>>()
}

fn left_checker(symb_len: &[u8], testarray: &[u16], stab_bits: usize) {
    let mut hencoder = LeftHuffmanEncoder::new(LeftBitWriter::new(Vec::new()), symb_len);
    for c in testarray {
        hencoder.enc(*c as usize).unwrap();
    }
    let bytes = hencoder.into_inner().into_inner();
    let mut hdecoder = HuffmanDecoder::<Left>::new(symb_len, stab_bits).ok().unwrap();
    let mut reader = LeftBitReader::new(ByteSource::new(bytes));
    let mut ac = Vec::<u16>::new();
    while let Ok(Some(c)) = hdecoder.dec(&mut reader) {
        ac.push(c);
    }
    assert_eq!(ac, testarray.to_vec());
}

fn right_checker(symb_len: &[u8], testarray: &[u16], stab_bits: usize) {
    let mut hencoder = RightHuffmanEncoder::new(RightBitWriter::new(Vec::new()), symb_len);
    for c in testarray {
        hencoder.enc(*c as usize).unwrap();
    }
    let bytes = hencoder.into_inner().into_inner();
    let mut hdecoder = HuffmanDecoder::<Right>::new(symb_len, stab_bits).ok().unwrap();
    let mut reader = RightBitReader::new(ByteSource::new(bytes));
    let mut ac = Vec::<u16>::new();
    while let Ok(Some(c)) = hdecoder.dec(&mut reader) {
        ac.push(c);
    }
    assert_eq!(ac, testarray.to_vec());
}

#[test]
fn mod_lefthuffman_decode() {
    let symb_len = vec![0_u8, 4, 4, 4, 4, 3, 3, 2, 2];
    left_checker(&symb_len, &test_array(), 4);
}

#[test]
fn mod_lefthuffman_decode_big() {
    let symb_len = vec![0_u8, 4, 4, 4, 4, 3, 3, 2, 2];
    left_checker(&symb_len, &test_array(), 2);
}

#[test]
fn mod_righthuffman_decode() {
    let symb_len = vec![0_u8, 4, 4, 4, 4, 3, 3, 2, 2];
    right_checker(&symb_len, &test_array(), 4);
}

#[test]
fn mod_righthuffman_decode_big() {
    let symb_len = vec![0_u8, 4, 4, 4, 4, 3, 3, 2, 2];
    right_checker(&symb_len, &test_array(), 2);
}

#[test]
fn huffman_decoder_long_codes_through_trees() {
    // Every code is longer than the one-bit short table.
    let symb_len = vec![0_u8, 4, 4, 4, 4, 3, 3, 2, 2];
    left_checker(&symb_len, &test_array(), 1);
    right_checker(&symb_len, &test_array(), 1);
}

#[test]
fn huffman_decoder_empty_reader_gives_none() {
    let symb_len = vec![0_u8, 1, 1];
    let mut hdecoder = HuffmanDecoder::<Left>::new(&symb_len, 8).ok().unwrap();
    let mut reader = LeftBitReader::new(ByteSource::new(Vec::new()));
    assert_eq!(hdecoder.dec(&mut reader), Ok(None));
    let mut rdecoder = HuffmanDecoder::<Right>::new(&symb_len, 8).ok().unwrap();
    let mut rreader = RightBitReader::new(ByteSource::new(Vec::new()));
    assert_eq!(rdecoder.dec(&mut rreader), Ok(None));
}

#[test]
fn huffman_decoder_single_bits() {
    // Codes 0 and 1 for symbols 1 and 2: 0b1010_0000 reads 2,1,2,1,1,1,1,1.
    let symb_len = vec![0_u8, 1, 1];
    let mut hdecoder = HuffmanDecoder::<Left>::new(&symb_len, 8).ok().unwrap();
    let mut reader = LeftBitReader::new(ByteSource::new(vec![0b1010_0000]));
    let mut ac = Vec::new();
    while let Ok(Some(c)) = hdecoder.dec(&mut reader) {
        ac.push(c);
    }
    assert_eq!(ac, vec![2, 1, 2, 1, 1, 1, 1, 1]);
}

#[test]
fn huffman_decoder_length_error() {
    let symb_len = vec![0_u8, 32, 1];
    assert!(matches!(HuffmanDecoder::<Left>::new(&symb_len, 8), Err(HuffmanError::Length)));
}

#[test]
fn huffman_decoder_incomplete_code_gives_table_error() {
    // Only the code 0 exists; a 1 bit leads nowhere.
    let symb_len = vec![0_u8, 1];
    let mut hdecoder = HuffmanDecoder::<Left>::new(&symb_len, 1).ok().unwrap();
    let mut reader = LeftBitReader::new(ByteSource::new(vec![0b1000_0000]));
    assert_eq!(hdecoder.dec(&mut reader), Err(HuffmanError::Table));
}
