use lib::bit_reader::{BitReader, ByteSource, LeftBitReader, RightBitReader};
use lib::bit_vector::BitVector;
use lib::bit_writer::{LeftBitWriter, RightBitWriter};
use lib::huffman_encoder::{LeftHuffmanEncoder, RightHuffmanEncoder};

#[test]
fn huffman_encoder_lefthuffman_encode_new() {
    let writer = LeftBitWriter::new(Vec::<u8>::new());
    let hencoder =
        LeftHuffmanEncoder::new(writer, &[0_u8, 4, 4, 4, 4, 3, 3, 2, 2]);
    let tab = hencoder.get_enc_tab();

    assert_eq!(tab[0], None);
    assert_eq!(tab[1], Some(BitVector::new(0b1100, 4)));
    assert_eq!(tab[2], Some(BitVector::new(0b1101, 4)));
    assert_eq!(tab[3], Some(BitVector::new(0b1110, 4)));
    assert_eq!(tab[4], Some(BitVector::new(0b1111, 4)));
    assert_eq!(tab[5], Some(BitVector::new(0b100, 3)));
    assert_eq!(tab[6], Some(BitVector::new(0b101, 3)));
    assert_eq!(tab[7], Some(BitVector::new(0b00, 2)));
    assert_eq!(tab[8], Some(BitVector::new(0b01, 2)));
    assert_eq!(tab.len(), 9);
}

#[test]
fn huffman_encoder_lefthuffman_encode_write() {
    let writer = LeftBitWriter::new(Vec::<u8>::new());
    let mut hencoder =
        LeftHuffmanEncoder::new(writer, &[0_u8, 4, 4, 4, 4, 3, 3, 2, 2]);
    for c in "abccddeeeeffffgggggggghhhhhhhh".bytes() {
        let _ = hencoder.enc((c - 0x60) as usize);
    }

    let bytes = hencoder.into_inner().into_inner();

    let mut reader = LeftBitReader::new(ByteSource::new(bytes));

    assert_eq!(reader.read(4).ok(), Some(BitVector::new(0b1100, 4)));
    assert_eq!(reader.read(4).ok(), Some(BitVector::new(0b1101, 4)));
    assert_eq!(reader.read(4).ok(), Some(BitVector::new(0b1110, 4)));
    assert_eq!(reader.read(4).ok(), Some(BitVector::new(0b1110, 4)));
    assert_eq!(reader.read(4).ok(), Some(BitVector::new(0b1111, 4)));
    assert_eq!(reader.read(4).ok(), Some(BitVector::new(0b1111, 4)));
    assert_eq!(reader.read(3).ok(), Some(BitVector::new(0b100, 3)));
    assert_eq!(reader.read(3).ok(), Some(BitVector::new(0b100, 3)));
    assert_eq!(reader.read(3).ok(), Some(BitVector::new(0b100, 3)));
    assert_eq!(reader.read(3).ok(), Some(BitVector::new(0b100, 3)));
    assert_eq!(reader.read(3).ok(), Some(BitVector::new(0b101, 3)));
    assert_eq!(reader.read(3).ok(), Some(BitVector::new(0b101, 3)));
    assert_eq!(reader.read(3).ok(), Some(BitVector::new(0b101, 3)));
    assert_eq!(reader.read(3).ok(), Some(BitVector::new(0b101, 3)));
    assert_eq!(reader.read(2).ok(), Some(BitVector::new(0b00, 2)));
    assert_eq!(reader.read(2).ok(), Some(BitVector::new(0b00, 2)));
    assert_eq!(reader.read(2).ok(), Some(BitVector::new(0b00, 2)));
    assert_eq!(reader.read(2).ok(), Some(BitVector::new(0b00, 2)));
    assert_eq!(reader.read(2).ok(), Some(BitVector::new(0b00, 2)));
    assert_eq!(reader.read(2).ok(), Some(BitVector::new(0b00, 2)));
    assert_eq!(reader.read(2).ok(), Some(BitVector::new(0b00, 2)));
    assert_eq!(reader.read(2).ok(), Some(BitVector::new(0b00, 2)));
    assert_eq!(reader.read(2).ok(), Some(BitVector::new(0b01, 2)));
    assert_eq!(reader.read(2).ok(), Some(BitVector::new(0b01, 2)));
    assert_eq!(reader.read(2).ok(), Some(BitVector::new(0b01, 2)));
    assert_eq!(reader.read(2).ok(), Some(BitVector::new(0b01, 2)));
    assert_eq!(reader.read(2).ok(), Some(BitVector::new(0b01, 2)));
    assert_eq!(reader.read(2).ok(), Some(BitVector::new(0b01, 2)));
    assert_eq!(reader.read(2).ok(), Some(BitVector::new(0b01, 2)));
    assert_eq!(reader.read(2).ok(), Some(BitVector::new(0b01, 2)));
}

#[test]
fn huffman_encoder_lefthuffman_encode_new_zero() {
    let writer = LeftBitWriter::new(Vec::<u8>::new());
    let hencoder =
        LeftHuffmanEncoder::new(writer, &[0_u8, 0_u8, 0_u8, 0_u8]);
    let tab = hencoder.get_enc_tab();

    assert_eq!(tab.len(), 0);
}

#[test]
fn huffman_encoder_righthuffman_encode_new() {
    let writer = RightBitWriter::new(Vec::<u8>::new());
    let hencoder =
        RightHuffmanEncoder::new(writer, &[0_u8, 4, 4, 4, 4, 3, 3, 2, 2]);
    let tab = hencoder.get_enc_tab();

    assert_eq!(tab[0], None);
    assert_eq!(tab[1], Some(BitVector::new(0b0011, 4)));
    assert_eq!(tab[2], Some(BitVector::new(0b1011, 4)));
    assert_eq!(tab[3], Some(BitVector::new(0b0111, 4)));
    assert_eq!(tab[4], Some(BitVector::new(0b1111, 4)));
    assert_eq!(tab[5], Some(BitVector::new(0b001, 3)));
    assert_eq!(tab[6], Some(BitVector::new(0b101, 3)));
    assert_eq!(tab[7], Some(BitVector::new(0b00, 2)));
    assert_eq!(tab[8], Some(BitVector::new(0b10, 2)));
    assert_eq!(tab.len(), 9);
}

#[test]
fn huffman_encoder_righthuffman_encode_write() {
    let writer = RightBitWriter::new(Vec::<u8>::new());
    let mut hencoder =
        RightHuffmanEncoder::new(writer, &[0_u8, 4, 4, 4, 4, 3, 3, 2, 2]);
    for c in "abccddeeeeffffgggggggghhhhhhhh".bytes() {
        let _ = hencoder.enc((c - 0x60) as usize);
    }

    let bytes = hencoder.into_inner().into_inner();

    let mut reader = RightBitReader::new(ByteSource::new(bytes));

    assert_eq!(reader.read(4).ok(), Some(BitVector::new(0b0011, 4)));
    assert_eq!(reader.read(4).ok(), Some(BitVector::new(0b1011, 4)));
    assert_eq!(reader.read(4).ok(), Some(BitVector::new(0b0111, 4)));
    assert_eq!(reader.read(4).ok(), Some(BitVector::new(0b0111, 4)));
    assert_eq!(reader.read(4).ok(), Some(BitVector::new(0b1111, 4)));
    assert_eq!(reader.read(4).ok(), Some(BitVector::new(0b1111, 4)));
    assert_eq!(reader.read(3).ok(), Some(BitVector::new(0b001, 3)));
    assert_eq!(reader.read(3).ok(), Some(BitVector::new(0b001, 3)));
    assert_eq!(reader.read(3).ok(), Some(BitVector::new(0b001, 3)));
    assert_eq!(reader.read(3).ok(), Some(BitVector::new(0b001, 3)));
    assert_eq!(reader.read(3).ok(), Some(BitVector::new(0b101, 3)));
    assert_eq!(reader.read(3).ok(), Some(BitVector::new(0b101, 3)));
    assert_eq!(reader.read(3).ok(), Some(BitVector::new(0b101, 3)));
    assert_eq!(reader.read(3).ok(), Some(BitVector::new(0b101, 3)));
    assert_eq!(reader.read(2).ok(), Some(BitVector::new(0b00, 2)));
    assert_eq!(reader.read(2).ok(), Some(BitVector::new(0b00, 2)));
    assert_eq!(reader.read(2).ok(), Some(BitVector::new(0b00, 2)));
    assert_eq!(reader.read(2).ok(), Some(BitVector::new(0b00, 2)));
    assert_eq!(reader.read(2).ok(), Some(BitVector::new(0b00, 2)));
    assert_eq!(reader.read(2).ok(), Some(BitVector::new(0b00, 2)));
    assert_eq!(reader.read(2).ok(), Some(BitVector::new(0b00, 2)));
    assert_eq!(reader.read(2).ok(), Some(BitVector::new(0b00, 2)));
    assert_eq!(reader.read(2).ok(), Some(BitVector::new(0b10, 2)));
    assert_eq!(reader.read(2).ok(), Some(BitVector::new(0b10, 2)));
    assert_eq!(reader.read(2).ok(), Some(BitVector::new(0b10, 2)));
    assert_eq!(reader.read(2).ok(), Some(BitVector::new(0b10, 2)));
    assert_eq!(reader.read(2).ok(), Some(BitVector::new(0b10, 2)));
    assert_eq!(reader.read(2).ok(), Some(BitVector::new(0b10, 2)));
    assert_eq!(reader.read(2).ok(), Some(BitVector::new(0b10, 2)));
    assert_eq!(reader.read(2).ok(), Some(BitVector::new(0b10, 2)));
}

#[test]
fn huffman_encoder_righthuffman_encode_new_zero() {
    let writer = RightBitWriter::new(Vec::<u8>::new());
    let hencoder = RightHuffmanEncoder::new(writer, &[0_u8, 0, 0, 0]);
    let tab = hencoder.get_enc_tab();

    assert_eq!(tab.len(), 0);
}
