use lib::bit_reader::{BitReader, ByteSource, LeftBitReader, RightBitReader};
use lib::bit_vector::BitVector;
use lib::bit_writer::{LeftBitWriter, RightBitWriter};

#[test]
fn leftbitreader_read() {
    let mut writer = LeftBitWriter::new(Vec::<u8>::new());
    let _ = writer.write(&BitVector::new(0b1, 1));
    let _ = writer.write(&BitVector::new(0b10, 2));
    let _ = writer.write(&BitVector::new(0b011, 3));
    let _ = writer.write(&BitVector::new(0b00, 2));

    let bytes = writer.into_inner();

    let mut reader = LeftBitReader::new(ByteSource::new(bytes));

    assert_eq!(reader.read(1).ok(), Some(BitVector::new(0b1, 1)));
    assert_eq!(reader.read(2).ok(), Some(BitVector::new(0b10, 2)));
    assert_eq!(reader.read(3).ok(), Some(BitVector::new(0b011, 3)));
    assert_eq!(reader.read(2).ok(), Some(BitVector::new(0b00, 2)));
}

#[test]
fn leftbitreader_read_big() {
    let mut writer = LeftBitWriter::new(Vec::<u8>::new());
    let _ = writer.write(&BitVector::new(975, 10));
    let _ = writer.write(&BitVector::new(475, 10));
    let _ = writer.write(&BitVector::new(3784, 12));

    let bytes = writer.into_inner();

    let mut reader = LeftBitReader::new(ByteSource::new(bytes));

    assert_eq!(reader.read(10).ok(), Some(BitVector::new(975, 10)));
    assert_eq!(reader.read(10).ok(), Some(BitVector::new(475, 10)));
    assert_eq!(reader.read(12).ok(), Some(BitVector::new(3784, 12)));
}

#[test]
fn leftbitreader_peek() {
    let mut writer = LeftBitWriter::new(Vec::<u8>::new());
    let _ = writer.write(&BitVector::new(0b1, 1));
    let _ = writer.write(&BitVector::new(0b10, 2));
    let _ = writer.write(&BitVector::new(0b011, 3));
    let _ = writer.write(&BitVector::new(0b00, 2));

    let bytes = writer.into_inner();

    let mut reader = LeftBitReader::new(ByteSource::new(bytes));

    assert_eq!(reader.peek(1).ok(), Some(BitVector::new(0b1, 1)));
    assert_eq!(reader.read(1).ok(), Some(BitVector::new(0b1, 1)));
    assert_eq!(reader.peek(2).ok(), Some(BitVector::new(0b10, 2)));
    assert_eq!(reader.read(2).ok(), Some(BitVector::new(0b10, 2)));
    assert_eq!(reader.peek(3).ok(), Some(BitVector::new(0b011, 3)));
    assert_eq!(reader.read(3).ok(), Some(BitVector::new(0b011, 3)));
    assert_eq!(reader.peek(2).ok(), Some(BitVector::new(0b00, 2)));
    assert_eq!(reader.read(2).ok(), Some(BitVector::new(0b00, 2)));
}

#[test]
fn leftbitreader_peek_big() {
    let mut writer = LeftBitWriter::new(Vec::<u8>::new());
    let _ = writer.write(&BitVector::new(975, 10));
    let _ = writer.write(&BitVector::new(475, 10));
    let _ = writer.write(&BitVector::new(3784, 12));

    let bytes = writer.into_inner();

    let mut reader = LeftBitReader::new(ByteSource::new(bytes));

    assert_eq!(reader.peek(10).ok(), Some(BitVector::new(975, 10)));
    assert_eq!(reader.read(10).ok(), Some(BitVector::new(975, 10)));
    assert_eq!(reader.peek(10).ok(), Some(BitVector::new(475, 10)));
    assert_eq!(reader.read(10).ok(), Some(BitVector::new(475, 10)));
    assert_eq!(reader.peek(15).ok(), Some(BitVector::new(3784, 12)));
    assert_eq!(reader.read(15).ok(), Some(BitVector::new(3784, 12)));
}

#[test]
fn leftbitreader_zeros() {
    let mut writer = LeftBitWriter::new(Vec::<u8>::new());
    let _ = writer.write(&BitVector::new(32, 16));
    let _ = writer.write(&BitVector::new(8, 5));
    let _ = writer.write(&BitVector::new(0, 3));
    let _ = writer.write(&BitVector::new(1, 3));
    let _ = writer.write(&BitVector::new(0, 3));
    let _ = writer.write(&BitVector::new(3, 2));
    let _ = writer.write(&BitVector::new(0, 3));

    let bytes = writer.into_inner();

    let mut reader = LeftBitReader::new(ByteSource::new(bytes));

    assert_eq!(reader.read(16).ok(), Some(BitVector::new(32, 16)));
    assert_eq!(reader.read(5).ok(), Some(BitVector::new(8, 5)));
    assert_eq!(reader.read(3).ok(), Some(BitVector::new(0, 3)));
    assert_eq!(reader.read(3).ok(), Some(BitVector::new(1, 3)));
    assert_eq!(reader.read(3).ok(), Some(BitVector::new(0, 3)));
    assert_eq!(reader.read(2).ok(), Some(BitVector::new(3, 2)));
    assert_eq!(reader.read(3).ok(), Some(BitVector::new(0, 3)));
}

#[test]
fn leftbitreader_skip() {
    let mut writer = LeftBitWriter::new(Vec::<u8>::new());
    let _ = writer.write(&BitVector::new(0b1, 1));
    let _ = writer.write(&BitVector::new(0b10, 2));
    let _ = writer.write(&BitVector::new(0b011, 3));
    let _ = writer.write(&BitVector::new(0b00, 2));

    let bytes = writer.into_inner();

    let mut reader = LeftBitReader::new(ByteSource::new(bytes));

    assert_eq!(reader.peek(1).ok(), Some(BitVector::new(0b1, 1)));
    assert_eq!(reader.skip(1).ok(), Some(1));
    assert_eq!(reader.peek(2).ok(), Some(BitVector::new(0b10, 2)));
    assert_eq!(reader.skip(2).ok(), Some(2));
    assert_eq!(reader.peek(3).ok(), Some(BitVector::new(0b011, 3)));
    assert_eq!(reader.skip(3).ok(), Some(3));
    assert_eq!(reader.peek(2).ok(), Some(BitVector::new(0b00, 2)));
    assert_eq!(reader.skip_to_byte().ok(), Some(2));
}

#[test]
fn leftbitreader_skip_big() {
    let mut writer = LeftBitWriter::new(Vec::<u8>::new());
    let _ = writer.write(&BitVector::new(975, 10));
    let _ = writer.write(&BitVector::new(475, 10));
    let _ = writer.write(&BitVector::new(3784, 12));

    let bytes = writer.into_inner();

    let mut reader = LeftBitReader::new(ByteSource::new(bytes));

    assert_eq!(reader.peek(10).ok(), Some(BitVector::new(975, 10)));
    assert_eq!(reader.skip(20).ok(), Some(20));
    assert_eq!(reader.peek(15).ok(), Some(BitVector::new(3784, 12)));
    assert_eq!(reader.skip_to_byte().ok(), Some(4));
    assert_eq!(reader.peek(15).ok(), Some(BitVector::new(200, 8)));
}

#[test]
fn rightbitreader_read() {
    let mut writer = RightBitWriter::new(Vec::<u8>::new());
    let _ = writer.write(&BitVector::new(0b1, 1));
    let _ = writer.write(&BitVector::new(0b10, 2));
    let _ = writer.write(&BitVector::new(0b011, 3));
    let _ = writer.write(&BitVector::new(0b00, 2));

    let bytes = writer.into_inner();

    let mut reader = RightBitReader::new(ByteSource::new(bytes));

    assert_eq!(reader.read(1).ok(), Some(BitVector::new(0b1, 1)));
    assert_eq!(reader.read(2).ok(), Some(BitVector::new(0b10, 2)));
    assert_eq!(reader.read(3).ok(), Some(BitVector::new(0b011, 3)));
    assert_eq!(reader.read(2).ok(), Some(BitVector::new(0b00, 2)));
}

#[test]
fn rightbitreader_read_big() {
    let mut writer = RightBitWriter::new(Vec::<u8>::new());
    let _ = writer.write(&BitVector::new(975, 10));
    let _ = writer.write(&BitVector::new(475, 10));
    let _ = writer.write(&BitVector::new(3784, 12));

    let bytes = writer.into_inner();

    let mut reader = RightBitReader::new(ByteSource::new(bytes));

    assert_eq!(reader.read(10).ok(), Some(BitVector::new(975, 10)));
    assert_eq!(reader.read(10).ok(), Some(BitVector::new(475, 10)));
    assert_eq!(reader.read(12).ok(), Some(BitVector::new(3784, 12)));
}

#[test]
fn rightbitreader_peek() {
    let mut writer = RightBitWriter::new(Vec::<u8>::new());
    let _ = writer.write(&BitVector::new(0b1, 1));
    let _ = writer.write(&BitVector::new(0b10, 2));
    let _ = writer.write(&BitVector::new(0b011, 3));
    let _ = writer.write(&BitVector::new(0b00, 2));

    let bytes = writer.into_inner();

    let mut reader = RightBitReader::new(ByteSource::new(bytes));

    assert_eq!(reader.peek(1).ok(), Some(BitVector::new(0b1, 1)));
    assert_eq!(reader.read(1).ok(), Some(BitVector::new(0b1, 1)));
    assert_eq!(reader.peek(2).ok(), Some(BitVector::new(0b10, 2)));
    assert_eq!(reader.read(2).ok(), Some(BitVector::new(0b10, 2)));
    assert_eq!(reader.peek(3).ok(), Some(BitVector::new(0b011, 3)));
    assert_eq!(reader.read(3).ok(), Some(BitVector::new(0b011, 3)));
    assert_eq!(reader.peek(2).ok(), Some(BitVector::new(0b00, 2)));
    assert_eq!(reader.read(2).ok(), Some(BitVector::new(0b00, 2)));
}

#[test]
fn rightbitreader_peek_big() {
    let mut writer = RightBitWriter::new(Vec::<u8>::new());
    let _ = writer.write(&BitVector::new(975, 10));
    let _ = writer.write(&BitVector::new(475, 10));
    let _ = writer.write(&BitVector::new(3784, 12));

    let bytes = writer.into_inner();

    let mut reader = RightBitReader::new(ByteSource::new(bytes));

    assert_eq!(reader.peek(10).ok(), Some(BitVector::new(975, 10)));
    assert_eq!(reader.read(10).ok(), Some(BitVector::new(975, 10)));
    assert_eq!(reader.peek(10).ok(), Some(BitVector::new(475, 10)));
    assert_eq!(reader.read(10).ok(), Some(BitVector::new(475, 10)));
    assert_eq!(reader.peek(15).ok(), Some(BitVector::new(3784, 12)));
    assert_eq!(reader.read(15).ok(), Some(BitVector::new(3784, 12)));
}

#[test]
fn rightbitreader_zeros() {
    let mut writer = RightBitWriter::new(Vec::<u8>::new());
    let _ = writer.write(&BitVector::new(32, 16));
    let _ = writer.write(&BitVector::new(8, 5));
    let _ = writer.write(&BitVector::new(0, 3));
    let _ = writer.write(&BitVector::new(1, 3));
    let _ = writer.write(&BitVector::new(0, 3));
    let _ = writer.write(&BitVector::new(3, 2));
    let _ = writer.write(&BitVector::new(0, 3));

    let bytes = writer.into_inner();

    let mut reader = RightBitReader::new(ByteSource::new(bytes));

    assert_eq!(reader.read(16).ok(), Some(BitVector::new(32, 16)));
    assert_eq!(reader.read(5).ok(), Some(BitVector::new(8, 5)));
    assert_eq!(reader.read(3).ok(), Some(BitVector::new(0, 3)));
    assert_eq!(reader.read(3).ok(), Some(BitVector::new(1, 3)));
    assert_eq!(reader.read(3).ok(), Some(BitVector::new(0, 3)));
    assert_eq!(reader.read(2).ok(), Some(BitVector::new(3, 2)));
    assert_eq!(reader.read(3).ok(), Some(BitVector::new(0, 3)));
}

#[test]
fn rightbitreader_skip() {
    let mut writer = RightBitWriter::new(Vec::<u8>::new());
    let _ = writer.write(&BitVector::new(0b1, 1));
    let _ = writer.write(&BitVector::new(0b10, 2));
    let _ = writer.write(&BitVector::new(0b011, 3));
    let _ = writer.write(&BitVector::new(0b00, 2));

    let bytes = writer.into_inner();

    let mut reader = RightBitReader::new(ByteSource::new(bytes));

    assert_eq!(reader.peek(1).ok(), Some(BitVector::new(0b1, 1)));
    assert_eq!(reader.skip(1).ok(), Some(1));
    assert_eq!(reader.peek(2).ok(), Some(BitVector::new(0b10, 2)));
    assert_eq!(reader.skip(2).ok(), Some(2));
    assert_eq!(reader.peek(3).ok(), Some(BitVector::new(0b011, 3)));
    assert_eq!(reader.skip(3).ok(), Some(3));
    assert_eq!(reader.peek(2).ok(), Some(BitVector::new(0b00, 2)));
    assert_eq!(reader.skip_to_byte().ok(), Some(2));
}

#[test]
fn rightbitreader_skip_big() {
    let mut writer = RightBitWriter::new(Vec::<u8>::new());
    let _ = writer.write(&BitVector::new(975, 10));
    let _ = writer.write(&BitVector::new(475, 10));
    let _ = writer.write(&BitVector::new(3784, 12));

    let bytes = writer.into_inner();

    let mut reader = RightBitReader::new(ByteSource::new(bytes));

    assert_eq!(reader.peek(10).ok(), Some(BitVector::new(975, 10)));
    assert_eq!(reader.skip(20).ok(), Some(20));
    assert_eq!(reader.peek(15).ok(), Some(BitVector::new(3784, 12)));
    assert_eq!(reader.skip_to_byte().ok(), Some(4));
    assert_eq!(reader.peek(15).ok(), Some(BitVector::new(0xEC, 8)));
}
