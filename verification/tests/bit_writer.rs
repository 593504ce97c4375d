use lib::bit_vector::BitVector;
use lib::bit_writer::{LeftBitWriter, RightBitWriter};

#[test]
fn bit_writer_leftbitwriter_write() {
    let mut writer = LeftBitWriter::new(Vec::<u8>::new());
    let _ = writer.write(&BitVector::new(0b1, 1));
    let _ = writer.write(&BitVector::new(0b10, 2));
    let _ = writer.write(&BitVector::new(0b011, 3));
    let _ = writer.write(&BitVector::new(0b00, 2));
    assert_eq!(writer.get_ref()[0], 0b1100_1100);
    assert_eq!(writer.get_ref().len(), 1);
}

#[test]
fn bit_writer_leftbitwriter_write_big() {
    let mut writer = LeftBitWriter::new(Vec::<u8>::new());
    let _ = writer.write(&BitVector::new(975, 10));
    let _ = writer.write(&BitVector::new(475, 10));
    let _ = writer.write(&BitVector::new(3784, 12));
    assert_eq!(writer.get_ref()[0], 243);
    assert_eq!(writer.get_ref()[1], 221);
    assert_eq!(writer.get_ref()[2], 190);
    assert_eq!(writer.get_ref()[3], 200);
    assert_eq!(writer.get_ref().len(), 4);
}

#[test]
fn bit_writer_leftbitwriter_write_pad() {
    let mut writer = LeftBitWriter::new(Vec::<u8>::new());
    let _ = writer.write(&BitVector::new(1, 1));
    let _ = writer.write(&BitVector::new(2, 2));
    let _ = writer.write(&BitVector::new(3, 3));
    assert_eq!(writer.get_ref().len(), 0);
    let _ = writer.flush();
    assert_eq!(writer.get_ref()[0], 204);
    assert_eq!(writer.get_ref().len(), 1);
}

#[test]
fn bit_writer_leftbitwriter_write_1bit() {
    let mut writer = LeftBitWriter::new(Vec::<u8>::new());
    let _ = writer.write(&BitVector::new(1, 1));
    let inner = writer.into_inner();
    assert_eq!(inner[0], 128);
}

#[test]
fn bit_writer_leftbitwriter_zero() {
    let mut writer = LeftBitWriter::new(Vec::<u8>::new());
    let _ = writer.write(&BitVector::new(0, 10));
    let _ = writer.write(&BitVector::new(0, 0));
    let _ = writer.write(&BitVector::new(0, 1));
    let _ = writer.write(&BitVector::new(0, 2));
    let _ = writer.write(&BitVector::new(0, 3));
    let _ = writer.write(&BitVector::new(0, 4));
    let _ = writer.write(&BitVector::new(0, 12));
    assert_eq!(writer.get_ref()[0], 0);
    assert_eq!(writer.get_ref()[1], 0);
    assert_eq!(writer.get_ref()[2], 0);
    assert_eq!(writer.get_ref()[3], 0);
    assert_eq!(writer.get_ref().len(), 4);
}

#[test]
fn bit_writer_rightbitwriter_write() {
    let mut writer = RightBitWriter::new(Vec::<u8>::new());
    let _ = writer.write(&BitVector::new(0b1, 1));
    let _ = writer.write(&BitVector::new(0b10, 2));
    let _ = writer.write(&BitVector::new(0b011, 3));
    let _ = writer.write(&BitVector::new(0b00, 2));
    assert_eq!(writer.get_ref()[0], 0b0001_1101);
    assert_eq!(writer.get_ref().len(), 1);
}

#[test]
fn bit_writer_rightbitwriter_write_big() {
    let mut writer = RightBitWriter::new(Vec::<u8>::new());
    let _ = writer.write(&BitVector::new(975, 10));
    let _ = writer.write(&BitVector::new(475, 10));
    let _ = writer.write(&BitVector::new(3784, 12));
    assert_eq!(writer.get_ref()[0], 0xCF);
    assert_eq!(writer.get_ref()[1], 0x6F);
    assert_eq!(writer.get_ref()[2], 0x87);
    assert_eq!(writer.get_ref()[3], 0xEC);
    assert_eq!(writer.get_ref().len(), 4);
}

#[test]
fn bit_writer_rightbitwriter_write_pad() {
    let mut writer = RightBitWriter::new(Vec::<u8>::new());
    let _ = writer.write(&BitVector::new(1, 1));
    let _ = writer.write(&BitVector::new(2, 2));
    let _ = writer.write(&BitVector::new(3, 3));
    assert_eq!(writer.get_ref().len(), 0);
    let _ = writer.flush();
    assert_eq!(writer.get_ref()[0], 0b0001_1101);
    assert_eq!(writer.get_ref().len(), 1);
}

#[test]
fn bit_writer_rightbitwriter_write_1bit() {
    let mut writer = RightBitWriter::new(Vec::<u8>::new());
    let _ = writer.write(&BitVector::new(1, 1));
    let inner = writer.into_inner();
    assert_eq!(inner[0], 1);
}

#[test]
fn bit_writer_rightbitwriter_zero() {
    let mut writer = RightBitWriter::new(Vec::<u8>::new());
    let _ = writer.write(&BitVector::new(0, 10));
    let _ = writer.write(&BitVector::new(0, 0));
    let _ = writer.write(&BitVector::new(0, 1));
    let _ = writer.write(&BitVector::new(0, 2));
    let _ = writer.write(&BitVector::new(0, 3));
    let _ = writer.write(&BitVector::new(0, 4));
    let _ = writer.write(&BitVector::new(0, 12));
    assert_eq!(writer.get_ref()[0], 0);
    assert_eq!(writer.get_ref()[1], 0);
    assert_eq!(writer.get_ref()[2], 0);
    assert_eq!(writer.get_ref()[3], 0);
    assert_eq!(writer.get_ref().len(), 4);
}
