use lib::bit_vector::BitVector;
use lib::bitio::small_bit_vec::{SmallBitVec, SmallBitVecReverse};

#[test]
fn bitvector_reverse() {
    assert_eq!(
        BitVector::new(0xC71F, 17).reverse(),
        BitVector::new(0x1F1C6, 17)
    );
}

#[test]
fn smallbitvec_u8_reverse() {
    assert_eq!(
        SmallBitVec::<u8>::new(0x1D, 7).reverse(),
        SmallBitVec::<u8>::new(0x5C, 7)
    );
}

#[test]
fn smallbitvec_u16_reverse() {
    assert_eq!(
        SmallBitVec::<u16>::new(0x071F, 13).reverse(),
        SmallBitVec::<u16>::new(0x1F1C, 13)
    );
}

#[test]
fn smallbitvec_u32_reverse() {
    assert_eq!(
        SmallBitVec::<u32>::new(0xC71F, 17).reverse(),
        SmallBitVec::<u32>::new(0x0001_F1C6, 17)
    );
}

#[test]
fn smallbitvec_u64_reverse() {
    assert_eq!(
        SmallBitVec::<u64>::new(0xC71F, 17).reverse(),
        SmallBitVec::<u64>::new(0x0001_F1C6, 17)
    );
}

#[test]
fn bitvector_reverse_full_word() {
    assert_eq!(
        BitVector::new(0x0000_0001, 32).reverse(),
        BitVector::new(0x8000_0000, 32)
    );
    assert_eq!(BitVector::new(0b1, 1).reverse(), BitVector::new(0b1, 1));
}

#[test]
fn bitvector_reverse_twice_is_identity() {
    let v = BitVector::new(0x2B5, 10);
    assert_eq!(v.reverse().reverse(), v);
}

#[test]
fn bitvector_accessors() {
    let v = BitVector::new(5, 3);
    assert_eq!(v.data(), 5);
    assert_eq!(v.len(), 3);
    assert!(!v.is_empty());
    assert!(BitVector::new(0, 0).is_empty());
}
