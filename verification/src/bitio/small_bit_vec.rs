use vstd::prelude::*;

verus! {

broadcast use vstd::layout::layout_of_primitives;

/// Bit `i` of an unsigned value, for each width.
pub open spec fn bit8(x: u8, i: int) -> bool {
    (x >> (i as u8)) & 1 == 1
}

pub open spec fn bit16(x: u16, i: int) -> bool {
    (x >> (i as u16)) & 1 == 1
}

pub open spec fn bit32(x: u32, i: int) -> bool {
    (x >> (i as u32)) & 1 == 1
}

pub open spec fn bit64(x: u64, i: int) -> bool {
    (x >> (i as u64)) & 1 == 1
}

/// Bit `i` of the result of reversing the low `len` bits of a `u64`, as
/// `SmallBitVec<u64>::reverse` computes it.
pub open spec fn rev64_bit(x: u64, len: int, i: int) -> bool {
    let p = 64 - len + i;
    if p < 32 {
        bit64(x, len - 1 - i)
    } else if p < 48 {
        false
    } else {
        bit64(x, len - 1 - i) || bit64(x, len + 31 - i)
    }
}

/// A run of `len` bits held in the low bits of a value of type `T`.
#[derive(Clone, Debug, PartialEq, Eq)]
pub struct SmallBitVec<T> {
    data: T,
    len: usize,
}

impl<T> SmallBitVec<T> {
    pub closed spec fn spec_data(&self) -> T {
        self.data
    }

    pub closed spec fn spec_len(&self) -> usize {
        self.len
    }

    /// The number of bits that a value of `T` holds.
    pub open spec fn capacity() -> int {
        (8 * vstd::layout::size_of::<T>()) as int
    }

    pub fn new(data: T, len: usize) -> (r: Self)
        requires
            len <= Self::capacity(),
        ensures
            r.spec_data() == data,
            r.spec_len() == len,
    {
        SmallBitVec { data, len }
    }

    #[inline]
    pub fn len(&self) -> (r: usize)
        ensures
            r == self.spec_len(),
    {
        self.len
    }

    #[inline]
    pub fn is_empty(&self) -> (r: bool)
        ensures
            r == (self.spec_len() == 0),
    {
        self.len == 0
    }

    #[inline]
    pub fn data_ref(&self) -> (r: &T)
        ensures
            *r == self.spec_data(),
    {
        &self.data
    }
}

impl<T: Copy> SmallBitVec<T> {
    #[inline]
    pub fn data(&self) -> (r: T)
        ensures
            r == self.spec_data(),
    {
        self.data
    }
}

/// Reversal of the bit order of a `SmallBitVec`.
pub trait SmallBitVecReverse: Sized {
    /// The vector holds at least one and at most as many bits as its type.
    spec fn reversible(&self) -> bool;

    /// `r` holds the bits of `self` in reverse order.
    spec fn reverses(&self, r: &Self) -> bool;

    fn reverse(&self) -> (r: Self)
        requires
            self.reversible(),
        ensures
            self.reverses(&r),
    ;
}

impl SmallBitVecReverse for SmallBitVec<u8> {
    open spec fn reversible(&self) -> bool {
        0 < self.spec_len() <= 8
    }

    open spec fn reverses(&self, r: &Self) -> bool {
        &&& r.spec_len() == self.spec_len()
        &&& forall|i: int|
            0 <= i < self.spec_len() ==> #[trigger] bit8(r.spec_data(), i) == bit8(
                self.spec_data(),
                self.spec_len() - 1 - i,
            )
        &&& forall|i: int| self.spec_len() <= i < 8 ==> !#[trigger] bit8(r.spec_data(), i)
    }

    fn reverse(&self) -> (r: Self) {
        let x0 = self.data;
        let x1 = (x0 & 0x55) << 1u8 | (x0 & 0xAA) >> 1u8;
        let x2 = (x1 & 0x33) << 2u8 | (x1 & 0xCC) >> 2u8;
        let x3 = x2 << 4u8 | x2 >> 4u8;
        let s: u8 = (8 - self.len) as u8;
        let x4 = x3 >> s;
        let len = self.len;
        assert forall|i: int| 0 <= i < len implies #[trigger] bit8(x4, i) == bit8(x0, len - 1 - i) by {
            let iu = i as u8;
            let lu = len as u8;
            assert(((x4 >> iu) & 1 == 1) == ((x0 >> ((lu - 1 - iu) as u8)) & 1 == 1)) by (bit_vector)
                requires
                    iu < lu,
                    lu <= 8,
                    s == 8 - lu,
                    x1 == (x0 & 0x55) << 1u8 | (x0 & 0xAA) >> 1u8,
                    x2 == (x1 & 0x33) << 2u8 | (x1 & 0xCC) >> 2u8,
                    x3 == x2 << 4u8 | x2 >> 4u8,
                    x4 == x3 >> s,
            ;
        }
        assert forall|i: int| len <= i < 8 implies !#[trigger] bit8(x4, i) by {
            let iu = i as u8;
            let lu = len as u8;
            assert((x4 >> iu) & 1 != 1) by (bit_vector)
                requires
                    lu <= iu,
                    iu < 8,
                    s == 8 - lu,
                    x4 == x3 >> s,
            ;
        }
        Self::new(x4, self.len)
    }
}

impl SmallBitVecReverse for SmallBitVec<u16> {
    open spec fn reversible(&self) -> bool {
        0 < self.spec_len() <= 16
    }

    open spec fn reverses(&self, r: &Self) -> bool {
        &&& r.spec_len() == self.spec_len()
        &&& forall|i: int|
            0 <= i < self.spec_len() ==> #[trigger] bit16(r.spec_data(), i) == bit16(
                self.spec_data(),
                self.spec_len() - 1 - i,
            )
        &&& forall|i: int| self.spec_len() <= i < 16 ==> !#[trigger] bit16(r.spec_data(), i)
    }

    fn reverse(&self) -> (r: Self) {
        let x0 = self.data;
        let x1 = (x0 & 0x5555) << 1u16 | (x0 & 0xAAAA) >> 1u16;
        let x2 = (x1 & 0x3333) << 2u16 | (x1 & 0xCCCC) >> 2u16;
        let x3 = (x2 & 0x0F0F) << 4u16 | (x2 & 0xF0F0) >> 4u16;
        let x4 = x3 << 8u16 | x3 >> 8u16;
        let s: u16 = (16 - self.len) as u16;
        let x5 = x4 >> s;
        let len = self.len;
        assert forall|i: int| 0 <= i < len implies #[trigger] bit16(x5, i) == bit16(x0, len - 1 - i) by {
            let iu = i as u16;
            let lu = len as u16;
            assert(((x5 >> iu) & 1 == 1) == ((x0 >> ((lu - 1 - iu) as u16)) & 1 == 1)) by (bit_vector)
                requires
                    iu < lu,
                    lu <= 16,
                    s == 16 - lu,
                    x1 == (x0 & 0x5555) << 1u16 | (x0 & 0xAAAA) >> 1u16,
                    x2 == (x1 & 0x3333) << 2u16 | (x1 & 0xCCCC) >> 2u16,
                    x3 == (x2 & 0x0F0F) << 4u16 | (x2 & 0xF0F0) >> 4u16,
                    x4 == x3 << 8u16 | x3 >> 8u16,
                    x5 == x4 >> s,
            ;
        }
        assert forall|i: int| len <= i < 16 implies !#[trigger] bit16(x5, i) by {
            let iu = i as u16;
            let lu = len as u16;
            assert((x5 >> iu) & 1 != 1) by (bit_vector)
                requires
                    lu <= iu,
                    iu < 16,
                    s == 16 - lu,
                    x5 == x4 >> s,
            ;
        }
        Self::new(x5, self.len)
    }
}

impl SmallBitVecReverse for SmallBitVec<u32> {
    open spec fn reversible(&self) -> bool {
        0 < self.spec_len() <= 32
    }

    open spec fn reverses(&self, r: &Self) -> bool {
        &&& r.spec_len() == self.spec_len()
        &&& forall|i: int|
            0 <= i < self.spec_len() ==> #[trigger] bit32(r.spec_data(), i) == bit32(
                self.spec_data(),
                self.spec_len() - 1 - i,
            )
        &&& forall|i: int| self.spec_len() <= i < 32 ==> !#[trigger] bit32(r.spec_data(), i)
    }

    fn reverse(&self) -> (r: Self) {
        let x0 = self.data;
        let x1 = (x0 & 0x5555_5555) << 1u32 | (x0 & 0xAAAA_AAAA) >> 1u32;
        let x2 = (x1 & 0x3333_3333) << 2u32 | (x1 & 0xCCCC_CCCC) >> 2u32;
        let x3 = (x2 & 0x0F0F_0F0F) << 4u32 | (x2 & 0xF0F0_F0F0) >> 4u32;
        let x4 = (x3 & 0x00FF_00FF) << 8u32 | (x3 & 0xFF00_FF00) >> 8u32;
        let x5 = x4 << 16u32 | x4 >> 16u32;
        let s: u32 = (32 - self.len) as u32;
        let x6 = x5 >> s;
        let len = self.len;
        assert forall|i: int| 0 <= i < len implies #[trigger] bit32(x6, i) == bit32(x0, len - 1 - i) by {
            let iu = i as u32;
            let lu = len as u32;
            assert(((x6 >> iu) & 1 == 1) == ((x0 >> ((lu - 1 - iu) as u32)) & 1 == 1)) by (bit_vector)
                requires
                    iu < lu,
                    lu <= 32,
                    s == 32 - lu,
                    x1 == (x0 & 0x5555_5555) << 1u32 | (x0 & 0xAAAA_AAAA) >> 1u32,
                    x2 == (x1 & 0x3333_3333) << 2u32 | (x1 & 0xCCCC_CCCC) >> 2u32,
                    x3 == (x2 & 0x0F0F_0F0F) << 4u32 | (x2 & 0xF0F0_F0F0) >> 4u32,
                    x4 == (x3 & 0x00FF_00FF) << 8u32 | (x3 & 0xFF00_FF00) >> 8u32,
                    x5 == x4 << 16u32 | x4 >> 16u32,
                    x6 == x5 >> s,
            ;
        }
        assert forall|i: int| len <= i < 32 implies !#[trigger] bit32(x6, i) by {
            let iu = i as u32;
            let lu = len as u32;
            assert((x6 >> iu) & 1 != 1) by (bit_vector)
                requires
                    lu <= iu,
                    iu < 32,
                    s == 32 - lu,
                    x6 == x5 >> s,
            ;
        }
        Self::new(x6, self.len)
    }
}

impl SmallBitVecReverse for SmallBitVec<u64> {
    open spec fn reversible(&self) -> bool {
        0 < self.spec_len() <= 64
    }

    /// The 64-bit variant reverses the whole word in five swap stages whose
    /// fifth stage masks with `0xFFFF_FFFF_0000_0000` (not the
    /// `0xFFFF_0000_FFFF_0000` of a true reversal). Counting the position
    /// `p = 64 - len + i` that bit `i` of the result has in the reversed word,
    /// bit `i` is the mirrored bit `len - 1 - i` for `p < 32`, is clear for
    /// `32 <= p < 48`, and is the mirrored bit or-ed with bit `len + 31 - i`
    /// for `p >= 48`.
    open spec fn reverses(&self, r: &Self) -> bool {
        &&& r.spec_len() == self.spec_len()
        &&& forall|i: int|
            0 <= i < self.spec_len() ==> #[trigger] bit64(r.spec_data(), i) == rev64_bit(
                self.spec_data(),
                self.spec_len() as int,
                i,
            )
        &&& forall|i: int| self.spec_len() <= i < 64 ==> !#[trigger] bit64(r.spec_data(), i)
    }

    fn reverse(&self) -> (r: Self) {
        let x0 = self.data;
        let x1 = (x0 & 0x5555_5555_5555_5555) << 1u64 | (x0 & 0xAAAA_AAAA_AAAA_AAAA) >> 1u64;
        let x2 = (x1 & 0x3333_3333_3333_3333) << 2u64 | (x1 & 0xCCCC_CCCC_CCCC_CCCC) >> 2u64;
        let x3 = (x2 & 0x0F0F_0F0F_0F0F_0F0F) << 4u64 | (x2 & 0xF0F0_F0F0_F0F0_F0F0) >> 4u64;
        let x4 = (x3 & 0x00FF_00FF_00FF_00FF) << 8u64 | (x3 & 0xFF00_FF00_FF00_FF00) >> 8u64;
        let x5 = (x4 & 0x0000_FFFF_0000_FFFF) << 16u64 | (x4 & 0xFFFF_FFFF_0000_0000) >> 16u64;
        let x6 = x5 << 32u64 | x5 >> 32u64;
        let s: u64 = (64 - self.len) as u64;
        let x7 = x6 >> s;
        let len = self.len;
        assert forall|i: int| 0 <= i < len implies #[trigger] bit64(x7, i) == rev64_bit(x0, len as int, i) by {
            let iu = i as u64;
            let lu = len as u64;
            assert(((x7 >> iu) & 1 == 1) == (if 64 - lu + iu < 32 {
                (x0 >> ((lu - 1 - iu) as u64)) & 1 == 1
            } else if 64 - lu + iu < 48 {
                false
            } else {
                (x0 >> ((lu - 1 - iu) as u64)) & 1 == 1 || (x0 >> ((lu + 31 - iu) as u64)) & 1 == 1
            })) by (bit_vector)
                requires
                    iu < lu,
                    lu <= 64,
                    s == 64 - lu,
                    x1 == (x0 & 0x5555_5555_5555_5555) << 1u64 | (x0 & 0xAAAA_AAAA_AAAA_AAAA) >> 1u64,
                    x2 == (x1 & 0x3333_3333_3333_3333) << 2u64 | (x1 & 0xCCCC_CCCC_CCCC_CCCC) >> 2u64,
                    x3 == (x2 & 0x0F0F_0F0F_0F0F_0F0F) << 4u64 | (x2 & 0xF0F0_F0F0_F0F0_F0F0) >> 4u64,
                    x4 == (x3 & 0x00FF_00FF_00FF_00FF) << 8u64 | (x3 & 0xFF00_FF00_FF00_FF00) >> 8u64,
                    x5 == (x4 & 0x0000_FFFF_0000_FFFF) << 16u64 | (x4 & 0xFFFF_FFFF_0000_0000) >> 16u64,
                    x6 == x5 << 32u64 | x5 >> 32u64,
                    x7 == x6 >> s,
            ;
        }
        assert forall|i: int| len <= i < 64 implies !#[trigger] bit64(x7, i) by {
            let iu = i as u64;
            let lu = len as u64;
            assert((x7 >> iu) & 1 != 1) by (bit_vector)
                requires
                    lu <= iu,
                    iu < 64,
                    s == 64 - lu,
                    x7 == x6 >> s,
            ;
        }
        Self::new(x7, self.len)
    }
}

impl<T: Default> Default for SmallBitVec<T> {
    fn default() -> (r: Self)
        ensures
            r.spec_len() == 0,
    {
        SmallBitVec { data: T::default(), len: 0 }
    }
}

} // verus!
