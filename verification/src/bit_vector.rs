use vstd::prelude::*;

verus! {

/// Bit `i` of `x` (bit 0 is the least significant one).
pub open spec fn bit32(x: u32, i: int) -> bool {
    (x >> (i as u32)) & 1 == 1
}

/// `r` holds, in its low `len` bits, the low `len` bits of `x` in reverse
/// order, and nothing above them.
pub open spec fn is_reversed32(x: u32, r: u32, len: int) -> bool {
    &&& forall|i: int| 0 <= i < len ==> #[trigger] bit32(r, i) == bit32(x, len - 1 - i)
    &&& forall|i: int| len <= i < 32 ==> !#[trigger] bit32(r, i)
}

/// Bit `i` of the byte `b` (bit 0 is the least significant one).
pub open spec fn bit8(b: u8, i: int) -> bool {
    (b >> (i as u8)) & 1 == 1
}

/// The bits of `bytes`, the most significant bit of each byte first.
pub open spec fn bytes_msb(bytes: Seq<u8>) -> Seq<bool> {
    Seq::new(8 * bytes.len(), |k: int| bit8(bytes[k / 8], 7 - k % 8))
}

/// The bits of `bytes`, the least significant bit of each byte first.
pub open spec fn bytes_lsb(bytes: Seq<u8>) -> Seq<bool> {
    Seq::new(8 * bytes.len(), |k: int| bit8(bytes[k / 8], k % 8))
}

/// The low `len` bits of `data`, the most significant one first.
pub open spec fn bits_msb(data: u32, len: nat) -> Seq<bool> {
    Seq::new(len, |i: int| len - 1 - i < 32 && bit32(data, len - 1 - i))
}

/// The low `len` bits of `data`, the least significant one first.
pub open spec fn bits_lsb(data: u32, len: nat) -> Seq<bool> {
    Seq::new(len, |i: int| i < 32 && bit32(data, i))
}

/// No bit of `data` at or above position `len` is set.
pub open spec fn fits(data: u32, len: nat) -> bool {
    forall|i: int| len <= i < 32 ==> !#[trigger] bit32(data, i)
}

/// A word with no bit set at or above `n` is below `2^n`.
pub proof fn lemma_fits_word(x: u32, n: u32)
    by (bit_vector)
    requires
        n <= 32,
        n <= 0 ==> !bit32(x, 0),
        n <= 1 ==> !bit32(x, 1),
        n <= 2 ==> !bit32(x, 2),
        n <= 3 ==> !bit32(x, 3),
        n <= 4 ==> !bit32(x, 4),
        n <= 5 ==> !bit32(x, 5),
        n <= 6 ==> !bit32(x, 6),
        n <= 7 ==> !bit32(x, 7),
        n <= 8 ==> !bit32(x, 8),
        n <= 9 ==> !bit32(x, 9),
        n <= 10 ==> !bit32(x, 10),
        n <= 11 ==> !bit32(x, 11),
        n <= 12 ==> !bit32(x, 12),
        n <= 13 ==> !bit32(x, 13),
        n <= 14 ==> !bit32(x, 14),
        n <= 15 ==> !bit32(x, 15),
        n <= 16 ==> !bit32(x, 16),
        n <= 17 ==> !bit32(x, 17),
        n <= 18 ==> !bit32(x, 18),
        n <= 19 ==> !bit32(x, 19),
        n <= 20 ==> !bit32(x, 20),
        n <= 21 ==> !bit32(x, 21),
        n <= 22 ==> !bit32(x, 22),
        n <= 23 ==> !bit32(x, 23),
        n <= 24 ==> !bit32(x, 24),
        n <= 25 ==> !bit32(x, 25),
        n <= 26 ==> !bit32(x, 26),
        n <= 27 ==> !bit32(x, 27),
        n <= 28 ==> !bit32(x, 28),
        n <= 29 ==> !bit32(x, 29),
        n <= 30 ==> !bit32(x, 30),
        n <= 31 ==> !bit32(x, 31),
    ensures
        (x as u64) >> (n as u64) == 0,
{
}

/// `fits` as a bound on the word.
pub proof fn lemma_fits_bound(x: u32, n: nat)
    requires
        n <= 32,
        fits(x, n),
    ensures
        (x as u64) >> (n as u64) == 0,
{
    assert(n <= 0 ==> !bit32(x, 0));
    assert(n <= 1 ==> !bit32(x, 1));
    assert(n <= 2 ==> !bit32(x, 2));
    assert(n <= 3 ==> !bit32(x, 3));
    assert(n <= 4 ==> !bit32(x, 4));
    assert(n <= 5 ==> !bit32(x, 5));
    assert(n <= 6 ==> !bit32(x, 6));
    assert(n <= 7 ==> !bit32(x, 7));
    assert(n <= 8 ==> !bit32(x, 8));
    assert(n <= 9 ==> !bit32(x, 9));
    assert(n <= 10 ==> !bit32(x, 10));
    assert(n <= 11 ==> !bit32(x, 11));
    assert(n <= 12 ==> !bit32(x, 12));
    assert(n <= 13 ==> !bit32(x, 13));
    assert(n <= 14 ==> !bit32(x, 14));
    assert(n <= 15 ==> !bit32(x, 15));
    assert(n <= 16 ==> !bit32(x, 16));
    assert(n <= 17 ==> !bit32(x, 17));
    assert(n <= 18 ==> !bit32(x, 18));
    assert(n <= 19 ==> !bit32(x, 19));
    assert(n <= 20 ==> !bit32(x, 20));
    assert(n <= 21 ==> !bit32(x, 21));
    assert(n <= 22 ==> !bit32(x, 22));
    assert(n <= 23 ==> !bit32(x, 23));
    assert(n <= 24 ==> !bit32(x, 24));
    assert(n <= 25 ==> !bit32(x, 25));
    assert(n <= 26 ==> !bit32(x, 26));
    assert(n <= 27 ==> !bit32(x, 27));
    assert(n <= 28 ==> !bit32(x, 28));
    assert(n <= 29 ==> !bit32(x, 29));
    assert(n <= 30 ==> !bit32(x, 30));
    assert(n <= 31 ==> !bit32(x, 31));
    lemma_fits_word(x, n as u32);
}

/// Splitting off the first byte of a byte sequence splits off its first
/// eight bits, in either bit order.
pub proof fn lemma_bytes_bits_first(bytes: Seq<u8>)
    requires
        bytes.len() > 0,
    ensures
        bytes_msb(bytes) == bytes_msb(seq![bytes[0]]) + bytes_msb(bytes.skip(1)),
        bytes_lsb(bytes) == bytes_lsb(seq![bytes[0]]) + bytes_lsb(bytes.skip(1)),
{
    let a = bytes_msb(bytes);
    let b = bytes_msb(seq![bytes[0]]) + bytes_msb(bytes.skip(1));
    assert forall|k: int| 0 <= k < a.len() implies a[k] == b[k] by {
        if k >= 8 {
            assert((k - 8) / 8 == k / 8 - 1);
            assert((k - 8) % 8 == k % 8);
        }
    }
    assert(a =~= b);
    let c = bytes_lsb(bytes);
    let d = bytes_lsb(seq![bytes[0]]) + bytes_lsb(bytes.skip(1));
    assert forall|k: int| 0 <= k < c.len() implies c[k] == d[k] by {
        if k >= 8 {
            assert((k - 8) / 8 == k / 8 - 1);
            assert((k - 8) % 8 == k % 8);
        }
    }
    assert(c =~= d);
}

/// The bits of a concatenation of byte sequences are the concatenation of
/// their bits.
pub proof fn lemma_bytes_bits_append(a: Seq<u8>, b: Seq<u8>)
    ensures
        bytes_msb(a + b) == bytes_msb(a) + bytes_msb(b),
        bytes_lsb(a + b) == bytes_lsb(a) + bytes_lsb(b),
{
    let x = bytes_msb(a + b);
    let y = bytes_msb(a) + bytes_msb(b);
    assert forall|k: int| 0 <= k < x.len() implies x[k] == y[k] by {
        if k >= 8 * a.len() {
            assert((k - 8 * a.len()) / 8 == k / 8 - a.len()) by (nonlinear_arith)
                requires k >= 8 * a.len();
            assert((k - 8 * a.len()) % 8 == k % 8) by (nonlinear_arith)
                requires k >= 8 * a.len();
        } else {
            assert(k / 8 < a.len()) by (nonlinear_arith)
                requires 0 <= k < 8 * a.len();
        }
    }
    assert(x =~= y);
    let u = bytes_lsb(a + b);
    let v = bytes_lsb(a) + bytes_lsb(b);
    assert forall|k: int| 0 <= k < u.len() implies u[k] == v[k] by {
        if k >= 8 * a.len() {
            assert((k - 8 * a.len()) / 8 == k / 8 - a.len()) by (nonlinear_arith)
                requires k >= 8 * a.len();
            assert((k - 8 * a.len()) % 8 == k % 8) by (nonlinear_arith)
                requires k >= 8 * a.len();
        } else {
            assert(k / 8 < a.len()) by (nonlinear_arith)
                requires 0 <= k < 8 * a.len();
        }
    }
    assert(u =~= v);
}

/// A run of at most 32 bits, held in the low bits of `data`.
#[derive(Copy, PartialEq, Eq, Structural, Clone, Debug, Hash)]
pub struct BitVector {
    data: u32,
    len: usize,
}

impl BitVector {
    pub closed spec fn spec_data(&self) -> u32 {
        self.data
    }

    pub closed spec fn spec_len(&self) -> usize {
        self.len
    }

    pub fn new(data: u32, len: usize) -> (r: Self)
        ensures
            r.spec_data() == data,
            r.spec_len() == len,
    {
        BitVector { data, len }
    }

    /// Reverses the order of the low `len` bits.
    pub fn reverse(&self) -> (r: Self)
        requires
            0 < self.spec_len() <= 32,
        ensures
            r.spec_len() == self.spec_len(),
            is_reversed32(self.spec_data(), r.spec_data(), self.spec_len() as int),
    {
        let x0 = self.data;
        let x1 = (x0 & 0x5555_5555) << 1u32 | (x0 & 0xAAAA_AAAA) >> 1u32;
        let x2 = (x1 & 0x3333_3333) << 2u32 | (x1 & 0xCCCC_CCCC) >> 2u32;
        let x3 = (x2 & 0x0F0F_0F0F) << 4u32 | (x2 & 0xF0F0_F0F0) >> 4u32;
        let x4 = x3 << 24u32 | (x3 & 0xFF00) << 8u32 | (x3 & 0x00FF_0000) >> 8u32 | x3 >> 24u32;
        let s: u32 = (32 - self.len) as u32;
        let x5 = x4 >> s;
        let len = self.len;
        assert forall|i: int| 0 <= i < len implies #[trigger] bit32(x5, i) == bit32(x0, len - 1 - i) by {
            let iu = i as u32;
            let lu = len as u32;
            assert(((x5 >> iu) & 1 == 1) == ((x0 >> ((lu - 1 - iu) as u32)) & 1 == 1)) by (bit_vector)
                requires
                    iu < lu,
                    lu <= 32,
                    s == 32 - lu,
                    x1 == (x0 & 0x5555_5555) << 1u32 | (x0 & 0xAAAA_AAAA) >> 1u32,
                    x2 == (x1 & 0x3333_3333) << 2u32 | (x1 & 0xCCCC_CCCC) >> 2u32,
                    x3 == (x2 & 0x0F0F_0F0F) << 4u32 | (x2 & 0xF0F0_F0F0) >> 4u32,
                    x4 == x3 << 24u32 | (x3 & 0xFF00) << 8u32 | (x3 & 0x00FF_0000) >> 8u32 | x3 >> 24u32,
                    x5 == x4 >> s,
            ;
        }
        assert forall|i: int| len <= i < 32 implies !#[trigger] bit32(x5, i) by {
            let iu = i as u32;
            let lu = len as u32;
            assert((x5 >> iu) & 1 != 1) by (bit_vector)
                requires
                    lu <= iu,
                    iu < 32,
                    s == 32 - lu,
                    x5 == x4 >> s,
            ;
        }
        Self::new(x5, self.len)
    }

    #[inline]
    pub fn data(&self) -> (r: u32)
        ensures
            r == self.spec_data(),
    {
        self.data
    }

    #[inline]
    pub fn len(&self) -> (r: usize)
        ensures
            r == self.spec_len(),
    {
        self.len
    }

    #[inline]
    pub fn is_empty(&self) -> (r: bool)
        ensures
            r == (self.spec_len() == 0),
    {
        self.len == 0
    }
}

} // verus!
