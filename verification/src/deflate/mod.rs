pub mod decoder;
pub mod encoder;

use vstd::prelude::*;
use crate::bitio::small_bit_vec::SmallBitVec;

verus! {

broadcast use vstd::layout::layout_of_primitives;

/// The code lengths of the fixed literal/length code.
pub open spec fn fixed_symbol_length(i: int) -> u8 {
    if i < 144 {
        8
    } else if i < 256 {
        9
    } else if i < 280 {
        7
    } else {
        8
    }
}

/// The code lengths of the fixed literal/length code: 288 symbols.
pub fn fix_symbol_table() -> (r: Vec<u8>)
    ensures
        r@ == Seq::new(288, |i: int| fixed_symbol_length(i)),
{
    let mut r = vec![8u8; 144];
    r.append(&mut vec![9u8; 112]);
    r.append(&mut vec![7u8; 24]);
    r.append(&mut vec![8u8; 8]);
    assert(r@ =~= Seq::new(288, |i: int| fixed_symbol_length(i)));
    r
}

/// The code lengths of the fixed distance code: 32 symbols of 5 bits.
pub fn fix_offset_table() -> (r: [u8; 32])
    ensures
        forall|i: int| 0 <= i < 32 ==> #[trigger] r@[i] == 5,
{
    [5u8; 32]
}

/// `2^(j / 4 - 1)` for the length codes from 8 to 27.
pub open spec fn len_scale(j: int) -> int {
    if j < 12 {
        2
    } else if j < 16 {
        4
    } else if j < 20 {
        8
    } else if j < 24 {
        16
    } else {
        32
    }
}

/// First value of each length code (the last entry closes the range): the
/// codes from 8 to 27 come in groups of four, each group twice as wide as
/// the one before.
pub open spec fn len_offset(j: int) -> int {
    if j < 8 {
        j
    } else if j < 28 {
        (j % 4 + 4) * len_scale(j)
    } else if j == 28 {
        255
    } else {
        0xFFFF
    }
}

/// Extra bits of each length code.
pub open spec fn len_ext_bits(j: int) -> int {
    if j < 8 || j == 28 {
        0
    } else {
        j / 4 - 1
    }
}

/// `2^(j / 2 - 1)` for the distance codes from 4 to 29.
pub open spec fn off_scale(j: int) -> int {
    if j < 6 {
        2
    } else if j < 8 {
        4
    } else if j < 10 {
        8
    } else if j < 12 {
        16
    } else if j < 14 {
        32
    } else if j < 16 {
        64
    } else if j < 18 {
        128
    } else if j < 20 {
        256
    } else if j < 22 {
        512
    } else if j < 24 {
        1024
    } else if j < 26 {
        2048
    } else if j < 28 {
        4096
    } else {
        8192
    }
}

/// First value of each distance code (the last entry closes the range): the
/// codes from 4 to 29 come in pairs, each pair twice as wide as the one
/// before.
pub open spec fn off_offset(j: int) -> int {
    if j < 4 {
        j
    } else if j < 30 {
        (j % 2 + 2) * off_scale(j)
    } else {
        0xFFFF
    }
}

/// Extra bits of each distance code.
pub open spec fn off_ext_bits(j: int) -> int {
    if j < 4 {
        0
    } else {
        j / 2 - 1
    }
}

/// Maps values to codes: code `j` covers the values from `offsets[j]` up
/// to, not including, `offsets[j + 1]`, and carries `ext_bits[j]` extra
/// bits that tell them apart.
#[derive(Debug)]
pub struct CodeTable {
    codes: Vec<u8>,
    offsets: Vec<u16>,
    ext_bits: Vec<u8>,
}

/// The ranges `offsets` starts at 0 and rises strictly; `codes[v]` is the
/// range of each value `v`.
pub open spec fn ranges_ok(codes: Seq<u8>, offsets: Seq<u16>) -> bool {
    &&& 2 <= offsets.len() <= 256
    &&& offsets[0] == 0
    &&& forall|a: int, b: int| 0 <= a < b < offsets.len() ==> offsets[a] < offsets[b]
    &&& codes.len() <= offsets[offsets.len() - 1]
    &&& forall|v: int|
        0 <= v < codes.len() ==> codes[v] + 1 < offsets.len() && offsets[codes[v] as int] <= v < offsets[
            codes[v] + 1]
}

impl CodeTable {
    pub closed spec fn codes(&self) -> Seq<u8> {
        self.codes@
    }

    pub closed spec fn offsets(&self) -> Seq<u16> {
        self.offsets@
    }

    pub closed spec fn ext(&self) -> Seq<u8> {
        self.ext_bits@
    }

    pub open spec fn wf(&self) -> bool {
        &&& ranges_ok(self.codes(), self.offsets())
        &&& self.ext().len() + 1 == self.offsets().len()
        &&& forall|j: int| 0 <= j < self.ext().len() ==> #[trigger] self.ext()[j] <= 16
    }

    /// The code of `value` and its extra bits.
    pub fn convert(&self, value: u16) -> (r: (u8, SmallBitVec<u16>))
        requires
            self.wf(),
            value < self.codes().len(),
        ensures
            r.0 == self.codes()[value as int],
            self.offsets()[r.0 as int] <= value < self.offsets()[r.0 + 1],
            r.1.spec_data() == value - self.offsets()[r.0 as int],
            r.1.spec_len() == self.ext()[r.0 as int],
    {
        let pos = self.codes[value as usize];
        (pos, SmallBitVec::new(value - self.offsets[pos as usize], self.ext_bits(pos as usize)))
    }

    /// The number of extra bits of code `pos`.
    pub fn ext_bits(&self, pos: usize) -> (r: usize)
        requires
            self.wf(),
            pos < self.ext().len(),
        ensures
            r == self.ext()[pos as int],
            r <= 16,
    {
        self.ext_bits[pos] as usize
    }

    /// The value of code `pos` with extra bits `ext`.
    pub fn convert_back(&self, pos: usize, ext: u16) -> (r: u16)
        requires
            pos < self.offsets().len(),
            self.offsets()[pos as int] + ext <= u16::MAX,
        ensures
            r == self.offsets()[pos as int] + ext,
    {
        self.offsets[pos] + ext
    }
}

/// The code of every value below `len`: the range of `offsets` it falls in.
pub fn gen_codes(len: usize, offsets: &[u16]) -> (r: Vec<u8>)
    requires
        2 <= offsets@.len() <= 256,
        offsets@[0] == 0,
        forall|a: int, b: int| 0 <= a < b < offsets@.len() ==> offsets@[a] < offsets@[b],
        len <= offsets@[offsets@.len() - 1],
    ensures
        ranges_ok(r@, offsets@),
        r@.len() == len,
{
    let mut codes: Vec<u8> = Vec::with_capacity(len);
    let mut j: u8 = 0;
    let mut i: usize = 0;
    while i < len
        invariant
            2 <= offsets@.len() <= 256,
            offsets@[0] == 0,
            forall|a: int, b: int| 0 <= a < b < offsets@.len() ==> offsets@[a] < offsets@[b],
            len <= offsets@[offsets@.len() - 1],
            i <= len,
            codes@.len() == i,
            j + 1 < offsets@.len(),
            offsets@[j as int] <= i,
            forall|v: int|
                0 <= v < i ==> #[trigger] codes@[v] + 1 < offsets@.len() && offsets@[codes@[v] as int] <= v
                    < offsets@[codes@[v] + 1],
        decreases len - i,
    {
        while offsets[j as usize + 1] as usize <= i
            invariant
                2 <= offsets@.len() <= 256,
                forall|a: int, b: int| 0 <= a < b < offsets@.len() ==> offsets@[a] < offsets@[b],
                len <= offsets@[offsets@.len() - 1],
                i < len,
                j + 1 < offsets@.len(),
                offsets@[j as int] <= i,
            decreases offsets@.len() - j,
        {
            j = j + 1;
        }
        codes.push(j);
        i = i + 1;
    }
    codes
}

proof fn lemma_len_offsets_word(i: u16)
    by (bit_vector)
    requires
        8 <= i < 28,
    ensures
        ((i & 3) | 4) << (((i >> 2) - 1) as u16) == (i % 4 + 4) * (if i < 12 {
            2u16
        } else if i < 16 {
            4u16
        } else if i < 20 {
            8u16
        } else if i < 24 {
            16u16
        } else {
            32u16
        }),
        (i >> 2) - 1 == i / 4 - 1,
{
}

proof fn lemma_off_offsets_word(i: u16)
    by (bit_vector)
    requires
        4 <= i < 30,
    ensures
        ((i & 1) | 2) << (((i >> 1) - 1) as u16) == (i % 2 + 2) * (if i < 6 {
            2u16
        } else if i < 8 {
            4u16
        } else if i < 10 {
            8u16
        } else if i < 12 {
            16u16
        } else if i < 14 {
            32u16
        } else if i < 16 {
            64u16
        } else if i < 18 {
            128u16
        } else if i < 20 {
            256u16
        } else if i < 22 {
            512u16
        } else if i < 24 {
            1024u16
        } else if i < 26 {
            2048u16
        } else if i < 28 {
            4096u16
        } else {
            8192u16
        }),
        (i >> 1) - 1 == i / 2 - 1,
{
}

proof fn lemma_len_offset_rises(x: int)
    requires
        0 <= x < 29,
    ensures
        len_offset(x) < len_offset(x + 1),
{
}

proof fn lemma_off_offset_rises(x: int)
    requires
        0 <= x < 30,
    ensures
        off_offset(x) < off_offset(x + 1),
{
}

/// The length codes: 29 ranges over the lengths (less 3) 0 to 255.
pub fn gen_len_tab() -> (r: CodeTable)
    ensures
        r.wf(),
        r.codes().len() == 256,
        r.offsets().len() == 30,
        forall|j: int| 0 <= j < 30 ==> #[trigger] r.offsets()[j] == len_offset(j),
        forall|j: int| 0 <= j < 29 ==> #[trigger] r.ext()[j] == len_ext_bits(j),
{
    let mut offsets: Vec<u16> = Vec::with_capacity(30);
    let mut ext_bits: Vec<u8> = Vec::with_capacity(29);
    let mut i: u16 = 0;
    while i < 8
        invariant
            i <= 8,
            offsets@.len() == i,
            ext_bits@.len() == i,
            forall|j: int| 0 <= j < i ==> #[trigger] offsets@[j] == len_offset(j),
            forall|j: int| 0 <= j < i ==> #[trigger] ext_bits@[j] == len_ext_bits(j),
        decreases 8 - i,
    {
        offsets.push(i);
        ext_bits.push(0);
        i = i + 1;
    }
    while i < 28
        invariant
            8 <= i <= 28,
            offsets@.len() == i,
            ext_bits@.len() == i,
            forall|j: int| 0 <= j < i ==> #[trigger] offsets@[j] == len_offset(j),
            forall|j: int| 0 <= j < i ==> #[trigger] ext_bits@[j] == len_ext_bits(j),
        decreases 28 - i,
    {
        proof {
            lemma_len_offsets_word(i);
        }
        let n = (i >> 2) - 1;
        offsets.push(((i & 3) | 4) << n);
        ext_bits.push(n as u8);
        i = i + 1;
    }
    offsets.push(255);
    ext_bits.push(0);
    offsets.push(u16::MAX);
    proof {
        assert forall|x: int| 0 <= x < 29 implies #[trigger] offsets@[x] < offsets@[x + 1] by {
            lemma_len_offset_rises(x);
        }
        assert forall|a: int, b: int| 0 <= a < b < 30 implies offsets@[a] < offsets@[b] by {
            lemma_rising(30, |x: int| offsets@[x] as int, a, b);
        }
        assert forall|j: int| 0 <= j < 29 implies #[trigger] ext_bits@[j] <= 16 by {}
    }
    let codes = gen_codes(256, offsets.as_slice());
    CodeTable { codes, offsets, ext_bits }
}

/// The distance codes: 30 ranges over the distances (from 0) below 0x8000.
pub fn gen_off_tab() -> (r: CodeTable)
    ensures
        r.wf(),
        r.codes().len() == 0x8000,
        r.offsets().len() == 31,
        forall|j: int| 0 <= j < 31 ==> #[trigger] r.offsets()[j] == off_offset(j),
        forall|j: int| 0 <= j < 30 ==> #[trigger] r.ext()[j] == off_ext_bits(j),
{
    let mut offsets: Vec<u16> = Vec::with_capacity(31);
    let mut ext_bits: Vec<u8> = Vec::with_capacity(30);
    let mut i: u16 = 0;
    while i < 4
        invariant
            i <= 4,
            offsets@.len() == i,
            ext_bits@.len() == i,
            forall|j: int| 0 <= j < i ==> #[trigger] offsets@[j] == off_offset(j),
            forall|j: int| 0 <= j < i ==> #[trigger] ext_bits@[j] == off_ext_bits(j),
        decreases 4 - i,
    {
        offsets.push(i);
        ext_bits.push(0);
        i = i + 1;
    }
    while i < 30
        invariant
            4 <= i <= 30,
            offsets@.len() == i,
            ext_bits@.len() == i,
            forall|j: int| 0 <= j < i ==> #[trigger] offsets@[j] == off_offset(j),
            forall|j: int| 0 <= j < i ==> #[trigger] ext_bits@[j] == off_ext_bits(j),
        decreases 30 - i,
    {
        proof {
            lemma_off_offsets_word(i);
        }
        let n = (i >> 1) - 1;
        offsets.push(((i & 1) | 2) << n);
        ext_bits.push(n as u8);
        i = i + 1;
    }
    offsets.push(u16::MAX);
    proof {
        assert forall|x: int| 0 <= x < 30 implies #[trigger] offsets@[x] < offsets@[x + 1] by {
            lemma_off_offset_rises(x);
        }
        assert forall|a: int, b: int| 0 <= a < b < 31 implies offsets@[a] < offsets@[b] by {
            lemma_rising(31, |x: int| offsets@[x] as int, a, b);
        }
        assert forall|j: int| 0 <= j < 30 implies #[trigger] ext_bits@[j] <= 16 by {}
    }
    let codes = gen_codes(0x8000, offsets.as_slice());
    CodeTable { codes, offsets, ext_bits }
}

/// A sequence that rises at every step rises between any two points.
proof fn lemma_rising(n: int, f: spec_fn(int) -> int, a: int, b: int)
    requires
        0 <= a < b < n,
        forall|x: int| 0 <= x < n - 1 ==> #[trigger] f(x) < f(x + 1),
    ensures
        f(a) < f(b),
    decreases b - a,
{
    if b - a > 1 {
        lemma_rising(n, f, a, b - 1);
        assert(f(b - 1) < f(b));
    }
}

} // verus!
