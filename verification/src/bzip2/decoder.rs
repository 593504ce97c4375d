use vstd::prelude::*;
use crate::bit_reader::{lemma_fill_result, BitReader, LeftBitReader};
use crate::bit_vector::{bit32, bits_msb, fits};
use crate::bzip2::{BZ_G_SIZE, HEADER_0, HEADER_B, HEADER_Z, HEADER_h};
use crate::bzip2::error::BZip2Error;
use crate::bzip2::mtf::{lemma_mtf_bound, MtfPositionDecoder};
use crate::crc32::{ieee_normal, Digest};
use crate::huffman::decoder::{decoded, HuffmanDecoder, Left};
use crate::huffman_encoder::has_code;

verus! {

/// The table of run lengths that drives the (deprecated) block
/// randomisation of bzip2.
pub const BZ2_R_NUMS: [usize; 512] = [
    619, 720, 127, 481, 931, 816, 813, 233, 566, 247, 985, 724, 205, 454, 863,
    491, 741, 242, 949, 214, 733, 859, 335, 708, 621, 574, 73, 654, 730, 472,
    419, 436, 278, 496, 867, 210, 399, 680, 480, 51, 878, 465, 811, 169, 869,
    675, 611, 697, 867, 561, 862, 687, 507, 283, 482, 129, 807, 591, 733, 623,
    150, 238, 59, 379, 684, 877, 625, 169, 643, 105, 170, 607, 520, 932, 727,
    476, 693, 425, 174, 647, 73, 122, 335, 530, 442, 853, 695, 249, 445, 515,
    909, 545, 703, 919, 874, 474, 882, 500, 594, 612, 641, 801, 220, 162, 819,
    984, 589, 513, 495, 799, 161, 604, 958, 533, 221, 400, 386, 867, 600, 782,
    382, 596, 414, 171, 516, 375, 682, 485, 911, 276, 98, 553, 163, 354, 666,
    933, 424, 341, 533, 870, 227, 730, 475, 186, 263, 647, 537, 686, 600, 224,
    469, 68, 770, 919, 190, 373, 294, 822, 808, 206, 184, 943, 795, 384, 383,
    461, 404, 758, 839, 887, 715, 67, 618, 276, 204, 918, 873, 777, 604, 560,
    951, 160, 578, 722, 79, 804, 96, 409, 713, 940, 652, 934, 970, 447, 318,
    353, 859, 672, 112, 785, 645, 863, 803, 350, 139, 93, 354, 99, 820, 908,
    609, 772, 154, 274, 580, 184, 79, 626, 630, 742, 653, 282, 762, 623, 680,
    81, 927, 626, 789, 125, 411, 521, 938, 300, 821, 78, 343, 175, 128, 250,
    170, 774, 972, 275, 999, 639, 495, 78, 352, 126, 857, 956, 358, 619, 580,
    124, 737, 594, 701, 612, 669, 112, 134, 694, 363, 992, 809, 743, 168, 974,
    944, 375, 748, 52, 600, 747, 642, 182, 862, 81, 344, 805, 988, 739, 511,
    655, 814, 334, 249, 515, 897, 955, 664, 981, 649, 113, 974, 459, 893, 228,
    433, 837, 553, 268, 926, 240, 102, 654, 459, 51, 686, 754, 806, 760, 493,
    403, 415, 394, 687, 700, 946, 670, 656, 610, 738, 392, 760, 799, 887, 653,
    978, 321, 576, 617, 626, 502, 894, 679, 243, 440, 680, 879, 194, 572, 640,
    724, 926, 56, 204, 700, 707, 151, 457, 449, 797, 195, 791, 558, 945, 679,
    297, 59, 87, 824, 713, 663, 412, 693, 342, 606, 134, 108, 571, 364, 631,
    212, 174, 643, 304, 329, 343, 97, 430, 751, 497, 314, 983, 374, 822, 928,
    140, 206, 73, 263, 980, 736, 876, 478, 430, 305, 170, 514, 364, 692, 829,
    82, 855, 953, 676, 246, 369, 970, 294, 750, 807, 827, 150, 790, 288, 923,
    804, 378, 215, 828, 592, 281, 565, 555, 710, 82, 896, 831, 547, 261, 524,
    462, 293, 465, 502, 56, 661, 821, 976, 991, 658, 869, 905, 758, 745, 193,
    768, 550, 608, 933, 378, 286, 215, 979, 792, 961, 61, 688, 793, 644, 986,
    403, 106, 366, 905, 644, 372, 567, 466, 434, 645, 210, 389, 550, 919, 135,
    780, 773, 635, 389, 707, 100, 626, 958, 165, 504, 920, 176, 193, 713, 857,
    265, 203, 50, 668, 108, 645, 990, 626, 197, 510, 357, 358, 850, 858, 364,
    936, 638,
];

/// Every entry of the randomisation table is at least 50.
proof fn lemma_r_nums_positive()
    ensures
        forall|i: int| 0 <= i < 512 ==> #[trigger] BZ2_R_NUMS@[i] >= 50,
{
    assert(BZ2_R_NUMS@ =~= seq![619, 720, 127, 481, 931, 816, 813, 233, 566, 247, 985, 724, 205, 454, 863, 491, 741, 242, 949, 214, 733, 859, 335, 708, 621, 574, 73, 654, 730, 472, 419, 436, 278, 496, 867, 210, 399, 680, 480, 51, 878, 465, 811, 169, 869, 675, 611, 697, 867, 561, 862, 687, 507, 283, 482, 129, 807, 591, 733, 623, 150, 238, 59, 379, 684, 877, 625, 169, 643, 105, 170, 607, 520, 932, 727, 476, 693, 425, 174, 647, 73, 122, 335, 530, 442, 853, 695, 249, 445, 515, 909, 545, 703, 919, 874, 474, 882, 500, 594, 612, 641, 801, 220, 162, 819, 984, 589, 513, 495, 799, 161, 604, 958, 533, 221, 400, 386, 867, 600, 782, 382, 596, 414, 171, 516, 375, 682, 485, 911, 276, 98, 553, 163, 354, 666, 933, 424, 341, 533, 870, 227, 730, 475, 186, 263, 647, 537, 686, 600, 224, 469, 68, 770, 919, 190, 373, 294, 822, 808, 206, 184, 943, 795, 384, 383, 461, 404, 758, 839, 887, 715, 67, 618, 276, 204, 918, 873, 777, 604, 560, 951, 160, 578, 722, 79, 804, 96, 409, 713, 940, 652, 934, 970, 447, 318, 353, 859, 672, 112, 785, 645, 863, 803, 350, 139, 93, 354, 99, 820, 908, 609, 772, 154, 274, 580, 184, 79, 626, 630, 742, 653, 282, 762, 623, 680, 81, 927, 626, 789, 125, 411, 521, 938, 300, 821, 78, 343, 175, 128, 250, 170, 774, 972, 275, 999, 639, 495, 78, 352, 126, 857, 956, 358, 619, 580, 124, 737, 594, 701, 612, 669, 112, 134, 694, 363, 992, 809, 743, 168, 974, 944, 375, 748, 52, 600, 747, 642, 182, 862, 81, 344, 805, 988, 739, 511, 655, 814, 334, 249, 515, 897, 955, 664, 981, 649, 113, 974, 459, 893, 228, 433, 837, 553, 268, 926, 240, 102, 654, 459, 51, 686, 754, 806, 760, 493, 403, 415, 394, 687, 700, 946, 670, 656, 610, 738, 392, 760, 799, 887, 653, 978, 321, 576, 617, 626, 502, 894, 679, 243, 440, 680, 879, 194, 572, 640, 724, 926, 56, 204, 700, 707, 151, 457, 449, 797, 195, 791, 558, 945, 679, 297, 59, 87, 824, 713, 663, 412, 693, 342, 606, 134, 108, 571, 364, 631, 212, 174, 643, 304, 329, 343, 97, 430, 751, 497, 314, 983, 374, 822, 928, 140, 206, 73, 263, 980, 736, 876, 478, 430, 305, 170, 514, 364, 692, 829, 82, 855, 953, 676, 246, 369, 970, 294, 750, 807, 827, 150, 790, 288, 923, 804, 378, 215, 828, 592, 281, 565, 555, 710, 82, 896, 831, 547, 261, 524, 462, 293, 465, 502, 56, 661, 821, 976, 991, 658, 869, 905, 758, 745, 193, 768, 550, 608, 933, 378, 286, 215, 979, 792, 961, 61, 688, 793, 644, 986, 403, 106, 366, 905, 644, 372, 567, 466, 434, 645, 210, 389, 550, 919, 135, 780, 773, 635, 389, 707, 100, 626, 958, 165, 504, 920, 176, 193, 713, 857, 265, 203, 50, 668, 108, 645, 990, 626, 197, 510, 357, 358, 850, 858, 364, 936, 638]);
}

/// The pseudo-random bit source of a randomised bzip2 block.
pub struct BlockRandomise {
    n2go: usize,
    t_pos: usize,
}

impl BlockRandomise {
    #[verifier::type_invariant]
    spec fn inv(self) -> bool {
        self.t_pos < 512
    }

    /// The number of bits left before the next table entry is read.
    pub closed spec fn spec_n2go(&self) -> usize {
        self.n2go
    }

    /// The position of the next table entry.
    pub closed spec fn spec_t_pos(&self) -> usize {
        self.t_pos
    }

    pub fn new() -> (r: Self)
        ensures
            r.spec_n2go() == 0,
            r.spec_t_pos() == 0,
    {
        Self { n2go: 0, t_pos: 0 }
    }

    pub fn reset(&mut self)
        ensures
            final(self).spec_n2go() == 0,
            final(self).spec_t_pos() == 0,
    {
        proof {
            use_type_invariant(&*self);
        }
        self.n2go = 0;
        self.t_pos = 0;
    }

    /// Returns `true` when the current byte is to be flipped: when the
    /// countdown, reloaded from the table whenever it has run out, reaches 1.
    pub fn next(&mut self) -> (r: bool)
        ensures
            old(self).spec_t_pos() < 512,
            old(self).spec_n2go() == 0 ==> {
                &&& final(self).spec_n2go() == BZ2_R_NUMS@[old(self).spec_t_pos() as int] - 1
                &&& final(self).spec_t_pos() == (old(self).spec_t_pos() + 1) % 512
            },
            old(self).spec_n2go() != 0 ==> {
                &&& final(self).spec_n2go() == old(self).spec_n2go() - 1
                &&& final(self).spec_t_pos() == old(self).spec_t_pos()
            },
            r == (final(self).spec_n2go() == 1),
    {
        proof {
            use_type_invariant(&*self);
            lemma_r_nums_positive();
        }
        if self.n2go == 0 {
            let t = self.t_pos;
            self.n2go = BZ2_R_NUMS[t];
            self.t_pos = if t + 1 == 512 {
                0
            } else {
                t + 1
            };
        }
        self.n2go -= 1;
        self.n2go == 1
    }
}

/// Reads `n` bits, the first one most significant; fails when fewer are
/// left.
pub(crate) fn read_bits(reader: &mut LeftBitReader, n: usize) -> (r: Result<u32, ()>)
    requires
        old(reader).attached(),
        1 <= n <= 24,
    ensures
        final(reader).attached(),
        final(reader).stream().len() <= old(reader).stream().len(),
        r is Ok <==> n <= old(reader).stream().len(),
        r is Ok ==> bits_msb(r->Ok_0, n as nat) == old(reader).stream().take(n as int) && fits(r->Ok_0, n as nat)
            && final(reader).stream() == old(reader).stream().skip(n as int),
{
    proof {
        lemma_fill_result(reader.pending().len(), reader.source().len(), n as nat);
    }
    match reader.read(n) {
        Ok(bv) => {
            if bv.len() == n {
                Ok(bv.data())
            } else {
                Err(())
            }
        },
        Err(_) => Err(()),
    }
}

/// Reads one bit.
fn read_bit(reader: &mut LeftBitReader) -> (r: Result<bool, ()>)
    requires
        old(reader).attached(),
    ensures
        final(reader).attached(),
        final(reader).stream().len() <= old(reader).stream().len(),
        r is Ok <==> 1 <= old(reader).stream().len(),
        r is Ok ==> r->Ok_0 == old(reader).stream()[0] && final(reader).stream() == old(reader).stream().skip(1),
{
    let ghost s = reader.stream();
    match read_bits(reader, 1) {
        Ok(v) => {
            proof {
                assert(bits_msb(v, 1)[0] == s.take(1)[0]);
                assert(bits_msb(v, 1)[0] == bit32(v, 0));
                assert(fits(v, 1));
                assert forall|i: int| 1 <= i < 32 implies !#[trigger] bit32(v, i) by {}
                lemma_one_bit(v);
            }
            Ok(v == 1)
        },
        Err(_) => Err(()),
    }
}

proof fn lemma_one_bit(v: u32)
    requires
        forall|i: int| 1 <= i < 32 ==> !#[trigger] bit32(v, i),
    ensures
        (v == 1) == bit32(v, 0),
{
    assert(!bit32(v, 1) && !bit32(v, 2) && !bit32(v, 3) && !bit32(v, 4) && !bit32(v, 5) && !bit32(v, 6) && !bit32(v, 7));
    assert(!bit32(v, 8) && !bit32(v, 9) && !bit32(v, 10) && !bit32(v, 11) && !bit32(v, 12) && !bit32(v, 13));
    assert(!bit32(v, 14) && !bit32(v, 15) && !bit32(v, 16) && !bit32(v, 17) && !bit32(v, 18) && !bit32(v, 19));
    assert(!bit32(v, 20) && !bit32(v, 21) && !bit32(v, 22) && !bit32(v, 23) && !bit32(v, 24) && !bit32(v, 25));
    assert(!bit32(v, 26) && !bit32(v, 27) && !bit32(v, 28) && !bit32(v, 29) && !bit32(v, 30) && !bit32(v, 31));
    lemma_word_of_bit(v);
}

proof fn lemma_word_of_bit(v: u32)
    by (bit_vector)
    requires
        (v >> 1u32) & 1 != 1,
        (v >> 2u32) & 1 != 1,
        (v >> 3u32) & 1 != 1,
        (v >> 4u32) & 1 != 1,
        (v >> 5u32) & 1 != 1,
        (v >> 6u32) & 1 != 1,
        (v >> 7u32) & 1 != 1,
        (v >> 8u32) & 1 != 1,
        (v >> 9u32) & 1 != 1,
        (v >> 10u32) & 1 != 1,
        (v >> 11u32) & 1 != 1,
        (v >> 12u32) & 1 != 1,
        (v >> 13u32) & 1 != 1,
        (v >> 14u32) & 1 != 1,
        (v >> 15u32) & 1 != 1,
        (v >> 16u32) & 1 != 1,
        (v >> 17u32) & 1 != 1,
        (v >> 18u32) & 1 != 1,
        (v >> 19u32) & 1 != 1,
        (v >> 20u32) & 1 != 1,
        (v >> 21u32) & 1 != 1,
        (v >> 22u32) & 1 != 1,
        (v >> 23u32) & 1 != 1,
        (v >> 24u32) & 1 != 1,
        (v >> 25u32) & 1 != 1,
        (v >> 26u32) & 1 != 1,
        (v >> 27u32) & 1 != 1,
        (v >> 28u32) & 1 != 1,
        (v >> 29u32) & 1 != 1,
        (v >> 30u32) & 1 != 1,
        (v >> 31u32) & 1 != 1,
    ensures
        (v == 1) == ((v >> 0u32) & 1 == 1),
{
}

/// Reads a byte.
fn read_u8(reader: &mut LeftBitReader) -> (r: Result<u8, ()>)
    requires
        old(reader).attached(),
    ensures
        final(reader).attached(),
        final(reader).stream().len() <= old(reader).stream().len(),
        r is Ok <==> 8 <= old(reader).stream().len(),
        r is Ok ==> bits_msb(r->Ok_0 as u32, 8) == old(reader).stream().take(8) && final(reader).stream()
            == old(reader).stream().skip(8),
{
    match read_bits(reader, 8) {
        Ok(v) => {
            proof {
                crate::bit_vector::lemma_fits_bound(v, 8);
                lemma_byte_word(v);
            }
            Ok(v as u8)
        },
        Err(_) => Err(()),
    }
}

proof fn lemma_byte_word(v: u32)
    by (bit_vector)
    requires
        (v as u64) >> 8u64 == 0,
    ensures
        v < 256,
        v == (v as u8) as u32,
{
}

/// The bits of the bytes `a` to `e`, each most significant bit first.
pub open spec fn five_bytes(a: u8, b: u8, c: u8, d: u8, e: u8) -> Seq<bool> {
    bits_msb(a as u32, 8) + bits_msb(b as u32, 8) + bits_msb(c as u32, 8) + bits_msb(d as u32, 8) + bits_msb(
        e as u32,
        8,
    )
}

/// The bits of `BZh`, the start of a stream header.
pub open spec fn bzh_bits() -> Seq<bool> {
    bits_msb(0x42, 8) + bits_msb(0x5a, 8) + bits_msb(0x68, 8)
}

/// The bits of a block-size digit `1` to `9`.
pub open spec fn size_digit_ok(bits: Seq<bool>) -> bool {
    exists|b: u8| 0x31 <= b <= 0x39 && bits == #[trigger] bits_msb(b as u32, 8)
}

/// The error a bad stream header gives: the first stream is not bzip2
/// data at all, a later one is a damaged stream.
pub open spec fn magic_error(stream_no: usize) -> BZip2Error {
    if stream_no == 1 {
        BZip2Error::DataErrorMagicFirst
    } else {
        BZip2Error::DataErrorMagic
    }
}

/// Three bytes match `BZh` exactly when each of them does.
proof fn lemma_bzh_split(s: Seq<bool>)
    ensures
        s.len() >= 24 ==> ((s.take(24) == bzh_bits()) <==> (s.take(8) == bits_msb(0x42, 8) && s.skip(8).take(8)
            == bits_msb(0x5a, 8) && s.skip(16).take(8) == bits_msb(0x68, 8))),
{
    if s.len() >= 24 {
        let a = bits_msb(0x42, 8);
        let b = bits_msb(0x5a, 8);
        let c = bits_msb(0x68, 8);
        if s.take(24) == bzh_bits() {
            assert(s.take(8) =~= a) by {
                assert forall|i: int| 0 <= i < 8 implies s.take(8)[i] == a[i] by {
                    assert(s.take(24)[i] == bzh_bits()[i]);
                }
            }
            assert(s.skip(8).take(8) =~= b) by {
                assert forall|i: int| 0 <= i < 8 implies s.skip(8).take(8)[i] == b[i] by {
                    assert(s.take(24)[8 + i] == bzh_bits()[8 + i]);
                }
            }
            assert(s.skip(16).take(8) =~= c) by {
                assert forall|i: int| 0 <= i < 8 implies s.skip(16).take(8)[i] == c[i] by {
                    assert(s.take(24)[16 + i] == bzh_bits()[16 + i]);
                }
            }
        }
        if s.take(8) == a && s.skip(8).take(8) == b && s.skip(16).take(8) == c {
            assert forall|i: int| 0 <= i < 24 implies s.take(24)[i] == bzh_bits()[i] by {
                if i < 8 {
                    assert(s.take(8)[i] == a[i]);
                } else if i < 16 {
                    assert(s.skip(8).take(8)[i - 8] == b[i - 8]);
                } else {
                    assert(s.skip(16).take(8)[i - 16] == c[i - 16]);
                }
            }
            assert(s.take(24) =~= bzh_bits());
        }
    }
}

proof fn lemma_five_at(a: u8, b: u8, c: u8, d: u8, e: u8, k: int, j: int)
    requires
        0 <= k < 5,
        0 <= j < 8,
    ensures
        five_bytes(a, b, c, d, e)[8 * k + j] == bits_msb(seq![a, b, c, d, e][k] as u32, 8)[j],
{
    let pa = bits_msb(a as u32, 8);
    let pb = bits_msb(b as u32, 8);
    let pc = bits_msb(c as u32, 8);
    let pd = bits_msb(d as u32, 8);
    let pe = bits_msb(e as u32, 8);
    let s1 = pa + pb;
    let s2 = s1 + pc;
    let s3 = s2 + pd;
    assert(s1.len() == 16 && s2.len() == 24 && s3.len() == 32);
    if k == 0 {
        assert(s1[j] == pa[j]);
        assert(s2[j] == s1[j]);
        assert(s3[j] == s2[j]);
    } else if k == 1 {
        assert(s1[8 + j] == pb[j]);
        assert(s2[8 + j] == s1[8 + j]);
        assert(s3[8 + j] == s2[8 + j]);
    } else if k == 2 {
        assert(s2[16 + j] == pc[j]);
        assert(s3[16 + j] == s2[16 + j]);
    } else if k == 3 {
        assert(s3[24 + j] == pd[j]);
    }
}

/// Reads five bytes; `true` when they are `a` to `e`.
fn check_bytes(reader: &mut LeftBitReader, a: u8, b: u8, c: u8, d: u8, e: u8) -> (ok: bool)
    requires
        old(reader).attached(),
    ensures
        final(reader).attached(),
        final(reader).stream().len() <= old(reader).stream().len(),
        ok <==> 40 <= old(reader).stream().len() && old(reader).stream().take(40) == five_bytes(a, b, c, d, e),
{
    let ghost s = reader.stream();
    let ghost want = five_bytes(a, b, c, d, e);
    let vals = [a, b, c, d, e];
    let mut k: usize = 0;
    while k < 5
        invariant
            k <= 5,
            reader.attached(),
            reader.stream().len() <= s.len(),
            s.len() >= 8 * k,
            reader.stream() == s.skip(8 * k),
            vals@ == seq![a, b, c, d, e],
            s == old(reader).stream(),
            want == five_bytes(a, b, c, d, e),
            forall|i: int| 0 <= i < 8 * k ==> s[i] == #[trigger] want[i],
        decreases 5 - k,
    {
        let ghost cur = reader.stream();
        match check_u8(reader, vals[k]) {
            Ok(true) => {
                proof {
                    assert forall|i: int| 0 <= i < 8 * (k + 1) implies s[i] == #[trigger] want[i] by {
                        if i >= 8 * k {
                            assert(cur.take(8)[i - 8 * k] == s[i]);
                            lemma_five_at(a, b, c, d, e, k as int, i - 8 * k);
                        }
                    }
                    assert(reader.stream() =~= s.skip(8 * (k + 1)));
                }
                k = k + 1;
            },
            Ok(false) => {
                proof {
                    if 40 <= s.len() && s.take(40) == want {
                        assert(cur.take(8) =~= bits_msb(vals@[k as int] as u32, 8)) by {
                            assert forall|i: int| 0 <= i < 8 implies cur.take(8)[i] == bits_msb(
                                vals@[k as int] as u32,
                                8,
                            )[i] by {
                                assert(s.take(40)[8 * k + i] == want[8 * k + i]);
                                lemma_five_at(a, b, c, d, e, k as int, i);
                            }
                        }
                    }
                }
                return false;
            },
            Err(_) => {
                return false;
            },
        }
    }
    proof {
        assert(s.take(40) =~= want);
    }
    true
}

/// Reads four bytes, the first one most significant.
fn read_u32(reader: &mut LeftBitReader) -> (r: Result<u32, ()>)
    requires
        old(reader).attached(),
    ensures
        final(reader).attached(),
        final(reader).stream().len() <= old(reader).stream().len(),
        r is Ok <==> 32 <= old(reader).stream().len(),
        r is Ok ==> final(reader).stream() == old(reader).stream().skip(32),
{
    let ghost s = reader.stream();
    let a = match read_u8(reader) {
        Ok(x) => x,
        Err(_) => {
            return Err(());
        },
    };
    let b = match read_u8(reader) {
        Ok(x) => x,
        Err(_) => {
            return Err(());
        },
    };
    let c = match read_u8(reader) {
        Ok(x) => x,
        Err(_) => {
            return Err(());
        },
    };
    let d = match read_u8(reader) {
        Ok(x) => x,
        Err(_) => {
            return Err(());
        },
    };
    proof {
        assert(s.skip(8).skip(8).skip(8).skip(8) =~= s.skip(32));
    }
    Ok(((a as u32) << 24u32) | ((b as u32) << 16u32) | ((c as u32) << 8u32) | (d as u32))
}

/// Reads a byte and compares it with `value`.
fn check_u8(reader: &mut LeftBitReader, value: u8) -> (r: Result<bool, ()>)
    requires
        old(reader).attached(),
    ensures
        final(reader).attached(),
        final(reader).stream().len() <= old(reader).stream().len(),
        r is Ok <==> 8 <= old(reader).stream().len(),
        r is Ok ==> r->Ok_0 == (bits_msb(value as u32, 8) == old(reader).stream().take(8)) && final(reader).stream()
            == old(reader).stream().skip(8),
{
    let ghost s = reader.stream();
    match read_u8(reader) {
        Ok(x) => {
            proof {
                if bits_msb(value as u32, 8) == s.take(8) {
                    lemma_byte_bits_eq(x, value);
                }
            }
            Ok(x == value)
        },
        Err(_) => Err(()),
    }
}

proof fn lemma_byte_bits_eq(x: u8, y: u8)
    requires
        bits_msb(x as u32, 8) == bits_msb(y as u32, 8),
    ensures
        x == y,
{
    assert forall|i: int| 0 <= i < 8 implies #[trigger] bit32(x as u32, i) == bit32(y as u32, i) by {
        assert(bits_msb(x as u32, 8)[7 - i] == bits_msb(y as u32, 8)[7 - i]);
        assert(bits_msb(x as u32, 8)[7 - i] == bit32(x as u32, i));
        assert(bits_msb(y as u32, 8)[7 - i] == bit32(y as u32, i));
    }
    assert(bit32(x as u32, 0) == bit32(y as u32, 0));
    assert(bit32(x as u32, 1) == bit32(y as u32, 1));
    assert(bit32(x as u32, 2) == bit32(y as u32, 2));
    assert(bit32(x as u32, 3) == bit32(y as u32, 3));
    assert(bit32(x as u32, 4) == bit32(y as u32, 4));
    assert(bit32(x as u32, 5) == bit32(y as u32, 5));
    assert(bit32(x as u32, 6) == bit32(y as u32, 6));
    assert(bit32(x as u32, 7) == bit32(y as u32, 7));
    lemma_bytes_from_bits(x, y);
}

proof fn lemma_bytes_from_bits(x: u8, y: u8)
    by (bit_vector)
    requires
        ((x as u32) >> 0u32) & 1 == 1 <==> ((y as u32) >> 0u32) & 1 == 1,
        ((x as u32) >> 1u32) & 1 == 1 <==> ((y as u32) >> 1u32) & 1 == 1,
        ((x as u32) >> 2u32) & 1 == 1 <==> ((y as u32) >> 2u32) & 1 == 1,
        ((x as u32) >> 3u32) & 1 == 1 <==> ((y as u32) >> 3u32) & 1 == 1,
        ((x as u32) >> 4u32) & 1 == 1 <==> ((y as u32) >> 4u32) & 1 == 1,
        ((x as u32) >> 5u32) & 1 == 1 <==> ((y as u32) >> 5u32) & 1 == 1,
        ((x as u32) >> 6u32) & 1 == 1 <==> ((y as u32) >> 6u32) & 1 == 1,
        ((x as u32) >> 7u32) & 1 == 1 <==> ((y as u32) >> 7u32) & 1 == 1,
    ensures
        x == y,
{
}

/// Decodes a bzip2 stream (or several in a row) byte by byte.
pub struct BZip2Decoder {
    block_no: usize,
    block_size_100k: usize,
    combined_crc: u32,
    block_crc: u32,
    block_crc_digest: Digest,
    tt: Vec<u32>,
    n_block_used: usize,
    t_pos: u32,
    block_randomise: BlockRandomise,
    block_randomised: bool,
    result_count: usize,
    result_wrote_count: usize,
    result_charactor: u8,
    stream_no: usize,
}

impl BZip2Decoder {
    pub closed spec fn wf(&self) -> bool {
        &&& self.block_crc_digest.wf()
        &&& self.block_size_100k <= 9
        &&& self.tt@.len() <= 10_000_000
        &&& self.result_wrote_count <= self.result_count
    }

    /// How many characters of the current block have been produced.
    pub closed spec fn spec_used(&self) -> nat {
        self.n_block_used as nat
    }

    /// How many characters the current block holds.
    pub closed spec fn spec_block_len(&self) -> nat {
        self.tt@.len()
    }

    /// The number of the stream being read, from 1.
    pub closed spec fn spec_stream_no(&self) -> nat {
        self.stream_no as nat
    }

    /// The number of blocks of the current stream begun so far.
    pub closed spec fn spec_block_no(&self) -> nat {
        self.block_no as nat
    }

    pub fn new() -> (r: Self)
        ensures
            r.wf(),
            r.spec_used() == 0,
            r.spec_block_len() == 0,
            r.spec_stream_no() == 1,
            r.spec_block_no() == 0,
    {
        let builder = ieee_normal();
        Self {
            block_no: 0,
            block_size_100k: 0,
            combined_crc: 0,
            block_crc: 0,
            block_crc_digest: builder.build_hasher(),
            tt: Vec::new(),
            n_block_used: 0,
            t_pos: 0,
            block_randomise: BlockRandomise::new(),
            block_randomised: false,
            result_count: 0,
            result_wrote_count: 0,
            result_charactor: 0,
            stream_no: 1,
        }
    }

    /// Reads up to the next block and sets it up for output: checks the
    /// CRC of the block just finished, reads a stream header where one is
    /// due, then either a block (Huffman tables, selectors, the coded
    /// symbols, and the inverse Burrows-Wheeler links) or an end-of-stream
    /// marker. `false` at the end of the last stream.
    fn init_block(&mut self, reader: &mut LeftBitReader) -> (r: Result<bool, BZip2Error>)
        requires
            old(self).wf(),
            old(reader).attached(),
        ensures
            final(self).wf(),
            final(reader).attached(),
            final(reader).stream().len() <= old(reader).stream().len(),
            r == Ok::<bool, BZip2Error>(true) ==> final(self).spec_used() == 0 && final(self).spec_block_len() > 0
                && final(self).spec_block_no() >= 1,
            ({
                let s = old(reader).stream();
                old(self).spec_block_no() == 0 && !(32 <= s.len() && s.take(24) == bzh_bits() && size_digit_ok(
                    s.subrange(24, 32),
                )) && !(24 <= s.len() && s.take(24) == bzh_bits() && s.len() < 32) ==> r == Err::<
                    bool,
                    BZip2Error,
                >(magic_error(old(self).stream_no))
            }),
            ({
                let s = old(reader).stream();
                old(self).spec_block_no() == 0 && 40 <= s.len() && s.take(24) == bzh_bits() && size_digit_ok(
                    s.subrange(24, 32),
                ) && s.subrange(32, 40) != bits_msb(0x31, 8) && s.subrange(32, 40) != bits_msb(0x17, 8) ==> r
                    == Err::<bool, BZip2Error>(BZip2Error::DataError)
            }),
            ({
                let s = old(reader).stream();
                old(self).spec_block_no() == 0 && 80 <= s.len() && s.take(24) == bzh_bits() && size_digit_ok(
                    s.subrange(24, 32),
                ) && s.subrange(32, 40) == bits_msb(0x31, 8) && s.subrange(40, 80) != five_bytes(
                    0x41,
                    0x59,
                    0x26,
                    0x53,
                    0x59,
                ) ==> r == Err::<bool, BZip2Error>(BZip2Error::DataError)
            }),
    {
        let ghost s0 = reader.stream();
        let ghost mut first = true;
        loop
            invariant
                self.wf(),
                reader.attached(),
                reader.stream().len() <= old(reader).stream().len(),
                s0 == old(reader).stream(),
                first ==> reader.stream() == s0 && self.block_no == old(self).block_no && self.stream_no == old(
                    self,
                ).stream_no,
                !first && old(self).block_no == 0 ==> 40 <= s0.len() && s0.take(24) == bzh_bits() && size_digit_ok(
                    s0.subrange(24, 32),
                ) && s0.subrange(32, 40) == bits_msb(0x17, 8),
            decreases reader.stream().len(),
        {
            let ghost len0 = reader.stream().len();
            proof {
                if bits_msb(0x31u8 as u32, 8) == bits_msb(0x17u8 as u32, 8) {
                    lemma_byte_bits_eq(0x31u8, 0x17u8);
                }
            }
            if self.block_no == 0 {
                match self.read_stream_header(reader) {
                    Ok(()) => {},
                    Err(e) => {
                        return Err(e);
                    },
                }
            } else {
                match self.finish_block_crc() {
                    Ok(()) => {},
                    Err(e) => {
                        return Err(e);
                    },
                }
            }
            let ghost s1 = reader.stream();
            proof {
                if first && self.block_no == 0 {
                    assert(s1 =~= s0.skip(32));
                }
            }
            let block_head_byte = match read_u8(reader) {
                Ok(b) => b,
                Err(_) => {
                    return Err(BZip2Error::UnexpectedEof);
                },
            };
            proof {
                if first && old(self).block_no == 0 && s0.len() >= 40 {
                    assert(s1.take(8) =~= s0.subrange(32, 40));
                    if s0.subrange(32, 40) == bits_msb(0x31, 8) {
                        lemma_byte_bits_eq(block_head_byte, 0x31);
                    }
                    if s0.subrange(32, 40) == bits_msb(0x17, 8) {
                        lemma_byte_bits_eq(block_head_byte, 0x17);
                    }
                }
            }
            if block_head_byte == 0x31 {
                let ghost s2 = reader.stream();
                if !check_bytes(reader, 0x41, 0x59, 0x26, 0x53, 0x59) {
                    return Err(BZip2Error::DataError);
                }
                proof {
                    if first && old(self).block_no == 0 && s0.len() >= 80 {
                        assert(s2 =~= s0.skip(40));
                        assert(s2.take(40) =~= s0.subrange(40, 80));
                    }
                }
                self.block_no = self.block_no.saturating_add(1);
                return self.read_block(reader);
            } else if block_head_byte == 0x17 {
                if !check_bytes(reader, 0x72, 0x45, 0x38, 0x50, 0x90) {
                    return Err(BZip2Error::DataError);
                }
                if !self.read_stream_end(reader)? {
                    return Ok(false);
                }
                proof {
                    if first && old(self).block_no == 0 {
                        assert(s1.take(8) =~= s0.subrange(32, 40));
                    }
                    first = false;
                }
            } else {
                return Err(BZip2Error::DataError);
            }
        }
    }

    /// Reads the header of a stream: `BZh` and the block size digit.
    fn read_stream_header(&mut self, reader: &mut LeftBitReader) -> (r: Result<(), BZip2Error>)
        requires
            old(self).wf(),
            old(reader).attached(),
        ensures
            final(self).wf(),
            final(self).block_no == old(self).block_no,
            final(self).stream_no == old(self).stream_no,
            final(reader).attached(),
            final(reader).stream().len() <= old(reader).stream().len(),
            r is Ok <==> 32 <= old(reader).stream().len() && old(reader).stream().take(24) == bzh_bits()
                && size_digit_ok(old(reader).stream().subrange(24, 32)),
            r is Ok ==> final(reader).stream() == old(reader).stream().skip(32),
            r is Err && !(24 <= old(reader).stream().len() && old(reader).stream().take(24) == bzh_bits() && old(
                reader,
            ).stream().len() < 32) ==> r == Err::<(), BZip2Error>(magic_error(old(self).stream_no)),
    {
        let ghost s = reader.stream();
        proof {
            lemma_bzh_split(s);
        }
        let magic_err = if self.stream_no == 1 {
            BZip2Error::DataErrorMagicFirst
        } else {
            BZip2Error::DataErrorMagic
        };
        match check_u8(reader, HEADER_B) {
            Ok(true) => {},
            _ => {
                return Err(magic_err);
            },
        }
        assert(reader.stream() =~= s.skip(8));
        match check_u8(reader, HEADER_Z) {
            Ok(true) => {},
            _ => {
                return Err(magic_err);
            },
        }
        assert(reader.stream() =~= s.skip(16));
        match check_u8(reader, HEADER_h) {
            Ok(true) => {},
            _ => {
                return Err(magic_err);
            },
        }
        let ghost s3 = reader.stream();
        assert(s3 =~= s.skip(24));
        let b = match read_u8(reader) {
            Ok(b) => b,
            Err(_) => {
                return Err(BZip2Error::UnexpectedEof);
            },
        };
        proof {
            assert(s3.take(8) =~= s.subrange(24, 32));
            assert(reader.stream() =~= s.skip(32));
        }
        if b < 1 + HEADER_0 || b > 9 + HEADER_0 {
            proof {
                if size_digit_ok(s.subrange(24, 32)) {
                    let w = choose|w: u8| 0x31 <= w <= 0x39 && s.subrange(24, 32) == #[trigger] bits_msb(w as u32, 8);
                    lemma_byte_bits_eq(b, w);
                }
            }
            return Err(magic_err);
        }
        assert(size_digit_ok(s.subrange(24, 32)));
        self.block_size_100k = (b - HEADER_0) as usize;
        Ok(())
    }

    /// Checks the CRC of the block just finished and folds it into the CRC
    /// of the stream.
    fn finish_block_crc(&mut self) -> (r: Result<(), BZip2Error>)
        requires
            old(self).wf(),
        ensures
            final(self).wf(),
            final(self).block_no == old(self).block_no,
            r is Err ==> r == Err::<(), BZip2Error>(BZip2Error::DataError),
    {
        let data_block_crc = self.block_crc_digest.finish() as u32;
        if data_block_crc != self.block_crc {
            return Err(BZip2Error::DataError);
        }
        self.combined_crc = ((self.combined_crc << 1u32) | (self.combined_crc >> 31u32)) ^ self.block_crc;
        let builder = ieee_normal();
        self.block_crc_digest = builder.build_hasher();
        Ok(())
    }

    /// Reads the CRC of a stream after its end marker and checks it;
    /// `true` when another stream follows.
    fn read_stream_end(&mut self, reader: &mut LeftBitReader) -> (r: Result<bool, BZip2Error>)
        requires
            old(self).wf(),
            old(reader).attached(),
        ensures
            final(self).wf(),
            final(reader).attached(),
            final(reader).stream().len() <= old(reader).stream().len(),
            r == Ok::<bool, BZip2Error>(true) ==> final(reader).stream().len() < old(reader).stream().len(),
    {
        let stored_combined_crc = match read_u32(reader) {
            Ok(v) => v,
            Err(_) => {
                return Err(BZip2Error::UnexpectedEof);
            },
        };
        if stored_combined_crc != self.combined_crc {
            return Err(BZip2Error::DataError);
        }
        let ghost mid = reader.stream();
        let _ = reader.skip_to_byte();
        proof {
            assert(reader.stream().len() <= mid.len());
        }
        let next = match reader.peek(8) {
            Ok(v) => v,
            Err(_) => {
                return Err(BZip2Error::Unexpected);
            },
        };
        if next.len() == 8 {
            self.block_no = 0;
            self.combined_crc = 0;
            self.stream_no = self.stream_no.saturating_add(1);
            Ok(true)
        } else {
            Ok(false)
        }
    }

    /// Reads the body of a block whose header has been read: the
    /// randomisation flag and start position, the symbol map, the
    /// selectors, the code lengths, the coded symbols, and builds the
    /// links for the inverse Burrows-Wheeler transform.
    fn read_block(&mut self, reader: &mut LeftBitReader) -> (r: Result<bool, BZip2Error>)
        requires
            old(self).wf(),
            old(reader).attached(),
            old(self).block_no >= 1,
        ensures
            final(self).wf(),
            final(reader).attached(),
            final(reader).stream().len() <= old(reader).stream().len(),
            r is Ok ==> r == Ok::<bool, BZip2Error>(true),
            r is Ok ==> final(self).spec_used() == 0 && final(self).spec_block_len() > 0 && final(self).spec_block_no()
                >= 1,
    {
        self.block_crc = match read_u32(reader) {
            Ok(v) => v,
            Err(_) => {
                return Err(BZip2Error::UnexpectedEof);
            },
        };
        self.block_randomised = match read_bit(reader) {
            Ok(b) => b,
            Err(_) => {
                return Err(BZip2Error::UnexpectedEof);
            },
        };
        let orig_pos = match read_bits(reader, 24) {
            Ok(v) => v as usize,
            Err(_) => {
                return Err(BZip2Error::UnexpectedEof);
            },
        };
        if orig_pos > 10 + 100_000 * self.block_size_100k {
            return Err(BZip2Error::DataError);
        }
        let seq2unseq = match read_symbol_map(reader) {
            Ok(v) => v,
            Err(e) => {
                return Err(e);
            },
        };
        let alpha_size = seq2unseq.len() + 2;
        let n_groups = match read_bits(reader, 3) {
            Ok(v) => v as usize,
            Err(_) => {
                return Err(BZip2Error::UnexpectedEof);
            },
        };
        if n_groups < 2 || n_groups > 6 {
            return Err(BZip2Error::DataError);
        }
        let n_selectors = match read_bits(reader, 15) {
            Ok(v) => {
                proof {
                    crate::bit_vector::lemma_fits_bound(v, 15);
                    lemma_word_below_15(v);
                }
                v as usize
            },
            Err(_) => {
                return Err(BZip2Error::UnexpectedEof);
            },
        };
        if n_selectors < 1 {
            return Err(BZip2Error::DataError);
        }
        let selector = match read_selectors(reader, n_groups, n_selectors) {
            Ok(v) => v,
            Err(e) => {
                return Err(e);
            },
        };
        let code_result = read_code_tables(reader, n_groups, alpha_size);
        let code = match code_result {
            Ok(v) => v,
            Err(e) => {
                return Err(e);
            },
        };

        let nblock_max = 100_000 * self.block_size_100k;
        let mut tt: Vec<u32> = Vec::new();
        let unzftab = match decode_symbols(reader, &code, &selector, &seq2unseq, nblock_max, &mut tt) {
            Ok(v) => v,
            Err(e) => {
                return Err(e);
            },
        };
        self.tt = tt;
        if orig_pos >= self.tt.len() {
            return Err(BZip2Error::DataError);
        }
        match link_block(&mut self.tt, unzftab) {
            Ok(()) => {},
            Err(e) => {
                return Err(e);
            },
        }
        self.t_pos = self.tt[orig_pos] >> 8u32;
        self.n_block_used = 0;
        if self.block_randomised {
            self.block_randomise.reset();
        }
        self.result_count = 0;
        self.result_wrote_count = 0;
        Ok(true)
    }
}

proof fn lemma_word_below_15(v: u32)
    by (bit_vector)
    requires
        (v as u64) >> 15u64 == 0,
    ensures
        v < 32768,
{
}

/// Reads which byte values occur in a block: sixteen flags for groups of
/// sixteen values, then sixteen flags for each group flagged.
fn read_symbol_map(reader: &mut LeftBitReader) -> (r: Result<Vec<usize>, BZip2Error>)
    requires
        old(reader).attached(),
    ensures
        final(reader).attached(),
        final(reader).stream().len() <= old(reader).stream().len(),
        r is Ok ==> 1 <= r->Ok_0@.len() <= 256 && forall|k: int| 0 <= k < r->Ok_0@.len() ==> #[trigger] r->Ok_0@[k]
            < 256,
        r is Err ==> r == Err::<Vec<usize>, BZip2Error>(BZip2Error::UnexpectedEof) || r == Err::<
            Vec<usize>,
            BZip2Error,
        >(BZip2Error::DataError),
{
    let mut in_use16: Vec<bool> = Vec::new();
    let mut i: usize = 0;
    while i < 16
        invariant
            i <= 16,
            in_use16@.len() == i,
            reader.attached(),
            reader.stream().len() <= old(reader).stream().len(),
        decreases 16 - i,
    {
        let b = match read_bit(reader) {
            Ok(b) => b,
            Err(_) => {
                return Err(BZip2Error::UnexpectedEof);
            },
        };
        in_use16.push(b);
        i = i + 1;
    }
    let mut seq2unseq: Vec<usize> = Vec::new();
    let mut i: usize = 0;
    while i < 16
        invariant
            i <= 16,
            in_use16@.len() == 16,
            seq2unseq@.len() <= 16 * i,
            forall|k: int| 0 <= k < seq2unseq@.len() ==> #[trigger] seq2unseq@[k] < 16 * i,
            reader.attached(),
            reader.stream().len() <= old(reader).stream().len(),
        decreases 16 - i,
    {
        if in_use16[i] {
            let mut j: usize = 0;
            while j < 16
                invariant
                    i < 16,
                    j <= 16,
                    seq2unseq@.len() <= 16 * i + j,
                    forall|k: int| 0 <= k < seq2unseq@.len() ==> #[trigger] seq2unseq@[k] < 16 * i + j,
                    reader.attached(),
                    reader.stream().len() <= old(reader).stream().len(),
                decreases 16 - j,
            {
                let b = match read_bit(reader) {
                    Ok(b) => b,
                    Err(_) => {
                        return Err(BZip2Error::UnexpectedEof);
                    },
                };
                if b {
                    seq2unseq.push(i * 16 + j);
                }
                j = j + 1;
            }
        }
        i = i + 1;
    }
    if seq2unseq.len() == 0 {
        return Err(BZip2Error::DataError);
    }
    Ok(seq2unseq)
}

/// Reads the selectors: for each group of symbols, which table codes it,
/// as a move-to-front position written in unary.
fn read_selectors(reader: &mut LeftBitReader, n_groups: usize, n_selectors: usize) -> (r: Result<
    Vec<usize>,
    BZip2Error,
>)
    requires
        old(reader).attached(),
        2 <= n_groups <= 6,
    ensures
        final(reader).attached(),
        final(reader).stream().len() <= old(reader).stream().len(),
        r is Ok ==> r->Ok_0@.len() == n_selectors && forall|k: int| 0 <= k < n_selectors ==> #[trigger] r->Ok_0@[k]
            < n_groups,
{
    let mut selector: Vec<usize> = Vec::new();
    let mut selector_mtf_dec = MtfPositionDecoder::new(n_groups);
    let mut k: usize = 0;
    while k < n_selectors
        invariant
            2 <= n_groups <= 6,
            selector_mtf_dec@.len() == n_groups,
            forall|q: int| 0 <= q < n_groups ==> #[trigger] selector_mtf_dec@[q] < n_groups,
            forall|q: int| 0 <= q < selector@.len() ==> #[trigger] selector@[q] < n_groups,
            selector@.len() == k,
            k <= n_selectors,
            reader.attached(),
            reader.stream().len() <= old(reader).stream().len(),
        decreases n_selectors - k,
    {
        let mut j: usize = 0;
        loop
            invariant
                j < n_groups,
                reader.attached(),
                reader.stream().len() <= old(reader).stream().len(),
            decreases n_groups - j,
        {
            let b = match read_bit(reader) {
                Ok(b) => b,
                Err(_) => {
                    return Err(BZip2Error::UnexpectedEof);
                },
            };
            if !b {
                break;
            }
            j = j + 1;
            if j >= n_groups {
                return Err(BZip2Error::DataError);
            }
        }
        proof {
            lemma_mtf_bound(selector_mtf_dec@, j as int, n_groups);
        }
        let v = selector_mtf_dec.pop(j);
        selector.push(v);
        k = k + 1;
    }
    Ok(selector)
}

/// The Huffman decoders of a block: `n` of them, well formed, each for
/// `alpha` symbols.
pub open spec fn tables_ok(code: Seq<HuffmanDecoder<Left>>, n: nat, alpha: nat) -> bool {
    &&& code.len() == n
    &&& forall|q: int| 0 <= q < n ==> #[trigger] code[q].wf() && code[q].lengths().len() == alpha
}

/// Reads the code lengths of each table as differences, and builds the
/// decoders.
#[verifier::loop_isolation(false)]
fn read_code_tables(reader: &mut LeftBitReader, n_groups: usize, alpha_size: usize) -> (r: Result<
    Vec<HuffmanDecoder<Left>>,
    BZip2Error,
>)
    requires
        old(reader).attached(),
        alpha_size <= 258,
    ensures
        final(reader).attached(),
        final(reader).stream().len() <= old(reader).stream().len(),
        r is Ok ==> tables_ok(r->Ok_0@, n_groups as nat, alpha_size as nat),
{
    let mut code: Vec<HuffmanDecoder<Left>> = Vec::new();
    let mut t: usize = 0;
    while t < n_groups
        invariant
            t <= n_groups,
            code@.len() == t,
            alpha_size <= 258,
            forall|q: int| 0 <= q < t ==> #[trigger] code@[q].wf() && code@[q].lengths().len() == alpha_size,
            reader.attached(),
            reader.stream().len() <= old(reader).stream().len(),
        decreases n_groups - t,
    {
        let mut curr: u8 = match read_bits(reader, 5) {
            Ok(v) => {
                proof {
                    assert(fits(v, 8));
                    crate::bit_vector::lemma_fits_bound(v, 8);
                    lemma_byte_word(v);
                }
                v as u8
            },
            Err(_) => {
                return Err(BZip2Error::UnexpectedEof);
            },
        };
        let mut row: Vec<u8> = Vec::new();
        let mut i: usize = 0;
        while i < alpha_size
            invariant
                i <= alpha_size,
                row@.len() == i,
                reader.attached(),
                reader.stream().len() <= old(reader).stream().len(),
            decreases alpha_size - i,
        {
            loop
                invariant
                    reader.attached(),
                    reader.stream().len() <= old(reader).stream().len(),
                decreases reader.stream().len(),
            {
                let b = match read_bit(reader) {
                    Ok(b) => b,
                    Err(_) => {
                        return Err(BZip2Error::UnexpectedEof);
                    },
                };
                if !b {
                    break;
                }
                if curr < 1 || curr > 20 {
                    return Err(BZip2Error::DataError);
                }
                let up = match read_bit(reader) {
                    Ok(b) => !b,
                    Err(_) => {
                        return Err(BZip2Error::UnexpectedEof);
                    },
                };
                if up {
                    curr = curr + 1;
                } else {
                    curr = curr - 1;
                }
            }
            row.push(curr);
            i = i + 1;
        }
        let d = match HuffmanDecoder::<Left>::new(row.as_slice(), 12) {
            Ok(d) => d,
            Err(_) => {
                return Err(BZip2Error::DataError);
            },
        };
        code.push(d);
        t = t + 1;
    }
    Ok(code)
}

/// Decodes the symbols of a block into `tt`: runs of the front value
/// (written in bijective base two with the symbols 0 and 1) and
/// move-to-front positions, up to the end-of-block symbol. Returns how
/// often each byte value occurs, shifted up by one.
fn decode_symbols(
    reader: &mut LeftBitReader,
    code: &Vec<HuffmanDecoder<Left>>,
    selector: &Vec<usize>,
    seq2unseq: &Vec<usize>,
    nblock_max: usize,
    tt: &mut Vec<u32>,
) -> (r: Result<Vec<usize>, BZip2Error>)
    requires
        old(reader).attached(),
        old(tt)@.len() == 0,
        nblock_max <= 900_000,
        1 <= seq2unseq@.len() <= 256,
        forall|q: int| 0 <= q < seq2unseq@.len() ==> #[trigger] seq2unseq@[q] < 256,
        selector@.len() < 32768,
        forall|q: int| 0 <= q < selector@.len() ==> #[trigger] selector@[q] < code@.len(),
        tables_ok(code@, code@.len(), (seq2unseq@.len() + 2) as nat),
    ensures
        final(reader).attached(),
        final(reader).stream().len() <= old(reader).stream().len(),
        final(tt)@.len() <= 10_000_000,
        r is Ok ==> final(tt)@.len() <= nblock_max && r->Ok_0@.len() == 257 && r->Ok_0@[0] == 0 && forall|q: int|
            0 <= q < 257 ==> #[trigger] r->Ok_0@[q] <= final(tt)@.len(),
{
    let alpha_size = seq2unseq.len() + 2;
    let eob = (alpha_size - 1) as u16;
    let n_selectors = selector.len();
    let mut unzftab: Vec<usize> = Vec::new();
    let mut k: usize = 0;
    while k < 257
        invariant
            k <= 257,
            alpha_size == seq2unseq@.len() + 2,
            forall|q: int| 0 <= q < code@.len() ==> #[trigger] code@[q].wf() && code@[q].lengths().len() == alpha_size,
            unzftab@.len() == k,
            forall|q: int| 0 <= q < k ==> #[trigger] unzftab@[q] == 0,
        decreases 257 - k,
    {
        unzftab.push(0);
        k = k + 1;
    }
    let mut group_no: usize = 0;
    let mut group_pos: usize = 0;
    let mut n: usize = 1;
    let mut es: usize = 0;
    let mut mtf_decoder = MtfPositionDecoder::new(seq2unseq.len());
    loop
        invariant
            nblock_max <= 900_000,
            tt@.len() <= nblock_max,
            1 <= n < 4 * 1024 * 1024,
            es <= 2 * n,
            unzftab@.len() == 257,
            unzftab@[0] == 0,
            forall|q: int| 0 <= q < 257 ==> #[trigger] unzftab@[q] <= tt@.len(),
            n_selectors == selector@.len(),
            n_selectors < 32768,
            group_no <= n_selectors,
            group_pos <= BZ_G_SIZE,
            group_pos > 0 ==> group_no >= 1,
            forall|q: int| 0 <= q < n_selectors ==> #[trigger] selector@[q] < code@.len(),
            forall|q: int| 0 <= q < code@.len() ==> #[trigger] code@[q].wf() && code@[q].lengths().len() == alpha_size,
            alpha_size == seq2unseq@.len() + 2,
            1 <= seq2unseq@.len() <= 256,
            eob == alpha_size - 1,
            forall|q: int| 0 <= q < seq2unseq@.len() ==> #[trigger] seq2unseq@[q] < 256,
            mtf_decoder@.len() == seq2unseq@.len(),
            forall|q: int| 0 <= q < seq2unseq@.len() ==> #[trigger] mtf_decoder@[q] < seq2unseq@.len(),
            reader.attached(),
            reader.stream().len() <= old(reader).stream().len(),
        decreases reader.stream().len(),
    {
        if group_pos == 0 {
            group_no = group_no + 1;
            if group_no > n_selectors {
                return Err(BZip2Error::DataError);
            }
            group_pos = BZ_G_SIZE;
        }
        group_pos = group_pos - 1;
        let g = selector[group_no - 1];
        let ghost before = reader.stream();
        let next_sym = match code[g].dec(reader) {
            Ok(Some(v)) => v,
            _ => {
                return Err(BZip2Error::DataError);
            },
        };
        proof {
            assert(code@[g as int].wf());
            assert(code@[g as int].lengths().len() == alpha_size);
            assert(decoded(code@[g as int].lengths(), before, reader.stream(), next_sym));
            assert(has_code(code@[g as int].lengths(), next_sym as int));
            assert(next_sym < alpha_size);
        }
        if es > 0 && next_sym != 0 && next_sym != 1 {
            proof {
                lemma_mtf_bound(mtf_decoder@, 0, seq2unseq.len());
            }
            let pos = mtf_decoder.pop(0);
            let uc = seq2unseq[pos];
            let bumped = unzftab[uc + 1] + es;
            let ghost prev_tab = unzftab@;
            let ghost prev_len = tt@.len();
            unzftab.set(uc + 1, bumped);
            push_run(tt, uc as u32, es);
            proof {
                assert forall|q: int| 0 <= q < 257 implies #[trigger] unzftab@[q] <= tt@.len() by {
                    if q != uc + 1 {
                        assert(unzftab@[q] == prev_tab[q]);
                    }
                }
            }
            if tt.len() >= nblock_max {
                return Err(BZip2Error::DataError);
            }
            n = 1;
            es = 0;
        }
        if next_sym == eob {
            break;
        }
        if n >= 2 * 1024 * 1024 {
            return Err(BZip2Error::DataError);
        }
        if next_sym == 0 {
            es = es + n;
            n = n * 2;
        } else if next_sym == 1 {
            n = n * 2;
            es = es + n;
        } else {
            if tt.len() >= nblock_max {
                return Err(BZip2Error::DataError);
            }
            proof {
                lemma_mtf_bound(mtf_decoder@, (next_sym - 1) as int, seq2unseq.len());
            }
            let pos = mtf_decoder.pop((next_sym - 1) as usize);
            let uc = seq2unseq[pos];
            let bumped = unzftab[uc + 1] + 1;
            let ghost prev_tab = unzftab@;
            unzftab.set(uc + 1, bumped);
            tt.push(uc as u32);
            proof {
                assert forall|q: int| 0 <= q < 257 implies #[trigger] unzftab@[q] <= tt@.len() by {
                    if q != uc + 1 {
                        assert(unzftab@[q] == prev_tab[q]);
                    }
                }
            }
        }
    }
    Ok(unzftab)
}

/// Appends `count` copies of `value`.
fn push_run(tt: &mut Vec<u32>, value: u32, count: usize)
    requires
        old(tt)@.len() + count <= usize::MAX,
    ensures
        final(tt)@.len() == old(tt)@.len() + count,
{
    let mut e: usize = 0;
    while e < count
        invariant
            e <= count,
            tt@.len() == old(tt)@.len() + e,
            old(tt)@.len() + count <= usize::MAX,
        decreases count - e,
    {
        tt.push(value);
        e = e + 1;
    }
}

/// Turns the symbol counts into the start of each symbol's range in sorted
/// order, and stores in the high bits of each entry of `tt` the position
/// that the inverse transform goes to next.
fn link_block(tt: &mut Vec<u32>, unzftab: Vec<usize>) -> (r: Result<(), BZip2Error>)
    requires
        old(tt)@.len() <= 900_000,
        unzftab@.len() == 257,
        forall|q: int| 0 <= q < 257 ==> #[trigger] unzftab@[q] <= old(tt)@.len(),
    ensures
        final(tt)@.len() == old(tt)@.len(),
{
    let mut unzftab = unzftab;
    if unzftab[0] != 0 {
        return Err(BZip2Error::DataError);
    }
    let count = tt.len();
    let mut i: usize = 1;
    while i < 257
        invariant
            1 <= i <= 257,
            unzftab@.len() == 257,
            count <= 900_000,
            forall|q: int| 0 <= q < i ==> #[trigger] unzftab@[q] <= 900_000 * (q + 1),
            forall|q: int| i <= q < 257 ==> #[trigger] unzftab@[q] <= count,
        decreases 257 - i,
    {
        let sum = unzftab[i] + unzftab[i - 1];
        unzftab.set(i, sum);
        if unzftab[i - 1] > unzftab[i] {
            return Err(BZip2Error::DataError);
        }
        i = i + 1;
    }
    if unzftab[256] != count {
        return Err(BZip2Error::DataError);
    }
    let mut i: usize = 0;
    while i < count
        invariant
            count == tt@.len(),
            count == old(tt)@.len(),
            count <= 900_000,
            unzftab@.len() == 257,
        decreases count - i,
    {
        let uc = (tt[i] % 256) as usize;
        let slot = unzftab[uc];
        if slot >= count {
            return Err(BZip2Error::DataError);
        }
        let linked = tt[slot] | ((i as u32) << 8u32);
        tt.set(slot, linked);
        unzftab.set(uc, slot + 1);
        i = i + 1;
    }
    Ok(())
}


impl BZip2Decoder {
    /// How many more copies of the current character a run still owes.
    pub closed spec fn spec_pending(&self) -> nat {
        (self.result_count - self.result_wrote_count) as nat
    }

    /// The length of the current run of equal characters.
    pub closed spec fn spec_run(&self) -> nat {
        self.result_count as nat
    }

    /// The character last handed out.
    pub closed spec fn spec_char(&self) -> u8 {
        self.result_charactor
    }

    /// Whether the current block was written with randomisation.
    pub closed spec fn spec_randomised(&self) -> bool {
        self.block_randomised
    }

    /// The position that the next step of the inverse transform reads.
    pub closed spec fn spec_t_pos(&self) -> nat {
        self.t_pos as nat
    }

    /// The entries of the current block: the character in the low byte and
    /// the link to the next position above it.
    pub closed spec fn spec_tt(&self) -> Seq<u32> {
        self.tt@
    }

    /// One step of the inverse Burrows-Wheeler transform: the character at
    /// the current position, and the move to the position it links to.
    fn get_next_lfm(&mut self) -> (r: Result<u8, BZip2Error>)
        requires
            old(self).wf(),
        ensures
            final(self).wf(),
            final(self).tt == old(self).tt,
            final(self).result_count == old(self).result_count,
            final(self).result_wrote_count == old(self).result_wrote_count,
            final(self).result_charactor == old(self).result_charactor,
            final(self).block_randomised == old(self).block_randomised,
            final(self).block_no == old(self).block_no,
            final(self).stream_no == old(self).stream_no,
            (old(self).t_pos < old(self).tt@.len()) <==> r is Ok,
            r is Err ==> r == Err::<u8, BZip2Error>(BZip2Error::DataError) && *final(self) == *old(self),
            r is Ok ==> {
                &&& final(self).t_pos == old(self).tt@[old(self).t_pos as int] >> 8u32
                &&& final(self).n_block_used == old(self).n_block_used + 1 || (final(self).n_block_used
                    == usize::MAX && old(self).n_block_used == usize::MAX)
                &&& !old(self).block_randomised ==> r->Ok_0 == old(self).tt@[old(self).t_pos as int] % 256
            },
    {
        let position = self.t_pos;
        if position as usize >= self.tt.len() {
            return Err(BZip2Error::DataError);
        }
        let entry = self.tt[position as usize];
        let mut k0 = (entry % 256) as u8;
        self.t_pos = entry >> 8u32;
        self.n_block_used = self.n_block_used.saturating_add(1);
        if self.block_randomised {
            if self.block_randomise.next() {
                k0 = k0 ^ 1u8;
            }
        }
        Ok(k0)
    }

    /// Produces the next character of the decoded data, reading blocks
    /// from `reader` as they are needed; `None` at the end of the last
    /// stream. The characters of a block come from the inverse
    /// Burrows-Wheeler transform; after four equal characters in a row, the
    /// next entry gives how many more copies follow, and the character after
    /// them begins a new run.
    pub fn next(&mut self, reader: &mut LeftBitReader) -> (r: Result<Option<u8>, BZip2Error>)
        requires
            old(self).wf(),
            old(reader).attached(),
        ensures
            final(self).wf(),
            final(reader).attached(),
            final(reader).stream().len() <= old(reader).stream().len(),
            r matches Ok(Some(c)) ==> c == final(self).spec_char(),
            old(self).spec_pending() > 0 ==> {
                &&& r == Ok::<Option<u8>, BZip2Error>(Some(old(self).spec_char()))
                &&& final(self).spec_pending() == old(self).spec_pending() - 1
                &&& final(self).spec_char() == old(self).spec_char()
                &&& final(reader).stream() == old(reader).stream()
                &&& final(self).spec_tt() == old(self).spec_tt()
                &&& final(self).spec_t_pos() == old(self).spec_t_pos()
            },
            r == Ok::<Option<u8>, BZip2Error>(None) ==> old(self).spec_pending() == 0 && old(self).spec_used()
                == old(self).spec_block_len(),
            (old(self).spec_pending() == 0 && old(self).spec_used() != old(self).spec_block_len()) ==> {
                &&& old(self).spec_t_pos() >= old(self).spec_block_len() ==> r == Err::<Option<u8>, BZip2Error>(
                    BZip2Error::DataError)
                &&& final(reader).stream() == old(reader).stream()
                &&& final(self).spec_tt() == old(self).spec_tt()
                &&& r is Ok ==> run_step(old(self).spec_tt(), old(self).spec_t_pos(), old(self).spec_run(),
                    old(self).spec_char(), old(self).spec_randomised(), r->Ok_0->Some_0,
                    final(self).spec_run(), final(self).spec_pending(), final(self).spec_t_pos())
            },
    {
        if self.result_count == self.result_wrote_count {
            if self.n_block_used == self.tt.len() {
                if !self.init_block(reader)? {
                    return Ok(None);
                }
            }
            let buffer = self.get_next_lfm()?;
            if buffer == self.result_charactor && self.result_count < 4 {
                self.result_count = self.result_count + 1;
                self.result_wrote_count = self.result_wrote_count + 1;
            } else {
                self.result_charactor = buffer;
                self.result_count = 1;
                self.result_wrote_count = 1;
            }
            if self.result_count == 4 {
                let extra = self.get_next_lfm()?;
                self.result_count = self.result_count + extra as usize;
            }
        } else {
            self.result_wrote_count = self.result_wrote_count + 1;
        }
        self.block_crc_digest.write_u8(self.result_charactor);
        Ok(Some(self.result_charactor))
    }
}

/// One step of the output of a block, with nothing owed by a run: from
/// `pos` in the entries `tt`, the character `c` comes out; it extends the
/// run when it equals the last character of a run shorter than four, and
/// starts one otherwise; a run that reaches four owes as many more copies as the low byte of the entry
/// after it says. Of a randomised block only the moves are stated.
pub open spec fn run_step(
    tt: Seq<u32>,
    pos: nat,
    run: nat,
    last: u8,
    randomised: bool,
    c: u8,
    run2: nat,
    pending2: nat,
    pos2: nat,
) -> bool {
    &&& pos < tt.len()
    &&& !randomised ==> c == tt[pos as int] % 256
    &&& {
        let next = (tt[pos as int] >> 8u32) as nat;
        let run1: nat = if c == last && run < 4 { run + 1 } else { 1 };
        if run1 == 4 {
            &&& next < tt.len()
            &&& pos2 == (tt[next as int] >> 8u32) as nat
            &&& !randomised ==> pending2 == tt[next as int] % 256 && run2 == 4 + tt[next as int] % 256
        } else {
            &&& pos2 == next
            &&& pending2 == 0
            &&& run2 == run1
        }
    }
}

} // verus!
