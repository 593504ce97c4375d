use vstd::prelude::*;
use crate::bit_reader::{BitReader, RightBitReader};
use crate::bit_vector::{bit32, bits_lsb};
use crate::crc32::{crc_byte, crc_fold, ieee_reverse, Digest, PolynomialRepresentation};
use crate::deflate::decoder::{read_bits, Deflater};
use crate::error::CompressionError;

verus! {

/// The first zero byte of `h` at or after `from`.
pub open spec fn first_zero(h: Seq<u8>, from: int) -> Option<int>
    decreases h.len() - from,
{
    if from < 0 || from >= h.len() {
        None
    } else if h[from] == 0 {
        Some(from)
    } else {
        first_zero(h, from + 1)
    }
}

/// A zero byte found from `from` lies at or after it, within the bytes.
proof fn lemma_first_zero_range(h: Seq<u8>, from: int)
    ensures
        first_zero(h, from) matches Some(i) ==> from <= i < h.len() && h[i] == 0,
    decreases h.len() - from,
{
    if 0 <= from < h.len() && h[from] != 0 {
        lemma_first_zero_range(h, from + 1);
    }
}

/// What the header bytes read so far say.
#[derive(Debug, Clone, Copy, PartialEq, Eq)]
pub enum HeaderStep {
    /// The header is malformed.
    Bad,
    /// The header needs to be this long before it can be judged.
    Need(usize),
    /// The header is complete and sound.
    Done,
}

/// The CRC-32 of gzip over `s`, as its low 16 bits.
pub open spec fn header_crc16(s: Seq<u8>) -> u16 {
    (!crc_fold(PolynomialRepresentation::Reverse, 0xFFFF_FFFF, 0xEDB8_8320, s)) as u16
}

/// The judgement of a gzip header (RFC 1952) whose first `h.len()` bytes,
/// as many as were asked for (`need`), have been read: the magic bytes, the
/// method (8, deflate), no reserved flag; then, as the flags ask, the
/// extra field (two length bytes and that many more), a name ending in a
/// zero byte, a comment ending in a zero byte (looked for from where the
/// name's zero byte stands), and a CRC-16 of the header before it.
pub open spec fn gzip_header_step(h: Seq<u8>, need: nat) -> HeaderStep {
    let flg = h[3];
    if h[0] != 0x1f || h[1] != 0x8b || h[2] != 0x08 || flg & 0xE0u8 != 0 {
        HeaderStep::Bad
    } else if flg & 4u8 != 0 && h.len() < 12 {
        HeaderStep::Need(if need < 12 { 12 } else { need as usize })
    } else {
        let xlen: int = if flg & 4u8 != 0 { h[11] * 256 + h[10] + 2 } else { 0 };
        let extra_last = 10 + xlen;
        if h.len() < extra_last {
            HeaderStep::Need(if need < extra_last { extra_last as usize } else { need as usize })
        } else if flg & 8u8 != 0 && first_zero(h, extra_last) is None {
            HeaderStep::Need((need + 1) as usize)
        } else {
            let fname_len: int = if flg & 8u8 != 0 { first_zero(h, extra_last)->0 - extra_last } else { 0 };
            if flg & 16u8 != 0 && first_zero(h, extra_last + fname_len) is None {
                HeaderStep::Need((need + 1) as usize)
            } else {
                let fcomment_len: int = if flg & 16u8 != 0 {
                    first_zero(h, extra_last + fname_len)->0 - extra_last - fname_len
                } else {
                    0
                };
                let comment_last = extra_last + fname_len + fcomment_len;
                if flg & 2u8 != 0 {
                    if h.len() < comment_last + 2 {
                        HeaderStep::Need(
                            if need < comment_last + 2 { (comment_last + 2) as usize } else { need as usize },
                        )
                    } else if h[comment_last] + 256 * h[comment_last + 1] != header_crc16(h.take(comment_last)) {
                        HeaderStep::Bad
                    } else {
                        HeaderStep::Done
                    }
                } else {
                    HeaderStep::Done
                }
            }
        }
    }
}

/// Finds the first zero byte of `h` at or after `from`.
fn find_zero(h: &Vec<u8>, from: usize) -> (r: Option<usize>)
    ensures
        r matches Some(i) ==> first_zero(h@, from as int) == Some(i as int),
        r is None ==> first_zero(h@, from as int) is None,
{
    let mut i = from;
    while i < h.len()
        invariant
            from <= i,
            first_zero(h@, from as int) == first_zero(h@, i as int),
        decreases h.len() - i,
    {
        if h[i] == 0 {
            return Some(i);
        }
        i = i + 1;
    }
    None
}

/// Judges the header bytes read so far, as `gzip_header_step` says.
fn header_step(h: &Vec<u8>, need: usize) -> (r: HeaderStep)
    requires
        h@.len() == need,
        10 <= need < usize::MAX - 2,
    ensures
        r == gzip_header_step(h@, need as nat),
        r matches HeaderStep::Need(n) ==> n > h@.len(),
{
    if h[0] != 0x1f || h[1] != 0x8b || h[2] != 0x08 {
        return HeaderStep::Bad;
    }
    let flg = h[3];
    if (flg & 0b1110_0000) != 0 {
        return HeaderStep::Bad;
    }
    let xlen: usize = if (flg & 0b100) != 0 {
        if h.len() < 12 {
            return HeaderStep::Need(if need < 12 { 12 } else { need });
        }
        (h[11] as usize) * 256 + h[10] as usize + 2
    } else {
        0
    };
    let fextra_last = 10 + xlen;
    if h.len() < fextra_last {
        return HeaderStep::Need(if need < fextra_last { fextra_last } else { need });
    }
    let fname_len: usize = if (flg & 0b1000) != 0 {
        match find_zero(h, fextra_last) {
            Some(l) => {
                proof {
                    lemma_first_zero_range(h@, fextra_last as int);
                }
                l - fextra_last
            },
            None => {
                return HeaderStep::Need(need + 1);
            },
        }
    } else {
        0
    };
    let fcomment_len: usize = if (flg & 0b1_0000) != 0 {
        match find_zero(h, fextra_last + fname_len) {
            Some(l) => {
                proof {
                    lemma_first_zero_range(h@, fextra_last + fname_len);
                }
                l - fextra_last - fname_len
            },
            None => {
                return HeaderStep::Need(need + 1);
            },
        }
    } else {
        0
    };
    if (flg & 0b10) != 0 {
        let comment_last = fextra_last + fname_len + fcomment_len;
        if h.len() < comment_last + 2 {
            return HeaderStep::Need(if need < comment_last + 2 { comment_last + 2 } else { need });
        }
        let hi = h[1 + comment_last];
        let lo = h[comment_last];
        let hcrc = (hi as u16) * 256 + lo as u16;
        let builder = ieee_reverse();
        let mut digest = builder.build_hasher();
        let head = slice_prefix(h, comment_last);
        digest.write(head.as_slice());
        if hcrc != digest.finish() as u16 {
            return HeaderStep::Bad;
        }
    }
    HeaderStep::Done
}

/// The first `n` bytes of `h`.
fn slice_prefix(h: &Vec<u8>, n: usize) -> (r: Vec<u8>)
    requires
        n <= h@.len(),
    ensures
        r@ == h@.take(n as int),
{
    let mut r: Vec<u8> = Vec::new();
    let mut i: usize = 0;
    while i < n
        invariant
            i <= n <= h@.len(),
            r@ == h@.take(i as int),
        decreases n - i,
    {
        r.push(h[i]);
        i = i + 1;
        assert(r@ =~= h@.take(i as int));
    }
    r
}


/// The four bytes of a little-endian word, each read least significant bit
/// first, give the word's bits in the same order.
proof fn lemma_le_word(b0: u32, b1: u32, b2: u32, b3: u32)
    by (bit_vector)
    requires
        b0 < 256,
        b1 < 256,
        b2 < 256,
        b3 < 256,
    ensures
        forall|i: u32|
            i < 8 ==> (((b0 | (b1 << 8u32) | (b2 << 16u32) | (b3 << 24u32)) >> i) & 1 == 1) == ((b0 >> i) & 1
                == 1),
        forall|i: u32|
            8 <= i < 16 ==> (((b0 | (b1 << 8u32) | (b2 << 16u32) | (b3 << 24u32)) >> i) & 1 == 1) == ((b1 >> ((i - 8u32) as u32)) & 1 == 1),
        forall|i: u32|
            16 <= i < 24 ==> (((b0 | (b1 << 8u32) | (b2 << 16u32) | (b3 << 24u32)) >> i) & 1 == 1) == ((b2 >> ((i - 16u32) as u32)) & 1 == 1),
        forall|i: u32|
            24 <= i < 32 ==> (((b0 | (b1 << 8u32) | (b2 << 16u32) | (b3 << 24u32)) >> i) & 1 == 1) == ((b3 >> ((i - 24u32) as u32)) & 1 == 1),
{
}

/// Reads a little-endian 32-bit word: four bytes, the first least
/// significant.
fn read_u32(reader: &mut RightBitReader) -> (r: Result<u32, CompressionError>)
    requires
        old(reader).attached(),
    ensures
        final(reader).attached(),
        final(reader).stream().len() <= old(reader).stream().len(),
        r is Ok <==> 32 <= old(reader).stream().len(),
        r is Err ==> r == Err::<u32, CompressionError>(CompressionError::UnexpectedEof),
        r is Ok ==> bits_lsb(r->Ok_0, 32) == old(reader).stream().take(32) && final(reader).stream() == old(
            reader,
        ).stream().skip(32),
{
    let ghost s = reader.stream();
    let b0 = match read_bits(reader, 8) {
        Ok(v) => v,
        Err(_) => {
            return Err(CompressionError::UnexpectedEof);
        },
    };
    let b1 = match read_bits(reader, 8) {
        Ok(v) => v,
        Err(_) => {
            return Err(CompressionError::UnexpectedEof);
        },
    };
    let b2 = match read_bits(reader, 8) {
        Ok(v) => v,
        Err(_) => {
            return Err(CompressionError::UnexpectedEof);
        },
    };
    let b3 = match read_bits(reader, 8) {
        Ok(v) => v,
        Err(_) => {
            return Err(CompressionError::UnexpectedEof);
        },
    };
    let w = b0 | (b1 << 8u32) | (b2 << 16u32) | (b3 << 24u32);
    proof {
        vstd::arithmetic::power2::lemma2_to64();
        lemma_le_word(b0, b1, b2, b3);
        assert(s.skip(8).skip(8) =~= s.skip(16));
        assert(s.skip(16).skip(8) =~= s.skip(24));
        assert(s.skip(24).skip(8) =~= s.skip(32));
        assert forall|i: int| 0 <= i < 32 implies #[trigger] bits_lsb(w, 32)[i] == s.take(32)[i] by {
            let iu = i as u32;
            if i < 8 {
                assert(bits_lsb(b0, 8)[i] == s.take(8)[i]);
            } else if i < 16 {
                assert(bits_lsb(b1, 8)[i - 8] == s.skip(8).take(8)[i - 8]);
            } else if i < 24 {
                assert(bits_lsb(b2, 8)[i - 16] == s.skip(16).take(8)[i - 16]);
            } else {
                assert(bits_lsb(b3, 8)[i - 24] == s.skip(24).take(8)[i - 24]);
            }
        }
        assert(bits_lsb(w, 32) =~= s.take(32));
    }
    Ok(w)
}

/// A word is determined by its 32 bits.
proof fn lemma_word_bits_eq(a: u32, b: u32)
    by (bit_vector)
    requires
        bit32(a, 0) == bit32(b, 0),
        bit32(a, 1) == bit32(b, 1),
        bit32(a, 2) == bit32(b, 2),
        bit32(a, 3) == bit32(b, 3),
        bit32(a, 4) == bit32(b, 4),
        bit32(a, 5) == bit32(b, 5),
        bit32(a, 6) == bit32(b, 6),
        bit32(a, 7) == bit32(b, 7),
        bit32(a, 8) == bit32(b, 8),
        bit32(a, 9) == bit32(b, 9),
        bit32(a, 10) == bit32(b, 10),
        bit32(a, 11) == bit32(b, 11),
        bit32(a, 12) == bit32(b, 12),
        bit32(a, 13) == bit32(b, 13),
        bit32(a, 14) == bit32(b, 14),
        bit32(a, 15) == bit32(b, 15),
        bit32(a, 16) == bit32(b, 16),
        bit32(a, 17) == bit32(b, 17),
        bit32(a, 18) == bit32(b, 18),
        bit32(a, 19) == bit32(b, 19),
        bit32(a, 20) == bit32(b, 20),
        bit32(a, 21) == bit32(b, 21),
        bit32(a, 22) == bit32(b, 22),
        bit32(a, 23) == bit32(b, 23),
        bit32(a, 24) == bit32(b, 24),
        bit32(a, 25) == bit32(b, 25),
        bit32(a, 26) == bit32(b, 26),
        bit32(a, 27) == bit32(b, 27),
        bit32(a, 28) == bit32(b, 28),
        bit32(a, 29) == bit32(b, 29),
        bit32(a, 30) == bit32(b, 30),
        bit32(a, 31) == bit32(b, 31),
    ensures
        a == b,
{
}

/// Two words with the same bits, least significant first, are equal.
pub proof fn lemma_bits_lsb_eq(a: u32, b: u32)
    requires
        bits_lsb(a, 32) == bits_lsb(b, 32),
    ensures
        a == b,
{
    assert(bits_lsb(a, 32)[0] == bit32(a, 0) && bits_lsb(b, 32)[0] == bit32(b, 0) && bit32(a, 0) == bit32(b, 0));
    assert(bits_lsb(a, 32)[1] == bit32(a, 1) && bits_lsb(b, 32)[1] == bit32(b, 1) && bit32(a, 1) == bit32(b, 1));
    assert(bits_lsb(a, 32)[2] == bit32(a, 2) && bits_lsb(b, 32)[2] == bit32(b, 2) && bit32(a, 2) == bit32(b, 2));
    assert(bits_lsb(a, 32)[3] == bit32(a, 3) && bits_lsb(b, 32)[3] == bit32(b, 3) && bit32(a, 3) == bit32(b, 3));
    assert(bits_lsb(a, 32)[4] == bit32(a, 4) && bits_lsb(b, 32)[4] == bit32(b, 4) && bit32(a, 4) == bit32(b, 4));
    assert(bits_lsb(a, 32)[5] == bit32(a, 5) && bits_lsb(b, 32)[5] == bit32(b, 5) && bit32(a, 5) == bit32(b, 5));
    assert(bits_lsb(a, 32)[6] == bit32(a, 6) && bits_lsb(b, 32)[6] == bit32(b, 6) && bit32(a, 6) == bit32(b, 6));
    assert(bits_lsb(a, 32)[7] == bit32(a, 7) && bits_lsb(b, 32)[7] == bit32(b, 7) && bit32(a, 7) == bit32(b, 7));
    assert(bits_lsb(a, 32)[8] == bit32(a, 8) && bits_lsb(b, 32)[8] == bit32(b, 8) && bit32(a, 8) == bit32(b, 8));
    assert(bits_lsb(a, 32)[9] == bit32(a, 9) && bits_lsb(b, 32)[9] == bit32(b, 9) && bit32(a, 9) == bit32(b, 9));
    assert(bits_lsb(a, 32)[10] == bit32(a, 10) && bits_lsb(b, 32)[10] == bit32(b, 10) && bit32(a, 10) == bit32(b, 10));
    assert(bits_lsb(a, 32)[11] == bit32(a, 11) && bits_lsb(b, 32)[11] == bit32(b, 11) && bit32(a, 11) == bit32(b, 11));
    assert(bits_lsb(a, 32)[12] == bit32(a, 12) && bits_lsb(b, 32)[12] == bit32(b, 12) && bit32(a, 12) == bit32(b, 12));
    assert(bits_lsb(a, 32)[13] == bit32(a, 13) && bits_lsb(b, 32)[13] == bit32(b, 13) && bit32(a, 13) == bit32(b, 13));
    assert(bits_lsb(a, 32)[14] == bit32(a, 14) && bits_lsb(b, 32)[14] == bit32(b, 14) && bit32(a, 14) == bit32(b, 14));
    assert(bits_lsb(a, 32)[15] == bit32(a, 15) && bits_lsb(b, 32)[15] == bit32(b, 15) && bit32(a, 15) == bit32(b, 15));
    assert(bits_lsb(a, 32)[16] == bit32(a, 16) && bits_lsb(b, 32)[16] == bit32(b, 16) && bit32(a, 16) == bit32(b, 16));
    assert(bits_lsb(a, 32)[17] == bit32(a, 17) && bits_lsb(b, 32)[17] == bit32(b, 17) && bit32(a, 17) == bit32(b, 17));
    assert(bits_lsb(a, 32)[18] == bit32(a, 18) && bits_lsb(b, 32)[18] == bit32(b, 18) && bit32(a, 18) == bit32(b, 18));
    assert(bits_lsb(a, 32)[19] == bit32(a, 19) && bits_lsb(b, 32)[19] == bit32(b, 19) && bit32(a, 19) == bit32(b, 19));
    assert(bits_lsb(a, 32)[20] == bit32(a, 20) && bits_lsb(b, 32)[20] == bit32(b, 20) && bit32(a, 20) == bit32(b, 20));
    assert(bits_lsb(a, 32)[21] == bit32(a, 21) && bits_lsb(b, 32)[21] == bit32(b, 21) && bit32(a, 21) == bit32(b, 21));
    assert(bits_lsb(a, 32)[22] == bit32(a, 22) && bits_lsb(b, 32)[22] == bit32(b, 22) && bit32(a, 22) == bit32(b, 22));
    assert(bits_lsb(a, 32)[23] == bit32(a, 23) && bits_lsb(b, 32)[23] == bit32(b, 23) && bit32(a, 23) == bit32(b, 23));
    assert(bits_lsb(a, 32)[24] == bit32(a, 24) && bits_lsb(b, 32)[24] == bit32(b, 24) && bit32(a, 24) == bit32(b, 24));
    assert(bits_lsb(a, 32)[25] == bit32(a, 25) && bits_lsb(b, 32)[25] == bit32(b, 25) && bit32(a, 25) == bit32(b, 25));
    assert(bits_lsb(a, 32)[26] == bit32(a, 26) && bits_lsb(b, 32)[26] == bit32(b, 26) && bit32(a, 26) == bit32(b, 26));
    assert(bits_lsb(a, 32)[27] == bit32(a, 27) && bits_lsb(b, 32)[27] == bit32(b, 27) && bit32(a, 27) == bit32(b, 27));
    assert(bits_lsb(a, 32)[28] == bit32(a, 28) && bits_lsb(b, 32)[28] == bit32(b, 28) && bit32(a, 28) == bit32(b, 28));
    assert(bits_lsb(a, 32)[29] == bit32(a, 29) && bits_lsb(b, 32)[29] == bit32(b, 29) && bit32(a, 29) == bit32(b, 29));
    assert(bits_lsb(a, 32)[30] == bit32(a, 30) && bits_lsb(b, 32)[30] == bit32(b, 30) && bit32(a, 30) == bit32(b, 30));
    assert(bits_lsb(a, 32)[31] == bit32(a, 31) && bits_lsb(b, 32)[31] == bit32(b, 31) && bit32(a, 31) == bit32(b, 31));
    lemma_word_bits_eq(a, b);
}

/// A decoder of gzip data (RFC 1952): the header, then DEFLATE data, then
/// the CRC-32 and the length of what it decoded to.
pub struct GZipDecoder {
    deflater: Deflater,
    crc32: Digest,
    header: Vec<u8>,
    header_needlen: usize,
    header_checked: bool,
    i_size: u32,
}

impl GZipDecoder {
    pub closed spec fn wf(&self) -> bool {
        &&& self.deflater.wf()
        &&& self.crc32.wf()
        &&& self.crc32.spec_poly() == 0xEDB8_8320
        &&& self.crc32.spec_repr() == PolynomialRepresentation::Reverse
        &&& 10 <= self.header_needlen
        &&& self.header@.len() <= self.header_needlen
        &&& self.header_checked ==> gzip_header_step(self.header@, self.header_needlen as nat) == HeaderStep::Done
    }

    /// The header bytes read so far.
    pub closed spec fn spec_header(&self) -> Seq<u8> {
        self.header@
    }

    /// How many header bytes are asked for so far.
    pub closed spec fn spec_need(&self) -> nat {
        self.header_needlen as nat
    }

    /// The header has been read and found sound.
    pub closed spec fn spec_header_checked(&self) -> bool {
        self.header_checked
    }

    /// How many bytes of the last DEFLATE code are still to be handed out.
    pub closed spec fn spec_owed(&self) -> nat {
        self.deflater.spec_owed()
    }

    /// The decoded data so far, the newest byte first, as far as the
    /// window reaches.
    pub closed spec fn spec_history(&self) -> Seq<u8> {
        self.deflater.spec_history()
    }

    /// The CRC register over the bytes decoded so far.
    pub closed spec fn spec_crc(&self) -> u32 {
        self.crc32.spec_value()
    }

    /// The count of bytes decoded so far, modulo 2^32.
    pub closed spec fn spec_size(&self) -> u32 {
        self.i_size
    }

    /// The last DEFLATE block has been read to its end.
    pub closed spec fn spec_deflate_done(&self) -> bool {
        self.deflater.spec_done()
    }

    pub fn new() -> (r: Self)
        ensures
            r.wf(),
            r.spec_header().len() == 0,
            r.spec_need() == 10,
            !r.spec_header_checked(),
            r.spec_crc() == 0xFFFF_FFFF,
            r.spec_size() == 0,
    {
        let builder = ieee_reverse();
        Self {
            deflater: Deflater::new(),
            crc32: builder.build_hasher(),
            header: Vec::new(),
            header_needlen: 10,
            header_checked: false,
            i_size: 0,
        }
    }

    /// Reads the trailer after the DEFLATE data, from the next byte
    /// boundary: the CRC-32 and the size, which must match what was decoded.
    fn check_trailer(&self, reader: &mut RightBitReader) -> (r: Result<Option<u8>, CompressionError>)
        requires
            self.wf(),
            old(reader).attached(),
        ensures
            final(reader).attached(),
            final(reader).stream().len() <= old(reader).stream().len(),
            ({
                let s = old(reader).stream();
                let k = (old(reader).pending().len() % 8) as int;
                &&& r is Ok ==> r == Ok::<Option<u8>, CompressionError>(None)
                &&& r is Err ==> r == Err::<Option<u8>, CompressionError>(CompressionError::DataError) || r == Err::<
                    Option<u8>,
                    CompressionError,
                >(CompressionError::UnexpectedEof)
                &&& s.len() < k + 32 ==> r == Err::<Option<u8>, CompressionError>(CompressionError::UnexpectedEof)
                &&& s.len() >= k + 64 ==> (r == Ok::<Option<u8>, CompressionError>(None) || r == Err::<
                    Option<u8>,
                    CompressionError,
                >(CompressionError::DataError))
                &&& s.len() >= k + 64 ==> (r == Ok::<Option<u8>, CompressionError>(None) <==> (s.skip(k).take(32)
                    == bits_lsb(!self.spec_crc(), 32) && s.skip(k + 32).take(32) == bits_lsb(self.spec_size(), 32)))
            }),
    {
        let ghost s1 = reader.stream();
        let ghost p1 = reader.pending();
        let _ = reader.skip_to_byte();
        proof {
            let k = p1.len() % 8;
            assert(reader.stream() =~= s1.skip(k as int));
        }
        let c = match read_u32(reader) {
            Ok(v) => v,
            Err(e) => {
                return Err(e);
            },
        };
        proof {
            let e = !self.crc32.spec_value();
            if s1.skip((p1.len() % 8) as int).take(32) == bits_lsb(e, 32) {
                lemma_bits_lsb_eq(c, e);
            }
        }
        if c as u64 != self.crc32.finish() {
            return Err(CompressionError::DataError);
        }
        let ghost s2 = reader.stream();
        let i_size = match read_u32(reader) {
            Ok(v) => v,
            Err(e) => {
                return Err(e);
            },
        };
        proof {
            let k = (p1.len() % 8) as int;
            assert(s2 =~= s1.skip(k + 32));
            assert(s1.skip(k + 32).take(32) =~= s2.take(32));
            if s1.skip(k + 32).take(32) == bits_lsb(self.i_size, 32) {
                lemma_bits_lsb_eq(i_size, self.i_size);
            }
        }
        if i_size != self.i_size {
            return Err(CompressionError::DataError);
        }
        Ok(None)
    }

    /// The next decoded byte; `None` at the end, once the CRC and the
    /// length stored after the data have been found to match. The header is
    /// read first, a byte at a time, until it can be judged.
    #[verifier::rlimit(50)]
    pub fn next(&mut self, reader: &mut RightBitReader) -> (r: Result<Option<u8>, CompressionError>)
        requires
            old(self).wf(),
            old(reader).attached(),
        ensures
            final(self).wf(),
            final(reader).attached(),
            final(reader).stream().len() <= old(reader).stream().len(),
            r is Err ==> r == Err::<Option<u8>, CompressionError>(CompressionError::DataError) || r == Err::<
                Option<u8>,
                CompressionError,
            >(CompressionError::UnexpectedEof),
            final(self).spec_header_checked() ==> gzip_header_step(final(self).spec_header(), final(self).spec_need())
                == HeaderStep::Done,
            !final(self).spec_header_checked() && r == Err::<Option<u8>, CompressionError>(CompressionError::DataError)
                ==> gzip_header_step(final(self).spec_header(), final(self).spec_need()) == HeaderStep::Bad
                || final(self).spec_need() >= usize::MAX - 2,
            r is Ok ==> final(self).spec_header_checked(),
            old(self).spec_header_checked() ==> final(self).spec_header_checked() && final(self).spec_header() == old(
                self,
            ).spec_header(),
            old(self).spec_header().is_prefix_of(final(self).spec_header()),
            r matches Ok(Some(b)) ==> {
                &&& final(self).spec_crc() == crc_byte(
                    PolynomialRepresentation::Reverse,
                    old(self).spec_crc(),
                    0xEDB8_8320,
                    b,
                )
                &&& final(self).spec_size() == (old(self).spec_size() + 1) % 0x1_0000_0000
            },
            r == Ok::<Option<u8>, CompressionError>(None) ==> final(self).spec_crc() == old(self).spec_crc()
                && final(self).spec_size() == old(self).spec_size(),
            old(self).spec_header_checked() && old(self).spec_owed() > 0 ==> r == Ok::<Option<u8>, CompressionError>(
                Some(old(self).spec_history()[old(self).spec_owed() - 1]),
            ) && final(self).spec_owed() == old(self).spec_owed() - 1 && final(self).spec_history() == old(
                self,
            ).spec_history(),
            old(self).spec_header_checked() && old(self).spec_owed() == 0 && old(self).spec_deflate_done() ==> ({
                let s = old(reader).stream();
                let k = (old(reader).pending().len() % 8) as int;
                &&& r is Ok ==> r == Ok::<Option<u8>, CompressionError>(None)
                &&& s.len() < k + 32 ==> r == Err::<Option<u8>, CompressionError>(CompressionError::UnexpectedEof)
                &&& s.len() >= k + 64 ==> (r == Ok::<Option<u8>, CompressionError>(None) || r == Err::<
                    Option<u8>,
                    CompressionError,
                >(CompressionError::DataError))
                &&& s.len() >= k + 64 ==> (r == Ok::<Option<u8>, CompressionError>(None) <==> (s.skip(k).take(32)
                    == bits_lsb(!old(self).spec_crc(), 32) && s.skip(k + 32).take(32) == bits_lsb(
                    old(self).spec_size(),
                    32,
                )))
            }),
    {
        loop
            invariant
                self.wf(),
                reader.attached(),
                reader.stream().len() <= old(reader).stream().len(),
                old(self).spec_header_checked() ==> self.spec_header_checked() && self.spec_header() == old(
                    self,
                ).spec_header(),
                old(self).spec_header().is_prefix_of(self.spec_header()),
                self.spec_crc() == old(self).spec_crc(),
                self.spec_size() == old(self).spec_size(),
                old(self).spec_header_checked() ==> self.deflater == old(self).deflater,
                old(self).spec_header_checked() ==> reader.stream() == old(reader).stream() && reader.pending() == old(
                    reader,
                ).pending(),
            decreases reader.stream().len(), if !self.header_checked && self.header@.len() >= self.header_needlen {
                1nat
            } else {
                0nat
            },
        {
            if !self.header_checked {
                if self.header.len() < self.header_needlen {
                    let b = match read_bits(reader, 8) {
                        Ok(v) => {
                            proof {
                                vstd::arithmetic::power2::lemma2_to64();
                            }
                            v as u8
                        },
                        Err(_) => {
                            return Err(CompressionError::UnexpectedEof);
                        },
                    };
                    let ghost before = self.header@;
                    self.header.push(b);
                    proof {
                        assert(before.is_prefix_of(self.header@));
                    }
                } else {
                    if self.header_needlen >= usize::MAX - 2 {
                        return Err(CompressionError::DataError);
                    }
                    match header_step(&self.header, self.header_needlen) {
                        HeaderStep::Bad => {
                            return Err(CompressionError::DataError);
                        },
                        HeaderStep::Need(n) => {
                            self.header_needlen = n;
                        },
                        HeaderStep::Done => {
                            self.header_checked = true;
                        },
                    }
                }
            } else {
                match self.deflater.next(reader) {
                    Some(Ok(s)) => {
                        self.crc32.write_u8(s);
                        self.i_size = self.i_size.wrapping_add(1);
                        return Ok(Some(s));
                    },
                    None => {
                        return self.check_trailer(reader);
                    },
                    Some(Err(e)) => {
                        return Err(e);
                    },
                }
            }
        }
    }
}

} // verus!
