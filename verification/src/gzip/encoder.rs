use vstd::prelude::*;
use crate::bit_reader::ByteSource;
use crate::compress::Action;
use crate::crc32::{crc_fold, ieee_reverse, Digest, PolynomialRepresentation};
use crate::deflate::encoder::Inflater;
use crate::error::CompressionError;

verus! {

/// The gzip member header this encoder writes: magic, DEFLATE, no flags,
/// no time, no extra flags, unknown system.
pub open spec fn gzip_header() -> Seq<u8> {
    seq![0x1Fu8, 0x8B, 0x08, 0x00, 0x00, 0x00, 0x00, 0x00, 0x00, 0xFF]
}

/// The CRC-32 register over `s`, as gzip computes it.
pub open spec fn gzip_crc(s: Seq<u8>) -> u32 {
    crc_fold(PolynomialRepresentation::Reverse, 0xFFFF_FFFF, 0xEDB8_8320, s)
}

/// `v`, least significant byte first.
pub open spec fn le4(v: u32) -> Seq<u8> {
    seq![v as u8, (v >> 8u32) as u8, (v >> 16u32) as u8, (v >> 24u32) as u8]
}

/// The gzip member trailer after the input `taken`: the CRC-32 and the
/// size modulo 2^32, each least significant byte first.
pub open spec fn gzip_trailer(taken: Seq<u8>) -> Seq<u8> {
    le4(!gzip_crc(taken)) + le4((taken.len() % 0x1_0000_0000) as u32)
}

/// `(x >> a) >> 8 == x >> (a + 8)`.
proof fn lemma_shr_shr8(x: u32, a: u32)
    requires
        a <= 16,
    ensures
        (x >> a) >> 8u32 == x >> ((a + 8) as u32),
{
    vstd::bits::lemma_u32_shr_is_div(x, a);
    vstd::bits::lemma_u32_shr_is_div(x >> a, 8u32);
    vstd::bits::lemma_u32_shr_is_div(x, (a + 8) as u32);
    vstd::arithmetic::power2::lemma_pow2_adds(a as nat, 8);
    vstd::arithmetic::power2::lemma_pow2_pos(a as nat);
    vstd::arithmetic::power2::lemma_pow2_pos(8);
    vstd::arithmetic::div_mod::lemma_div_denominator(x as int, vstd::arithmetic::power2::pow2(a as nat) as int, vstd::arithmetic::power2::pow2(8) as int);
}

/// The gzip encoder: the header, the DEFLATE stream of the input, then the
/// CRC-32 and the size (modulo 2^32) of the input, low byte first.
pub struct GZipEncoder {
    inflater: Inflater,
    crc32: Digest,
    header_len: u8,
    header: [u8; 10],
    hash: Option<u32>,
    hashlen: u8,
    i_size_len: u8,
    i_size: u32,
    out: Ghost<Seq<u8>>,
}

impl GZipEncoder {
    pub closed spec fn wf(&self) -> bool {
        &&& self.inflater.wf()
        &&& self.crc32.wf()
        &&& self.crc32.spec_poly() == 0xEDB8_8320
        &&& self.crc32.spec_repr() == PolynomialRepresentation::Reverse
        &&& self.header_len <= 10
        &&& self.header@ == gzip_header()
        &&& self.hashlen <= 3
        &&& self.i_size_len <= 4
        &&& self.crc32.spec_value() == gzip_crc(self.inflater.spec_taken())
        &&& self.hash is None ==> self.i_size as nat == self.inflater.spec_taken().len() % 0x1_0000_0000
        &&& self.hash is None ==> self.hashlen == 3 && self.i_size_len == 4
        &&& self.hash is Some && self.hashlen > 0 ==> self.hash->0 == (!gzip_crc(self.inflater.spec_taken())) >> ((8 * (4
            - self.hashlen)) as u32)
        &&& self.hash is Some && self.hashlen > 0 ==> self.i_size_len == 4
        &&& self.hash is Some && self.i_size_len > 0 ==> self.i_size == ((self.inflater.spec_taken().len()
            % 0x1_0000_0000) as u32) >> ((8 * (4 - self.i_size_len)) as u32)
    }

    /// How many trailer bytes are still to come, once the trailer has begun.
    pub closed spec fn spec_trailer_left(&self) -> nat {
        (self.hashlen + self.i_size_len) as nat
    }

    /// The bytes handed out so far.
    pub closed spec fn spec_out(&self) -> Seq<u8> {
        self.out@
    }

    /// How many header bytes are still to come.
    pub closed spec fn spec_header_left(&self) -> nat {
        self.header_len as nat
    }

    /// The DEFLATE stream has ended and the trailer is being written.
    pub closed spec fn spec_in_trailer(&self) -> bool {
        self.hash is Some
    }

    /// The input bytes taken so far.
    pub closed spec fn spec_taken(&self) -> Seq<u8> {
        self.inflater.spec_taken()
    }

    pub fn new() -> (r: Self)
        ensures
            r.wf(),
            r.spec_out() == Seq::<u8>::empty(),
            r.spec_header_left() == 10,
            !r.spec_in_trailer(),
            r.spec_taken() == Seq::<u8>::empty(),
    {
        let r = GZipEncoder {
            inflater: Inflater::new(),
            crc32: ieee_reverse().build_hasher(),
            header: [0x1F, 0x8B, 0x08, 0x00, 0x00, 0x00, 0x00, 0x00, 0x00, 0xFF],
            header_len: 10,
            hash: None,
            hashlen: 3,
            i_size: 0,
            i_size_len: 4,
            out: Ghost(Seq::empty()),
        };
        assert(r.header@ =~= gzip_header());
        r
    }

    /// The next byte of the gzip member of the bytes of `src`: the header
    /// first, then the DEFLATE stream, then the trailer; `None` at the end.
    pub fn next(&mut self, src: &mut ByteSource, action: Action) -> (r: Option<Result<u8, CompressionError>>)
        requires
            old(self).wf(),
        ensures
            final(self).wf(),
            r matches Some(Ok(b)) ==> final(self).spec_out() == old(self).spec_out().push(b),
            !(r matches Some(Ok(_))) ==> final(self).spec_out() == old(self).spec_out(),
            old(self).spec_header_left() > 0 ==> r == Some(Ok::<u8, CompressionError>(
                gzip_header()[10 - old(self).spec_header_left()],
            )) && final(self).spec_header_left() == old(self).spec_header_left() - 1,
            old(self).spec_taken() + old(src).remaining() == final(self).spec_taken() + final(src).remaining(),
            old(self).spec_taken().is_prefix_of(final(self).spec_taken()),
            old(self).spec_header_left() == 0 && !old(self).spec_in_trailer() && final(self).spec_in_trailer()
                ==> r == Some(Ok::<u8, CompressionError>(gzip_trailer(final(self).spec_taken())[0]))
                && final(self).spec_trailer_left() == 7,
            old(self).spec_header_left() == 0 && old(self).spec_in_trailer() ==> {
                &&& final(self).spec_in_trailer()
                &&& final(self).spec_taken() == old(self).spec_taken()
                &&& old(self).spec_trailer_left() > 0 ==> r == Some(Ok::<u8, CompressionError>(
                    gzip_trailer(old(self).spec_taken())[8 - old(self).spec_trailer_left()],
                )) && final(self).spec_trailer_left() == old(self).spec_trailer_left() - 1
                &&& old(self).spec_trailer_left() == 0 ==> r is None
            },
            final(self).spec_trailer_left() <= 7 || !final(self).spec_in_trailer(),
    {
        let hlen = self.header_len;
        if hlen > 0 {
            self.header_len = hlen - 1;
            let b = self.header[10 - hlen as usize];
            self.out = Ghost(self.out@.push(b));
            return Some(Ok(b));
        }
        if let Some(hash) = self.hash {
            let ghost t = self.inflater.spec_taken();
            let ghost c = !gzip_crc(t);
            let ghost z = (t.len() % 0x1_0000_0000) as u32;
            if self.hashlen == 0 {
                if self.i_size_len == 0 {
                    return None;
                }
                let ghost k = (4 - self.i_size_len) as u32;
                self.i_size_len = self.i_size_len - 1;
                let ret = self.i_size as u8;
                proof {
                    if k < 3 {
                        lemma_shr_shr8(z, (8 * k) as u32);
                    }
                    assert(z >> 0u32 == z) by {
                        vstd::bits::lemma_u32_shr_is_div(z, 0u32);
                        vstd::arithmetic::power2::lemma2_to64();
                    }
                    assert(gzip_trailer(t)[4 + k] == ret);
                }
                self.i_size = self.i_size >> 8u32;
                self.out = Ghost(self.out@.push(ret));
                return Some(Ok(ret));
            }
            let ghost k = (4 - self.hashlen) as u32;
            proof {
                if k < 3 {
                    lemma_shr_shr8(c, (8 * k) as u32);
                }
                assert(gzip_trailer(t)[k as int] == hash as u8);
            }
            self.hashlen = self.hashlen - 1;
            self.hash = Some(hash >> 8u32);
            let ret = hash as u8;
            self.out = Ghost(self.out@.push(ret));
            return Some(Ok(ret));
        }
        let ghost taken0 = self.inflater.spec_taken();
        let ghost rem0 = src.remaining();
        let p0 = src.pos();
        let ret = self.inflater.next(src, action);
        let p1 = src.pos();
        let ghost bytes = src.spec_bytes();
        proof {
            let taken1 = self.inflater.spec_taken();
            assert(rem0 =~= bytes.subrange(p0 as int, bytes.len() as int));
            assert(taken0.len() + rem0.len() == taken1.len() + src.remaining().len()) by {
                assert((taken0 + rem0).len() == (taken1 + src.remaining()).len());
            }
            assert(taken1 =~= taken0 + bytes.subrange(p0 as int, p1 as int)) by {
                assert forall|j: int| taken0.len() <= j < taken1.len() implies taken1[j] == bytes[p0 + j - taken0.len()] by {
                    assert((taken1 + src.remaining())[j] == (taken0 + rem0)[j]);
                }
                assert forall|j: int| 0 <= j < taken0.len() implies taken1[j] == taken0[j] by {
                    assert(taken0 =~= taken1.subrange(0, taken0.len() as int));
                }
            }
        }
        let mut i = p0;
        while i < p1
            invariant
                p0 <= i <= p1,
                p1 <= bytes.len(),
                bytes == src.spec_bytes(),
                self.crc32.wf(),
                self.crc32.spec_poly() == 0xEDB8_8320,
                self.crc32.spec_repr() == PolynomialRepresentation::Reverse,
                self.crc32.spec_value() == gzip_crc(taken0 + bytes.subrange(p0 as int, i as int)),
                self.hash is None,
                self.out@ == old(self).out@,
                self.inflater.wf(),
                self.inflater.spec_taken() == taken0 + bytes.subrange(p0 as int, p1 as int),
                self.header_len == 0,
                self.header@ == gzip_header(),
                self.hashlen == 3,
                self.i_size_len == 4,
                self.i_size as nat == (taken0.len() + (i - p0)) % 0x1_0000_0000,
            decreases p1 - i,
        {
            let b = src.byte_at(i);
            self.crc32.write_u8(b);
            self.i_size = self.i_size.wrapping_add(1);
            proof {
                let s = taken0 + bytes.subrange(p0 as int, i as int);
                assert(s.push(b) =~= taken0 + bytes.subrange(p0 as int, i + 1));
                assert(s.push(b).drop_last() =~= s);
            }
            i = i + 1;
        }
        match ret {
            None => {
                let hash = self.crc32.finish() as u32;
                proof {
                    lemma_shr_shr8(hash, 0);
                    let z = (self.inflater.spec_taken().len() % 0x1_0000_0000) as u32;
                    assert(z >> 0u32 == z) by {
                        vstd::bits::lemma_u32_shr_is_div(z, 0u32);
                        vstd::arithmetic::power2::lemma2_to64();
                    }
                    assert(hash >> 0u32 == hash) by {
                        vstd::bits::lemma_u32_shr_is_div(hash, 0u32);
                        vstd::arithmetic::power2::lemma2_to64();
                    }
                }
                self.hash = Some(hash >> 8u32);
                let b = hash as u8;
                self.out = Ghost(self.out@.push(b));
                Some(Ok(b))
            },
            Some(Ok(b)) => {
                self.out = Ghost(self.out@.push(b));
                Some(Ok(b))
            },
            Some(Err(e)) => Some(Err(e)),
        }
    }
}

impl Default for GZipEncoder {
    fn default() -> (r: Self)
        ensures
            r.wf(),
            r.spec_out() == Seq::<u8>::empty(),
    {
        Self::new()
    }
}

} // verus!
