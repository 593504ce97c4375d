use vstd::prelude::*;
use vstd::arithmetic::power2::pow2;
use crate::bit_reader::{BitReader, LeftBitReader};
use crate::bit_vector::{bits_msb, fits, lemma_fits_bound};
use crate::huffman::decoder::{codes_in_range, decoded, lemma_code_then_rest, lemma_msb_eq, lemma_unique_decoding};
use crate::huffman_encoder::{code_bits, has_code};
use crate::lzhuf::encoder::{ceil_log2, lemma_ceil_log2};
use crate::lzss::decoder::{apply_code, code_len};
use crate::bzip2::decoder::read_bits;
use crate::deflate::decoder::{is_tail, lemma_tail_skip, lemma_tail_trans};
use crate::error::CompressionError;
use crate::huffman::decoder::{HuffmanDecoder, Left};
use crate::lzhuf_compression::LzhufCompression;
use crate::lzss::decoder::LzssDecoder;
use crate::lzss::LzssCode;

verus! {

/// `v` is read off the front of `s` by the table `d`, leaving `rest`: its
/// canonical code, or no bits at all for a table of one implied symbol.
pub open spec fn lzh_decoded(d: LzhufHuffmanDecoder, s: Seq<bool>, rest: Seq<bool>, v: u16) -> bool {
    match d {
        LzhufHuffmanDecoder::HuffmanDecoder(h) => decoded(h.lengths(), s, rest, v),
        LzhufHuffmanDecoder::Default(x) => v == x && rest == s,
    }
}

/// The bits left after a symbol read by a table are a tail of those
/// before it.
proof fn lemma_decoded_tail(d: LzhufHuffmanDecoder, s: Seq<bool>, rest: Seq<bool>, v: u16)
    requires
        lzh_decoded(d, s, rest, v),
    ensures
        is_tail(rest, s),
{
    match d {
        LzhufHuffmanDecoder::HuffmanDecoder(h) => {
            lemma_tail_skip(s, h.lengths()[v as int] as int);
        },
        LzhufHuffmanDecoder::Default(x) => {
            lemma_tail_skip(s, 0);
            assert(s.skip(0) =~= s);
        },
    }
}

/// How many bits follow the distance symbol `p`: none for 0 and 1, else
/// `p - 1`.
pub open spec fn lzh_extra_bits(p: u16) -> nat {
    if p <= 1 {
        0
    } else {
        (p - 1) as nat
    }
}

/// The distance (less one) that the symbol `p` and the bits `v` after it
/// stand for: `p` itself for 0 and 1, else `2^(p - 1) + v`.
pub open spec fn lzh_position(p: u16, v: u32) -> int {
    if p <= 1 {
        p as int
    } else {
        pow2((p - 1) as nat) + v
    }
}

/// The bits `s` begin with a copy code of an LZH block, followed by
/// `rest`: the symbol `sym` (256 and up) under the table `symd`, which
/// gives the length `sym - 253`, then the distance symbol `p` under
/// `offd` and its `lzh_extra_bits(p)` bits `v`, most significant first,
/// which give `pos == lzh_position(p, v)`.
pub open spec fn lzh_ref_read(
    symd: Option<LzhufHuffmanDecoder>,
    offd: Option<LzhufHuffmanDecoder>,
    s: Seq<bool>,
    rest: Seq<bool>,
    len: usize,
    pos: usize,
) -> bool {
    exists|sym: u16, mid: Seq<bool>, p: u16, v: u32|
        #![trigger lzh_decoded(symd->0, s, mid, sym), lzh_decoded(offd->0, mid, bits_msb(v, lzh_extra_bits(p)) + rest, p)]
        symd is Some && offd is Some && lzh_decoded(symd->0, s, mid, sym) && 256 <= sym && len == sym - 253
            && lzh_decoded(offd->0, mid, bits_msb(v, lzh_extra_bits(p)) + rest, p) && v < pow2(lzh_extra_bits(p))
            && pos == lzh_position(p, v)
}

/// Round trip of an LZH distance. The encoder writes the distance (less
/// one) `pos` as the symbol `k`, the bit count of `pos`, and the bits of
/// `pos` below its top one; the decoder's reading of that symbol and those
/// bits gives `pos` back, and the bits fit the count it reads for `k`.
pub proof fn lemma_lzh_offset_round_trip(pos: nat)
    requires
        pos < 0x100_0000,
    ensures
        ({
            let k = ceil_log2(pos + 1);
            let sub: int = if k == 0 {
                pos as int
            } else {
                pos - pow2((k - 1) as nat)
            };
            &&& k <= 25
            &&& 0 <= sub < pow2(lzh_extra_bits(k as u16))
            &&& lzh_position(k as u16, sub as u32) == pos
        }),
{
    let k = ceil_log2(pos + 1);
    lemma_ceil_log2(pos + 1);
    vstd::arithmetic::power2::lemma2_to64();
    if k > 25 {
        vstd::arithmetic::power2::lemma_pow2_strictly_increases(24, (k - 1) as nat);
    }
    if k >= 1 {
        vstd::arithmetic::power2::lemma_pow2_unfold(k);
    }
}

/// What a table of an LZH block writes for `v`: its canonical code, or no
/// bits at all for a table of one implied symbol.
pub open spec fn lzh_code_bits(d: LzhufHuffmanDecoder, v: u16) -> Seq<bool> {
    match d {
        LzhufHuffmanDecoder::HuffmanDecoder(h) => code_bits(h.lengths(), v as int),
        LzhufHuffmanDecoder::Default(_) => Seq::empty(),
    }
}

/// `v` is a symbol the table `d` can write.
pub open spec fn lzh_codes(d: LzhufHuffmanDecoder, v: u16) -> bool {
    match d {
        LzhufHuffmanDecoder::HuffmanDecoder(h) => has_code(h.lengths(), v as int),
        LzhufHuffmanDecoder::Default(x) => v == x,
    }
}

/// The codes of `d` are canonical codes that no two symbols share.
pub open spec fn lzh_table_ok(d: LzhufHuffmanDecoder) -> bool {
    match d {
        LzhufHuffmanDecoder::HuffmanDecoder(h) => codes_in_range(h.lengths()) && forall|i: int|
            0 <= i < h.lengths().len() ==> #[trigger] h.lengths()[i] < 32,
        LzhufHuffmanDecoder::Default(_) => true,
    }
}

/// A table reads back what it writes, and nothing else.
pub proof fn lemma_lzh_decoded_round_trip(d: LzhufHuffmanDecoder, v: u16, rest: Seq<bool>, v2: u16, rest2: Seq<bool>)
    requires
        lzh_table_ok(d),
        lzh_codes(d, v),
    ensures
        lzh_decoded(d, lzh_code_bits(d, v) + rest, rest, v),
        lzh_decoded(d, lzh_code_bits(d, v) + rest, rest2, v2) ==> v2 == v && rest2 == rest,
{
    match d {
        LzhufHuffmanDecoder::HuffmanDecoder(h) => {
            lemma_code_then_rest(h.lengths(), v as int, rest);
            if decoded(h.lengths(), code_bits(h.lengths(), v as int) + rest, rest2, v2) {
                lemma_unique_decoding(h.lengths(), code_bits(h.lengths(), v as int) + rest, v as int, v2 as int);
            }
        },
        LzhufHuffmanDecoder::Default(_) => {
            assert(Seq::<bool>::empty() + rest =~= rest);
        },
    }
}

/// Round trip of an LZH copy code. The bits an LZH encoder writes for a
/// copy (the symbol `sym`, 256 and up, under the first table, the distance
/// symbol `p` under the second, and `v` in `lzh_extra_bits(p)` bits) are
/// read back by the decoder as a copy of `sym - 253` bytes from
/// `lzh_position(p, v)`, and as nothing else.
pub proof fn lemma_lzh_reference_round_trip(
    symd: LzhufHuffmanDecoder,
    offd: LzhufHuffmanDecoder,
    sym: u16,
    p: u16,
    v: u32,
    rest: Seq<bool>,
)
    requires
        lzh_table_ok(symd),
        lzh_table_ok(offd),
        lzh_codes(symd, sym),
        lzh_codes(offd, p),
        256 <= sym,
        lzh_extra_bits(p) < 32,
        v < pow2(lzh_extra_bits(p)),
    ensures
        ({
            let mid = lzh_code_bits(offd, p) + bits_msb(v, lzh_extra_bits(p)) + rest;
            let bits = lzh_code_bits(symd, sym) + mid;
            &&& lzh_ref_read(Some(symd), Some(offd), bits, rest, (sym - 253) as usize, lzh_position(p, v) as usize)
            &&& forall|len: usize, pos: usize|
                #[trigger] lzh_ref_read(Some(symd), Some(offd), bits, rest, len, pos) ==> len == sym - 253 && pos
                    == lzh_position(p, v)
        }),
{
    let e = lzh_extra_bits(p);
    let after = bits_msb(v, e) + rest;
    let mid = lzh_code_bits(offd, p) + bits_msb(v, e) + rest;
    assert(mid =~= lzh_code_bits(offd, p) + after);
    let bits = lzh_code_bits(symd, sym) + mid;
    lemma_lzh_decoded_round_trip(symd, sym, mid, sym, mid);
    lemma_lzh_decoded_round_trip(offd, p, after, p, after);
    vstd::arithmetic::power2::lemma_pow2_pos(e);
    if p > 1 {
        vstd::arithmetic::power2::lemma_pow2_strictly_increases((p - 1) as nat, 32);
    }
    vstd::arithmetic::power2::lemma2_to64();
    assert(lzh_decoded(Some(offd)->0, mid, bits_msb(v, e) + rest, p));
    assert(lzh_decoded(Some(symd)->0, bits, mid, sym));
    assert forall|len: usize, pos: usize|
        #[trigger] lzh_ref_read(Some(symd), Some(offd), bits, rest, len, pos) implies len == sym - 253 && pos
        == lzh_position(p, v) by {
        let (sym2, mid2, p2, v2) = choose|sym2: u16, mid2: Seq<bool>, p2: u16, v2: u32|
            #![trigger lzh_decoded(Some(symd)->0, bits, mid2, sym2), lzh_decoded(Some(offd)->0, mid2, bits_msb(v2, lzh_extra_bits(p2)) + rest, p2)]
            lzh_decoded(Some(symd)->0, bits, mid2, sym2) && 256 <= sym2 && len == sym2 - 253 && lzh_decoded(
                Some(offd)->0,
                mid2,
                bits_msb(v2, lzh_extra_bits(p2)) + rest,
                p2,
            ) && v2 < pow2(lzh_extra_bits(p2)) && pos == lzh_position(p2, v2);
        lemma_lzh_decoded_round_trip(symd, sym, mid, sym2, mid2);
        lemma_lzh_decoded_round_trip(offd, p, after, p2, bits_msb(v2, lzh_extra_bits(p2)) + rest);
        assert(bits_msb(v2, e) + rest == bits_msb(v, e) + rest);
        assert((bits_msb(v2, e) + rest).take(e as int) =~= bits_msb(v2, e));
        assert((bits_msb(v, e) + rest).take(e as int) =~= bits_msb(v, e));
        lemma_msb_eq(v2, v, e);
    }
}

/// A word with no bit set at or above `n` is below `2^n`.
proof fn lemma_fits_below(x: u32, n: nat)
    requires
        n <= 24,
        fits(x, n),
    ensures
        x < pow2(n),
{
    lemma_fits_bound(x, n);
    let y = x as u64;
    vstd::bits::lemma_u64_shr_is_div(y, n as u64);
    vstd::bits::lemma_u64_pow2_no_overflow(n);
    vstd::arithmetic::power2::lemma_pow2_pos(n);
    let d = pow2(n) as int;
    assert(y >> (n as u64) == 0);
    assert((y as int) / d == 0);
    vstd::arithmetic::div_mod::lemma_fundamental_div_mod(y as int, d);
    vstd::arithmetic::div_mod::lemma_mod_pos_bound(y as int, d);
    assert(y as int == d * ((y as int) / d) + (y as int) % d);
    assert(d * 0 == 0);
}

/// Setting a bit above all the bits of `v` adds its value.
proof fn lemma_or_top(k: u32, v: usize)
    by (bit_vector)
    requires
        k < 25,
        v < (1usize << k),
    ensures
        (1usize << k) | v == (1usize << k) + v,
{
}

/// A table of an LZH block: canonical codes, or the one symbol implied
/// without bits.
pub enum LzhufHuffmanDecoder {
    HuffmanDecoder(HuffmanDecoder<Left>),
    Default(u16),
}

impl LzhufHuffmanDecoder {
    pub open spec fn wf(&self) -> bool {
        match self {
            LzhufHuffmanDecoder::HuffmanDecoder(h) => h.wf(),
            LzhufHuffmanDecoder::Default(_) => true,
        }
    }

    /// The next symbol; `None` at the end of the input.
    pub fn dec(&self, reader: &mut LeftBitReader) -> (r: Result<Option<u16>, CompressionError>)
        requires
            self.wf(),
            old(reader).attached(),
        ensures
            final(reader).attached(),
            final(reader).stream().len() <= old(reader).stream().len(),
            self matches LzhufHuffmanDecoder::Default(s) ==> r == Ok::<Option<u16>, CompressionError>(Some(*s))
                && final(reader).stream() == old(reader).stream(),
            r matches Ok(Some(v)) ==> lzh_decoded(*self, old(reader).stream(), final(reader).stream(), v),
            r matches Ok(Some(_)) ==> is_tail(final(reader).stream(), old(reader).stream()),
    {
        let ghost s0 = reader.stream();
        match self {
            LzhufHuffmanDecoder::HuffmanDecoder(h) => match h.dec(reader) {
                Ok(v) => {
                    proof {
                        if let Some(x) = v {
                            lemma_decoded_tail(*self, s0, reader.stream(), x);
                        }
                    }
                    Ok(v)
                },
                Err(_) => Err(CompressionError::DataError),
            },
            LzhufHuffmanDecoder::Default(s) => {
                proof {
                    lemma_decoded_tail(*self, s0, reader.stream(), *s);
                }
                Ok(Some(*s))
            },
        }
    }
}

fn read_n(reader: &mut LeftBitReader, n: usize) -> (r: Result<u32, CompressionError>)
    requires
        old(reader).attached(),
        1 <= n <= 24,
    ensures
        final(reader).attached(),
        final(reader).stream().len() <= old(reader).stream().len(),
        r is Ok ==> final(reader).stream().len() + n == old(reader).stream().len(),
        r is Ok ==> bits_msb(r->Ok_0, n as nat) == old(reader).stream().take(n as int) && final(reader).stream()
            == old(reader).stream().skip(n as int) && r->Ok_0 < pow2(n as nat),
        r is Ok ==> is_tail(final(reader).stream(), old(reader).stream()),
{
    match read_bits(reader, n) {
        Ok(v) => {
            proof {
                lemma_fits_below(v, n as nat);
                lemma_tail_skip(old(reader).stream(), n as int);
            }
            Ok(v)
        },
        Err(()) => Err(CompressionError::UnexpectedEof),
    }
}

/// Code lengths from the table of a block, built into a decoder.
fn build(ll: &Vec<u8>, stab_bits: usize) -> (r: Result<LzhufHuffmanDecoder, CompressionError>)
    ensures
        r matches Ok(d) ==> d.wf(),
{
    if ll.len() > 0x10000 {
        return Err(CompressionError::DataError);
    }
    match HuffmanDecoder::<Left>::new(ll, stab_bits) {
        Ok(h) => Ok(LzhufHuffmanDecoder::HuffmanDecoder(h)),
        Err(_) => Err(CompressionError::DataError),
    }
}

/// The code side of the LZH decoder: reads the tables of each block and
/// turns its codes into LZSS codes.
pub struct LzhufDecoderInner {
    offset_len: usize,
    min_match: usize,
    block_len: usize,
    symbol_decoder: Option<LzhufHuffmanDecoder>,
    offset_decoder: Option<LzhufHuffmanDecoder>,
}

impl LzhufDecoderInner {
    pub closed spec fn wf(&self) -> bool {
        &&& 1 <= self.offset_len <= 16
        &&& self.min_match == 3
        &&& self.block_len > 0 ==> {
            &&& self.symbol_decoder matches Some(d) && d.wf()
            &&& self.offset_decoder matches Some(d) && d.wf()
        }
    }

    pub fn new(method: &LzhufCompression) -> (r: Self)
        ensures
            r.wf(),
    {
        Self { offset_len: method.offset_bits(), min_match: 3, block_len: 0, symbol_decoder: None, offset_decoder: None }
    }

    /// How many codes of the current block are still to be read.
    pub closed spec fn spec_block_left(&self) -> nat {
        self.block_len as nat
    }

    /// The table of the literals and lengths of the current block.
    pub closed spec fn spec_symbol_decoder(&self) -> Option<LzhufHuffmanDecoder> {
        self.symbol_decoder
    }

    /// The table of the distance bit counts of the current block.
    pub closed spec fn spec_offset_decoder(&self) -> Option<LzhufHuffmanDecoder> {
        self.offset_decoder
    }

    /// A code length: three bits, and past 7 one more for each `1` bit
    /// before a `0`.
    fn dec_len(reader: &mut LeftBitReader) -> (r: Result<u8, CompressionError>)
        requires
            old(reader).attached(),
        ensures
            final(reader).attached(),
            final(reader).stream().len() <= old(reader).stream().len(),
            r is Ok ==> is_tail(final(reader).stream(), old(reader).stream()),
    {
        let mut c = read_n(reader, 3)? as u8;
        if c == 7 {
            loop
                invariant
                    reader.attached(),
                    reader.stream().len() <= old(reader).stream().len(),
                    is_tail(reader.stream(), old(reader).stream()),
                decreases reader.stream().len(),
            {
                let ghost p0 = reader.stream();
                let b = read_n(reader, 1)?;
                proof {
                    lemma_tail_trans(reader.stream(), p0, old(reader).stream());
                }
                if b != 1 {
                    break;
                }
                if c == 255 {
                    return Err(CompressionError::DataError);
                }
                c = c + 1;
            }
        }
        Ok(c)
    }

    /// The table of the table: its length in `tbit_len` bits, then the
    /// lengths (after the third, two bits of zeros to skip).
    #[verifier::loop_isolation(false)]
    fn dec_len_tree(tbit_len: usize, reader: &mut LeftBitReader) -> (r: Result<LzhufHuffmanDecoder, CompressionError>)
        requires
            old(reader).attached(),
            1 <= tbit_len <= 16,
        ensures
            final(reader).attached(),
            final(reader).stream().len() <= old(reader).stream().len(),
            r matches Ok(d) ==> d.wf(),
            r is Ok ==> is_tail(final(reader).stream(), old(reader).stream()),
    {
        let len = read_n(reader, tbit_len)? as usize;
        if len == 0 {
            let ghost p0 = reader.stream();
            let s = read_n(reader, tbit_len)?;
            proof {
                lemma_tail_trans(reader.stream(), p0, old(reader).stream());
            }
            return Ok(LzhufHuffmanDecoder::Default(s as u16));
        }
        let mut ll: Vec<u8> = Vec::new();
        while ll.len() < len
            invariant
                reader.attached(),
                reader.stream().len() <= old(reader).stream().len(),
                ll@.len() <= len,
                is_tail(reader.stream(), old(reader).stream()),
            decreases len - ll@.len(),
        {
            if ll.len() == 3 {
                let ghost p0 = reader.stream();
                let n = read_n(reader, 2)?;
                proof {
                    lemma_tail_trans(reader.stream(), p0, old(reader).stream());
                }
                let mut k: u32 = 0;
                while k < n
                    invariant
                        ll@.len() == 3 + k,
                        k <= n,
                    decreases n - k,
                {
                    ll.push(0);
                    k = k + 1;
                }
                if ll.len() > len {
                    return Err(CompressionError::DataError);
                }
                if ll.len() == len {
                    break;
                }
            }
            let ghost p0 = reader.stream();
            let l = Self::dec_len(reader)?;
            proof {
                lemma_tail_trans(reader.stream(), p0, old(reader).stream());
            }
            ll.push(l);
        }
        build(&ll, 5)
    }

    /// The table of the literals and lengths: its length in nine bits,
    /// then lengths coded by `len_decoder`, with runs of zeros.
    #[verifier::loop_isolation(false)]
    fn dec_symb_tree(len_decoder: &LzhufHuffmanDecoder, reader: &mut LeftBitReader) -> (r: Result<LzhufHuffmanDecoder, CompressionError>)
        requires
            old(reader).attached(),
            len_decoder.wf(),
        ensures
            final(reader).attached(),
            final(reader).stream().len() <= old(reader).stream().len(),
            r matches Ok(d) ==> d.wf(),
            r is Ok ==> is_tail(final(reader).stream(), old(reader).stream()),
    {
        let len = read_n(reader, 9)? as usize;
        if len == 0 {
            let ghost p0 = reader.stream();
            let s = read_n(reader, 9)?;
            proof {
                lemma_tail_trans(reader.stream(), p0, old(reader).stream());
            }
            return Ok(LzhufHuffmanDecoder::Default(s as u16));
        }
        let mut ll: Vec<u8> = Vec::new();
        while ll.len() < len
            invariant
                reader.attached(),
                reader.stream().len() <= old(reader).stream().len(),
                len_decoder.wf(),
                is_tail(reader.stream(), old(reader).stream()),
            decreases if ll@.len() < len { len - ll@.len() } else { 0 },
        {
            let ghost p0 = reader.stream();
            let sym = len_decoder.dec(reader)?;
            proof {
                if sym is Some {
                    lemma_tail_trans(reader.stream(), p0, old(reader).stream());
                }
            }
            match sym {
                None => {
                    return Err(CompressionError::UnexpectedEof);
                },
                Some(0) => {
                    ll.push(0);
                },
                Some(1) => {
                    let ghost p0 = reader.stream();
                    let v = read_n(reader, 4)?;
                    proof {
                        lemma_tail_trans(reader.stream(), p0, old(reader).stream());
                    }

                    if v > 0xFFFF {
                        return Err(CompressionError::DataError);
                    }
                    let n = 3 + v;
                    let mut k: u32 = 0;
                    let ghost l0 = ll@.len();
                    while k < n
                        invariant
                            ll@.len() == l0 + k,
                            k <= n,
                        decreases n - k,
                    {
                        ll.push(0);
                        k = k + 1;
                    }
                },
                Some(2) => {
                    let ghost p0 = reader.stream();
                    let v = read_n(reader, 9)?;
                    proof {
                        lemma_tail_trans(reader.stream(), p0, old(reader).stream());
                    }

                    if v > 0xFFFF {
                        return Err(CompressionError::DataError);
                    }
                    let n = 20 + v;
                    let mut k: u32 = 0;
                    let ghost l0 = ll@.len();
                    while k < n
                        invariant
                            ll@.len() == l0 + k,
                            k <= n,
                        decreases n - k,
                    {
                        ll.push(0);
                        k = k + 1;
                    }
                },
                Some(n) => {
                    ll.push((n - 2) as u8);
                },
            }
        }
        build(&ll, 12)
    }

    /// The table of the distance bit counts: its length in `pbit_len`
    /// bits, then the lengths.
    fn dec_offs_tree(pbit_len: usize, reader: &mut LeftBitReader) -> (r: Result<LzhufHuffmanDecoder, CompressionError>)
        requires
            old(reader).attached(),
            1 <= pbit_len <= 16,
        ensures
            final(reader).attached(),
            final(reader).stream().len() <= old(reader).stream().len(),
            r matches Ok(d) ==> d.wf(),
            r is Ok ==> is_tail(final(reader).stream(), old(reader).stream()),
    {
        let len = read_n(reader, pbit_len)? as usize;
        if len == 0 {
            let ghost p0 = reader.stream();
            let s = read_n(reader, pbit_len)?;
            proof {
                lemma_tail_trans(reader.stream(), p0, old(reader).stream());
            }
            return Ok(LzhufHuffmanDecoder::Default(s as u16));
        }
        let mut ll: Vec<u8> = Vec::new();
        while ll.len() < len
            invariant
                reader.attached(),
                reader.stream().len() <= old(reader).stream().len(),
                is_tail(reader.stream(), old(reader).stream()),
            decreases len - ll@.len(),
        {
            let ghost p0 = reader.stream();
            let l = Self::dec_len(reader)?;
            proof {
                lemma_tail_trans(reader.stream(), p0, old(reader).stream());
            }

            ll.push(l);
        }
        build(&ll, 12)
    }

    /// Reads the head of a block: its code count (none, or a short read,
    /// ends the stream) and its three tables.
    fn init_block(&mut self, reader: &mut LeftBitReader) -> (r: Result<bool, CompressionError>)
        requires
            old(self).wf(),
            old(reader).attached(),
        ensures
            final(self).wf(),
            final(reader).attached(),
            final(reader).stream().len() <= old(reader).stream().len(),
            r == Ok::<bool, CompressionError>(true) ==> final(self).block_len > 0,
            r == Ok::<bool, CompressionError>(true) ==> is_tail(final(reader).stream(), old(reader).stream()),
    {
        let s = match read_bits(reader, 16) {
            Ok(s) => s,
            Err(()) => return Ok(false),
        };
        if s == 0 {
            return Ok(false);
        }
        let ghost p1 = reader.stream();
        let lt = Self::dec_len_tree(5, reader)?;
        let ghost p2 = reader.stream();
        let sd = Self::dec_symb_tree(&lt, reader)?;
        let ghost p3 = reader.stream();
        let od = Self::dec_offs_tree(self.offset_len, reader)?;
        proof {
            lemma_tail_skip(old(reader).stream(), 16);
            lemma_tail_trans(p2, p1, old(reader).stream());
            lemma_tail_trans(p3, p2, old(reader).stream());
            lemma_tail_trans(reader.stream(), p3, old(reader).stream());
        }
        self.symbol_decoder = Some(sd);
        self.offset_decoder = Some(od);
        self.block_len = s as usize;
        Ok(true)
    }

    /// The next LZSS code of the stream; `None` at its end.
    pub fn next(&mut self, reader: &mut LeftBitReader) -> (r: Result<Option<LzssCode>, CompressionError>)
        requires
            old(self).wf(),
            old(reader).attached(),
        ensures
            final(self).wf(),
            final(reader).attached(),
            final(reader).stream().len() <= old(reader).stream().len(),
            old(self).spec_block_left() > 0 ==> final(self).spec_symbol_decoder() == old(self).spec_symbol_decoder()
                && final(self).spec_offset_decoder() == old(self).spec_offset_decoder(),
            old(self).spec_block_left() > 0 ==> (r matches Ok(Some(LzssCode::Reference { len, pos })) ==> lzh_ref_read(
                old(self).spec_symbol_decoder(),
                old(self).spec_offset_decoder(),
                old(reader).stream(),
                final(reader).stream(),
                len,
                pos,
            )),
            r matches Ok(Some(LzssCode::Reference { len, pos })) ==> exists|s: Seq<bool>|
                #[trigger] is_tail(s, old(reader).stream()) && lzh_ref_read(
                    final(self).spec_symbol_decoder(),
                    final(self).spec_offset_decoder(),
                    s,
                    final(reader).stream(),
                    len,
                    pos,
                ),
            r matches Ok(Some(LzssCode::Symbol(b))) ==> final(self).spec_symbol_decoder() is Some && exists|s: Seq<bool>|
                #[trigger] is_tail(s, old(reader).stream()) && lzh_decoded(
                    final(self).spec_symbol_decoder()->0,
                    s,
                    final(reader).stream(),
                    b as u16,
                ),
    {
        if self.block_len == 0 {
            if !self.init_block(reader)? {
                return Ok(None);
            }
        }
        self.block_len = self.block_len - 1;
        let ghost s0 = reader.stream();
        proof {
            if old(self).block_len > 0 {
                lemma_tail_skip(s0, 0);
                assert(s0.skip(0) =~= s0);
            }
        }
        let sym = match &self.symbol_decoder {
            Some(d) => match d.dec(reader)? {
                Some(v) => v as usize,
                None => return Err(CompressionError::UnexpectedEof),
            },
            None => return Err(CompressionError::Unexpected),
        };
        if sym <= 255 {
            proof {
                assert((sym as u8) as u16 == sym as u16);
                assert(is_tail(s0, old(reader).stream()));
            }
            return Ok(Some(LzssCode::Symbol(sym as u8)));
        }
        let len = sym - 256 + self.min_match;
        let ghost mid = reader.stream();
        let mut pos = match &self.offset_decoder {
            Some(d) => match d.dec(reader)? {
                Some(v) => v as usize,
                None => return Err(CompressionError::UnexpectedEof),
            },
            None => return Err(CompressionError::Unexpected),
        };
        let ghost p = pos as u16;
        let ghost after = reader.stream();
        let ghost mut vv: u32 = 0;
        if pos > 1 {
            if pos - 1 > 24 {
                return Err(CompressionError::DataError);
            }
            let ghost q = pos;
            let v = read_n(reader, pos - 1)? as usize;
            pos = (1usize << ((pos - 1) as u32)) | v;
            proof {
                vv = v as u32;
                vstd::arithmetic::power2::lemma2_to64();
                vstd::arithmetic::power2::lemma_pow2_strictly_increases((q - 1) as nat, 25);
                vstd::bits::lemma_usize_shl_is_mul(1, (q - 1) as usize);
                lemma_or_top((q - 1) as u32, v);
            }
        }
        proof {
            vstd::arithmetic::power2::lemma2_to64();
            let e = lzh_extra_bits(p);
            assert(after =~= after.take(e as int) + after.skip(e as int));
            assert(after =~= bits_msb(vv, e) + reader.stream());
            assert(lzh_decoded(self.symbol_decoder->0, s0, mid, sym as u16));
            assert(lzh_decoded(self.offset_decoder->0, mid, bits_msb(vv, e) + reader.stream(), p));
            assert(vv < pow2(e));
            assert(pos == lzh_position(p, vv));
            assert(is_tail(s0, old(reader).stream()));
        }
        Ok(Some(LzssCode::Reference { len, pos }))
    }
}

/// The LZH decoder (methods lh4 to lh7), byte by byte.
pub struct LzhufDecoder {
    lzss_decoder: LzssDecoder,
    inner: LzhufDecoderInner,
}

impl LzhufDecoder {
    pub closed spec fn wf(&self) -> bool {
        &&& self.inner.wf()
        &&& self.lzss_decoder.wf()
        &&& self.lzss_decoder.spec_cap() == 0x1_0000
    }

    /// How many codes of the current block are still to be read.
    pub closed spec fn spec_block_left(&self) -> nat {
        self.inner.spec_block_left()
    }

    /// The table of the literals and lengths of the current block.
    pub closed spec fn spec_symbol_decoder(&self) -> Option<LzhufHuffmanDecoder> {
        self.inner.spec_symbol_decoder()
    }

    /// The table of the distance bit counts of the current block.
    pub closed spec fn spec_offset_decoder(&self) -> Option<LzhufHuffmanDecoder> {
        self.inner.spec_offset_decoder()
    }

    /// The output so far, the newest byte first, as far as the window
    /// reaches.
    pub closed spec fn spec_history(&self) -> Seq<u8> {
        self.lzss_decoder.spec_history()
    }

    /// How many bytes of the last code are still to be handed out.
    pub closed spec fn spec_owed(&self) -> nat {
        self.lzss_decoder.spec_offset()
    }

    pub fn new(method: &LzhufCompression) -> (r: Self)
        ensures
            r.wf(),
            r.spec_history().len() == 0,
            r.spec_owed() == 0,
    {
        Self { lzss_decoder: LzssDecoder::new(0x1_0000), inner: LzhufDecoderInner::new(method) }
    }

    /// The next byte of the decoded data; `None` at the end.
    pub fn next(&mut self, reader: &mut LeftBitReader) -> (r: Option<Result<u8, CompressionError>>)
        requires
            old(self).wf(),
            old(reader).attached(),
        ensures
            final(self).wf(),
            final(reader).attached(),
            old(self).spec_owed() > 0 ==> {
                &&& r == Some(Ok::<u8, CompressionError>(old(self).spec_history()[old(self).spec_owed() - 1]))
                &&& final(self).spec_owed() == old(self).spec_owed() - 1
                &&& final(self).spec_history() == old(self).spec_history()
            },
            r is None ==> old(self).spec_owed() == 0,
            old(self).spec_owed() == 0 && old(self).spec_block_left() > 0 ==> (r matches Some(Ok(b)) ==> exists|
                code: LzssCode,
            |
                #[trigger] apply_code(old(self).spec_history(), code, 0x1_0000) == Some(final(self).spec_history())
                    && final(self).spec_owed() == code_len(code) - 1 && b == final(self).spec_history()[code_len(code)
                    - 1] && (code matches LzssCode::Reference { len, pos } ==> lzh_ref_read(
                    old(self).spec_symbol_decoder(),
                    old(self).spec_offset_decoder(),
                    old(reader).stream(),
                    final(reader).stream(),
                    len,
                    pos,
                ))),
            old(self).spec_owed() == 0 ==> (r matches Some(Ok(b)) ==> exists|code: LzssCode|
                #[trigger] apply_code(old(self).spec_history(), code, 0x1_0000) == Some(final(self).spec_history())
                    && final(self).spec_owed() == code_len(code) - 1 && b == final(self).spec_history()[code_len(code)
                    - 1] && (code matches LzssCode::Reference { len, pos } ==> exists|s: Seq<bool>|
                    #[trigger] is_tail(s, old(reader).stream()) && lzh_ref_read(
                        final(self).spec_symbol_decoder(),
                        final(self).spec_offset_decoder(),
                        s,
                        final(reader).stream(),
                        len,
                        pos,
                    )) && (code matches LzssCode::Symbol(c) ==> final(self).spec_symbol_decoder() is Some && exists|
                    s: Seq<bool>,
                |
                    #[trigger] is_tail(s, old(reader).stream()) && lzh_decoded(
                        final(self).spec_symbol_decoder()->0,
                        s,
                        final(reader).stream(),
                        c as u16,
                    ))),
    {
        if self.lzss_decoder.owed() > 0 {
            return Some(Ok(self.lzss_decoder.take_pending()));
        }
        match self.inner.next(reader) {
            Err(e) => Some(Err(e)),
            Ok(None) => None,
            Ok(Some(code)) => match self.lzss_decoder.feed(code) {
                Err(e) => Some(Err(e)),
                Ok(()) => {
                    if self.lzss_decoder.owed() == 0 {
                        return Some(Err(CompressionError::DataError));
                    }
                    let b = self.lzss_decoder.take_pending();
                    proof {
                        assert(apply_code(old(self).spec_history(), code, 0x1_0000) == Some(self.spec_history()));
                    }
                    Some(Ok(b))
                },
            },
        }
    }
}

} // verus!
