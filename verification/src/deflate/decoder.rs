use vstd::prelude::*;
use vstd::arithmetic::power2::pow2;
use crate::bit_reader::{lemma_fill_result, right_fill, BitReader, RightBitReader};
use crate::bit_vector::{bits_lsb, fits, lemma_fits_bound};
use crate::deflate::{
    fix_offset_table, fix_symbol_table, gen_len_tab, gen_off_tab, len_ext_bits, len_offset, off_ext_bits,
    off_offset, CodeTable,
};
use crate::error::CompressionError;
use crate::huffman::decoder::{
    codes_in_range, decoded, lemma_code_then_rest, lemma_lsb_eq, lemma_unique_decoding, lemma_word_below, max_len,
    starts_with_code, HuffmanDecoder, Right,
};
use crate::huffman_encoder::{code_bits, has_code};
use crate::lzss::LzssCode;
use crate::cbuffer::push_all;
use crate::lzss::decoder::{apply_code, code_len, LzssDecoder};

verus! {

/// Reads `n` bits, the first one least significant; fails when fewer are
/// left.
pub(crate) fn read_bits(reader: &mut RightBitReader, n: usize) -> (r: Result<u32, ()>)
    requires
        old(reader).attached(),
        1 <= n <= 16,
    ensures
        final(reader).attached(),
        final(reader).stream().len() <= old(reader).stream().len(),
        r is Ok <==> n <= old(reader).stream().len(),
        r is Ok ==> {
            &&& bits_lsb(r->Ok_0, n as nat) == old(reader).stream().take(n as int)
            &&& r->Ok_0 < pow2(n as nat)
            &&& final(reader).stream() == old(reader).stream().skip(n as int)
            &&& is_tail(final(reader).stream(), old(reader).stream())
        },
{
    proof {
        lemma_fill_result(reader.pending().len(), reader.source().len(), n as nat);
        if n <= reader.stream().len() {
            lemma_tail_skip(reader.stream(), n as int);
        }
    }
    match reader.read(n) {
        Ok(bv) => {
            if bv.len() == n {
                let v = bv.data();
                proof {
                    lemma_fits_bound(v, n as nat);
                    lemma_word_below(v as u64, n as u64);
                }
                Ok(v)
            } else {
                Err(())
            }
        },
        Err(_) => Err(()),
    }
}

/// The decoder of one kind of symbol within a block: a Huffman code that
/// ends at the end-of-block symbol 256 (with whether it has been met), or
/// the count of stored bytes still to come.
pub enum DeflateHuffmanDecoder {
    HuffmanDecoder(HuffmanDecoder<Right>, bool),
    NoComp(u32),
}

impl DeflateHuffmanDecoder {
    pub open spec fn wf(&self) -> bool {
        match *self {
            DeflateHuffmanDecoder::HuffmanDecoder(ref d, _) => d.wf(),
            DeflateHuffmanDecoder::NoComp(_) => true,
        }
    }

    /// The block has been read to its end.
    pub open spec fn spec_end(&self) -> bool {
        match *self {
            DeflateHuffmanDecoder::HuffmanDecoder(_, end) => end,
            DeflateHuffmanDecoder::NoComp(n) => n == 0,
        }
    }

    /// Reads the next symbol; `None` at the end of the block, which a
    /// Huffman code marks with the symbol 256.
    pub fn dec(&mut self, reader: &mut RightBitReader) -> (r: Result<Option<u16>, CompressionError>)
        requires
            old(self).wf(),
            old(reader).attached(),
        ensures
            final(self).wf(),
            final(reader).attached(),
            final(reader).stream().len() <= old(reader).stream().len(),
            r is Ok ==> is_tail(final(reader).stream(), old(reader).stream()),
            old(self).spec_end() ==> r == Ok::<Option<u16>, CompressionError>(None) && *final(self) == *old(self)
                && final(reader).stream() == old(reader).stream(),
            r is Err ==> r == Err::<Option<u16>, CompressionError>(CompressionError::DataError) || r == Err::<
                Option<u16>,
                CompressionError,
            >(CompressionError::UnexpectedEof),
            match *old(self) {
                DeflateHuffmanDecoder::HuffmanDecoder(d, end) => !end ==> {
                    &&& r matches Ok(Some(v)) ==> v != 256 && decoded(
                        d.lengths(),
                        old(reader).stream(),
                        final(reader).stream(),
                        v,
                    ) && *final(self) == *old(self)
                    &&& r == Ok::<Option<u16>, CompressionError>(None) ==> decoded(
                        d.lengths(),
                        old(reader).stream(),
                        final(reader).stream(),
                        256,
                    ) && *final(self) == DeflateHuffmanDecoder::HuffmanDecoder(d, true)
                    &&& r is Err ==> *final(self) == *old(self)
                    &&& d.table_bits() > 0 && !right_fill(
                        old(reader).pending().len(),
                        old(reader).source().len(),
                        d.table_bits(),
                    ).1 ==> forall|v: int| #[trigger]
                        starts_with_code(d.lengths(), old(reader).stream(), v) ==> (if v == 256 {
                            r == Ok::<Option<u16>, CompressionError>(None)
                        } else {
                            r == Ok::<Option<u16>, CompressionError>(Some(v as u16))
                        })
                },
                DeflateHuffmanDecoder::NoComp(n) => n > 0 ==> {
                    &&& r is Ok <==> 8 <= old(reader).stream().len()
                    &&& r is Err ==> r == Err::<Option<u16>, CompressionError>(CompressionError::UnexpectedEof)
                    &&& r is Ok ==> {
                        &&& r matches Ok(Some(v)) && v < 256 && bits_lsb(v as u32, 8) == old(reader).stream().take(8)
                        &&& final(reader).stream() == old(reader).stream().skip(8)
                        &&& *final(self) == DeflateHuffmanDecoder::NoComp((n - 1) as u32)
                    }
                },
            },
    {
        let ghost s0 = reader.stream();
        proof {
            lemma_tail_skip(s0, 0);
            assert(s0.skip(0) =~= s0);
        }
        match self {
            DeflateHuffmanDecoder::HuffmanDecoder(rhd, end) => {
                if *end {
                    Ok(None)
                } else {
                    proof {
                        rhd.lemma_lengths_len();
                    }
                    let res = rhd.dec(reader);
                    proof {
                        if let Ok(Some(v)) = res {
                            lemma_tail_skip(s0, rhd.lengths()[v as int] as int);
                        }
                    }
                    match res {
                        Err(_) => Err(CompressionError::DataError),
                        Ok(None) => Err(CompressionError::UnexpectedEof),
                        Ok(Some(256)) => {
                            *end = true;
                            Ok(None)
                        },
                        Ok(Some(x)) => Ok(Some(x)),
                    }
                }
            },
            DeflateHuffmanDecoder::NoComp(block_size) => {
                if *block_size > 0 {
                    *block_size = *block_size - 1;
                    match read_bits(reader, 8) {
                        Ok(v) => {
                            proof {
                                vstd::arithmetic::power2::lemma2_to64();
                            }
                            Ok(Some(v as u16))
                        },
                        Err(_) => Err(CompressionError::UnexpectedEof),
                    }
                } else {
                    Ok(None)
                }
            },
        }
    }

    pub fn end(&self) -> (r: bool)
        ensures
            r == self.spec_end(),
    {
        match *self {
            DeflateHuffmanDecoder::HuffmanDecoder(_, end) => end,
            DeflateHuffmanDecoder::NoComp(block_size) => block_size == 0,
        }
    }
}


/// The order in which the lengths of the code-length code are stored.
pub open spec fn clen_order() -> Seq<int> {
    seq![16, 17, 18, 0, 8, 7, 9, 6, 10, 5, 11, 4, 12, 3, 13, 2, 14, 1, 15]
}

/// Where the length of each code-length symbol stands in that order.
pub open spec fn clen_pos(i: int) -> int {
    seq![3int, 17, 15, 13, 11, 9, 7, 5, 4, 6, 8, 10, 12, 14, 16, 18, 0, 1, 2][i]
}

proof fn lemma_clen_order()
    ensures
        forall|k: int| 0 <= k < 19 ==> 0 <= #[trigger] clen_order()[k] < 19 && clen_pos(clen_order()[k]) == k,
        forall|i: int| 0 <= i < 19 ==> 0 <= #[trigger] clen_pos(i) < 19,
{
    assert forall|k: int| 0 <= k < 19 implies 0 <= #[trigger] clen_order()[k] < 19 && clen_pos(clen_order()[k]) == k by {
        assert(k == 0 || k == 1 || k == 2 || k == 3 || k == 4 || k == 5 || k == 6 || k == 7 || k == 8 || k == 9 || k == 10 || k == 11 || k == 12 || k == 13 || k == 14 || k == 15 || k == 16 || k == 17 || k == 18);
    }
    assert forall|i: int| 0 <= i < 19 implies 0 <= #[trigger] clen_pos(i) < 19 by {
        assert(i == 0 || i == 1 || i == 2 || i == 3 || i == 4 || i == 5 || i == 6 || i == 7 || i == 8 || i == 9 || i == 10 || i == 11 || i == 12 || i == 13 || i == 14 || i == 15 || i == 16 || i == 17 || i == 18);
    }
}

/// The code lengths of the code-length code as a block header gives them:
/// `hclen` values of three bits from the start of `s`, in the order above;
/// the symbols left out have no code.
pub open spec fn clen_lengths_ok(lens: Seq<u8>, s: Seq<bool>, hclen: int) -> bool {
    &&& lens.len() == 19
    &&& forall|i: int|
        0 <= i < 19 ==> (if clen_pos(i) < hclen {
            bits_lsb(#[trigger] lens[i] as u32, 3) == s.subrange(3 * clen_pos(i), 3 * clen_pos(i) + 3)
        } else {
            lens[i] == 0
        })
}

/// Reads the lengths of the code-length code of a dynamic block and builds
/// its decoder.
fn dec_len_tree(hclen: u32, reader: &mut RightBitReader) -> (r: Result<DeflateHuffmanDecoder, CompressionError>)
    requires
        old(reader).attached(),
        4 <= hclen <= 19,
    ensures
        final(reader).attached(),
        final(reader).stream().len() <= old(reader).stream().len(),
        r is Err ==> r == Err::<DeflateHuffmanDecoder, CompressionError>(CompressionError::UnexpectedEof) || r
            == Err::<DeflateHuffmanDecoder, CompressionError>(CompressionError::DataError),
        3 * hclen > old(reader).stream().len() ==> r == Err::<DeflateHuffmanDecoder, CompressionError>(
            CompressionError::UnexpectedEof,
        ),
        r matches Ok(DeflateHuffmanDecoder::HuffmanDecoder(d, end)) ==> !end && d.wf() && clen_lengths_ok(
            d.lengths(),
            old(reader).stream(),
            hclen as int,
        ) && final(reader).stream() == old(reader).stream().skip(3 * hclen),
        r is Ok ==> r->Ok_0 is HuffmanDecoder,
        r is Ok ==> is_tail(final(reader).stream(), old(reader).stream()),
{
    let len_index: [usize; 19] = [16, 17, 18, 0, 8, 7, 9, 6, 10, 5, 11, 4, 12, 3, 13, 2, 14, 1, 15];
    proof {
        lemma_clen_order();
        assert(len_index@ =~= clen_order().map(|i: int, v: int| v as usize));
    }
    let ghost s = reader.stream();
    let mut len_list: Vec<u8> = vec![0u8; 19];
    let mut k: usize = 0;
    while k < hclen as usize
        invariant
            k <= hclen <= 19,
            reader.attached(),
            len_list@.len() == 19,
            len_index@ == clen_order().map(|i: int, v: int| v as usize),
            forall|kk: int| 0 <= kk < 19 ==> 0 <= #[trigger] clen_order()[kk] < 19 && clen_pos(clen_order()[kk]) == kk,
            forall|i: int| 0 <= i < 19 ==> 0 <= #[trigger] clen_pos(i) < 19,
            3 * k <= s.len(),
            s == old(reader).stream(),
            reader.stream() == s.skip(3 * k),
            forall|i: int|
                0 <= i < 19 ==> (if clen_pos(i) < k {
                    bits_lsb(#[trigger] len_list@[i] as u32, 3) == s.subrange(3 * clen_pos(i), 3 * clen_pos(i) + 3)
                } else {
                    len_list@[i] == 0
                }),
        decreases hclen - k,
    {
        let ghost before = reader.stream();
        let v = match read_bits(reader, 3) {
            Ok(v) => v,
            Err(_) => {
                return Err(CompressionError::UnexpectedEof);
            },
        };
        proof {
            vstd::arithmetic::power2::lemma2_to64();
            assert(s.skip(3 * k).take(3) =~= s.subrange(3 * k, 3 * k + 3));
            assert(s.skip(3 * k).skip(3) =~= s.skip(3 * k + 3));
        }
        let idx = len_index[k];
        len_list.set(idx, v as u8);
        k = k + 1;
    }
    let d = match HuffmanDecoder::new(len_list.as_slice(), 12) {
        Ok(d) => d,
        Err(_) => {
            return Err(CompressionError::DataError);
        },
    };
    proof {
        lemma_tail_skip(s, 3 * k);
    }
    Ok(DeflateHuffmanDecoder::HuffmanDecoder(d, false))
}


/// Pushes `count` copies of `value`.
fn push_copies(ll: &mut Vec<u8>, value: u8, count: usize)
    ensures
        final(ll)@ == old(ll)@ + Seq::new(count as nat, |i: int| value),
{
    let mut e: usize = 0;
    while e < count
        invariant
            e <= count,
            ll@ == old(ll)@ + Seq::new(e as nat, |i: int| value),
        decreases count - e,
    {
        ll.push(value);
        e = e + 1;
        assert(ll@ =~= old(ll)@ + Seq::new(e as nat, |i: int| value));
    }
}

/// Reads, with the code-length code, `len` code lengths (the last run may
/// carry past `len`): the symbols below 16 are lengths, 16 repeats the
/// last length 3 to 6 times, 17 and 18 give runs of 3 to 10 and 11 to 138
/// zeros. Builds the decoder of the lengths read.
fn dec_huff_tree(len_decoder: &mut DeflateHuffmanDecoder, len: usize, reader: &mut RightBitReader) -> (r: Result<
    DeflateHuffmanDecoder,
    CompressionError,
>)
    requires
        old(reader).attached(),
        old(len_decoder).wf(),
        *old(len_decoder) matches DeflateHuffmanDecoder::HuffmanDecoder(d, end) && !end && d.lengths().len() == 19,
        len <= 0x8000,
    ensures
        final(reader).attached(),
        final(reader).stream().len() <= old(reader).stream().len(),
        *final(len_decoder) == *old(len_decoder),
        r is Err ==> r == Err::<DeflateHuffmanDecoder, CompressionError>(CompressionError::UnexpectedEof) || r
            == Err::<DeflateHuffmanDecoder, CompressionError>(CompressionError::DataError),
        r matches Ok(DeflateHuffmanDecoder::HuffmanDecoder(d, end)) ==> {
            &&& !end
            &&& d.wf()
            &&& len <= d.lengths().len() < len + 138
            &&& forall|i: int| 0 <= i < d.lengths().len() ==> #[trigger] d.lengths()[i] <= 15
        },
        r is Ok ==> r->Ok_0 is HuffmanDecoder,
        r is Ok ==> is_tail(final(reader).stream(), old(reader).stream()),
{
    let mut ll: Vec<u8> = Vec::new();
    proof {
        lemma_tail_skip(reader.stream(), 0);
        assert(reader.stream().skip(0) =~= reader.stream());
    }
    while ll.len() < len
        invariant
            is_tail(reader.stream(), old(reader).stream()),
            reader.attached(),
            reader.stream().len() <= old(reader).stream().len(),
            len_decoder.wf(),
            *len_decoder == *old(len_decoder),
            *len_decoder matches DeflateHuffmanDecoder::HuffmanDecoder(d, end) && !end && d.lengths().len() == 19,
            len <= 0x8000,
            ll@.len() < len + 138,
            forall|i: int| 0 <= i < ll@.len() ==> #[trigger] ll@[i] <= 15,
        decreases len + 138 - ll@.len(),
    {
        let ghost b0 = reader.stream();
        let sym = match len_decoder.dec(reader) {
            Ok(Some(v)) => v,
            Ok(None) => {
                return Err(CompressionError::UnexpectedEof);
            },
            Err(e) => {
                return Err(e);
            },
        };
        proof {
            assert(sym < 19);
            lemma_tail_trans(reader.stream(), b0, old(reader).stream());
        }
        let ghost b1 = reader.stream();
        let ghost before = ll@;
        if sym == 16 {
            if ll.len() == 0 {
                return Err(CompressionError::UnexpectedEof);
            }
            let last = ll[ll.len() - 1];
            let n = match read_bits(reader, 2) {
                Ok(v) => v,
                Err(_) => {
                    return Err(CompressionError::UnexpectedEof);
                },
            };
            proof {
                vstd::arithmetic::power2::lemma2_to64();
            }
            push_copies(&mut ll, last, n as usize + 3);
        } else if sym == 17 {
            let n = match read_bits(reader, 3) {
                Ok(v) => v,
                Err(_) => {
                    return Err(CompressionError::UnexpectedEof);
                },
            };
            proof {
                vstd::arithmetic::power2::lemma2_to64();
            }
            push_copies(&mut ll, 0, n as usize + 3);
        } else if sym == 18 {
            let n = match read_bits(reader, 7) {
                Ok(v) => v,
                Err(_) => {
                    return Err(CompressionError::UnexpectedEof);
                },
            };
            proof {
                vstd::arithmetic::power2::lemma2_to64();
            }
            push_copies(&mut ll, 0, n as usize + 11);
        } else {
            ll.push(sym as u8);
        }
        proof {
            assert forall|i: int| 0 <= i < ll@.len() implies #[trigger] ll@[i] <= 15 by {
                if i < before.len() {
                    assert(ll@[i] == before[i]);
                }
            }
            if reader.stream() != b1 {
                lemma_tail_trans(reader.stream(), b1, old(reader).stream());
            }
        }
    }
    let d = match HuffmanDecoder::new(ll.as_slice(), 12) {
        Ok(d) => d,
        Err(_) => {
            return Err(CompressionError::DataError);
        },
    };
    Ok(DeflateHuffmanDecoder::HuffmanDecoder(d, false))
}


/// The decoding side of DEFLATE, one LZSS code at a time: reads block
/// headers and Huffman tables, and turns the symbols of each block into
/// literal bytes and back references.
struct DeflaterInner {
    symbol_decoder: Option<DeflateHuffmanDecoder>,
    offset_decoder: Option<DeflateHuffmanDecoder>,
    is_final: bool,
    len_tab: CodeTable,
    offset_tab: CodeTable,
}

/// The symbol decoder has a block still to read.
pub open spec fn in_block(d: Option<DeflateHuffmanDecoder>) -> bool {
    d matches Some(x) && !x.spec_end()
}

impl DeflaterInner {
    spec fn wf(&self) -> bool {
        &&& self.len_tab.wf()
        &&& self.len_tab.offsets().len() == 30
        &&& forall|j: int| 0 <= j < 30 ==> #[trigger] self.len_tab.offsets()[j] == len_offset(j)
        &&& forall|j: int| 0 <= j < 29 ==> #[trigger] self.len_tab.ext()[j] == len_ext_bits(j)
        &&& self.offset_tab.wf()
        &&& self.offset_tab.offsets().len() == 31
        &&& forall|j: int| 0 <= j < 31 ==> #[trigger] self.offset_tab.offsets()[j] == off_offset(j)
        &&& forall|j: int| 0 <= j < 30 ==> #[trigger] self.offset_tab.ext()[j] == off_ext_bits(j)
        &&& self.symbol_decoder matches Some(d) ==> d.wf()
        &&& self.offset_decoder matches Some(d) ==> d.wf()
    }

    fn new() -> (r: Self)
        ensures
            r.wf(),
            r.symbol_decoder is None,
            r.offset_decoder is None,
            !r.is_final,
    {
        Self {
            symbol_decoder: None,
            offset_decoder: None,
            is_final: false,
            len_tab: gen_len_tab(),
            offset_tab: gen_off_tab(),
        }
    }

    /// Reads the header of the next block and sets up its decoders: a
    /// stored block, one with the fixed codes, or one with codes of its
    /// own. The first bit tells whether it is the last block.
    fn init_block(&mut self, reader: &mut RightBitReader) -> (r: Result<(), CompressionError>)
        requires
            old(self).wf(),
            old(reader).attached(),
        ensures
            final(self).wf(),
            final(reader).attached(),
            final(reader).stream().len() <= old(reader).stream().len(),
            r is Err ==> r == Err::<(), CompressionError>(CompressionError::UnexpectedEof) || r == Err::<
                (),
                CompressionError,
            >(CompressionError::DataError),
            old(reader).stream().len() < 3 ==> r == Err::<(), CompressionError>(CompressionError::UnexpectedEof),
            r is Ok ==> {
                let s = old(reader).stream();
                &&& final(reader).stream().len() < old(reader).stream().len()
                &&& final(self).is_final == s[0]
                &&& final(self).symbol_decoder is Some
                &&& !s[1] && !s[2] ==> (final(self).symbol_decoder matches Some(DeflateHuffmanDecoder::NoComp(_)))
                    && final(self).offset_decoder is None
                &&& s[1] && !s[2] ==> fresh_huffman(final(self).symbol_decoder) && huffman_lengths(
                    final(self).symbol_decoder,
                ) == fix_symbol_lengths() && fresh_huffman(final(self).offset_decoder) && huffman_lengths(
                    final(self).offset_decoder,
                ) == Seq::new(32, |i: int| 5u8)
                &&& s[2] ==> !s[1] && fresh_huffman(final(self).symbol_decoder) && fresh_huffman(
                    final(self).offset_decoder,
                )
            },
            old(reader).stream().len() >= 3 && old(reader).stream()[1] && old(reader).stream()[2] ==> r == Err::<
                (),
                CompressionError,
            >(CompressionError::DataError),
            old(reader).stream().len() >= 3 && old(reader).stream()[1] && !old(reader).stream()[2] ==> r is Ok,
            r is Ok ==> is_tail(final(reader).stream(), old(reader).stream()),
    {
        let ghost s = reader.stream();
        proof {
            lemma_tail_skip(s, 0);
            assert(s.skip(0) =~= s);
        }
        let ghost prev = reader.stream();
        let is_final = match read_bits(reader, 1) {
            Ok(v) => v,
            Err(_) => {
                return Err(CompressionError::UnexpectedEof);
            },
        };
        proof {
            if reader.stream() != prev {
                lemma_tail_trans(reader.stream(), prev, s);
            }
        }
        let ghost prev = reader.stream();
        let btype = match read_bits(reader, 2) {
            Ok(v) => v,
            Err(_) => {
                return Err(CompressionError::UnexpectedEof);
            },
        };
        proof {
            if reader.stream() != prev {
                lemma_tail_trans(reader.stream(), prev, s);
            }
        }
        proof {
            vstd::arithmetic::power2::lemma2_to64();
            lemma_first_bits(s, is_final, btype);
        }
        self.is_final = is_final == 1;
        if btype == 0 {
            let ghost prev = reader.stream();
            let sk = reader.skip_to_byte();
            proof {
                if let Ok(k) = sk {
                    lemma_tail_skip(prev, k as int);
                }
                if reader.stream() != prev {
                    lemma_tail_trans(reader.stream(), prev, s);
                }
            }
            let ghost prev = reader.stream();
            let block_len = match read_bits(reader, 16) {
                Ok(v) => v,
                Err(_) => {
                    return Err(CompressionError::UnexpectedEof);
                },
            };
            proof {
                if reader.stream() != prev {
                    lemma_tail_trans(reader.stream(), prev, s);
                }
            }
            let ghost prev = reader.stream();
            let block_len_checksum = match read_bits(reader, 16) {
                Ok(v) => v,
                Err(_) => {
                    return Err(CompressionError::UnexpectedEof);
                },
            };
            proof {
                if reader.stream() != prev {
                    lemma_tail_trans(reader.stream(), prev, s);
                }
            }
            if (block_len ^ block_len_checksum) != 0xFFFF {
                return Err(CompressionError::DataError);
            }
            self.symbol_decoder = Some(DeflateHuffmanDecoder::NoComp(block_len));
            self.offset_decoder = None;
        } else if btype == 1 {
            let sym_tab = fix_symbol_table();
            proof {
                lemma_fixed_symbol_prefix(288);
                vstd::arithmetic::power2::lemma2_to64();
            }
            let sym = match HuffmanDecoder::new(sym_tab.as_slice(), 12) {
                Ok(d) => d,
                Err(_) => {
                    return Err(CompressionError::DataError);
                },
            };
            let off_tab = fix_offset_table();
            proof {
                assert(off_tab@ =~= Seq::new(32, |i: int| 5u8));
                lemma_fixed_offset_prefix(32);
            }
            let off = match HuffmanDecoder::new(&off_tab, 12) {
                Ok(d) => d,
                Err(_) => {
                    return Err(CompressionError::DataError);
                },
            };
            proof {
                assert(off_tab@ =~= Seq::new(32, |i: int| 5u8));
            }
            self.symbol_decoder = Some(DeflateHuffmanDecoder::HuffmanDecoder(sym, false));
            self.offset_decoder = Some(DeflateHuffmanDecoder::HuffmanDecoder(off, false));
        } else if btype == 2 {
            let ghost prev = reader.stream();
            let hlit = match read_bits(reader, 5) {
                Ok(v) => v as usize + 257,
                Err(_) => {
                    return Err(CompressionError::UnexpectedEof);
                },
            };
            proof {
                if reader.stream() != prev {
                    lemma_tail_trans(reader.stream(), prev, s);
                }
            }
            let ghost prev = reader.stream();
            let hdist = match read_bits(reader, 5) {
                Ok(v) => v as usize + 1,
                Err(_) => {
                    return Err(CompressionError::UnexpectedEof);
                },
            };
            proof {
                if reader.stream() != prev {
                    lemma_tail_trans(reader.stream(), prev, s);
                }
            }
            let ghost prev = reader.stream();
            let hclen = match read_bits(reader, 4) {
                Ok(v) => v + 4,
                Err(_) => {
                    return Err(CompressionError::UnexpectedEof);
                },
            };
            proof {
                if reader.stream() != prev {
                    lemma_tail_trans(reader.stream(), prev, s);
                }
            }
            proof {
                vstd::arithmetic::power2::lemma2_to64();
            }
            let ghost prev = reader.stream();
            let mut lt = match dec_len_tree(hclen, reader) {
                Ok(d) => d,
                Err(e) => {
                    return Err(e);
                },
            };
            proof {
                if reader.stream() != prev {
                    lemma_tail_trans(reader.stream(), prev, s);
                }
            }
            let ghost prev = reader.stream();
            let sym = match dec_huff_tree(&mut lt, hlit, reader) {
                Ok(d) => d,
                Err(e) => {
                    return Err(e);
                },
            };
            proof {
                if reader.stream() != prev {
                    lemma_tail_trans(reader.stream(), prev, s);
                }
            }
            let ghost prev = reader.stream();
            let off = match dec_huff_tree(&mut lt, hdist, reader) {
                Ok(d) => d,
                Err(e) => {
                    return Err(e);
                },
            };
            proof {
                if reader.stream() != prev {
                    lemma_tail_trans(reader.stream(), prev, s);
                }
            }
            self.symbol_decoder = Some(sym);
            self.offset_decoder = Some(off);
        } else {
            return Err(CompressionError::DataError);
        }
        Ok(())
    }
}

/// A Huffman decoder at the start of its block.
pub open spec fn fresh_huffman(d: Option<DeflateHuffmanDecoder>) -> bool {
    d matches Some(DeflateHuffmanDecoder::HuffmanDecoder(_, end)) && !end
}

/// The code lengths of a Huffman decoder.
pub open spec fn huffman_lengths(d: Option<DeflateHuffmanDecoder>) -> Seq<u8> {
    match d {
        Some(DeflateHuffmanDecoder::HuffmanDecoder(h, _)) => h.lengths(),
        _ => Seq::empty(),
    }
}

/// The lengths of the fixed literal/length code.
pub open spec fn fix_symbol_lengths() -> Seq<u8> {
    Seq::new(288, |i: int| crate::deflate::fixed_symbol_length(i))
}

/// The longest fixed literal/length code among the first `n` symbols, and
/// their Kraft sum in units of `2^-9`.
proof fn lemma_fixed_symbol_prefix(n: int)
    requires
        0 <= n <= 288,
    ensures
        max_len(fix_symbol_lengths(), n) == if n == 0 {
            0int
        } else if n <= 144 {
            8int
        } else {
            9int
        },
        crate::internal::kraft_prefix(fix_symbol_lengths(), 9, 10, 0, n) == if n <= 144 {
            2 * n
        } else if n <= 256 {
            288 + (n - 144)
        } else if n <= 280 {
            400 + 4 * (n - 256)
        } else {
            496 + 2 * (n - 280)
        },
    decreases n,
{
    if n > 0 {
        lemma_fixed_symbol_prefix(n - 1);
        vstd::arithmetic::power2::lemma2_to64();
    }
}

/// The fixed distance code lengths: the longest is 5, and their Kraft sum
/// in units of `2^-5` is `n` over the first `n` symbols.
proof fn lemma_fixed_offset_prefix(n: int)
    requires
        0 <= n <= 32,
    ensures
        max_len(Seq::new(32, |i: int| 5u8), n) == if n == 0 {
            0int
        } else {
            5int
        },
        crate::internal::kraft_prefix(Seq::new(32, |i: int| 5u8), 5, 6, 0, n) == n,
    decreases n,
{
    if n > 0 {
        lemma_fixed_offset_prefix(n - 1);
        vstd::arithmetic::power2::lemma2_to64();
    }
}

/// The first bit read, and the two after it, as numbers.
/// The low bits of one- and two-bit numbers.
pub proof fn lemma_small_bits(a: u32, b: u32)
    by (bit_vector)
    ensures
        a < 2 ==> (a == 1 <==> crate::bit_vector::bit32(a, 0)),
        b < 4 ==> ((b == 0 <==> !crate::bit_vector::bit32(b, 0) && !crate::bit_vector::bit32(b, 1)) && (b == 1
            <==> crate::bit_vector::bit32(b, 0) && !crate::bit_vector::bit32(b, 1)) && (b == 2
            <==> !crate::bit_vector::bit32(b, 0) && crate::bit_vector::bit32(b, 1))),
{
}

proof fn lemma_first_bits(s: Seq<bool>, a: u32, b: u32)
    requires
        1 <= s.len(),
        bits_lsb(a, 1) == s.take(1),
        a < 2,
        3 <= s.len() ==> bits_lsb(b, 2) == s.skip(1).take(2),
        b < 4,
    ensures
        (a == 1) == s[0],
        3 <= s.len() ==> (b == 0 <==> !s[1] && !s[2]) && (b == 1 <==> s[1] && !s[2]) && (b == 2 <==> !s[1]
            && s[2]) && (b == 3 <==> s[1] && s[2]),
{
    assert(bits_lsb(a, 1)[0] == s[0]);
    assert(crate::bit_vector::bit32(a, 0) == s[0]);
    lemma_small_bits(a, b);
    if 3 <= s.len() {
        assert(bits_lsb(b, 2)[0] == s[1]);
        assert(bits_lsb(b, 2)[1] == s[2]);
    }
}


/// A code a block can give: any literal, or a copy of 3 to 258 bytes from
/// at most 32768 bytes back.
pub open spec fn code_ok(code: LzssCode) -> bool {
    match code {
        LzssCode::Symbol(_) => true,
        LzssCode::Reference { len, pos } => 3 <= len <= 258 && pos < 32768,
    }
}

/// The lengths that each length code covers stay within 3 to 258.
proof fn lemma_len_code_bounds(j: int)
    requires
        0 <= j < 29,
    ensures
        0 <= len_ext_bits(j) <= 5,
        0 <= len_offset(j),
        len_offset(j) + pow2(len_ext_bits(j) as nat) <= 256,
{
    vstd::arithmetic::power2::lemma2_to64();
    assert(j == 0 ==> len_offset(j) + pow2(len_ext_bits(j) as nat) <= 256);
    assert(j == 1 ==> len_offset(j) + pow2(len_ext_bits(j) as nat) <= 256);
    assert(j == 2 ==> len_offset(j) + pow2(len_ext_bits(j) as nat) <= 256);
    assert(j == 3 ==> len_offset(j) + pow2(len_ext_bits(j) as nat) <= 256);
    assert(j == 4 ==> len_offset(j) + pow2(len_ext_bits(j) as nat) <= 256);
    assert(j == 5 ==> len_offset(j) + pow2(len_ext_bits(j) as nat) <= 256);
    assert(j == 6 ==> len_offset(j) + pow2(len_ext_bits(j) as nat) <= 256);
    assert(j == 7 ==> len_offset(j) + pow2(len_ext_bits(j) as nat) <= 256);
    assert(j == 8 ==> len_offset(j) + pow2(len_ext_bits(j) as nat) <= 256);
    assert(j == 9 ==> len_offset(j) + pow2(len_ext_bits(j) as nat) <= 256);
    assert(j == 10 ==> len_offset(j) + pow2(len_ext_bits(j) as nat) <= 256);
    assert(j == 11 ==> len_offset(j) + pow2(len_ext_bits(j) as nat) <= 256);
    assert(j == 12 ==> len_offset(j) + pow2(len_ext_bits(j) as nat) <= 256);
    assert(j == 13 ==> len_offset(j) + pow2(len_ext_bits(j) as nat) <= 256);
    assert(j == 14 ==> len_offset(j) + pow2(len_ext_bits(j) as nat) <= 256);
    assert(j == 15 ==> len_offset(j) + pow2(len_ext_bits(j) as nat) <= 256);
    assert(j == 16 ==> len_offset(j) + pow2(len_ext_bits(j) as nat) <= 256);
    assert(j == 17 ==> len_offset(j) + pow2(len_ext_bits(j) as nat) <= 256);
    assert(j == 18 ==> len_offset(j) + pow2(len_ext_bits(j) as nat) <= 256);
    assert(j == 19 ==> len_offset(j) + pow2(len_ext_bits(j) as nat) <= 256);
    assert(j == 20 ==> len_offset(j) + pow2(len_ext_bits(j) as nat) <= 256);
    assert(j == 21 ==> len_offset(j) + pow2(len_ext_bits(j) as nat) <= 256);
    assert(j == 22 ==> len_offset(j) + pow2(len_ext_bits(j) as nat) <= 256);
    assert(j == 23 ==> len_offset(j) + pow2(len_ext_bits(j) as nat) <= 256);
    assert(j == 24 ==> len_offset(j) + pow2(len_ext_bits(j) as nat) <= 256);
    assert(j == 25 ==> len_offset(j) + pow2(len_ext_bits(j) as nat) <= 256);
    assert(j == 26 ==> len_offset(j) + pow2(len_ext_bits(j) as nat) <= 256);
    assert(j == 27 ==> len_offset(j) + pow2(len_ext_bits(j) as nat) <= 256);
    assert(j == 28 ==> len_offset(j) + pow2(len_ext_bits(j) as nat) <= 256);
}

/// The distances that each distance code covers stay below 32768.
proof fn lemma_off_code_bounds(j: int)
    requires
        0 <= j < 30,
    ensures
        0 <= off_ext_bits(j) <= 13,
        0 <= off_offset(j),
        off_offset(j) + pow2(off_ext_bits(j) as nat) <= 32768,
{
    vstd::arithmetic::power2::lemma2_to64();
    assert(j == 0 ==> off_offset(j) + pow2(off_ext_bits(j) as nat) <= 32768);
    assert(j == 1 ==> off_offset(j) + pow2(off_ext_bits(j) as nat) <= 32768);
    assert(j == 2 ==> off_offset(j) + pow2(off_ext_bits(j) as nat) <= 32768);
    assert(j == 3 ==> off_offset(j) + pow2(off_ext_bits(j) as nat) <= 32768);
    assert(j == 4 ==> off_offset(j) + pow2(off_ext_bits(j) as nat) <= 32768);
    assert(j == 5 ==> off_offset(j) + pow2(off_ext_bits(j) as nat) <= 32768);
    assert(j == 6 ==> off_offset(j) + pow2(off_ext_bits(j) as nat) <= 32768);
    assert(j == 7 ==> off_offset(j) + pow2(off_ext_bits(j) as nat) <= 32768);
    assert(j == 8 ==> off_offset(j) + pow2(off_ext_bits(j) as nat) <= 32768);
    assert(j == 9 ==> off_offset(j) + pow2(off_ext_bits(j) as nat) <= 32768);
    assert(j == 10 ==> off_offset(j) + pow2(off_ext_bits(j) as nat) <= 32768);
    assert(j == 11 ==> off_offset(j) + pow2(off_ext_bits(j) as nat) <= 32768);
    assert(j == 12 ==> off_offset(j) + pow2(off_ext_bits(j) as nat) <= 32768);
    assert(j == 13 ==> off_offset(j) + pow2(off_ext_bits(j) as nat) <= 32768);
    assert(j == 14 ==> off_offset(j) + pow2(off_ext_bits(j) as nat) <= 32768);
    assert(j == 15 ==> off_offset(j) + pow2(off_ext_bits(j) as nat) <= 32768);
    assert(j == 16 ==> off_offset(j) + pow2(off_ext_bits(j) as nat) <= 32768);
    assert(j == 17 ==> off_offset(j) + pow2(off_ext_bits(j) as nat) <= 32768);
    assert(j == 18 ==> off_offset(j) + pow2(off_ext_bits(j) as nat) <= 32768);
    assert(j == 19 ==> off_offset(j) + pow2(off_ext_bits(j) as nat) <= 32768);
    assert(j == 20 ==> off_offset(j) + pow2(off_ext_bits(j) as nat) <= 32768);
    assert(j == 21 ==> off_offset(j) + pow2(off_ext_bits(j) as nat) <= 32768);
    assert(j == 22 ==> off_offset(j) + pow2(off_ext_bits(j) as nat) <= 32768);
    assert(j == 23 ==> off_offset(j) + pow2(off_ext_bits(j) as nat) <= 32768);
    assert(j == 24 ==> off_offset(j) + pow2(off_ext_bits(j) as nat) <= 32768);
    assert(j == 25 ==> off_offset(j) + pow2(off_ext_bits(j) as nat) <= 32768);
    assert(j == 26 ==> off_offset(j) + pow2(off_ext_bits(j) as nat) <= 32768);
    assert(j == 27 ==> off_offset(j) + pow2(off_ext_bits(j) as nat) <= 32768);
    assert(j == 28 ==> off_offset(j) + pow2(off_ext_bits(j) as nat) <= 32768);
    assert(j == 29 ==> off_offset(j) + pow2(off_ext_bits(j) as nat) <= 32768);
}

/// `t` is what is left of `s` after some of its first bits are taken.
pub open spec fn is_tail(t: Seq<bool>, s: Seq<bool>) -> bool {
    t.len() <= s.len() && s.skip(s.len() - t.len()) == t
}

/// Dropping the first `n` bits leaves a tail.
pub proof fn lemma_tail_skip(s: Seq<bool>, n: int)
    requires
        0 <= n <= s.len(),
    ensures
        is_tail(s.skip(n), s),
{
    assert(s.skip(s.len() - s.skip(n).len()) =~= s.skip(n));
}

/// A tail of a tail is a tail.
pub proof fn lemma_tail_trans(a: Seq<bool>, b: Seq<bool>, c: Seq<bool>)
    requires
        is_tail(a, b),
        is_tail(b, c),
    ensures
        is_tail(a, c),
{
    assert(c.skip(c.len() - a.len()) =~= c.skip(c.len() - b.len()).skip(b.len() - a.len()));
}

/// The bits `s` hold a copy code of a Huffman block, followed by `rest`:
/// the literal/length code of `sym` (257 to 285) under `symlens`, the
/// `le` extra bits of its length, the distance code of `j` under
/// `offlens`, and the `e` extra bits of its distance (each least
/// significant bit first); `mid` is what follows the length.
pub open spec fn reference_read(
    symlens: Seq<u8>,
    offlens: Seq<u8>,
    s: Seq<bool>,
    rest: Seq<bool>,
    sym: u16,
    le: u16,
    j: u16,
    e: u16,
    mid: Seq<bool>,
) -> bool {
    &&& 257 <= sym < 286
    &&& le < pow2(len_ext_bits(sym - 257) as nat)
    &&& decoded(symlens, s, bits_lsb(le as u32, len_ext_bits(sym - 257) as nat) + mid, sym)
    &&& j < 30
    &&& e < pow2(off_ext_bits(j as int) as nat)
    &&& decoded(offlens, mid, bits_lsb(e as u32, off_ext_bits(j as int) as nat) + rest, j)
}

/// The bits `whole` end with a copy code of a Huffman block, decoded as
/// RFC 1951 says, and then `rest`: the length is 3 more than the base of
/// its length code plus the extra bits read after it, and `pos` (the
/// distance less one) is the base of its distance code plus the extra
/// bits read after that code.
pub open spec fn ref_read(symlens: Seq<u8>, offlens: Seq<u8>, whole: Seq<bool>, rest: Seq<bool>, len: usize, pos: usize) -> bool {
    exists|s: Seq<bool>, sym: u16, le: u16, j: u16, e: u16, mid: Seq<bool>|
        #[trigger] reference_read(symlens, offlens, s, rest, sym, le, j, e, mid) && is_tail(s, whole) && len
            == len_offset(sym - 257) + le + 3 && pos == off_offset(j as int) + e
}

/// The bits `s` begin with the literal `b` of a block read by `d`,
/// followed by `rest`: its code under the block's Huffman code, or, in a
/// stored block, the eight bits of the byte itself.
pub open spec fn lit_bits_read(d: Option<DeflateHuffmanDecoder>, s: Seq<bool>, rest: Seq<bool>, b: u8) -> bool {
    match d {
        Some(DeflateHuffmanDecoder::HuffmanDecoder(h, _)) => decoded(h.lengths(), s, rest, b as u16),
        Some(DeflateHuffmanDecoder::NoComp(_)) => 8 <= s.len() && s.take(8) == bits_lsb(b as u32, 8) && rest
            == s.skip(8),
        None => false,
    }
}

/// A literal `b` of a block read by `d` stands at the start of a tail of
/// `whole`, followed by `rest`.
pub open spec fn lit_read(d: Option<DeflateHuffmanDecoder>, whole: Seq<bool>, rest: Seq<bool>, b: u8) -> bool {
    exists|s: Seq<bool>| #[trigger] lit_bits_read(d, s, rest, b) && is_tail(s, whole)
}

/// The distance codes of RFC 1951 (section 3.2.5): code `j` stands for
/// the distances from the `j`-th base on, with the `j`-th count of extra
/// bits; `off_offset` is that base less one, as LZSS positions count from
/// the byte just before.
pub open spec fn rfc1951_distance_base(j: int) -> int {
    if j == 0 {
        1
    } else if j == 1 {
        2
    } else if j == 2 {
        3
    } else if j == 3 {
        4
    } else if j == 4 {
        5
    } else if j == 5 {
        7
    } else if j == 6 {
        9
    } else if j == 7 {
        13
    } else if j == 8 {
        17
    } else if j == 9 {
        25
    } else if j == 10 {
        33
    } else if j == 11 {
        49
    } else if j == 12 {
        65
    } else if j == 13 {
        97
    } else if j == 14 {
        129
    } else if j == 15 {
        193
    } else if j == 16 {
        257
    } else if j == 17 {
        385
    } else if j == 18 {
        513
    } else if j == 19 {
        769
    } else if j == 20 {
        1025
    } else if j == 21 {
        1537
    } else if j == 22 {
        2049
    } else if j == 23 {
        3073
    } else if j == 24 {
        4097
    } else if j == 25 {
        6145
    } else if j == 26 {
        8193
    } else if j == 27 {
        12289
    } else if j == 28 {
        16385
    } else if j == 29 {
        24577
    } else {
        0
    }
}

pub open spec fn rfc1951_distance_extra(j: int) -> int {
    if j == 0 {
        0
    } else if j == 1 {
        0
    } else if j == 2 {
        0
    } else if j == 3 {
        0
    } else if j == 4 {
        1
    } else if j == 5 {
        1
    } else if j == 6 {
        2
    } else if j == 7 {
        2
    } else if j == 8 {
        3
    } else if j == 9 {
        3
    } else if j == 10 {
        4
    } else if j == 11 {
        4
    } else if j == 12 {
        5
    } else if j == 13 {
        5
    } else if j == 14 {
        6
    } else if j == 15 {
        6
    } else if j == 16 {
        7
    } else if j == 17 {
        7
    } else if j == 18 {
        8
    } else if j == 19 {
        8
    } else if j == 20 {
        9
    } else if j == 21 {
        9
    } else if j == 22 {
        10
    } else if j == 23 {
        10
    } else if j == 24 {
        11
    } else if j == 25 {
        11
    } else if j == 26 {
        12
    } else if j == 27 {
        12
    } else if j == 28 {
        13
    } else if j == 29 {
        13
    } else {
        0
    }
}

/// The length codes 257 to 285 of RFC 1951 (section 3.2.5), counted from
/// 257.
pub open spec fn rfc1951_length_base(j: int) -> int {
    if j == 0 {
        3
    } else if j == 1 {
        4
    } else if j == 2 {
        5
    } else if j == 3 {
        6
    } else if j == 4 {
        7
    } else if j == 5 {
        8
    } else if j == 6 {
        9
    } else if j == 7 {
        10
    } else if j == 8 {
        11
    } else if j == 9 {
        13
    } else if j == 10 {
        15
    } else if j == 11 {
        17
    } else if j == 12 {
        19
    } else if j == 13 {
        23
    } else if j == 14 {
        27
    } else if j == 15 {
        31
    } else if j == 16 {
        35
    } else if j == 17 {
        43
    } else if j == 18 {
        51
    } else if j == 19 {
        59
    } else if j == 20 {
        67
    } else if j == 21 {
        83
    } else if j == 22 {
        99
    } else if j == 23 {
        115
    } else if j == 24 {
        131
    } else if j == 25 {
        163
    } else if j == 26 {
        195
    } else if j == 27 {
        227
    } else if j == 28 {
        258
    } else {
        0
    }
}

pub open spec fn rfc1951_length_extra(j: int) -> int {
    if j == 0 {
        0
    } else if j == 1 {
        0
    } else if j == 2 {
        0
    } else if j == 3 {
        0
    } else if j == 4 {
        0
    } else if j == 5 {
        0
    } else if j == 6 {
        0
    } else if j == 7 {
        0
    } else if j == 8 {
        1
    } else if j == 9 {
        1
    } else if j == 10 {
        1
    } else if j == 11 {
        1
    } else if j == 12 {
        2
    } else if j == 13 {
        2
    } else if j == 14 {
        2
    } else if j == 15 {
        2
    } else if j == 16 {
        3
    } else if j == 17 {
        3
    } else if j == 18 {
        3
    } else if j == 19 {
        3
    } else if j == 20 {
        4
    } else if j == 21 {
        4
    } else if j == 22 {
        4
    } else if j == 23 {
        4
    } else if j == 24 {
        5
    } else if j == 25 {
        5
    } else if j == 26 {
        5
    } else if j == 27 {
        5
    } else if j == 28 {
        0
    } else {
        0
    }
}

/// The tables this decoder reads copies with are those of RFC 1951: the
/// distance of code `j` with extra bits `e` is the `j`-th base plus `e`,
/// and the length of code `257 + j` with extra bits `e` is the `j`-th
/// length base plus `e`.
pub proof fn lemma_rfc1951_tables(j: int)
    ensures
        0 <= j < 30 ==> off_offset(j) + 1 == rfc1951_distance_base(j) && off_ext_bits(j)
            == rfc1951_distance_extra(j),
        0 <= j < 29 ==> len_offset(j) + 3 == rfc1951_length_base(j) && len_ext_bits(j)
            == rfc1951_length_extra(j),
{
    if 0 <= j < 30 {
        if j == 0 {
            assert(off_offset(j) + 1 == rfc1951_distance_base(j));
            assert(len_offset(j) + 3 == rfc1951_length_base(j));
        } else if j == 1 {
            assert(off_offset(j) + 1 == rfc1951_distance_base(j));
            assert(len_offset(j) + 3 == rfc1951_length_base(j));
        } else if j == 2 {
            assert(off_offset(j) + 1 == rfc1951_distance_base(j));
            assert(len_offset(j) + 3 == rfc1951_length_base(j));
        } else if j == 3 {
            assert(off_offset(j) + 1 == rfc1951_distance_base(j));
            assert(len_offset(j) + 3 == rfc1951_length_base(j));
        } else if j == 4 {
            assert(off_offset(j) + 1 == rfc1951_distance_base(j));
            assert(len_offset(j) + 3 == rfc1951_length_base(j));
        } else if j == 5 {
            assert(off_offset(j) + 1 == rfc1951_distance_base(j));
            assert(len_offset(j) + 3 == rfc1951_length_base(j));
        } else if j == 6 {
            assert(off_offset(j) + 1 == rfc1951_distance_base(j));
            assert(len_offset(j) + 3 == rfc1951_length_base(j));
        } else if j == 7 {
            assert(off_offset(j) + 1 == rfc1951_distance_base(j));
            assert(len_offset(j) + 3 == rfc1951_length_base(j));
        } else if j == 8 {
            assert(off_offset(j) + 1 == rfc1951_distance_base(j));
            assert(len_offset(j) + 3 == rfc1951_length_base(j));
        } else if j == 9 {
            assert(off_offset(j) + 1 == rfc1951_distance_base(j));
            assert(len_offset(j) + 3 == rfc1951_length_base(j));
        } else if j == 10 {
            assert(off_offset(j) + 1 == rfc1951_distance_base(j));
            assert(len_offset(j) + 3 == rfc1951_length_base(j));
        } else if j == 11 {
            assert(off_offset(j) + 1 == rfc1951_distance_base(j));
            assert(len_offset(j) + 3 == rfc1951_length_base(j));
        } else if j == 12 {
            assert(off_offset(j) + 1 == rfc1951_distance_base(j));
            assert(len_offset(j) + 3 == rfc1951_length_base(j));
        } else if j == 13 {
            assert(off_offset(j) + 1 == rfc1951_distance_base(j));
            assert(len_offset(j) + 3 == rfc1951_length_base(j));
        } else if j == 14 {
            assert(off_offset(j) + 1 == rfc1951_distance_base(j));
            assert(len_offset(j) + 3 == rfc1951_length_base(j));
        } else if j == 15 {
            assert(off_offset(j) + 1 == rfc1951_distance_base(j));
            assert(len_offset(j) + 3 == rfc1951_length_base(j));
        } else if j == 16 {
            assert(off_offset(j) + 1 == rfc1951_distance_base(j));
            assert(len_offset(j) + 3 == rfc1951_length_base(j));
        } else if j == 17 {
            assert(off_offset(j) + 1 == rfc1951_distance_base(j));
            assert(len_offset(j) + 3 == rfc1951_length_base(j));
        } else if j == 18 {
            assert(off_offset(j) + 1 == rfc1951_distance_base(j));
            assert(len_offset(j) + 3 == rfc1951_length_base(j));
        } else if j == 19 {
            assert(off_offset(j) + 1 == rfc1951_distance_base(j));
            assert(len_offset(j) + 3 == rfc1951_length_base(j));
        } else if j == 20 {
            assert(off_offset(j) + 1 == rfc1951_distance_base(j));
            assert(len_offset(j) + 3 == rfc1951_length_base(j));
        } else if j == 21 {
            assert(off_offset(j) + 1 == rfc1951_distance_base(j));
            assert(len_offset(j) + 3 == rfc1951_length_base(j));
        } else if j == 22 {
            assert(off_offset(j) + 1 == rfc1951_distance_base(j));
            assert(len_offset(j) + 3 == rfc1951_length_base(j));
        } else if j == 23 {
            assert(off_offset(j) + 1 == rfc1951_distance_base(j));
            assert(len_offset(j) + 3 == rfc1951_length_base(j));
        } else if j == 24 {
            assert(off_offset(j) + 1 == rfc1951_distance_base(j));
            assert(len_offset(j) + 3 == rfc1951_length_base(j));
        } else if j == 25 {
            assert(off_offset(j) + 1 == rfc1951_distance_base(j));
            assert(len_offset(j) + 3 == rfc1951_length_base(j));
        } else if j == 26 {
            assert(off_offset(j) + 1 == rfc1951_distance_base(j));
            assert(len_offset(j) + 3 == rfc1951_length_base(j));
        } else if j == 27 {
            assert(off_offset(j) + 1 == rfc1951_distance_base(j));
            assert(len_offset(j) + 3 == rfc1951_length_base(j));
        } else if j == 28 {
            assert(off_offset(j) + 1 == rfc1951_distance_base(j));
            assert(len_offset(j) + 3 == rfc1951_length_base(j));
        } else if j == 29 {
            assert(off_offset(j) + 1 == rfc1951_distance_base(j));
        }
    }
}

/// Round trip of a copy code. Whatever a DEFLATE encoder writes for a
/// copy (the length code `sym`, `le` extra bits, the distance code `j`,
/// `e` extra bits, each code under its table) is read back by the decoder
/// as that copy: length `len_offset(sym - 257) + le + 3` and position
/// `off_offset(j) + e`. And it is read back as nothing else: any reading
/// of a copy from the start of these bits finds the same codes and extra
/// bits, and leaves the same rest.
pub proof fn lemma_reference_round_trip(
    symlens: Seq<u8>,
    offlens: Seq<u8>,
    sym: u16,
    le: u16,
    j: u16,
    e: u16,
    rest: Seq<bool>,
)
    requires
        codes_in_range(symlens),
        codes_in_range(offlens),
        forall|i: int| 0 <= i < symlens.len() ==> #[trigger] symlens[i] < 32,
        forall|i: int| 0 <= i < offlens.len() ==> #[trigger] offlens[i] < 32,
        has_code(symlens, sym as int),
        has_code(offlens, j as int),
        257 <= sym < 286,
        j < 30,
        le < pow2(len_ext_bits(sym - 257) as nat),
        e < pow2(off_ext_bits(j as int) as nat),
    ensures
        ({
            let mid = code_bits(offlens, j as int) + bits_lsb(e as u32, off_ext_bits(j as int) as nat) + rest;
            let bits = code_bits(symlens, sym as int) + bits_lsb(le as u32, len_ext_bits(sym - 257) as nat) + mid;
            &&& ref_read(
                symlens,
                offlens,
                bits,
                rest,
                (len_offset(sym - 257) + le + 3) as usize,
                (off_offset(j as int) + e) as usize,
            )
            &&& forall|rest2: Seq<bool>, sym2: u16, le2: u16, j2: u16, e2: u16, mid2: Seq<bool>|
                #[trigger] reference_read(symlens, offlens, bits, rest2, sym2, le2, j2, e2, mid2) ==> sym2
                    == sym && le2 == le && j2 == j && e2 == e && mid2 == mid && rest2 == rest
        }),
{
    let ln = len_ext_bits(sym - 257) as nat;
    let on = off_ext_bits(j as int) as nat;
    lemma_len_code_bounds(sym - 257);
    lemma_off_code_bounds(j as int);
    let mid = code_bits(offlens, j as int) + bits_lsb(e as u32, on) + rest;
    let after_sym = bits_lsb(le as u32, ln) + mid;
    let bits = code_bits(symlens, sym as int) + after_sym;
    assert(bits =~= code_bits(symlens, sym as int) + bits_lsb(le as u32, ln) + mid);
    lemma_code_then_rest(symlens, sym as int, after_sym);
    let after_off = bits_lsb(e as u32, on) + rest;
    assert(mid =~= code_bits(offlens, j as int) + after_off);
    lemma_code_then_rest(offlens, j as int, after_off);
    assert(reference_read(symlens, offlens, bits, rest, sym, le, j, e, mid));
    lemma_tail_skip(bits, 0);
    assert(bits.skip(0) =~= bits);
    assert(((len_offset(sym - 257) + le + 3) as usize) as int == len_offset(sym - 257) + le + 3);
    assert(((off_offset(j as int) + e) as usize) as int == off_offset(j as int) + e);
    assert(ref_read(
        symlens,
        offlens,
        bits,
        rest,
        (len_offset(sym - 257) + le + 3) as usize,
        (off_offset(j as int) + e) as usize,
    ));
    assert forall|rest2: Seq<bool>, sym2: u16, le2: u16, j2: u16, e2: u16, mid2: Seq<bool>|
        #[trigger] reference_read(symlens, offlens, bits, rest2, sym2, le2, j2, e2, mid2) implies sym2 == sym && le2
        == le && j2 == j && e2 == e && mid2 == mid && rest2 == rest by {
        lemma_unique_decoding(symlens, bits, sym as int, sym2 as int);
        let ln2 = len_ext_bits(sym2 - 257) as nat;
        assert(bits.skip(symlens[sym as int] as int) == after_sym);
        assert((bits_lsb(le2 as u32, ln2) + mid2).take(ln as int) =~= after_sym.take(ln as int));
        assert(after_sym.take(ln as int) =~= bits_lsb(le as u32, ln));
        assert((bits_lsb(le2 as u32, ln2) + mid2).take(ln as int) =~= bits_lsb(le2 as u32, ln));
        lemma_lsb_eq(le2 as u32, le as u32, ln);
        assert(mid2 =~= after_sym.skip(ln as int));
        assert(after_sym.skip(ln as int) =~= mid);
        lemma_unique_decoding(offlens, mid, j as int, j2 as int);
        assert(mid.skip(offlens[j as int] as int) == after_off);
        assert((bits_lsb(e2 as u32, on) + rest2).take(on as int) =~= bits_lsb(e2 as u32, on));
        assert(after_off.take(on as int) =~= bits_lsb(e as u32, on));
        lemma_lsb_eq(e2 as u32, e as u32, on);
        assert(rest2 =~= after_off.skip(on as int));
        assert(after_off.skip(on as int) =~= rest);
    }
}

impl DeflaterInner {
    /// The symbol decoder has a block still to read.
    fn in_block(&self) -> (r: bool)
        ensures
            r == in_block(self.symbol_decoder),
    {
        match &self.symbol_decoder {
            Some(d) => !d.end(),
            None => false,
        }
    }

    /// Reads `n` extra bits, none when `n` is 0.
    fn read_ext(reader: &mut RightBitReader, n: usize) -> (r: Result<u16, CompressionError>)
        requires
            old(reader).attached(),
            n <= 13,
        ensures
            final(reader).attached(),
            final(reader).stream().len() <= old(reader).stream().len(),
            r is Ok ==> r->Ok_0 < pow2(n as nat),
            r is Ok ==> bits_lsb(r->Ok_0 as u32, n as nat) == old(reader).stream().take(n as int),
            r is Ok ==> final(reader).stream() == old(reader).stream().skip(n as int) && n <= old(
                reader,
            ).stream().len(),
            r is Err ==> r == Err::<u16, CompressionError>(CompressionError::UnexpectedEof),
    {
        if n == 0 {
            proof {
                assert(bits_lsb(0u32, 0) =~= old(reader).stream().take(0));
                assert(old(reader).stream().skip(0) =~= old(reader).stream());
            }
            proof {
                vstd::arithmetic::power2::lemma2_to64();
            }
            return Ok(0);
        }
        match read_bits(reader, n) {
            Ok(v) => {
                proof {
                    vstd::arithmetic::power2::lemma2_to64();
                    if n < 13 {
                        vstd::arithmetic::power2::lemma_pow2_strictly_increases(n as nat, 13);
                    }
                }
                Ok(v as u16)
            },
            Err(_) => Err(CompressionError::UnexpectedEof),
        }
    }

    /// The next code of the data; `None` after the last block.
    fn next(&mut self, reader: &mut RightBitReader) -> (r: Result<Option<LzssCode>, CompressionError>)
        requires
            old(self).wf(),
            old(reader).attached(),
        ensures
            final(self).wf(),
            final(reader).attached(),
            final(reader).stream().len() <= old(reader).stream().len(),
            r is Err ==> r == Err::<Option<LzssCode>, CompressionError>(CompressionError::UnexpectedEof) || r
                == Err::<Option<LzssCode>, CompressionError>(CompressionError::DataError),
            r == Ok::<Option<LzssCode>, CompressionError>(None) ==> final(self).is_final && !in_block(
                final(self).symbol_decoder,
            ),
            old(self).is_final && !in_block(old(self).symbol_decoder) ==> r == Ok::<
                Option<LzssCode>,
                CompressionError,
            >(None) && final(reader).stream() == old(reader).stream(),
            r matches Ok(Some(code)) ==> code_ok(code),
            r matches Ok(Some(LzssCode::Reference { len, pos })) ==> ref_read(
                huffman_lengths(final(self).symbol_decoder),
                huffman_lengths(final(self).offset_decoder),
                old(reader).stream(),
                final(reader).stream(),
                len,
                pos,
            ),
            r matches Ok(Some(LzssCode::Symbol(b))) ==> lit_read(
                final(self).symbol_decoder,
                old(reader).stream(),
                final(reader).stream(),
                b,
            ),
    {
        proof {
            lemma_tail_skip(reader.stream(), 0);
            assert(reader.stream().skip(0) =~= reader.stream());
        }
        loop
            invariant
                self.wf(),
                reader.attached(),
                reader.stream().len() <= old(reader).stream().len(),
                old(self).is_final && !in_block(old(self).symbol_decoder) ==> self.is_final && !in_block(
                    self.symbol_decoder,
                ) && reader.stream() == old(reader).stream(),
                is_tail(reader.stream(), old(reader).stream()),
            decreases reader.stream().len(), if in_block(self.symbol_decoder) {
                1nat
            } else {
                0nat
            },
        {
            if !self.in_block() {
                if self.is_final {
                    return Ok(None);
                }
                let ghost prev = reader.stream();
                match self.init_block(reader) {
                    Ok(()) => {},
                    Err(e) => {
                        return Err(e);
                    },
                }
                proof {
                    lemma_tail_trans(reader.stream(), prev, old(reader).stream());
                }
            } else {
                let mut d = match self.symbol_decoder.take() {
                    Some(d) => d,
                    None => {
                        return Err(CompressionError::DataError);
                    },
                };
                let ghost s0 = reader.stream();
                let ghost d0 = d;
                let res = d.dec(reader);
                self.symbol_decoder = Some(d);
                let sym = match res {
                    Ok(Some(v)) => v,
                    Ok(None) => {
                        proof {
                            lemma_tail_trans(reader.stream(), s0, old(reader).stream());
                        }
                        continue;
                    },
                    Err(e) => {
                        return Err(e);
                    },
                };
                if sym <= 255 {
                    proof {
                        assert((sym as u8) as u16 == sym);
                        assert(lit_bits_read(self.symbol_decoder, s0, reader.stream(), sym as u8));
                    }
                    return Ok(Some(LzssCode::Symbol(sym as u8)));
                }
                let ghost s1 = reader.stream();
                proof {
                    assert(d0 is HuffmanDecoder);
                    assert(decoded(huffman_lengths(self.symbol_decoder), s0, s1, sym));
                }
                let len_index = (sym - 257) as usize;
                if len_index >= 29 {
                    return Err(CompressionError::DataError);
                }
                proof {
                    lemma_len_code_bounds(len_index as int);
                }
                let extbits = self.len_tab.ext_bits(len_index);
                let ext = match Self::read_ext(reader, extbits) {
                    Ok(v) => v,
                    Err(e) => {
                        return Err(e);
                    },
                };
                let len = (self.len_tab.convert_back(len_index, ext) + 3) as usize;
                let ghost s2 = reader.stream();
                proof {
                    assert(extbits == len_ext_bits(len_index as int));
                    assert(s1 =~= s1.take(extbits as int) + s1.skip(extbits as int));
                    assert(s1 =~= bits_lsb(ext as u32, len_ext_bits(sym - 257) as nat) + s2);
                }
                let mut od = match self.offset_decoder.take() {
                    Some(d) => d,
                    None => {
                        return Err(CompressionError::DataError);
                    },
                };
                let huffman_table = match &od {
                    DeflateHuffmanDecoder::HuffmanDecoder(_, _) => true,
                    DeflateHuffmanDecoder::NoComp(_) => false,
                };
                if !huffman_table {
                    self.offset_decoder = Some(od);
                    return Err(CompressionError::DataError);
                }
                let ghost od0 = od;
                let ores = od.dec(reader);
                self.offset_decoder = Some(od);
                let ghost s3 = reader.stream();
                let ghost vj: u16 = match ores {
                    Ok(Some(v)) => v,
                    _ => 0,
                };
                let off_index = match ores {
                    Ok(Some(v)) => v as usize,
                    Ok(None) => {
                        return Err(CompressionError::UnexpectedEof);
                    },
                    Err(e) => {
                        return Err(e);
                    },
                };
                if off_index >= 30 {
                    return Err(CompressionError::DataError);
                }
                proof {
                    lemma_off_code_bounds(off_index as int);
                }
                let off_extbits = self.offset_tab.ext_bits(off_index);
                let oext = match Self::read_ext(reader, off_extbits) {
                    Ok(v) => v,
                    Err(e) => {
                        return Err(e);
                    },
                };
                let pos = self.offset_tab.convert_back(off_index, oext) as usize;
                proof {
                    let s4 = reader.stream();
                    assert(off_extbits == off_ext_bits(off_index as int));
                    assert(s3 =~= s3.take(off_extbits as int) + s3.skip(off_extbits as int));
                    assert(s3 =~= bits_lsb(oext as u32, off_ext_bits(off_index as int) as nat) + s4);
                    assert(vj as int == off_index);
                    assert(decoded(huffman_lengths(self.offset_decoder), s2, s3, vj));
                    assert(reference_read(
                        huffman_lengths(self.symbol_decoder),
                        huffman_lengths(self.offset_decoder),
                        s0,
                        s4,
                        sym,
                        ext,
                        vj,
                        oext,
                        s2,
                    ));
                }
                return Ok(Some(LzssCode::Reference { len, pos }));
            }
        }
    }
}


/// A decoder of raw DEFLATE data (RFC 1951), byte by byte, over a window
/// of 32 KiB and more.
pub struct Deflater {
    inner: DeflaterInner,
    lzss_decoder: LzssDecoder,
}

impl Deflater {
    pub closed spec fn wf(&self) -> bool {
        &&& self.inner.wf()
        &&& self.lzss_decoder.wf()
        &&& self.lzss_decoder.spec_cap() == 0x10000
    }

    /// The output so far, the newest byte first, as far as the window
    /// reaches.
    pub closed spec fn spec_history(&self) -> Seq<u8> {
        self.lzss_decoder.spec_history()
    }

    /// How many bytes of the last code are still to be handed out.
    pub closed spec fn spec_owed(&self) -> nat {
        self.lzss_decoder.spec_offset()
    }

    /// The last block has been read to its end.
    pub closed spec fn spec_done(&self) -> bool {
        self.inner.is_final && !in_block(self.inner.symbol_decoder)
    }

    /// The reader of the literals of the current block.
    pub closed spec fn spec_symbol_decoder(&self) -> Option<DeflateHuffmanDecoder> {
        self.inner.symbol_decoder
    }

    /// The code lengths of the literal/length code of the current block.
    pub closed spec fn spec_symbol_lengths(&self) -> Seq<u8> {
        huffman_lengths(self.inner.symbol_decoder)
    }

    /// The code lengths of the distance code of the current block.
    pub closed spec fn spec_offset_lengths(&self) -> Seq<u8> {
        huffman_lengths(self.inner.offset_decoder)
    }

    pub fn new() -> (r: Self)
        ensures
            r.wf(),
            r.spec_history().len() == 0,
            r.spec_owed() == 0,
            !r.spec_done(),
    {
        Self { inner: DeflaterInner::new(), lzss_decoder: LzssDecoder::new(0x10000) }
    }

    /// A decoder whose window already holds `dict`, as if it had been
    /// output before.
    pub fn with_dict(dict: &[u8]) -> (r: Self)
        requires
            dict.len() <= 0x20000,
        ensures
            r.wf(),
            r.spec_history() == push_all(Seq::<u8>::empty(), dict@, 0x10000),
            r.spec_owed() == 0,
            !r.spec_done(),
    {
        Self { inner: DeflaterInner::new(), lzss_decoder: LzssDecoder::with_dict(0x10000, dict) }
    }

    /// The next byte of the decoded data; `None` after the last block.
    /// Each code of the data (a literal, or a copy of earlier output) is
    /// expanded into the window and its bytes handed out in order.
    pub fn next(&mut self, reader: &mut RightBitReader) -> (r: Option<Result<u8, CompressionError>>)
        requires
            old(self).wf(),
            old(reader).attached(),
        ensures
            final(self).wf(),
            final(reader).attached(),
            final(reader).stream().len() <= old(reader).stream().len(),
            old(self).spec_owed() > 0 ==> {
                &&& r == Some(Ok::<u8, CompressionError>(old(self).spec_history()[old(self).spec_owed() - 1]))
                &&& final(self).spec_owed() == old(self).spec_owed() - 1
                &&& final(self).spec_history() == old(self).spec_history()
                &&& final(reader).stream() == old(reader).stream()
            },
            r is None ==> old(self).spec_owed() == 0 && final(self).spec_done(),
            old(self).spec_owed() == 0 && old(self).spec_done() ==> r is None && final(reader).stream() == old(
                reader,
            ).stream(),
            r matches Some(Err(e)) ==> e == CompressionError::DataError || e == CompressionError::UnexpectedEof,
            old(self).spec_owed() == 0 ==> (r matches Some(Ok(b)) ==> exists|code: LzssCode|
                #[trigger] code_ok(code) && apply_code(old(self).spec_history(), code, 0x10000) == Some(
                    final(self).spec_history(),
                ) && final(self).spec_owed() == code_len(code) - 1 && b == final(self).spec_history()[code_len(code)
                    - 1] && (code matches LzssCode::Reference { len, pos } ==> ref_read(
                    final(self).spec_symbol_lengths(),
                    final(self).spec_offset_lengths(),
                    old(reader).stream(),
                    final(reader).stream(),
                    len,
                    pos,
                )) && (code matches LzssCode::Symbol(c) ==> lit_read(
                    final(self).spec_symbol_decoder(),
                    old(reader).stream(),
                    final(reader).stream(),
                    c,
                ))),
    {
        if self.lzss_decoder.owed() > 0 {
            return Some(Ok(self.lzss_decoder.take_pending()));
        }
        match self.inner.next(reader) {
            Err(e) => Some(Err(e)),
            Ok(None) => None,
            Ok(Some(code)) => match self.lzss_decoder.feed(code) {
                Err(e) => Some(Err(e)),
                Ok(()) => {
                    let b = self.lzss_decoder.take_pending();
                    proof {
                        assert(code_ok(code));
                    }
                    Some(Ok(b))
                },
            },
        }
    }
}

} // verus!
