use vstd::prelude::*;
use vstd::arithmetic::power2::pow2;
use core::cmp::Ordering;
use crate::bit_reader::ByteSource;
use crate::compress::Action;
use crate::lzss::LzssComparison;
use crate::lzss::encoder::LzssEncoder;
use crate::bitio::small_bit_vec::SmallBitVec;
use crate::cbuffer::{push_all, CircularBuffer};
use crate::deflate::{gen_len_tab, gen_off_tab, len_ext_bits, len_offset, off_ext_bits, off_offset, CodeTable};
use crate::lzss::LzssCode;
use crate::bit_vector::{bit32, bits_lsb, fits, BitVector};
use crate::bit_writer::{pad_len, zeros, RightBitWriter};
use crate::error::CompressionError;
use crate::huffman::cano_huff_table::{lemma_used_bound, make_table};
use crate::huffman::decoder::lengths_make_code;
use crate::huffman_encoder::lemma_reversed_bits;
use crate::internal::{canonical_code, creat_huffman_table, lemma_last_coded, table_entry};
use crate::deflate::{fix_offset_table, fix_symbol_table};

verus! {

/// An LZSS step as DEFLATE writes it: a literal, or a length code (257 and
/// up) and a distance code, each with its extra bits.
#[derive(Debug, Eq, PartialEq)]
pub enum DeflateLzssCode {
    Symbol(u8),
    Reference { len: u16, len_sub: SmallBitVec<u16>, pos: u8, pos_sub: SmallBitVec<u16> },
}

impl DeflateLzssCode {
    /// Codes a literal as itself and a copy by its length and distance codes.
    pub fn from_with_codetab(source: &LzssCode, len_tab: &CodeTable, offset_tab: &CodeTable) -> (r:
        Self)
        requires
            len_tab.wf(),
            offset_tab.wf(),
            len_tab.codes().len() <= 0xFE00,
            *source matches LzssCode::Reference { len, pos } ==> 3 <= len && len - 3 < len_tab.codes().len()
                && pos < offset_tab.codes().len(),
        ensures
            *source matches LzssCode::Symbol(s) ==> r == DeflateLzssCode::Symbol(s),
            *source matches LzssCode::Reference { len, pos } ==> r matches DeflateLzssCode::Reference {
                len: code_len,
                len_sub,
                pos: code_pos,
                pos_sub,
            } && code_len == len_tab.codes()[len - 3] + 257 && len_sub.spec_len() == len_tab.ext()[len_tab.codes()[len - 3] as int]
                && len_sub.spec_data() == len - 3 - len_tab.offsets()[len_tab.codes()[len - 3] as int]
                && code_pos == offset_tab.codes()[pos as int] && pos_sub.spec_len() == offset_tab.ext()[offset_tab.codes()[pos as int] as int]
                && pos_sub.spec_data() == pos - offset_tab.offsets()[offset_tab.codes()[pos as int] as int],
    {
        match *source {
            LzssCode::Symbol(s) => DeflateLzssCode::Symbol(s),
            LzssCode::Reference { len, pos } => {
                let l = len_tab.convert(len as u16 - 3);
                let o = offset_tab.convert(pos as u16);
                DeflateLzssCode::Reference {
                    len: l.0 as u16 + 257,
                    len_sub: l.1,
                    pos: o.0,
                    pos_sub: o.1,
                }
            },
        }
    }
}

/// What the DEFLATE writer is handed: bits, a whole byte, or a request to
/// pad to a byte boundary.
#[derive(Debug)]
pub enum InflateBitVec {
    BitVec(SmallBitVec<u16>),
    Byte(u8),
    Flush,
}



/// The block-building side of the DEFLATE encoder: collects the codes of
/// a block with their frequencies, and writes the block in whichever of
/// the three forms (stored, fixed codes, own codes) is shortest.
pub struct InflaterInner {
    len_tab: CodeTable,
    offset_tab: CodeTable,
    block_buf: Vec<DeflateLzssCode>,
    decompress_len: usize,
    symbol_freq: Vec<usize>,
    offset_freq: Vec<usize>,
    nocomp_buf: CircularBuffer<u8>,
    finished: bool,
}

impl InflaterInner {
    pub closed spec fn wf(&self) -> bool {
        &&& self.len_tab.wf()
        &&& self.len_tab.offsets().len() == 30
        &&& self.len_tab.codes().len() == 256
        &&& forall|j: int| 0 <= j < 30 ==> #[trigger] self.len_tab.offsets()[j] == len_offset(j)
        &&& forall|j: int| 0 <= j < 29 ==> #[trigger] self.len_tab.ext()[j] == len_ext_bits(j)
        &&& self.offset_tab.wf()
        &&& self.offset_tab.offsets().len() == 31
        &&& self.offset_tab.codes().len() == 0x8000
        &&& forall|j: int| 0 <= j < 31 ==> #[trigger] self.offset_tab.offsets()[j] == off_offset(j)
        &&& forall|j: int| 0 <= j < 30 ==> #[trigger] self.offset_tab.ext()[j] == off_ext_bits(j)
        &&& self.symbol_freq@.len() == 286
        &&& self.offset_freq@.len() == 30
        &&& forall|j: int| 0 <= j < 286 ==> #[trigger] self.symbol_freq@[j] <= self.block_buf@.len() + 1
        &&& forall|j: int| 0 <= j < 30 ==> #[trigger] self.offset_freq@[j] <= self.block_buf@.len()
        &&& self.block_buf@.len() <= 0xFFFF
        &&& self.decompress_len <= 0xFFFF
        &&& self.decompress_len <= self.nocomp_buf.spec_len()
        &&& self.nocomp_buf.wf()
        &&& self.nocomp_buf.spec_cap() == 0xFFFF
    }

    /// The block is ended: the last one has been written.
    pub closed spec fn spec_finished(&self) -> bool {
        self.finished
    }

    fn fresh_freqs() -> (r: (Vec<usize>, Vec<usize>))
        ensures
            r.0@.len() == 286,
            r.1@.len() == 30,
            r.0@[256] == 1,
            forall|j: int| 0 <= j < 286 && j != 256 ==> #[trigger] r.0@[j] == 0,
            forall|j: int| 0 <= j < 30 ==> #[trigger] r.1@[j] == 0,
    {
        let mut symbol_freq = vec![0usize; 286];
        symbol_freq.set(256, 1);
        (symbol_freq, vec![0usize; 30])
    }

    /// Starts a new block.
    fn init_block(&mut self)
        requires
            old(self).len_tab.wf(),
        ensures
            final(self).block_buf@.len() == 0,
            final(self).symbol_freq@.len() == 286,
            final(self).offset_freq@.len() == 30,
            final(self).symbol_freq@[256] == 1,
            forall|j: int| 0 <= j < 286 && j != 256 ==> #[trigger] final(self).symbol_freq@[j] == 0,
            forall|j: int| 0 <= j < 30 ==> #[trigger] final(self).offset_freq@[j] == 0,
            final(self).len_tab == old(self).len_tab,
            final(self).offset_tab == old(self).offset_tab,
            final(self).nocomp_buf == old(self).nocomp_buf,
            final(self).decompress_len == old(self).decompress_len,
            final(self).finished == old(self).finished,
    {
        self.block_buf = Vec::new();
        let (a, b) = Self::fresh_freqs();
        self.symbol_freq = a;
        self.offset_freq = b;
    }

    pub fn new() -> (r: Self)
        ensures
            r.wf(),
            !r.spec_finished(),
            r.spec_history() == Seq::<u8>::empty(),
            r.spec_decompress_len() == 0,
            r.spec_block_len() == 0,
    {
        let (symbol_freq, offset_freq) = Self::fresh_freqs();
        let nocomp_buf = CircularBuffer::new(0xFFFF);
        assert(nocomp_buf.history() =~= Seq::<u8>::empty());
        Self {
            len_tab: gen_len_tab(),
            offset_tab: gen_off_tab(),
            symbol_freq,
            block_buf: Vec::new(),
            offset_freq,
            decompress_len: 0,
            nocomp_buf,
            finished: false,
        }
    }

    /// A block builder whose stored-block window already holds `dict`.
    pub fn with_dict(dict: &[u8]) -> (r: Self)
        requires
            dict@.len() <= 2 * 0xFFFF,
        ensures
            r.wf(),
            !r.spec_finished(),
            r.spec_history() == push_all(Seq::<u8>::empty(), dict@, 0xFFFF),
            r.spec_decompress_len() == 0,
            r.spec_block_len() == 0,
    {
        let (symbol_freq, offset_freq) = Self::fresh_freqs();
        let mut nocomp_buf = CircularBuffer::new(0xFFFF);
        assert(nocomp_buf.history() =~= Seq::<u8>::empty());
        nocomp_buf.append(dict);
        Self {
            len_tab: gen_len_tab(),
            offset_tab: gen_off_tab(),
            symbol_freq,
            block_buf: Vec::new(),
            offset_freq,
            decompress_len: 0,
            nocomp_buf,
            finished: false,
        }
    }
}

/// The code lengths after one item of a run-length coded list: a length
/// below 16 as itself; 16 repeats the last length 3 more times than its
/// extra value; 17 and 18 give 3 and 11 zeros more than theirs.
pub open spec fn rle_item(o: Seq<u8>, item: (u8, u16)) -> Option<Seq<u8>> {
    let (s, e) = item;
    if s < 16 {
        Some(o.push(s))
    } else if s == 16 {
        if o.len() == 0 {
            None
        } else {
            Some(o + Seq::new((e + 3) as nat, |i: int| o.last()))
        }
    } else if s == 17 {
        Some(o + Seq::new((e + 3) as nat, |i: int| 0u8))
    } else if s == 18 {
        Some(o + Seq::new((e + 11) as nat, |i: int| 0u8))
    } else {
        None
    }
}

/// The code lengths that a run-length coded list stands for.
pub open spec fn rle_expand(list: Seq<(u8, u16)>) -> Option<Seq<u8>>
    decreases list.len(),
{
    if list.len() == 0 {
        Some(Seq::empty())
    } else {
        match rle_expand(list.drop_last()) {
            Some(o) => rle_item(o, list.last()),
            None => None,
        }
    }
}

/// An item as DEFLATE allows it: the extra value fits its bits.
pub open spec fn rle_item_ok(item: (u8, u16)) -> bool {
    let (s, e) = item;
    &&& s <= 18
    &&& s < 16 ==> e == 0
    &&& s == 16 ==> e <= 3
    &&& s == 17 ==> e <= 7
    &&& s == 18 ==> e <= 127
}

/// How many items of `list` have the symbol `k`.
pub open spec fn count_sym(list: Seq<(u8, u16)>, k: int) -> nat
    decreases list.len(),
{
    if list.len() == 0 {
        0
    } else {
        count_sym(list.drop_last(), k) + if list.last().0 == k { 1nat } else { 0nat }
    }
}

proof fn lemma_rle_push(list: Seq<(u8, u16)>, item: (u8, u16), k: int)
    ensures
        rle_expand(list.push(item)) == (match rle_expand(list) {
            Some(o) => rle_item(o, item),
            None => None,
        }),
        count_sym(list.push(item), k) == count_sym(list, k) + if item.0 == k { 1nat } else { 0nat },
{
    assert(list.push(item).drop_last() =~= list);
}

/// The state of the run-length coder over `tab`: `i` lengths seen, the
/// last `len` of them (all equal to `prev`) not coded yet.
spec fn rle_state(tab: Seq<u8>, i: int, prev: u8, len: int, list: Seq<(u8, u16)>) -> bool {
    &&& 0 <= len <= i <= tab.len()
    &&& i == 0 ==> prev == 255 && len == 0
    &&& i > 0 ==> prev == tab[i - 1]
    &&& forall|j: int| i - len <= j < i ==> tab[j] == prev
    &&& rle_expand(list) == Some(tab.take(i - len))
    &&& i > 0 && prev != 0 ==> i - len >= 1 && tab[i - len - 1] == prev
    &&& prev != 0 ==> len < 6
    &&& prev == 0 ==> len < 138
    &&& forall|q: int| 0 <= q < list.len() ==> #[trigger] rle_item_ok(list[q])
}

proof fn lemma_count_le(list: Seq<(u8, u16)>, k: int)
    ensures
        count_sym(list, k) <= list.len(),
    decreases list.len(),
{
    if list.len() > 0 {
        lemma_count_le(list.drop_last(), k);
    }
}

proof fn lemma_rle_len(list: Seq<(u8, u16)>)
    requires
        rle_expand(list) is Some,
    ensures
        list.len() <= rle_expand(list)->0.len(),
    decreases list.len(),
{
    if list.len() > 0 {
        lemma_rle_len(list.drop_last());
    }
}

impl InflaterInner {
    /// Appends `count` items `(x, 0)`.
    fn push_literals(list: &mut Vec<(u8, u16)>, freq: &mut Vec<u16>, x: u8, count: u16)
        requires
            x < 16,
            old(freq)@.len() == 19,
            old(freq)@[x as int] + count <= u16::MAX,
        ensures
            final(freq)@.len() == 19,
            final(list)@ == old(list)@ + Seq::new(count as nat, |i: int| (x, 0u16)),
            final(freq)@ == old(freq)@.update(x as int, (old(freq)@[x as int] + count) as u16),
            forall|k: int| #[trigger] count_sym(final(list)@, k) == count_sym(old(list)@, k) + if k == x { count as nat } else { 0nat },
            rle_expand(old(list)@) matches Some(o) ==> rle_expand(final(list)@) == Some(o + Seq::new(count as nat, |i: int| x)),
    {
        let mut c: u16 = 0;
        while c < count
            invariant
                c <= count,
                x < 16,
                freq@.len() == 19,
                old(freq)@[x as int] + count <= u16::MAX,
                list@ == old(list)@ + Seq::new(c as nat, |i: int| (x, 0u16)),
                freq@[x as int] == old(freq)@[x as int] + c,
                forall|j: int| 0 <= j < 19 && j != x ==> #[trigger] freq@[j] == old(freq)@[j],
                forall|k: int| #[trigger] count_sym(list@, k) == count_sym(old(list)@, k) + if k == x { c as nat } else { 0nat },
                rle_expand(old(list)@) matches Some(o) ==> rle_expand(list@) == Some(o + Seq::new(c as nat, |i: int| x)),
            decreases count - c,
        {
            let ghost before = list@;
            list.push((x, 0));
            let f = freq[x as usize];
            freq.set(x as usize, f + 1);
            proof {
                assert forall|k: int| #[trigger] count_sym(list@, k) == count_sym(old(list)@, k) + if k == x { (c + 1) as nat } else { 0nat } by {
                    lemma_rle_push(before, (x, 0u16), k);
                }
                lemma_rle_push(before, (x, 0u16), 0);
                if let Some(o) = rle_expand(old(list)@) {
                    assert(o + Seq::new(c as nat, |i: int| x) + seq![x] =~= o + Seq::new((c + 1) as nat, |i: int| x));
                    assert((o + Seq::new(c as nat, |i: int| x)).push(x) =~= o + Seq::new((c + 1) as nat, |i: int| x));
                }
            }
            c = c + 1;
            assert(list@ =~= old(list)@ + Seq::new(c as nat, |i: int| (x, 0u16)));
        }
        assert(freq@ =~= old(freq)@.update(x as int, (old(freq)@[x as int] + count) as u16));
    }
}

impl InflaterInner {
    /// Appends one item.
    fn push_item(list: &mut Vec<(u8, u16)>, freq: &mut Vec<u16>, item: (u8, u16))
        requires
            old(freq)@.len() == 19,
            item.0 < 19,
            old(freq)@[item.0 as int] < u16::MAX,
        ensures
            final(freq)@.len() == 19,
            final(list)@ == old(list)@.push(item),
            final(freq)@ == old(freq)@.update(item.0 as int, (old(freq)@[item.0 as int] + 1) as u16),
            forall|k: int| #[trigger] count_sym(final(list)@, k) == count_sym(old(list)@, k) + if k == item.0 { 1nat } else { 0nat },
            rle_expand(final(list)@) == (match rle_expand(old(list)@) {
                Some(o) => rle_item(o, item),
                None => None,
            }),
    {
        let ghost before = list@;
        list.push(item);
        let f = freq[item.0 as usize];
        freq.set(item.0 as usize, f + 1);
        proof {
            assert forall|k: int| #[trigger] count_sym(list@, k) == count_sym(before, k) + if k == item.0 { 1nat } else { 0nat } by {
                lemma_rle_push(before, item, k);
            }
            lemma_rle_push(before, item, 0);
        }
    }

    /// Codes a pending run of `len` lengths `prev`.
    fn flush_run(list: &mut Vec<(u8, u16)>, freq: &mut Vec<u16>, prev: u8, len: u16)
        requires
            old(freq)@.len() == 19,
            rle_expand(old(list)@) is Some,
            prev == 255 ==> len == 0,
            prev != 255 ==> prev < 16,
            prev == 0 ==> len < 138,
            prev != 0 ==> len < 6,
            prev != 0 && len >= 3 ==> rle_expand(old(list)@)->0.len() >= 1 && rle_expand(old(list)@)->0.last() == prev,
            forall|k: int| 0 <= k < 19 ==> #[trigger] old(freq)@[k] == count_sym(old(list)@, k),
            old(list)@.len() + len + 1 < u16::MAX,
            forall|q: int| 0 <= q < old(list)@.len() ==> #[trigger] rle_item_ok(old(list)@[q]),
        ensures
            final(freq)@.len() == 19,
            rle_expand(final(list)@) == Some(rle_expand(old(list)@)->0 + Seq::new(len as nat, |j: int| prev)),
            forall|k: int| 0 <= k < 19 ==> #[trigger] final(freq)@[k] == count_sym(final(list)@, k),
            forall|q: int| 0 <= q < final(list)@.len() ==> #[trigger] rle_item_ok(final(list)@[q]),
            final(list)@.len() <= old(list)@.len() + len,
    {
        let ghost o = rle_expand(list@)->0;
        let ghost l0 = list@;
        proof {
            lemma_count_le(l0, prev as int);
            lemma_count_le(l0, 16);
            lemma_count_le(l0, 17);
            lemma_count_le(l0, 18);
        }
        if prev == 0 {
            if len >= 11 {
                Self::push_item(list, freq, (18, len - 11));
                assert(Seq::new((len - 11 + 11) as nat, |j: int| 0u8) =~= Seq::new(len as nat, |j: int| prev));
            } else if len >= 3 {
                Self::push_item(list, freq, (17, len - 3));
                assert(Seq::new((len - 3 + 3) as nat, |j: int| 0u8) =~= Seq::new(len as nat, |j: int| prev));
            } else {
                Self::push_literals(list, freq, 0, len);
            }
        } else if len >= 3 {
            Self::push_item(list, freq, (16, len - 3));
            assert(Seq::new((len - 3 + 3) as nat, |j: int| o.last()) =~= Seq::new(len as nat, |j: int| prev));
        } else if len > 0 {
            Self::push_literals(list, freq, prev, len);
        } else {
            assert(o + Seq::new(len as nat, |j: int| prev) =~= o);
        }
        proof {
            assert forall|q: int| 0 <= q < list@.len() implies #[trigger] rle_item_ok(list@[q]) by {
                if q < l0.len() {
                    assert(list@[q] == l0[q]);
                }
            }
        }
    }

    /// Run-length codes a list of code lengths as a dynamic block header
    /// does, and counts how often each of the 19 symbols is used.
    pub fn enc_tab_to_freq(enc_tab: &[u8]) -> (r: (Vec<(u8, u16)>, Vec<u16>))
        requires
            enc_tab@.len() <= 0x8000,
            forall|j: int| 0 <= j < enc_tab@.len() ==> #[trigger] enc_tab@[j] < 16,
        ensures
            rle_expand(r.0@) == Some(enc_tab@),
            r.0@.len() <= enc_tab@.len(),
            forall|q: int| 0 <= q < r.0@.len() ==> #[trigger] rle_item_ok(r.0@[q]),
            r.1@.len() == 19,
            forall|k: int| 0 <= k < 19 ==> #[trigger] r.1@[k] == count_sym(r.0@, k),
    {
        let ghost tab = enc_tab@;
        let n = enc_tab.len();
        let mut freq: Vec<u16> = vec![0u16; 19];
        let mut list: Vec<(u8, u16)> = Vec::new();
        let mut prev: u8 = 255;
        let mut len: u16 = 0;
        let mut i: usize = 0;
        assert(tab.take(0) =~= Seq::<u8>::empty());
        while i < n
            invariant
                n == tab.len(),
                tab == enc_tab@,
                n <= 0x8000,
                forall|j: int| 0 <= j < n ==> #[trigger] tab[j] < 16,
                rle_state(tab, i as int, prev, len as int, list@),
                freq@.len() == 19,
                forall|k: int| 0 <= k < 19 ==> #[trigger] freq@[k] == count_sym(list@, k),
            decreases n - i,
        {
            let d = enc_tab[i];
            proof {
                lemma_rle_len(list@);
            }
            if prev != d {
                Self::flush_run(&mut list, &mut freq, prev, len);
                assert(tab.take(i - len) + Seq::new(len as nat, |j: int| prev) =~= tab.take(i as int));
                if d != 0 {
                    let ghost l1 = list@;
                    proof {
                        lemma_count_le(l1, d as int);
                    }
                    Self::push_item(&mut list, &mut freq, (d, 0));
                    assert(tab.take(i as int).push(d) =~= tab.take(i + 1));
                    proof {
                        assert forall|q: int| 0 <= q < list@.len() implies #[trigger] rle_item_ok(list@[q]) by {
                            if q < l1.len() {
                                assert(list@[q] == l1[q]);
                            }
                        }
                    }
                    len = 0;
                } else {
                    len = 1;
                }
                prev = d;
            } else {
                len = len + 1;
                let ghost l1 = list@;
                proof {
                    lemma_count_le(l1, 16);
                    lemma_count_le(l1, 18);
                }
                if prev == 0 && len == 138 {
                    Self::push_item(&mut list, &mut freq, (18, 127));
                    assert(tab.take(i + 1 - 138) + Seq::new(138, |j: int| 0u8) =~= tab.take(i + 1));
                    len = 0;
                } else if prev != 0 && len == 6 {
                    Self::push_item(&mut list, &mut freq, (16, 3));
                    let ghost o = tab.take(i + 1 - 6);
                    assert(o.last() == prev);
                    assert(o + Seq::new(6, |j: int| o.last()) =~= tab.take(i + 1));
                    len = 0;
                }
                proof {
                    assert forall|q: int| 0 <= q < list@.len() implies #[trigger] rle_item_ok(list@[q]) by {
                        if q < l1.len() {
                            assert(list@[q] == l1[q]);
                        }
                    }
                }
            }
            i = i + 1;
        }
        proof {
            lemma_rle_len(list@);
        }
        Self::flush_run(&mut list, &mut freq, prev, len);
        assert(tab.take(n - len) + Seq::new(len as nat, |j: int| prev) =~= tab);
        proof {
            lemma_rle_len(list@);
        }
        (list, freq)
    }
}

/// `data` as a run of `len` bits, if no bit of it lies at or above `len`.
pub(crate) fn run_of(data: u32, len: usize) -> (r: Result<BitVector, CompressionError>)
    ensures
        r matches Ok(b) ==> b.spec_data() == data && b.spec_len() == len && len <= 32 && fits(data, len as nat),
        r is Err ==> r == Err::<BitVector, CompressionError>(CompressionError::Unexpected),
        len == 32 || (len < 32 && data < pow2(len as nat)) ==> r is Ok,
{
    proof {
        if len < 32 && data < pow2(len as nat) {
            vstd::bits::lemma_u32_shr_is_div(data, len as u32);
            vstd::arithmetic::power2::lemma_pow2_pos(len as nat);
            vstd::arithmetic::div_mod::lemma_basic_div(data as int, pow2(len as nat) as int);
        }
    }
    if len == 32 || (len < 32 && data >> (len as u32) == 0) {
        proof {
            assert forall|i: int| len <= i < 32 implies !#[trigger] bit32(data, i) by {
                let iu = i as u32;
                let lu = len as u32;
                assert((data >> iu) & 1 != 1) by (bit_vector)
                    requires
                        lu <= iu,
                        iu < 32,
                        lu < 32 ==> data >> lu == 0,
                ;
            }
        }
        Ok(BitVector::new(data, len))
    } else {
        Err(CompressionError::Unexpected)
    }
}

/// Every run of `v` is at most 32 bits long and has no bit above its length.
pub open spec fn runs_ok(v: Seq<BitVector>) -> bool {
    forall|q: int| 0 <= q < v.len() ==> #[trigger] v[q].spec_len() <= 32 && fits(v[q].spec_data(), v[q].spec_len() as nat)
}

/// Appends the run `b`; what was written stays a prefix.
fn emit(w: &mut RightBitWriter, b: &BitVector)
    requires
        old(w).attached(),
        b.spec_len() <= 32,
        fits(b.spec_data(), b.spec_len() as nat),
    ensures
        final(w).attached(),
        final(w).bits() == old(w).bits() + bits_lsb(b.spec_data(), b.spec_len() as nat),
        forall|p: Seq<bool>| p.is_prefix_of(old(w).bits()) ==> #[trigger] p.is_prefix_of(final(w).bits()),
{
    w.write(b);
    proof {
        assert forall|p: Seq<bool>| p.is_prefix_of(old(w).bits()) implies #[trigger] p.is_prefix_of(w.bits()) by {
            assert(p =~= w.bits().subrange(0, p.len() as int));
        }
    }
}

/// Appends the low `len` bits of `data`; fails if `data` has bits above them.
fn emit_run(w: &mut RightBitWriter, data: u32, len: usize) -> (r: Result<(), CompressionError>)
    requires
        old(w).attached(),
    ensures
        final(w).attached(),
        r is Ok ==> final(w).bits() == old(w).bits() + bits_lsb(data, len as nat),
        r is Err ==> *final(w) == *old(w),
        len == 32 || (len < 32 && data < pow2(len as nat)) ==> r is Ok,
        forall|p: Seq<bool>| p.is_prefix_of(old(w).bits()) ==> #[trigger] p.is_prefix_of(final(w).bits()),
{
    match run_of(data, len) {
        Ok(b) => {
            emit(w, &b);
            Ok(())
        },
        Err(e) => Err(e),
    }
}

/// Pads to a byte boundary; what was written stays a prefix.
fn emit_flush(w: &mut RightBitWriter)
    requires
        old(w).attached(),
    ensures
        final(w).attached(),
        final(w).pending().len() == 0,
        final(w).bits() == old(w).bits() + zeros(pad_len(old(w).bits().len())),
        forall|p: Seq<bool>| p.is_prefix_of(old(w).bits()) ==> #[trigger] p.is_prefix_of(final(w).bits()),
{
    proof {
        let a = old(w).written().len();
        let q = old(w).pending().len();
        assert(old(w).bits().len() == 8 * a + q);
        assert((8 * a + q) % 8 == q % 8) by (nonlinear_arith);
    }
    w.flush();
    proof {
        assert forall|p: Seq<bool>| p.is_prefix_of(old(w).bits()) implies #[trigger] p.is_prefix_of(w.bits()) by {
            assert(p =~= w.bits().subrange(0, p.len() as int));
        }
    }
}

/// The bit-reversed canonical codes of a set of code lengths, ready to be
/// written least significant bit first.
struct CodeBook {
    tab: Vec<Option<BitVector>>,
}

impl CodeBook {
    spec fn ok(&self) -> bool {
        forall|t: int|
            0 <= t < self.tab@.len() && #[trigger] self.tab@[t] is Some ==> self.tab@[t]->0.spec_len() <= 32
                && fits(self.tab@[t]->0.spec_data(), self.tab@[t]->0.spec_len() as nat)
    }

    /// The codes of `lens`, if they make a prefix code.
    fn new(lens: &[u8]) -> (r: Option<CodeBook>)
        requires
            lens@.len() <= 0x10000,
        ensures
            r matches Some(b) ==> b.ok(),
    {
        if !lengths_make_code(lens) {
            return None;
        }
        let tab = creat_huffman_table(lens, true);
        proof {
            lemma_last_coded(lens@, lens@.len() as int);
            assert forall|t: int| 0 <= t < tab@.len() && #[trigger] tab@[t] is Some implies tab@[t]->0.spec_len() <= 32
                && fits(tab@[t]->0.spec_data(), tab@[t]->0.spec_len() as nat) by {
                assert(table_entry(lens@, true, t, tab@[t]));
                lemma_reversed_bits(canonical_code(lens@, t) as u32, tab@[t]->0.spec_data(), lens@[t] as nat);
            }
        }
        Some(CodeBook { tab })
    }

    /// The code of symbol `s`; fails if it has none.
    fn code(&self, s: usize) -> (r: Result<BitVector, CompressionError>)
        requires
            self.ok(),
        ensures
            r matches Ok(b) ==> b.spec_len() <= 32 && fits(b.spec_data(), b.spec_len() as nat),
    {
        if s < self.tab.len() {
            match self.tab[s] {
                Some(b) => Ok(b),
                None => Err(CompressionError::Unexpected),
            }
        } else {
            Err(CompressionError::Unexpected)
        }
    }

    /// Writes the code of symbol `s`.
    fn put(&self, w: &mut RightBitWriter, s: usize) -> (r: Result<(), CompressionError>)
        requires
            self.ok(),
            old(w).attached(),
        ensures
            final(w).attached(),
            forall|p: Seq<bool>| p.is_prefix_of(old(w).bits()) ==> #[trigger] p.is_prefix_of(final(w).bits()),
    {
        let b = self.code(s)?;
        emit(w, &b);
        Ok(())
    }
}

/// Whether every length in `t` is below 16.
fn all_below_16(t: &[u8]) -> (r: bool)
    ensures
        r <==> forall|j: int| 0 <= j < t@.len() ==> #[trigger] t@[j] < 16,
{
    let mut i: usize = 0;
    while i < t.len()
        invariant
            i <= t@.len(),
            forall|j: int| 0 <= j < i ==> #[trigger] t@[j] < 16,
        decreases t@.len() - i,
    {
        if t[i] >= 16 {
            return false;
        }
        i = i + 1;
    }
    true
}

/// The index of the last nonzero entry of `t`.
fn last_nonzero(t: &[u8]) -> (r: Option<usize>)
    ensures
        r matches Some(i) ==> i < t@.len() && t@[i as int] != 0 && forall|j: int| i < j < t@.len() ==> #[trigger] t@[j] == 0,
        r is None ==> forall|j: int| 0 <= j < t@.len() ==> #[trigger] t@[j] == 0,
{
    let mut i: usize = t.len();
    while i > 0
        invariant
            i <= t@.len(),
            forall|j: int| i <= j < t@.len() ==> #[trigger] t@[j] == 0,
        decreases i,
    {
        if t[i - 1] != 0 {
            return Some(i - 1);
        }
        i = i - 1;
    }
    None
}

/// The bits a block of symbols costs with code lengths `lens`: each
/// symbol's count times its code length plus the extra bits of its length
/// code (symbols from 257 on).
pub open spec fn sym_cost(freq: Seq<usize>, lens: Seq<u8>, n: int) -> int
    decreases n,
{
    if n <= 0 {
        0
    } else {
        sym_cost(freq, lens, n - 1) + freq[n - 1] * (lens[n - 1] + if n - 1 >= 257 {
            len_ext_bits(n - 1 - 257)
        } else {
            0
        })
    }
}

/// The bits the distances of a block cost with code lengths `lens`.
pub open spec fn off_cost(freq: Seq<usize>, lens: Seq<u8>, n: int) -> int
    decreases n,
{
    if n <= 0 {
        0
    } else {
        off_cost(freq, lens, n - 1) + freq[n - 1] * (lens[n - 1] + off_ext_bits(n - 1))
    }
}

impl InflaterInner {
    /// The symbol counts of the block.
    pub closed spec fn spec_symbol_freq(&self) -> Seq<usize> {
        self.symbol_freq@
    }

    /// The distance code counts of the block.
    pub closed spec fn spec_offset_freq(&self) -> Seq<usize> {
        self.offset_freq@
    }

    /// The bits the codes of the block take with the given code lengths,
    /// extra bits included, header and end code not.
    pub fn cals_comp_len(&self, sym_enc_tab: &[u8], off_enc_tab: &[u8]) -> (r: u64)
        requires
            self.wf(),
        ensures
            r == sym_cost(self.spec_symbol_freq(), sym_enc_tab@, if sym_enc_tab@.len() < 286 {
                sym_enc_tab@.len() as int
            } else {
                286
            }) + off_cost(self.spec_offset_freq(), off_enc_tab@, if off_enc_tab@.len() < 30 {
                off_enc_tab@.len() as int
            } else {
                30
            }),
            r <= 0x3_0000_0000,
    {
        let n = if sym_enc_tab.len() < 286 { sym_enc_tab.len() } else { 286 };
        let mut sum: u64 = 0;
        let mut i: usize = 0;
        while i < n
            invariant
                self.wf(),
                n <= 286,
                n <= sym_enc_tab@.len(),
                i <= n,
                sum == sym_cost(self.symbol_freq@, sym_enc_tab@, i as int),
                sum <= i * 0x200_0000,
            decreases n - i,
        {
            let e: u64 = if i >= 257 { self.len_tab.ext_bits(i - 257) as u64 } else { 0 };
            let f = self.symbol_freq[i] as u64;
            let l = sym_enc_tab[i] as u64;
            assert(f * (l + e) <= 0x200_0000) by (nonlinear_arith)
                requires
                    f <= 0x10000,
                    l <= 255,
                    e <= 16,
            ;
            sum = sum + f * (l + e);
            i = i + 1;
        }
        let m = if off_enc_tab.len() < 30 { off_enc_tab.len() } else { 30 };
        let mut osum: u64 = 0;
        let mut i: usize = 0;
        while i < m
            invariant
                self.wf(),
                m <= 30,
                m <= off_enc_tab@.len(),
                i <= m,
                osum == off_cost(self.offset_freq@, off_enc_tab@, i as int),
                osum <= i * 0x200_0000,
                sum <= 286 * 0x200_0000,
            decreases m - i,
        {
            let e = self.offset_tab.ext_bits(i) as u64;
            let f = self.offset_freq[i] as u64;
            let l = off_enc_tab[i] as u64;
            assert(f * (l + e) <= 0x200_0000) by (nonlinear_arith)
                requires
                    f <= 0x10000,
                    l <= 255,
                    e <= 16,
            ;
            osum = osum + f * (l + e);
            i = i + 1;
        }
        sum + osum
    }

    /// Appends the codes of `list` under `book`, each with its extra bits.
    fn conv_tab(list: &[(u8, u16)], book: &CodeBook, out: &mut Vec<BitVector>) -> (r: Result<(), CompressionError>)
        requires
            book.ok(),
            runs_ok(old(out)@),
        ensures
            runs_ok(final(out)@),
            final(out)@.len() <= old(out)@.len() + 2 * list@.len(),
            final(out)@.len() >= old(out)@.len(),
            forall|i: int| 0 <= i < old(out)@.len() ==> #[trigger] final(out)@[i] == old(out)@[i],
    {
        let mut k: usize = 0;
        while k < list.len()
            invariant
                book.ok(),
                runs_ok(out@),
                k <= list@.len(),
                out@.len() <= old(out)@.len() + 2 * k,
                out@.len() >= old(out)@.len(),
                forall|i: int| 0 <= i < old(out)@.len() ==> #[trigger] out@[i] == old(out)@[i],
            decreases list@.len() - k,
        {
            let (s, e) = list[k];
            let b = book.code(s as usize)?;
            out.push(b);
            let extra: usize = if s == 16 { 2 } else if s == 17 { 3 } else if s == 18 { 7 } else { 0 };
            if extra != 0 {
                let x = run_of(e as u32, extra)?;
                out.push(x);
            }
            k = k + 1;
        }
        Ok(())
    }

    /// The header of a block with its own codes: block type, the code
    /// counts, the lengths of the code-length code, and the run-length
    /// coded lengths of both codes.
    fn create_custom_huffman_table(sym_enc_tab: &[u8], off_enc_tab: &[u8]) -> (r: Result<
        Vec<BitVector>,
        CompressionError,
    >)
        requires
            sym_enc_tab@.len() <= 286,
            off_enc_tab@.len() <= 30,
        ensures
            r matches Ok(v) ==> runs_ok(v@) && v@.len() <= 1000,
            r matches Ok(v) ==> v@.len() >= 1 && v@[0].spec_data() == 2 && v@[0].spec_len() == 2,
    {
        if !all_below_16(sym_enc_tab) || !all_below_16(off_enc_tab) {
            return Err(CompressionError::Unexpected);
        }
        let (symlist, symfreq) = Self::enc_tab_to_freq(sym_enc_tab);
        let (offlist, offfreq) = Self::enc_tab_to_freq(off_enc_tab);
        let mut lenfreq: Vec<usize> = Vec::new();
        let mut k: usize = 0;
        while k < 19
            invariant
                k <= 19,
                lenfreq@.len() == k,
                symfreq@.len() == 19,
                offfreq@.len() == 19,
            decreases 19 - k,
        {
            lenfreq.push(symfreq[k] as usize + offfreq[k] as usize);
            k = k + 1;
        }
        proof {
            lemma_used_bound(lenfreq@, 19);
            vstd::arithmetic::power2::lemma2_to64();
        }
        let len_enc_tab = make_table(&lenfreq, 7);
        let len_map: [usize; 19] = [3, 17, 15, 13, 11, 9, 7, 5, 4, 6, 8, 10, 12, 14, 16, 18, 0, 1, 2];
        let mut len_tab: Vec<u8> = vec![0u8; 19];
        let mut len_count: usize = 3;
        let mut j: usize = 0;
        while j < len_enc_tab.len() && j < 19
            invariant
                len_tab@.len() == 19,
                3 <= len_count < 19,
                forall|q: int| 0 <= q < 19 ==> #[trigger] len_map@[q] < 19,
            decreases 19 - j,
        {
            let d = len_enc_tab[j];
            if d != 0 {
                let i = len_map[j];
                len_tab.set(i, d);
                if i > len_count {
                    len_count = i;
                }
            }
            j = j + 1;
        }
        let hlit = match last_nonzero(sym_enc_tab) {
            Some(i) if i >= 256 => i - 256,
            _ => return Err(CompressionError::Unexpected),
        };
        let hdist = match last_nonzero(off_enc_tab) {
            Some(i) => i,
            None => 0,
        };
        let hclen = len_count - 3;
        let mut ret: Vec<BitVector> = Vec::new();
        ret.push(run_of(2, 2)?);
        ret.push(run_of(hlit as u32, 5)?);
        ret.push(run_of(hdist as u32, 5)?);
        ret.push(run_of(hclen as u32, 4)?);
        let mut k: usize = 0;
        while k <= len_count
            invariant
                len_tab@.len() == 19,
                len_count < 19,
                k <= len_count + 1,
                runs_ok(ret@),
                ret@.len() == 4 + k,
                ret@[0].spec_data() == 2 && ret@[0].spec_len() == 2,
            decreases len_count + 1 - k,
        {
            let b = run_of(len_tab[k] as u32, 3)?;
            ret.push(b);
            k = k + 1;
        }
        let book = match CodeBook::new(&len_enc_tab) {
            Some(b) => b,
            None => return Err(CompressionError::Unexpected),
        };
        Self::conv_tab(&symlist, &book, &mut ret)?;
        Self::conv_tab(&offlist, &book, &mut ret)?;
        Ok(ret)
    }
}

/// The bits of `bs`, each byte least significant bit first.
pub open spec fn lsb_bytes(bs: Seq<u8>) -> Seq<bool>
    decreases bs.len(),
{
    if bs.len() == 0 {
        Seq::empty()
    } else {
        lsb_bytes(bs.drop_last()) + bits_lsb(bs.last() as u32, 8)
    }
}

/// The last `n` bytes of the history `h` (newest first), oldest first.
pub open spec fn stored_bytes(h: Seq<u8>, n: nat) -> Seq<u8> {
    Seq::new(n, |k: int| h[n - 1 - k])
}

/// A stored block of the last `n` bytes of the history `h`, written after
/// `start` bits: the final flag, block type 0, the padding to a byte
/// boundary, the length and its complement, then the bytes.
pub open spec fn stored_block_bits(start: nat, is_final: bool, n: nat, h: Seq<u8>) -> Seq<bool> {
    bits_lsb(if is_final { 1u32 } else { 0u32 }, 1) + bits_lsb(0, 2) + zeros(pad_len(start + 3)) + bits_lsb(
        n as u32,
        16,
    ) + bits_lsb(((n as u16) ^ 0xFFFFu16) as u32, 16) + lsb_bytes(stored_bytes(h, n))
}

/// Pushes one byte.
fn push_byte(buf: &mut CircularBuffer<u8>, d: u8)
    requires
        old(buf).wf(),
        old(buf).spec_cap() == 0xFFFF,
    ensures
        final(buf).wf(),
        final(buf).spec_cap() == 0xFFFF,
        final(buf).spec_len() >= old(buf).spec_len(),
        final(buf).spec_len() >= if old(buf).spec_len() + 1 < 0xFFFF { old(buf).spec_len() + 1 } else { 0xFFFF },
{
    proof {
        buf.lemma_len_le_cap();
    }
    let ghost h0 = buf.history();
    buf.push(d);
    proof {
        assert(buf.history().len() == buf.spec_len());
        assert(h0.len() == old(buf).spec_len());
        assert((seq![d] + h0).len() == h0.len() + 1);
    }
}

/// Pushes, `len` times, the byte `pos` pushes back.
fn copy_back(buf: &mut CircularBuffer<u8>, pos: usize, len: usize)
    requires
        old(buf).wf(),
        old(buf).spec_cap() == 0xFFFF,
        pos < old(buf).spec_len(),
    ensures
        final(buf).wf(),
        final(buf).spec_cap() == 0xFFFF,
        final(buf).spec_len() >= if old(buf).spec_len() + len < 0xFFFF { old(buf).spec_len() + len } else { 0xFFFF },
{
    let mut c: usize = 0;
    while c < len
        invariant
            buf.wf(),
            buf.spec_cap() == 0xFFFF,
            pos < buf.spec_len(),
            c <= len,
            buf.spec_len() >= if old(buf).spec_len() + c < 0xFFFF { old(buf).spec_len() + c } else { 0xFFFF },
        decreases len - c,
    {
        proof {
            buf.lemma_len_le_cap();
        }
        let d = *buf.get(pos);
        push_byte(buf, d);
        c = c + 1;
    }
}

/// An entry of a prefix is the entry of the whole.
proof fn lemma_prefix_at(p: Seq<bool>, q: Seq<bool>, i: int)
    requires
        p.is_prefix_of(q),
        0 <= i < p.len(),
    ensures
        q[i] == p[i],
{
    assert(p[i] == q.subrange(0, p.len() as int)[i]);
}

impl InflaterInner {
    /// How many codes the open block holds.
    pub closed spec fn spec_block_len(&self) -> nat {
        self.block_buf@.len()
    }

    /// How many bytes the open block stands for.
    pub closed spec fn spec_decompress_len(&self) -> nat {
        self.decompress_len as nat
    }

    /// The bytes the encoder has seen, newest first, as far back as a
    /// stored block may need.
    pub closed spec fn spec_history(&self) -> Seq<u8> {
        self.nocomp_buf.history()
    }

    /// Writes the open block, final if `is_final`, in whichever form is
    /// shortest: stored (preferred on ties), fixed codes (preferred over
    /// own codes on ties), or its own codes; then opens a new block.
    #[verifier::rlimit(80)]
    pub fn write_block(&mut self, is_final: bool, w: &mut RightBitWriter) -> (r: Result<(), CompressionError>)
        requires
            old(self).wf(),
            old(w).attached(),
        ensures
            final(self).wf(),
            final(w).attached(),
            forall|p: Seq<bool>| p.is_prefix_of(old(w).bits()) ==> #[trigger] p.is_prefix_of(final(w).bits()),
            final(self).spec_finished() == (old(self).spec_finished() || is_final),
            final(self).spec_decompress_len() == old(self).spec_decompress_len(),
            final(self).spec_history() == old(self).spec_history(),
            r is Ok ==> final(self).spec_block_len() == 0,
            r is Ok ==> final(w).bits().len() > old(w).bits().len() && final(w).bits()[old(w).bits().len() as int] == is_final,
            r is Ok ==> {
                let b0 = old(w).bits();
                let f = bits_lsb(if is_final { 1u32 } else { 0u32 }, 1);
                ||| final(w).bits() == b0 + stored_block_bits(
                    b0.len(),
                    is_final,
                    old(self).spec_decompress_len(),
                    old(self).spec_history(),
                )
                ||| (b0 + f + bits_lsb(1, 2)).is_prefix_of(final(w).bits())
                ||| (b0 + f + bits_lsb(2, 2)).is_prefix_of(final(w).bits())
            },
    {
        if is_final {
            self.finished = true;
        }
        let ghost b0 = w.bits();
        emit_run(w, if is_final { 1 } else { 0 }, 1)?;
        let ghost p1 = w.bits();
        let ghost h = self.nocomp_buf.history();
        let ghost mut tagp: Seq<bool> = Seq::empty();
        assert(p1 == b0 + bits_lsb(if is_final { 1u32 } else { 0u32 }, 1));
        proof {
            crate::deflate::decoder::lemma_small_bits(1, 0);
            crate::deflate::decoder::lemma_small_bits(0, 0);
            assert(bit32(1u32, 0) && !bit32(0u32, 0));
            assert(p1[b0.len() as int] == is_final);
            assert(p1.is_prefix_of(p1)) by {
                assert(p1 =~= p1.subrange(0, p1.len() as int));
            }
            assert(b0.is_prefix_of(p1)) by {
                assert(b0 =~= p1.subrange(0, b0.len() as int));
            }
        }
        proof {
            lemma_used_bound(self.symbol_freq@, 286);
            lemma_used_bound(self.offset_freq@, 30);
            vstd::arithmetic::power2::lemma2_to64();
        }
        let sym_enc_tab = make_table(&self.symbol_freq, 15);
        let off_enc_tab = make_table(&self.offset_freq, 15);
        let header = Self::create_custom_huffman_table(&sym_enc_tab, &off_enc_tab)?;
        let mut hsize: u64 = 0;
        let mut k: usize = 0;
        while k < header.len()
            invariant
                runs_ok(header@),
                header@.len() <= 1000,
                k <= header@.len(),
                hsize <= 32 * k,
            decreases header@.len() - k,
        {
            hsize = hsize + header[k].len() as u64;
            k = k + 1;
        }
        let custom_size = self.cals_comp_len(&sym_enc_tab, &off_enc_tab) + hsize;
        let fix_sym_enc_tab = fix_symbol_table();
        let fix_off_enc_tab = fix_offset_table();
        let fixed_size = self.cals_comp_len(&fix_sym_enc_tab, &fix_off_enc_tab) + 2;
        let original_size = (self.decompress_len as u64) * 8 + 2 + 16 + 16;
        if original_size <= custom_size && original_size <= fixed_size {
            emit_run(w, 0, 2)?;
            emit_flush(w);
            let n = self.decompress_len;
            emit_run(w, n as u32, 16)?;
            emit_run(w, ((n as u16) ^ 0xFFFF) as u32, 16)?;
            let ghost pst = w.bits();
            proof {
                assert(stored_bytes(h, n as nat).take(0) =~= Seq::<u8>::empty());
                assert(w.bits() =~= pst + lsb_bytes(stored_bytes(h, n as nat).take(0)));
            }
            let mut i: usize = 1;
            while i <= n
                invariant
                    w.bits() == pst + lsb_bytes(stored_bytes(h, n as nat).take(i - 1)),
                    h == self.nocomp_buf.history(),
                    self.wf(),
                    n == self.decompress_len,
                    1 <= i <= n + 1,
                    self.finished == (old(self).finished || is_final),
                    self.decompress_len == old(self).decompress_len,
                    self.nocomp_buf == old(self).nocomp_buf,
                    w.attached(),
                    forall|p: Seq<bool>| p.is_prefix_of(b0) ==> #[trigger] p.is_prefix_of(w.bits()),
                    b0 == old(w).bits(),
                    p1.is_prefix_of(w.bits()),
                    p1.len() == b0.len() + 1,
                    p1[b0.len() as int] == is_final,
                decreases n + 1 - i,
            {
                let d = *self.nocomp_buf.get(n - i);
                emit_run(w, d as u32, 8)?;
                proof {
                    let t = stored_bytes(h, n as nat);
                    assert(t.take(i as int).drop_last() =~= t.take(i - 1));
                    assert(t.take(i as int).last() == d);
                }
                i = i + 1;
            }
            proof {
                assert(stored_bytes(h, n as nat).take(n as int) =~= stored_bytes(h, n as nat));
                assert(w.bits() =~= b0 + stored_block_bits(b0.len(), is_final, n as nat, h));
            }
        } else {
            let (sym_book, off_book) = if fixed_size <= custom_size {
                emit_run(w, 1, 2)?;
                proof {
                    tagp = w.bits();
                    assert(tagp.is_prefix_of(w.bits())) by {
                        assert(tagp =~= w.bits().subrange(0, tagp.len() as int));
                    }
                }
                match (CodeBook::new(&fix_sym_enc_tab), CodeBook::new(&fix_off_enc_tab)) {
                    (Some(a), Some(b)) => (a, b),
                    _ => return Err(CompressionError::Unexpected),
                }
            } else {
                let mut k: usize = 0;
                while k < header.len()
                    invariant
                        runs_ok(header@),
                        k <= header@.len(),
                        w.attached(),
                        forall|p: Seq<bool>| p.is_prefix_of(b0) ==> #[trigger] p.is_prefix_of(w.bits()),
                        b0 == old(w).bits(),
                        p1.is_prefix_of(w.bits()),
                        p1.len() == b0.len() + 1,
                        p1[b0.len() as int] == is_final,
                        header@.len() >= 1,
                        header@[0].spec_data() == 2 && header@[0].spec_len() == 2,
                        k == 0 ==> w.bits() == p1,
                        k >= 1 ==> (p1 + bits_lsb(2, 2)).is_prefix_of(w.bits()),
                    decreases header@.len() - k,
                {
                    emit(w, &header[k]);
                    proof {
                        if k == 0 {
                            assert((p1 + bits_lsb(2, 2)) =~= w.bits().subrange(0, (p1 + bits_lsb(2, 2)).len() as int));
                        }
                    }
                    k = k + 1;
                }
                proof {
                    tagp = p1 + bits_lsb(2, 2);
                }
                proof {
                    lemma_used_bound(self.symbol_freq@, 286);
                    lemma_used_bound(self.offset_freq@, 30);
                }
                match (CodeBook::new(&sym_enc_tab), CodeBook::new(&off_enc_tab)) {
                    (Some(a), Some(b)) => (a, b),
                    _ => return Err(CompressionError::Unexpected),
                }
            };
            let mut k: usize = 0;
            while k < self.block_buf.len()
                invariant
                    self.wf(),
                    self.finished == (old(self).finished || is_final),
                    self.decompress_len == old(self).decompress_len,
                    self.nocomp_buf == old(self).nocomp_buf,
                    sym_book.ok(),
                    off_book.ok(),
                    k <= self.block_buf@.len(),
                    w.attached(),
                    forall|p: Seq<bool>| p.is_prefix_of(b0) ==> #[trigger] p.is_prefix_of(w.bits()),
                    b0 == old(w).bits(),
                    p1.is_prefix_of(w.bits()),
                    p1.len() == b0.len() + 1,
                    p1[b0.len() as int] == is_final,
                    tagp.is_prefix_of(w.bits()),
                    tagp == p1 + bits_lsb(1, 2) || tagp == p1 + bits_lsb(2, 2),
                decreases self.block_buf@.len() - k,
            {
                match &self.block_buf[k] {
                    DeflateLzssCode::Symbol(s) => {
                        sym_book.put(w, *s as usize)?;
                    },
                    DeflateLzssCode::Reference { len, len_sub, pos, pos_sub } => {
                        sym_book.put(w, *len as usize)?;
                        emit_run(w, len_sub.data() as u32, len_sub.len())?;
                        off_book.put(w, *pos as usize)?;
                        emit_run(w, pos_sub.data() as u32, pos_sub.len())?;
                    },
                }
                k = k + 1;
            }
            sym_book.put(w, 256)?;
        }
        self.init_block();
        proof {
            assert(p1.is_prefix_of(w.bits()));
            assert(p1.len() == b0.len() + 1);
            assert(b0 == old(w).bits());
            lemma_prefix_at(p1, w.bits(), b0.len() as int);
            assert(p1[b0.len() as int] == is_final);
        }
        Ok(())
    }

    /// Adds one LZSS code to the open block, writing the block first when
    /// it is full (its bytes would pass 65535, or it holds 65535 codes).
    /// A reference must be 3 to 258 bytes long and reach back into the
    /// bytes seen, at most 32768.
    pub fn next(&mut self, code: &LzssCode, w: &mut RightBitWriter) -> (r: Result<(), CompressionError>)
        requires
            old(self).wf(),
            old(w).attached(),
        ensures
            final(self).wf(),
            final(w).attached(),
            forall|p: Seq<bool>| p.is_prefix_of(old(w).bits()) ==> #[trigger] p.is_prefix_of(final(w).bits()),
            *code matches LzssCode::Reference { len, pos } && (len < 3 || len > 258 || pos >= 0x8000 || pos
                >= old(self).spec_history().len()) ==> r is Err && *final(self) == *old(self) && *final(w) == *old(w),
            r is Ok ==> final(self).spec_block_len() >= 1,
            final(self).spec_finished() == old(self).spec_finished(),
    {
        let next_len: usize = match *code {
            LzssCode::Symbol(_) => 1,
            LzssCode::Reference { len, pos } => {
                if len < 3 || len > 258 || pos >= 0x8000 || pos >= self.nocomp_buf.len() {
                    return Err(CompressionError::Unexpected);
                }
                len
            },
        };
        let dcode = DeflateLzssCode::from_with_codetab(code, &self.len_tab, &self.offset_tab);
        let (sidx, oidx, is_ref): (usize, usize, bool) = match &dcode {
            DeflateLzssCode::Symbol(s) => (*s as usize, 0, false),
            DeflateLzssCode::Reference { len, pos, .. } => (*len as usize, *pos as usize, true),
        };
        if sidx >= 286 || oidx >= 30 {
            return Err(CompressionError::Unexpected);
        }
        let new_len = self.decompress_len + next_len;
        if (new_len > 0xFFFF && self.decompress_len != 0) || self.block_buf.len() == 0xFFFF {
            match self.write_block(false, w) {
                Ok(()) => {},
                Err(e) => return Err(e),
            }
            self.decompress_len = next_len;
        } else {
            self.decompress_len = new_len;
        }
        proof {
            self.nocomp_buf.lemma_len_le_cap();
        }
        match *code {
            LzssCode::Symbol(s) => {
                push_byte(&mut self.nocomp_buf, s);
            },
            LzssCode::Reference { len, pos } => {
                copy_back(&mut self.nocomp_buf, pos, len);
            },
        }
        let f = self.symbol_freq[sidx];
        self.symbol_freq.set(sidx, f + 1);
        if is_ref {
            let g = self.offset_freq[oidx];
            self.offset_freq.set(oidx, g + 1);
        }
        self.block_buf.push(dcode);
        Ok(())
    }

    /// Ends the open block, unless the last block has been written.
    pub fn flush(&mut self, w: &mut RightBitWriter) -> (r: Result<(), CompressionError>)
        requires
            old(self).wf(),
            old(w).attached(),
        ensures
            final(self).wf(),
            final(w).attached(),
            forall|p: Seq<bool>| p.is_prefix_of(old(w).bits()) ==> #[trigger] p.is_prefix_of(final(w).bits()),
            old(self).spec_finished() ==> r is Ok && *final(self) == *old(self) && *final(w) == *old(w),
            final(self).spec_finished() == old(self).spec_finished(),
    {
        if !self.finished {
            self.write_block(false, w)
        } else {
            Ok(())
        }
    }

    /// Writes the open block as the last one, unless that has been done.
    pub fn finish(&mut self, w: &mut RightBitWriter) -> (r: Result<(), CompressionError>)
        requires
            old(self).wf(),
            old(w).attached(),
        ensures
            final(self).wf(),
            final(w).attached(),
            forall|p: Seq<bool>| p.is_prefix_of(old(w).bits()) ==> #[trigger] p.is_prefix_of(final(w).bits()),
            old(self).spec_finished() ==> r is Ok && *final(self) == *old(self) && *final(w) == *old(w),
            final(self).spec_finished(),
            !old(self).spec_finished() && r is Ok ==> final(w).bits().len() > old(w).bits().len() && final(w).bits()[old(w).bits().len() as int],
    {
        if !self.finished {
            self.write_block(true, w)
        } else {
            Ok(())
        }
    }
}

/// How DEFLATE and LZH rank candidate LZSS codes: a reference before a literal,
/// and of two references the one with the larger `len * 8 + pos`.
#[derive(Clone, Copy, Debug)]
pub struct DeflateComparison;

impl LzssComparison for DeflateComparison {
    fn compare_codes(&self, lhs: LzssCode, rhs: LzssCode) -> Ordering {
        match (lhs, rhs) {
            (LzssCode::Reference { len: llen, pos: lpos }, LzssCode::Reference { len: rlen, pos: rpos }) => {
                let a = (llen << 3usize).wrapping_add(lpos);
                let b = (rlen << 3usize).wrapping_add(rpos);
                if a < b {
                    Ordering::Greater
                } else if a == b {
                    Ordering::Equal
                } else {
                    Ordering::Less
                }
            },
            (LzssCode::Symbol(_), LzssCode::Symbol(_)) => Ordering::Equal,
            (_, LzssCode::Symbol(_)) => Ordering::Greater,
            (LzssCode::Symbol(_), _) => Ordering::Less,
        }
    }
}

/// The DEFLATE encoder: LZSS over a 32 KiB window (matches of 3 to 258
/// bytes, lazy by 3), the codes gathered into blocks, each block written
/// in its shortest form, the bits handed out a byte at a time.
pub struct Inflater {
    inner: InflaterInner,
    lzss: LzssEncoder<DeflateComparison>,
    writer: RightBitWriter,
    out_pos: usize,
    finished: bool,
    bit_finished: bool,
    out: Ghost<Seq<u8>>,
}

impl Inflater {
    pub closed spec fn wf(&self) -> bool {
        &&& self.inner.wf()
        &&& self.lzss.idle()
        &&& self.writer.attached()
    }

    /// The bytes handed out so far.
    pub closed spec fn spec_out(&self) -> Seq<u8> {
        self.out@
    }

    /// The bytes written and not handed out yet.
    pub closed spec fn spec_pending(&self) -> Seq<u8> {
        if self.out_pos <= self.writer.written().len() {
            self.writer.written().skip(self.out_pos as int)
        } else {
            Seq::empty()
        }
    }

    /// The bytes taken from the input so far (a dictionary first).
    pub closed spec fn spec_taken(&self) -> Seq<u8> {
        self.lzss.spec_text()
    }

    /// The last block has been written.
    pub closed spec fn spec_ended(&self) -> bool {
        self.inner.spec_finished()
    }

    pub fn new() -> (r: Self)
        ensures
            r.wf(),
            r.spec_out() == Seq::<u8>::empty(),
            r.spec_taken() == Seq::<u8>::empty(),
            !r.spec_ended(),
    {
        Inflater {
            inner: InflaterInner::new(),
            lzss: LzssEncoder::new(DeflateComparison, 0x8000, 258, 3, 3),
            writer: RightBitWriter::new(Vec::new()),
            out_pos: 0,
            finished: false,
            bit_finished: false,
            out: Ghost(Seq::empty()),
        }
    }

    /// An encoder whose references may reach into `dict`, as if it had
    /// been encoded before.
    pub fn with_dict(dict: &[u8]) -> (r: Self)
        requires
            dict@.len() <= 2 * 0xFFFF,
        ensures
            r.wf(),
            r.spec_out() == Seq::<u8>::empty(),
            !r.spec_ended(),
            r.spec_taken() == dict@.skip(dict@.len() - if 0x8000 < dict@.len() {
                0x8000int
            } else {
                dict@.len() as int
            }),
    {
        Inflater {
            inner: InflaterInner::with_dict(dict),
            lzss: LzssEncoder::with_dict(DeflateComparison, 0x8000, 258, 3, 3, dict),
            writer: RightBitWriter::new(Vec::new()),
            out_pos: 0,
            finished: false,
            bit_finished: false,
            out: Ghost(Seq::empty()),
        }
    }

    /// The next byte of the DEFLATE stream of the bytes of `src`. With
    /// `Finish` the last block is marked final; with `Flush` the open block
    /// is written; with either the bits are padded to a byte before the
    /// stream pauses with `None`. With `Run`, `None` once every byte ready
    /// has been handed out.
    pub fn next(&mut self, src: &mut ByteSource, action: Action) -> (r: Option<Result<u8, CompressionError>>)
        requires
            old(self).wf(),
        ensures
            final(self).wf(),
            old(self).spec_pending().len() > 0 ==> r == Some(Ok::<u8, CompressionError>(old(self).spec_pending()[0]))
                && final(self).spec_pending() == old(self).spec_pending().skip(1),
            r matches Some(Ok(b)) ==> final(self).spec_out() == old(self).spec_out().push(b),
            !(r matches Some(Ok(_))) ==> final(self).spec_out() == old(self).spec_out(),
            old(self).spec_taken() + old(src).remaining() == final(self).spec_taken() + final(src).remaining(),
            old(self).spec_taken().is_prefix_of(final(self).spec_taken()),
            final(src).spec_bytes() == old(src).spec_bytes(),
            r is None ==> final(src).remaining().len() == 0,
    {
        let n0 = self.writer.get_ref().len();
        if self.out_pos < n0 {
            let b = self.writer.get_ref()[self.out_pos];
            self.out_pos = self.out_pos + 1;
            self.out = Ghost(self.out@.push(b));
            proof {
                assert(self.spec_pending() =~= old(self).spec_pending().skip(1));
            }
            return Some(Ok(b));
        }
        let ghost s0 = self.lzss.spec_text() + src.remaining();
        loop
            invariant
                self.wf(),
                self.out@ == old(self).out@,
                old(self).spec_pending().len() == 0,
                self.lzss.spec_text() + src.remaining() == s0,
                s0 == old(self).lzss.spec_text() + old(src).remaining(),
                old(self).lzss.spec_text().is_prefix_of(self.lzss.spec_text()),
                src.spec_bytes() == old(src).spec_bytes(),
            decreases s0.len() - self.lzss.spec_popped(), if self.finished {
                0nat
            } else {
                1nat
            },
        {
            proof {
                self.lzss.lemma_codes_below_text();
            }
            let n = self.writer.get_ref().len();
            if self.out_pos < n {
                let b = self.writer.get_ref()[self.out_pos];
                self.out_pos = self.out_pos + 1;
                self.out = Ghost(self.out@.push(b));
                return Some(Ok(b));
            }
            let ghost popped0 = self.lzss.spec_popped();
            let ghost emitted0 = self.lzss.spec_emitted();
            match self.lzss.next(src, action) {
                Some(Ok(code)) => {
                    proof {
                        self.lzss.lemma_codes_below_text();
                    }
                    if let Err(e) = self.inner.next(&code, &mut self.writer) {
                        return Some(Err(e));
                    }
                },
                Some(Err(e)) => {
                    return Some(Err(e));
                },
                None => {
                    proof {
                        self.lzss.lemma_codes_below_text();
                    }
                    if self.finished {
                        self.finished = false;
                        if self.bit_finished {
                            self.bit_finished = false;
                            return None;
                        }
                        match action {
                            Action::Run => {
                                return None;
                            },
                            _ => {
                                self.bit_finished = true;
                                self.writer.flush();
                                let n = self.writer.get_ref().len();
                                if self.out_pos < n {
                                    let b = self.writer.get_ref()[self.out_pos];
                                    self.out_pos = self.out_pos + 1;
                                    self.out = Ghost(self.out@.push(b));
                                    return Some(Ok(b));
                                }
                                return None;
                            },
                        }
                    } else {
                        let res = match action {
                            Action::Flush => self.inner.flush(&mut self.writer),
                            Action::Finish => self.inner.finish(&mut self.writer),
                            Action::Run => Ok(()),
                        };
                        if let Err(e) = res {
                            return Some(Err(e));
                        }
                        self.finished = true;
                    }
                },
            }
        }
    }
}

impl Default for Inflater {
    fn default() -> (r: Self)
        ensures
            r.wf(),
            r.spec_out() == Seq::<u8>::empty(),
    {
        Self::new()
    }
}

} // verus!
