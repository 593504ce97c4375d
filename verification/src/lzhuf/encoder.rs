use vstd::prelude::*;
use vstd::arithmetic::power2::{pow2, lemma_pow2_pos, lemma_pow2_unfold, lemma_pow2_strictly_increases};
use crate::lzss::LzssCode;
use crate::bit_vector::bits_msb;
use crate::bit_reader::ByteSource;
use crate::bit_writer::LeftBitWriter;
use crate::bzip2::encoder::{put_bits, LeftCodeBook};
use crate::compress::Action;
use crate::deflate::encoder::DeflateComparison;
use crate::error::CompressionError;
use crate::huffman::cano_huff_table::{lemma_used_bound, make_table};
use crate::lzhuf_compression::LzhufCompression;
use crate::lzss::encoder::LzssEncoder;

verus! {

/// The shortest copy LZH codes.
pub const MIN_MATCH: u16 = 3;

/// The number of bits needed to count up to `x` values: the least `k` with
/// `x <= 2^k`.
pub open spec fn ceil_log2(x: nat) -> nat
    decreases x,
{
    if x <= 1 {
        0
    } else {
        1 + ceil_log2(((x + 1) / 2) as nat)
    }
}

pub proof fn lemma_ceil_log2(x: nat)
    requires
        x >= 1,
    ensures
        x <= pow2(ceil_log2(x)),
        ceil_log2(x) > 0 ==> pow2((ceil_log2(x) - 1) as nat) < x,
    decreases x,
{
    vstd::arithmetic::power2::lemma2_to64();
    if x > 1 {
        let h = ((x + 1) / 2) as nat;
        let c = ceil_log2(x);
        assert(c == 1 + ceil_log2(h));
        lemma_ceil_log2(h);
        lemma_pow2_unfold(c);
        assert(pow2(c) == 2 * pow2(ceil_log2(h)));
        assert(2 * h >= x);
        if ceil_log2(h) > 0 {
            lemma_pow2_unfold(ceil_log2(h));
            assert(pow2(ceil_log2(h)) == 2 * pow2((ceil_log2(h) - 1) as nat));
            assert(pow2((ceil_log2(h) - 1) as nat) < h);
        } else {
            assert(h <= 1);
            assert(x == 2);
        }
    }
}

/// An LZSS step as LZH writes it: a literal, or a length symbol (256 and
/// up) with a distance given as its bit count and the bits below the top
/// one.
#[derive(Debug, PartialEq, Eq, Structural)]
pub enum LzhufLzssCode {
    Symbol(u8),
    Reference { len: u16, pos_offset: u16, pos_sublen: u16 },
}

impl LzhufLzssCode {
    /// Codes a literal as itself; a copy of `len` bytes from `pos` back as
    /// the length symbol `len + 253`, the bit count `k` of `pos + 1`
    /// rounded up to a power of two, and `pos - 2^(k - 1)`.
    pub fn from(data: &LzssCode) -> (r: Self)
        requires
            *data matches LzssCode::Reference { len, pos } ==> (len as u16) + 256 <= u16::MAX && pos
                < usize::MAX / 2,
        ensures
            match *data {
                LzssCode::Symbol(s) => r == LzhufLzssCode::Symbol(s),
                LzssCode::Reference { len, pos } => r == (LzhufLzssCode::Reference {
                    len: ((len as u16) + 256 - MIN_MATCH) as u16,
                    pos_offset: ceil_log2((pos + 1) as nat) as u16,
                    pos_sublen: (if ceil_log2((pos + 1) as nat) == 0 {
                        pos as int
                    } else {
                        pos - pow2((ceil_log2((pos + 1) as nat) - 1) as nat)
                    }) as u16,
                }),
            },
    {
        match *data {
            LzssCode::Symbol(s) => LzhufLzssCode::Symbol(s),
            LzssCode::Reference { len, pos } => {
                let target = pos + 1;
                let ghost c = ceil_log2(target as nat);
                let mut po: usize = 1;
                let mut k: u16 = 0;
                proof {
                    lemma_ceil_log2(target as nat);
                    vstd::arithmetic::power2::lemma2_to64();
                    vstd::arithmetic::power2::lemma2_to64_rest();
                }
                while po < target
                    invariant
                        target == pos + 1,
                        pos < usize::MAX / 2,
                        c == ceil_log2(target as nat),
                        po == pow2(k as nat),
                        k <= c,
                        k <= 63,
                        target <= pow2(c),
                        c > 0 ==> pow2((c - 1) as nat) < target,
                        k < c ==> po < target,
                        pow2(63) == 0x8000000000000000,
                    decreases c - k,
                {
                    proof {
                        if k == c {
                            assert(false);
                        }
                        if k == 63 {
                            assert(false);
                        }
                        lemma_pow2_unfold((k + 1) as nat);
                        if k + 1 < c {
                            if k + 1 < c - 1 {
                                lemma_pow2_strictly_increases((k + 1) as nat, (c - 1) as nat);
                            }
                        }
                    }
                    po = po * 2;
                    k = k + 1;
                }
                proof {
                    if k < c {
                        assert(false);
                    }
                    vstd::bits::lemma_usize_shr_is_div(po, 1);
                    vstd::arithmetic::power2::lemma2_to64();
                    if k > 0 {
                        lemma_pow2_unfold(k as nat);
                    }
                }
                LzhufLzssCode::Reference {
                    len: len as u16 + 256 - MIN_MATCH,
                    pos_offset: k,
                    pos_sublen: (pos - (po >> 1)) as u16,
                }
            },
        }
    }
}

/// The code lengths of an LZH table: none when at most one symbol is
/// used (that symbol is then implied and costs no bits), else canonical
/// codes.
pub struct LzhufHuffmanEncoder {
    book: Option<LeftCodeBook>,
}

impl LzhufHuffmanEncoder {
    pub fn new(symb_len: &[u8]) -> (r: Result<Self, CompressionError>) {
        let mut used: usize = 0;
        let mut i: usize = 0;
        while i < symb_len.len()
            invariant
                used <= i <= symb_len@.len(),
            decreases symb_len@.len() - i,
        {
            if symb_len[i] != 0 {
                used = used + 1;
            }
            i = i + 1;
        }
        if used <= 1 {
            return Ok(LzhufHuffmanEncoder { book: None });
        }
        if symb_len.len() > 0x10000 {
            return Err(CompressionError::Unexpected);
        }
        match LeftCodeBook::new(symb_len) {
            Some(b) => Ok(LzhufHuffmanEncoder { book: Some(b) }),
            None => Err(CompressionError::Unexpected),
        }
    }

    /// Writes the code of `data`, nothing if the table implies it.
    pub fn enc(&self, w: &mut LeftBitWriter, data: usize) -> (r: Result<(), CompressionError>)
        requires
            old(w).attached(),
        ensures
            final(w).attached(),
    {
        match &self.book {
            Some(b) => match b.put(w, data) {
                Ok(()) => Ok(()),
                Err(_) => Err(CompressionError::DataError),
            },
            None => Ok(()),
        }
    }
}

/// The indices and values of the nonzero entries of `t`, in order.
fn nonzero_entries(t: &[u8]) -> (r: (Vec<usize>, Vec<u8>))
    ensures
        r.0@.len() == r.1@.len(),
        r.0@.len() <= t@.len(),
        forall|k: int| 0 <= k < r.0@.len() ==> #[trigger] r.0@[k] < t@.len() && r.1@[k] == t@[r.0@[k] as int] && t@[r.0@[k] as int] != 0,
        forall|a: int, b: int| 0 <= a < b < r.0@.len() ==> r.0@[a] < r.0@[b],
        forall|j: int| 0 <= j < t@.len() && #[trigger] t@[j] != 0 ==> r.0@.contains(j as usize),
{
    let mut idx: Vec<usize> = Vec::new();
    let mut val: Vec<u8> = Vec::new();
    let mut i: usize = 0;
    while i < t.len()
        invariant
            i <= t@.len(),
            idx@.len() == val@.len(),
            idx@.len() <= i,
            forall|k: int| 0 <= k < idx@.len() ==> #[trigger] idx@[k] < i && val@[k] == t@[idx@[k] as int] && t@[idx@[k] as int] != 0,
            forall|a: int, b: int| 0 <= a < b < idx@.len() ==> idx@[a] < idx@[b],
            forall|j: int| 0 <= j < i && #[trigger] t@[j] != 0 ==> idx@.contains(j as usize),
        decreases t@.len() - i,
    {
        if t[i] != 0 {
            let ghost before = idx@;
            idx.push(i);
            val.push(t[i]);
            proof {
                assert forall|j: int| 0 <= j < i + 1 && #[trigger] t@[j] != 0 implies idx@.contains(j as usize) by {
                    if j < i {
                        let k = choose|k: int| 0 <= k < before.len() && before[k] == j as usize;
                        assert(idx@[k] == j as usize);
                    } else {
                        assert(idx@[idx@.len() - 1] == i);
                    }
                }
            }
        }
        i = i + 1;
    }
    (idx, val)
}

/// The table writes nothing but the empty or one-symbol form: no
/// symbol, or only `sym`.
pub open spec fn only_symbol(t: Seq<u8>, sym: int) -> bool {
    &&& 0 <= sym < t.len()
    &&& t[sym] != 0
    &&& forall|j: int| 0 <= j < t.len() && j != sym ==> #[trigger] t[j] == 0
}

/// The block side of the LZH encoder: gathers codes with their counts
/// and writes each block with its own tables.
pub struct LzhufEncoderInner {
    max_block_len: usize,
    offset_tab_len: usize,
    block_buf: Vec<LzhufLzssCode>,
    symbol_freq: Vec<usize>,
    offset_freq: Vec<usize>,
    size_of_symbol_freq_buf: usize,
    size_of_offset_freq_buf: usize,
}

impl LzhufEncoderInner {
    pub closed spec fn wf(&self) -> bool {
        &&& 1 <= self.max_block_len <= 0x10000
        &&& self.block_buf@.len() < self.max_block_len
        &&& self.symbol_freq@.len() == self.size_of_symbol_freq_buf
        &&& self.offset_freq@.len() == self.size_of_offset_freq_buf
        &&& self.size_of_symbol_freq_buf <= 0x10000
        &&& self.size_of_offset_freq_buf <= 0x10000
        &&& self.offset_tab_len <= 16
    }

    /// How many codes the open block holds.
    pub closed spec fn spec_block_len(&self) -> nat {
        self.block_buf@.len()
    }

    fn init_block(&mut self)
        ensures
            final(self).block_buf@.len() == 0,
            final(self).symbol_freq@.len() == old(self).size_of_symbol_freq_buf,
            final(self).offset_freq@.len() == old(self).size_of_offset_freq_buf,
            final(self).max_block_len == old(self).max_block_len,
            final(self).offset_tab_len == old(self).offset_tab_len,
            final(self).size_of_symbol_freq_buf == old(self).size_of_symbol_freq_buf,
            final(self).size_of_offset_freq_buf == old(self).size_of_offset_freq_buf,
    {
        self.block_buf = Vec::new();
        self.symbol_freq = vec![0usize; self.size_of_symbol_freq_buf];
        self.offset_freq = vec![0usize; self.size_of_offset_freq_buf];
    }

    /// Blocks of at most `max_block_len` codes, distances in tables of
    /// `offset_tab_len`-bit counts, copies of at most `max_match` bytes.
    pub fn new(max_block_len: usize, offset_tab_len: usize, max_match: usize) -> (r: Self)
        requires
            2 <= max_block_len <= 0x10000,
            offset_tab_len <= 16,
            max_match <= 0x1000,
        ensures
            r.wf(),
            r.spec_block_len() == 0,
    {
        let mut p: usize = 1;
        while p < max_block_len
            invariant
                1 <= p <= 2 * max_block_len,
                max_block_len <= 0x10000,
            decreases 2 * max_block_len - p,
        {
            p = p * 2;
        }
        let mbl_npot = p / 2;
        let a = if max_block_len > mbl_npot { max_block_len - mbl_npot } else { 0 };
        let b = if mbl_npot > 0 { mbl_npot - 1 } else { 0 };
        let size_of_offset_freq_buf = if a > b { a } else { b };
        let size_of_symbol_freq_buf = max_match + 256 - 3 + 1;
        Self {
            max_block_len,
            offset_tab_len,
            size_of_symbol_freq_buf,
            size_of_offset_freq_buf,
            block_buf: Vec::new(),
            symbol_freq: vec![0usize; size_of_symbol_freq_buf],
            offset_freq: vec![0usize; size_of_offset_freq_buf],
        }
    }

    /// A code length: below 7 in three bits, else `111`, a one for each
    /// step above 7, and a zero.
    fn enc_len(w: &mut LeftBitWriter, len: u8) -> (r: Result<(), CompressionError>)
        requires
            old(w).attached(),
        ensures
            final(w).attached(),
    {
        if len >= 7 {
            put_bits(w, 7, 3)?;
            let mut k: u8 = 7;
            while k < len
                invariant
                    w.attached(),
                decreases len - k,
            {
                put_bits(w, 1, 1)?;
                k = k + 1;
            }
            put_bits(w, 0, 1)
        } else {
            put_bits(w, len as u32, 3)
        }
    }

    /// Writes the table of the literal and length codes: its own code
    /// lengths coded by a small table, gaps of unused symbols run-length
    /// coded.
    #[verifier::loop_isolation(false)]
    fn write_symb_tab(symb_enc_tab: &[u8], w: &mut LeftBitWriter) -> (r: Result<(), CompressionError>)
        requires
            old(w).attached(),
            symb_enc_tab@.len() <= 512,
        ensures
            final(w).attached(),
            symb_enc_tab@.len() == 0 ==> r is Ok && final(w).bits() == old(w).bits() + bits_msb(0, 5) + bits_msb(0, 5)
                + bits_msb(0, 9) + bits_msb(0, 9),
            forall|sym: int| #[trigger] only_symbol(symb_enc_tab@, sym) ==> r is Ok && final(w).bits() == old(w).bits()
                + bits_msb(0, 5) + bits_msb(0, 5) + bits_msb(0, 9) + bits_msb(sym as u32, 9),
    {
        proof {
            vstd::arithmetic::power2::lemma2_to64();
        }
        let (map_idx, map_len) = nonzero_entries(symb_enc_tab);
        if symb_enc_tab.len() == 0 {
            put_bits(w, 0, 5)?;
            put_bits(w, 0, 5)?;
            put_bits(w, 0, 9)?;
            put_bits(w, 0, 9)?;
            return Ok(());
        }
        proof {
            assert forall|sym: int| #[trigger] only_symbol(symb_enc_tab@, sym) implies map_idx@.len() == 1 && map_idx@[0]
                == sym by {
                assert(map_idx@.contains(sym as usize));
                let k = choose|k: int| 0 <= k < map_idx@.len() && map_idx@[k] == sym as usize;
                assert forall|q: int| 0 <= q < map_idx@.len() implies map_idx@[q] == sym by {
                    assert(symb_enc_tab@[map_idx@[q] as int] != 0);
                }
                if map_idx@.len() > 1 {
                    assert(map_idx@[0] < map_idx@[1]);
                }
            }
        }
        if map_idx.len() == 1 {
            put_bits(w, 0, 5)?;
            put_bits(w, 0, 5)?;
            put_bits(w, 0, 9)?;
            put_bits(w, map_idx[0] as u32, 9)?;
            return Ok(());
        }
        if map_idx.len() == 0 {
            return Err(CompressionError::Unexpected);
        }
        let mut sym_list: Vec<(u8, usize)> = Vec::new();
        let mut freq: Vec<usize> = vec![0usize; 19];
        let mut i: usize = 0;
        let mut k: usize = 0;
        while k < map_idx.len()
            invariant
                k <= map_idx@.len(),
                map_idx@.len() == map_len@.len(),
                freq@.len() == 19,
                forall|q: int| 0 <= q < 19 ==> #[trigger] freq@[q] <= 4 * k,
                map_idx@.len() <= 0x10000,
                sym_list@.len() <= 3 * k,
            decreases map_idx@.len() - k,
        {
            let sym_ind = map_idx[k];
            let sym_len = map_len[k];
            if sym_ind < i || sym_len > 16 {
                return Err(CompressionError::Unexpected);
            }
            let gap = sym_ind - i;
            i = sym_ind + 1;
            if gap > 19 {
                sym_list.push((2, gap - 20));
                freq.set(2, freq[2] + 1);
            } else if gap == 19 {
                sym_list.push((1, 15));
                sym_list.push((0, 0));
                freq.set(1, freq[1] + 1);
                freq.set(0, freq[0] + 1);
            } else if gap > 2 {
                sym_list.push((1, gap - 3));
                freq.set(1, freq[1] + 1);
            } else if gap > 0 {
                sym_list.push((0, 0));
                if gap == 2 {
                    sym_list.push((0, 0));
                }
                freq.set(0, freq[0] + gap);
            }
            let t = sym_len as usize + 2;
            sym_list.push((3, t));
            freq.set(t, freq[t] + 1);
            k = k + 1;
        }
        proof {
            lemma_used_bound(freq@, 19);
            vstd::arithmetic::power2::lemma2_to64();
        }
        let len_enc_tab = make_table(&freq, 16);
        let (len_idx, len_len) = nonzero_entries(&len_enc_tab);
        let len_enc = if len_idx.len() == 0 {
            return Err(CompressionError::Unexpected);
        } else if len_idx.len() == 1 {
            put_bits(w, 0, 5)?;
            put_bits(w, len_idx[0] as u32, 5)?;
            LzhufHuffmanEncoder { book: None }
        } else {
            let last = len_idx[len_idx.len() - 1];
            put_bits(w, (last + 1) as u32, 5)?;
            let mut i: usize = 0;
            let mut q: usize = 0;
            while q < len_idx.len()
                invariant
                    q <= len_idx@.len(),
                    len_idx@.len() == len_len@.len(),
                    w.attached(),
                    i <= 20,
                    forall|t: int| 0 <= t < len_idx@.len() ==> #[trigger] len_idx@[t] < len_enc_tab@.len(),
                    len_enc_tab@.len() <= 19,
                decreases len_idx@.len() - q,
            {
                let len_ind = len_idx[q];
                let l = len_len[q];
                while len_ind >= i
                    invariant
                        w.attached(),
                        len_ind < 19,
                        i <= 20,
                    decreases len_ind + 1 - i,
                {
                    if i == 3 {
                        let skip = if len_ind > 6 { 3 } else { len_ind - 3 };
                        put_bits(w, skip as u32, 2)?;
                        i = i + skip;
                    }
                    if len_ind != i {
                        put_bits(w, 0, 3)?;
                    } else {
                        Self::enc_len(w, l)?;
                    }
                    i = i + 1;
                }
                q = q + 1;
            }
            LzhufHuffmanEncoder::new(&len_enc_tab)?
        };
        let last_sym = map_idx[map_idx.len() - 1];
        put_bits(w, (last_sym + 1) as u32, 9)?;
        let mut k: usize = 0;
        while k < sym_list.len()
            invariant
                k <= sym_list@.len(),
                w.attached(),
            decreases sym_list@.len() - k,
        {
            let (s, l) = sym_list[k];
            if s == 0 {
                len_enc.enc(w, 0)?;
            } else if s == 1 {
                len_enc.enc(w, 1)?;
                if l > 0xFFFF {
                    return Err(CompressionError::Unexpected);
                }
                put_bits(w, l as u32, 4)?;
            } else if s == 2 {
                len_enc.enc(w, 2)?;
                if l > 0xFFFF {
                    return Err(CompressionError::Unexpected);
                }
                put_bits(w, l as u32, 9)?;
            } else {
                len_enc.enc(w, l)?;
            }
            k = k + 1;
        }
        Ok(())
    }

    /// Writes the table of the distance bit counts.
    #[verifier::loop_isolation(false)]
    fn write_offset_tab(off_enc_tab: &[u8], pbit_len: usize, w: &mut LeftBitWriter) -> (r: Result<(), CompressionError>)
        requires
            old(w).attached(),
            off_enc_tab@.len() <= 0x10000,
        ensures
            final(w).attached(),
    {
        let (idx, lens) = nonzero_entries(off_enc_tab);
        if idx.len() == 0 {
            put_bits(w, 0, pbit_len)?;
            put_bits(w, 0, pbit_len)?;
        } else if idx.len() == 1 {
            put_bits(w, 0, pbit_len)?;
            put_bits(w, idx[0] as u32, pbit_len)?;
        } else {
            let last = idx[idx.len() - 1];
            put_bits(w, (last + 1) as u32, pbit_len)?;
            let mut i: usize = 0;
            let mut q: usize = 0;
            while q < idx.len()
                invariant
                    q <= idx@.len(),
                    idx@.len() == lens@.len(),
                    w.attached(),
                    forall|t: int| 0 <= t < idx@.len() ==> #[trigger] idx@[t] < off_enc_tab@.len(),
                decreases idx@.len() - q,
            {
                let symb = idx[q];
                let l = lens[q];
                while symb >= i
                    invariant
                        w.attached(),
                        symb < 0x10000,
                    decreases symb + 1 - i,
                {
                    if symb != i {
                        put_bits(w, 0, 3)?;
                    } else {
                        Self::enc_len(w, l)?;
                    }
                    i = i + 1;
                }
                q = q + 1;
            }
        }
        Ok(())
    }
}

impl LzhufEncoderInner {
    /// Writes the open block: its code count, its tables, its codes; then
    /// opens a new block.
    #[verifier::loop_isolation(false)]
    fn write_block(&mut self, w: &mut LeftBitWriter) -> (r: Result<(), CompressionError>)
        requires
            1 <= old(self).max_block_len <= 0x10000,
            old(self).block_buf@.len() <= old(self).max_block_len,
            old(self).symbol_freq@.len() == old(self).size_of_symbol_freq_buf,
            old(self).offset_freq@.len() == old(self).size_of_offset_freq_buf,
            old(self).size_of_symbol_freq_buf <= 0x10000,
            old(self).size_of_offset_freq_buf <= 0x10000,
            old(self).offset_tab_len <= 16,
            old(w).attached(),
        ensures
            final(self).wf(),
            final(w).attached(),
            final(self).spec_block_len() == 0,
    {
        proof {
            lemma_used_bound(self.symbol_freq@, self.symbol_freq@.len() as int);
            lemma_used_bound(self.offset_freq@, self.offset_freq@.len() as int);
            vstd::arithmetic::power2::lemma2_to64();
        }
        let sym_enc_tab = make_table(&self.symbol_freq, 16);
        let off_enc_tab = make_table(&self.offset_freq, 16);
        let r = self.write_block_data(&sym_enc_tab, &off_enc_tab, w);
        self.init_block();
        r
    }

    #[verifier::loop_isolation(false)]
    fn write_block_data(&self, sym_enc_tab: &Vec<u8>, off_enc_tab: &Vec<u8>, w: &mut LeftBitWriter) -> (r: Result<(), CompressionError>)
        requires
            old(w).attached(),
            sym_enc_tab@.len() <= 0x10000,
            off_enc_tab@.len() <= 0x10000,
            self.offset_tab_len <= 16,
            self.block_buf@.len() <= 0x10000,
        ensures
            final(w).attached(),
    {
        let sym_enc = LzhufHuffmanEncoder::new(sym_enc_tab)?;
        let off_enc = LzhufHuffmanEncoder::new(off_enc_tab)?;
        put_bits(w, self.block_buf.len() as u32, 16)?;
        if sym_enc_tab.len() > 512 {
            return Err(CompressionError::Unexpected);
        }
        Self::write_symb_tab(sym_enc_tab, w)?;
        Self::write_offset_tab(off_enc_tab, self.offset_tab_len, w)?;
        let mut k: usize = 0;
        while k < self.block_buf.len()
            invariant
                k <= self.block_buf@.len(),
                w.attached(),
            decreases self.block_buf@.len() - k,
        {
            match &self.block_buf[k] {
                LzhufLzssCode::Symbol(s) => {
                    sym_enc.enc(w, *s as usize)?;
                },
                LzhufLzssCode::Reference { len, pos_offset, pos_sublen } => {
                    sym_enc.enc(w, *len as usize)?;
                    off_enc.enc(w, *pos_offset as usize)?;
                    if *pos_offset > 1 {
                        put_bits(w, *pos_sublen as u32, (*pos_offset - 1) as usize)?;
                    }
                },
            }
            k = k + 1;
        }
        Ok(())
    }

    /// Adds one LZSS code to the open block, writing the block once it is
    /// full. A reference is at most 256 bytes long and reaches at most
    /// 65536 bytes back.
    pub fn next(&mut self, buf: &LzssCode, w: &mut LeftBitWriter) -> (r: Result<(), CompressionError>)
        requires
            old(self).wf(),
            old(w).attached(),
        ensures
            final(self).wf(),
            final(w).attached(),
    {
        if let LzssCode::Reference { len, pos } = *buf {
            if len > 256 || pos >= 0x10000 {
                return Err(CompressionError::Unexpected);
            }
        }
        let code = LzhufLzssCode::from(buf);
        let (sidx, oidx, is_ref): (usize, usize, bool) = match &code {
            LzhufLzssCode::Symbol(s) => (*s as usize, 0, false),
            LzhufLzssCode::Reference { len, pos_offset, .. } => (*len as usize, *pos_offset as usize, true),
        };
        if sidx >= self.symbol_freq.len() || (is_ref && oidx >= self.offset_freq.len()) {
            return Err(CompressionError::Unexpected);
        }
        let f = self.symbol_freq[sidx];
        if f == usize::MAX {
            return Err(CompressionError::Unexpected);
        }
        if is_ref {
            let g = self.offset_freq[oidx];
            if g == usize::MAX {
                return Err(CompressionError::Unexpected);
            }
            self.offset_freq.set(oidx, g + 1);
        }
        self.symbol_freq.set(sidx, f + 1);
        self.block_buf.push(code);
        if self.block_buf.len() == self.max_block_len {
            self.write_block(w)?;
        }
        Ok(())
    }

    /// Writes the open block, if it holds any code.
    pub fn flush(&mut self, w: &mut LeftBitWriter) -> (r: Result<(), CompressionError>)
        requires
            old(self).wf(),
            old(w).attached(),
        ensures
            final(self).wf(),
            final(w).attached(),
    {
        if self.block_buf.len() != 0 {
            self.write_block(w)
        } else {
            Ok(())
        }
    }

    /// Writes the open block, if it holds any code.
    pub fn finish(&mut self, w: &mut LeftBitWriter) -> (r: Result<(), CompressionError>)
        requires
            old(self).wf(),
            old(w).attached(),
        ensures
            final(self).wf(),
            final(w).attached(),
    {
        if self.block_buf.len() != 0 {
            self.write_block(w)
        } else {
            Ok(())
        }
    }
}

/// The LZH encoder (methods lh4 to lh7): LZSS over the method's window
/// (matches of 3 to 256 bytes, lazy by 3), blocks of up to 65535 codes,
/// the bits handed out a byte at a time.
pub struct LzhufEncoder {
    inner: LzhufEncoderInner,
    lzss: LzssEncoder<DeflateComparison>,
    writer: LeftBitWriter,
    out_pos: usize,
    finished: bool,
    bit_finished: bool,
    out: Ghost<Seq<u8>>,
}

impl LzhufEncoder {
    pub closed spec fn wf(&self) -> bool {
        &&& self.inner.wf()
        &&& self.lzss.idle()
        &&& self.writer.attached()
    }

    /// The bytes handed out so far.
    pub closed spec fn spec_out(&self) -> Seq<u8> {
        self.out@
    }

    /// The bytes written and not handed out yet.
    pub closed spec fn spec_pending(&self) -> Seq<u8> {
        if self.out_pos <= self.writer.written().len() {
            self.writer.written().skip(self.out_pos as int)
        } else {
            Seq::empty()
        }
    }

    /// The bytes taken from the input so far.
    pub closed spec fn spec_taken(&self) -> Seq<u8> {
        self.lzss.spec_text()
    }

    pub fn new(method: &LzhufCompression) -> (r: Self)
        ensures
            r.wf(),
            r.spec_out() == Seq::<u8>::empty(),
            r.spec_taken() == Seq::<u8>::empty(),
    {
        let bits = method.dictionary_bits();
        let mut dic_len: usize = 1;
        let mut k: usize = 0;
        proof {
            vstd::arithmetic::power2::lemma2_to64();
        }
        while k < bits
            invariant
                k <= bits <= 16,
                dic_len == pow2(k as nat),
            decreases bits - k,
        {
            proof {
                lemma_pow2_unfold((k + 1) as nat);
                if k + 1 < 16 {
                    lemma_pow2_strictly_increases((k + 1) as nat, 16);
                }
                vstd::arithmetic::power2::lemma2_to64();
            }
            dic_len = dic_len * 2;
            k = k + 1;
        }
        proof {
            vstd::arithmetic::power2::lemma2_to64();
            if bits < 16 {
                lemma_pow2_strictly_increases(bits as nat, 16);
            }
        }
        Self {
            inner: LzhufEncoderInner::new(0xFFFF, method.offset_bits(), 256),
            lzss: LzssEncoder::new(DeflateComparison, dic_len, 256, 3, 3),
            writer: LeftBitWriter::new(Vec::new()),
            out_pos: 0,
            finished: false,
            bit_finished: false,
            out: Ghost(Seq::empty()),
        }
    }

    /// The next byte of the LZH stream of the bytes of `src`. With `Flush`
    /// or `Finish` the open block is written and the bits are padded to a
    /// byte before the stream pauses with `None`.
    pub fn next(&mut self, src: &mut ByteSource, action: Action) -> (r: Option<Result<u8, CompressionError>>)
        requires
            old(self).wf(),
        ensures
            final(self).wf(),
            old(self).spec_pending().len() > 0 ==> r == Some(Ok::<u8, CompressionError>(old(self).spec_pending()[0]))
                && final(self).spec_pending() == old(self).spec_pending().skip(1),
            r matches Some(Ok(b)) ==> final(self).spec_out() == old(self).spec_out().push(b),
            !(r matches Some(Ok(_))) ==> final(self).spec_out() == old(self).spec_out(),
            old(self).spec_taken() + old(src).remaining() == final(self).spec_taken() + final(src).remaining(),
            r is None ==> final(src).remaining().len() == 0,
    {
        let n0 = self.writer.get_ref().len();
        if self.out_pos < n0 {
            let b = self.writer.get_ref()[self.out_pos];
            self.out_pos = self.out_pos + 1;
            self.out = Ghost(self.out@.push(b));
            proof {
                assert(self.spec_pending() =~= old(self).spec_pending().skip(1));
            }
            return Some(Ok(b));
        }
        let ghost s0 = self.lzss.spec_text() + src.remaining();
        loop
            invariant
                self.wf(),
                self.out@ == old(self).out@,
                old(self).spec_pending().len() == 0,
                self.lzss.spec_text() + src.remaining() == s0,
                s0 == old(self).lzss.spec_text() + old(src).remaining(),
            decreases s0.len() - self.lzss.spec_popped(), if self.finished {
                0nat
            } else {
                1nat
            },
        {
            proof {
                self.lzss.lemma_codes_below_text();
            }
            let n = self.writer.get_ref().len();
            if self.out_pos < n {
                let b = self.writer.get_ref()[self.out_pos];
                self.out_pos = self.out_pos + 1;
                self.out = Ghost(self.out@.push(b));
                return Some(Ok(b));
            }
            match self.lzss.next(src, action) {
                Some(Ok(code)) => {
                    proof {
                        self.lzss.lemma_codes_below_text();
                    }
                    if let Err(e) = self.inner.next(&code, &mut self.writer) {
                        return Some(Err(e));
                    }
                },
                Some(Err(e)) => {
                    return Some(Err(e));
                },
                None => {
                    proof {
                        self.lzss.lemma_codes_below_text();
                    }
                    if self.finished {
                        self.finished = false;
                        if self.bit_finished {
                            self.bit_finished = false;
                            return None;
                        }
                        match action {
                            Action::Run => {
                                return None;
                            },
                            _ => {
                                self.bit_finished = true;
                                self.writer.flush();
                                let n = self.writer.get_ref().len();
                                if self.out_pos < n {
                                    let b = self.writer.get_ref()[self.out_pos];
                                    self.out_pos = self.out_pos + 1;
                                    self.out = Ghost(self.out@.push(b));
                                    return Some(Ok(b));
                                }
                                return None;
                            },
                        }
                    } else {
                        let res = match action {
                            Action::Flush => self.inner.flush(&mut self.writer),
                            Action::Finish => self.inner.finish(&mut self.writer),
                            Action::Run => Ok(()),
                        };
                        if let Err(e) = res {
                            return Some(Err(e));
                        }
                        self.finished = true;
                    }
                },
            }
        }
    }
}

} // verus!
