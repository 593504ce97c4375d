use vstd::prelude::*;
use crate::bit_reader::ByteSource;
use crate::bit_vector::{bits_msb, BitVector};
use crate::bit_writer::LeftBitWriter;
use crate::bitset::BitArray;
use crate::bzip2::mtf::{move_to_front, MtfPosition};
use crate::bzip2::{BZ_G_SIZE, HEADER_0, HEADER_B, HEADER_Z, HEADER_h};
use crate::compress::Action;
use crate::crc32::{ieee_normal, Digest, PolynomialRepresentation};
use crate::deflate::encoder::run_of;
use crate::error::CompressionError;
use crate::huffman::cano_huff_table::make_tab_with_fn;
use crate::huffman::decoder::lengths_make_code;
use crate::internal::creat_huffman_table;
use crate::suffix_array::sais::{bwt, sorted_rotations};

verus! {

/// Every value below `n` is in `list`.
pub open spec fn holds_all(list: Seq<usize>, n: nat) -> bool {
    forall|v: usize| v < n ==> #[trigger] list.contains(v)
}

/// Moving an entry to the front keeps every value of the list.
pub proof fn lemma_mtf_keeps(list: Seq<usize>, i: int, n: nat)
    requires
        0 <= i < list.len(),
        holds_all(list, n),
    ensures
        holds_all(move_to_front(list, i), n),
{
    let m = move_to_front(list, i);
    assert forall|v: usize| v < n implies #[trigger] m.contains(v) by {
        assert(list.contains(v));
        let k = choose|k: int| 0 <= k < list.len() && list[k] == v;
        if k == i {
            assert(m[0] == v);
        } else if k < i {
            assert(m[k + 1] == v);
        } else {
            assert(m[k] == v);
        }
    }
}

/// Writes the low `len` bits of `data`, first bit most significant.
pub(crate) fn put_bits(w: &mut LeftBitWriter, data: u32, len: usize) -> (r: Result<(), CompressionError>)
    requires
        old(w).attached(),
    ensures
        final(w).attached(),
        r is Ok ==> final(w).bits() == old(w).bits() + bits_msb(data, len as nat),
        r is Err ==> *final(w) == *old(w),
        len == 32 || (len < 32 && data < vstd::arithmetic::power2::pow2(len as nat)) ==> r is Ok,
        forall|p: Seq<bool>| p.is_prefix_of(old(w).bits()) ==> #[trigger] p.is_prefix_of(final(w).bits()),
{
    let b = run_of(data, len)?;
    w.write(&b);
    proof {
        assert forall|p: Seq<bool>| p.is_prefix_of(old(w).bits()) implies #[trigger] p.is_prefix_of(w.bits()) by {
            assert(p =~= w.bits().subrange(0, p.len() as int));
        }
    }
    Ok(())
}

/// The origin pointers written for the rotation order `sa` up to `k`: the
/// 24-bit index of each place where the block itself (rotation 0) stands.
pub open spec fn origin_bits(sa: Seq<usize>, k: int) -> Seq<bool>
    decreases k,
{
    if k <= 0 {
        Seq::empty()
    } else {
        origin_bits(sa, k - 1) + if sa[k - 1] == 0 {
            bits_msb((k - 1) as u32, 24)
        } else {
            Seq::empty()
        }
    }
}

/// Canonical codes of a set of code lengths, most significant bit first.
pub(crate) struct LeftCodeBook {
    tab: Vec<Option<BitVector>>,
}

impl LeftCodeBook {
    pub(crate) fn new(lens: &[u8]) -> (r: Option<LeftCodeBook>)
        requires
            lens@.len() <= 0x10000,
    {
        if !lengths_make_code(lens) {
            return None;
        }
        Some(LeftCodeBook { tab: creat_huffman_table(lens, false) })
    }

    /// Writes the code of `s`; fails if it has none.
    pub(crate) fn put(&self, w: &mut LeftBitWriter, s: usize) -> (r: Result<(), CompressionError>)
        requires
            old(w).attached(),
        ensures
            final(w).attached(),
            forall|p: Seq<bool>| p.is_prefix_of(old(w).bits()) ==> #[trigger] p.is_prefix_of(final(w).bits()),
    {
        if s < self.tab.len() {
            match self.tab[s] {
                Some(b) => put_bits(w, b.data(), b.len()),
                None => Err(CompressionError::Unexpected),
            }
        } else {
            Err(CompressionError::Unexpected)
        }
    }
}

/// Code lengths of at most `lim` bits for the counts `freq`, every count
/// taken as at least one; ties go to the shallower merge.
fn create_huffman(freq: &[usize], lim: usize) -> (r: Result<Vec<u8>, CompressionError>)
    requires
        1 <= lim <= 20,
        freq@.len() <= 258,
{
    let mut weight: Vec<usize> = Vec::new();
    let mut i: usize = 0;
    while i < freq.len()
        invariant
            i <= freq@.len(),
            weight@.len() == i,
            forall|k: int| 0 <= k < i ==> #[trigger] weight@[k] != 0,
        decreases freq@.len() - i,
    {
        let x = freq[i];
        if x >= 0x100_0000 {
            return Err(CompressionError::Unexpected);
        }
        let m = if x > 1 { x } else { 1 };
        weight.push(m * 256);
        i = i + 1;
    }
    proof {
        crate::huffman::cano_huff_table::lemma_used_bound(weight@, weight@.len() as int);
        vstd::arithmetic::power2::lemma2_to64();
        if lim < 17 {
            vstd::arithmetic::power2::lemma_pow2_strictly_increases(lim as nat, 17);
        }
        if lim > 17 {
            vstd::arithmetic::power2::lemma_pow2_strictly_increases(17, lim as nat);
        }
        assert(vstd::arithmetic::power2::pow2(9) == 512) by {
            vstd::arithmetic::power2::lemma2_to64();
        }
        if lim >= 9 {
            if lim > 9 {
                vstd::arithmetic::power2::lemma_pow2_strictly_increases(9, lim as nat);
            }
        }
    }
    if lim < 9 {
        return Err(CompressionError::Unexpected);
    }
    Ok(make_tab_with_fn(
        &weight,
        lim,
        |x: usize, y: usize|
            {
                let a = x & 0xFFFF_FF00usize;
                let b = y & 0xFFFF_FF00usize;
                let dx = x & 0xFFusize;
                let dy = y & 0xFFusize;
                let d = if dx > dy { dx } else { dy };
                a.wrapping_add(b) | d.wrapping_add(1)
            },
    ))
}

/// How the first run-length stage writes a run of `n` bytes `b`: up to
/// four as they are, and after four a byte counting the rest.
pub open spec fn rle1_run(b: u8, n: nat) -> Seq<u8> {
    if n < 4 {
        Seq::new(n, |i: int| b)
    } else {
        Seq::new(4, |i: int| b).push((n - 4) as u8)
    }
}

/// The inverse of the first run-length stage, as a bzip2 decoder undoes
/// it: after four equal bytes, the next byte is a count of further copies
/// of them. `last` and `count` are the byte just read (-1 for none) and how
/// many times in a row it came, when `s` begins.
pub open spec fn rle1_expand(s: Seq<u8>, last: int, count: nat) -> Seq<u8>
    decreases s.len(),
{
    if s.len() == 0 {
        Seq::empty()
    } else if count >= 4 {
        Seq::new(s[0] as nat, |i: int| last as u8) + rle1_expand(s.drop_first(), -1, 0)
    } else {
        let c: nat = if s[0] == last {
            count + 1
        } else {
            1
        };
        seq![s[0]] + rle1_expand(s.drop_first(), s[0] as int, c)
    }
}

/// The state of that decoder after `s`, begun in state `(last, count)`.
pub open spec fn rle1_end(s: Seq<u8>, last: int, count: nat) -> (int, nat)
    decreases s.len(),
{
    if s.len() == 0 {
        (last, count)
    } else if count >= 4 {
        rle1_end(s.drop_first(), -1, 0)
    } else {
        let c: nat = if s[0] == last {
            count + 1
        } else {
            1
        };
        rle1_end(s.drop_first(), s[0] as int, c)
    }
}

/// The decoder of the first run-length stage reads bytes written one after
/// another as it reads each part in turn, carrying its state across.
pub proof fn lemma_rle1_concat(a: Seq<u8>, b: Seq<u8>, last: int, count: nat)
    ensures
        rle1_expand(a + b, last, count) == rle1_expand(a, last, count) + rle1_expand(
            b,
            rle1_end(a, last, count).0,
            rle1_end(a, last, count).1,
        ),
        rle1_end(a + b, last, count) == rle1_end(b, rle1_end(a, last, count).0, rle1_end(a, last, count).1),
    decreases a.len(),
{
    if a.len() == 0 {
        assert(a + b =~= b);
    } else {
        assert((a + b).drop_first() =~= a.drop_first() + b);
        assert((a + b)[0] == a[0]);
        if count >= 4 {
            lemma_rle1_concat(a.drop_first(), b, -1, 0);
        } else {
            let c: nat = if a[0] == last {
                count + 1
            } else {
                1
            };
            lemma_rle1_concat(a.drop_first(), b, a[0] as int, c);
        }
    }
}

/// Round trip of the first run-length stage of bzip2. The bytes written
/// for a run of `n` bytes `b` (1 to 255, as the encoder gathers them) are
/// expanded by the decoder back to the run itself, from any state in which
/// it cannot mistake them for more of the run before: after a count byte,
/// or after a run of another byte. It leaves the decoder ready for a run of
/// any other byte.
pub proof fn lemma_rle1_round_trip(b: u8, n: nat, last: int, count: nat)
    requires
        1 <= n <= 255,
        count < 4,
        count == 0 || last != b,
    ensures
        rle1_expand(rle1_run(b, n), last, count) == Seq::new(n, |i: int| b),
        rle1_end(rle1_run(b, n), last, count) == (if n >= 4 {
            (-1int, 0nat)
        } else {
            (b as int, n)
        }),
{
    let r = rle1_run(b, n);
    lemma_rle1_suffix(b, n, 0, last, count);
    assert(r.skip(0) =~= r);
}

/// The steps of `lemma_rle1_round_trip`, from the `i`-th byte of the run on.
proof fn lemma_rle1_suffix(b: u8, n: nat, i: nat, last: int, count: nat)
    requires
        1 <= n <= 255,
        count < 4,
        count == 0 || last != b,
        i <= (if n < 4 { n } else { 4nat }),
    ensures
        rle1_expand(rle1_run(b, n).skip(i as int), if i == 0 { last } else { b as int }, if i == 0 { count } else { i })
            == Seq::new((n - i) as nat, |j: int| b),
        rle1_end(rle1_run(b, n).skip(i as int), if i == 0 { last } else { b as int }, if i == 0 { count } else { i })
            == (if n >= 4 {
            (-1int, 0nat)
        } else {
            (b as int, n)
        }),
    decreases 5 - i,
{
    let r = rle1_run(b, n);
    let t = r.skip(i as int);
    let l: int = if i == 0 { last } else { b as int };
    let c: nat = if i == 0 { count } else { i };
    if n < 4 && i == n {
        assert(t.len() == 0);
        assert(Seq::new((n - i) as nat, |j: int| b) =~= Seq::<u8>::empty());
        assert(rle1_end(t, l, c) == (l, c));
    } else if n >= 4 && i == 4 {
        assert(t =~= seq![(n - 4) as u8]);
        assert(t.drop_first() =~= Seq::<u8>::empty());
        assert(rle1_expand(t.drop_first(), -1, 0) == Seq::<u8>::empty());
        assert(rle1_end(t.drop_first(), -1, 0) == (-1int, 0nat));
        assert(rle1_end(t, l, c) == rle1_end(t.drop_first(), -1, 0));
        assert(Seq::new(t[0] as nat, |j: int| l as u8) + Seq::<u8>::empty() =~= Seq::new((n - i) as nat, |j: int| b));
    } else {
        assert(t[0] == b);
        assert(t.drop_first() =~= r.skip(i + 1 as int));
        assert(c < 4);
        let c2: nat = if t[0] == l { c + 1 } else { 1 };
        assert(c2 == i + 1);
        lemma_rle1_suffix(b, n, i + 1, last, count);
        assert(rle1_end(t, l, c) == rle1_end(t.drop_first(), b as int, c2));
        assert(rle1_expand(t, l, c) == seq![t[0]] + rle1_expand(t.drop_first(), b as int, c2));
        assert(seq![b] + Seq::new((n - i - 1) as nat, |j: int| b) =~= Seq::new((n - i) as nat, |j: int| b));
    }
}

/// The bijective base-2 digits, least significant first, of `z - 1` as a
/// run of zeros: `0` stands for one, `1` for two.
pub open spec fn zle_digits(z: nat) -> Seq<u16>
    decreases z,
{
    if z <= 1 {
        Seq::empty()
    } else {
        seq![(z % 2) as u16] + zle_digits(z / 2)
    }
}

/// How many times `d` occurs in `ds`.
pub open spec fn digit_count(ds: Seq<u16>, d: u16) -> nat
    decreases ds.len(),
{
    if ds.len() == 0 {
        0
    } else {
        digit_count(ds.drop_last(), d) + if ds.last() == d {
            1nat
        } else {
            0nat
        }
    }
}

/// Counting `d` in the first `k` digits and in the rest adds up to the
/// whole.
proof fn lemma_digit_count_prefix(ds: Seq<u16>, k: int, d: u16)
    requires
        0 <= k <= ds.len(),
    ensures
        digit_count(ds.take(k), d) <= digit_count(ds, d),
    decreases ds.len() - k,
{
    if k < ds.len() {
        lemma_digit_count_prefix(ds, k + 1, d);
        assert(ds.take(k + 1).drop_last() =~= ds.take(k));
    } else {
        assert(ds.take(k) =~= ds);
    }
}

/// The block side of the bzip2 encoder: the first run-length coding,
/// the block CRC, and the coding of a full block (BWT, move-to-front,
/// run-length coding of zeros, several Huffman tables).
pub struct EncoderInner {
    block_buf: Vec<u8>,
    finished: bool,
    block_size_100k: usize,
    block_max_len: usize,
    combined_crc: u32,
    block_no: usize,
    block_crc: Digest,
    rle_buffer: u8,
    rle_count: usize,
    in_use: BitArray,
    mtf_buffer: Vec<u16>,
    block_taken: Ghost<Seq<u8>>,
}

impl EncoderInner {
    pub closed spec fn wf(&self) -> bool {
        &&& 1 <= self.block_size_100k <= 9
        &&& self.block_max_len == self.block_size_100k * 100_000 - 19
        &&& self.block_buf@.len() < self.block_max_len
        &&& self.rle_count <= 255
        &&& self.in_use.wf()
        &&& self.in_use.spec_len() == 256
        &&& self.block_crc.wf()
        &&& self.mtf_buffer@.len() == self.block_size_100k * 100_000 + 1
        &&& self.stage1_ok()
    }

    /// The open block and the pending run account for the bytes taken
    /// since the block was opened: the block expands back to them, short of
    /// the pending run, and leaves the decoder in a state in which the run
    /// will be read as written.
    pub closed spec fn stage1_ok(&self) -> bool {
        let (l, c) = rle1_end(self.block_buf@, -1, 0);
        &&& self.rle_count == 0 ==> self.block_buf@.len() == 0
        &&& c < 4
        &&& self.rle_count > 0 && c > 0 ==> l != self.rle_buffer as int
        &&& rle1_expand(self.block_buf@, -1, 0) + Seq::new(self.rle_count as nat, |i: int| self.rle_buffer)
            == self.block_taken@
    }

    /// The bytes taken since the open block was begun.
    pub closed spec fn spec_block_taken(&self) -> Seq<u8> {
        self.block_taken@
    }

    /// The byte of the pending run.
    pub closed spec fn spec_run_byte(&self) -> u8 {
        self.rle_buffer
    }

    /// The bytes of the open block, expanded as a bzip2 decoder undoes the
    /// first run-length stage, followed by the pending run, are the bytes
    /// taken since the block was begun.
    pub proof fn lemma_block_expands(&self)
        requires
            self.wf(),
        ensures
            rle1_expand(self.spec_block(), -1, 0) + Seq::new(self.spec_run_count(), |i: int| self.spec_run_byte())
                == self.spec_block_taken(),
    {
    }

    /// The last block has been written.
    pub closed spec fn spec_finished(&self) -> bool {
        self.finished
    }

    /// The bytes of the open block, after the first run-length coding.
    pub closed spec fn spec_block(&self) -> Seq<u8> {
        self.block_buf@
    }

    /// The block size, in hundred thousands of bytes.
    pub closed spec fn spec_level(&self) -> nat {
        self.block_size_100k as nat
    }

    /// How long the open block may grow.
    pub closed spec fn spec_block_max_len(&self) -> nat {
        self.block_max_len as nat
    }

    /// The number of the open block, from 1.
    pub closed spec fn spec_block_no(&self) -> nat {
        self.block_no as nat
    }

    /// The combined CRC of the blocks written so far.
    pub closed spec fn spec_combined_crc(&self) -> u32 {
        self.combined_crc
    }

    /// How many times the last byte taken repeats in the pending run.
    pub closed spec fn spec_run_count(&self) -> nat {
        self.rle_count as nat
    }

    /// An encoder for blocks of `level` hundred thousand bytes.
    pub fn new(level: usize) -> (r: Self)
        requires
            1 <= level <= 9,
        ensures
            r.wf(),
            !r.spec_finished(),
            r.spec_block().len() == 0,
            r.spec_level() == level,
            r.spec_block_max_len() == level * 100_000 - 19,
            r.spec_block_no() == 1,
            r.spec_combined_crc() == 0,
            r.spec_run_count() == 0,
            r.spec_block_taken() == Seq::<u8>::empty(),
    {
        let block_max_len = level * 100_000 - 19;
        let r = Self {
            block_buf: Vec::new(),
            finished: false,
            block_size_100k: level,
            block_max_len,
            block_crc: ieee_normal().build_hasher(),
            rle_buffer: 0,
            rle_count: 0,
            block_no: 1,
            combined_crc: 0,
            in_use: BitArray::new(256),
            mtf_buffer: vec![0u16; level * 100_000 + 1],
            block_taken: Ghost(Seq::empty()),
        };
        proof {
            assert(r.block_taken@ =~= rle1_expand(r.block_buf@, -1, 0) + Seq::new(0nat, |i: int| r.rle_buffer));
        }
        r
    }

    fn prepare_new_block(&mut self)
        requires
            1 <= old(self).block_size_100k <= 9,
            old(self).block_max_len == old(self).block_size_100k * 100_000 - 19,
            old(self).rle_count <= 255,
            old(self).in_use.wf(),
            old(self).in_use.spec_len() == 256,
            old(self).mtf_buffer@.len() == old(self).block_size_100k * 100_000 + 1,
        ensures
            final(self).wf(),
            final(self).block_buf@.len() == 0,
            final(self).finished == old(self).finished,
            final(self).rle_count == old(self).rle_count,
            final(self).rle_buffer == old(self).rle_buffer,
            final(self).block_taken@ == Seq::new(old(self).rle_count as nat, |i: int| old(self).rle_buffer),
    {
        if self.block_no < usize::MAX {
            self.block_no = self.block_no + 1;
        }
        self.block_crc = ieee_normal().build_hasher();
        self.block_buf.clear();
        self.in_use.set_all(false);
        self.block_taken = Ghost(Seq::new(self.rle_count as nat, |i: int| self.rle_buffer));
        proof {
            assert(self.block_taken@ =~= rle1_expand(self.block_buf@, -1, 0) + Seq::new(
                self.rle_count as nat,
                |i: int| self.rle_buffer,
            ));
        }
    }

    /// Adds the pending run to the block: up to four bytes as they are, a
    /// fifth byte counting the rest of a run of four or more.
    fn write_rle(&mut self)
        requires
            old(self).wf(),
        ensures
            final(self).block_buf@.len() <= old(self).block_buf@.len() + 5,
            1 <= final(self).block_size_100k <= 9,
            final(self).block_size_100k == old(self).block_size_100k,
            final(self).block_max_len == old(self).block_max_len,
            final(self).rle_count == old(self).rle_count,
            final(self).rle_buffer == old(self).rle_buffer,
            final(self).finished == old(self).finished,
            final(self).in_use.wf(),
            final(self).in_use.spec_len() == 256,
            final(self).block_crc.wf(),
            final(self).mtf_buffer@ == old(self).mtf_buffer@,
            final(self).block_buf@ == old(self).block_buf@ + rle1_run(old(self).rle_buffer, old(self).rle_count as nat),
    {
        let mut k: usize = 0;
        while k < self.rle_count
            invariant
                self.block_crc.wf(),
                self.block_buf == old(self).block_buf,
                self.in_use == old(self).in_use,
                self.rle_count == old(self).rle_count,
                self.rle_buffer == old(self).rle_buffer,
                self.block_size_100k == old(self).block_size_100k,
                self.block_max_len == old(self).block_max_len,
                self.finished == old(self).finished,
                self.mtf_buffer == old(self).mtf_buffer,
            decreases self.rle_count - k,
        {
            self.block_crc.write_u8(self.rle_buffer);
            k = k + 1;
        }
        let ret_count = if self.rle_count < 4 { self.rle_count } else { 4 };
        let mut k: usize = 0;
        while k < ret_count
            invariant
                k <= ret_count <= 4,
                self.block_buf@.len() == old(self).block_buf@.len() + k,
                self.block_buf@ == old(self).block_buf@ + Seq::new(k as nat, |i: int| old(self).rle_buffer),
                self.in_use.wf(),
                self.in_use.spec_len() == 256,
                self.in_use.words().len() == 4,
                self.block_crc.wf(),
                self.rle_count == old(self).rle_count,
                self.rle_count <= 255,
                ret_count == (if self.rle_count < 4 { self.rle_count } else { 4 }),
                self.rle_buffer == old(self).rle_buffer,
                self.block_size_100k == old(self).block_size_100k,
                1 <= self.block_size_100k <= 9,
                self.block_max_len == old(self).block_max_len,
                self.finished == old(self).finished,
                self.mtf_buffer == old(self).mtf_buffer,
            decreases ret_count - k,
        {
            let v = self.rle_buffer;
            self.in_use.set(v as usize, true);
            self.block_buf.push(v);
            k = k + 1;
            assert(self.block_buf@ =~= old(self).block_buf@ + Seq::new(k as nat, |i: int| old(self).rle_buffer));
        }
        if ret_count == 4 {
            let v = (self.rle_count - 4) as u8;
            self.in_use.set(v as usize, true);
            self.block_buf.push(v);
        }
        assert(self.block_buf@ =~= old(self).block_buf@ + rle1_run(old(self).rle_buffer, old(self).rle_count as nat));
    }

    /// Appends the zero run `zero_count` in the bijective base-2 digits
    /// (`0` for one, `1` for two) that stand for it.
    fn zle_write(&mut self, zero_count: usize, mtf_freq: &mut Vec<usize>, mtf_count: &mut usize) -> (r: Result<(), CompressionError>)
        requires
            old(mtf_freq)@.len() >= 2,
        ensures
            ({
                let ds = zle_digits((zero_count + 1) as nat);
                let c0 = *old(mtf_count);
                &&& zero_count == 0 ==> r is Ok && *final(mtf_count) == c0 && final(mtf_freq)@ == old(mtf_freq)@
                    && final(self).mtf_buffer@ == old(self).mtf_buffer@
                &&& r is Ok && zero_count > 0 ==> {
                    &&& *final(mtf_count) == c0 + ds.len()
                    &&& final(self).mtf_buffer@ == old(self).mtf_buffer@.subrange(0, c0 as int) + ds + old(
                        self,
                    ).mtf_buffer@.skip(c0 + ds.len())
                    &&& final(mtf_freq)@ == old(mtf_freq)@.update(0, (old(mtf_freq)@[0] + digit_count(ds, 0)) as usize).update(
                        1,
                        (old(mtf_freq)@[1] + digit_count(ds, 1)) as usize,
                    )
                }
                &&& r is Err ==> r == Err::<(), CompressionError>(CompressionError::Unexpected)
                &&& zero_count < usize::MAX && c0 + ds.len() <= old(self).mtf_buffer@.len() && old(mtf_freq)@[0]
                    + digit_count(ds, 0) <= usize::MAX && old(mtf_freq)@[1] + digit_count(ds, 1) <= usize::MAX ==> r is Ok
            }),
            final(mtf_freq)@.len() == old(mtf_freq)@.len(),
            final(self).mtf_buffer@.len() == old(self).mtf_buffer@.len(),
            final(self).block_buf == old(self).block_buf,
            final(self).block_size_100k == old(self).block_size_100k,
            final(self).block_max_len == old(self).block_max_len,
            final(self).rle_count == old(self).rle_count,
            final(self).rle_buffer == old(self).rle_buffer,
            final(self).in_use == old(self).in_use,
            final(self).block_crc == old(self).block_crc,
            final(self).finished == old(self).finished,
    {
        let ghost ds = zle_digits((zero_count + 1) as nat);
        let ghost c0 = *mtf_count;
        if zero_count != 0 {
            if zero_count == usize::MAX {
                return Err(CompressionError::Unexpected);
            }
            let mut z = zero_count + 1;
            if *mtf_count >= self.mtf_buffer.len() {
                return Err(CompressionError::Unexpected);
            }
            proof {
                lemma_digit_count_prefix(ds, 0, 0);
                assert(self.mtf_buffer@ =~= old(self).mtf_buffer@.subrange(0, c0 as int) + ds.take(0) + old(
                    self,
                ).mtf_buffer@.skip(c0 as int));
            }
            while z > 1
                invariant
                    1 <= z,
                    ds == zle_digits((zero_count + 1) as nat),
                    c0 == *old(mtf_count),
                    c0 <= *mtf_count,
                    ({
                        let k = *mtf_count - c0;
                        &&& k <= ds.len()
                        &&& ds == ds.take(k) + zle_digits(z as nat)
                        &&& self.mtf_buffer@ == old(self).mtf_buffer@.subrange(0, c0 as int) + ds.take(k) + old(
                            self,
                        ).mtf_buffer@.skip(c0 + k)
                        &&& old(mtf_freq)@[0] + digit_count(ds.take(k), 0) <= usize::MAX
                        &&& old(mtf_freq)@[1] + digit_count(ds.take(k), 1) <= usize::MAX
                        &&& mtf_freq@ == old(mtf_freq)@.update(0, (old(mtf_freq)@[0] + digit_count(ds.take(k), 0)) as usize).update(
                            1,
                            (old(mtf_freq)@[1] + digit_count(ds.take(k), 1)) as usize,
                        )
                    }),
                    zero_count < usize::MAX && c0 + ds.len() <= old(self).mtf_buffer@.len() && old(mtf_freq)@[0]
                        + digit_count(ds, 0) <= usize::MAX && old(mtf_freq)@[1] + digit_count(ds, 1) <= usize::MAX
                        ==> c0 + ds.len() <= old(self).mtf_buffer@.len() && old(mtf_freq)@[0] + digit_count(ds, 0)
                        <= usize::MAX && old(mtf_freq)@[1] + digit_count(ds, 1) <= usize::MAX,
                    mtf_freq@.len() == old(mtf_freq)@.len(),
                    self.mtf_buffer@.len() == old(self).mtf_buffer@.len(),
                    self.block_buf == old(self).block_buf,
                    self.block_size_100k == old(self).block_size_100k,
                    self.block_max_len == old(self).block_max_len,
                    self.rle_count == old(self).rle_count,
                    self.rle_buffer == old(self).rle_buffer,
                    self.in_use == old(self).in_use,
                    self.block_crc == old(self).block_crc,
                    self.finished == old(self).finished,
                    old(mtf_freq)@.len() >= 2,
                decreases z,
            {
                let run = z % 2;
                let c = *mtf_count;
                let ghost k = (c - c0) as int;
                proof {
                    assert(zle_digits(z as nat) == seq![(z % 2) as u16] + zle_digits((z / 2) as nat));
                    assert(ds.take(k + 1) =~= ds.take(k).push(run as u16));
                    assert(ds =~= ds.take(k + 1) + zle_digits((z / 2) as nat));
                    lemma_digit_count_prefix(ds, k + 1, 0);
                    lemma_digit_count_prefix(ds, k + 1, 1);
                    assert(ds.take(k + 1).drop_last() =~= ds.take(k));
                    assert(ds.take(k + 1).last() == run as u16);
                    assert((run as u16 == 0u16) == (run == 0));
                    assert((run as u16 == 1u16) == (run == 1));
                    assert(digit_count(ds.take(k + 1), 0) == digit_count(ds.take(k), 0) + if run == 0 { 1int } else { 0 });
                    assert(digit_count(ds.take(k + 1), 1) == digit_count(ds.take(k), 1) + if run == 1 { 1int } else { 0 });
                    assert(mtf_freq@[run as int] == old(mtf_freq)@[run as int] + digit_count(ds.take(k), run as u16));
                }
                if c >= self.mtf_buffer.len() {
                    return Err(CompressionError::Unexpected);
                }
                self.mtf_buffer.set(c, run as u16);
                *mtf_count = c + 1;
                let f = mtf_freq[run];
                if f == usize::MAX {
                    return Err(CompressionError::Unexpected);
                }
                mtf_freq.set(run, f + 1);
                proof {
                    assert(self.mtf_buffer@ =~= old(self).mtf_buffer@.subrange(0, c0 as int) + ds.take(k + 1) + old(
                        self,
                    ).mtf_buffer@.skip(c0 + k + 1));
                    assert(mtf_freq@ =~= old(mtf_freq)@.update(0, (old(mtf_freq)@[0] + digit_count(ds.take(k + 1), 0)) as usize).update(
                        1,
                        (old(mtf_freq)@[1] + digit_count(ds.take(k + 1), 1)) as usize,
                    ));
                }
                z = z / 2;
            }
            proof {
                assert(zle_digits(z as nat) =~= Seq::<u16>::empty());
                assert(ds.take((*mtf_count - c0) as int) =~= ds);
            }
        } else {
            proof {
                assert(ds =~= Seq::<u16>::empty());
                assert(old(mtf_freq)@.update(0, (old(mtf_freq)@[0] + digit_count(ds, 0)) as usize).update(
                    1,
                    (old(mtf_freq)@[1] + digit_count(ds, 1)) as usize,
                ) =~= old(mtf_freq)@);
            }
        }
        Ok(())
    }
}

/// The first cost tables: symbols `0..alpha_size` cut into `group_num`
/// ranges of about equal total count, each table cheap (0) on its range
/// and dear (15) elsewhere; the list is built from the last range down.
fn initial_tables(mtf_freq: &Vec<usize>, mtf_count: usize, alpha_size: usize, group_num: usize) -> (r: Result<Vec<Vec<u8>>, CompressionError>)
    requires
        mtf_freq@.len() == alpha_size,
        2 <= group_num <= 6,
        alpha_size <= 258,
    ensures
        r matches Ok(v) ==> v@.len() == group_num,
{
    let mut len: Vec<Vec<u8>> = Vec::new();
    let mut rem: u64 = mtf_count as u64;
    let mut gs: usize = 0;
    let mut n_part: usize = group_num;
    while n_part > 0
        invariant
            n_part <= group_num,
            len@.len() == group_num - n_part,
            mtf_freq@.len() == alpha_size,
            2 <= group_num <= 6,
            alpha_size <= 258,
            gs <= alpha_size,
        decreases n_part,
    {
        let t_freq = rem / (n_part as u64);
        let mut ge1: usize = gs;
        let mut a_freq: u64 = 0;
        while a_freq < t_freq && ge1 < alpha_size
            invariant
                gs <= ge1 <= alpha_size,
                mtf_freq@.len() == alpha_size,
            decreases alpha_size - ge1,
        {
            a_freq = match a_freq.checked_add(mtf_freq[ge1] as u64) {
                Some(v) => v,
                None => return Err(CompressionError::Unexpected),
            };
            ge1 = ge1 + 1;
        }
        if ge1 > gs + 1 && n_part != group_num && n_part != 1 && (group_num - n_part) % 2 == 1 {
            ge1 = ge1 - 1;
            let f = mtf_freq[ge1] as u64;
            if f > a_freq {
                return Err(CompressionError::Unexpected);
            }
            a_freq = a_freq - f;
        }
        if a_freq > rem {
            return Err(CompressionError::Unexpected);
        }
        let mut row: Vec<u8> = Vec::new();
        let mut i: usize = 0;
        while i < alpha_size
            invariant
                i <= alpha_size,
            decreases alpha_size - i,
        {
            row.push(if gs <= i && i < ge1 { 0 } else { 15 });
            i = i + 1;
        }
        len.push(row);
        rem = rem - a_freq;
        gs = ge1;
        n_part = n_part - 1;
    }
    Ok(len)
}

/// The sum of the code lengths under `table` of the symbols `buf[gs..ge]`.
fn group_cost(buf: &Vec<u16>, gs: usize, ge: usize, table: &Vec<u8>) -> (r: Result<u32, CompressionError>)
    requires
        gs <= ge <= buf@.len(),
        ge - gs <= 50,
{
    let mut cost: u32 = 0;
    let mut q = gs;
    while q < ge
        invariant
            gs <= q <= ge,
            cost <= (q - gs) * 255,
            ge - gs <= 50,
            ge <= buf@.len(),
        decreases ge - q,
    {
        let x = buf[q] as usize;
        if x >= table.len() {
            return Err(CompressionError::Unexpected);
        }
        cost = cost + table[x] as u32;
        q = q + 1;
    }
    Ok(cost)
}

impl EncoderInner {
    /// Runs the block through the BWT and move-to-front coding (writing
    /// where the original string went in the sort), codes the zero runs,
    /// and ends with the end-of-block symbol. Returns the symbol counts,
    /// how many symbols there are, and how many byte values the block uses.
    #[verifier::loop_isolation(false)]
    fn gen_mtf(&mut self, w: &mut LeftBitWriter) -> (r: Result<(Vec<usize>, usize, usize), CompressionError>)
        requires
            old(self).in_use.wf(),
            old(self).in_use.spec_len() == 256,
            1 <= old(self).block_buf@.len() <= 1_000_000,
            old(w).attached(),
        ensures
            final(w).attached(),
            final(self).mtf_buffer@.len() == old(self).mtf_buffer@.len(),
            final(self).block_buf == old(self).block_buf,
            final(self).block_size_100k == old(self).block_size_100k,
            final(self).block_max_len == old(self).block_max_len,
            final(self).rle_count == old(self).rle_count,
            final(self).rle_buffer == old(self).rle_buffer,
            final(self).in_use == old(self).in_use,
            final(self).block_crc == old(self).block_crc,
            final(self).finished == old(self).finished,
            r matches Ok((f, c, u)) ==> f@.len() == u + 2 && u <= 256 && c <= final(self).mtf_buffer@.len(),
            r is Ok ==> exists|sa: Seq<usize>|
                #[trigger] sorted_rotations(old(self).block_buf@, sa) && final(w).bits() == old(w).bits()
                    + origin_bits(sa, sa.len() as int),
    {
        let mut in_use_count: usize = 0;
        let mut unseq2seq: Vec<u8> = vec![0u8; 256];
        let mut i: usize = 0;
        while i < 256
            invariant
                in_use_count <= i <= 256,
                unseq2seq@.len() == 256,
                self.in_use.wf(),
                self.in_use.spec_len() == 256,
                self.in_use.words().len() == 4,
            decreases 256 - i,
        {
            if self.in_use.get(i) {
                unseq2seq.set(i, in_use_count as u8);
                in_use_count = in_use_count + 1;
            }
            i = i + 1;
        }
        let eob = in_use_count + 1;
        let n = self.block_buf.len();
        let sa = bwt(&self.block_buf, 255);
        let mut mtf_table = MtfPosition::new(in_use_count);
        proof {
            assert forall|v: usize| v < in_use_count implies #[trigger] mtf_table@.contains(v) by {
                assert(mtf_table@[v as int] == v);
            }
        }
        let mut zero_count: usize = 0;
        let mut mtf_freq: Vec<usize> = vec![0usize; in_use_count + 2];
        let mut mtf_count: usize = 0;
        let mut i: usize = 0;
        proof {
            assert(w.bits() =~= old(w).bits() + origin_bits(sa@, 0));
            vstd::arithmetic::power2::lemma2_to64();
        }
        while i < sa.len()
            invariant
                sorted_rotations(old(self).block_buf@, sa@),
                sa@.len() == n,
                n <= 1_000_000,
                vstd::arithmetic::power2::pow2(24) == 0x100_0000,
                w.bits() == old(w).bits() + origin_bits(sa@, i as int),
                holds_all(mtf_table@, in_use_count as nat),
                mtf_table@.len() == in_use_count,
                mtf_freq@.len() == in_use_count + 2,
                in_use_count <= 256,
                zero_count <= i,
                i <= sa@.len(),
                w.attached(),
                n == self.block_buf@.len(),
                unseq2seq@.len() == 256,
                self.mtf_buffer@.len() == old(self).mtf_buffer@.len(),
                self.block_buf == old(self).block_buf,
                self.block_size_100k == old(self).block_size_100k,
                self.block_max_len == old(self).block_max_len,
                self.rle_count == old(self).rle_count,
                self.rle_buffer == old(self).rle_buffer,
                self.in_use == old(self).in_use,
                self.block_crc == old(self).block_crc,
                self.finished == old(self).finished,
            decreases sa@.len() - i,
        {
            let s = sa[i];
            let j = if s == 0 {
                put_bits(w, i as u32, 24)?;
                n - 1
            } else {
                s - 1
            };
            proof {
                assert(w.bits() =~= old(w).bits() + origin_bits(sa@, i + 1));
            }
            if j >= n {
                return Err(CompressionError::Unexpected);
            }
            let val = unseq2seq[self.block_buf[j] as usize] as usize;
            if val >= in_use_count {
                return Err(CompressionError::Unexpected);
            }
            let ghost before = mtf_table@;
            assert(before.contains(val));
            let p = mtf_table.pop(val);
            proof {
                lemma_mtf_keeps(before, p as int, in_use_count as nat);
            }
            let c = p + 1;
            if c == 1 {
                zero_count = zero_count + 1;
            } else {
                self.zle_write(zero_count, &mut mtf_freq, &mut mtf_count)?;
                zero_count = 0;
                if mtf_count >= self.mtf_buffer.len() {
                    return Err(CompressionError::Unexpected);
                }
                self.mtf_buffer.set(mtf_count, c as u16);
                mtf_count = mtf_count + 1;
                let f = mtf_freq[c];
                if f == usize::MAX {
                    return Err(CompressionError::Unexpected);
                }
                mtf_freq.set(c, f + 1);
            }
            i = i + 1;
        }
        self.zle_write(zero_count, &mut mtf_freq, &mut mtf_count)?;
        if mtf_count >= self.mtf_buffer.len() {
            return Err(CompressionError::Unexpected);
        }
        self.mtf_buffer.set(mtf_count, eob as u16);
        mtf_count = mtf_count + 1;
        let f = mtf_freq[eob];
        if f == usize::MAX {
            return Err(CompressionError::Unexpected);
        }
        mtf_freq.set(eob, f + 1);
        assert(sorted_rotations(old(self).block_buf@, sa@));
        Ok((mtf_freq, mtf_count, in_use_count))
    }
}

impl EncoderInner {
    /// Improves the tables four times: each group of 50 symbols picks the
    /// table (counted from the last) that codes it in the fewest bits, the
    /// first such on a tie, and the tables are rebuilt from the counts of
    /// the groups that picked them. Returns the tables and the picks.
    #[verifier::loop_isolation(false)]
    fn refine_tables(&self, init: Vec<Vec<u8>>, mtf_count: usize, alpha_size: usize, group_num: usize) -> (r: Result<
        (Vec<Vec<u8>>, Vec<usize>),
        CompressionError,
    >)
        requires
            init@.len() == group_num,
            2 <= group_num <= 6,
            alpha_size <= 258,
            mtf_count <= self.mtf_buffer@.len(),
        ensures
            r matches Ok((t, sel)) ==> t@.len() == group_num && forall|q: int| 0 <= q < sel@.len() ==> #[trigger] sel@[q] < group_num,
    {
        assert(group_num * alpha_size <= 6 * 258) by (nonlinear_arith)
            requires
                group_num <= 6,
                alpha_size <= 258,
        ;
        let mut len = init;
        let mut selector: Vec<usize> = Vec::new();
        let mut iter: usize = 0;
        while iter < 4
            invariant
                len@.len() == group_num,
                forall|q: int| 0 <= q < selector@.len() ==> #[trigger] selector@[q] < group_num,
            decreases 4 - iter,
        {
            let mut rfreq: Vec<usize> = vec![0usize; group_num * alpha_size];
            selector = Vec::new();
            let mut gs: usize = 0;
            while gs < mtf_count
                invariant
                    gs <= mtf_count,
                    len@.len() == group_num,
                    rfreq@.len() == group_num * alpha_size,
                    forall|q: int| 0 <= q < selector@.len() ==> #[trigger] selector@[q] < group_num,
                decreases mtf_count - gs,
            {
                let ge = if mtf_count - gs > BZ_G_SIZE { gs + BZ_G_SIZE } else { mtf_count };
                let mut bt: usize = 0;
                let mut bc: u32 = 0;
                let mut k: usize = 0;
                while k < group_num
                    invariant
                        k <= group_num,
                        bt < group_num,
                        len@.len() == group_num,
                    decreases group_num - k,
                {
                    let cost = group_cost(&self.mtf_buffer, gs, ge, &len[group_num - 1 - k])?;
                    if k == 0 || cost < bc {
                        bt = k;
                        bc = cost;
                    }
                    k = k + 1;
                }
                selector.push(bt);
                let mut q = gs;
                while q < ge
                    invariant
                        gs <= q <= ge,
                        rfreq@.len() == group_num * alpha_size,
                        bt < group_num,
                    decreases ge - q,
                {
                    let x = self.mtf_buffer[q] as usize;
                    if x >= alpha_size {
                        return Err(CompressionError::Unexpected);
                    }
                    assert(bt * alpha_size + x < group_num * alpha_size) by (nonlinear_arith)
                        requires
                            bt < group_num,
                            x < alpha_size,
                    ;
                    let idx = bt * alpha_size + x;
                    let f = rfreq[idx];
                    if f == usize::MAX {
                        return Err(CompressionError::Unexpected);
                    }
                    rfreq.set(idx, f + 1);
                    q = q + 1;
                }
                gs = ge;
            }
            let mut new_len: Vec<Vec<u8>> = Vec::new();
            let mut k: usize = 0;
            while k < group_num
                invariant
                    k <= group_num,
                    new_len@.len() == k,
                    rfreq@.len() == group_num * alpha_size,
                decreases group_num - k,
            {
                let t = group_num - 1 - k;
                let mut row: Vec<usize> = Vec::new();
                let mut x: usize = 0;
                while x < alpha_size
                    invariant
                        x <= alpha_size,
                        row@.len() == x,
                        t < group_num,
                        rfreq@.len() == group_num * alpha_size,
                    decreases alpha_size - x,
                {
                    assert(t * alpha_size + x < group_num * alpha_size) by (nonlinear_arith)
                        requires
                            t < group_num,
                            x < alpha_size,
                    ;
                    row.push(rfreq[t * alpha_size + x]);
                    x = x + 1;
                }
                let table = create_huffman(&row, 17)?;
                new_len.push(table);
                k = k + 1;
            }
            len = new_len;
            iter = iter + 1;
        }
        Ok((len, selector))
    }

    /// Writes the block: where the original string went, the byte values
    /// used, the table picks (move-to-front coded, in unary), the tables
    /// (lengths as deltas) and the symbols.
    #[verifier::loop_isolation(false)]
    fn write_blockdata(&mut self, w: &mut LeftBitWriter) -> (r: Result<(), CompressionError>)
        requires
            old(self).in_use.wf(),
            old(self).in_use.spec_len() == 256,
            1 <= old(self).block_buf@.len() <= 1_000_000,
            old(w).attached(),
        ensures
            final(w).attached(),
            final(self).mtf_buffer@.len() == old(self).mtf_buffer@.len(),
            final(self).block_buf == old(self).block_buf,
            final(self).block_size_100k == old(self).block_size_100k,
            final(self).block_max_len == old(self).block_max_len,
            final(self).rle_count == old(self).rle_count,
            final(self).rle_buffer == old(self).rle_buffer,
            final(self).in_use == old(self).in_use,
            final(self).block_crc == old(self).block_crc,
            final(self).finished == old(self).finished,
            r is Ok ==> exists|sa: Seq<usize>|
                #[trigger] sorted_rotations(old(self).block_buf@, sa) && (old(w).bits() + origin_bits(
                    sa,
                    sa.len() as int,
                )).is_prefix_of(final(w).bits()),
    {
        let (mtf_freq, mtf_count, in_use_count) = self.gen_mtf(w)?;
        let ghost p0 = w.bits();
        proof {
            assert(p0.is_prefix_of(w.bits())) by {
                assert(p0 =~= w.bits().subrange(0, p0.len() as int));
            }
        }
        let alpha_size = in_use_count + 2;
        let group_num: usize = if mtf_count < 200 {
            2
        } else if mtf_count < 600 {
            3
        } else if mtf_count < 1200 {
            4
        } else if mtf_count < 2400 {
            5
        } else {
            6
        };
        let init = initial_tables(&mtf_freq, mtf_count, alpha_size, group_num)?;
        let (len, selector) = self.refine_tables(init, mtf_count, alpha_size, group_num)?;
        let mut books: Vec<LeftCodeBook> = Vec::new();
        let mut k: usize = 0;
        while k < group_num
            invariant
                k <= group_num,
                books@.len() == k,
                len@.len() == group_num,
            decreases group_num - k,
        {
            let l = &len[group_num - 1 - k];
            if l.len() > 0x10000 {
                return Err(CompressionError::Unexpected);
            }
            match LeftCodeBook::new(l) {
                Some(b) => books.push(b),
                None => return Err(CompressionError::Unexpected),
            }
            k = k + 1;
        }
        // the byte values used, in sixteen ranges of sixteen
        let mut in_use16: Vec<bool> = Vec::new();
        let mut v16: u32 = 0;
        proof {
            vstd::arithmetic::power2::lemma2_to64();
        }
        let mut i: usize = 0;
        while i < 16
            invariant
                i <= 16,
                in_use16@.len() == i,
                v16 < vstd::arithmetic::power2::pow2(i as nat),
                self.in_use.wf(),
                self.in_use.spec_len() == 256,
                self.in_use.words().len() == 4,
            decreases 16 - i,
        {
            let mut any = false;
            let mut j: usize = 0;
            while j < 16
                invariant
                    j <= 16,
                    i < 16,
                    self.in_use.words().len() == 4,
                decreases 16 - j,
            {
                if self.in_use.get(i * 16 + j) {
                    any = true;
                }
                j = j + 1;
            }
            in_use16.push(any);
            proof {
                vstd::arithmetic::power2::lemma2_to64();
                vstd::arithmetic::power2::lemma_pow2_unfold((i + 1) as nat);
            }
            v16 = v16 * 2 + if any { 1 } else { 0 };
            i = i + 1;
        }
        put_bits(w, v16, 16)?;
        let mut i: usize = 0;
        while i < 16
            invariant
                i <= 16,
                in_use16@.len() == 16,
                w.attached(),
                p0.is_prefix_of(w.bits()),
                self.in_use.words().len() == 4,
            decreases 16 - i,
        {
            if in_use16[i] {
                let mut j: usize = 0;
                while j < 16
                    invariant
                        j <= 16,
                        i < 16,
                        w.attached(),
                        p0.is_prefix_of(w.bits()),
                        self.in_use.words().len() == 4,
                    decreases 16 - j,
                {
                    let bit: u32 = if self.in_use.get(i * 16 + j) { 1 } else { 0 };
                    put_bits(w, bit, 1)?;
                    j = j + 1;
                }
            }
            i = i + 1;
        }
        // the table picks
        put_bits(w, group_num as u32, 3)?;
        if selector.len() >= 0x8000 {
            return Err(CompressionError::Unexpected);
        }
        put_bits(w, selector.len() as u32, 15)?;
        let mut sel_mtf = MtfPosition::new(group_num);
        proof {
            assert forall|v: usize| v < group_num implies #[trigger] sel_mtf@.contains(v) by {
                assert(sel_mtf@[v as int] == v);
            }
        }
        let mut q: usize = 0;
        while q < selector.len()
            invariant
                holds_all(sel_mtf@, group_num as nat),
                sel_mtf@.len() == group_num,
                forall|t: int| 0 <= t < selector@.len() ==> #[trigger] selector@[t] < group_num,
                w.attached(),
                p0.is_prefix_of(w.bits()),
            decreases selector@.len() - q,
        {
            let ghost before = sel_mtf@;
            let sv = selector[q];
            assert(before.contains(sv));
            let p = sel_mtf.pop(sv);
            proof {
                lemma_mtf_keeps(before, p as int, group_num as nat);
            }
            let mut t: usize = 0;
            while t < p
                invariant
                    t <= p,
                    w.attached(),
                    p0.is_prefix_of(w.bits()),
                decreases p - t,
            {
                put_bits(w, 1, 1)?;
                t = t + 1;
            }
            put_bits(w, 0, 1)?;
            q = q + 1;
        }
        // the tables
        let mut k: usize = 0;
        while k < group_num
            invariant
                k <= group_num,
                len@.len() == group_num,
                w.attached(),
                p0.is_prefix_of(w.bits()),
            decreases group_num - k,
        {
            let l = &len[group_num - 1 - k];
            if l.len() == 0 {
                return Err(CompressionError::Unexpected);
            }
            let mut curr: u8 = l[0];
            put_bits(w, curr as u32, 5)?;
            let mut x: usize = 0;
            while x < l.len()
                invariant
                    x <= l@.len(),
                    w.attached(),
                    p0.is_prefix_of(w.bits()),
                decreases l@.len() - x,
            {
                let li = l[x];
                while curr < li
                    invariant
                        w.attached(),
                        p0.is_prefix_of(w.bits()),
                    decreases li - curr,
                {
                    put_bits(w, 2, 2)?;
                    curr = curr + 1;
                }
                while curr > li
                    invariant
                        w.attached(),
                        p0.is_prefix_of(w.bits()),
                    decreases curr - li,
                {
                    put_bits(w, 3, 2)?;
                    curr = curr - 1;
                }
                put_bits(w, 0, 1)?;
                x = x + 1;
            }
            k = k + 1;
        }
        // the symbols
        let mut sel_ctr: usize = 0;
        let mut gs: usize = 0;
        while gs < mtf_count
            invariant
                gs <= mtf_count,
                mtf_count <= self.mtf_buffer@.len(),
                books@.len() == group_num,
                w.attached(),
                p0.is_prefix_of(w.bits()),
            decreases mtf_count - gs,
        {
            let ge = if mtf_count - gs > BZ_G_SIZE { gs + BZ_G_SIZE } else { mtf_count };
            if sel_ctr >= selector.len() {
                return Err(CompressionError::Unexpected);
            }
            let book = &books[selector[sel_ctr]];
            let mut q = gs;
            while q < ge
                invariant
                    gs <= q <= ge,
                    ge <= mtf_count,
                    mtf_count <= self.mtf_buffer@.len(),
                    w.attached(),
                    p0.is_prefix_of(w.bits()),
                decreases ge - q,
            {
                book.put(w, self.mtf_buffer[q] as usize)?;
                q = q + 1;
            }
            gs = ge;
            if sel_ctr < usize::MAX {
                sel_ctr = sel_ctr + 1;
            }
        }
        proof {
            let sa = choose|sa: Seq<usize>|
                #[trigger] sorted_rotations(old(self).block_buf@, sa) && p0 == old(w).bits() + origin_bits(
                    sa,
                    sa.len() as int,
                );
            assert(sorted_rotations(old(self).block_buf@, sa));
        }
        Ok(())
    }
}

impl EncoderInner {
    /// Writes the stream header (before the first block), the block (if it
    /// holds any bytes) and the stream trailer (if `is_final`).
    fn emit_block(&mut self, is_final: bool, nblock: usize, block_crc: u32, w: &mut LeftBitWriter) -> (r: Result<(), CompressionError>)
        requires
            old(self).in_use.wf(),
            old(self).in_use.spec_len() == 256,
            nblock == old(self).block_buf@.len(),
            nblock <= 1_000_000,
            1 <= old(self).block_size_100k <= 9,
            old(w).attached(),
        ensures
            final(w).attached(),
            final(self).mtf_buffer@.len() == old(self).mtf_buffer@.len(),
            final(self).block_buf == old(self).block_buf,
            final(self).block_size_100k == old(self).block_size_100k,
            final(self).block_max_len == old(self).block_max_len,
            final(self).rle_count == old(self).rle_count,
            final(self).rle_buffer == old(self).rle_buffer,
            final(self).in_use == old(self).in_use,
            final(self).block_crc == old(self).block_crc,
            final(self).finished == old(self).finished,
    {
        if self.block_no == 1 {
            put_bits(w, HEADER_B as u32, 8)?;
            put_bits(w, HEADER_Z as u32, 8)?;
            put_bits(w, HEADER_h as u32, 8)?;
            put_bits(w, (HEADER_0 + self.block_size_100k as u8) as u32, 8)?;
        }
        if nblock > 0 {
            put_bits(w, 0x31, 8)?;
            put_bits(w, 0x41, 8)?;
            put_bits(w, 0x59, 8)?;
            put_bits(w, 0x26, 8)?;
            put_bits(w, 0x53, 8)?;
            put_bits(w, 0x59, 8)?;
            put_bits(w, block_crc, 32)?;
            put_bits(w, 0, 1)?;
            self.write_blockdata(w)?;
        }
        if is_final {
            put_bits(w, 0x17, 8)?;
            put_bits(w, 0x72, 8)?;
            put_bits(w, 0x45, 8)?;
            put_bits(w, 0x38, 8)?;
            put_bits(w, 0x50, 8)?;
            put_bits(w, 0x90, 8)?;
            put_bits(w, self.combined_crc, 32)?;
        }
        Ok(())
    }

    /// Ends the open block (the pending run first, if `is_final`), folds
    /// its CRC into the stream CRC, writes it, and opens a new block.
    fn write_block(&mut self, is_final: bool, w: &mut LeftBitWriter) -> (r: Result<(), CompressionError>)
        requires
            1 <= old(self).block_size_100k <= 9,
            old(self).block_max_len == old(self).block_size_100k * 100_000 - 19,
            old(self).block_buf@.len() <= old(self).block_max_len + 4,
            is_final ==> old(self).wf(),
            old(self).rle_count <= 255,
            old(self).in_use.wf(),
            old(self).in_use.spec_len() == 256,
            old(self).block_crc.wf(),
            old(self).mtf_buffer@.len() == old(self).block_size_100k * 100_000 + 1,
            old(w).attached(),
        ensures
            final(self).wf(),
            final(w).attached(),
            final(self).finished == old(self).finished,
            final(self).spec_block().len() == 0,
            final(self).spec_block_taken() == (if is_final {
                Seq::<u8>::empty()
            } else {
                Seq::new(old(self).rle_count as nat, |i: int| old(self).rle_buffer)
            }),
    {
        if is_final {
            proof {
                assert(self.wf());
            }
            self.write_rle();
            self.rle_count = 0;
        }
        let nblock = self.block_buf.len();
        let block_crc = self.block_crc.finish() as u32;
        self.combined_crc = ((self.combined_crc << 1u32) | (self.combined_crc >> 31u32)) ^ block_crc;
        let r = self.emit_block(is_final, nblock, block_crc, w);
        self.prepare_new_block();
        r
    }

    /// Takes one byte: runs of the same byte are gathered (at most 255),
    /// and a full block is written.
    pub fn next(&mut self, buf: u8, w: &mut LeftBitWriter) -> (r: Result<(), CompressionError>)
        requires
            old(self).wf(),
            old(w).attached(),
        ensures
            final(self).wf(),
            final(w).attached(),
            final(self).spec_finished() == old(self).spec_finished(),
            final(self).spec_block_taken() == old(self).spec_block_taken().push(buf) || (final(self).spec_block().len()
                == 0 && final(self).spec_block_taken() == seq![buf]),
            old(self).spec_block().len() + 5 < old(self).spec_block_max_len() ==> final(self).spec_block_taken()
                == old(self).spec_block_taken().push(buf),
    {
        if self.rle_count == 0 {
            self.rle_buffer = buf;
            self.rle_count = 1;
            self.block_taken = Ghost(self.block_taken@.push(buf));
            proof {
                assert(self.block_taken@ =~= rle1_expand(self.block_buf@, -1, 0) + Seq::new(1nat, |i: int| buf));
            }
            return Ok(());
        }
        if self.rle_buffer == buf && self.rle_count < 255 {
            let ghost run = Seq::new(self.rle_count as nat, |i: int| buf);
            self.rle_count = self.rle_count + 1;
            self.block_taken = Ghost(self.block_taken@.push(buf));
            proof {
                assert(run.push(buf) =~= Seq::new(self.rle_count as nat, |i: int| buf));
                assert(self.block_taken@ =~= rle1_expand(self.block_buf@, -1, 0) + Seq::new(
                    self.rle_count as nat,
                    |i: int| buf,
                ));
            }
            return Ok(());
        }
        let ghost blk = self.block_buf@;
        let ghost b = self.rle_buffer;
        let ghost n = self.rle_count as nat;
        let ghost t0 = self.block_taken@;
        proof {
            let (l, c) = rle1_end(blk, -1, 0);
            lemma_rle1_concat(blk, rle1_run(b, n), -1, 0);
            lemma_rle1_round_trip(b, n, l, c);
        }
        self.write_rle();
        self.rle_count = 1;
        self.rle_buffer = buf;
        self.block_taken = Ghost(t0.push(buf));
        proof {
            let e = rle1_expand(blk, -1, 0);
            assert(self.block_buf@ == blk + rle1_run(b, n));
            assert(e + Seq::new(n, |i: int| b) + Seq::new(1nat, |i: int| buf) =~= (e + Seq::new(n, |i: int| b)).push(
                buf,
            ));
            assert(rle1_expand(self.block_buf@, -1, 0) == e + Seq::new(n, |i: int| b));
        }
        if self.block_buf.len() >= self.block_max_len {
            self.write_block(false, w)
        } else {
            Ok(())
        }
    }

    /// Ends the open block, unless the stream has ended.
    pub fn flush(&mut self, w: &mut LeftBitWriter) -> (r: Result<(), CompressionError>)
        requires
            old(self).wf(),
            old(w).attached(),
        ensures
            final(self).wf(),
            final(w).attached(),
            final(self).spec_finished() == old(self).spec_finished(),
            !old(self).spec_finished() ==> final(self).spec_block().len() == 0 && final(self).spec_block_taken()
                == Seq::new(old(self).spec_run_count(), |i: int| old(self).spec_run_byte()),
            old(self).spec_finished() ==> final(self).spec_block_taken() == old(self).spec_block_taken(),
    {
        if !self.finished {
            self.write_block(false, w)
        } else {
            Ok(())
        }
    }

    /// Ends the stream: the open block, then the trailer.
    pub fn finish(&mut self, w: &mut LeftBitWriter) -> (r: Result<(), CompressionError>)
        requires
            old(self).wf(),
            old(w).attached(),
        ensures
            final(self).wf(),
            final(w).attached(),
            final(self).spec_finished(),
            !old(self).spec_finished() ==> final(self).spec_block().len() == 0 && final(self).spec_block_taken()
                == Seq::<u8>::empty(),
            old(self).spec_finished() ==> final(self).spec_block_taken() == old(self).spec_block_taken(),
    {
        if !self.finished {
            self.finished = true;
            self.write_block(true, w)
        } else {
            Ok(())
        }
    }
}

/// The bzip2 encoder: the bytes taken are coded block by block, and the
/// bits handed out a byte at a time.
pub struct BZip2Encoder {
    inner: EncoderInner,
    writer: LeftBitWriter,
    out_pos: usize,
    finished: bool,
    bit_finished: bool,
    out: Ghost<Seq<u8>>,
    taken: Ghost<Seq<u8>>,
}

impl BZip2Encoder {
    pub closed spec fn wf(&self) -> bool {
        &&& self.inner.wf()
        &&& self.writer.attached()
        &&& self.inner.spec_block_taken().is_suffix_of(self.taken@)
    }

    /// The bytes taken since the open block was begun: they end the bytes
    /// taken so far.
    pub closed spec fn spec_block_taken(&self) -> Seq<u8> {
        self.inner.spec_block_taken()
    }

    /// The bytes that the open block and the pending run stand for are the
    /// last of the bytes taken.
    pub proof fn lemma_block_taken_ends_taken(&self)
        requires
            self.wf(),
        ensures
            self.spec_block_taken().is_suffix_of(self.spec_taken()),
    {
    }

    /// The bytes handed out so far.
    pub closed spec fn spec_out(&self) -> Seq<u8> {
        self.out@
    }

    /// The bytes written and not handed out yet.
    pub closed spec fn spec_pending(&self) -> Seq<u8> {
        if self.out_pos <= self.writer.written().len() {
            self.writer.written().skip(self.out_pos as int)
        } else {
            Seq::empty()
        }
    }

    /// The bytes taken from the input so far.
    pub closed spec fn spec_taken(&self) -> Seq<u8> {
        self.taken@
    }

    /// An encoder for blocks of `level` hundred thousand bytes (1 to 9).
    pub fn new(level: usize) -> (r: Self)
        requires
            1 <= level <= 9,
        ensures
            r.wf(),
            r.spec_out() == Seq::<u8>::empty(),
            r.spec_taken() == Seq::<u8>::empty(),
    {
        Self {
            inner: EncoderInner::new(level),
            writer: LeftBitWriter::new(Vec::new()),
            out_pos: 0,
            finished: false,
            bit_finished: false,
            out: Ghost(Seq::empty()),
            taken: Ghost(Seq::empty()),
        }
    }

    /// The next byte of the bzip2 stream of the bytes of `src`. With
    /// `Finish` the stream is ended; with `Flush` the open block is
    /// written; with either the bits are padded to a byte before `None`.
    pub fn next(&mut self, src: &mut ByteSource, action: Action) -> (r: Option<Result<u8, CompressionError>>)
        requires
            old(self).wf(),
        ensures
            final(self).wf(),
            old(self).spec_pending().len() > 0 ==> r == Some(Ok::<u8, CompressionError>(old(self).spec_pending()[0]))
                && final(self).spec_pending() == old(self).spec_pending().skip(1),
            r matches Some(Ok(b)) ==> final(self).spec_out() == old(self).spec_out().push(b),
            !(r matches Some(Ok(_))) ==> final(self).spec_out() == old(self).spec_out(),
            old(self).spec_taken() + old(src).remaining() == final(self).spec_taken() + final(src).remaining(),
            r is None ==> final(src).remaining().len() == 0,
    {
        let n0 = self.writer.get_ref().len();
        if self.out_pos < n0 {
            let b = self.writer.get_ref()[self.out_pos];
            self.out_pos = self.out_pos + 1;
            self.out = Ghost(self.out@.push(b));
            proof {
                assert(self.spec_pending() =~= old(self).spec_pending().skip(1));
            }
            return Some(Ok(b));
        }
        loop
            invariant
                self.wf(),
                self.out@ == old(self).out@,
                old(self).spec_pending().len() == 0,
                old(self).taken@ + old(src).remaining() == self.taken@ + src.remaining(),
            decreases src.remaining().len(), if self.finished {
                0nat
            } else {
                1nat
            },
        {
            let n = self.writer.get_ref().len();
            if self.out_pos < n {
                let b = self.writer.get_ref()[self.out_pos];
                self.out_pos = self.out_pos + 1;
                self.out = Ghost(self.out@.push(b));
                return Some(Ok(b));
            }
            let ghost before = src.remaining();
            match src.read_byte() {
                Some(s) => {
                    self.taken = Ghost(self.taken@.push(s));
                    proof {
                        assert(before =~= seq![s] + src.remaining());
                        assert(old(self).taken@ + old(src).remaining() =~= self.taken@ + src.remaining());
                    }
                    let ghost t = self.taken@;
                    let ghost bt = self.inner.spec_block_taken();
                    let r = self.inner.next(s, &mut self.writer);
                    proof {
                        let t0 = t.drop_last();
                        assert(t0.push(s) =~= t);
                        let k = t0.len() - bt.len();
                        assert(bt =~= t0.subrange(k, t0.len() as int));
                        assert(bt.push(s) =~= t.subrange(k, t.len() as int));
                        assert(seq![s] =~= t.subrange(t0.len() as int, t.len() as int));
                    }
                    if let Err(e) = r {
                        return Some(Err(e));
                    }
                },
                None => {
                    if self.finished {
                        self.finished = false;
                        if self.bit_finished {
                            self.bit_finished = false;
                            return None;
                        }
                        match action {
                            Action::Run => {
                                return None;
                            },
                            _ => {
                                self.bit_finished = true;
                                self.writer.flush();
                                let n = self.writer.get_ref().len();
                                if self.out_pos < n {
                                    let b = self.writer.get_ref()[self.out_pos];
                                    self.out_pos = self.out_pos + 1;
                                    self.out = Ghost(self.out@.push(b));
                                    return Some(Ok(b));
                                }
                                return None;
                            },
                        }
                    } else {
                        proof {
                            self.inner.lemma_block_expands();
                            let t = self.taken@;
                            let bt = self.inner.spec_block_taken();
                            let run = Seq::new(self.inner.spec_run_count(), |i: int| self.inner.spec_run_byte());
                            let k = t.len() - run.len();
                            let kb = bt.len() - run.len();
                            assert(run =~= bt.subrange(kb, bt.len() as int));
                            assert(run =~= t.subrange(k, t.len() as int));
                            assert(Seq::<u8>::empty() =~= t.subrange(t.len() as int, t.len() as int));
                        }
                        let res = match action {
                            Action::Flush => self.inner.flush(&mut self.writer),
                            Action::Finish => self.inner.finish(&mut self.writer),
                            Action::Run => Ok(()),
                        };
                        if let Err(e) = res {
                            return Some(Err(e));
                        }
                        self.finished = true;
                    }
                },
            }
        }
    }
}

impl Default for BZip2Encoder {
    fn default() -> (r: Self)
        ensures
            r.wf(),
            r.spec_out() == Seq::<u8>::empty(),
    {
        Self::new(9)
    }
}

} // verus!
