use vstd::prelude::*;
use vstd::arithmetic::power2::pow2;
use crate::bit_reader::{lemma_fill_result, left_fill, right_fill, BitIoError, BitReader, LeftBitReader, RightBitReader};
use crate::bit_vector::{bit32, bits_lsb, bits_msb, fits, is_reversed32, lemma_fits_bound, BitVector};
use crate::bitio::small_bit_vec::SmallBitVec;
use crate::huffman_encoder::{code_bits, has_code, lemma_reversed_bits};
use crate::internal::{
    canonical_code,
    codes_fit,
    creat_huffman_table,
    last_coded,
    kraft_prefix,
    kraft_sum,
    lemma_code_order,
    lemma_kraft_in_range,
    lemma_last_coded,
    precedes,
    table_entry,
};

verus! {

/// Why a decoder could not be built or could not decode.
#[derive(Clone, Copy, Debug, PartialEq, Eq, Structural)]
pub enum HuffmanError {
    /// A code is a continuation of a shorter one already in the table.
    IgnoredTable,
    /// A code length is 32 or more.
    Length,
    /// The reader failed.
    Reader,
    /// The bits lead to no symbol.
    Table,
}

/// The direction in which bits fill a byte.
pub trait Direction {
    spec fn reverse() -> bool;

    /// Whether the first bit goes to the least significant position.
    fn is_reverse() -> (r: bool)
        ensures
            r == Self::reverse(),
    ;
}

/// Bits fill a byte from its most significant bit down.
#[derive(Debug)]
pub struct Left;

/// Bits fill a byte from its least significant bit up.
#[derive(Debug)]
pub struct Right;

impl Direction for Left {
    open spec fn reverse() -> bool {
        false
    }

    fn is_reverse() -> (r: bool) {
        false
    }
}

impl Direction for Right {
    open spec fn reverse() -> bool {
        true
    }

    fn is_reverse() -> (r: bool) {
        true
    }
}

/// A binary tree that maps bit paths to symbols.
pub enum HuffmanLeaf {
    Leaf(u16),
    Branch(Box<HuffmanLeaf>, Box<HuffmanLeaf>),
    Empty,
}

/// The symbol the path `p` (`true`: the second branch) ends at, if it ends
/// at a leaf.
pub open spec fn leaf_at(t: HuffmanLeaf, p: Seq<bool>) -> Option<u16>
    decreases p.len(),
{
    match t {
        HuffmanLeaf::Leaf(v) => if p.len() == 0 {
            Some(v)
        } else {
            None
        },
        HuffmanLeaf::Branch(l, r) => if p.len() == 0 {
            None
        } else if p[0] {
            leaf_at(*r, p.skip(1))
        } else {
            leaf_at(*l, p.skip(1))
        },
        HuffmanLeaf::Empty => None,
    }
}

/// The path `p` runs into a leaf before its end.
pub open spec fn blocked(t: HuffmanLeaf, p: Seq<bool>) -> bool
    decreases p.len(),
{
    if p.len() == 0 {
        false
    } else {
        match t {
            HuffmanLeaf::Leaf(_) => true,
            HuffmanLeaf::Branch(l, r) => if p[0] {
                blocked(*r, p.skip(1))
            } else {
                blocked(*l, p.skip(1))
            },
            HuffmanLeaf::Empty => false,
        }
    }
}

/// One of the two paths starts the other.
pub open spec fn comparable(p: Seq<bool>, q: Seq<bool>) -> bool {
    ||| (p.len() <= q.len() && q.take(p.len() as int) == p)
    ||| (q.len() <= p.len() && p.take(q.len() as int) == q)
}

/// No leaf of `t` lies on the path `p` or beyond its end.
pub open spec fn path_free(t: HuffmanLeaf, p: Seq<bool>) -> bool {
    forall|q: Seq<bool>| #[trigger] leaf_at(t, q) is Some ==> !comparable(q, p)
}

proof fn lemma_comparable_step(q: Seq<bool>, c: Seq<bool>)
    requires
        c.len() > 0,
        comparable(q, c.skip(1)),
    ensures
        comparable(seq![c[0]] + q, c),
{
    let p = seq![c[0]] + q;
    if q.len() <= c.len() - 1 && c.skip(1).take(q.len() as int) == q {
        assert(c.take(p.len() as int) =~= p);
    } else {
        assert(q.take((c.len() - 1) as int) == c.skip(1));
        assert forall|k: int| 0 <= k < c.len() implies #[trigger] p.take(c.len() as int)[k] == c[k] by {
            if k > 0 {
                assert(p[k] == q[k - 1]);
                assert(q.take((c.len() - 1) as int)[k - 1] == c.skip(1)[k - 1]);
            }
        }
        assert(p.take(c.len() as int) =~= c);
    }
}

/// The bits of a code held least significant first.
pub open spec fn path_of(code: SmallBitVec<u32>) -> Seq<bool> {
    bits_lsb(code.spec_data(), code.spec_len() as nat)
}

proof fn lemma_first_bit(d: u32, i: u32)
    by (bit_vector)
    requires
        i < 31,
    ensures
        (d & 1 == 0) == ((d >> 0u32) & 1 != 1),
        ((d >> 1u32) >> i) & 1 == (d >> (i + 1)) & 1,
        ((d >> 1u32) >> 31u32) & 1 != 1,
{
}

impl HuffmanLeaf {
    #[inline]
    pub fn new() -> (r: Self)
        ensures
            r == HuffmanLeaf::Empty,
    {
        HuffmanLeaf::Empty
    }

    /// Puts `value` at the end of the path `code` (read from its least
    /// significant bit), growing branches on the way; fails when a leaf
    /// stands on the way.
    pub fn add(&mut self, code: &SmallBitVec<u32>, value: u16) -> (r: Result<(), HuffmanError>)
        requires
            code.spec_len() <= 32,
            fits(code.spec_data(), code.spec_len() as nat),
        ensures
            r is Ok <==> !blocked(*old(self), path_of(*code)),
            r is Err ==> r == Err::<(), HuffmanError>(HuffmanError::IgnoredTable),
            r is Ok ==> leaf_at(*final(self), path_of(*code)) == Some(value),
            forall|p: Seq<bool>| #[trigger]
                leaf_at(*final(self), p) is Some ==> (r is Ok && p == path_of(*code) && leaf_at(
                    *final(self),
                    p,
                ) == Some(value)) || leaf_at(*final(self), p) == leaf_at(*old(self), p),
            path_free(*old(self), path_of(*code)) ==> r is Ok && forall|q: Seq<bool>| #[trigger]
                leaf_at(*old(self), q) is Some ==> leaf_at(*final(self), q) == leaf_at(*old(self), q),
        decreases code.spec_len(),
    {
        let ghost c = path_of(*code);
        if code.is_empty() {
            *self = HuffmanLeaf::Leaf(value);
            proof {
                assert(c =~= Seq::<bool>::empty());
                assert forall|p: Seq<bool>| #[trigger] leaf_at(*self, p) is Some implies p == c by {
                    assert(p =~= c);
                }
                assert forall|q: Seq<bool>| #[trigger] leaf_at(*old(self), q) is Some implies comparable(q, c) by {
                    assert(q.take(0) =~= c);
                }
            }
            return Ok(());
        }
        let mut cur = HuffmanLeaf::Empty;
        std::mem::swap(&mut cur, self);
        let (mut l, mut r) = match cur {
            HuffmanLeaf::Leaf(v) => {
                *self = HuffmanLeaf::Leaf(v);
                proof {
                    assert(leaf_at(*old(self), Seq::<bool>::empty()) is Some);
                    assert(c.take(0) =~= Seq::<bool>::empty());
                    assert(comparable(Seq::<bool>::empty(), c));
                }
                return Err(HuffmanError::IgnoredTable);
            },
            HuffmanLeaf::Branch(l, r) => (l, r),
            HuffmanLeaf::Empty => (Box::new(HuffmanLeaf::new()), Box::new(HuffmanLeaf::new())),
        };
        let ghost l0 = *l;
        let ghost r0 = *r;
        let d = code.data();
        let len = code.len();
        proof {
            assert forall|i: int| 0 <= i < len - 1 implies bits_lsb(d >> 1u32, (len - 1) as nat)[i] == c.skip(1)[i] by {
                lemma_first_bit(d, i as u32);
            }
            assert(bits_lsb(d >> 1u32, (len - 1) as nat) =~= c.skip(1));
            lemma_first_bit(d, 0);
            assert forall|i: int| len - 1 <= i < 32 implies !#[trigger] bit32(d >> 1u32, i) by {
                if i < 31 {
                    lemma_first_bit(d, i as u32);
                    assert(!bit32(d, i + 1));
                } else {
                    lemma_first_bit(d, 0);
                }
            }
        }
        let next = SmallBitVec::new(d >> 1u32, len - 1);
        proof {
            if path_free(*old(self), c) {
                if !c[0] {
                    assert forall|q: Seq<bool>| #[trigger] leaf_at(l0, q) is Some implies !comparable(q, c.skip(1)) by {
                        assert((seq![false] + q).skip(1) =~= q);
                        assert(leaf_at(*old(self), seq![false] + q) == leaf_at(l0, q));
                        if comparable(q, c.skip(1)) {
                            lemma_comparable_step(q, c);
                        }
                    }
                } else {
                    assert forall|q: Seq<bool>| #[trigger] leaf_at(r0, q) is Some implies !comparable(q, c.skip(1)) by {
                        assert((seq![true] + q).skip(1) =~= q);
                        assert(leaf_at(*old(self), seq![true] + q) == leaf_at(r0, q));
                        if comparable(q, c.skip(1)) {
                            lemma_comparable_step(q, c);
                        }
                    }
                }
            }
        }
        let res = if d & 1 == 0 {
            (&mut *l).add(&next, value)
        } else {
            (&mut *r).add(&next, value)
        };
        *self = HuffmanLeaf::Branch(l, r);
        proof {
            assert(c[0] == (d & 1 != 0));
            assert forall|p: Seq<bool>| #[trigger] leaf_at(*self, p) is Some implies (res is Ok && p == c
                && leaf_at(*self, p) == Some(value)) || leaf_at(*self, p) == leaf_at(*old(self), p) by {
                if p.len() > 0 {
                    let q = p.skip(1);
                    if p[0] == c[0] {
                        if p[0] {
                            assert(leaf_at(*self, p) == leaf_at(*r, q));
                        } else {
                            assert(leaf_at(*self, p) == leaf_at(*l, q));
                        }
                        if q == c.skip(1) && res is Ok {
                            assert(p.len() == c.len());
                            assert forall|k: int| 0 <= k < p.len() implies p[k] == c[k] by {
                                if k > 0 {
                                    assert(p[k] == q[k - 1]);
                                    assert(c[k] == c.skip(1)[k - 1]);
                                }
                            }
                            assert(p =~= c);
                        }
                    }
                }
            }
            if res is Ok {
                assert(leaf_at(*self, c) == leaf_at(if c[0] { *r } else { *l }, c.skip(1)));
            }
            if path_free(*old(self), c) {
                assert forall|q: Seq<bool>| #[trigger] leaf_at(*old(self), q) is Some implies leaf_at(*self, q)
                    == leaf_at(*old(self), q) by {
                    assert(q.len() > 0);
                    let q1 = q.skip(1);
                    if q[0] {
                        assert(leaf_at(*old(self), q) == leaf_at(r0, q1));
                    } else {
                        assert(leaf_at(*old(self), q) == leaf_at(l0, q1));
                    }
                }
            }
        }
        res
    }
}

/// Bit facts about table indices made by shifting a value up and filling the
/// bits below it.
proof fn lemma_index_word(v: u32, a: u32, b: u32, w: u32, q: u32, d: u32)
    by (bit_vector)
    requires
        a + b <= 31,
        q < 32,
        (v as u64) >> (a as u64) == 0,
        (w as u64) >> (b as u64) == 0,
    ensures
        (((v << b) | w) as u64) >> ((a + b) as u64) == 0,
        b <= q < a + b ==> ((((v << b) | w) >> q) & 1 == 1) == ((v >> ((q - b) as u32)) & 1 == 1),
        q < b ==> ((((v << b) | w) >> q) & 1 == 1) == ((w >> q) & 1 == 1),
        ((v >> d) >> q) & 1 == 1 <==> (q + d < 32 && (v >> ((q + d) as u32)) & 1 == 1),
        d < 32 && (v as u64) >> (d as u64) == 0 ==> ((((v | (w << d)) >> q) & 1 == 1) == (if q < d {
            (v >> q) & 1 == 1
        } else {
            (w >> ((q - d) as u32)) & 1 == 1
        })),
        d < 32 && (v as u64) >> (d as u64) == 0 && (w as u64) >> (b as u64) == 0 && d + b <= 31 ==> (((v
            | (w << d)) as u64) >> ((d + b) as u64)) == 0,
        d < 32 ==> ((((v & (((1u32 << d) - 1) as u32)) >> q) & 1 == 1) == (q < d && (v >> q) & 1 == 1)),
        d < 32 ==> ((v & (((1u32 << d) - 1) as u32)) as u64) >> (d as u64) == 0,
        d < 32 ==> (1u32 << d) >= 1,
        (0u32 >> q) & 1 != 1,
        (v << b) | 0u32 == v << b,
        d <= a && a <= 32 && (v as u64) >> (a as u64) == 0 ==> ((v >> d) as u64) >> ((a - d) as u64) == 0,
{
}

/// A word with no bit set at or above `n` has bit `k` clear for `k >= n`.
proof fn lemma_high_clear(v: u32, n: u32, k: u32)
    by (bit_vector)
    requires
        n <= k < 32,
        (v as u64) >> (n as u64) == 0,
    ensures
        (v >> k) & 1 != 1,
{
}

/// A word is its top bits shifted up, with its bit `k` below them.
proof fn lemma_shift_parts(x: u32, k: u32)
    by (bit_vector)
    requires
        k < 32,
    ensures
        k < 31 ==> x >> k == ((x >> ((k + 1) as u32)) << 1u32) | ((x >> k) & 1u32),
        k == 31 ==> x >> k == (x >> k) & 1u32,
        (x >> k) & 1u32 <= 1u32,
        x >> 0u32 == x,
{
}

proof fn lemma_bits_eq_from(x: u32, y: u32, k: u32)
    requires
        k < 32,
        forall|i: int| k <= i < 32 ==> #[trigger] bit32(x, i) == bit32(y, i),
    ensures
        x >> k == y >> k,
    decreases 32 - k,
{
    lemma_shift_parts(x, k);
    lemma_shift_parts(y, k);
    assert(bit32(x, k as int) == bit32(y, k as int));
    if k < 31 {
        lemma_bits_eq_from(x, y, (k + 1) as u32);
    }
}

/// Two words with the same bits are equal.
proof fn lemma_bits_eq(x: u32, y: u32)
    requires
        forall|i: int| 0 <= i < 32 ==> #[trigger] bit32(x, i) == bit32(y, i),
    ensures
        x == y,
{
    lemma_bits_eq_from(x, y, 0);
    lemma_shift_parts(x, 0);
    lemma_shift_parts(y, 0);
}

/// Two numbers below `2^l` with the same `l` bits are equal.
pub proof fn lemma_msb_eq(x: u32, y: u32, l: nat)
    requires
        l < 32,
        x < pow2(l),
        y < pow2(l),
        bits_msb(x, l) == bits_msb(y, l),
    ensures
        x == y,
{
    lemma_below_word(x as u64, l as u64);
    lemma_below_word(y as u64, l as u64);
    assert forall|i: int| 0 <= i < 32 implies #[trigger] bit32(x, i) == bit32(y, i) by {
        if i < l {
            assert(bits_msb(x, l)[l - 1 - i] == bits_msb(y, l)[l - 1 - i]);
            assert(bits_msb(x, l)[l - 1 - i] == bit32(x, i));
            assert(bits_msb(y, l)[l - 1 - i] == bit32(y, i));
        } else {
            lemma_high_clear(x, l as u32, i as u32);
            lemma_high_clear(y, l as u32, i as u32);
        }
    }
    lemma_bits_eq(x, y);
}

/// No code of a set of canonical codes that fit their lengths is the start
/// of another one: a code is never read as the start of a longer one.
pub proof fn lemma_prefix_free(lens: Seq<u8>, s: int, t: int)
    requires
        codes_in_range(lens),
        has_code(lens, s),
        has_code(lens, t),
        s != t,
        lens[s] <= lens[t] < 32,
    ensures
        code_bits(lens, t).take(lens[s] as int) != code_bits(lens, s),
{
    let l = lens[s] as nat;
    let big = lens[t] as nat;
    let d = (big - l) as nat;
    let cs = canonical_code(lens, s);
    let ct = canonical_code(lens, t);
    assert(cs < pow2(l));
    assert(ct < pow2(big));
    vstd::arithmetic::power2::lemma_pow2_pos(d);
    vstd::arithmetic::power2::lemma_pow2_pos(l);
    vstd::arithmetic::power2::lemma_pow2_adds(l, d);
    vstd::arithmetic::power2::lemma2_to64();
    if big < 31 {
        vstd::arithmetic::power2::lemma_pow2_strictly_increases(big, 31);
    }
    if precedes(lens, s, big as int, t) {
        lemma_code_order(lens, s, t);
    } else {
        lemma_code_order(lens, t, s);
    }
    assert(0 <= ct < 0x8000_0000);
    let top = (ct as u32) >> (d as u32);
    vstd::bits::lemma_u32_shr_is_div(ct as u32, d as u32);
    let pd = pow2(d) as int;
    let pl = pow2(l) as int;
    assert(l + d == big);
    assert(pow2(big) == pl * pd);
    lemma_below_word((ct as u32) as u64, big as u64);
    lemma_below_word(0, 0);
    if precedes(lens, s, big as int, t) {
        lemma_code_order(lens, s, t);
        assert(ct / pd >= cs + 1) by (nonlinear_arith)
            requires
                pd > 0,
                ct >= (cs + 1) * pd,
        ;
    } else {
        assert(precedes(lens, t, l as int, s));
        lemma_code_order(lens, t, s);
        assert(d == 0);
        assert(pd == 1);
        assert(ct / pd == ct) by (nonlinear_arith)
            requires
                pd == 1,
        ;
        assert(cs >= ct + 1) by (nonlinear_arith)
            requires
                cs >= (ct + 1) * pd,
                pd == 1,
        ;
    }
    assert(ct / pd < pl) by (nonlinear_arith)
        requires
            pd > 0,
            0 <= ct < pl * pd,
    ;
    if code_bits(lens, t).take(l as int) == code_bits(lens, s) {
        let x = code_bits(lens, t).take(l as int);
        assert forall|i: int| 0 <= i < l implies #[trigger] bits_msb(top, l)[i] == x[i] by {
            lemma_index_word(ct as u32, big as u32, 0, 0, (l - 1 - i) as u32, d as u32);
        }
        assert(bits_msb(top, l) =~= x);
        lemma_msb_eq(top, cs as u32, l);
        assert(false);
    }
}

/// A word below `2^n` has no bit set at or above `n`.
proof fn lemma_below_word(x: u64, n: u64)
    requires
        n < 64,
        x < pow2(n as nat),
    ensures
        x >> n == 0,
{
    vstd::bits::lemma_u64_shr_is_div(x, n);
    vstd::arithmetic::power2::lemma_pow2_pos(n as nat);
    let p = pow2(n as nat) as int;
    assert(x as int / p == 0) by (nonlinear_arith)
        requires
            p > 0,
            0 <= x < p,
    ;
}

/// A word whose bits at and above `n` are clear is below `2^n`.
pub proof fn lemma_word_below(x: u64, n: u64)
    requires
        n < 64,
        x >> n == 0,
    ensures
        x < pow2(n as nat),
{
    vstd::bits::lemma_u64_shr_is_div(x, n);
    vstd::arithmetic::power2::lemma_pow2_pos(n as nat);
    let p = pow2(n as nat) as int;
    assert(x as int / p == 0);
    assert(x < p) by (nonlinear_arith)
        requires
            p > 0,
            x as int / p == 0,
            x >= 0,
    ;
}

/// An entry of the short table of a decoder: where it points, and why.
pub enum SymbolTableItem {
    /// A symbol and its code length: the code is a prefix of the index.
    Short(u16, u8),
    /// A tree for the codes longer than the index, all starting with it.
    Long(HuffmanLeaf),
    /// No code starts with the index.
    Empty,
}

/// The bits an index into the short table stands for, in reading order.
pub open spec fn index_bits(rev: bool, idx: int, sb: nat) -> Seq<bool> {
    if rev {
        bits_lsb(idx as u32, sb)
    } else {
        bits_msb(idx as u32, sb)
    }
}

/// An entry holds only what the codes allow.
pub open spec fn item_ok(lens: Seq<u8>, rev: bool, sb: nat, idx: int, item: SymbolTableItem) -> bool {
    match item {
        SymbolTableItem::Short(v, l) => has_code(lens, v as int) && lens[v as int] == l && l <= sb
            && code_bits(lens, v as int) == index_bits(rev, idx, sb).take(l as int),
        SymbolTableItem::Long(t) => forall|p: Seq<bool>|
            #![trigger leaf_at(t, p)]
            leaf_at(t, p) is Some ==> has_code(lens, leaf_at(t, p)->0 as int) && code_bits(
                lens,
                leaf_at(t, p)->0 as int,
            ) == index_bits(rev, idx, sb) + p,
        SymbolTableItem::Empty => true,
    }
}

/// Every code fits in its length: no length is over-subscribed.
pub open spec fn codes_in_range(lens: Seq<u8>) -> bool {
    forall|s: int| #[trigger] has_code(lens, s) ==> canonical_code(lens, s) < pow2(lens[s] as nat)
}

/// The longest code length, or 0.
pub open spec fn max_len(lens: Seq<u8>, n: int) -> int
    decreases n,
{
    if n <= 0 {
        0
    } else {
        let m = max_len(lens, n - 1);
        if lens[n - 1] > m {
            lens[n - 1] as int
        } else {
            m
        }
    }
}

proof fn lemma_max_len(lens: Seq<u8>, n: int)
    requires
        0 <= n <= lens.len(),
    ensures
        forall|i: int| 0 <= i < n ==> lens[i] <= max_len(lens, n),
        0 <= max_len(lens, n) <= 255,
    decreases n,
{
    if n > 0 {
        lemma_max_len(lens, n - 1);
    }
}

/// Decodes canonical Huffman codes: a table indexed by the next few bits
/// gives short codes at once and trees for the longer ones.
pub struct HuffmanDecoder<D: Direction> {
    stab_bits: usize,
    stab: Vec<SymbolTableItem>,
    lens: Ghost<Seq<u8>>,
    phantom: core::marker::PhantomData<D>,
}

impl<D: Direction> HuffmanDecoder<D> {
    /// The code lengths the decoder was built for.
    pub closed spec fn lengths(&self) -> Seq<u8> {
        self.lens@
    }

    /// A decoder covers at most `0x10000` symbols.
    pub proof fn lemma_lengths_len(&self)
        requires
            self.wf(),
        ensures
            self.lengths().len() <= 0x10000,
    {
    }

    /// How many bits index the short table.
    pub closed spec fn table_bits(&self) -> nat {
        self.stab_bits as nat
    }

    pub closed spec fn wf(&self) -> bool {
        &&& self.stab_bits < 32
        &&& self.lens@.len() <= 0x10000
        &&& self.stab@.len() == pow2(self.stab_bits as nat)
        &&& forall|idx: int|
            0 <= idx < self.stab@.len() ==> #[trigger] item_ok(
                self.lens@,
                D::reverse(),
                self.stab_bits as nat,
                idx,
                self.stab@[idx],
            )
        &&& forall|v: int, idx: int|
            0 <= v < self.lens@.len() && 0 <= idx < self.stab@.len() ==> #[trigger] entry_complete(
                self.stab@,
                self.lens@,
                D::reverse(),
                self.stab_bits as nat,
                v,
                idx,
            )
    }

    /// A decoder for the code lengths `symb_len`, its short table indexed by
    /// at most `stab_bits` bits (no more than the longest code).
    pub fn new(symb_len: &[u8], stab_bits: usize) -> (r: Result<Self, HuffmanError>)
        requires
            symb_len@.len() <= 0x10000,
        ensures
            max_len(symb_len@, symb_len@.len() as int) >= 32 <==> r == Err::<Self, HuffmanError>(
                HuffmanError::Length,
            ),
            max_len(symb_len@, symb_len@.len() as int) < 32 ==> (r is Ok <==> kraft_sum(
                symb_len@,
                max_len(symb_len@, symb_len@.len() as int) as nat,
            ) <= pow2(max_len(symb_len@, symb_len@.len() as int) as nat)),
            r is Err ==> r == Err::<Self, HuffmanError>(HuffmanError::Length) || r == Err::<
                Self,
                HuffmanError,
            >(HuffmanError::IgnoredTable),
            r is Ok ==> r->Ok_0.wf() && r->Ok_0.lengths() == symb_len@ && r->Ok_0.table_bits() == if max_len(
                symb_len@,
                symb_len@.len() as int,
            ) < stab_bits {
                max_len(symb_len@, symb_len@.len() as int) as nat
            } else {
                stab_bits as nat
            },
    {
        let ghost lens = symb_len@;
        let mut max: u8 = 0;
        let mut i: usize = 0;
        while i < symb_len.len()
            invariant
                i <= symb_len@.len(),
                max == max_len(symb_len@, i as int),
            decreases symb_len@.len() - i,
        {
            if symb_len[i] > max {
                max = symb_len[i];
            }
            i = i + 1;
        }
        let sb = if (max as usize) < stab_bits {
            max as usize
        } else {
            stab_bits
        };
        if max >= 32 {
            return Err(HuffmanError::Length);
        }
        let n = symb_len.len();
        proof {
            lemma_max_len(lens, n as int);
            vstd::arithmetic::power2::lemma2_to64();
        }
        let mut sum: u64 = 0;
        let mut i: usize = 0;
        while i < n
            invariant
                lens == symb_len@,
                n == lens.len(),
                n <= 0x10000,
                max < 32,
                max == max_len(lens, n as int),
                forall|q: int| 0 <= q < n ==> #[trigger] lens[q] <= max,
                i <= n,
                sum == kraft_prefix(lens, max as nat, max + 1int, 0, i as int),
                sum <= 0x8000_0000 * i,
            decreases n - i,
        {
            if symb_len[i] != 0 {
                let shift = max - symb_len[i];
                proof {
                    vstd::arithmetic::power2::lemma2_to64();
                    if shift < 31 {
                        vstd::arithmetic::power2::lemma_pow2_strictly_increases(shift as nat, 31);
                    }
                    vstd::bits::lemma_u64_shl_is_mul(1, shift as u64);
                    if shift < 31 {
                        vstd::arithmetic::power2::lemma_pow2_strictly_increases(shift as nat, 31);
                    }
                    assert(precedes(lens, i as int, max + 1int, 0));
                }
                sum = sum + (1u64 << (shift as u64));
            } else {
                proof {
                    assert(!precedes(lens, i as int, max + 1int, 0));
                }
            }
            i = i + 1;
        }
        proof {
            if max < 31 {
                vstd::arithmetic::power2::lemma_pow2_strictly_increases(max as nat, 31);
            }
            vstd::bits::lemma_u64_shl_is_mul(1, max as u64);
        }
        if sum > (1u64 << (max as u64)) {
            return Err(HuffmanError::IgnoredTable);
        }
        proof {
            assert forall|s: int| #[trigger] has_code(lens, s) implies canonical_code(lens, s) < pow2(lens[s] as nat) by {
                lemma_kraft_in_range(lens, max as nat, s);
            }
        }
        Self::new_t(symb_len, sb)
    }

    fn new_t(symb_len: &[u8], sb: usize) -> (r: Result<Self, HuffmanError>)
        requires
            symb_len@.len() <= 0x10000,
            max_len(symb_len@, symb_len@.len() as int) < 32,
            sb <= max_len(symb_len@, symb_len@.len() as int),
            codes_in_range(symb_len@),
        ensures
            r is Ok,
            r->Ok_0.wf(),
            r->Ok_0.lengths() == symb_len@,
            r->Ok_0.table_bits() == sb,
    {
        let ghost lens = symb_len@;
        let ghost n = lens.len() as int;
        let ghost rev = D::reverse();
        proof {
            lemma_max_len(lens, n);
            vstd::arithmetic::power2::lemma2_to64();
            vstd::arithmetic::power2::lemma2_to64_rest();
            assert forall|s: int| 0 <= s < n && 0 < lens[s] implies #[trigger] canonical_code(lens, s) + 1
                < 0x1_0000_0000 by {
                assert(has_code(lens, s));
                if lens[s] < 32 {
                    vstd::arithmetic::power2::lemma_pow2_strictly_increases(lens[s] as nat, 32);
                }
            }
            assert(codes_fit(lens));
        }
        let table = creat_huffman_table(symb_len, false);
        let reverse = D::is_reverse();
        proof {
            vstd::bits::lemma_usize_shl_is_mul(1, sb as usize);
            if sb < 31 {
                vstd::arithmetic::power2::lemma_pow2_strictly_increases(sb as nat, 31);
            }
        }
        let size: usize = 1usize << sb;
        let mut stab: Vec<SymbolTableItem> = Vec::new();
        let mut k: usize = 0;
        while k < size
            invariant
                k <= size,
                stab@.len() == k,
                forall|idx: int| 0 <= idx < k ==> #[trigger] stab@[idx] is Empty,
            decreases size - k,
        {
            stab.push(SymbolTableItem::Empty);
            k = k + 1;
        }
        proof {
            lemma_last_coded(lens, n);
        }
        let mut i: usize = 0;
        while i < table.len()
            invariant
                lens == symb_len@,
                n == lens.len(),
                rev == D::reverse(),
                reverse == rev,
                n <= 0x10000,
                table@.len() == last_coded(lens, n) + 1,
                table@.len() <= n,
                forall|t: int| 0 <= t < table@.len() ==> #[trigger] table_entry(lens, false, t, table@[t]),
                i <= table@.len(),
                sb < 32,
                sb <= max_len(lens, n),
                stab@.len() == size,
                size == pow2(sb as nat),
                codes_in_range(lens),
                forall|s: int| 0 <= s < n ==> #[trigger] lens[s] <= max_len(lens, n),
                max_len(lens, n) < 32,
                forall|idx: int|
                    0 <= idx < size ==> #[trigger] item_ok(lens, rev, sb as nat, idx, stab@[idx]),
                forall|v: int, idx: int|
                    0 <= v < i && 0 <= idx < size ==> #[trigger] entry_complete(stab@, lens, rev, sb as nat, v, idx),
                values_below(stab@, i as int),
            decreases table@.len() - i,
        {
            assert(table_entry(lens, false, i as int, table@[i as int]));
            match table[i] {
                Some(b) => {
                    let len = b.len();
                    let code = b.data();
                    proof {
                        assert(has_code(lens, i as int));
                        assert(lens[i as int] <= max_len(lens, n));
                        assert(canonical_code(lens, i as int) < pow2(len as nat));
                        lemma_below_word(code as u64, len as u64);
                    }
                    let r = b.reverse();
                    proof {
                        lemma_reversed_bits(code, r.spec_data(), len as nat);
                        lemma_fits_bound(r.spec_data(), len as nat);
                    }
                    if sb >= len {
                        fill_short(&mut stab, i, code, r.data(), len, sb, reverse, Ghost(lens));
                    } else {
                        let res = insert_long(&mut stab, i, code, r.data(), len, sb, reverse, Ghost(lens));
                        if res.is_err() {
                            return Err(HuffmanError::IgnoredTable);
                        }
                    }
                },
                None => {
                    proof {
                        lemma_values_below_rise(stab@, i as int);
                    }
                },
            }
            i = i + 1;
        }
        proof {
            assert forall|v: int, idx: int| 0 <= v < n && 0 <= idx < size implies #[trigger] entry_complete(
                stab@,
                lens,
                rev,
                sb as nat,
                v,
                idx,
            ) by {
                if v >= table@.len() {
                    assert(lens[v] == 0);
                }
            }
        }
        Ok(HuffmanDecoder { stab_bits: sb, stab, lens: Ghost(lens), phantom: core::marker::PhantomData })
    }
}

/// The index of the short table that `lp` bits read most significant first
/// select: they fill its top, zeros the rest.
proof fn lemma_left_index(d: u32, lp: nat, sb: nat)
    requires
        0 < lp <= sb < 32,
        fits(d, lp),
    ensures
        ((d << ((sb - lp) as u32)) as u64) < pow2(sb),
        bits_msb(d << ((sb - lp) as u32), sb).take(lp as int) == bits_msb(d, lp),
{
    let b = (sb - lp) as u32;
    let idx = d << b;
    lemma_fits_bound(d, lp);
    vstd::arithmetic::power2::lemma_pow2_pos(b as nat);
    lemma_below_word(0, b as u64);
    lemma_index_word(d, lp as u32, b, 0, 0, 0);
    lemma_word_below(idx as u64, sb as u64);
    let x = bits_msb(idx, sb).take(lp as int);
    let y = bits_msb(d, lp);
    assert forall|i: int| 0 <= i < lp implies x[i] == y[i] by {
        lemma_index_word(d, lp as u32, b, 0, (sb - 1 - i) as u32, 0);
    }
    assert(x =~= y);
}

/// The index of the short table that `lp` bits read least significant first
/// select: they fill its bottom, zeros the rest.
proof fn lemma_right_index(d: u32, lp: nat, sb: nat)
    requires
        lp <= sb < 32,
        fits(d, lp),
    ensures
        (d as u64) < pow2(sb),
        bits_lsb(d, sb).take(lp as int) == bits_lsb(d, lp),
{
    lemma_fits_bound(d, lp);
    lemma_word_below(d as u64, lp as u64);
    if lp < sb {
        vstd::arithmetic::power2::lemma_pow2_strictly_increases(lp, sb);
    }
    assert(bits_lsb(d, sb).take(lp as int) =~= bits_lsb(d, lp));
}

/// A path through the tree `t` after `k` bits of `s`.
pub open spec fn walked(t: HuffmanLeaf, cur: HuffmanLeaf, s: Seq<bool>, k: int) -> bool {
    forall|p: Seq<bool>| #[trigger] leaf_at(cur, p) == leaf_at(t, s.take(k) + p)
}

proof fn lemma_walk_step(t: HuffmanLeaf, cur: HuffmanLeaf, s: Seq<bool>, k: int)
    requires
        0 <= k < s.len(),
        walked(t, cur, s, k),
        cur is Branch,
    ensures
        walked(t, if s[k] { *cur->Branch_1 } else { *cur->Branch_0 }, s, k + 1),
{
    let next = if s[k] { *cur->Branch_1 } else { *cur->Branch_0 };
    assert forall|p: Seq<bool>| #[trigger] leaf_at(next, p) == leaf_at(t, s.take(k + 1) + p) by {
        let q = seq![s[k]] + p;
        assert(q.skip(1) =~= p);
        assert(leaf_at(cur, q) == leaf_at(t, s.take(k) + q));
        assert(s.take(k) + q =~= s.take(k + 1) + p);
    }
}

/// Follows the tree `t` bit by bit down to a leaf.
fn walk_left(t: &HuffmanLeaf, reader: &mut LeftBitReader) -> (r: Result<u16, HuffmanError>)
    requires
        old(reader).attached(),
    ensures
        final(reader).attached(),
        old(reader).stream().len() >= final(reader).stream().len(),
        ({
            let s = old(reader).stream();
            let k = s.len() - final(reader).stream().len();
            &&& r is Ok ==> leaf_at(*t, s.take(k)) == Some(r->Ok_0) && final(reader).stream() == s.skip(k)
            &&& r is Err ==> r == Err::<u16, HuffmanError>(HuffmanError::Reader) || r == Err::<
                u16,
                HuffmanError,
            >(HuffmanError::Table)
        }),
        forall|p: Seq<bool>|
            #[trigger] leaf_at(*t, p) is Some && p.len() <= old(reader).stream().len() && old(reader).stream().take(
                p.len() as int,
            ) == p ==> r == Ok::<u16, HuffmanError>(leaf_at(*t, p)->0) && final(reader).stream() == old(
                reader,
            ).stream().skip(p.len() as int),
{
    let ghost s = reader.stream();
    let ghost mut k: int = 0;
    let mut cur = t;
    proof {
        assert forall|p: Seq<bool>| #[trigger] leaf_at(*cur, p) == leaf_at(*t, s.take(0) + p) by {
            assert(s.take(0) + p =~= p);
        }
        assert forall|p: Seq<bool>| #[trigger] leaf_at(*t, p) is Some implies leaf_at(*cur, p.skip(0)) == leaf_at(
            *t,
            p,
        ) by {
            assert(p.skip(0) =~= p);
        }
    }
    loop
        invariant
            reader.attached(),
            s == old(reader).stream(),
            0 <= k <= s.len(),
            reader.stream() == s.skip(k),
            walked(*t, *cur, s, k),
            forall|p: Seq<bool>|
                #[trigger] leaf_at(*t, p) is Some && p.len() <= s.len() && s.take(p.len() as int) == p ==> k
                    <= p.len() && leaf_at(*cur, p.skip(k)) == leaf_at(*t, p),
        decreases s.len() - k,
    {
        match cur {
            HuffmanLeaf::Leaf(v) => {
                proof {
                    assert(leaf_at(*cur, Seq::<bool>::empty()) == Some(*v));
                    assert(s.take(k) + Seq::<bool>::empty() =~= s.take(k));
                    assert forall|p: Seq<bool>|
                        #[trigger] leaf_at(*t, p) is Some && p.len() <= s.len() && s.take(p.len() as int) == p implies k
                        == p.len() && leaf_at(*t, p) == Some(*v) by {
                        assert(leaf_at(*cur, p.skip(k)) is Some);
                        assert(p.skip(k).len() == 0);
                    }
                }
                return Ok(*v);
            },
            HuffmanLeaf::Branch(l, rt) => {
                let ghost before = reader.stream();
                proof {
                    lemma_fill_result(reader.pending().len(), reader.source().len(), 1);
                    assert forall|p: Seq<bool>|
                        #[trigger] leaf_at(*t, p) is Some && p.len() <= s.len() && s.take(p.len() as int) == p implies k
                        < p.len() by {
                        assert(leaf_at(*cur, p.skip(k)) is Some);
                        if k == p.len() {
                            assert(p.skip(k).len() == 0);
                        }
                    }
                }
                let b = reader.read(1);
                match b {
                    Ok(bv) => {
                        if bv.len() == 0 {
                            proof {
                                assert forall|p: Seq<bool>|
                                    #[trigger] leaf_at(*t, p) is Some && p.len() <= s.len() && s.take(p.len() as int)
                                    == p implies false by {
                                    assert(k < p.len());
                                }
                            }
                            return Err(HuffmanError::Reader);
                        }
                        proof {
                            lemma_first_bit(bv.spec_data(), 0);
                            assert(bits_msb(bv.spec_data(), 1)[0] == before.take(1)[0]);
                            assert(before[0] == s[k]);
                            lemma_walk_step(*t, *cur, s, k);
                            assert(s.skip(k).skip(1) =~= s.skip(k + 1));
                            let next = if s[k] {
                                **rt
                            } else {
                                **l
                            };
                            assert forall|p: Seq<bool>|
                                #[trigger] leaf_at(*t, p) is Some && p.len() <= s.len() && s.take(p.len() as int)
                                == p implies k + 1 <= p.len() && leaf_at(next, p.skip(k + 1)) == leaf_at(*t, p) by {
                                assert(k < p.len());
                                assert(p[k] == s[k]) by {
                                    assert(s.take(p.len() as int)[k] == s[k]);
                                }
                                assert(p.skip(k).skip(1) =~= p.skip(k + 1));
                                assert(p.skip(k)[0] == p[k]);
                            }
                            k = k + 1;
                        }
                        if bv.data() & 1 == 0 {
                            cur = &**l;
                        } else {
                            cur = &**rt;
                        }
                    },
                    Err(_) => {
                        proof {
                            assert forall|p: Seq<bool>|
                                #[trigger] leaf_at(*t, p) is Some && p.len() <= s.len() && s.take(p.len() as int)
                                == p implies false by {
                                assert(k < p.len());
                            }
                        }
                        return Err(HuffmanError::Reader);
                    },
                }
            },
            HuffmanLeaf::Empty => {
                proof {
                    assert forall|p: Seq<bool>|
                        #[trigger] leaf_at(*t, p) is Some && p.len() <= s.len() && s.take(p.len() as int) == p implies false by {
                        assert(leaf_at(*cur, p.skip(k)) is Some);
                    }
                }
                return Err(HuffmanError::Table);
            },
        }
    }
}

/// Follows the tree `t` bit by bit down to a leaf.
fn walk_right(t: &HuffmanLeaf, reader: &mut RightBitReader) -> (r: Result<u16, HuffmanError>)
    requires
        old(reader).attached(),
    ensures
        final(reader).attached(),
        old(reader).stream().len() >= final(reader).stream().len(),
        ({
            let s = old(reader).stream();
            let k = s.len() - final(reader).stream().len();
            &&& r is Ok ==> leaf_at(*t, s.take(k)) == Some(r->Ok_0) && final(reader).stream() == s.skip(k)
            &&& r is Err ==> r == Err::<u16, HuffmanError>(HuffmanError::Reader) || r == Err::<
                u16,
                HuffmanError,
            >(HuffmanError::Table)
        }),
        forall|p: Seq<bool>|
            #[trigger] leaf_at(*t, p) is Some && p.len() <= old(reader).stream().len() && old(reader).stream().take(
                p.len() as int,
            ) == p ==> r == Ok::<u16, HuffmanError>(leaf_at(*t, p)->0) && final(reader).stream() == old(
                reader,
            ).stream().skip(p.len() as int),
{
    let ghost s = reader.stream();
    let ghost mut k: int = 0;
    let mut cur = t;
    proof {
        assert forall|p: Seq<bool>| #[trigger] leaf_at(*cur, p) == leaf_at(*t, s.take(0) + p) by {
            assert(s.take(0) + p =~= p);
        }
        assert forall|p: Seq<bool>| #[trigger] leaf_at(*t, p) is Some implies leaf_at(*cur, p.skip(0)) == leaf_at(
            *t,
            p,
        ) by {
            assert(p.skip(0) =~= p);
        }
    }
    loop
        invariant
            reader.attached(),
            s == old(reader).stream(),
            0 <= k <= s.len(),
            reader.stream() == s.skip(k),
            walked(*t, *cur, s, k),
            forall|p: Seq<bool>|
                #[trigger] leaf_at(*t, p) is Some && p.len() <= s.len() && s.take(p.len() as int) == p ==> k
                    <= p.len() && leaf_at(*cur, p.skip(k)) == leaf_at(*t, p),
        decreases s.len() - k,
    {
        match cur {
            HuffmanLeaf::Leaf(v) => {
                proof {
                    assert(leaf_at(*cur, Seq::<bool>::empty()) == Some(*v));
                    assert(s.take(k) + Seq::<bool>::empty() =~= s.take(k));
                    assert forall|p: Seq<bool>|
                        #[trigger] leaf_at(*t, p) is Some && p.len() <= s.len() && s.take(p.len() as int) == p implies k
                        == p.len() && leaf_at(*t, p) == Some(*v) by {
                        assert(leaf_at(*cur, p.skip(k)) is Some);
                        assert(p.skip(k).len() == 0);
                    }
                }
                return Ok(*v);
            },
            HuffmanLeaf::Branch(l, rt) => {
                let ghost before = reader.stream();
                proof {
                    lemma_fill_result(reader.pending().len(), reader.source().len(), 1);
                    assert forall|p: Seq<bool>|
                        #[trigger] leaf_at(*t, p) is Some && p.len() <= s.len() && s.take(p.len() as int) == p implies k
                        < p.len() by {
                        assert(leaf_at(*cur, p.skip(k)) is Some);
                        if k == p.len() {
                            assert(p.skip(k).len() == 0);
                        }
                    }
                }
                let b = reader.read(1);
                match b {
                    Ok(bv) => {
                        if bv.len() == 0 {
                            proof {
                                assert forall|p: Seq<bool>|
                                    #[trigger] leaf_at(*t, p) is Some && p.len() <= s.len() && s.take(p.len() as int)
                                    == p implies false by {
                                    assert(k < p.len());
                                }
                            }
                            return Err(HuffmanError::Reader);
                        }
                        proof {
                            lemma_first_bit(bv.spec_data(), 0);
                            assert(bits_lsb(bv.spec_data(), 1)[0] == before.take(1)[0]);
                            assert(before[0] == s[k]);
                            lemma_walk_step(*t, *cur, s, k);
                            assert(s.skip(k).skip(1) =~= s.skip(k + 1));
                            let next = if s[k] {
                                **rt
                            } else {
                                **l
                            };
                            assert forall|p: Seq<bool>|
                                #[trigger] leaf_at(*t, p) is Some && p.len() <= s.len() && s.take(p.len() as int)
                                == p implies k + 1 <= p.len() && leaf_at(next, p.skip(k + 1)) == leaf_at(*t, p) by {
                                assert(k < p.len());
                                assert(p[k] == s[k]) by {
                                    assert(s.take(p.len() as int)[k] == s[k]);
                                }
                                assert(p.skip(k).skip(1) =~= p.skip(k + 1));
                                assert(p.skip(k)[0] == p[k]);
                            }
                            k = k + 1;
                        }
                        if bv.data() & 1 == 0 {
                            cur = &**l;
                        } else {
                            cur = &**rt;
                        }
                    },
                    Err(_) => {
                        proof {
                            assert forall|p: Seq<bool>|
                                #[trigger] leaf_at(*t, p) is Some && p.len() <= s.len() && s.take(p.len() as int)
                                == p implies false by {
                                assert(k < p.len());
                            }
                        }
                        return Err(HuffmanError::Reader);
                    },
                }
            },
            HuffmanLeaf::Empty => {
                proof {
                    assert forall|p: Seq<bool>|
                        #[trigger] leaf_at(*t, p) is Some && p.len() <= s.len() && s.take(p.len() as int) == p implies false by {
                        assert(leaf_at(*cur, p.skip(k)) is Some);
                    }
                }
                return Err(HuffmanError::Table);
            },
        }
    }
}

/// The bits `s` start with the code of `v`.
pub open spec fn starts_with_code(lens: Seq<u8>, s: Seq<bool>, v: int) -> bool {
    &&& has_code(lens, v)
    &&& lens[v] <= s.len()
    &&& s.take(lens[v] as int) == code_bits(lens, v)
}

/// Bits written as the code of `v` followed by anything start with that
/// code, and taking the code off leaves what followed.
pub proof fn lemma_code_then_rest(lens: Seq<u8>, v: int, rest: Seq<bool>)
    requires
        has_code(lens, v),
    ensures
        starts_with_code(lens, code_bits(lens, v) + rest, v),
        (code_bits(lens, v) + rest).skip(lens[v] as int) == rest,
{
    let c = code_bits(lens, v);
    assert((c + rest).take(lens[v] as int) =~= c);
    assert((c + rest).skip(lens[v] as int) =~= rest);
}

/// Bits start with the code of at most one symbol, when the codes fit
/// their lengths: decoding has one answer.
pub proof fn lemma_unique_decoding(lens: Seq<u8>, s: Seq<bool>, v: int, w: int)
    requires
        codes_in_range(lens),
        forall|i: int| 0 <= i < lens.len() ==> #[trigger] lens[i] < 32,
        starts_with_code(lens, s, v),
        starts_with_code(lens, s, w),
    ensures
        v == w,
{
    if v != w {
        lemma_disjoint_short(lens, v, w, s);
    }
}

/// `v` was read off the front of the bits `s`, leaving `rest`.
pub open spec fn decoded(lens: Seq<u8>, s: Seq<bool>, rest: Seq<bool>, v: u16) -> bool {
    &&& has_code(lens, v as int)
    &&& lens[v as int] <= s.len()
    &&& s.take(lens[v as int] as int) == code_bits(lens, v as int)
    &&& rest == s.skip(lens[v as int] as int)
}

impl HuffmanDecoder<Left> {
    /// Reads one symbol; `None` when the reader has no bits left (or the
    /// short table is indexed by no bits at all).
    pub fn dec(&self, reader: &mut LeftBitReader) -> (r: Result<Option<u16>, HuffmanError>)
        requires
            self.wf(),
            old(reader).attached(),
        ensures
            final(reader).attached(),
            final(reader).stream().len() <= old(reader).stream().len(),
            r == Ok::<Option<u16>, HuffmanError>(None) <==> (self.table_bits() == 0 || old(
                reader,
            ).stream().len() == 0),
            r matches Ok(Some(v)) ==> decoded(self.lengths(), old(reader).stream(), final(reader).stream(), v),
            r is Err ==> r == Err::<Option<u16>, HuffmanError>(HuffmanError::Reader) || r == Err::<
                Option<u16>,
                HuffmanError,
            >(HuffmanError::Table),
            self.table_bits() > 0 && !left_fill(
                old(reader).pending().len(),
                old(reader).source().len(),
                self.table_bits(),
            ).1 ==> forall|v: int| #[trigger]
                starts_with_code(self.lengths(), old(reader).stream(), v) ==> r == Ok::<
                    Option<u16>,
                    HuffmanError,
                >(Some(v as u16)) && final(reader).stream() == old(reader).stream().skip(
                    self.lengths()[v] as int,
                ),
    {
        let sb = self.stab_bits;
        if sb == 0 {
            return Ok(None);
        }
        let ghost s = reader.stream();
        let ghost lens = self.lens@;
        proof {
            lemma_fill_result(reader.pending().len(), reader.source().len(), sb as nat);
        }
        let c = match reader.peek(sb) {
            Ok(c) => c,
            Err(_) => {
                return Err(HuffmanError::Reader);
            },
        };
        if c.is_empty() {
            return Ok(None);
        }
        let lp = c.len();
        let d = c.data();
        proof {
            lemma_left_index(d, lp as nat, sb as nat);
        }
        let idx = (d << ((sb - lp) as u32)) as usize;
        let ghost ib = index_bits(false, idx as int, sb as nat);
        assert(ib.take(lp as int) == s.take(lp as int));
        assert(lp < sb ==> lp == s.len());
        assert(item_ok(lens, false, sb as nat, idx as int, self.stab@[idx as int]));
        proof {
            assert forall|v: int| #[trigger] starts_with_code(lens, s, v) implies (lens[v] <= sb ==> self.stab@[idx as int]
                == SymbolTableItem::Short(v as u16, lens[v])) && (lens[v] > sb ==> lp == sb && (
            self.stab@[idx as int] matches SymbolTableItem::Long(t) && leaf_at(
                t,
                code_bits(lens, v).skip(sb as int),
            ) == Some(v as u16))) by {
                assert(entry_complete(self.stab@, lens, false, sb as nat, v, idx as int));
                let l = lens[v] as int;
                if l <= sb {
                    assert(l <= lp);
                    assert(ib.take(l) =~= ib.take(lp as int).take(l));
                    assert(s.take(l) =~= s.take(lp as int).take(l));
                } else {
                    assert(lp == sb);
                    assert(ib =~= ib.take(lp as int));
                    assert(s.take(sb as int) =~= s.take(l).take(sb as int));
                }
            }
        }
        match &self.stab[idx] {
            SymbolTableItem::Short(v, l) => {
                match reader.skip(*l as usize) {
                    Ok(_) => {
                        proof {
                            assert(*l <= lp);
                            assert(s.take(*l as int) =~= s.take(lp as int).take(*l as int));
                            assert(ib.take(*l as int) =~= ib.take(lp as int).take(*l as int));
                            assert(lens[*v as int] == *l);
                            assert(decoded(lens, s, reader.stream(), *v));
                        }
                        Ok(Some(*v))
                    },
                    Err(_) => Err(HuffmanError::Reader),
                }
            },
            SymbolTableItem::Long(t) => {
                match reader.skip(sb) {
                    Ok(_) => {},
                    Err(_) => {
                        return Err(HuffmanError::Reader);
                    },
                }
                let ghost rest = reader.stream();
                proof {
                    assert forall|v: int| #[trigger] starts_with_code(lens, s, v) implies rest.take(
                        (lens[v] - sb) as int,
                    ) == code_bits(lens, v).skip(sb as int) && rest.skip((lens[v] - sb) as int) == s.skip(
                        lens[v] as int,
                    ) by {
                        let l = lens[v] as int;
                        assert(rest.take(l - sb) =~= s.take(l).skip(sb as int));
                        assert(rest.skip(l - sb) =~= s.skip(l));
                    }
                }
                let w = walk_left(t, reader);
                match w {
                    Ok(v) => {
                        proof {
                            let k = rest.len() - reader.stream().len();
                            let p = rest.take(k);
                            assert(code_bits(lens, v as int) == ib + p);
                            assert(ib == s.take(sb as int));
                            assert(s.take(sb as int) + s.skip(sb as int).take(k) =~= s.take(sb + k));
                            assert(s.skip(sb as int).skip(k) =~= s.skip(sb + k));
                            assert(code_bits(lens, v as int).len() == lens[v as int]);
                            assert(lens[v as int] == sb + k);
                            assert(decoded(lens, s, reader.stream(), v));
                        }
                        Ok(Some(v))
                    },
                    Err(e) => Err(e),
                }
            },
            SymbolTableItem::Empty => Err(HuffmanError::Table),
        }
    }
}

impl HuffmanDecoder<Right> {
    /// Reads one symbol; `None` when the reader has no bits left (or the
    /// short table is indexed by no bits at all).
    pub fn dec(&self, reader: &mut RightBitReader) -> (r: Result<Option<u16>, HuffmanError>)
        requires
            self.wf(),
            old(reader).attached(),
        ensures
            final(reader).attached(),
            final(reader).stream().len() <= old(reader).stream().len(),
            r == Ok::<Option<u16>, HuffmanError>(None) <==> (self.table_bits() == 0 || old(
                reader,
            ).stream().len() == 0),
            r matches Ok(Some(v)) ==> decoded(self.lengths(), old(reader).stream(), final(reader).stream(), v),
            r is Err ==> r == Err::<Option<u16>, HuffmanError>(HuffmanError::Reader) || r == Err::<
                Option<u16>,
                HuffmanError,
            >(HuffmanError::Table),
            self.table_bits() > 0 && !right_fill(
                old(reader).pending().len(),
                old(reader).source().len(),
                self.table_bits(),
            ).1 ==> forall|v: int| #[trigger]
                starts_with_code(self.lengths(), old(reader).stream(), v) ==> r == Ok::<
                    Option<u16>,
                    HuffmanError,
                >(Some(v as u16)) && final(reader).stream() == old(reader).stream().skip(
                    self.lengths()[v] as int,
                ),
    {
        let sb = self.stab_bits;
        if sb == 0 {
            return Ok(None);
        }
        let ghost s = reader.stream();
        let ghost lens = self.lens@;
        proof {
            lemma_fill_result(reader.pending().len(), reader.source().len(), sb as nat);
        }
        let c = match reader.peek(sb) {
            Ok(c) => c,
            Err(BitIoError::UnexpectedEof) => {
                return Ok(None);
            },
            Err(_) => {
                return Err(HuffmanError::Reader);
            },
        };
        let lp = c.len();
        let d = c.data();
        proof {
            lemma_right_index(d, lp as nat, sb as nat);
        }
        let idx = d as usize;
        let ghost ib = index_bits(true, idx as int, sb as nat);
        assert(ib.take(lp as int) == s.take(lp as int));
        assert(lp < sb ==> lp == s.len());
        assert(item_ok(lens, true, sb as nat, idx as int, self.stab@[idx as int]));
        proof {
            assert forall|v: int| #[trigger] starts_with_code(lens, s, v) implies (lens[v] <= sb ==> self.stab@[idx as int]
                == SymbolTableItem::Short(v as u16, lens[v])) && (lens[v] > sb ==> lp == sb && (
            self.stab@[idx as int] matches SymbolTableItem::Long(t) && leaf_at(
                t,
                code_bits(lens, v).skip(sb as int),
            ) == Some(v as u16))) by {
                assert(entry_complete(self.stab@, lens, true, sb as nat, v, idx as int));
                let l = lens[v] as int;
                if l <= sb {
                    assert(l <= lp);
                    assert(ib.take(l) =~= ib.take(lp as int).take(l));
                    assert(s.take(l) =~= s.take(lp as int).take(l));
                } else {
                    assert(lp == sb);
                    assert(ib =~= ib.take(lp as int));
                    assert(s.take(sb as int) =~= s.take(l).take(sb as int));
                }
            }
        }
        match &self.stab[idx] {
            SymbolTableItem::Short(v, l) => {
                match reader.skip(*l as usize) {
                    Ok(_) => {
                        proof {
                            assert(*l <= lp);
                            assert(s.take(*l as int) =~= s.take(lp as int).take(*l as int));
                            assert(ib.take(*l as int) =~= ib.take(lp as int).take(*l as int));
                            assert(lens[*v as int] == *l);
                            assert(decoded(lens, s, reader.stream(), *v));
                        }
                        Ok(Some(*v))
                    },
                    Err(_) => Err(HuffmanError::Reader),
                }
            },
            SymbolTableItem::Long(t) => {
                match reader.skip(sb) {
                    Ok(_) => {},
                    Err(_) => {
                        return Err(HuffmanError::Reader);
                    },
                }
                let ghost rest = reader.stream();
                proof {
                    assert forall|v: int| #[trigger] starts_with_code(lens, s, v) implies rest.take(
                        (lens[v] - sb) as int,
                    ) == code_bits(lens, v).skip(sb as int) && rest.skip((lens[v] - sb) as int) == s.skip(
                        lens[v] as int,
                    ) by {
                        let l = lens[v] as int;
                        assert(rest.take(l - sb) =~= s.take(l).skip(sb as int));
                        assert(rest.skip(l - sb) =~= s.skip(l));
                    }
                }
                let w = walk_right(t, reader);
                match w {
                    Ok(v) => {
                        proof {
                            let k = rest.len() - reader.stream().len();
                            let p = rest.take(k);
                            assert(code_bits(lens, v as int) == ib + p);
                            assert(ib == s.take(sb as int));
                            assert(s.take(sb as int) + s.skip(sb as int).take(k) =~= s.take(sb + k));
                            assert(s.skip(sb as int).skip(k) =~= s.skip(sb + k));
                            assert(code_bits(lens, v as int).len() == lens[v as int]);
                            assert(lens[v as int] == sb + k);
                            assert(decoded(lens, s, reader.stream(), v));
                        }
                        Ok(Some(v))
                    },
                    Err(e) => Err(e),
                }
            },
            SymbolTableItem::Empty => Err(HuffmanError::Table),
        }
    }
}

/// A word is its high bits from `k` on above its low `k` bits.
proof fn lemma_split_word(x: u32, k: u32)
    by (bit_vector)
    requires
        k < 32,
    ensures
        x == ((x >> k) << k) | (x & (((1u32 << k) - 1) as u32)),
        x == (x & (((1u32 << k) - 1) as u32)) | ((x >> k) << k),
{
}

/// Two numbers below `2^l` with the same `l` low bits are equal.
pub proof fn lemma_lsb_eq(x: u32, y: u32, l: nat)
    requires
        l < 32,
        x < pow2(l),
        y < pow2(l),
        bits_lsb(x, l) == bits_lsb(y, l),
    ensures
        x == y,
{
    lemma_below_word(x as u64, l as u64);
    lemma_below_word(y as u64, l as u64);
    assert forall|i: int| 0 <= i < 32 implies #[trigger] bit32(x, i) == bit32(y, i) by {
        if i < l {
            assert(bits_lsb(x, l)[i] == bits_lsb(y, l)[i]);
            assert(bits_lsb(x, l)[i] == bit32(x, i));
            assert(bits_lsb(y, l)[i] == bit32(y, i));
        } else {
            lemma_high_clear(x, l as u32, i as u32);
            lemma_high_clear(y, l as u32, i as u32);
        }
    }
    lemma_bits_eq(x, y);
}

/// Different indices of the short table stand for different bits.
proof fn lemma_index_inj(rev: bool, x: int, y: int, sb: nat)
    requires
        sb < 32,
        0 <= x < pow2(sb),
        0 <= y < pow2(sb),
        index_bits(rev, x, sb) == index_bits(rev, y, sb),
    ensures
        x == y,
{
    vstd::arithmetic::power2::lemma2_to64();
    if sb < 31 {
        vstd::arithmetic::power2::lemma_pow2_strictly_increases(sb, 31);
    }
    if rev {
        lemma_lsb_eq(x as u32, y as u32, sb);
    } else {
        lemma_msb_eq(x as u32, y as u32, sb);
    }
}

/// Two different codes cannot both start the same bits.
proof fn lemma_disjoint_short(lens: Seq<u8>, s: int, t: int, b: Seq<bool>)
    requires
        codes_in_range(lens),
        forall|i: int| 0 <= i < lens.len() ==> #[trigger] lens[i] < 32,
        has_code(lens, s),
        has_code(lens, t),
        s != t,
        lens[s] <= b.len(),
        lens[t] <= b.len(),
        b.take(lens[s] as int) == code_bits(lens, s),
    ensures
        b.take(lens[t] as int) != code_bits(lens, t),
{
    if b.take(lens[t] as int) == code_bits(lens, t) {
        if lens[s] <= lens[t] {
            lemma_prefix_free(lens, s, t);
            assert(code_bits(lens, t).take(lens[s] as int) =~= b.take(lens[s] as int));
        } else {
            lemma_prefix_free(lens, t, s);
            assert(code_bits(lens, s).take(lens[t] as int) =~= b.take(lens[t] as int));
        }
    }
}

/// A code that starts some bits is not the start of a longer code that
/// those bits start.
proof fn lemma_disjoint_long(lens: Seq<u8>, s: int, t: int, b: Seq<bool>)
    requires
        codes_in_range(lens),
        forall|i: int| 0 <= i < lens.len() ==> #[trigger] lens[i] < 32,
        has_code(lens, s),
        has_code(lens, t),
        lens[s] <= b.len() < lens[t],
        b.take(lens[s] as int) == code_bits(lens, s),
    ensures
        code_bits(lens, t).take(b.len() as int) != b,
{
    if code_bits(lens, t).take(b.len() as int) == b {
        lemma_prefix_free(lens, s, t);
        assert(code_bits(lens, t).take(lens[s] as int) =~= b.take(lens[s] as int));
    }
}

/// Every entry of the short table that a code of the first `i` symbols
/// selects leads to that symbol.
pub open spec fn entry_complete(
    stab: Seq<SymbolTableItem>,
    lens: Seq<u8>,
    rev: bool,
    sb: nat,
    v: int,
    idx: int,
) -> bool {
    has_code(lens, v) ==> {
        &&& (lens[v] <= sb && index_bits(rev, idx, sb).take(lens[v] as int) == code_bits(lens, v)) ==> stab[idx]
            == SymbolTableItem::Short(v as u16, lens[v])
        &&& (lens[v] > sb && index_bits(rev, idx, sb) == code_bits(lens, v).take(sb as int)) ==> (
        stab[idx] matches SymbolTableItem::Long(t) && leaf_at(t, code_bits(lens, v).skip(sb as int)) == Some(
            v as u16,
        ))
    }
}

/// The symbols the entries point at are all below `i`.
pub open spec fn values_below(stab: Seq<SymbolTableItem>, i: int) -> bool {
    forall|idx: int|
        0 <= idx < stab.len() ==> match #[trigger] stab[idx] {
            SymbolTableItem::Short(v, _) => v < i,
            SymbolTableItem::Long(t) => forall|q: Seq<bool>| #[trigger] leaf_at(t, q) is Some ==> leaf_at(t, q)->0 < i,
            SymbolTableItem::Empty => true,
        }
}

proof fn lemma_values_below_rise(stab: Seq<SymbolTableItem>, i: int)
    requires
        values_below(stab, i),
    ensures
        values_below(stab, i + 1),
{
    assert forall|idx: int| 0 <= idx < stab.len() implies match #[trigger] stab[idx] {
        SymbolTableItem::Short(v, _) => v < i + 1,
        SymbolTableItem::Long(t) => forall|q: Seq<bool>| #[trigger] leaf_at(t, q) is Some ==> leaf_at(t, q)->0 < i + 1,
        SymbolTableItem::Empty => true,
    } by {
        assert(match stab[idx] {
            SymbolTableItem::Short(v, _) => v < i,
            SymbolTableItem::Long(t) => forall|q: Seq<bool>| #[trigger] leaf_at(t, q) is Some ==> leaf_at(t, q)->0 < i,
            SymbolTableItem::Empty => true,
        });
    }
}

/// Facts every helper filling the short table relies on.
pub open spec fn fill_ready(
    stab: Seq<SymbolTableItem>,
    sym: int,
    code: u32,
    rcode: u32,
    len: int,
    sb: int,
    rev: bool,
    lens: Seq<u8>,
) -> bool {
    &&& 0 <= sym < lens.len() <= 0x10000
    &&& has_code(lens, sym)
    &&& lens[sym] == len
    &&& 1 <= len < 32
    &&& sb < 32
    &&& stab.len() == pow2(sb as nat)
    &&& code == canonical_code(lens, sym)
    &&& (code as u64) >> (len as u64) == 0
    &&& (rcode as u64) >> (len as u64) == 0
    &&& code_bits(lens, sym) == bits_msb(code, len as nat)
    &&& code_bits(lens, sym) == bits_lsb(rcode, len as nat)
    &&& codes_in_range(lens)
    &&& forall|i: int| 0 <= i < lens.len() ==> #[trigger] lens[i] < 32
    &&& forall|idx: int| 0 <= idx < stab.len() ==> #[trigger] item_ok(lens, rev, sb as nat, idx, stab[idx])
}

/// The index of the short table that the `j`-th filling of a code of
/// `len` bits, in a table indexed by `len + ld` bits, sets.
pub open spec fn fill_index(rev: bool, code: u32, rcode: u32, len: nat, ld: nat, j: u32) -> int {
    if !rev {
        ((code << (ld as u32)) | j) as int
    } else {
        (rcode | (j << (len as u32))) as int
    }
}

/// Every index whose first bits are the code is filled for some `j`.
proof fn lemma_fill_cover(rev: bool, code: u32, rcode: u32, len: nat, sb: nat, idx: int) -> (j: u32)
    requires
        1 <= len <= sb < 32,
        (code as u64) >> (len as u64) == 0,
        (rcode as u64) >> (len as u64) == 0,
        bits_msb(code, len) == bits_lsb(rcode, len),
        0 <= idx < pow2(sb),
        index_bits(rev, idx, sb).take(len as int) == bits_msb(code, len),
    ensures
        (j as u64) < pow2((sb - len) as nat),
        idx == fill_index(rev, code, rcode, len, (sb - len) as nat, j),
{
    let ld = (sb - len) as nat;
    vstd::arithmetic::power2::lemma2_to64();
    if sb < 31 {
        vstd::arithmetic::power2::lemma_pow2_strictly_increases(sb, 31);
    }
    let x = idx as u32;
    lemma_below_word(x as u64, sb as u64);
    lemma_below_word(0, 0);
    lemma_word_below(code as u64, len as u64);
    lemma_word_below(rcode as u64, len as u64);
    if !rev {
        let top = x >> (ld as u32);
        lemma_index_word(x, sb as u32, 0, 0, 0, ld as u32);
        lemma_word_below(top as u64, len as u64);
        assert forall|i: int| 0 <= i < len implies #[trigger] bits_msb(top, len)[i] == bits_msb(code, len)[i] by {
            lemma_index_word(x, sb as u32, 0, 0, (len - 1 - i) as u32, ld as u32);
            assert(index_bits(rev, idx, sb).take(len as int)[i] == bits_msb(x, sb)[i]);
        }
        assert(bits_msb(top, len) =~= bits_msb(code, len));
        lemma_msb_eq(top, code, len);
        lemma_split_word(x, ld as u32);
        let j = x & (((1u32 << (ld as u32)) - 1) as u32);
        lemma_word_below(j as u64, ld as u64);
        j
    } else {
        let low = x & (((1u32 << (len as u32)) - 1) as u32);
        lemma_index_word(x, sb as u32, 0, 0, 0, len as u32);
        lemma_word_below(low as u64, len as u64);
        assert forall|i: int| 0 <= i < len implies #[trigger] bits_lsb(low, len)[i] == bits_lsb(rcode, len)[i] by {
            lemma_index_word(x, sb as u32, 0, 0, i as u32, len as u32);
            assert(index_bits(rev, idx, sb).take(len as int)[i] == bits_lsb(x, sb)[i]);
        }
        assert(bits_lsb(low, len) =~= bits_lsb(rcode, len));
        lemma_lsb_eq(low, rcode, len);
        lemma_split_word(x, len as u32);
        let j = x >> (len as u32);
        lemma_word_below(j as u64, ld as u64);
        j
    }
}

/// Points every index that starts with the code of `sym` at `sym`.
fn fill_short(
    stab: &mut Vec<SymbolTableItem>,
    sym: usize,
    code: u32,
    rcode: u32,
    len: usize,
    sb: usize,
    reverse: bool,
    Ghost(lens): Ghost<Seq<u8>>,
)
    requires
        fill_ready(old(stab)@, sym as int, code, rcode, len as int, sb as int, reverse, lens),
        len <= sb,
        forall|v: int, idx: int|
            0 <= v < sym && 0 <= idx < old(stab)@.len() ==> #[trigger] entry_complete(
                old(stab)@,
                lens,
                reverse,
                sb as nat,
                v,
                idx,
            ),
        values_below(old(stab)@, sym as int),
    ensures
        final(stab)@.len() == old(stab)@.len(),
        forall|idx: int|
            0 <= idx < final(stab)@.len() ==> #[trigger] item_ok(lens, reverse, sb as nat, idx, final(stab)@[idx]),
        forall|v: int, idx: int|
            0 <= v <= sym && 0 <= idx < final(stab)@.len() ==> #[trigger] entry_complete(
                final(stab)@,
                lens,
                reverse,
                sb as nat,
                v,
                idx,
            ),
        values_below(final(stab)@, sym + 1),
{
    let ld = sb - len;
    proof {
        vstd::arithmetic::power2::lemma2_to64();
        if ld < 31 {
            vstd::arithmetic::power2::lemma_pow2_strictly_increases(ld as nat, 31);
        }
        vstd::bits::lemma_u32_shl_is_mul(1, ld as u32);
    }
    let count: u32 = 1u32 << (ld as u32);
    let mut j: u32 = 0;
    while j < count
        invariant
            fill_ready(stab@, sym as int, code, rcode, len as int, sb as int, reverse, lens),
            len <= sb,
            ld == sb - len,
            count == pow2(ld as nat),
            stab@.len() == old(stab)@.len(),
            j <= count,
            forall|idx: int|
                0 <= idx < stab@.len() ==> #[trigger] stab@[idx] == old(stab)@[idx] || (stab@[idx]
                    == SymbolTableItem::Short(sym as u16, len as u8) && index_bits(reverse, idx, sb as nat).take(
                    len as int,
                ) == code_bits(lens, sym as int)),
            forall|k: u32|
                k < j ==> 0 <= fill_index(reverse, code, rcode, len as nat, ld as nat, k) < stab@.len()
                    && #[trigger] stab@[fill_index(reverse, code, rcode, len as nat, ld as nat, k)]
                    == SymbolTableItem::Short(sym as u16, len as u8),
        decreases count - j,
    {
        proof {
            lemma_below_word(j as u64, ld as u64);
        }
        let idx32 = if !reverse {
            (code << (ld as u32)) | j
        } else {
            rcode | (j << (len as u32))
        };
        proof {
            lemma_index_word(code, len as u32, ld as u32, j, 0, len as u32);
            lemma_index_word(rcode, len as u32, ld as u32, j, 0, len as u32);
            lemma_word_below(idx32 as u64, sb as u64);
            let ib = index_bits(reverse, idx32 as int, sb as nat).take(len as int);
            assert forall|q: int| 0 <= q < len implies ib[q] == code_bits(lens, sym as int)[q] by {
                if !reverse {
                    lemma_index_word(code, len as u32, ld as u32, j, (sb - 1 - q) as u32, len as u32);
                } else {
                    lemma_index_word(rcode, len as u32, ld as u32, j, q as u32, len as u32);
                }
            }
            assert(ib =~= code_bits(lens, sym as int));
            assert(idx32 as int == fill_index(reverse, code, rcode, len as nat, ld as nat, j));
        }
        let idx = idx32 as usize;
        let ghost prev = stab@;
        stab.set(idx, SymbolTableItem::Short(sym as u16, len as u8));
        proof {
            assert forall|k: u32| k < j + 1 implies 0 <= fill_index(reverse, code, rcode, len as nat, ld as nat, k)
                < stab@.len() && #[trigger] stab@[fill_index(reverse, code, rcode, len as nat, ld as nat, k)]
                == SymbolTableItem::Short(sym as u16, len as u8) by {
                if k < j {
                    assert(prev[fill_index(reverse, code, rcode, len as nat, ld as nat, k)] == SymbolTableItem::Short(
                        sym as u16,
                        len as u8,
                    ));
                }
            }
        }
        j = j + 1;
    }
    proof {
        let n = stab@.len();
        assert forall|idx: int| 0 <= idx < n implies match #[trigger] stab@[idx] {
            SymbolTableItem::Short(v, _) => v < sym + 1,
            SymbolTableItem::Long(t) => forall|q: Seq<bool>| #[trigger] leaf_at(t, q) is Some ==> leaf_at(t, q)->0 < sym
                + 1,
            SymbolTableItem::Empty => true,
        } by {
            if stab@[idx] == old(stab)@[idx] {
                assert(match old(stab)@[idx] {
                    SymbolTableItem::Short(v, _) => v < sym,
                    SymbolTableItem::Long(t) => forall|q: Seq<bool>| #[trigger] leaf_at(t, q) is Some ==> leaf_at(t, q)->0
                        < sym,
                    SymbolTableItem::Empty => true,
                });
            }
        }
        assert forall|v: int, idx: int| 0 <= v <= sym && 0 <= idx < n implies #[trigger] entry_complete(
            stab@,
            lens,
            reverse,
            sb as nat,
            v,
            idx,
        ) by {
            let b = index_bits(reverse, idx, sb as nat);
            if v < sym {
                if stab@[idx] != old(stab)@[idx] {
                    assert(entry_complete(old(stab)@, lens, reverse, sb as nat, v, idx));
                    if has_code(lens, v) {
                        if lens[v] <= sb {
                            lemma_disjoint_short(lens, sym as int, v, b);
                        } else {
                            lemma_disjoint_long(lens, sym as int, v, b);
                        }
                    }
                } else {
                    assert(entry_complete(old(stab)@, lens, reverse, sb as nat, v, idx));
                }
            } else {
                if b.take(len as int) == code_bits(lens, sym as int) {
                    let k = lemma_fill_cover(reverse, code, rcode, len as nat, sb as nat, idx);
                    assert(stab@[fill_index(reverse, code, rcode, len as nat, ld as nat, k)] == SymbolTableItem::Short(
                        sym as u16,
                        len as u8,
                    ));
                }
            }
        }
    }
}

/// No leaf of a tree filed under the head bits `hb` clashes with the rest
/// `tail` of a code that starts with them.
proof fn lemma_tail_free(lens: Seq<u8>, sym: int, hb: Seq<bool>, tail: Seq<bool>, t: HuffmanLeaf)
    requires
        codes_in_range(lens),
        forall|i: int| 0 <= i < lens.len() ==> #[trigger] lens[i] < 32,
        has_code(lens, sym),
        code_bits(lens, sym) == hb + tail,
        forall|q: Seq<bool>|
            #![trigger leaf_at(t, q)]
            leaf_at(t, q) is Some ==> has_code(lens, leaf_at(t, q)->0 as int) && code_bits(lens, leaf_at(t, q)->0 as int)
                == hb + q && leaf_at(t, q)->0 < sym,
    ensures
        path_free(t, tail),
{
    assert forall|q: Seq<bool>| #[trigger] leaf_at(t, q) is Some implies !comparable(q, tail) by {
        let w = leaf_at(t, q)->0 as int;
        let cw = code_bits(lens, w);
        let cs = code_bits(lens, sym);
        assert(cw.len() == lens[w]);
        assert(cs.len() == lens[sym]);
        if comparable(q, tail) {
            if q.len() <= tail.len() && tail.take(q.len() as int) == q {
                assert(cs.take(cw.len() as int) =~= cw);
                lemma_prefix_free(lens, w, sym);
            } else {
                assert(cw.take(cs.len() as int) =~= cs);
                lemma_prefix_free(lens, sym, w);
            }
        }
    }
}

/// Enters `sym`, whose code is longer than the short table's index, into
/// the tree of the entry its first bits select.
fn insert_long(
    stab: &mut Vec<SymbolTableItem>,
    sym: usize,
    code: u32,
    rcode: u32,
    len: usize,
    sb: usize,
    reverse: bool,
    Ghost(lens): Ghost<Seq<u8>>,
) -> (r: Result<(), HuffmanError>)
    requires
        fill_ready(old(stab)@, sym as int, code, rcode, len as int, sb as int, reverse, lens),
        sb < len,
        forall|v: int, idx: int|
            0 <= v < sym && 0 <= idx < old(stab)@.len() ==> #[trigger] entry_complete(
                old(stab)@,
                lens,
                reverse,
                sb as nat,
                v,
                idx,
            ),
        values_below(old(stab)@, sym as int),
    ensures
        r is Ok,
        final(stab)@.len() == old(stab)@.len(),
        forall|idx: int|
            0 <= idx < final(stab)@.len() ==> #[trigger] item_ok(lens, reverse, sb as nat, idx, final(stab)@[idx]),
        forall|v: int, idx: int|
            0 <= v <= sym && 0 <= idx < final(stab)@.len() ==> #[trigger] entry_complete(
                final(stab)@,
                lens,
                reverse,
                sb as nat,
                v,
                idx,
            ),
        values_below(final(stab)@, sym + 1),
{
    let ld = len - sb;
    let ghost cb = code_bits(lens, sym as int);
    proof {
        vstd::arithmetic::power2::lemma2_to64();
        lemma_below_word(0, 0);
        lemma_index_word(code, len as u32, 0, 0, 0, ld as u32);
        lemma_index_word(rcode, len as u32, 0, 0, 0, sb as u32);
    }
    let head32 = if !reverse {
        code >> (ld as u32)
    } else {
        rcode & (((1u32 << (sb as u32)) - 1) as u32)
    };
    let ghost hb = index_bits(reverse, head32 as int, sb as nat);
    proof {
        lemma_word_below(head32 as u64, sb as u64);
        assert forall|q: int| 0 <= q < sb implies hb[q] == cb.take(sb as int)[q] by {
            if !reverse {
                lemma_index_word(code, len as u32, 0, 0, (sb - 1 - q) as u32, ld as u32);
            } else {
                lemma_index_word(rcode, len as u32, 0, 0, q as u32, sb as u32);
            }
        }
        assert(hb =~= cb.take(sb as int));
    }
    let body_data = rcode >> (sb as u32);
    let ghost tail = cb.skip(sb as int);
    proof {
        assert forall|q: int| 0 <= q < ld implies bits_lsb(body_data, ld as nat)[q] == cb.skip(sb as int)[q] by {
            lemma_index_word(rcode, len as u32, 0, 0, q as u32, sb as u32);
        }
        assert(bits_lsb(body_data, ld as nat) =~= cb.skip(sb as int));
        assert forall|q: int| ld <= q < 32 implies !#[trigger] bit32(body_data, q) by {
            lemma_index_word(rcode, len as u32, 0, 0, q as u32, sb as u32);
            if q + sb < 32 {
                lemma_high_clear(rcode, len as u32, (q + sb) as u32);
            }
        }
        assert(cb.take(sb as int) + cb.skip(sb as int) =~= cb);
    }
    let body = SmallBitVec::new(body_data, ld);
    let head = head32 as usize;
    let ghost before = stab@;
    stab.push(SymbolTableItem::Empty);
    let item = stab.swap_remove(head);
    proof {
        assert(stab@ =~= before.update(head as int, SymbolTableItem::Empty));
        assert(item == before[head as int]);
        assert(item_ok(lens, reverse, sb as nat, head as int, item));
        assert(match before[head as int] {
            SymbolTableItem::Short(v, _) => v < sym,
            SymbolTableItem::Long(t) => forall|q: Seq<bool>| #[trigger] leaf_at(t, q) is Some ==> leaf_at(t, q)->0 < sym,
            SymbolTableItem::Empty => true,
        });
    }
    let mut t = match item {
        SymbolTableItem::Short(v, l) => {
            proof {
                assert(code_bits(lens, v as int) == hb.take(l as int));
                assert(cb.take(l as int) =~= hb.take(l as int));
                lemma_prefix_free(lens, v as int, sym as int);
            }
            HuffmanLeaf::new()
        },
        SymbolTableItem::Long(t) => t,
        SymbolTableItem::Empty => HuffmanLeaf::new(),
    };
    let ghost t0 = t;
    proof {
        assert(path_of(body) == tail);
        assert forall|q: Seq<bool>| #![trigger leaf_at(t0, q)] leaf_at(t0, q) is Some implies has_code(
            lens,
            leaf_at(t0, q)->0 as int,
        ) && code_bits(lens, leaf_at(t0, q)->0 as int) == hb + q && leaf_at(t0, q)->0 < sym by {
            assert(item is Long);
        }
        lemma_tail_free(lens, sym as int, hb, tail, t0);
    }
    let res = t.add(&body, sym as u16);
    proof {
        assert forall|p: Seq<bool>| #![trigger leaf_at(t, p)] leaf_at(t, p) is Some implies has_code(
            lens,
            leaf_at(t, p)->0 as int,
        ) && code_bits(lens, leaf_at(t, p)->0 as int) == hb + p && leaf_at(t, p)->0 < sym + 1 by {
            if leaf_at(t, p) != leaf_at(t0, p) {
                assert(p == path_of(body));
            }
        }
    }
    stab.set(head, SymbolTableItem::Long(t));
    proof {
        let n = stab@.len();
        assert forall|idx: int| 0 <= idx < n implies #[trigger] item_ok(lens, reverse, sb as nat, idx, stab@[idx]) by {
            if idx != head {
                assert(item_ok(lens, reverse, sb as nat, idx, before[idx]));
            }
        }
        assert forall|idx: int| 0 <= idx < n implies match #[trigger] stab@[idx] {
            SymbolTableItem::Short(v, _) => v < sym + 1,
            SymbolTableItem::Long(t) => forall|q: Seq<bool>| #[trigger] leaf_at(t, q) is Some ==> leaf_at(t, q)->0 < sym
                + 1,
            SymbolTableItem::Empty => true,
        } by {
            if idx != head {
                assert(stab@[idx] == before[idx]);
                assert(match before[idx] {
                    SymbolTableItem::Short(v, _) => v < sym,
                    SymbolTableItem::Long(t) => forall|q: Seq<bool>| #[trigger] leaf_at(t, q) is Some ==> leaf_at(t, q)->0
                        < sym,
                    SymbolTableItem::Empty => true,
                });
            }
        }
        assert forall|v: int, idx: int| 0 <= v <= sym && 0 <= idx < n implies #[trigger] entry_complete(
            stab@,
            lens,
            reverse,
            sb as nat,
            v,
            idx,
        ) by {
            let b = index_bits(reverse, idx, sb as nat);
            if v < sym {
                assert(entry_complete(before, lens, reverse, sb as nat, v, idx));
                if idx == head && has_code(lens, v) && lens[v] > sb && b == code_bits(lens, v).take(sb as int) {
                    assert(leaf_at(t0, code_bits(lens, v).skip(sb as int)) == Some(v as u16));
                }
            } else {
                if lens[v] > sb && b == cb.take(sb as int) {
                    lemma_index_inj(reverse, idx, head as int, sb as nat);
                }
            }
        }
    }
    res
}

/// Whether the code lengths `symb_len` make a prefix code whose canonical
/// codes fit 32-bit words: every length below 32 and the Kraft sum at
/// most one.
pub fn lengths_make_code(symb_len: &[u8]) -> (r: bool)
    requires
        symb_len@.len() <= 0x10000,
    ensures
        r ==> codes_fit(symb_len@),
        r <==> max_len(symb_len@, symb_len@.len() as int) < 32 && kraft_sum(
            symb_len@,
            max_len(symb_len@, symb_len@.len() as int) as nat,
        ) <= pow2(max_len(symb_len@, symb_len@.len() as int) as nat),
{
    let ghost lens = symb_len@;
    let mut max: u8 = 0;
    let mut i: usize = 0;
    while i < symb_len.len()
        invariant
            i <= symb_len@.len(),
            max == max_len(symb_len@, i as int),
        decreases symb_len@.len() - i,
    {
        if symb_len[i] > max {
            max = symb_len[i];
        }
        i = i + 1;
    }
    if max >= 32 {
        return false;
    }
    let n = symb_len.len();
    proof {
        lemma_max_len(lens, n as int);
        vstd::arithmetic::power2::lemma2_to64();
    }
    let mut sum: u64 = 0;
    let mut i: usize = 0;
    while i < n
        invariant
            lens == symb_len@,
            n == lens.len(),
            n <= 0x10000,
            max < 32,
            max == max_len(lens, n as int),
            forall|q: int| 0 <= q < n ==> #[trigger] lens[q] <= max,
            i <= n,
            sum == kraft_prefix(lens, max as nat, max + 1int, 0, i as int),
            sum <= 0x8000_0000 * i,
        decreases n - i,
    {
        if symb_len[i] != 0 {
            let shift = max - symb_len[i];
            proof {
                vstd::arithmetic::power2::lemma2_to64();
                if shift < 31 {
                    vstd::arithmetic::power2::lemma_pow2_strictly_increases(shift as nat, 31);
                }
                vstd::bits::lemma_u64_shl_is_mul(1, shift as u64);
                assert(precedes(lens, i as int, max + 1int, 0));
            }
            sum = sum + (1u64 << (shift as u64));
        } else {
            proof {
                assert(!precedes(lens, i as int, max + 1int, 0));
            }
        }
        i = i + 1;
    }
    proof {
        if max < 31 {
            vstd::arithmetic::power2::lemma_pow2_strictly_increases(max as nat, 31);
        }
        vstd::bits::lemma_u64_shl_is_mul(1, max as u64);
    }
    if sum > (1u64 << (max as u64)) {
        return false;
    }
    proof {
        assert forall|s: int| #[trigger] has_code(lens, s) implies canonical_code(lens, s) < pow2(lens[s] as nat) by {
            lemma_kraft_in_range(lens, max as nat, s);
        }
        vstd::arithmetic::power2::lemma2_to64();
        vstd::arithmetic::power2::lemma2_to64_rest();
        assert forall|s: int| 0 <= s < n && 0 < lens[s] implies #[trigger] canonical_code(lens, s) + 1
            < 0x1_0000_0000 by {
            assert(has_code(lens, s));
            if lens[s] < 32 {
                vstd::arithmetic::power2::lemma_pow2_strictly_increases(lens[s] as nat, 32);
            }
        }
        assert(codes_fit(lens));
    }
    true
}

} // verus!
