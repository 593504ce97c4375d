pub mod circular_buffer;

use vstd::prelude::*;
use vstd::arithmetic::power2::{pow2, lemma_pow2_adds, lemma_pow2_pos};
use crate::bit_vector::{is_reversed32, BitVector};

verus! {

/// Types with a least value.
pub trait MinValue: Sized {
    fn min_value() -> Self;
}

/// Types with a greatest value.
pub trait MaxValue: Sized {
    fn max_value() -> Self;
}

impl MinValue for u8 {
    fn min_value() -> (r: Self)
        ensures
            r == 0,
    {
        0
    }
}

impl MaxValue for u8 {
    fn max_value() -> (r: Self)
        ensures
            r == 0xFF,
    {
        0xFF
    }
}

impl MinValue for u16 {
    fn min_value() -> (r: Self)
        ensures
            r == 0,
    {
        0
    }
}

impl MaxValue for u16 {
    fn max_value() -> (r: Self)
        ensures
            r == 0xFFFF,
    {
        0xFFFF
    }
}

/// In the canonical order of a code (shorter codes first, equal lengths by
/// symbol), symbol `t` comes before a symbol of length `l` numbered `s`.
pub open spec fn precedes(lens: Seq<u8>, t: int, l: int, s: int) -> bool {
    0 < lens[t] && (lens[t] < l || (lens[t] == l && t < s))
}

/// The sum of `2^(big - len)` over the symbols below `n` that precede the
/// position `(l, s)`.
pub open spec fn kraft_prefix(lens: Seq<u8>, big: nat, l: int, s: int, n: int) -> int
    decreases n,
{
    if n <= 0 {
        0
    } else {
        kraft_prefix(lens, big, l, s, n - 1) + if precedes(lens, n - 1, l, s) {
            pow2((big - lens[n - 1]) as nat) as int
        } else {
            0
        }
    }
}

/// The canonical Huffman code of symbol `s`: what the code of the symbol
/// before it in canonical order, plus one, becomes when widened to the
/// length of `s`.
pub open spec fn canonical_code(lens: Seq<u8>, s: int) -> int {
    kraft_prefix(lens, lens[s] as nat, lens[s] as int, s, lens.len() as int)
}

/// The last symbol below `n` with a code, or -1.
pub open spec fn last_coded(lens: Seq<u8>, n: int) -> int
    decreases n,
{
    if n <= 0 {
        -1
    } else if lens[n - 1] != 0 {
        n - 1
    } else {
        last_coded(lens, n - 1)
    }
}

/// The code lengths can be turned into codes of at most 32 bits by 32-bit
/// arithmetic: every length is at most 32, the shortest one is below 32,
/// and no code is the all-ones word (its successor would not fit).
pub open spec fn codes_fit(lens: Seq<u8>) -> bool {
    &&& forall|i: int| 0 <= i < lens.len() ==> #[trigger] lens[i] <= 32
    &&& forall|i: int|
        0 <= i < lens.len() && lens[i] == 32 ==> exists|j: int|
            0 <= j < lens.len() && 0 < #[trigger] lens[j] < 32
    &&& forall|i: int|
        0 <= i < lens.len() && 0 < lens[i] ==> #[trigger] canonical_code(lens, i) + 1 < 0x1_0000_0000
}

proof fn lemma_kraft_same(lens: Seq<u8>, big: nat, l1: int, s1: int, l2: int, s2: int, n: int)
    requires
        n <= lens.len(),
        forall|t: int| 0 <= t < n ==> precedes(lens, t, l1, s1) == precedes(lens, t, l2, s2),
    ensures
        kraft_prefix(lens, big, l1, s1, n) == kraft_prefix(lens, big, l2, s2, n),
    decreases n,
{
    if n > 0 {
        lemma_kraft_same(lens, big, l1, s1, l2, s2, n - 1);
    }
}

proof fn lemma_kraft_scale(lens: Seq<u8>, big: nat, d: nat, l: int, s: int, n: int)
    requires
        n <= lens.len(),
        forall|t: int| 0 <= t < n && precedes(lens, t, l, s) ==> lens[t] <= big,
    ensures
        kraft_prefix(lens, big + d, l, s, n) == kraft_prefix(lens, big, l, s, n) * pow2(d),
    decreases n,
{
    if n > 0 {
        lemma_kraft_scale(lens, big, d, l, s, n - 1);
        if precedes(lens, n - 1, l, s) {
            lemma_pow2_adds((big - lens[n - 1]) as nat, d);
            assert((big + d - lens[n - 1]) as nat == (big - lens[n - 1]) as nat + d);
        }
        let a = kraft_prefix(lens, big, l, s, n - 1);
        let b = if precedes(lens, n - 1, l, s) {
            pow2((big - lens[n - 1]) as nat) as int
        } else {
            0
        };
        assert((a + b) * pow2(d) == a * pow2(d) + b * pow2(d)) by (nonlinear_arith);
    }
}

proof fn lemma_kraft_step(lens: Seq<u8>, big: nat, l: int, s: int, n: int)
    requires
        0 <= s < n <= lens.len(),
    ensures
        kraft_prefix(lens, big, l, s + 1, n) == kraft_prefix(lens, big, l, s, n) + if 0 < lens[s]
            && lens[s] == l {
            pow2((big - lens[s]) as nat) as int
        } else {
            0
        },
    decreases n,
{
    if n - 1 > s {
        lemma_kraft_step(lens, big, l, s, n - 1);
    } else {
        lemma_kraft_same(lens, big, l, s + 1, l, s, n - 1);
    }
}

proof fn lemma_kraft_none(lens: Seq<u8>, big: nat, l: int, s: int, n: int)
    requires
        forall|t: int| 0 <= t < n ==> !precedes(lens, t, l, s),
    ensures
        kraft_prefix(lens, big, l, s, n) == 0,
    decreases n,
{
    if n > 0 {
        lemma_kraft_none(lens, big, l, s, n - 1);
    }
}

proof fn lemma_kraft_nonneg(lens: Seq<u8>, big: nat, l: int, s: int, n: int)
    ensures
        kraft_prefix(lens, big, l, s, n) >= 0,
    decreases n,
{
    if n > 0 {
        lemma_kraft_nonneg(lens, big, l, s, n - 1);
        lemma_pow2_pos((big - lens[n - 1]) as nat);
    }
}

proof fn lemma_kraft_dominates(lens: Seq<u8>, big: nat, s: int, t: int, k: int)
    requires
        0 <= k <= lens.len(),
        0 <= s < lens.len(),
        0 <= t < lens.len(),
        0 < lens[s] <= big,
        precedes(lens, s, lens[t] as int, t),
        lens[t] <= big,
    ensures
        kraft_prefix(lens, big, lens[t] as int, t, k) >= kraft_prefix(lens, big, lens[s] as int, s, k) + if s
            < k {
            pow2((big - lens[s]) as nat) as int
        } else {
            0
        },
    decreases k,
{
    if k > 0 {
        lemma_kraft_dominates(lens, big, s, t, k - 1);
        let u = k - 1;
        if precedes(lens, u, lens[s] as int, s) {
            assert(precedes(lens, u, lens[t] as int, t));
        }
        lemma_pow2_pos((big - lens[u]) as nat);
    }
}

proof fn lemma_kraft_dominates_at(lens: Seq<u8>, big: nat, s: int, l2: int, t2: int, k: int)
    requires
        0 <= k <= lens.len(),
        0 <= s < lens.len(),
        0 < lens[s] <= big,
        precedes(lens, s, l2, t2),
        forall|u: int| 0 <= u < lens.len() && precedes(lens, u, lens[s] as int, s) ==> precedes(lens, u, l2, t2),
    ensures
        kraft_prefix(lens, big, l2, t2, k) >= kraft_prefix(lens, big, lens[s] as int, s, k) + if s < k {
            pow2((big - lens[s]) as nat) as int
        } else {
            0
        },
    decreases k,
{
    if k > 0 {
        lemma_kraft_dominates_at(lens, big, s, l2, t2, k - 1);
        lemma_pow2_pos((big - lens[k - 1]) as nat);
    }
}

/// The Kraft sum of the code lengths, in units of `2^-big`: the sum of
/// `2^(big - len)` over the symbols with a code.
pub open spec fn kraft_sum(lens: Seq<u8>, big: nat) -> int {
    kraft_prefix(lens, big, big + 1int, 0, lens.len() as int)
}

/// When the Kraft sum is at most one, every canonical code fits its
/// length.
pub proof fn lemma_kraft_in_range(lens: Seq<u8>, big: nat, s: int)
    requires
        forall|i: int| 0 <= i < lens.len() ==> #[trigger] lens[i] <= big,
        kraft_sum(lens, big) <= pow2(big),
        0 <= s < lens.len(),
        0 < lens[s],
    ensures
        0 <= canonical_code(lens, s) < pow2(lens[s] as nat),
{
    let n = lens.len() as int;
    let l = lens[s] as nat;
    let d = (big - l) as nat;
    assert forall|u: int| 0 <= u < lens.len() && precedes(lens, u, lens[s] as int, s) implies precedes(
        lens,
        u,
        big + 1int,
        0,
    ) by {
        assert(lens[u] <= big);
    }
    lemma_kraft_dominates_at(lens, big, s, big + 1int, 0, n);
    lemma_kraft_scale(lens, l, d, l as int, s, n);
    assert((l + d) as nat == big);
    lemma_kraft_nonneg(lens, l, l as int, s, n);
    lemma_pow2_adds(l, d);
    lemma_pow2_pos(d);
    let c = canonical_code(lens, s);
    let pd = pow2(d) as int;
    let pl = pow2(l) as int;
    assert(c * pd + pd <= pl * pd);
    assert(c + 1 <= pl) by (nonlinear_arith)
        requires
            pd > 0,
            c * pd + pd <= pl * pd,
    ;
}

/// In canonical order, a later code is at least the successor of an
/// earlier one, widened to the later code's length.
pub proof fn lemma_code_order(lens: Seq<u8>, s: int, t: int)
    requires
        0 <= s < lens.len(),
        0 <= t < lens.len(),
        0 < lens[s],
        precedes(lens, s, lens[t] as int, t),
    ensures
        canonical_code(lens, t) >= (canonical_code(lens, s) + 1) * pow2((lens[t] - lens[s]) as nat),
        canonical_code(lens, s) >= 0,
        canonical_code(lens, t) >= 0,
{
    let n = lens.len() as int;
    lemma_kraft_nonneg(lens, lens[s] as nat, lens[s] as int, s, n);
    lemma_kraft_nonneg(lens, lens[t] as nat, lens[t] as int, t, n);
    let big = lens[t] as nat;
    let d = (lens[t] - lens[s]) as nat;
    lemma_kraft_dominates(lens, big, s, t, n);
    lemma_kraft_scale(lens, lens[s] as nat, d, lens[s] as int, s, n);
    assert((lens[s] + d) as nat == big);
    assert((big - lens[s]) as nat == d);
    let c = canonical_code(lens, s);
    assert((c + 1) * pow2(d) == c * pow2(d) + pow2(d)) by (nonlinear_arith);
}

pub proof fn lemma_last_coded(lens: Seq<u8>, n: int)
    requires
        0 <= n <= lens.len(),
    ensures
        -1 <= last_coded(lens, n) < n,
        last_coded(lens, n) >= 0 ==> lens[last_coded(lens, n)] != 0,
        forall|t: int| last_coded(lens, n) < t < n ==> lens[t] == 0,
    decreases n,
{
    if n > 0 {
        lemma_last_coded(lens, n - 1);
    }
}

/// The code of one symbol, as the table holds it.
pub open spec fn table_entry(lens: Seq<u8>, is_reverse: bool, t: int, e: Option<BitVector>) -> bool {
    if lens[t] == 0 {
        e is None
    } else {
        &&& e is Some
        &&& e->0.spec_len() == lens[t]
        &&& if is_reverse {
            is_reversed32(canonical_code(lens, t) as u32, e->0.spec_data(), lens[t] as int)
        } else {
            e->0.spec_data() == canonical_code(lens, t)
        }
    }
}

/// The canonical Huffman codes for the code lengths `symb_len` (0: no
/// code), each bit-reversed if `is_reverse`; the table ends at the last
/// symbol with a code.
pub fn creat_huffman_table(symb_len: &[u8], is_reverse: bool) -> (r: Vec<Option<BitVector>>)
    requires
        codes_fit(symb_len@),
    ensures
        r@.len() == last_coded(symb_len@, symb_len@.len() as int) + 1,
        forall|t: int| 0 <= t < r@.len() ==> #[trigger] table_entry(symb_len@, is_reverse, t, r@[t]),
{
    let ghost lens = symb_len@;
    let n = symb_len.len();
    proof {
        lemma_last_coded(lens, n as int);
    }
    let mut count: usize = 0;
    let mut i: usize = n;
    while i > 0
        invariant
            i <= n == lens.len(),
            lens == symb_len@,
            count == (if last_coded(lens, n as int) >= i { last_coded(lens, n as int) + 1 } else { 0 }),
            forall|t: int| last_coded(lens, n as int) < t < n ==> lens[t] == 0,
            -1 <= last_coded(lens, n as int) < n,
            last_coded(lens, n as int) >= 0 ==> lens[last_coded(lens, n as int)] != 0,
        decreases i,
    {
        i = i - 1;
        if count == 0 && symb_len[i] != 0 {
            count = i + 1;
        }
    }
    let mut table: Vec<Option<BitVector>> = Vec::new();
    let mut k: usize = 0;
    while k < count
        invariant
            k <= count,
            table@.len() == k,
            forall|t: int| 0 <= t < k ==> table@[t] is None,
        decreases count - k,
    {
        table.push(None);
        k = k + 1;
    }
    if count == 0 {
        return table;
    }
    let mut prev_l: u8 = 0;
    let mut next: u32 = 0;
    let mut l: u8 = 1;
    proof {
        assert forall|t: int| 0 <= t < n implies !precedes(lens, t, 1, 0) by {}
        lemma_kraft_none(lens, 0, 1, 0, n as int);
    }
    while l <= 32
        invariant
            1 <= l <= 33,
            lens == symb_len@,
            n == lens.len(),
            codes_fit(lens),
            count == last_coded(lens, n as int) + 1,
            count <= n,
            table@.len() == count,
            forall|t: int| count <= t < n ==> lens[t] == 0,
            prev_l < l,
            prev_l == 0 ==> forall|t: int| 0 <= t < n ==> !precedes(lens, t, l as int, 0),
            forall|t: int| 0 <= t < n && precedes(lens, t, l as int, 0) ==> lens[t] <= prev_l,
            next == kraft_prefix(lens, prev_l as nat, l as int, 0, n as int),
            forall|t: int|
                0 <= t < count ==> if precedes(lens, t, l as int, 0) {
                    table_entry(lens, is_reverse, t, #[trigger] table@[t])
                } else {
                    table@[t] is None
                },
        decreases 33 - l,
    {
        let mut s: usize = 0;
        while s < n
            invariant
                1 <= l <= 32,
                prev_l <= l,
                lens == symb_len@,
                n == lens.len(),
                codes_fit(lens),
                count == last_coded(lens, n as int) + 1,
                count <= n,
                table@.len() == count,
                forall|t: int| count <= t < n ==> lens[t] == 0,
                s <= n,
                prev_l <= l,
                prev_l == 0 ==> forall|t: int| 0 <= t < n ==> !precedes(lens, t, l as int, s as int),
                forall|t: int| 0 <= t < n && precedes(lens, t, l as int, s as int) ==> lens[t] <= prev_l,
                next == kraft_prefix(lens, prev_l as nat, l as int, s as int, n as int),
                forall|t: int|
                    0 <= t < count ==> if precedes(lens, t, l as int, s as int) {
                        table_entry(lens, is_reverse, t, #[trigger] table@[t])
                    } else {
                        table@[t] is None
                    },
            decreases n - s,
        {
            if symb_len[s] == l {
                let ghost old_prev = prev_l;
                proof {
                    if prev_l == 0 && l == 32 {
                        let j = choose|j: int| 0 <= j < lens.len() && 0 < #[trigger] lens[j] < 32;
                        assert(precedes(lens, j, l as int, s as int));
                    }
                    lemma_kraft_scale(lens, prev_l as nat, (l - prev_l) as nat, l as int, s as int, n as int);
                    assert(canonical_code(lens, s as int) == kraft_prefix(lens, l as nat, l as int, s as int, n as int));
                    assert(canonical_code(lens, s as int) + 1 < 0x1_0000_0000);
                    lemma_kraft_nonneg(lens, prev_l as nat, l as int, s as int, n as int);
                    vstd::bits::lemma_u32_shl_is_mul(next, (l - prev_l) as u32);
                }
                let code = next << ((l - prev_l) as u32);
                next = code + 1;
                prev_l = l;
                let bv = BitVector::new(code, l as usize);
                let entry = if is_reverse {
                    bv.reverse()
                } else {
                    bv
                };
                proof {
                    lemma_kraft_step(lens, l as nat, l as int, s as int, n as int);
                    vstd::arithmetic::power2::lemma2_to64();
                    assert(table_entry(lens, is_reverse, s as int, Some(entry)));
                }
                table.set(s, Some(entry));
                proof {
                    assert forall|t: int| 0 <= t < n && precedes(lens, t, l as int, s + 1) implies lens[t]
                        <= prev_l by {}
                }
            } else {
                proof {
                    lemma_kraft_same(lens, prev_l as nat, l as int, s as int + 1, l as int, s as int, n as int);
                    assert forall|t: int| 0 <= t < n implies precedes(lens, t, l as int, s + 1)
                        == precedes(lens, t, l as int, s as int) by {}
                }
            }
            s = s + 1;
            proof {
                assert forall|t: int| 0 <= t < n && precedes(lens, t, l as int, s as int) implies lens[t]
                    <= prev_l && prev_l != 0 by {
                    if t != s - 1 || lens[t] != l {
                        assert(precedes(lens, t, l as int, s - 1));
                    }
                }
            }
        }
        proof {
            assert forall|t: int| 0 <= t < n implies precedes(lens, t, l as int, n as int) == precedes(
                lens,
                t,
                (l + 1) as int,
                0,
            ) by {}
            lemma_kraft_same(lens, prev_l as nat, l as int, n as int, (l + 1) as int, 0, n as int);
        }
        l = l + 1;
        proof {
            assert forall|t: int| 0 <= t < n && precedes(lens, t, l as int, 0) implies lens[t] <= prev_l
                && prev_l != 0 by {
                assert(precedes(lens, t, l - 1, n as int));
            }
            assert forall|t: int| 0 <= t < count implies if precedes(lens, t, l as int, 0) {
                table_entry(lens, is_reverse, t, #[trigger] table@[t])
            } else {
                table@[t] is None
            } by {
                assert(precedes(lens, t, l as int, 0) == precedes(lens, t, l - 1, n as int));
            }
        }
    }
    proof {
        assert forall|t: int| 0 <= t < count implies #[trigger] table_entry(lens, is_reverse, t, table@[t]) by {
            if lens[t] == 0 {
                assert(!precedes(lens, t, 33, 0));
            } else {
                assert(precedes(lens, t, 33, 0));
            }
        }
    }
    table
}

} // verus!
