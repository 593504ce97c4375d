use vstd::prelude::*;
use vstd::arithmetic::power2::pow2;

verus! {

/// How many of the first `n` frequencies are not zero.
pub open spec fn used_count(freq: Seq<usize>, n: int) -> nat
    decreases n,
{
    if n <= 0 {
        0
    } else {
        used_count(freq, n - 1) + if freq[n - 1] != 0 {
            1nat
        } else {
            0nat
        }
    }
}

/// The length of a table of code lengths for `freq`: up to the last symbol
/// among the first `n` that occurs.
pub open spec fn table_len(freq: Seq<usize>, n: int) -> nat
    decreases n,
{
    if n <= 0 {
        0
    } else if freq[n - 1] != 0 {
        n as nat
    } else {
        table_len(freq, n - 1)
    }
}

/// A table of code lengths fits the frequencies: one entry per symbol up to
/// the last one that occurs, zero exactly for the symbols that do not occur,
/// and, when more than one symbol occurs, no length above `lim`.
pub open spec fn lengths_fit(freq: Seq<usize>, lim: nat, r: Seq<u8>) -> bool {
    &&& r.len() == table_len(freq, freq.len() as int)
    &&& forall|i: int| 0 <= i < r.len() ==> (#[trigger] r[i] == 0 <==> freq[i] == 0)
    &&& used_count(freq, freq.len() as int) >= 2 ==> forall|i: int| 0 <= i < r.len() ==> #[trigger] r[i] <= lim
}

/// Moves the element at `n` down the heap `buf[..len]`, whose entries are
/// indices of the weights they are ordered by.
fn down_heap(buf: &mut Vec<usize>, n: usize, len: usize, Ghost(lo): Ghost<nat>)
    requires
        n < len,
        2 * len <= old(buf)@.len(),
        forall|k: int| 0 <= k < len ==> lo <= #[trigger] old(buf)@[k] < old(buf)@.len(),
    ensures
        final(buf)@.len() == old(buf)@.len(),
        forall|k: int| 0 <= k < len ==> lo <= #[trigger] final(buf)@[k] < final(buf)@.len(),
        forall|k: int| len <= k < final(buf)@.len() ==> #[trigger] final(buf)@[k] == old(buf)@[k],
{
    let total = buf.len();
    let tmp = buf[n];
    let mut n = n;
    let mut leaf = n * 2 + 1;
    while leaf < len
        invariant
            n < len,
            leaf == 2 * n + 1,
            2 * len <= buf@.len(),
            total == buf@.len(),
            buf@.len() == old(buf)@.len(),
            lo <= tmp < buf@.len(),
            forall|k: int| 0 <= k < len ==> lo <= #[trigger] buf@[k] < buf@.len(),
            forall|k: int| len <= k < buf@.len() ==> #[trigger] buf@[k] == old(buf)@[k],
        decreases len - n,
    {
        let mut child = leaf;
        if leaf + 1 < len && buf[buf[leaf]] > buf[buf[leaf + 1]] {
            child = leaf + 1;
        }
        if buf[tmp] < buf[buf[child]] {
            break;
        }
        let moved = buf[child];
        buf.set(n, moved);
        n = child;
        leaf = n * 2 + 1;
    }
    buf.set(n, tmp);
}

/// Orders the first half of `buf` as a heap of indices into it.
fn create_heap(buf: &mut Vec<usize>, Ghost(lo): Ghost<nat>)
    requires
        forall|k: int| 0 <= k < old(buf)@.len() / 2 ==> lo <= #[trigger] old(buf)@[k] < old(buf)@.len(),
    ensures
        final(buf)@.len() == old(buf)@.len(),
        forall|k: int| 0 <= k < final(buf)@.len() / 2 ==> lo <= #[trigger] final(buf)@[k] < final(buf)@.len(),
        forall|k: int| final(buf)@.len() / 2 <= k < final(buf)@.len() ==> #[trigger] final(buf)@[k] == old(buf)@[k],
{
    let s = buf.len() / 2;
    let mut i = s / 2;
    while i > 0
        invariant
            s == buf@.len() / 2,
            i <= s,
            buf@.len() == old(buf)@.len(),
            forall|k: int| 0 <= k < s ==> lo <= #[trigger] buf@[k] < buf@.len(),
            forall|k: int| s <= k < buf@.len() ==> #[trigger] buf@[k] == old(buf)@[k],
        decreases i,
    {
        i = i - 1;
        down_heap(buf, i, s, Ghost(lo));
    }
}

/// `i` stands somewhere among the first `n` entries of `map`.
pub open spec fn listed(map: Seq<usize>, n: nat, i: int) -> bool {
    exists|k: int| 0 <= k < n && #[trigger] map[k] == i
}

/// `map` lists each of `0..n` (a permutation).
pub open spec fn is_permutation(map: Seq<usize>, n: nat) -> bool {
    &&& map.len() == n
    &&& forall|k: int| 0 <= k < n ==> #[trigger] map[k] < n
    &&& forall|i: int| 0 <= i < n ==> #[trigger] listed(map, n, i)
}

/// The symbols ordered by falling frequency, ties by symbol.
fn order_by_freq(freq: &Vec<usize>) -> (map: Vec<usize>)
    ensures
        is_permutation(map@, freq@.len()),
{
    let n = freq.len();
    let mut map: Vec<usize> = Vec::new();
    let mut k: usize = 0;
    while k < n
        invariant
            n == freq@.len(),
            k <= n,
            map@.len() == k,
            forall|j: int| 0 <= j < k ==> #[trigger] map@[j] == j,
        decreases n - k,
    {
        map.push(k);
        k = k + 1;
    }
    let ghost mut pos: Seq<int> = Seq::new(n as nat, |i: int| i);
    let mut k: usize = 1;
    while k < n
        invariant
            n == freq@.len(),
            map@.len() == n,
            pos.len() == n,
            forall|j: int| 0 <= j < n ==> #[trigger] map@[j] < n,
            forall|i: int| 0 <= i < n ==> 0 <= #[trigger] pos[i] < n && map@[pos[i]] == i,
        decreases n - k,
    {
        let mut j = k;
        while j > 0 && freq[map[j - 1]] < freq[map[j]]
            invariant
                n == freq@.len(),
                j <= k < n,
                map@.len() == n,
                pos.len() == n,
                forall|q: int| 0 <= q < n ==> #[trigger] map@[q] < n,
                forall|i: int| 0 <= i < n ==> 0 <= #[trigger] pos[i] < n && map@[pos[i]] == i,
            decreases j,
        {
            let a = map[j - 1];
            let b = map[j];
            proof {
                pos = pos.update(a as int, j as int).update(b as int, (j - 1) as int);
            }
            map.set(j - 1, b);
            map.set(j, a);
            j = j - 1;
        }
        k = k + 1;
    }
    proof {
        assert forall|i: int| 0 <= i < n implies #[trigger] listed(map@, n as nat, i) by {
            assert(map@[pos[i]] == i);
        }
    }
    map
}

/// Takes the package or symbol at the front of row `i` of the merge, and
/// what it is made of: a symbol taken gets one bit shorter.
fn take_package(
    ty: &Vec<usize>,
    len: &mut Vec<usize>,
    cur: &mut Vec<usize>,
    i: usize,
    off: &Vec<usize>,
    max_elem: &Vec<usize>,
    lim: usize,
)
    requires
        i < lim,
        max_elem@.len() == lim,
        off@.len() == lim + 1,
        old(cur)@.len() == lim,
        forall|k: int| 0 <= k < lim ==> off@[k] + #[trigger] max_elem@[k] <= ty@.len(),
        forall|k: int| 0 <= k < ty@.len() ==> #[trigger] ty@[k] <= old(len)@.len(),
        forall|k: int| 0 <= k < old(len)@.len() ==> 1 <= #[trigger] old(len)@[k] <= lim,
        forall|k: int| 0 <= k < lim ==> #[trigger] old(cur)@[k] <= max_elem@[k],
    ensures
        final(len)@.len() == old(len)@.len(),
        final(cur)@.len() == lim,
        forall|k: int| 0 <= k < final(len)@.len() ==> 1 <= #[trigger] final(len)@[k] <= lim,
        forall|k: int| 0 <= k < lim ==> #[trigger] final(cur)@[k] <= max_elem@[k],
        forall|k: int| 0 <= k < i ==> #[trigger] final(cur)@[k] == old(cur)@[k],
    decreases lim - i,
{
    if cur[i] < max_elem[i] {
        let total = ty.len();
        assert(off@[i as int] + max_elem@[i as int] <= total);
        let x = ty[off[i] + cur[i]];
        if x == len.len() {
            if i + 1 < lim {
                take_package(ty, len, cur, i + 1, off, max_elem, lim);
                take_package(ty, len, cur, i + 1, off, max_elem, lim);
            }
        } else if len[x] > 1 {
            let shorter = len[x] - 1;
            len.set(x, shorter);
        }
        let next = cur[i] + 1;
        cur.set(i, next);
    }
}

/// Code lengths of at most `lim` bits by the package-merge method, run
/// from the longest length up.
fn gen_code_lm<F: Fn(usize, usize) -> usize>(freq: &Vec<usize>, lim: usize, weight_add_fn: F) -> (r: Vec<u8>)
    requires
        2 <= freq@.len() <= usize::MAX / 256,
        1 <= lim <= 63,
        freq@.len() <= pow2(lim as nat),
        forall|x: usize, y: usize| weight_add_fn.requires((x, y)),
    ensures
        r@.len() == freq@.len(),
        forall|k: int| 0 <= k < r@.len() ==> 1 <= #[trigger] r@[k] <= lim,
{
    let len = freq.len();
    let map = order_by_freq(freq);
    let mut sfreq: Vec<usize> = Vec::new();
    let mut k: usize = 0;
    while k < len
        invariant
            len == freq@.len(),
            map@.len() == len,
            forall|q: int| 0 <= q < len ==> #[trigger] map@[q] < len,
            k <= len,
            sfreq@.len() == k,
        decreases len - k,
    {
        sfreq.push(freq[map[k]]);
        k = k + 1;
    }
    let mut max_elem: Vec<usize> = Vec::new();
    let mut b: Vec<usize> = Vec::new();
    let mut k: usize = 0;
    while k < lim
        invariant
            k <= lim,
            max_elem@.len() == k,
            b@.len() == k,
            forall|q: int| 0 <= q < k ==> #[trigger] max_elem@[q] == 0,
            forall|q: int| 0 <= q < k ==> #[trigger] b@[q] == 0,
        decreases lim - k,
    {
        max_elem.push(0);
        b.push(0);
        k = k + 1;
    }
    proof {
        vstd::arithmetic::power2::lemma2_to64();
        vstd::arithmetic::power2::lemma2_to64_rest();
        vstd::bits::lemma_u64_shl_is_mul(1, lim as u64);
        vstd::bits::lemma_u64_shl_is_mul(1, (lim - 1) as u64);
        vstd::arithmetic::power2::lemma_pow2_adds((lim - 1) as nat, 1);
        if lim < 63 {
            vstd::arithmetic::power2::lemma_pow2_strictly_increases(lim as nat, 63);
        }
    }
    let mut excess: u64 = (1u64 << (lim as u64)) - len as u64;
    let half: u64 = 1u64 << ((lim - 1) as u64);
    max_elem.set(lim - 1, len);
    let mut j: usize = 0;
    while j < lim
        invariant
            2 <= len <= usize::MAX / 256,
            1 <= lim <= 63,
            j <= lim,
            max_elem@.len() == lim,
            b@.len() == lim,
            half == pow2((lim - 1) as nat),
            pow2(lim as nat) == 2 * half,
            pow2(lim as nat) <= 0x8000_0000_0000_0000,
            excess < pow2(lim as nat),
            forall|q: int| 0 <= q < lim ==> #[trigger] max_elem@[q] <= 2 * len,
            forall|q: int| 0 <= q < lim ==> #[trigger] b@[q] <= 1,
        decreases lim - j,
    {
        if excess >= half {
            b.set(j, 1);
            excess = excess - half;
        }
        excess = excess * 2;
        if lim >= 2 + j {
            let m = max_elem[lim - 1 - j] / 2 + len;
            max_elem.set(lim - 2 - j, m);
        }
        j = j + 1;
    }
    let b0 = b[0];
    max_elem.set(0, b0);
    let mut j: usize = 1;
    while j < lim
        invariant
            2 <= len <= usize::MAX / 256,
            1 <= j <= lim,
            max_elem@.len() == lim,
            b@.len() == lim,
            forall|q: int| 0 <= q < lim ==> #[trigger] max_elem@[q] <= 2 * len,
            forall|q: int| 0 <= q < lim ==> #[trigger] b@[q] <= 1,
        decreases lim - j,
    {
        let cap = 2 * max_elem[j - 1] + b[j];
        if max_elem[j] > cap {
            max_elem.set(j, cap);
        }
        j = j + 1;
    }
    let mut off: Vec<usize> = Vec::new();
    off.push(0);
    let mut total: usize = 0;
    let mut j: usize = 0;
    while j < lim
        invariant
            2 <= len <= usize::MAX / 256,
            lim <= 63,
            j <= lim,
            max_elem@.len() == lim,
            off@.len() == j + 1,
            total == off@[j as int],
            total <= 2 * len * j,
            forall|q: int| 0 <= q < lim ==> #[trigger] max_elem@[q] <= 2 * len,
            forall|q: int| 0 <= q < j ==> #[trigger] off@[q] + max_elem@[q] == off@[q + 1],
        decreases lim - j,
    {
        assert(2 * len * j + 2 * len == 2 * len * (j + 1)) by (nonlinear_arith);
        assert(2 * len * (j + 1) <= 2 * len * 63) by (nonlinear_arith)
            requires
                j + 1 <= 63,
        ;
        total = total + max_elem[j];
        off.push(total);
        j = j + 1;
    }
    let mut val: Vec<usize> = Vec::new();
    let mut ty: Vec<usize> = Vec::new();
    let mut k: usize = 0;
    while k < total
        invariant
            k <= total,
            val@.len() == k,
            ty@.len() == k,
            forall|q: int| 0 <= q < k ==> #[trigger] ty@[q] == 0,
        decreases total - k,
    {
        val.push(0);
        ty.push(0);
        k = k + 1;
    }
    let mut c: Vec<usize> = Vec::new();
    let mut k: usize = 0;
    while k < len
        invariant
            1 <= lim,
            k <= len,
            c@.len() == k,
            forall|q: int| 0 <= q < k ==> #[trigger] c@[q] == lim,
        decreases len - k,
    {
        c.push(lim);
        k = k + 1;
    }
    proof {
        assert forall|q: int| 0 <= q < lim implies off@[q] + #[trigger] max_elem@[q] <= total by {
            assert forall|a: int, z: int| 0 <= a <= z <= lim implies #[trigger] off@[a] <= #[trigger] off@[z] by {
                lemma_offsets_rise(off@, max_elem@, a, z);
            }
            assert(off@[q] + max_elem@[q] == off@[q + 1]);
            assert(off@[q + 1] <= off@[lim as int]);
        }
    }
    let last = lim - 1;
    let row = off[last];
    let mut t: usize = 0;
    while t < max_elem[last] && t < len
        invariant
            last == lim - 1,
            max_elem@.len() == lim,
            off@.len() == lim + 1,
            row == off@[last as int],
            row + max_elem@[last as int] <= total,
            val@.len() == total,
            ty@.len() == total,
            sfreq@.len() == len,
            forall|q: int| 0 <= q < total ==> #[trigger] ty@[q] <= len,
        decreases len - t,
    {
        val.set(row + t, sfreq[t]);
        ty.set(row + t, t);
        t = t + 1;
    }
    let mut cur: Vec<usize> = Vec::new();
    let mut k: usize = 0;
    while k < lim
        invariant
            k <= lim,
            cur@.len() == k,
            forall|q: int| 0 <= q < k ==> #[trigger] cur@[q] == 0,
        decreases lim - k,
    {
        cur.push(0);
        k = k + 1;
    }
    if b[last] == 1 {
        if c[0] > 1 {
            let shorter = c[0] - 1;
            c.set(0, shorter);
        }
        if max_elem[last] > 0 {
            cur.set(last, 1);
        }
    }
    let mut j: usize = last;
    while j > 0
        invariant
            2 <= len <= usize::MAX / 256,
            1 <= lim <= 63,
            j < lim,
            max_elem@.len() == lim,
            b@.len() == lim,
            off@.len() == lim + 1,
            cur@.len() == lim,
            c@.len() == len,
            sfreq@.len() == len,
            val@.len() == total,
            ty@.len() == total,
            forall|q: int| 0 <= q < lim ==> #[trigger] max_elem@[q] <= 2 * len,
            forall|q: int| 0 <= q < lim ==> off@[q] + #[trigger] max_elem@[q] <= total,
            forall|q: int| 0 <= q < total ==> #[trigger] ty@[q] <= len,
            forall|q: int| 0 <= q < len ==> 1 <= #[trigger] c@[q] <= lim,
            forall|q: int| 0 <= q < lim ==> #[trigger] cur@[q] <= max_elem@[q],
            forall|x: usize, y: usize| weight_add_fn.requires((x, y)),
        decreases j,
    {
        let upper = off[j];
        let lower = off[j - 1];
        let mut i: usize = 0;
        let mut next = cur[j];
        let mut t: usize = 0;
        while t < max_elem[j - 1]
            invariant
                2 <= len <= usize::MAX / 256,
                0 < j < lim,
                max_elem@.len() == lim,
                off@.len() == lim + 1,
                upper == off@[j as int],
                lower == off@[j - 1],
                upper + max_elem@[j as int] <= total,
                lower + max_elem@[j - 1] <= total,
                max_elem@[j as int] <= 2 * len,
                max_elem@[j - 1] <= 2 * len,
                t <= max_elem@[j - 1],
                i < len,
                next <= 2 * len + 2 * t,
                sfreq@.len() == len,
                val@.len() == total,
                ty@.len() == total,
                forall|q: int| 0 <= q < total ==> #[trigger] ty@[q] <= len,
                forall|x: usize, y: usize| weight_add_fn.requires((x, y)),
            decreases max_elem@[j - 1] - t,
        {
            let weight = if next + 1 < max_elem[j] {
                weight_add_fn(val[upper + next], val[upper + next + 1])
            } else {
                0
            };
            if weight > sfreq[i] {
                val.set(lower + t, weight);
                ty.set(lower + t, len);
                next = next + 2;
            } else {
                val.set(lower + t, sfreq[i]);
                ty.set(lower + t, i);
                if i + 1 >= len {
                    break;
                }
                i = i + 1;
            }
            t = t + 1;
        }
        j = j - 1;
        cur.set(j, 0);
        if b[j] == 1 {
            take_package(&ty, &mut c, &mut cur, j, &off, &max_elem, lim);
        }
    }
    let mut r: Vec<u8> = Vec::new();
    let mut k: usize = 0;
    while k < len
        invariant
            k <= len,
            r@.len() == k,
            forall|q: int| 0 <= q < k ==> #[trigger] r@[q] == 0,
        decreases len - k,
    {
        r.push(0);
        k = k + 1;
    }
    let mut k: usize = 0;
    while k < len
        invariant
            1 <= lim <= 63,
            k <= len,
            r@.len() == len,
            c@.len() == len,
            is_permutation(map@, len as nat),
            forall|q: int| 0 <= q < len ==> 1 <= #[trigger] c@[q] <= lim,
            forall|q: int| 0 <= q < k ==> 1 <= #[trigger] r@[map@[q] as int] <= lim,
            forall|i: int| 0 <= i < len ==> #[trigger] r@[i] == 0 || 1 <= r@[i] <= lim,
        decreases len - k,
    {
        let l = c[k] as u8;
        r.set(map[k], l);
        k = k + 1;
    }
    proof {
        assert forall|i: int| 0 <= i < len implies 1 <= #[trigger] r@[i] <= lim by {
            assert(listed(map@, len as nat, i));
            let q = choose|q: int| 0 <= q < len && #[trigger] map@[q] == i;
            assert(1 <= r@[map@[q] as int] <= lim);
        }
    }
    r
}

/// Code lengths for the frequencies `freq` (none of them zero) from a
/// Huffman tree; when a code comes out longer than `lim` bits, from the
/// package-merge method instead.
fn gen_code<F: Fn(usize, usize) -> usize>(freq: &Vec<usize>, lim: usize, weight_add_fn: F) -> (r: Vec<u8>)
    requires
        1 <= freq@.len() <= usize::MAX / 256,
        freq@.len() == 1 || (1 <= lim && freq@.len() <= pow2(lim as nat)),
        forall|x: usize, y: usize| weight_add_fn.requires((x, y)),
    ensures
        r@.len() == freq@.len(),
        forall|k: int| 0 <= k < r@.len() ==> 1 <= #[trigger] r@[k],
        freq@.len() >= 2 ==> forall|k: int| 0 <= k < r@.len() ==> #[trigger] r@[k] <= lim,
        freq@.len() == 1 ==> r@ == seq![1u8],
{
    let n = freq.len();
    if n == 1 {
        return vec![1u8];
    }
    let mut buf: Vec<usize> = Vec::new();
    let mut k: usize = n;
    while k < 2 * n
        invariant
            2 <= n <= usize::MAX / 256,
            n <= k <= 2 * n,
            buf@.len() == k - n,
            forall|q: int| 0 <= q < buf@.len() ==> #[trigger] buf@[q] == n + q,
        decreases 2 * n - k,
    {
        buf.push(k);
        k = k + 1;
    }
    let mut k: usize = 0;
    while k < n
        invariant
            2 <= n <= usize::MAX / 256,
            freq@.len() == n,
            k <= n,
            buf@.len() == n + k,
            forall|q: int| 0 <= q < n ==> #[trigger] buf@[q] == n + q,
        decreases n - k,
    {
        buf.push(freq[k]);
        k = k + 1;
    }
    create_heap(&mut buf, Ghost(n as nat));
    let mut i: usize = n - 1;
    while i > 0
        invariant
            2 <= n <= usize::MAX / 256,
            buf@.len() == 2 * n,
            i < n,
            forall|q: int| 0 <= q <= i ==> i + 1 <= #[trigger] buf@[q] < 2 * n,
            forall|x: usize, y: usize| weight_add_fn.requires((x, y)),
        decreases i,
    {
        let m1 = buf[0];
        let moved = buf[i];
        buf.set(0, moved);
        down_heap(&mut buf, 0, i, Ghost((i + 1) as nat));
        let m2 = buf[0];
        let weight = weight_add_fn(buf[m1], buf[m2]);
        buf.set(i, weight);
        buf.set(0, i);
        buf.set(m1, i);
        buf.set(m2, i);
        down_heap(&mut buf, 0, i, Ghost(i as nat));
        i = i - 1;
    }
    buf.set(1, 0);
    let mut i: usize = 2;
    while i < n
        invariant
            2 <= n <= usize::MAX / 256,
            buf@.len() == 2 * n,
            2 <= i <= n,
            forall|q: int| 1 <= q < i ==> #[trigger] buf@[q] < q,
        decreases n - i,
    {
        let parent = buf[i];
        let depth = if 1 <= parent && parent < i {
            buf[parent] + 1
        } else {
            0
        };
        buf.set(i, depth);
        i = i + 1;
    }
    let mut ret: Vec<u8> = Vec::new();
    let mut too_long = false;
    let mut i: usize = 0;
    while i < n
        invariant
            2 <= n <= usize::MAX / 256,
            buf@.len() == 2 * n,
            i <= n,
            ret@.len() == i,
            forall|q: int| 1 <= q < n ==> #[trigger] buf@[q] < q,
            forall|q: int| 0 <= q < i ==> 1 <= #[trigger] ret@[q],
            !too_long ==> forall|q: int| 0 <= q < i ==> #[trigger] ret@[q] <= lim,
        decreases n - i,
    {
        let parent = buf[i + n];
        let l = if 1 <= parent && parent < n {
            buf[parent] + 1
        } else {
            1
        };
        if l > lim || l > 255 {
            too_long = true;
            ret.push(1);
        } else {
            ret.push(l as u8);
        }
        i = i + 1;
    }
    if too_long {
        proof {
            vstd::arithmetic::power2::lemma2_to64_rest();
        }
        gen_code_lm(freq, if lim < 64 {
            lim
        } else {
            63
        }, weight_add_fn)
    } else {
        ret
    }
}

/// Code lengths for the symbol frequencies `freq`, at most `lim` bits long,
/// two frequencies merged into one by `weight_add_fn`.
pub fn make_tab_with_fn<F: Fn(usize, usize) -> usize>(freq: &[usize], lim: usize, weight_add_fn: F) -> (r: Vec<u8>)
    requires
        freq@.len() <= usize::MAX / 256,
        used_count(freq@, freq@.len() as int) <= 1 || (1 <= lim && used_count(freq@, freq@.len() as int)
            <= pow2(lim as nat)),
        forall|x: usize, y: usize| weight_add_fn.requires((x, y)),
    ensures
        lengths_fit(freq@, lim as nat, r@),
        used_count(freq@, freq@.len() as int) == 1 ==> forall|i: int|
            0 <= i < r@.len() && freq@[i] != 0 ==> #[trigger] r@[i] == 1,
{
    let n = freq.len();
    let mut l: Vec<usize> = Vec::new();
    let mut end: usize = 0;
    let mut i: usize = 0;
    while i < n
        invariant
            n == freq@.len(),
            i <= n,
            l@.len() == used_count(freq@, i as int),
            end == table_len(freq@, i as int),
            end <= i,
        decreases n - i,
    {
        if freq[i] != 0 {
            l.push(freq[i]);
            end = i + 1;
        }
        i = i + 1;
    }
    if l.len() == 0 {
        proof {
            lemma_used_zero(freq@, n as int);
        }
        return Vec::new();
    }
    proof {
        lemma_used_bound(freq@, n as int);
    }
    let codes = gen_code(&l, lim, weight_add_fn);
    let ghost used = l@.len();
    let mut r: Vec<u8> = Vec::new();
    let mut k: usize = 0;
    let mut i: usize = 0;
    while i < end
        invariant
            n == freq@.len(),
            end == table_len(freq@, n as int),
            end <= n,
            i <= end,
            used == used_count(freq@, n as int),
            used <= n,
            codes@.len() == used,
            k == used_count(freq@, i as int),
            r@.len() == i,
            forall|q: int| 0 <= q < used ==> 1 <= #[trigger] codes@[q],
            used >= 2 ==> forall|q: int| 0 <= q < used ==> #[trigger] codes@[q] <= lim,
            used == 1 ==> codes@[0] == 1,
            forall|q: int| 0 <= q < i ==> (#[trigger] r@[q] == 0 <==> freq@[q] == 0),
            used >= 2 ==> forall|q: int| 0 <= q < i ==> #[trigger] r@[q] <= lim,
            used == 1 ==> forall|q: int| 0 <= q < i && freq@[q] != 0 ==> #[trigger] r@[q] == 1,
        decreases end - i,
    {
        proof {
            lemma_used_rises(freq@, i as int + 1, n as int);
        }
        if freq[i] != 0 {
            r.push(codes[k]);
            k = k + 1;
        } else {
            r.push(0);
        }
        i = i + 1;
    }
    r
}

/// Code lengths for the symbol frequencies `freq`, at most `lim` bits long.
pub fn make_table(freq: &[usize], lim: usize) -> (r: Vec<u8>)
    requires
        freq@.len() <= usize::MAX / 256,
        used_count(freq@, freq@.len() as int) <= 1 || (1 <= lim && used_count(freq@, freq@.len() as int)
            <= pow2(lim as nat)),
    ensures
        lengths_fit(freq@, lim as nat, r@),
        used_count(freq@, freq@.len() as int) == 1 ==> forall|i: int|
            0 <= i < r@.len() && freq@[i] != 0 ==> #[trigger] r@[i] == 1,
{
    make_tab_with_fn(freq, lim, |x: usize, y: usize| x.wrapping_add(y))
}

proof fn lemma_used_zero(freq: Seq<usize>, n: int)
    requires
        0 <= n <= freq.len(),
        used_count(freq, n) == 0,
    ensures
        table_len(freq, n) == 0,
    decreases n,
{
    if n > 0 {
        lemma_used_zero(freq, n - 1);
    }
}

pub proof fn lemma_used_bound(freq: Seq<usize>, n: int)
    requires
        0 <= n <= freq.len(),
    ensures
        used_count(freq, n) <= n,
        table_len(freq, n) <= n,
        forall|i: int| table_len(freq, n) <= i < n ==> freq[i] == 0,
        used_count(freq, table_len(freq, n) as int) == used_count(freq, n),
    decreases n,
{
    if n > 0 {
        lemma_used_bound(freq, n - 1);
    }
}

proof fn lemma_used_rises(freq: Seq<usize>, i: int, n: int)
    requires
        0 <= i <= n <= freq.len(),
    ensures
        used_count(freq, i) <= used_count(freq, n),
    decreases n - i,
{
    if i < n {
        lemma_used_rises(freq, i, n - 1);
    }
}

proof fn lemma_offsets_rise(off: Seq<usize>, max_elem: Seq<usize>, a: int, z: int)
    requires
        0 <= a <= z < off.len(),
        z <= max_elem.len(),
        forall|q: int| 0 <= q < z ==> #[trigger] off[q] + max_elem[q] == off[q + 1],
    ensures
        off[a] <= off[z],
    decreases z - a,
{
    if a < z {
        lemma_offsets_rise(off, max_elem, a + 1, z);
        assert(off[a] + max_elem[a] == off[a + 1]);
    }
}

} // verus!
