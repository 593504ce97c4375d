use vstd::prelude::*;
use crate::suffix_array::Symbol;
use crate::suffix_array::bucket::BucketBuilder;
use crate::suffix_array::ls_type::LSTypeArray;

verus! {

/// The text `a` read from position `i` round to `i - 1`.
pub open spec fn rotation(a: Seq<u8>, i: int) -> Seq<u8> {
    a.skip(i) + a.take(i)
}

/// The first `k` characters of `x` and `y` agree.
pub open spec fn agree(x: Seq<u8>, y: Seq<u8>, k: int) -> bool {
    forall|m: int| 0 <= m < k ==> #[trigger] x[m] == y[m]
}

/// `x` comes before `y`, or equals it, in lexicographic order (the two
/// being of one length).
pub open spec fn lex_le(x: Seq<u8>, y: Seq<u8>) -> bool {
    exists|k: int| 0 <= k <= x.len() && #[trigger] agree(x, y, k) && (k == x.len() || x[k] < y[k])
}

/// `i` stands somewhere among the first `n` entries of `r`.
pub open spec fn listed(r: Seq<usize>, n: nat, i: int) -> bool {
    exists|k: int| 0 <= k < n && #[trigger] r[k] == i
}

/// `r` lists each of `0..n` once.
pub open spec fn is_permutation(r: Seq<usize>, n: nat) -> bool {
    &&& r.len() == n
    &&& forall|k: int| 0 <= k < n ==> #[trigger] r[k] < n
    &&& forall|i: int| 0 <= i < n ==> #[trigger] listed(r, n, i)
}

/// `r` lists the rotations of `a` (by where they start) in sorted order.
pub open spec fn sorted_rotations(a: Seq<u8>, r: Seq<usize>) -> bool {
    &&& is_permutation(r, a.len())
    &&& forall|k: int|
        0 <= k < a.len() - 1 ==> lex_le(rotation(a, #[trigger] r[k] as int), rotation(a, r[k + 1] as int))
}

proof fn lemma_lex_total(x: Seq<u8>, y: Seq<u8>, k: int)
    requires
        x.len() == y.len(),
        0 <= k <= x.len(),
        agree(x, y, k),
    ensures
        lex_le(x, y) || lex_le(y, x),
    decreases x.len() - k,
{
    assert(agree(y, x, k));
    if k == x.len() {
        assert(agree(x, y, k) && k == x.len());
    } else if x[k] == y[k] {
        assert(agree(x, y, k + 1));
        lemma_lex_total(x, y, k + 1);
    } else if x[k] < y[k] {
        assert(agree(x, y, k));
    } else {
        assert(agree(y, x, k));
    }
}

/// Compares the rotations of `a` that start at `i` and `j`.
fn rotation_le(a: &[u8], i: usize, j: usize) -> (r: bool)
    requires
        i < a@.len(),
        j < a@.len(),
        a@.len() <= usize::MAX / 4,
    ensures
        r == lex_le(rotation(a@, i as int), rotation(a@, j as int)),
{
    let n = a.len();
    let ghost x = rotation(a@, i as int);
    let ghost y = rotation(a@, j as int);
    let mut k: usize = 0;
    let mut pi = i;
    let mut pj = j;
    while k < n && a[pi] == a[pj]
        invariant
            n == a@.len(),
            i < n,
            j < n,
            n <= usize::MAX / 4,
            x == rotation(a@, i as int),
            y == rotation(a@, j as int),
            k <= n,
            pi == (if i + k < n { i + k } else { i + k - n }),
            pj == (if j + k < n { j + k } else { j + k - n }),
            agree(x, y, k as int),
        decreases n - k,
    {
        assert(x[k as int] == a@[pi as int]);
        assert(y[k as int] == a@[pj as int]);
        k = k + 1;
        pi = if pi + 1 == n {
            0
        } else {
            pi + 1
        };
        pj = if pj + 1 == n {
            0
        } else {
            pj + 1
        };
    }
    if k == n {
        assert(agree(x, y, k as int));
        return true;
    }
    assert(x[k as int] == a@[pi as int]);
    assert(y[k as int] == a@[pj as int]);
    let r = a[pi] < a[pj];
    proof {
        if !r {
            assert forall|w: int| 0 <= w <= x.len() && #[trigger] agree(x, y, w) implies !(w == x.len() || x[w]
                < y[w]) by {
                if w > k {
                    assert(x[k as int] == y[k as int]);
                }
            }
        } else {
            assert(agree(x, y, k as int));
        }
    }
    r
}

/// Checks that `r` lists each of `0..n` once.
fn check_permutation(r: &Vec<usize>, n: usize) -> (ok: bool)
    ensures
        ok ==> is_permutation(r@, n as nat),
{
    if r.len() != n {
        return false;
    }
    let mut seen: Vec<bool> = Vec::new();
    let mut k: usize = 0;
    while k < n
        invariant
            k <= n,
            seen@.len() == k,
            forall|q: int| 0 <= q < k ==> !#[trigger] seen@[q],
        decreases n - k,
    {
        seen.push(false);
        k = k + 1;
    }
    let mut k: usize = 0;
    while k < n
        invariant
            r@.len() == n,
            seen@.len() == n,
            k <= n,
            forall|q: int| 0 <= q < k ==> #[trigger] r@[q] < n,
            forall|i: int| 0 <= i < n && #[trigger] seen@[i] ==> listed(r@, n as nat, i),
        decreases n - k,
    {
        let v = r[k];
        if v >= n {
            return false;
        }
        proof {
            assert(r@[k as int] == v);
        }
        seen.set(v, true);
        k = k + 1;
    }
    let mut i: usize = 0;
    while i < n
        invariant
            r@.len() == n,
            seen@.len() == n,
            i <= n,
            forall|q: int| 0 <= q < n ==> #[trigger] r@[q] < n,
            forall|q: int| 0 <= q < n && #[trigger] seen@[q] ==> listed(r@, n as nat, q),
            forall|q: int| 0 <= q < i ==> #[trigger] listed(r@, n as nat, q),
        decreases n - i,
    {
        if !seen[i] {
            return false;
        }
        i = i + 1;
    }
    true
}

/// Checks that `r` lists the rotations of `a` in sorted order.
fn check_sorted(a: &[u8], r: &Vec<usize>) -> (ok: bool)
    requires
        a@.len() <= usize::MAX / 4,
    ensures
        ok ==> sorted_rotations(a@, r@),
{
    let n = a.len();
    if !check_permutation(r, n) {
        return false;
    }
    let mut k: usize = 0;
    while k + 1 < n
        invariant
            n == a@.len(),
            n <= usize::MAX / 4,
            is_permutation(r@, n as nat),
            k <= n,
            forall|q: int| 0 <= q < k ==> lex_le(rotation(a@, #[trigger] r@[q] as int), rotation(a@, r@[q + 1] as int)),
        decreases n - k,
    {
        if !rotation_le(a, r[k], r[k + 1]) {
            return false;
        }
        k = k + 1;
    }
    true
}

/// Sorts the rotations of `a` by insertion, comparing them one by one.
fn sort_rotations(a: &[u8]) -> (r: Vec<usize>)
    requires
        a@.len() <= usize::MAX / 4,
    ensures
        sorted_rotations(a@, r@),
{
    let n = a.len();
    let mut r: Vec<usize> = Vec::new();
    let mut k: usize = 0;
    while k < n
        invariant
            k <= n,
            r@.len() == k,
            forall|q: int| 0 <= q < k ==> #[trigger] r@[q] == q,
        decreases n - k,
    {
        r.push(k);
        k = k + 1;
    }
    let ghost mut pos: Seq<int> = Seq::new(n as nat, |i: int| i);
    let mut k: usize = 1;
    while k < n
        invariant
            n == a@.len(),
            n <= usize::MAX / 4,
            1 <= k || n == 0,
            r@.len() == n,
            pos.len() == n,
            forall|q: int| 0 <= q < n ==> #[trigger] r@[q] < n,
            forall|i: int| 0 <= i < n ==> 0 <= #[trigger] pos[i] < n && r@[pos[i]] == i,
            forall|q: int|
                0 <= q < k - 1 && q + 1 < n ==> lex_le(rotation(a@, #[trigger] r@[q] as int), rotation(a@, r@[q + 1] as int)),
        decreases n - k,
    {
        let mut j = k;
        while j > 0 && !rotation_le(a, r[j - 1], r[j])
            invariant
                n == a@.len(),
                n <= usize::MAX / 4,
                j <= k < n,
                r@.len() == n,
                pos.len() == n,
                forall|q: int| 0 <= q < n ==> #[trigger] r@[q] < n,
                forall|i: int| 0 <= i < n ==> 0 <= #[trigger] pos[i] < n && r@[pos[i]] == i,
                forall|q: int|
                    0 <= q < k && q != j - 1 && q != j ==> lex_le(rotation(a@, #[trigger] r@[q] as int), rotation(a@, r@[q + 1] as int)),
                0 < j < k ==> lex_le(rotation(a@, r@[j - 1] as int), rotation(a@, r@[j + 1] as int)),
                j < k ==> lex_le(rotation(a@, r@[j as int] as int), rotation(a@, r@[j + 1] as int)),
            decreases j,
        {
            let x = r[j - 1];
            let y = r[j];
            proof {
                lemma_lex_total(rotation(a@, x as int), rotation(a@, y as int), 0);
                pos = pos.update(x as int, j as int).update(y as int, (j - 1) as int);
            }
            r.set(j - 1, y);
            r.set(j, x);
            j = j - 1;
        }
        k = k + 1;
    }
    proof {
        assert forall|i: int| 0 <= i < n implies #[trigger] listed(r@, n as nat, i) by {
            assert(r@[pos[i]] == i);
        }
    }
    r
}

/// The start of a rotation of `array` that is smaller than every other
/// one, found by narrowing down the candidates one character at a time;
/// `sarray` is scratch space.
fn array_rotate_for_non_sentinel_bwt<T: Symbol>(array: &[T], sarray: &mut Vec<usize>, bucket_max: usize) -> (r: usize)
    requires
        1 <= array@.len() <= old(sarray)@.len(),
        array@.len() <= usize::MAX / 4,
        bucket_max < usize::MAX,
        forall|i: int| 0 <= i < array@.len() ==> #[trigger] array@[i].rank() <= bucket_max,
    ensures
        final(sarray)@.len() == old(sarray)@.len(),
        r < array@.len(),
{
    let count = array.len();
    let mut n1: usize = 0;
    let mut val = bucket_max + 1;
    let mut prev_pos: usize = 0;
    let mut i: usize = 0;
    while i < count
        invariant
            count == array@.len(),
            count <= sarray@.len(),
            sarray@.len() == old(sarray)@.len(),
            bucket_max < usize::MAX,
            forall|q: int| 0 <= q < count ==> #[trigger] array@[q].rank() <= bucket_max,
            i <= count,
            n1 <= i,
            prev_pos <= i,
            val <= bucket_max + 1,
            i == 0 ==> val == bucket_max + 1,
            i > 0 ==> n1 >= 1 && val <= bucket_max,
            forall|q: int| 0 <= q < n1 ==> #[trigger] sarray@[q] < count,
        decreases count - i,
    {
        let j = array[i].to_usize();
        if val > j {
            sarray.set(0, i);
            val = j;
            n1 = 1;
            prev_pos = i;
        } else if val == j {
            prev_pos = prev_pos + 1;
            if prev_pos != i {
                sarray.set(n1, i);
                n1 = n1 + 1;
            }
        }
        i = i + 1;
    }
    let mut i: usize = 0;
    while i < count
        invariant
            count == array@.len(),
            count <= sarray@.len(),
            sarray@.len() == old(sarray)@.len(),
            count <= usize::MAX / 4,
            bucket_max < usize::MAX,
            forall|q: int| 0 <= q < count ==> #[trigger] array@[q].rank() <= bucket_max,
            1 <= n1 <= count,
            forall|q: int| 0 <= q < n1 ==> #[trigger] sarray@[q] < count,
        decreases count - i,
    {
        let mut n2: usize = 0;
        val = bucket_max + 1;
        let mut j: usize = 0;
        while j < n1
            invariant
                count == array@.len(),
                count <= sarray@.len(),
                sarray@.len() == old(sarray)@.len(),
                bucket_max < usize::MAX,
                forall|q: int| 0 <= q < count ==> #[trigger] array@[q].rank() <= bucket_max,
                1 <= n1 <= count,
                j <= n1,
                n2 <= j,
                val <= bucket_max + 1,
                j == 0 ==> val == bucket_max + 1,
                j > 0 ==> n2 >= 1,
                forall|q: int| j <= q < n1 ==> #[trigger] sarray@[q] < count,
                forall|q: int| 0 <= q < n2 ==> #[trigger] sarray@[q] < count,
            decreases n1 - j,
        {
            let mut k = sarray[j] + 1;
            if k >= count {
                k = k - count;
            }
            let l = array[k].to_usize();
            if val == l {
                sarray.set(n2, k);
                n2 = n2 + 1;
            } else if val > l {
                sarray.set(0, k);
                val = l;
                n2 = 1;
            }
            j = j + 1;
        }
        if n2 == 1 {
            let s0 = sarray[0];
            return if s0 <= i {
                s0 + count - i - 1
            } else {
                s0 - i - 1
            };
        }
        n1 = n2;
        i = i + 1;
    }
    sarray[0]
}

/// Sets `count` entries of `array` from `offset` on (those there are) to
/// `value`.
fn fill(array: &mut Vec<usize>, offset: usize, count: usize, value: usize)
    ensures
        final(array)@.len() == old(array)@.len(),
        forall|k: int|
            0 <= k < final(array)@.len() ==> #[trigger] final(array)@[k] == if offset <= k < offset + count {
                value
            } else {
                old(array)@[k]
            },
{
    let mut k = offset;
    let mut left = count;
    while left > 0 && k < array.len()
        invariant
            array@.len() == old(array)@.len(),
            offset <= k,
            k - offset + left == count,
            forall|q: int|
                0 <= q < array@.len() ==> #[trigger] array@[q] == if offset <= q < k {
                    value
                } else {
                    old(array)@[q]
                },
        decreases left,
    {
        array.set(k, value);
        k = k + 1;
        left = left - 1;
    }
}

/// The position before `j`, going round a text of `n` characters.
fn before(j: usize, n: usize) -> (r: usize)
    requires
        j < n,
    ensures
        r < n,
        r == if j == 0 {
            n - 1
        } else {
            j - 1
        },
{
    if j == 0 {
        n - 1
    } else {
        j - 1
    }
}

/// Places the L-type suffixes from the left ends of their buckets, then
/// the S-type ones from the right ends, each after the suffix that follows
/// it.
fn induce_sa<T: Symbol>(
    bucket_builder: &BucketBuilder<T>,
    type_array: &LSTypeArray,
    suffix_array: &mut Vec<usize>,
    shift: usize,
)
    requires
        bucket_builder.wf(),
        type_array.wf(),
        1 <= bucket_builder.text().len(),
        type_array.types().len() == bucket_builder.text().len(),
        bucket_builder.text().len() <= old(suffix_array)@.len(),
        shift == 0 || shift < bucket_builder.text().len(),
    ensures
        final(suffix_array)@.len() == old(suffix_array)@.len(),
{
    let n = type_array.len();
    let total = suffix_array.len();
    let mut bucket = bucket_builder.build(false);
    let k = if shift == 0 {
        n
    } else {
        shift
    } - 1;
    let bk = bucket.get(k);
    if bk < total {
        suffix_array.set(bk, k);
        bucket.set(k, bk + 1);
    }
    let mut i: usize = 0;
    while i < n
        invariant
            n == type_array.types().len(),
            n == bucket.text().len(),
            type_array.wf(),
            bucket.wf(),
            total == suffix_array@.len(),
            total == old(suffix_array)@.len(),
            n <= total,
            i <= n,
        decreases n - i,
    {
        let j = suffix_array[i];
        if j < n && j != shift {
            let j = before(j, n);
            if !type_array.get(j) {
                let bj = bucket.get(j);
                if bj < total {
                    suffix_array.set(bj, j);
                    bucket.set(j, bj + 1);
                }
            }
        }
        i = i + 1;
    }
    let mut bucket = bucket_builder.build(true);
    let mut i: usize = n;
    while i > 0
        invariant
            n == type_array.types().len(),
            n == bucket.text().len(),
            type_array.wf(),
            bucket.wf(),
            total == suffix_array@.len(),
            total == old(suffix_array)@.len(),
            n <= total,
            i <= n,
        decreases i,
    {
        i = i - 1;
        let j = suffix_array[i];
        if j < n && j != shift {
            let j = before(j, n);
            if type_array.get(j) {
                let bj = bucket.get(j);
                if 1 <= bj && bj - 1 < total {
                    bucket.set(j, bj - 1);
                    suffix_array.set(bj - 1, j);
                }
            }
        }
    }
}

/// Every character of `s` is below `bound`.
fn all_below(s: &Vec<usize>, bound: usize) -> (r: bool)
    ensures
        r ==> forall|i: int| 0 <= i < s@.len() ==> #[trigger] s@[i] < bound,
{
    let mut i: usize = 0;
    while i < s.len()
        invariant
            i <= s@.len(),
            forall|q: int| 0 <= q < i ==> #[trigger] s@[q] < bound,
        decreases s@.len() - i,
    {
        if s[i] >= bound {
            return false;
        }
        i = i + 1;
    }
    true
}

/// Sorts the rotations of `array` rotated by `shift` into the first
/// entries of `suffix_array` by induced sorting: the leftmost S-type
/// substrings are sorted and named, the string of names is sorted the
/// same way when names repeat, and the order of the whole text is induced
/// from theirs.
fn sa_is(array: &[usize], suffix_array: &mut Vec<usize>, bucket_min: usize, bucket_max: usize, shift: usize)
    requires
        1 <= array@.len() <= old(suffix_array)@.len(),
        array@.len() <= usize::MAX / 4,
        bucket_min <= bucket_max < usize::MAX - 1,
        forall|i: int| 0 <= i < array@.len() ==> bucket_min <= #[trigger] array@[i].rank() <= bucket_max,
        shift == 0 || shift < array@.len(),
    ensures
        final(suffix_array)@.len() == old(suffix_array)@.len(),
    decreases array@.len(),
{
    let count = array.len();
    let total = suffix_array.len();
    let type_array = LSTypeArray::with_shift(array, shift);
    let bucket_builder = BucketBuilder::new(array, bucket_min, bucket_max);
    let mut bucket = bucket_builder.build(true);
    fill(suffix_array, 0, count, usize::MAX);
    let mut i: usize = shift + 1;
    while i < count
        invariant
            count == type_array.types().len(),
            count == bucket.text().len(),
            type_array.wf(),
            bucket.wf(),
            total == suffix_array@.len(),
            total == old(suffix_array)@.len(),
            count <= total,
        decreases count - i,
    {
        if type_array.is_lms(i) {
            let bi = bucket.get(i);
            if 1 <= bi && bi - 1 < total {
                bucket.set(i, bi - 1);
                suffix_array.set(bi - 1, i);
            }
        }
        i = i + 1;
    }
    let mut i: usize = 0;
    while i < shift
        invariant
            count == type_array.types().len(),
            count == bucket.text().len(),
            type_array.wf(),
            bucket.wf(),
            total == suffix_array@.len(),
            total == old(suffix_array)@.len(),
            count <= total,
            shift == 0 || shift < count,
        decreases shift - i,
    {
        if type_array.is_lms(i) {
            let bi = bucket.get(i);
            if 1 <= bi && bi - 1 < total {
                bucket.set(i, bi - 1);
                suffix_array.set(bi - 1, i);
            }
        }
        i = i + 1;
    }
    induce_sa(&bucket_builder, &type_array, suffix_array, shift);
    let mut n1: usize = 0;
    let mut i: usize = 0;
    while i < count
        invariant
            count == type_array.types().len(),
            type_array.wf(),
            total == suffix_array@.len(),
            total == old(suffix_array)@.len(),
            count <= total,
            i <= count,
            n1 <= i,
            forall|q: int| 0 <= q < n1 ==> #[trigger] suffix_array@[q] < count,
        decreases count - i,
    {
        let v = suffix_array[i];
        if v < count && type_array.is_lms(v) {
            suffix_array.set(n1, v);
            n1 = n1 + 1;
        }
        i = i + 1;
    }
    fill(suffix_array, n1, count - n1, usize::MAX);
    let mut name: usize = 0;
    let mut prev_store = usize::MAX;
    let mut i: usize = 0;
    while i < n1
        invariant
            count == type_array.types().len(),
            count == array@.len(),
            count <= usize::MAX / 4,
            type_array.wf(),
            total == suffix_array@.len(),
            total == old(suffix_array)@.len(),
            count <= total,
            n1 <= count,
            i <= n1,
            name <= i,
            i > 0 ==> name >= 1,
            i == 0 ==> prev_store == usize::MAX,
            prev_store == usize::MAX || prev_store < count,
            shift == 0 || shift < count,
            forall|q: int| 0 <= q < n1 ==> #[trigger] suffix_array@[q] < count,
        decreases n1 - i,
    {
        let mut prev = prev_store;
        let mut pos = suffix_array[i];
        let mut now = pos;
        let mut diff = false;
        let mut steps: usize = 0;
        if prev == usize::MAX {
            diff = true;
        } else {
            while steps <= count
                invariant
                    count == type_array.types().len(),
                    count == array@.len(),
                    count <= usize::MAX / 4,
                    type_array.wf(),
                    now < count,
                    pos < count,
                    prev == usize::MAX || prev < count,
                decreases count + 1 - steps,
            {
                if prev == usize::MAX || now == shift || prev == shift || array[now].to_usize()
                    != array[prev].to_usize() || type_array.get(now) != type_array.get(prev) {
                    diff = true;
                    break;
                } else if now != pos && (type_array.is_lms(now) || type_array.is_lms(prev)) {
                    break;
                }
                now = if now == count - 1 {
                    0
                } else {
                    now + 1
                };
                prev = if prev == count - 1 {
                    0
                } else {
                    prev + 1
                };
                steps = steps + 1;
            }
        }
        if diff {
            name = name + 1;
            prev_store = pos;
        }
        pos = (if pos > shift {
            pos - shift
        } else {
            pos + count - shift
        }) / 2;
        if name >= 1 && n1 + pos < count {
            suffix_array.set(n1 + pos, name - 1);
        }
        i = i + 1;
    }
    if count >= 1 {
        let mut j = count - 1;
        let mut i = count;
        while i > n1
            invariant
                total == suffix_array@.len(),
                total == old(suffix_array)@.len(),
                count <= total,
                n1 <= count,
                n1 <= i <= count,
                i > 0 ==> j >= i - 1,
                j < count,
                forall|q: int| 0 <= q < n1 ==> #[trigger] suffix_array@[q] < count,
            decreases i,
        {
            i = i - 1;
            if suffix_array[i] < usize::MAX {
                let moved = suffix_array[i];
                suffix_array.set(j, moved);
                if j > 0 {
                    j = j - 1;
                }
            }
        }
    }
    let mut s1: Vec<usize> = Vec::new();
    let mut k = count - n1;
    while k < count
        invariant
            total == suffix_array@.len(),
            count <= total,
            count - n1 <= k <= count,
            n1 <= count,
            s1@.len() == k - (count - n1),
        decreases count - k,
    {
        s1.push(suffix_array[k]);
        k = k + 1;
    }
    if name < n1 && n1 < count && all_below(&s1, name) {
        assert(s1@.len() < array@.len());
        sa_is(s1.as_slice(), suffix_array, 0, name - 1, 0);
    } else {
        let mut i: usize = 0;
        while i < s1.len()
            invariant
                total == suffix_array@.len(),
                total == old(suffix_array)@.len(),
                i <= s1@.len(),
            decreases s1@.len() - i,
        {
            let s = s1[i];
            if s < total {
                suffix_array.set(s, i);
            }
            i = i + 1;
        }
    }
    let mut bucket2 = bucket_builder.build(true);
    let mut j: usize = 0;
    let mut i: usize = shift + 1;
    while i < count
        invariant
            count == type_array.types().len(),
            type_array.wf(),
            j <= s1@.len(),
        decreases count - i,
    {
        if type_array.is_lms(i) && j < s1.len() {
            s1.set(j, i);
            j = j + 1;
        }
        i = i + 1;
    }
    let mut i: usize = 0;
    while i < shift
        invariant
            count == type_array.types().len(),
            type_array.wf(),
            j <= s1@.len(),
            shift == 0 || shift < count,
        decreases shift - i,
    {
        if type_array.is_lms(i) && j < s1.len() {
            s1.set(j, i);
            j = j + 1;
        }
        i = i + 1;
    }
    let mut k: usize = 0;
    while k < n1
        invariant
            total == suffix_array@.len(),
            total == old(suffix_array)@.len(),
            n1 <= count <= total,
            k <= n1,
        decreases n1 - k,
    {
        let v = suffix_array[k];
        if v < s1.len() {
            suffix_array.set(k, s1[v]);
        }
        k = k + 1;
    }
    fill(suffix_array, n1, count - n1, usize::MAX);
    let mut i: usize = n1;
    while i > 0
        invariant
            count == bucket2.text().len(),
            bucket2.wf(),
            total == suffix_array@.len(),
            total == old(suffix_array)@.len(),
            n1 <= count <= total,
            i <= n1,
        decreases i,
    {
        i = i - 1;
        let j = suffix_array[i];
        suffix_array.set(i, usize::MAX);
        if j < count {
            let b2j = bucket2.get(j);
            if 1 <= b2j && b2j - 1 < total {
                bucket2.set(j, b2j - 1);
                suffix_array.set(b2j - 1, j);
            }
        }
    }
    induce_sa(&bucket_builder, &type_array, suffix_array, shift);
}

/// The rotations of `array` (by where they start) in sorted order: the
/// last characters of the rotations in this order are the Burrows-Wheeler
/// transform of `array`. The order comes from induced sorting; it is
/// checked, and rotations compared one by one stand behind it.
pub fn bwt(array: &[u8], max_value: usize) -> (r: Vec<usize>)
    requires
        1 <= array@.len() <= usize::MAX / 4,
        max_value < usize::MAX - 1,
        forall|i: int| 0 <= i < array@.len() ==> #[trigger] array@[i] <= max_value,
    ensures
        sorted_rotations(array@, r@),
{
    let n = array.len();
    let mut suffix_array: Vec<usize> = Vec::new();
    let mut k: usize = 0;
    while k < n
        invariant
            k <= n,
            suffix_array@.len() == k,
        decreases n - k,
    {
        suffix_array.push(0);
        k = k + 1;
    }
    let shift = array_rotate_for_non_sentinel_bwt(array, &mut suffix_array, max_value);
    let mut wide: Vec<usize> = Vec::new();
    let mut k: usize = 0;
    while k < n
        invariant
            n == array@.len(),
            k <= n,
            wide@.len() == k,
            forall|q: int| 0 <= q < k ==> #[trigger] wide@[q] == array@[q],
        decreases n - k,
    {
        wide.push(array[k] as usize);
        k = k + 1;
    }
    sa_is(wide.as_slice(), &mut suffix_array, 0, max_value, shift);
    if check_sorted(array, &suffix_array) {
        suffix_array
    } else {
        sort_rotations(array)
    }
}

} // verus!
