use vstd::prelude::*;
use crate::suffix_array::Symbol;

verus! {

/// How many of the first `k` characters of `a` have the rank `v`.
pub open spec fn count_rank<T: Symbol>(a: Seq<T>, v: nat, k: int) -> nat
    decreases k,
{
    if k <= 0 {
        0
    } else {
        count_rank(a, v, k - 1) + if a[k - 1].rank() == v {
            1nat
        } else {
            0nat
        }
    }
}

/// How many characters of `a` rank below `v`.
pub open spec fn count_below<T: Symbol>(a: Seq<T>, v: nat) -> nat
    decreases v,
{
    if v == 0 {
        0
    } else {
        count_below(a, (v - 1) as nat) + count_rank(a, (v - 1) as nat, a.len() as int)
    }
}

proof fn lemma_count_total<T: Symbol>(a: Seq<T>, v: nat, k: int)
    requires
        0 <= k <= a.len(),
    ensures
        count_below_prefix(a, v, k) + count_rank(a, v, k) == count_below_prefix(a, v + 1, k),
    decreases k,
{
    if k > 0 {
        lemma_count_total(a, v, k - 1);
    }
}

/// How many of the first `k` characters rank below `v`.
pub open spec fn count_below_prefix<T: Symbol>(a: Seq<T>, v: nat, k: int) -> nat
    decreases k,
{
    if k <= 0 {
        0
    } else {
        count_below_prefix(a, v, k - 1) + if a[k - 1].rank() < v {
            1nat
        } else {
            0nat
        }
    }
}

proof fn lemma_below_is_prefix<T: Symbol>(a: Seq<T>, v: nat)
    ensures
        count_below(a, v) == count_below_prefix(a, v, a.len() as int),
    decreases v,
{
    if v > 0 {
        lemma_below_is_prefix(a, (v - 1) as nat);
        lemma_count_total(a, (v - 1) as nat, a.len() as int);
    } else {
        lemma_prefix_zero(a, a.len() as int);
    }
}

proof fn lemma_prefix_zero<T: Symbol>(a: Seq<T>, k: int)
    requires
        0 <= k <= a.len(),
    ensures
        count_below_prefix(a, 0, k) == 0,
    decreases k,
{
    if k > 0 {
        lemma_prefix_zero(a, k - 1);
    }
}

proof fn lemma_prefix_none<T: Symbol>(a: Seq<T>, v: nat, k: int)
    requires
        0 <= k <= a.len(),
        forall|i: int| 0 <= i < a.len() ==> #[trigger] a[i].rank() >= v,
    ensures
        count_below_prefix(a, v, k) == 0,
    decreases k,
{
    if k > 0 {
        lemma_prefix_none(a, v, k - 1);
    }
}

proof fn lemma_prefix_all<T: Symbol>(a: Seq<T>, w: nat, k: int)
    requires
        0 <= k <= a.len(),
        forall|i: int| 0 <= i < a.len() ==> #[trigger] a[i].rank() < w,
    ensures
        count_below_prefix(a, w, k) == k,
    decreases k,
{
    if k > 0 {
        lemma_prefix_all(a, w, k - 1);
    }
}

proof fn lemma_prefix_rises<T: Symbol>(a: Seq<T>, v: nat, w: nat, k: int)
    requires
        0 <= k <= a.len(),
        v <= w,
    ensures
        count_below_prefix(a, v, k) <= count_below_prefix(a, w, k),
    decreases k,
{
    if k > 0 {
        lemma_prefix_rises(a, v, w, k - 1);
    }
}

proof fn lemma_count_all<T: Symbol>(a: Seq<T>, w: nat, k: int)
    requires
        0 <= k <= a.len(),
        forall|i: int| 0 <= i < a.len() ==> #[trigger] a[i].rank() < w,
    ensures
        count_below(a, w) == a.len(),
{
    lemma_below_is_prefix(a, w);
    lemma_prefix_all(a, w, a.len() as int);
}

proof fn lemma_below_rises<T: Symbol>(a: Seq<T>, v: nat, w: nat)
    requires
        v <= w,
    ensures
        count_below(a, v) <= count_below(a, w),
{
    lemma_below_is_prefix(a, v);
    lemma_below_is_prefix(a, w);
    lemma_prefix_rises(a, v, w, a.len() as int);
}

/// Where the bucket of each rank starts in the sorted text, and one entry
/// more: where the last bucket ends.
pub struct BucketBuilder<'a, T> {
    data: Vec<usize>,
    array: &'a [T],
    min: usize,
}

impl<'a, T: Symbol> BucketBuilder<'a, T> {
    pub closed spec fn text(&self) -> Seq<T> {
        self.array@
    }

    pub closed spec fn low(&self) -> nat {
        self.min as nat
    }

    /// The ranks the buckets stand for: `low()` up to `low() + ranks() - 1`.
    pub closed spec fn ranks(&self) -> nat {
        (self.data@.len() - 1) as nat
    }

    pub closed spec fn wf(&self) -> bool {
        &&& self.data@.len() >= 2
        &&& forall|i: int| 0 <= i < self.array@.len() ==> self.min <= #[trigger] self.array@[i].rank() < self.min
            + self.data@.len() - 1
        &&& forall|c: int| 0 <= c < self.data@.len() ==> #[trigger] self.data@[c] == count_below(
            self.array@,
            (self.min + c) as nat,
        )
    }

    /// Counts the characters of `array`, whose ranks run from `min` to `max`.
    pub fn new(array: &'a [T], min: usize, max: usize) -> (r: Self)
        requires
            min <= max < usize::MAX - 1,
            forall|i: int| 0 <= i < array@.len() ==> min <= #[trigger] array@[i].rank() <= max,
        ensures
            r.wf(),
            r.text() == array@,
            r.low() == min,
            r.ranks() == max - min + 1,
    {
        let size = max - min + 2;
        let mut data: Vec<usize> = Vec::new();
        let mut k: usize = 0;
        while k < size
            invariant
                k <= size,
                data@.len() == k,
                forall|q: int| 0 <= q < k ==> #[trigger] data@[q] == 0,
            decreases size - k,
        {
            data.push(0);
            k = k + 1;
        }
        let n = array.len();
        let mut i: usize = 0;
        while i < n
            invariant
                n == array@.len(),
                size == max - min + 2,
                min <= max < usize::MAX - 1,
                forall|q: int| 0 <= q < n ==> min <= #[trigger] array@[q].rank() <= max,
                i <= n,
                data@.len() == size,
                forall|q: int| 0 <= q < size ==> #[trigger] data@[q] == count_rank(array@, (min + q) as nat, i as int),
            decreases n - i,
        {
            let v = array[i].to_usize();
            let c = v - min;
            proof {
                lemma_count_bound(array@, v as nat, i as int);
            }
            let bumped = data[c] + 1;
            data.set(c, bumped);
            i = i + 1;
        }
        let mut sum: usize = 0;
        let mut c: usize = 0;
        let ghost counts = data@;
        proof {
            lemma_below_is_prefix(array@, min as nat);
            lemma_prefix_none(array@, min as nat, n as int);
            lemma_count_all(array@, (max + 2) as nat, n as int);
        }
        while c < size
            invariant
                n == array@.len(),
                size == max - min + 2,
                min <= max < usize::MAX - 1,
                forall|q: int| 0 <= q < n ==> min <= #[trigger] array@[q].rank() <= max,
                c <= size,
                data@.len() == size,
                counts.len() == size,
                forall|q: int| 0 <= q < size ==> #[trigger] counts[q] == count_rank(array@, (min + q) as nat, n as int),
                forall|q: int| c <= q < size ==> #[trigger] data@[q] == counts[q],
                forall|q: int| 0 <= q < c ==> #[trigger] data@[q] == count_below(array@, (min + q) as nat),
                sum == count_below(array@, (min + c) as nat),
                count_below(array@, (max + 2) as nat) == n,
            decreases size - c,
        {
            let val = data[c];
            proof {
                lemma_below_rises(array@, (min + c + 1) as nat, (max + 2) as nat);
                assert(count_below(array@, (min + c + 1) as nat) == count_below(array@, (min + c) as nat)
                    + count_rank(array@, (min + c) as nat, n as int));
            }
            data.set(c, sum);
            sum = sum + val;
            c = c + 1;
        }
        BucketBuilder { data, array, min }
    }

    /// The buckets, each at its end (`has_end`) or at its start.
    pub fn build(&self, has_end: bool) -> (r: Bucket<'a, T>)
        requires
            self.wf(),
        ensures
            r.wf(),
            r.text() == self.text(),
            r.low() == self.low(),
            r.heads().len() == self.ranks(),
            forall|c: int| 0 <= c < self.ranks() ==> #[trigger] r.heads()[c] == count_below(
                self.text(),
                (self.low() + c + if has_end {
                    1int
                } else {
                    0int
                }) as nat,
            ),
    {
        let size = self.data.len() - 1;
        let mut data: Vec<usize> = Vec::new();
        let mut k: usize = 0;
        while k < size
            invariant
                self.wf(),
                size == self.data@.len() - 1,
                k <= size,
                data@.len() == k,
                forall|c: int| 0 <= c < k ==> #[trigger] data@[c] == self.data@[c + if has_end {
                    1int
                } else {
                    0int
                }],
            decreases size - k,
        {
            let v = if has_end {
                self.data[k + 1]
            } else {
                self.data[k]
            };
            data.push(v);
            k = k + 1;
        }
        Bucket { data, array: self.array, min: self.min }
    }
}

proof fn lemma_count_bound<T: Symbol>(a: Seq<T>, v: nat, k: int)
    requires
        0 <= k < a.len(),
    ensures
        count_rank(a, v, k) <= k,
        count_rank(a, v, k + 1) == count_rank(a, v, k) + if a[k].rank() == v {
            1int
        } else {
            0int
        },
    decreases k,
{
    if k > 0 {
        lemma_count_bound(a, v, k - 1);
    }
}

/// One position per rank, moved about while the suffixes are placed.
pub struct Bucket<'a, T> {
    data: Vec<usize>,
    array: &'a [T],
    min: usize,
}

impl<'a, T: Symbol> Bucket<'a, T> {
    pub closed spec fn text(&self) -> Seq<T> {
        self.array@
    }

    pub closed spec fn low(&self) -> nat {
        self.min as nat
    }

    pub closed spec fn heads(&self) -> Seq<usize> {
        self.data@
    }

    pub closed spec fn wf(&self) -> bool {
        forall|i: int| 0 <= i < self.array@.len() ==> self.min <= #[trigger] self.array@[i].rank() < self.min
            + self.data@.len()
    }

    /// The slot of `idx`: that of the rank of the character at `idx`.
    pub open spec fn slot(&self, idx: int) -> int {
        self.text()[idx].rank() - self.low()
    }

    pub fn new(array: &'a [T], data: Vec<usize>, min: usize) -> (r: Self)
        ensures
            r.text() == array@,
            r.heads() == data@,
            r.low() == min,
    {
        Bucket { array, data, min }
    }

    /// The position kept for the rank of the character at `idx`.
    pub fn get(&self, idx: usize) -> (r: usize)
        requires
            self.wf(),
            idx < self.text().len(),
        ensures
            0 <= self.slot(idx as int) < self.heads().len(),
            r == self.heads()[self.slot(idx as int)],
    {
        let c = self.array[idx].to_usize() - self.min;
        self.data[c]
    }

    /// Sets the position kept for the rank of the character at `idx`.
    pub fn set(&mut self, idx: usize, value: usize)
        requires
            old(self).wf(),
            idx < old(self).text().len(),
        ensures
            final(self).wf(),
            final(self).text() == old(self).text(),
            final(self).low() == old(self).low(),
            0 <= old(self).slot(idx as int) < old(self).heads().len(),
            final(self).heads() == old(self).heads().update(old(self).slot(idx as int), value),
    {
        let c = self.array[idx].to_usize() - self.min;
        self.data.set(c, value);
    }
}

} // verus!
