use vstd::prelude::*;

verus! {

/// Bit `k` of the word `w`.
pub open spec fn word_bit(w: u64, k: int) -> bool {
    (w >> (k as u64)) & 1 == 1
}

proof fn lemma_set_bit(w: u64, k: u64, j: u64)
    by (bit_vector)
    requires
        k < 64,
        j < 64,
    ensures
        ((w | (1u64 << k)) >> j) & 1 == (if j == k { 1u64 } else { (w >> j) & 1 }),
        ((w & !(1u64 << k)) >> j) & 1 == (if j == k { 0u64 } else { (w >> j) & 1 }),
        (w & (1u64 << k) != 0) == ((w >> k) & 1 == 1),
        ((0xFFFF_FFFFu64 >> j) & 1 == 1) == (j < 32),
        (0u64 >> j) & 1 == 0,
{
}

proof fn lemma_index_split(idx: usize)
    by (bit_vector)
    ensures
        idx >> 6usize == idx / 64,
        idx & 63usize == idx % 64,
        idx & 3usize == idx % 4,
        idx >> 2usize == idx / 4,
        idx >> 4usize == idx / 16,
        (idx & 3usize) << 4usize == 16 * (idx % 4),
{
}

/// A fixed number of bits packed into 64-bit words.
pub struct BitArray {
    data: Vec<u64>,
    len: usize,
}

impl BitArray {
    /// The packed words.
    pub closed spec fn words(&self) -> Seq<u64> {
        self.data@
    }

    pub closed spec fn spec_len(&self) -> usize {
        self.len
    }

    /// Bit `i`; defined for every bit of every word.
    pub open spec fn bit(&self, i: int) -> bool {
        word_bit(self.words()[i / 64], i % 64)
    }

    /// The bits `0..len` as a sequence.
    pub open spec fn bits(&self) -> Seq<bool> {
        Seq::new(self.spec_len() as nat, |i: int| self.bit(i))
    }

    /// Every bit below the length lies in a word.
    pub proof fn lemma_index_in_words(&self, i: int)
        requires
            self.wf(),
            0 <= i < self.spec_len(),
        ensures
            i / 64 < self.words().len(),
    {
    }

    /// There is one word for every started run of 64 bits.
    pub open spec fn wf(&self) -> bool {
        self.words().len() == (self.spec_len() + 63) / 64
    }

    /// `len` bits, all clear.
    pub fn new(len: usize) -> (r: Self)
        requires
            len + 63 <= usize::MAX,
        ensures
            r.wf(),
            r.spec_len() == len,
            forall|i: int| 0 <= i < 64 * r.words().len() ==> !#[trigger] r.bit(i),
    {
        let n = (len + 63) >> 6;
        proof {
            lemma_index_split((len + 63) as usize);
        }
        let mut data: Vec<u64> = Vec::with_capacity(n);
        let mut i: usize = 0;
        while i < n
            invariant
                i <= n,
                data@ == Seq::new(i as nat, |j: int| 0u64),
            decreases n - i,
        {
            data.push(0);
            i += 1;
        }
        let r = Self { data, len };
        assert forall|i: int| 0 <= i < 64 * r.words().len() implies !#[trigger] r.bit(i) by {
            lemma_set_bit(0, 0, (i % 64) as u64);
        }
        r
    }

    pub fn get(&self, idx: usize) -> (r: bool)
        requires
            idx / 64 < self.words().len(),
        ensures
            r == self.bit(idx as int),
    {
        proof {
            lemma_index_split(idx);
            lemma_set_bit(self.data@[(idx / 64) as int], (idx % 64) as u64, 0);
        }
        (self.data[idx >> 6] & (1u64 << ((idx & 63) as u64))) != 0
    }

    pub fn set(&mut self, idx: usize, value: bool)
        requires
            idx / 64 < old(self).words().len(),
        ensures
            final(self).spec_len() == old(self).spec_len(),
            final(self).words().len() == old(self).words().len(),
            final(self).bit(idx as int) == value,
            forall|i: int|
                0 <= i < 64 * old(self).words().len() && i != idx ==> #[trigger] final(self).bit(i) == old(self).bit(i),
    {
        proof {
            lemma_index_split(idx);
        }
        let v: u64 = 1u64 << ((idx & 63) as u8);
        let w = idx >> 6;
        let old_word = self.data[w];
        if value {
            self.data.set(w, old_word | v);
        } else {
            self.data.set(w, old_word & !v);
        }
        proof {
            assert forall|i: int| 0 <= i < 64 * old(self).words().len() implies #[trigger] self.bit(i) == (
            if i == idx {
                value
            } else {
                old(self).bit(i)
            }) by {
                lemma_set_bit(old_word, (idx % 64) as u64, (i % 64) as u64);
                if i / 64 != w {
                    assert(self.data@[i / 64] == old(self).data@[i / 64]);
                } else if i != idx {
                    assert(i % 64 != idx % 64);
                }
            }
        }
    }

    pub fn len(&self) -> (r: usize)
        ensures
            r == self.spec_len(),
    {
        self.len
    }

    /// Writes `0xFFFF_FFFF` (for `true`) or `0` into every word: `true` sets
    /// the low 32 bits of each word and clears the high 32.
    pub fn set_all(&mut self, value: bool)
        ensures
            final(self).spec_len() == old(self).spec_len(),
            final(self).words().len() == old(self).words().len(),
            forall|i: int|
                0 <= i < final(self).words().len() ==> #[trigger] final(self).words()[i] == (if value {
                    0xFFFF_FFFFu64
                } else {
                    0u64
                }),
            forall|i: int|
                0 <= i < 64 * final(self).words().len() ==> #[trigger] final(self).bit(i) == (value && i % 64 < 32),
    {
        let writeval: u64 = if value {
            0xFFFF_FFFF
        } else {
            0
        };
        let n = self.data.len();
        let mut i: usize = 0;
        while i < n
            invariant
                i <= n,
                n == self.data.len(),
                self.len == old(self).len,
                forall|j: int| 0 <= j < i ==> #[trigger] self.data@[j] == writeval,
            decreases n - i,
        {
            self.data.set(i, writeval);
            i += 1;
        }
        assert forall|i: int| 0 <= i < 64 * self.words().len() implies #[trigger] self.bit(i) == (value && i % 64 < 32) by {
            lemma_set_bit(writeval, 0, (i % 64) as u64);
        }
    }

    /// Walks the bits `0..len`.
    pub fn iter(&self) -> (r: BitArrayIter<'_>)
        ensures
            r.spec_pos() == 0,
            r.spec_len() == self.spec_len(),
            r.spec_array() == self,
            r.synced(),
    {
        BitArrayIter { array: self, pos: 0, len: self.len(), data: 0 }
    }

    /// Walks the bits in runs of 16, each as a `u16` whose bit `k` is bit
    /// `16 * n + k` of the array.
    pub fn u16_iter(&self) -> (r: BitArrayU16Iter<'_>)
        requires
            self.spec_len() + 15 <= usize::MAX,
        ensures
            r.spec_pos() == 0,
            r.spec_len() == (self.spec_len() + 15) / 16,
            r.spec_array() == self,
            r.synced(),
    {
        proof {
            lemma_index_split((self.len + 15) as usize);
        }
        BitArrayU16Iter { array: self, pos: 0, len: (self.len() + 15) >> 4, data: 0 }
    }

    /// Packs the values of `bits` in order.
    pub fn from_iter(bits: Vec<bool>) -> (r: Self)
        ensures
            r.wf(),
            r.spec_len() == bits.len(),
            r.bits() == bits@,
    {
        let mut s: u64 = 0;
        let mut l: usize = 0;
        let mut data: Vec<u64> = Vec::new();
        proof {
            assert forall|k: int| 0 <= k < 64 implies !#[trigger] word_bit(s, k) by {
                lemma_set_bit(0, 0, k as u64);
            }
        }
        while l < bits.len()
            invariant
                l <= bits.len(),
                data.len() == l / 64,
                forall|i: int| 0 <= i < 64 * (l / 64) ==> #[trigger] word_bit(data@[i / 64], i % 64) == bits@[i],
                forall|k: int| 0 <= k < l % 64 ==> #[trigger] word_bit(s, k) == bits@[64 * (l / 64) + k],
                forall|k: int| l % 64 <= k < 64 ==> !#[trigger] word_bit(s, k),
            decreases bits.len() - l,
        {
            let v = bits[l];
            let ghost s0 = s;
            proof {
                lemma_index_split(l);
            }
            if v {
                s |= 1u64 << ((l & 63) as u64);
            }
            proof {
                assert forall|k: int| 0 <= k < 64 implies #[trigger] word_bit(s, k) == (if k == l % 64 {
                    v
                } else {
                    word_bit(s0, k)
                }) by {
                    lemma_set_bit(s0, (l % 64) as u64, k as u64);
                }
            }
            l += 1;
            if l % 64 == 0 {
                data.push(s);
                s = 0;
                proof {
                    assert forall|k: int| 0 <= k < 64 implies !#[trigger] word_bit(s, k) by {
                        lemma_set_bit(0, 0, k as u64);
                    }
                }
            }
            proof {
                assert forall|i: int| 0 <= i < 64 * (l / 64) implies #[trigger] word_bit(data@[i / 64], i % 64) == bits@[i] by {
                    if i >= 64 * ((l - 1) / 64) {
                        assert(i / 64 == (l - 1) / 64);
                    }
                }
            }
        }
        if l % 64 != 0 {
            data.push(s);
        }
        let r = BitArray { data, len: l };
        assert(r.bits() =~= bits@) by {
            assert forall|i: int| 0 <= i < l implies #[trigger] r.bit(i) == bits@[i] by {
                if i >= 64 * (l / 64) {
                    assert(i / 64 == l / 64);
                }
            }
        }
        r
    }
}

/// A walk over the bits of a `BitArray` that caches the current word.
pub struct BitArrayIter<'a> {
    array: &'a BitArray,
    pos: usize,
    len: usize,
    data: u64,
}

impl<'a> BitArrayIter<'a> {
    pub closed spec fn spec_pos(&self) -> usize {
        self.pos
    }

    pub closed spec fn spec_len(&self) -> usize {
        self.len
    }

    pub closed spec fn spec_array(&self) -> &'a BitArray {
        self.array
    }

    pub closed spec fn spec_cached(&self) -> u64 {
        self.data
    }

    /// The cached word is the one that holds the next bit, unless the next
    /// bit starts a word (which `next` loads afresh).
    pub open spec fn synced(&self) -> bool {
        self.spec_pos() % 64 != 0 ==> self.spec_cached() == self.spec_array().words()[(self.spec_pos() / 64) as int]
    }

    /// Returns bit `pos` and advances, or `None` past `len`.
    pub fn next(&mut self) -> (r: Option<bool>)
        requires
            old(self).spec_array().wf(),
            old(self).spec_len() <= old(self).spec_array().spec_len(),
        ensures
            final(self).spec_array() == old(self).spec_array(),
            final(self).spec_len() == old(self).spec_len(),
            old(self).spec_pos() >= old(self).spec_len() ==> r is None && *final(self) == *old(self),
            old(self).spec_pos() < old(self).spec_len() ==> {
                &&& final(self).spec_pos() == old(self).spec_pos() + 1
                &&& r == Some(word_bit(final(self).spec_cached(), (old(self).spec_pos() % 64) as int))
                &&& old(self).spec_pos() % 64 == 0 ==> final(self).spec_cached()
                    == old(self).spec_array().words()[(old(self).spec_pos() / 64) as int]
                &&& old(self).spec_pos() % 64 != 0 ==> final(self).spec_cached() == old(self).spec_cached()
                &&& old(self).synced() ==> final(self).synced() && r == Some(
                    old(self).spec_array().bit(old(self).spec_pos() as int),
                )
            },
    {
        if self.pos < self.len {
            proof {
                lemma_index_split(self.pos);
            }
            let k = (self.pos & 63) as u64;
            let d: u64 = 1u64 << k;
            assert(d == 1 <==> k == 0) by (bit_vector)
                requires
                    k < 64,
                    d == 1u64 << k,
            ;
            if d == 1 {
                self.data = self.array.data[self.pos >> 6];
            }
            proof {
                lemma_set_bit(self.data, k, 0);
            }
            let p = self.pos;
            self.pos += 1;
            proof {
                if (p + 1) % 64 != 0 {
                    assert((p + 1) / 64 == p / 64);
                }
            }
            Some(self.data & d != 0)
        } else {
            None
        }
    }

    /// Skips `n` bits and returns the bit after them, read from the cached
    /// word (which this method does not reload), or `None` past `len`.
    pub fn nth(&mut self, n: usize) -> (r: Option<bool>)
        requires
            old(self).spec_pos() + n + 1 <= usize::MAX,
        ensures
            final(self).spec_array() == old(self).spec_array(),
            final(self).spec_len() == old(self).spec_len(),
            final(self).spec_cached() == old(self).spec_cached(),
            old(self).spec_pos() + n >= old(self).spec_len() ==> r is None && *final(self) == *old(self),
            old(self).spec_pos() + n < old(self).spec_len() ==> {
                &&& final(self).spec_pos() == old(self).spec_pos() + n + 1
                &&& r == Some(word_bit(old(self).spec_cached(), ((old(self).spec_pos() + n) % 64) as int))
            },
    {
        let newpos = self.pos + n;
        if newpos < self.len {
            self.pos += n;
            proof {
                lemma_index_split(newpos);
            }
            let k = (newpos & 63) as u64;
            let d: u64 = 1u64 << k;
            let p = self.pos;
            assert((p ^ newpos) >> 6usize == 0) by (bit_vector)
                requires
                    p == newpos,
            ;
            if (self.pos ^ newpos) >> 6usize != 0 {
                self.data = self.array.data[self.pos >> 6];
            }
            self.pos = newpos + 1;
            proof {
                lemma_set_bit(self.data, k, 0);
            }
            Some(self.data & d != 0)
        } else {
            None
        }
    }

    /// The number of bits still to come, as both bounds.
    pub fn size_hint(&self) -> (r: (usize, Option<usize>))
        ensures
            r.0 == (if self.spec_pos() < self.spec_len() { self.spec_len() - self.spec_pos() } else { 0 }),
            r.1 == Some(r.0),
    {
        let n = if self.pos < self.len { self.len - self.pos } else { 0 };
        (n, Some(n))
    }
}

/// A walk over the bits of a `BitArray` in runs of 16.
pub struct BitArrayU16Iter<'a> {
    array: &'a BitArray,
    pos: usize,
    len: usize,
    data: u64,
}

impl<'a> BitArrayU16Iter<'a> {
    pub closed spec fn spec_pos(&self) -> usize {
        self.pos
    }

    pub closed spec fn spec_len(&self) -> usize {
        self.len
    }

    pub closed spec fn spec_array(&self) -> &'a BitArray {
        self.array
    }

    pub closed spec fn spec_cached(&self) -> u64 {
        self.data
    }

    /// The cached word holds the next run, unless that run starts a word.
    pub open spec fn synced(&self) -> bool {
        self.spec_pos() % 4 != 0 ==> self.spec_cached() == self.spec_array().words()[(self.spec_pos() / 4) as int]
    }

    /// Returns run `pos` and advances, or `None` past `len`.
    pub fn next(&mut self) -> (r: Option<u16>)
        requires
            old(self).spec_array().wf(),
            old(self).spec_len() <= (old(self).spec_array().spec_len() + 15) / 16,
        ensures
            final(self).spec_array() == old(self).spec_array(),
            final(self).spec_len() == old(self).spec_len(),
            old(self).spec_pos() >= old(self).spec_len() ==> r is None && *final(self) == *old(self),
            old(self).spec_pos() < old(self).spec_len() ==> {
                &&& final(self).spec_pos() == old(self).spec_pos() + 1
                &&& r == Some((final(self).spec_cached() >> (16 * (old(self).spec_pos() % 4)) as u64) as u16)
                &&& old(self).synced() ==> final(self).synced() && final(self).spec_cached()
                    == old(self).spec_array().words()[(old(self).spec_pos() / 4) as int]
            },
    {
        if self.pos < self.len {
            proof {
                lemma_index_split(self.pos);
            }
            let d = self.pos & 3;
            if d == 0 {
                self.data = self.array.data[self.pos >> 2];
            }
            let p = self.pos;
            self.pos += 1;
            proof {
                if (p + 1) % 4 != 0 {
                    assert((p + 1) / 4 == p / 4);
                }
            }
            Some(#[verifier::truncate] ((self.data >> ((d << 4usize) as u64)) as u16))
        } else {
            None
        }
    }

    /// The number of runs still to come, as both bounds.
    pub fn size_hint(&self) -> (r: (usize, Option<usize>))
        ensures
            r.0 == (if self.spec_pos() < self.spec_len() { self.spec_len() - self.spec_pos() } else { 0 }),
            r.1 == Some(r.0),
    {
        let n = if self.pos < self.len { self.len - self.pos } else { 0 };
        (n, Some(n))
    }
}

} // verus!
