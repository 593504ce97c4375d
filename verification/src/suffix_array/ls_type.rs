use vstd::prelude::*;
use crate::bitset::BitArray;
use crate::suffix_array::Symbol;

verus! {

/// The position a cyclic classification starts from: the one before the
/// rotation point, or the last one when the text is not rotated.
pub open spec fn sentinel(n: int, shift: int) -> int {
    if shift == 0 {
        n - 1
    } else {
        shift - 1
    }
}

/// The position `k` steps before `p`, going round the text.
pub open spec fn back(n: int, p: int, k: int) -> int {
    if k <= p {
        p - k
    } else {
        p - k + n
    }
}

/// The position after `j`, going round the text.
pub open spec fn next_pos(n: int, j: int) -> int {
    if j + 1 == n {
        0
    } else {
        j + 1
    }
}

/// The position before `j`, going round the text.
pub open spec fn prev_pos(n: int, j: int) -> int {
    if j == 0 {
        n - 1
    } else {
        j - 1
    }
}

/// The type (S: `true`, L: `false`) of the position `k` steps before the
/// sentinel `p`: the sentinel is of type L; any other position is of type S
/// when its value is below the next one, of type L when above, and of the
/// type of the next position when equal.
pub open spec fn ls_at<T: Symbol>(a: Seq<T>, p: int, k: nat) -> bool
    decreases k,
{
    if k == 0 {
        false
    } else {
        let n = a.len() as int;
        let j = back(n, p, k as int);
        let nx = next_pos(n, j);
        if a[j].rank() == a[nx].rank() {
            ls_at(a, p, (k - 1) as nat)
        } else {
            a[j].rank() < a[nx].rank()
        }
    }
}

/// The type of position `j` of `a` rotated by `shift`.
pub open spec fn ls_type<T: Symbol>(a: Seq<T>, shift: int, j: int) -> bool {
    let n = a.len() as int;
    let p = sentinel(n, shift);
    ls_at(a, p, (if j <= p { p - j } else { p - j + n }) as nat)
}

/// Position `i` is a leftmost S position: of type S after one of type L
/// (the first position, without a rotation, and the rotation point never
/// are).
pub open spec fn lms_type<T: Symbol>(a: Seq<T>, shift: int, i: int) -> bool {
    let n = a.len() as int;
    if shift == 0 {
        i > 0 && ls_type(a, 0, i) && !ls_type(a, 0, i - 1)
    } else {
        i != shift && ls_type(a, shift, i) && !ls_type(a, shift, prev_pos(n, i))
    }
}

/// The S/L types of the positions of a text, and which are leftmost S.
pub struct LSTypeArray {
    bitmap: BitArray,
    is_lms: BitArray,
}

impl LSTypeArray {
    pub closed spec fn types(&self) -> Seq<bool> {
        self.bitmap.bits()
    }

    pub closed spec fn lms(&self) -> Seq<bool> {
        self.is_lms.bits()
    }

    pub closed spec fn wf(&self) -> bool {
        &&& self.bitmap.wf()
        &&& self.is_lms.wf()
        &&& self.bitmap.spec_len() == self.is_lms.spec_len()
    }

    /// Classifies the positions of `array` rotated by `shift`.
    pub fn with_shift<T: Symbol>(array: &[T], shift: usize) -> (r: Self)
        requires
            shift == 0 || shift < array@.len(),
        ensures
            r.wf(),
            r.types().len() == array@.len(),
            forall|j: int| 0 <= j < array@.len() ==> #[trigger] r.types()[j] == ls_type(array@, shift as int, j),
            forall|i: int| 0 <= i < array@.len() ==> #[trigger] r.lms()[i] == lms_type(array@, shift as int, i),
    {
        let ghost a = array@;
        let n = array.len();
        let ghost ni = n as int;
        let mut types: Vec<bool> = vec![false; n];
        let start = if shift == 0 {
            n
        } else {
            shift
        };
        let ghost p = sentinel(ni, shift as int);
        proof {
            if n > 0 {
                assert(p == start - 1);
                assert(types@[p] == ls_type(a, shift as int, p));
            }
        }
        let mut i = start;
        while i > 1
            invariant
                a == array@,
                n == a.len(),
                ni == n,
                types@.len() == n,
                shift == 0 || shift < n,
                start == (if shift == 0 { n } else { shift }),
                p == sentinel(ni, shift as int),
                1 <= i <= start || (n == 0 && i == 0),
                forall|j: int| 0 <= j && i - 1 <= j < start ==> #[trigger] types@[j] == ls_type(a, shift as int, j),
            decreases i,
        {
            i = i - 1;
            let b = types[i];
            let v = if array[i].to_usize() == array[i - 1].to_usize() {
                b
            } else {
                array[i - 1].to_usize() < array[i].to_usize()
            };
            proof {
                let j = i - 1;
                assert(p - j >= 1);
                assert(back(ni, p, p - j) == j);
                assert(next_pos(ni, j) == i);
                assert(ls_type(a, shift as int, i as int) == ls_at(a, p, (p - i) as nat));
            }
            types.set(i - 1, v);
        }
        if shift != 0 {
            let b = types[0];
            let v = if array[0].to_usize() == array[n - 1].to_usize() {
                b
            } else {
                array[n - 1].to_usize() < array[0].to_usize()
            };
            proof {
                let k = p + 1;
                assert(back(ni, p, k) == n - 1);
                assert(next_pos(ni, n - 1) == 0);
                assert(ls_type(a, shift as int, 0) == ls_at(a, p, p as nat));
                assert(ls_type(a, shift as int, ni - 1) == ls_at(a, p, k as nat));
            }
            types.set(n - 1, v);
            let mut i = n - 1;
            while i > shift
                invariant
                    a == array@,
                    n == a.len(),
                    ni == n,
                    types@.len() == n,
                    0 < shift < n,
                    p == shift - 1,
                    shift <= i <= n - 1,
                    forall|j: int| 0 <= j < shift ==> #[trigger] types@[j] == ls_type(a, shift as int, j),
                    forall|j: int| i <= j < n ==> #[trigger] types@[j] == ls_type(a, shift as int, j),
                decreases i,
            {
                let b = types[i];
                let v = if array[i].to_usize() == array[i - 1].to_usize() {
                    b
                } else {
                    array[i - 1].to_usize() < array[i].to_usize()
                };
                proof {
                    let j = i - 1;
                    let k = p - j + ni;
                    assert(back(ni, p, k) == j);
                    assert(next_pos(ni, j) == i);
                    assert(ls_type(a, shift as int, j) == ls_at(a, p, k as nat));
                    assert(ls_type(a, shift as int, i as int) == ls_at(a, p, (k - 1) as nat));
                }
                types.set(i - 1, v);
                i = i - 1;
            }
            proof {
                assert forall|j: int| 0 <= j < n implies #[trigger] types@[j] == ls_type(a, shift as int, j) by {
                    if j >= shift && j < i {
                        assert(false);
                    }
                }
            }
        }
        proof {
            assert forall|j: int| 0 <= j < n implies #[trigger] types@[j] == ls_type(a, shift as int, j) by {
                if shift == 0 {
                    assert(j < start);
                }
            }
        }
        let mut lms: Vec<bool> = Vec::new();
        let mut old = if shift == 0 || n == 0 {
            true
        } else {
            types[n - 1]
        };
        let mut k: usize = 0;
        while k < n
            invariant
                a == array@,
                n == a.len(),
                ni == n,
                types@.len() == n,
                shift == 0 || shift < n,
                k <= n,
                lms@.len() == k,
                forall|j: int| 0 <= j < n ==> #[trigger] types@[j] == ls_type(a, shift as int, j),
                k == 0 ==> old == (shift == 0 || n == 0 || types@[n - 1]),
                k > 0 ==> old == types@[k - 1],
                forall|j: int| 0 <= j < k ==> #[trigger] lms@[j] == lms_type(a, shift as int, j),
            decreases n - k,
        {
            let t = types[k];
            let v = if shift == 0 {
                t && !old
            } else {
                k != shift && t && !old
            };
            proof {
                if k == 0 && shift != 0 {
                    assert(prev_pos(ni, 0) == n - 1);
                }
            }
            lms.push(v);
            old = t;
            k = k + 1;
        }
        let r = LSTypeArray { bitmap: BitArray::from_iter(types), is_lms: BitArray::from_iter(lms) };
        r
    }

    /// The type of position `idx`: `true` for S.
    pub fn get(&self, idx: usize) -> (r: bool)
        requires
            self.wf(),
            idx < self.types().len(),
        ensures
            r == self.types()[idx as int],
    {
        proof {
            self.bitmap.lemma_index_in_words(idx as int);
        }
        self.bitmap.get(idx)
    }

    /// Whether position `idx` is a leftmost S position.
    pub fn is_lms(&self, idx: usize) -> (r: bool)
        requires
            self.wf(),
            idx < self.types().len(),
        ensures
            r == self.lms()[idx as int],
    {
        proof {
            self.is_lms.lemma_index_in_words(idx as int);
        }
        self.is_lms.get(idx)
    }

    pub fn len(&self) -> (r: usize)
        requires
            self.wf(),
        ensures
            r == self.types().len(),
    {
        self.bitmap.len()
    }
}

} // verus!
