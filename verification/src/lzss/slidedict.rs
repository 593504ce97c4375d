use vstd::prelude::*;
use core::cmp::Ordering;
use crate::cbuffer::{push_all, push_history, CircularBuffer};
use crate::lzss::{compare_match_info, LzssCode, LzssComparison, MatchInfo};

verus! {

/// A table from the hash of each run of `min_match` bytes to where it was
/// last seen, in two generations of `TAB_LEN` pushes each (two flag bits
/// per hash: seen in this generation, seen in the one before).
pub struct HashTab {
    search_tab: Vec<u16>,
    flag_tab: Vec<u8>,
    len: usize,
}

impl HashTab {
    pub closed spec fn wf(&self) -> bool {
        &&& self.search_tab@.len() == 0x1_0000
        &&& self.flag_tab@.len() == 0x4000
        &&& self.len < 0x1_0000
    }

    pub fn new() -> (r: Self)
        ensures
            r.wf(),
    {
        Self { search_tab: vec![0u16; 0x1_0000], flag_tab: vec![0u8; 0x4000], len: 0 }
    }

    /// Starts a new generation: what was seen in this one moves to the
    /// one before, and the one before is forgotten.
    fn gen_change(&mut self)
        requires
            old(self).search_tab@.len() == 0x1_0000,
            old(self).flag_tab@.len() == 0x4000,
        ensures
            final(self).wf(),
            final(self).len == 0,
    {
        let mut i: usize = 0;
        while i < self.flag_tab.len()
            invariant
                self.search_tab@.len() == 0x1_0000,
                self.flag_tab@.len() == 0x4000,
            decreases self.flag_tab@.len() - i,
        {
            let f = self.flag_tab[i];
            self.flag_tab.set(i, (f & 0b0101_0101) << 1u8);
            i = i + 1;
        }
        self.len = 0;
    }

    /// The hash of the `len` bytes of `data` from `start`: a 16-bit value.
    fn get_hash(data: &Vec<u8>, start: usize, len: usize) -> (r: usize)
        requires
            start + len <= data@.len(),
        ensures
            r < 0x1_0000,
    {
        if usize::BITS == 64 {
            let mut hash: u64 = 0;
            let mut i: usize = 0;
            while i < len
                invariant
                    i <= len,
                    start + len <= data.len(),
                decreases len - i,
            {
                let d = data[start + i];
                hash = (hash << 8u64) | ((hash >> 24u64) ^ (d as u64));
                i = i + 1;
            }
            let h = hash.wrapping_mul(0x7A7C_4F9F_7A7C_4F9F) / 0x1_0000_0000_0000;
            h as usize
        } else {
            let mut hash: u32 = 0;
            let mut i: usize = 0;
            while i < len
                invariant
                    i <= len,
                    start + len <= data.len(),
                decreases len - i,
            {
                let d = data[start + i];
                hash = (hash << 8u32) | ((hash >> 24u32) ^ (d as u32));
                i = i + 1;
            }
            let h = hash.wrapping_mul(0x7A7C_4F9F) / 0x1_0000;
            h as usize
        }
    }

    /// Records that the current run has hash `hash`.
    fn push_tab(&mut self, hash: usize)
        requires
            old(self).wf(),
            hash < 0x1_0000,
        ensures
            final(self).wf(),
    {
        self.search_tab.set(hash, self.len as u16);
        let f = self.flag_tab[hash / 4];
        self.flag_tab.set(hash / 4, f | (1u8 << ((hash % 4) * 2) as u8));
        self.len = self.len + 1;
        if self.len >= 0x1_0000 {
            self.gen_change();
        }
    }

    /// Records the run of `len` bytes of `data` from `start`, and gives how
    /// many pushes ago a run with the same hash was recorded, if one was.
    pub fn push(&mut self, data: &Vec<u8>, start: usize, len: usize) -> (r: Option<usize>)
        requires
            old(self).wf(),
            start + len <= data@.len(),
        ensures
            final(self).wf(),
            r matches Some(d) ==> 1 <= d <= 0x2_0000,
    {
        let hash = Self::get_hash(data, start, len);
        let f = (self.flag_tab[hash / 4] >> ((hash % 4) * 2) as u8) & 3u8;
        let ret = if f != 0 {
            let p = self.search_tab[hash] as usize;
            if f & 1u8 == 1 {
                if p < self.len {
                    Some(self.len - p)
                } else {
                    None
                }
            } else {
                Some(0x1_0000 + self.len - p)
            }
        } else {
            None
        };
        self.push_tab(hash);
        ret
    }
}

/// The last `cap` bytes of `t`, the newest first.
pub open spec fn suffix_rev(t: Seq<u8>, cap: nat) -> Seq<u8> {
    Seq::new(if t.len() < cap { t.len() } else { cap }, |i: int| t[t.len() - 1 - i])
}

pub proof fn lemma_suffix_rev_push(t: Seq<u8>, x: u8, cap: nat)
    requires
        cap > 0,
    ensures
        push_history(suffix_rev(t, cap), x, cap as int) == suffix_rev(t.push(x), cap),
{
    let a = push_history(suffix_rev(t, cap), x, cap as int);
    let b = suffix_rev(t.push(x), cap);
    assert(a.len() == b.len());
    assert forall|i: int| 0 <= i < a.len() implies a[i] == b[i] by {
        if i > 0 {
            assert(a[i] == suffix_rev(t, cap)[i - 1]);
        }
    }
    assert(a =~= b);
}

pub proof fn lemma_suffix_rev_append(t: Seq<u8>, s: Seq<u8>, cap: nat)
    requires
        cap > 0,
    ensures
        push_all(suffix_rev(t, cap), s, cap as int) == suffix_rev(t + s, cap),
    decreases s.len(),
{
    if s.len() > 0 {
        lemma_suffix_rev_append(t, s.drop_last(), cap);
        lemma_suffix_rev_push(t + s.drop_last(), s.last(), cap);
        assert((t + s.drop_last()).push(s.last()) =~= t + s);
    } else {
        assert(t + s =~= t);
    }
}

/// The bytes `p1 + k` and `p2 + k` places after the newest ones, counting
/// back, are equal.
pub open spec fn agree_back(h: Seq<u8>, p1: int, p2: int, k: int) -> bool {
    h[p1 - 1 - k] == h[p2 - 1 - k]
}

/// The `len` bytes of `t` from `c` repeat those `d` bytes before them.
pub open spec fn repeats(t: Seq<u8>, c: int, d: int, len: int) -> bool {
    &&& 1 <= d <= c
    &&& c + len <= t.len()
    &&& forall|k: int| 0 <= k < len ==> #[trigger] t[c + k] == t[c + k - d]
}

/// The window of an LZSS encoder: the bytes seen, and for each run of
/// `min_match` bytes the distance to the last run with the same hash, to
/// search for earlier copies of what comes next.
pub struct SlideDict<F> {
    comparison: F,
    buf: CircularBuffer<u8>,
    pos: CircularBuffer<usize>,
    max_pos: usize,
    min_match: usize,
    hash_tab: HashTab,
    append_buf: Vec<u8>,
    text: Ghost<Seq<u8>>,
}

impl<F> SlideDict<F> {
    pub closed spec fn wf(&self) -> bool {
        &&& self.buf.wf()
        &&& self.pos.wf()
        &&& self.buf.spec_cap() > 0
        &&& self.pos.spec_cap() == self.buf.spec_cap()
        &&& self.buf.history() == suffix_rev(self.text@, self.buf.spec_cap())
        &&& self.hash_tab.wf()
        &&& self.min_match >= 1
    }

    /// Every byte appended so far.
    pub closed spec fn spec_text(&self) -> Seq<u8> {
        self.text@
    }

    /// How many of the newest bytes the window holds.
    pub closed spec fn spec_cap(&self) -> nat {
        self.buf.spec_cap()
    }

    pub closed spec fn spec_min_match(&self) -> nat {
        self.min_match as nat
    }

    pub closed spec fn spec_max_pos(&self) -> nat {
        self.max_pos as nat
    }

    pub closed spec fn spec_comparison(&self) -> F {
        self.comparison
    }

    /// For each run of the newest bytes (newest first), how far back the
    /// previous run with the same hash lies: the first link of its chain.
    pub closed spec fn spec_links(&self) -> Seq<usize> {
        self.pos.history()
    }

    /// The first link of the chain of the run `k` runs back.
    closed spec fn link_at(&self, k: usize) -> usize {
        self.pos.history()[k as int]
    }

    pub fn new(size_of_buf: usize, max_pos: usize, min_match: usize, comparison: F) -> (r: Self)
        requires
            size_of_buf > 0,
            min_match >= 1,
        ensures
            r.wf(),
            r.spec_text() == Seq::<u8>::empty(),
            r.spec_cap() == size_of_buf,
            r.spec_min_match() == min_match,
            r.spec_max_pos() == max_pos,
            r.spec_comparison() == comparison,
    {
        let r = Self {
            comparison,
            min_match,
            max_pos,
            buf: CircularBuffer::new(size_of_buf),
            pos: CircularBuffer::new(size_of_buf),
            append_buf: Vec::new(),
            hash_tab: HashTab::new(),
            text: Ghost(Seq::empty()),
        };
        assert(r.buf.history() =~= suffix_rev(Seq::empty(), size_of_buf as nat));
        r
    }

    /// The byte `idx + 1` bytes back from the newest.
    pub fn get(&self, idx: usize) -> (r: u8)
        requires
            self.wf(),
            idx < self.spec_text().len(),
            idx < self.spec_cap(),
        ensures
            r == self.spec_text()[self.spec_text().len() - 1 - idx],
    {
        proof {
            assert(self.buf.history().len() == self.buf.spec_len());
            assert(suffix_rev(self.text@, self.buf.spec_cap()).len() > idx);
        }
        *self.buf.get(idx)
    }

    /// Records the distance to the last run with the same hash as the run
    /// of `len` bytes of `data` from `start`.
    fn push_pos(&mut self, data: &Vec<u8>, start: usize, len: usize)
        requires
            old(self).wf(),
            start + len <= data@.len(),
        ensures
            final(self).wf(),
            final(self).text == old(self).text,
            final(self).spec_cap() == old(self).spec_cap(),
            final(self).min_match == old(self).min_match,
            final(self).max_pos == old(self).max_pos,
            final(self).comparison == old(self).comparison,
    {
        match self.hash_tab.push(data, start, len) {
            Some(pos) => self.pos.push(pos),
            None => self.pos.push(self.max_pos.saturating_add(1)),
        }
    }

    /// Appends `data` to the window and records the runs that it ends.
    pub fn append(&mut self, data: &[u8])
        requires
            old(self).wf(),
            data@.len() <= old(self).spec_cap(),
        ensures
            final(self).wf(),
            final(self).spec_text() == old(self).spec_text() + data@,
            final(self).spec_cap() == old(self).spec_cap(),
            final(self).spec_min_match() == old(self).spec_min_match(),
            final(self).spec_max_pos() == old(self).spec_max_pos(),
            final(self).spec_comparison() == old(self).spec_comparison(),
    {
        proof {
            self.buf.lemma_pos_below_cap();
            lemma_suffix_rev_append(self.text@, data@, self.buf.spec_cap());
        }
        self.buf.append(data);
        self.text = Ghost(self.text@ + data@);
        let mm = self.min_match;
        let mut k: usize = 0;
        while k < data.len()
            invariant
                k <= data@.len(),
                self.wf(),
                self.text == old(self).text@ + data@,
                self.buf.spec_cap() == old(self).buf.spec_cap(),
                self.min_match == mm,
                self.max_pos == old(self).max_pos,
                self.comparison == old(self).comparison,
            decreases data@.len() - k,
        {
            self.append_buf.push(data[k]);
            k = k + 1;
        }
        if self.buf.len() >= mm && self.append_buf.len() >= mm {
            let last = self.append_buf.len() - mm;
            let mut i: usize = 0;
            while i <= last
                invariant
                    last + mm == self.append_buf@.len(),
                    last < usize::MAX,
                    mm >= 1,
                    self.wf(),
                    self.text == old(self).text@ + data@,
                    self.buf.spec_cap() == old(self).buf.spec_cap(),
                    self.min_match == mm,
                    self.max_pos == old(self).max_pos,
                    self.comparison == old(self).comparison,
                decreases last + 1 - i,
            {
                let mut taken: Vec<u8> = Vec::new();
                std::mem::swap(&mut taken, &mut self.append_buf);
                self.push_pos(&taken, i, mm);
                self.append_buf = taken;
                i = i + 1;
            }
        }
        if self.append_buf.len() >= mm {
            let bl = mm - 1;
            let n = self.append_buf.len();
            let mut i: usize = 0;
            while i < bl
                invariant
                    bl + 1 == mm,
                    n == self.append_buf@.len(),
                    n >= mm,
                    self.wf(),
                    self.text == old(self).text@ + data@,
                    self.buf.spec_cap() == old(self).buf.spec_cap(),
                    self.min_match == mm,
                    self.max_pos == old(self).max_pos,
                    self.comparison == old(self).comparison,
                decreases bl - i,
            {
                let j = n - mm + i + 1;
                let v = self.append_buf[j];
                self.append_buf.set(i, v);
                i = i + 1;
            }
            self.append_buf.truncate(bl);
        }
    }

    /// How many bytes from `pos1` bytes back repeat those from `pos2`
    /// bytes back, up to `max_match`.
    fn check_match(&self, pos1: usize, pos2: usize, max_match: usize) -> (r: usize)
        requires
            self.wf(),
        ensures
            r <= max_match,
            r > 0 ==> 1 <= pos1 <= self.buf.history().len() && 1 <= pos2 <= self.buf.history().len(),
            r > 0 ==> r <= pos1 && r <= pos2,
            forall|k: int| 0 <= k < r ==> #[trigger] agree_back(self.buf.history(), pos1 as int, pos2 as int, k),
    {
        let n = self.buf.len();
        if pos1 == 0 || pos2 == 0 || pos1 > n || pos2 > n {
            return 0;
        }
        let mut l: usize = 0;
        while l < max_match && l < pos1 && l < pos2
            invariant
                l <= max_match,
                l <= pos1 <= n,
                l <= pos2 <= n,
                n == self.buf.history().len(),
                self.wf(),
                forall|k: int| 0 <= k < l ==> #[trigger] agree_back(self.buf.history(), pos1 as int, pos2 as int, k),
            decreases max_match - l,
        {
            if *self.buf.get(pos1 - 1 - l) != *self.buf.get(pos2 - 1 - l) {
                break;
            }
            l = l + 1;
        }
        l
    }
}


/// The `len` bytes from `offset` bytes before the end of `t` repeat those
/// `pos` bytes before them.
pub open spec fn match_back(t: Seq<u8>, offset: usize, pos: usize, len: usize) -> bool {
    repeats(t, t.len() - offset, pos as int, len as int)
}

impl<F> SlideDict<F> {
    /// What `check_match` finds from `offset` and `offset + pos` bytes
    /// back is a match `pos` bytes back.
    proof fn lemma_check_match(&self, offset: usize, pos: usize, nlen: usize)
        requires
            self.wf(),
            offset + pos <= usize::MAX,
            nlen > 0 ==> 1 <= offset <= self.buf.history().len() && 1 <= offset + pos <= self.buf.history().len(),
            nlen > 0 ==> nlen <= offset,
            pos >= 1 || nlen == 0,
            forall|k: int| 0 <= k < nlen ==> #[trigger] agree_back(self.buf.history(), offset as int, (offset + pos) as int, k),
        ensures
            nlen > 0 ==> match_back(self.spec_text(), offset, pos, nlen),
    {
        let t = self.spec_text();
        let h = self.buf.history();
        if nlen > 0 {
            assert forall|k: int| 0 <= k < nlen implies #[trigger] t[t.len() - offset + k] == t[t.len() - offset + k - pos] by {
                assert(agree_back(h, offset as int, (offset + pos) as int, k));
            }
        }
    }
}

impl<F> SlideDict<F> {
    /// Looks for earlier copies of the bytes that start `offset` bytes
    /// back from the newest, following the chain of runs with the same hash
    /// (at most 255 links, and no further back than the window), and keeps
    /// the best by length and then by the comparison. Each match found is
    /// one: its bytes repeat those `pos` bytes before them.
    pub fn search_dic(&self, offset: usize, max_match: usize) -> (r: Option<MatchInfo>)
        where F: LzssComparison
        requires
            self.wf(),
        ensures
            r matches Some(info) ==> {
                &&& info.len <= max_match
                &&& info.len <= offset
                &&& info.pos <= self.spec_max_pos()
                &&& info.len > 0 ==> match_back(self.spec_text(), offset, info.pos, info.len)
            },
            offset < self.spec_min_match() ==> r is None,
            offset >= self.spec_min_match() && offset - self.spec_min_match() >= self.spec_links().len() ==> r is None,
            ({
                let k = offset - self.spec_min_match();
                offset >= self.spec_min_match() && k < self.spec_links().len() ==> {
                    &&& self.spec_links()[k] > self.spec_max_pos() ==> r is None
                    &&& 1 <= self.spec_links()[k] <= self.spec_max_pos() && offset + self.spec_links()[k]
                        <= usize::MAX ==> r is Some
                }
            }),
    {
        if offset < self.min_match {
            return None;
        }
        let pos_offset = offset - self.min_match;
        if pos_offset >= self.pos.len() {
            return None;
        }
        let mut pos = *self.pos.get(pos_offset);
        let max_match = if max_match < offset {
            max_match
        } else {
            offset
        };
        let mut info: Option<MatchInfo> = None;
        let mut pos_count: usize = 255;
        while pos <= self.max_pos && pos_count > 0
            invariant
                self.wf(),
                max_match <= offset,
                info matches Some(ii) ==> {
                    &&& ii.len <= max_match
                    &&& ii.pos <= self.max_pos
                    &&& ii.len > 0 ==> match_back(self.spec_text(), offset, ii.pos, ii.len)
                },
                pos_offset == offset - self.min_match,
                pos_offset < self.pos.spec_len(),
                info is None ==> pos == self.link_at(pos_offset) && pos_count == 255,
                info is Some ==> self.link_at(pos_offset) <= self.max_pos,
            ensures
                info is None ==> (self.link_at(pos_offset) == 0 || self.link_at(pos_offset) > self.max_pos || offset
                    > usize::MAX - self.link_at(pos_offset)),
            decreases pos_count,
        {
            if pos == 0 || offset > usize::MAX - pos {
                break;
            }
            let nlen = self.check_match(offset, offset + pos, max_match);
            proof {
                self.lemma_check_match(offset, pos, nlen);
            }
            let new_info = MatchInfo { len: nlen, pos };
            let keep = match info {
                Some(ii) => ii.len >= nlen || match compare_match_info(&self.comparison, &ii, &new_info) {
                    Ordering::Less => true,
                    _ => false,
                },
                None => false,
            };
            if !keep {
                info = Some(new_info);
            }
            if nlen == max_match {
                pos_count = 0;
            } else {
                pos_count = pos_count - 1;
            }
            if pos_offset > usize::MAX - pos {
                break;
            }
            let idx = pos_offset + pos;
            if idx >= self.pos.len() {
                break;
            }
            pos = pos.saturating_add(*self.pos.get(idx));
        }
        info
    }
}

} // verus!
