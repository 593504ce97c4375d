use vstd::prelude::*;
use std::collections::VecDeque;
use core::cmp::Ordering;
use crate::bit_reader::ByteSource;
use crate::compress::Action;
use crate::error::CompressionError;
use crate::lz4::decoder::{copy_match, lemma_copy_match_len};
use crate::lzss::{compare_match_info, LzssCode, LzssComparison, MatchInfo};
use crate::lzss::decoder::{decode_codes, fits_window, lemma_decode_expansion};
use crate::lzss::slidedict::{match_back, repeats, suffix_rev, SlideDict};

verus! {

/// The text after one code: a literal is appended; a reference appends
/// `len` bytes, each copied from `pos + 1` bytes before it. `None` where a
/// reference reaches back before the start.
pub open spec fn expand_code(out: Seq<u8>, code: LzssCode) -> Option<Seq<u8>> {
    match code {
        LzssCode::Symbol(s) => Some(out.push(s)),
        LzssCode::Reference { len, pos } => if len == 0 {
            Some(out)
        } else if pos < out.len() {
            Some(copy_match(out, (pos + 1) as nat, len as nat))
        } else {
            None
        },
    }
}

/// The text that `codes` expand to after `out`.
pub open spec fn expand(out: Seq<u8>, codes: Seq<LzssCode>) -> Option<Seq<u8>>
    decreases codes.len(),
{
    if codes.len() == 0 {
        Some(out)
    } else {
        match expand(out, codes.drop_last()) {
            Some(o) => expand_code(o, codes.last()),
            None => None,
        }
    }
}

/// One more code expands the text by what it stands for.
proof fn lemma_expand_push(out: Seq<u8>, codes: Seq<LzssCode>, code: LzssCode, t: Seq<u8>)
    requires
        expand(out, codes) == Some(t),
    ensures
        expand(out, codes.push(code)) == expand_code(t, code),
{
    assert(codes.push(code).drop_last() =~= codes);
}

/// A repeat of earlier bytes is what copying them reproduces.
proof fn lemma_copy_repeats(t: Seq<u8>, c: int, d: int, len: nat)
    requires
        repeats(t, c, d, len as int),
    ensures
        copy_match(t.take(c), d as nat, len) == t.take(c + len),
    decreases len,
{
    if len > 0 {
        assert(repeats(t, c, d, len - 1));
        lemma_copy_repeats(t, c, d, (len - 1) as nat);
        let o = copy_match(t.take(c), d as nat, (len - 1) as nat);
        assert(o.len() == c + len - 1);
        assert(o[o.len() - d] == t[c + len - 1 - d]);
        assert(t[c + (len - 1)] == t[c + (len - 1) - d]);
        assert(o.push(o[o.len() - d]) =~= t.take(c + len));
    }
}

/// A literal of the next byte extends the text by it.
proof fn lemma_literal(t: Seq<u8>, c: int)
    requires
        0 <= c < t.len(),
    ensures
        expand_code(t.take(c), LzssCode::Symbol(t[c])) == Some(t.take(c + 1)),
{
    assert(t.take(c).push(t[c]) =~= t.take(c + 1));
}

/// A reference for a repeat extends the text by the repeated bytes.
proof fn lemma_reference(t: Seq<u8>, c: int, d: usize, len: usize)
    requires
        repeats(t, c, d as int, len as int),
        len > 0,
    ensures
        expand_code(t.take(c), ref_code(len, d)) == Some(t.take(c + len)),
{
    lemma_copy_repeats(t, c, d as int, len as nat);
}

/// A code whose reference, if it is one, reaches at most `max_pos` bytes
/// back and stands for 1 to `max_len` bytes.
pub open spec fn bounded(code: LzssCode, max_pos: nat, max_len: nat) -> bool {
    match code {
        LzssCode::Symbol(_) => true,
        LzssCode::Reference { len, pos } => pos < max_pos && 1 <= len <= max_len,
    }
}

/// Every code of `codes` is bounded so.
pub open spec fn all_bounded(codes: Seq<LzssCode>, max_pos: nat, max_len: nat) -> bool {
    forall|i: int| 0 <= i < codes.len() ==> bounded(#[trigger] codes[i], max_pos, max_len)
}

proof fn lemma_bounded_push(codes: Seq<LzssCode>, code: LzssCode, max_pos: nat, max_len: nat)
    requires
        all_bounded(codes, max_pos, max_len),
        bounded(code, max_pos, max_len),
    ensures
        all_bounded(codes.push(code), max_pos, max_len),
{
    assert forall|i: int| 0 <= i < codes.push(code).len() implies bounded(#[trigger] codes.push(code)[i], max_pos, max_len) by {
        if i < codes.len() {
            assert(codes.push(code)[i] == codes[i]);
        }
    }
}

/// The cursor `offset` bytes before the end of `t`.
pub open spec fn cursor(t: Seq<u8>, offset: usize) -> int {
    t.len() - offset
}

/// The text up to `offset` bytes before its end.
pub open spec fn done_part(t: Seq<u8>, offset: usize) -> Seq<u8> {
    t.take(t.len() - offset)
}

/// The LZSS encoder: turns bytes into literals and references to earlier
/// copies within a window, with lazy matching (a later, better match may
/// be preferred, the bytes before it sent as literals or as a shorter
/// reference).
pub struct LzssEncoder<F> {
    slide: SlideDict<F>,
    min_match: usize,
    max_match: usize,
    lazy_level: usize,
    offset: usize,
    comp: F,
    lzss_queue: VecDeque<LzssCode>,
    finished: bool,
    emitted: Ghost<Seq<LzssCode>>,
    popped: Ghost<nat>,
    dict: Ghost<Seq<u8>>,
}

impl<F> LzssEncoder<F> {
    pub closed spec fn inv(&self) -> bool {
        let t = self.slide.spec_text();
        &&& self.slide.wf()
        &&& self.min_match >= 1
        &&& self.slide.spec_min_match() == self.min_match
        &&& self.max_match + self.lazy_level >= 1
        &&& self.max_match + self.lazy_level + 1 <= self.slide.spec_cap()
        &&& self.slide.spec_cap() <= usize::MAX
        &&& self.offset <= self.max_match + self.lazy_level
        &&& self.offset <= t.len()
        &&& self.dict@.is_prefix_of(done_part(t, self.offset))
        &&& expand(self.dict@, self.emitted@) == Some(done_part(t, self.offset))
        &&& all_bounded(self.emitted@, self.slide.spec_max_pos(), self.len_bound())
        &&& self.queue_ok()
    }

    /// How far back a reference can reach.
    pub closed spec fn spec_window(&self) -> nat {
        self.slide.spec_max_pos()
    }

    /// The bytes encoded so far, the dictionary first.
    pub closed spec fn spec_done(&self) -> Seq<u8> {
        done_part(self.slide.spec_text(), self.offset)
    }

    /// The longest a reference can be.
    pub closed spec fn len_bound(&self) -> nat {
        (self.max_match + self.lazy_level) as nat
    }

    /// The queue holds the codes not handed out yet.
    pub closed spec fn queue_ok(&self) -> bool {
        &&& self.popped@ <= self.emitted@.len()
        &&& self.lzss_queue@ == self.rest_codes()
    }

    /// The codes not handed out yet.
    pub closed spec fn rest_codes(&self) -> Seq<LzssCode> {
        self.emitted@.skip(self.popped@ as int)
    }

    /// Between calls: the bytes waiting are fewer than a match and the look
    /// ahead.
    pub closed spec fn idle(&self) -> bool {
        &&& self.inv()
        &&& self.offset < self.max_match + self.lazy_level
    }

    /// Every byte taken in, the dictionary first.
    pub closed spec fn spec_text(&self) -> Seq<u8> {
        self.slide.spec_text()
    }

    /// The dictionary the encoder started from.
    pub closed spec fn spec_dict(&self) -> Seq<u8> {
        self.dict@
    }

    /// Every code produced so far, handed out or not.
    pub closed spec fn spec_emitted(&self) -> Seq<LzssCode> {
        self.emitted@
    }

    /// How many codes have been handed out.
    pub closed spec fn spec_popped(&self) -> nat {
        self.popped@
    }

    /// How many bytes taken in have not been encoded yet.
    pub closed spec fn spec_offset(&self) -> nat {
        self.offset as nat
    }

    /// The input ended at the last call (the next call without input then
    /// ends).
    pub closed spec fn spec_finished(&self) -> bool {
        self.finished
    }

    pub closed spec fn spec_comp(&self) -> F {
        self.comp
    }

    pub closed spec fn spec_slide(&self) -> SlideDict<F> {
        self.slide
    }
}

/// Every code stands for at least one byte, so the text expanded is at
/// least as long as the codes are many.
proof fn lemma_expand_len(out: Seq<u8>, codes: Seq<LzssCode>, max_pos: nat, max_len: nat)
    requires
        expand(out, codes) is Some,
        all_bounded(codes, max_pos, max_len),
    ensures
        expand(out, codes)->0.len() >= out.len() + codes.len(),
    decreases codes.len(),
{
    if codes.len() > 0 {
        let init = codes.drop_last();
        assert(all_bounded(init, max_pos, max_len)) by {
            assert forall|i: int| 0 <= i < init.len() implies bounded(#[trigger] init[i], max_pos, max_len) by {
                assert(init[i] == codes[i]);
            }
        }
        lemma_expand_len(out, init, max_pos, max_len);
        assert(bounded(codes[codes.len() - 1], max_pos, max_len));
        let o = expand(out, init)->0;
        if let LzssCode::Reference { len, pos } = codes.last() {
            lemma_copy_match_len(o, (pos + 1) as nat, len as nat);
        }
    }
}

impl<F> LzssEncoder<F> {
    /// Codes handed out are at most the codes produced, which are at most
    /// the bytes taken in: each code stands for at least one byte.
    pub proof fn lemma_codes_below_text(&self)
        requires
            self.idle(),
        ensures
            self.spec_popped() <= self.spec_emitted().len(),
            self.spec_emitted().len() <= self.spec_text().len(),
    {
        lemma_expand_len(self.dict@, self.emitted@, self.slide.spec_max_pos(), self.len_bound());
    }
}


impl<F> LzssEncoder<F> {
    /// An encoder whose matches reach at most `size_of_window` bytes back
    /// and are `min_match` to `max_match` bytes long, looking up to
    /// `lazy_level` bytes ahead for a better match.
    pub fn new(comp: F, size_of_window: usize, max_match: usize, min_match: usize, lazy_level: usize) -> (r: Self)
        where F: Copy
        requires
            min_match >= 1,
            max_match + lazy_level >= 1,
            size_of_window + max_match + lazy_level + 1 <= usize::MAX,
        ensures
            r.idle(),
            r.spec_text() == Seq::<u8>::empty(),
            r.spec_dict() == Seq::<u8>::empty(),
            r.spec_emitted() == Seq::<LzssCode>::empty(),
            r.spec_popped() == 0,
            r.spec_offset() == 0,
            !r.spec_finished(),
            r.spec_comp() == comp,
            r.spec_slide().spec_comparison() == comp,
            r.spec_window() == size_of_window,
            r.len_bound() == max_match + lazy_level,
    {
        let r = Self {
            slide: SlideDict::new(size_of_window + max_match + lazy_level + 1, size_of_window, min_match, comp),
            max_match,
            min_match,
            lazy_level,
            offset: 0,
            comp,
            lzss_queue: VecDeque::new(),
            finished: false,
            emitted: Ghost(Seq::empty()),
            popped: Ghost(0),
            dict: Ghost(Seq::empty()),
        };
        assert(r.lzss_queue@ =~= r.emitted@.skip(0));
        assert(done_part(r.slide.spec_text(), 0) =~= Seq::<u8>::empty());
        r
    }

    /// An encoder whose window starts with the last `size_of_window` bytes
    /// of `dict`, which references may then reach into.
    pub fn with_dict(
        comp: F,
        size_of_window: usize,
        max_match: usize,
        min_match: usize,
        lazy_level: usize,
        dict: &[u8],
    ) -> (r: Self)
        where F: Copy
        requires
            min_match >= 1,
            max_match + lazy_level >= 1,
            size_of_window + max_match + lazy_level + 1 <= usize::MAX,
        ensures
            r.idle(),
            r.spec_dict() == dict@.skip(dict@.len() - if size_of_window < dict@.len() {
                size_of_window as int
            } else {
                dict@.len() as int
            }),
            r.spec_text() == r.spec_dict(),
            r.spec_emitted() == Seq::<LzssCode>::empty(),
            r.spec_popped() == 0,
            r.spec_offset() == 0,
            !r.spec_finished(),
            r.spec_comp() == comp,
            r.spec_slide().spec_comparison() == comp,
            r.spec_window() == size_of_window,
            r.len_bound() == max_match + lazy_level,
    {
        let mut slide = SlideDict::new(size_of_window + max_match + lazy_level + 1, size_of_window, min_match, comp);
        let keep = if size_of_window < dict.len() {
            size_of_window
        } else {
            dict.len()
        };
        let dictstart = dict.len() - keep;
        let mut tail: Vec<u8> = Vec::new();
        let mut i = dictstart;
        while i < dict.len()
            invariant
                dictstart <= i <= dict@.len(),
                tail@ == dict@.subrange(dictstart as int, i as int),
            decreases dict@.len() - i,
        {
            tail.push(dict[i]);
            i = i + 1;
            assert(tail@ =~= dict@.subrange(dictstart as int, i as int));
        }
        assert(tail@ =~= dict@.skip(dictstart as int));
        slide.append(tail.as_slice());
        let r = Self {
            slide,
            max_match,
            min_match,
            lazy_level,
            offset: 0,
            comp,
            lzss_queue: VecDeque::new(),
            finished: false,
            emitted: Ghost(Seq::empty()),
            popped: Ghost(0),
            dict: Ghost(tail@),
        };
        assert(r.lzss_queue@ =~= r.emitted@.skip(0));
        assert(done_part(r.slide.spec_text(), 0) =~= tail@);
        r
    }
}


impl<F> LzssEncoder<F> {
    /// Queues `code`.
    fn emit(&mut self, code: LzssCode)
        ensures
            final(self).emitted@ == old(self).emitted@.push(code),
            old(self).queue_ok() ==> final(self).queue_ok(),
            final(self).slide == old(self).slide,
            final(self).offset == old(self).offset,
            final(self).popped == old(self).popped,
            final(self).dict == old(self).dict,
            final(self).finished == old(self).finished,
            final(self).comp == old(self).comp,
            final(self).min_match == old(self).min_match,
            final(self).max_match == old(self).max_match,
            final(self).lazy_level == old(self).lazy_level,
    {
        self.lzss_queue.push_back(code);
        self.emitted = Ghost(self.emitted@.push(code));
        proof {
            if self.popped@ <= old(self).emitted@.len() {
                assert(self.emitted@.skip(self.popped@ as int) =~= old(self).emitted@.skip(self.popped@ as int).push(
                    code,
                ));
            }
        }
    }

    /// What the encoder keeps, apart from its codes and its position.
    pub closed spec fn same_setup(&self, other: &Self) -> bool {
        &&& self.slide == other.slide
        &&& self.dict == other.dict
        &&& self.popped == other.popped
        &&& self.finished == other.finished
        &&& self.comp == other.comp
        &&& self.min_match == other.min_match
        &&& self.max_match == other.max_match
        &&& self.lazy_level == other.lazy_level
    }
}

/// A match `ahead` bytes after the one `offset` bytes back.
pub open spec fn match_back_ahead(t: Seq<u8>, offset: usize, ahead: usize, pos: usize, len: usize) -> bool {
    match_back(t, (offset - ahead) as usize, pos, len)
}

/// The reference for a match `d` bytes back.
pub open spec fn ref_code(len: usize, d: usize) -> LzssCode {
    LzssCode::Reference { len, pos: (d - 1) as usize }
}

/// The code at index `i`.
pub open spec fn code_at(codes: Seq<LzssCode>, i: nat) -> LzssCode {
    codes[i as int]
}

/// `a` is `b` with more after it.
pub open spec fn extends<T>(a: Seq<T>, b: Seq<T>) -> bool {
    b.is_prefix_of(a)
}

impl<F> LzssEncoder<F> {
    /// Encodes the bytes from `offset` bytes back: the longest (then best
    /// compared) match there if it is at least `min_match` long, else a
    /// literal. With a match, up to `lazy_level - 1` later starts are
    /// tried; a better match found there is preceded by literals for the
    /// bytes before it (or, when those are `min_match` or more, a
    /// reference into the first match).
    fn encode(&mut self)
        where F: LzssComparison
        requires
            old(self).inv(),
            old(self).offset >= 1,
        ensures
            final(self).inv(),
            final(self).offset < old(self).offset,
            final(self).same_setup(&*old(self)),
            extends(final(self).emitted@, old(self).emitted@),
    {
        let ghost t = self.slide.spec_text();
        let ghost c = t.len() - self.offset;
        let ghost e0 = self.emitted@;
        let info = self.slide.search_dic(self.offset, self.max_match);
        let found = match info {
            Some(x) => if x.len >= self.min_match {
                Some(x)
            } else {
                None
            },
            None => None,
        };
        match found {
            Some(info) => {
                let lazy_level = if info.len < self.lazy_level {
                    info.len
                } else {
                    self.lazy_level
                };
                let mut out_info = info;
                let mut lazy_index: usize = 0;
                let mut i: usize = 1;
                while i < lazy_level && out_info.len < self.max_match
                    invariant
                        self.inv(),
                        self.same_setup(&*old(self)),
                        self.offset == old(self).offset,
                        self.emitted == old(self).emitted,
                        t == self.slide.spec_text(),
                        1 <= i,
                        lazy_level <= info.len,
                        info.len <= self.offset,
                        lazy_index < i,
                        lazy_index == 0 || lazy_index < lazy_level,
                        out_info.len >= self.min_match,
                        out_info.len + lazy_index <= self.offset,
                        match_back_ahead(t, self.offset, lazy_index, out_info.pos, out_info.len),
                        out_info.pos <= self.slide.spec_max_pos(),
                        out_info.len <= self.max_match,
                        info.pos <= self.slide.spec_max_pos(),
                        match_back(t, self.offset, info.pos, info.len),
                    decreases lazy_level - i,
                {
                    match self.slide.search_dic(self.offset - i, self.max_match) {
                        Some(item) => {
                            if item.len > self.min_match {
                                let better = match compare_match_info(&self.comp, &item, &out_info) {
                                    Ordering::Less => true,
                                    _ => false,
                                };
                                if better {
                                    out_info = item;
                                    lazy_index = i;
                                }
                            }
                        },
                        None => {},
                    }
                    i = i + 1;
                }
                if lazy_index < self.min_match {
                    let mut k: usize = 1;
                    while k <= lazy_index
                        invariant
                            1 <= k <= lazy_index + 1,
                            lazy_index < self.min_match,
                            lazy_index < info.len,
                            info.len <= self.offset,
                            self.offset == old(self).offset,
                            self.same_setup(&*old(self)),
                            self.slide.wf(),
                            t == self.slide.spec_text(),
                            c == t.len() - self.offset,
                            self.offset <= t.len(),
                            self.offset < self.slide.spec_cap(),
                            self.queue_ok(),
                            all_bounded(self.emitted@, self.slide.spec_max_pos(), self.len_bound()),
                            extends(self.emitted@, e0),
                            expand(self.dict@, self.emitted@) == Some(t.take(c + k - 1)),
                        decreases lazy_index + 1 - k,
                    {
                        let b = self.slide.get(self.offset - k);
                        proof {
                            lemma_literal(t, c + k - 1);
                            lemma_expand_push(self.dict@, self.emitted@, LzssCode::Symbol(b), t.take(c + k - 1));
                        }
                        proof {
                            lemma_bounded_push(self.emitted@, LzssCode::Symbol(b), self.slide.spec_max_pos(), self.len_bound());
                        }
                        self.emit(LzssCode::Symbol(b));
                        k = k + 1;
                    }
                } else {
                    proof {
                        lemma_reference(t, c, info.pos, lazy_index);
                        lemma_expand_push(
                            self.dict@,
                            self.emitted@,
                            ref_code(lazy_index, info.pos),
                            t.take(c),
                        );
                    }
                    proof {
                        lemma_bounded_push(
                            self.emitted@,
                            ref_code(lazy_index, info.pos),
                            self.slide.spec_max_pos(),
                            self.len_bound(),
                        );
                    }
                    self.emit(LzssCode::Reference { len: lazy_index, pos: info.pos - 1 });
                }
                proof {
                    lemma_reference(t, c + lazy_index, out_info.pos, out_info.len);
                    lemma_expand_push(
                        self.dict@,
                        self.emitted@,
                        ref_code(out_info.len, out_info.pos),
                        t.take(c + lazy_index),
                    );
                }
                proof {
                    lemma_bounded_push(
                        self.emitted@,
                        ref_code(out_info.len, out_info.pos),
                        self.slide.spec_max_pos(),
                        self.len_bound(),
                    );
                }
                self.emit(LzssCode::Reference { len: out_info.len, pos: out_info.pos - 1 });
                self.offset = self.offset - (out_info.len + lazy_index);
                proof {

                    assert(done_part(t, self.offset) =~= t.take(c + lazy_index + out_info.len));
                }
            },
            None => {
                let b = self.slide.get(self.offset - 1);
                proof {
                    lemma_literal(t, c);
                    lemma_expand_push(self.dict@, self.emitted@, LzssCode::Symbol(b), t.take(c));
                    lemma_bounded_push(self.emitted@, LzssCode::Symbol(b), self.slide.spec_max_pos(), self.len_bound());
                }
                self.emit(LzssCode::Symbol(b));
                self.offset = self.offset - 1;
                proof {
                    assert(done_part(t, self.offset) =~= t.take(c + 1));
                }
            },
        }
    }
}


impl<F> LzssEncoder<F> {
    /// Takes in one byte, and encodes while `max_match + lazy_level` bytes
    /// wait.
    fn next_in(&mut self, data: u8)
        where F: LzssComparison
        requires
            old(self).inv(),
            old(self).offset < old(self).max_match + old(self).lazy_level,
        ensures
            final(self).inv(),
            final(self).offset < final(self).max_match + final(self).lazy_level,
            final(self).spec_text() == old(self).spec_text().push(data),
            final(self).dict == old(self).dict,
            final(self).popped == old(self).popped,
            final(self).finished == old(self).finished,
            final(self).comp == old(self).comp,
            final(self).slide.spec_comparison() == old(self).slide.spec_comparison(),
            final(self).slide.spec_max_pos() == old(self).slide.spec_max_pos(),
            final(self).max_match == old(self).max_match,
            final(self).lazy_level == old(self).lazy_level,
            extends(final(self).emitted@, old(self).emitted@),
    {
        if self.max_match + self.lazy_level > self.offset {
            let ghost t0 = self.slide.spec_text();
            let ghost off0 = self.offset;
            let one = [data];
            proof {
                assert(one@ =~= seq![data]);
            }
            self.slide.append(&one);
            self.offset = self.offset + 1;
            proof {
                let t = self.slide.spec_text();
                assert(t =~= t0.push(data));
                assert(done_part(t, self.offset) =~= done_part(t0, off0));
            }
        }
        while self.offset >= self.max_match + self.lazy_level
            invariant
                self.inv(),
                self.spec_text() == old(self).spec_text().push(data),
                self.dict == old(self).dict,
                self.popped == old(self).popped,
                self.finished == old(self).finished,
                self.comp == old(self).comp,
                self.slide.spec_comparison() == old(self).slide.spec_comparison(),
                self.slide.spec_max_pos() == old(self).slide.spec_max_pos(),
                self.max_match == old(self).max_match,
                self.lazy_level == old(self).lazy_level,
                extends(self.emitted@, old(self).emitted@),
            decreases self.offset,
        {
            self.encode();
        }
    }

    /// Encodes every byte still waiting.
    fn flush(&mut self)
        where F: LzssComparison
        requires
            old(self).inv(),
        ensures
            final(self).inv(),
            final(self).offset == 0,
            final(self).spec_text() == old(self).spec_text(),
            final(self).dict == old(self).dict,
            final(self).popped == old(self).popped,
            final(self).finished == old(self).finished,
            final(self).comp == old(self).comp,
            final(self).slide.spec_comparison() == old(self).slide.spec_comparison(),
            final(self).slide.spec_max_pos() == old(self).slide.spec_max_pos(),
            final(self).max_match == old(self).max_match,
            final(self).lazy_level == old(self).lazy_level,
            extends(final(self).emitted@, old(self).emitted@),
    {
        while self.offset > 0
            invariant
                self.inv(),
                self.spec_text() == old(self).spec_text(),
                self.dict == old(self).dict,
                self.popped == old(self).popped,
                self.finished == old(self).finished,
                self.comp == old(self).comp,
                self.slide.spec_comparison() == old(self).slide.spec_comparison(),
                self.slide.spec_max_pos() == old(self).slide.spec_max_pos(),
                self.max_match == old(self).max_match,
                self.lazy_level == old(self).lazy_level,
                extends(self.emitted@, old(self).emitted@),
            decreases self.offset,
        {
            self.encode();
        }
    }

    /// The next code for the bytes of `src`; `None` once they are all
    /// taken and the codes handed out. With `Flush` or `Finish` every byte
    /// taken is encoded before `None`; with `Run` the last bytes may wait
    /// for more input. Whatever the calls, the codes handed out and queued
    /// expand, from the dictionary, to the bytes taken in less those still
    /// waiting.
    pub fn next(&mut self, src: &mut ByteSource, action: Action) -> (r: Option<
        Result<LzssCode, CompressionError>,
    >)
        where F: LzssComparison
        requires
            old(self).idle(),
        ensures
            final(self).idle(),
            final(self).spec_dict() == old(self).spec_dict(),
            final(self).spec_window() == old(self).spec_window(),
            final(self).len_bound() == old(self).len_bound(),
            expand(final(self).spec_dict(), final(self).spec_emitted()) == Some(
                final(self).spec_text().take(final(self).spec_text().len() - final(self).spec_offset()),
            ),
            extends(final(self).spec_emitted(), old(self).spec_emitted()),
            extends(final(self).spec_text(), old(self).spec_text()),
            old(self).spec_text() + old(src).remaining() == final(self).spec_text() + final(src).remaining(),
            final(src).spec_bytes() == old(src).spec_bytes(),
            r matches Some(Ok(code)) ==> {
                &&& old(self).spec_popped() < final(self).spec_emitted().len()
                &&& code == code_at(final(self).spec_emitted(), old(self).spec_popped())
                &&& final(self).spec_popped() == old(self).spec_popped() + 1
            },
            r is Some ==> r is Some && r->0 is Ok,
            r is None ==> {
                &&& final(src).remaining().len() == 0
                &&& final(self).spec_popped() == final(self).spec_emitted().len()
                &&& !final(self).spec_finished()
                &&& !old(self).spec_finished() && action != Action::Run ==> final(self).spec_offset() == 0
            },
    {
        let ghost t0 = self.slide.spec_text();
        let ghost r0 = src.remaining();
        let ghost fin0 = self.finished;
        let ghost flushed = false;
        while self.lzss_queue.len() == 0
            invariant
                self.inv(),
                self.offset < self.max_match + self.lazy_level,
                self.max_match == old(self).max_match,
                self.lazy_level == old(self).lazy_level,
                self.dict == old(self).dict,
                self.popped == old(self).popped,
                self.comp == old(self).comp,
                self.slide.spec_comparison() == old(self).slide.spec_comparison(),
                self.slide.spec_max_pos() == old(self).slide.spec_max_pos(),
                extends(self.emitted@, old(self).emitted@),
                extends(self.spec_text(), t0),
                t0 == old(self).spec_text(),
                r0 == old(src).remaining(),
                fin0 == old(self).finished,
                t0 + r0 == self.spec_text() + src.remaining(),
                src.spec_bytes() == old(src).spec_bytes(),
                self.finished && !fin0 ==> src.remaining().len() == 0,
                self.finished && !fin0 && action != Action::Run ==> self.offset == 0,
            decreases src.remaining().len(), if self.finished {
                0nat
            } else {
                1nat
            },
        {
            let ghost before = src.remaining();
            match src.read_byte() {
                Some(s) => {
                    proof {
                        assert(before =~= seq![s] + src.remaining());
                        assert(self.spec_text().push(s) + src.remaining() =~= self.spec_text() + before);
                    }
                    self.next_in(s);
                },
                None => {
                    if self.finished {
                        self.finished = false;
                        proof {
                            assert(self.queue_ok());
                            assert(self.lzss_queue@.len() == 0);
                        }
                        return None;
                    } else {
                        if action == Action::Flush || action == Action::Finish {
                            self.flush();
                        }
                        self.finished = true;
                    }
                },
            }
            proof {
            }
        }
        let ghost q0 = self.lzss_queue@;
        let code = self.lzss_queue.pop_front();
        match code {
            Some(c) => {
                proof {
                    self.popped = Ghost(self.popped@ + 1);
                    assert(self.rest_codes() =~= q0.drop_first());
                }
                Some(Ok(c))
            },
            None => None,
        }
    }
}


/// Law: decoding undoes encoding. The codes an encoder has produced, fed
/// to a decoder whose window is at least as wide as the encoder's reach
/// and its longest reference, take the decoder's window of the dictionary
/// to its window of the bytes encoded so far.
pub proof fn lemma_round_trip<F>(enc: &LzssEncoder<F>, cap: nat)
    requires
        enc.idle(),
        cap > 0,
        cap >= enc.spec_window(),
        cap >= enc.len_bound(),
    ensures
        decode_codes(suffix_rev(enc.spec_dict(), cap), enc.spec_emitted(), cap as int) == Some(
            suffix_rev(enc.spec_done(), cap),
        ),
{
    let codes = enc.spec_emitted();
    assert forall|i: int| 0 <= i < codes.len() implies fits_window(#[trigger] codes[i], cap) by {
        assert(bounded(codes[i], enc.spec_window(), enc.len_bound()));
    }
    lemma_decode_expansion(enc.spec_dict(), codes, cap);
}

} // verus!
