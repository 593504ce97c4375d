use vstd::prelude::*;
use crate::cbuffer::{push_all, push_history, CircularBuffer};
use crate::error::CompressionError;
use crate::lz4::decoder::{copy_match, lemma_copy_match_len};
use crate::lzss::LzssCode;
use crate::lzss::encoder::{expand, expand_code};
use crate::lzss::slidedict::{lemma_suffix_rev_push, suffix_rev};

verus! {

/// The history (newest first) after copying, `n` times, the byte `pos`
/// places back, into a window of `cap` bytes; `None` where a copy reaches
/// back further than the history goes.
pub open spec fn copy_back(hist: Seq<u8>, pos: nat, n: nat, cap: int) -> Option<Seq<u8>>
    decreases n,
{
    if n == 0 {
        Some(hist)
    } else {
        match copy_back(hist, pos, (n - 1) as nat, cap) {
            Some(h) => if pos < h.len() {
                Some(push_history(h, h[pos as int], cap))
            } else {
                None
            },
            None => None,
        }
    }
}

/// How many bytes a code stands for.
pub open spec fn code_len(code: LzssCode) -> nat {
    match code {
        LzssCode::Symbol(_) => 1,
        LzssCode::Reference { len, pos: _ } => len as nat,
    }
}

/// The history after a code has been expanded into a window of `cap`
/// bytes; `None` where a reference reaches back further than the history,
/// or stands for more bytes than the window holds.
pub open spec fn apply_code(hist: Seq<u8>, code: LzssCode, cap: int) -> Option<Seq<u8>> {
    match code {
        LzssCode::Symbol(s) => Some(push_history(hist, s, cap)),
        LzssCode::Reference { len, pos } => if len <= cap {
            copy_back(hist, pos as nat, len as nat, cap)
        } else {
            None
        },
    }
}

/// A reference that stands for no bytes at all.
pub open spec fn is_empty_code(code: LzssCode) -> bool {
    code_len(code) == 0
}

/// A history never grows past the window, and pushing into it never
/// shortens it.
proof fn lemma_push_len(hist: Seq<u8>, x: u8, cap: int)
    requires
        hist.len() <= cap,
        cap > 0,
    ensures
        push_history(hist, x, cap).len() <= cap,
        push_history(hist, x, cap).len() >= hist.len(),
        push_history(hist, x, cap).len() >= 1,
{
}

/// While the first copy of a reference can be made, all of them can; the
/// history then holds at least as many bytes as were copied.
proof fn lemma_copy_back_some(hist: Seq<u8>, pos: nat, n: nat, cap: int)
    requires
        hist.len() <= cap,
        cap > 0,
        pos < hist.len(),
    ensures
        copy_back(hist, pos, n, cap) is Some,
        copy_back(hist, pos, n, cap)->0.len() <= cap,
        copy_back(hist, pos, n, cap)->0.len() >= hist.len(),
        copy_back(hist, pos, n, cap)->0.len() >= n || copy_back(hist, pos, n, cap)->0.len() == cap,
    decreases n,
{
    if n > 0 {
        lemma_copy_back_some(hist, pos, (n - 1) as nat, cap);
        let h = copy_back(hist, pos, (n - 1) as nat, cap)->0;
        lemma_push_len(h, h[pos as int], cap);
    }
}

/// The decoding side of LZSS: expands literal bytes and back references
/// through a window of recent output.
pub struct LzssDecoder {
    buf: CircularBuffer<u8>,
    offset: usize,
}

impl LzssDecoder {
    pub closed spec fn wf(&self) -> bool {
        &&& self.buf.wf()
        &&& self.buf.spec_cap() > 0
        &&& self.offset <= self.buf.history().len()
        &&& self.buf.history().len() <= self.buf.spec_cap()
    }

    /// The size of the window.
    pub closed spec fn spec_cap(&self) -> nat {
        self.buf.spec_cap()
    }

    /// The bytes in the window, the newest first.
    pub closed spec fn spec_history(&self) -> Seq<u8> {
        self.buf.history()
    }

    /// How many bytes of the last code are still to be handed out; they
    /// are the first of the history, handed out oldest first.
    pub closed spec fn spec_offset(&self) -> nat {
        self.offset as nat
    }

    pub fn new(size_of_window: usize) -> (r: Self)
        requires
            size_of_window > 0,
        ensures
            r.wf(),
            r.spec_cap() == size_of_window,
            r.spec_history().len() == 0,
            r.spec_offset() == 0,
    {
        Self { buf: CircularBuffer::new(size_of_window), offset: 0 }
    }

    /// A decoder whose window already holds `dict`, as if it had been
    /// output before.
    pub fn with_dict(size_of_window: usize, dict: &[u8]) -> (r: Self)
        requires
            size_of_window > 0,
            dict.len() <= 2 * size_of_window,
        ensures
            r.wf(),
            r.spec_cap() == size_of_window,
            r.spec_history() == push_all(Seq::<u8>::empty(), dict@, size_of_window as int),
            r.spec_offset() == 0,
    {
        let mut buf = CircularBuffer::new(size_of_window);
        assert(buf.history() =~= Seq::<u8>::empty());
        buf.append(dict);
        proof {
            buf.lemma_len_le_cap();
        }
        Self { buf, offset: 0 }
    }

    /// Expands one code into the window; the bytes it stands for are then
    /// owed to the caller.
    pub fn feed(&mut self, code: LzssCode) -> (r: Result<(), CompressionError>)
        requires
            old(self).wf(),
            old(self).spec_offset() == 0,
        ensures
            final(self).wf(),
            final(self).spec_cap() == old(self).spec_cap(),
            apply_code(old(self).spec_history(), code, old(self).spec_cap() as int) matches Some(h) ==> {
                &&& r is Ok
                &&& final(self).spec_history() == h
                &&& final(self).spec_offset() == code_len(code)
            },
            apply_code(old(self).spec_history(), code, old(self).spec_cap() as int) is None ==> {
                &&& r == Err::<(), CompressionError>(CompressionError::DataError)
                &&& final(self).spec_history() == old(self).spec_history()
                &&& final(self).spec_offset() == 0
            },
    {
        let ghost cap = self.buf.spec_cap() as int;
        match code {
            LzssCode::Symbol(s) => {
                proof {
                    lemma_push_len(self.buf.history(), s, cap);
                }
                self.buf.push(s);
                self.offset = 1;
                Ok(())
            },
            LzssCode::Reference { len, pos } => {
                if len == 0 {
                    return Ok(());
                }
                if len > self.buf.cap() || pos >= self.buf.len() {
                    proof {
                        if len <= cap {
                            let h0 = self.buf.history();
                            assert(pos >= h0.len());
                            lemma_copy_back_first(h0, pos as nat, len as nat, cap);
                        }
                    }
                    return Err(CompressionError::DataError);
                }
                let ghost h0 = self.buf.history();
                proof {
                    lemma_copy_back_some(h0, pos as nat, len as nat, cap);
                }
                let mut i: usize = 0;
                while i < len
                    invariant
                        i <= len,
                        len <= cap,
                        cap == self.buf.spec_cap(),
                        cap > 0,
                        self.buf.wf(),
                        h0.len() <= cap,
                        pos < h0.len(),
                        copy_back(h0, pos as nat, i as nat, cap) == Some(self.buf.history()),
                        self.offset == 0,
                    decreases len - i,
                {
                    proof {
                        lemma_copy_back_some(h0, pos as nat, i as nat, cap);
                    }
                    let d = *self.buf.get(pos);
                    self.buf.push(d);
                    i = i + 1;
                }
                proof {
                    lemma_copy_back_some(h0, pos as nat, len as nat, cap);
                }
                self.offset = len;
                Ok(())
            },
        }
    }

    /// How many bytes of the last code are still owed.
    pub fn owed(&self) -> (r: usize)
        ensures
            r == self.spec_offset(),
    {
        self.offset
    }

    /// Hands out the oldest byte still owed.
    pub fn take_pending(&mut self) -> (r: u8)
        requires
            old(self).wf(),
            old(self).spec_offset() > 0,
        ensures
            final(self).wf(),
            final(self).spec_cap() == old(self).spec_cap(),
            final(self).spec_history() == old(self).spec_history(),
            final(self).spec_offset() == old(self).spec_offset() - 1,
            r == old(self).spec_history()[old(self).spec_offset() - 1],
    {
        self.offset = self.offset - 1;
        *self.buf.get(self.offset)
    }

    /// The next decoded byte: an owed byte of the last code if there is
    /// one, else the first byte of the next code of `codes` from `*at` that
    /// stands for any byte (codes that stand for none are passed over).
    /// `None` once the codes run out.
    pub fn next(&mut self, codes: &[LzssCode], at: &mut usize) -> (r: Option<Result<u8, CompressionError>>)
        requires
            old(self).wf(),
        ensures
            final(self).wf(),
            final(self).spec_cap() == old(self).spec_cap(),
            old(self).spec_offset() > 0 ==> {
                &&& r == Some(Ok::<u8, CompressionError>(old(self).spec_history()[old(self).spec_offset() - 1]))
                &&& *final(at) == *old(at)
                &&& final(self).spec_offset() == old(self).spec_offset() - 1
                &&& final(self).spec_history() == old(self).spec_history()
            },
            old(self).spec_offset() == 0 ==> {
                &&& *old(at) <= *final(at) <= codes@.len() || *final(at) == *old(at)
                &&& forall|i: int| *old(at) <= i < *final(at) - 1 ==> #[trigger] is_empty_code(codes@[i])
                &&& r is None ==> {
                    &&& *final(at) == *old(at) || *final(at) == codes@.len()
                    &&& *old(at) >= codes@.len() ==> *final(at) == *old(at)
                    &&& *old(at) < codes@.len() ==> is_empty_code(codes@[*final(at) - 1])
                    &&& final(self).spec_history() == old(self).spec_history()
                }
                &&& r is Some ==> {
                    let code = codes@[*final(at) - 1];
                    let applied = apply_code(old(self).spec_history(), code, old(self).spec_cap() as int);
                    &&& *old(at) < *final(at)
                    &&& !is_empty_code(code)
                    &&& applied is None ==> r == Some(Err::<u8, CompressionError>(CompressionError::DataError))
                    &&& applied matches Some(h) ==> {
                        &&& r == Some(Ok::<u8, CompressionError>(h[code_len(code) - 1]))
                        &&& final(self).spec_history() == h
                        &&& final(self).spec_offset() == code_len(code) - 1
                    }
                }
            },
    {
        if self.offset > 0 {
            return Some(Ok(self.take_pending()));
        }
        let ghost at0 = *at;
        let ghost hist0 = self.buf.history();
        let ghost cap = self.buf.spec_cap() as int;
        while self.offset == 0
            invariant
                self.wf(),
                self.spec_cap() == cap,
                cap == old(self).spec_cap(),
                old(self).spec_offset() == 0,
                at0 == *old(at),
                hist0 == old(self).spec_history(),
                at0 <= *at,
                *at > at0 ==> *at <= codes@.len(),
                self.spec_offset() == 0 ==> {
                    &&& self.spec_history() == hist0
                    &&& forall|i: int| at0 <= i < *at ==> #[trigger] is_empty_code(codes@[i])
                },
                self.spec_offset() > 0 ==> {
                    &&& *at > at0
                    &&& forall|i: int| at0 <= i < *at - 1 ==> #[trigger] is_empty_code(codes@[i])
                    &&& apply_code(hist0, codes@[*at - 1], cap) == Some(self.spec_history())
                    &&& self.spec_offset() == code_len(codes@[*at - 1])
                },
            decreases codes@.len() - *at,
        {
            if *at >= codes.len() {
                return None;
            }
            let code = codes[*at];
            *at = *at + 1;
            match self.feed(code) {
                Ok(()) => {},
                Err(e) => {
                    return Some(Err(e));
                },
            }
        }
        Some(Ok(self.take_pending()))
    }
}

/// When the first copy of a reference reaches back past the history, the
/// reference cannot be expanded.
proof fn lemma_copy_back_first(hist: Seq<u8>, pos: nat, n: nat, cap: int)
    requires
        pos >= hist.len(),
        n > 0,
    ensures
        copy_back(hist, pos, n, cap) is None,
    decreases n,
{
    if n > 1 {
        lemma_copy_back_first(hist, pos, (n - 1) as nat, cap);
    } else {
        assert(copy_back(hist, pos, 0, cap) == Some(hist));
    }
}


/// The window after each code of `codes` in turn.
pub open spec fn decode_codes(hist: Seq<u8>, codes: Seq<LzssCode>, cap: int) -> Option<Seq<u8>>
    decreases codes.len(),
{
    if codes.len() == 0 {
        Some(hist)
    } else {
        match decode_codes(hist, codes.drop_last(), cap) {
            Some(h) => apply_code(h, codes.last(), cap),
            None => None,
        }
    }
}

/// A code that a window of `cap` bytes can expand: a reference reaches at
/// most `cap` bytes back and stands for at most `cap` bytes.
pub open spec fn fits_window(code: LzssCode, cap: nat) -> bool {
    match code {
        LzssCode::Symbol(_) => true,
        LzssCode::Reference { len, pos } => pos < cap && len <= cap,
    }
}

/// Copying through the window does what copying through the whole text
/// does.
proof fn lemma_copy_back_text(o: Seq<u8>, pos: nat, n: nat, cap: nat)
    requires
        cap > 0,
        pos < o.len(),
        pos < cap,
    ensures
        copy_back(suffix_rev(o, cap), pos, n, cap as int) == Some(suffix_rev(copy_match(o, pos + 1, n), cap)),
    decreases n,
{
    if n > 0 {
        lemma_copy_back_text(o, pos, (n - 1) as nat, cap);
        let o1 = copy_match(o, pos + 1, (n - 1) as nat);
        lemma_copy_match_len(o, pos + 1, (n - 1) as nat);
        let h1 = suffix_rev(o1, cap);
        assert(h1[pos as int] == o1[o1.len() - (pos + 1)]);
        lemma_suffix_rev_push(o1, o1[o1.len() - (pos + 1)], cap);
    }
}

/// Law: the window of a text after a code is the window of the text that
/// the code expands it to, when the code fits the window.
pub proof fn lemma_window_follows_text(o: Seq<u8>, code: LzssCode, cap: nat)
    requires
        cap > 0,
        fits_window(code, cap),
        expand_code(o, code) is Some,
    ensures
        apply_code(suffix_rev(o, cap), code, cap as int) == Some(suffix_rev(expand_code(o, code)->0, cap)),
{
    match code {
        LzssCode::Symbol(s) => {
            lemma_suffix_rev_push(o, s, cap);
        },
        LzssCode::Reference { len, pos } => {
            if len == 0 {
                assert(copy_back(suffix_rev(o, cap), pos as nat, 0, cap as int) == Some(suffix_rev(o, cap)));
            } else {
                lemma_copy_back_text(o, pos as nat, len as nat, cap);
            }
        },
    }
}

/// Law: codes that expand a text, each fitting the window, take the
/// decoder's window of the text to the window of the expanded text.
pub proof fn lemma_decode_expansion(o: Seq<u8>, codes: Seq<LzssCode>, cap: nat)
    requires
        cap > 0,
        forall|i: int| 0 <= i < codes.len() ==> fits_window(#[trigger] codes[i], cap),
        expand(o, codes) is Some,
    ensures
        decode_codes(suffix_rev(o, cap), codes, cap as int) == Some(suffix_rev(expand(o, codes)->0, cap)),
    decreases codes.len(),
{
    if codes.len() > 0 {
        let init = codes.drop_last();
        assert(forall|i: int| 0 <= i < init.len() ==> init[i] == codes[i]);
        lemma_decode_expansion(o, init, cap);
        lemma_window_follows_text(expand(o, init)->0, codes.last(), cap);
    }
}

} // verus!
