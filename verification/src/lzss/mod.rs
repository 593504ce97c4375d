use vstd::prelude::*;
use core::cmp::Ordering;

pub mod decoder;
pub mod encoder;
pub mod slidedict;

verus! {

/// One step of an LZSS stream: a literal byte, or a copy of `len` bytes
/// from `pos` bytes back (counted from 0).
#[derive(Clone, Copy, Debug, PartialEq, Eq, Structural)]
pub enum LzssCode {
    Symbol(u8),
    Reference { len: usize, pos: usize },
}

impl Default for LzssCode {
    fn default() -> (r: Self)
        ensures
            r == LzssCode::Symbol(0),
    {
        LzssCode::Symbol(0)
    }
}


/// A match found in the window: `len` bytes, `pos` bytes back.
#[derive(Clone, Copy, Debug)]
pub struct MatchInfo {
    pub len: usize,
    pub pos: usize,
}

/// How an LZSS encoder ranks two candidate codes: `Less` for the one it
/// prefers.
pub trait LzssComparison {
    fn compare_codes(&self, lhs: LzssCode, rhs: LzssCode) -> Ordering;
}

/// Compares two matches as the references they stand for.
pub fn compare_match_info<F: LzssComparison>(comp: &F, arg1: &MatchInfo, arg2: &MatchInfo) -> Ordering {
    comp.compare_codes(
        LzssCode::Reference { len: arg1.len, pos: arg1.pos },
        LzssCode::Reference { len: arg2.len, pos: arg2.pos },
    )
}

} // verus!
