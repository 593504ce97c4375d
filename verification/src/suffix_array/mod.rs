pub mod bucket;
pub mod ls_type;
pub mod sais;

use vstd::prelude::*;

verus! {

/// A character of a text to sort: it has a rank, and ranks order the
/// characters.
pub trait Symbol: Copy {
    spec fn rank(&self) -> nat;

    /// The rank, as an index.
    fn to_usize(&self) -> (r: usize)
        ensures
            r == self.rank(),
    ;
}

impl Symbol for u8 {
    open spec fn rank(&self) -> nat {
        *self as nat
    }

    fn to_usize(&self) -> (r: usize) {
        *self as usize
    }
}

impl Symbol for usize {
    open spec fn rank(&self) -> nat {
        *self as nat
    }

    fn to_usize(&self) -> (r: usize) {
        *self
    }
}

} // verus!
