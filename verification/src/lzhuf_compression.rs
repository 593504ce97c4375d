use vstd::prelude::*;

verus! {

/// The LHA compression methods and their parameters.
pub enum LzhufCompression {
    Lh4,
    Lh5,
    Lh6,
    Lh7,
}

impl LzhufCompression {
    pub open spec fn spec_dictionary_bits(&self) -> usize {
        match *self {
            LzhufCompression::Lh4 => 12,
            LzhufCompression::Lh5 => 13,
            LzhufCompression::Lh6 => 15,
            LzhufCompression::Lh7 => 16,
        }
    }

    pub open spec fn spec_offset_bits(&self) -> usize {
        match *self {
            LzhufCompression::Lh4 => 4,
            LzhufCompression::Lh5 => 4,
            LzhufCompression::Lh6 => 5,
            LzhufCompression::Lh7 => 5,
        }
    }

    /// The dictionary of the method holds `1 << dictionary_bits()` bytes.
    pub fn dictionary_bits(&self) -> (r: usize)
        ensures
            r == self.spec_dictionary_bits(),
    {
        match self {
            LzhufCompression::Lh4 => 12,
            LzhufCompression::Lh5 => 13,
            LzhufCompression::Lh6 => 15,
            LzhufCompression::Lh7 => 16,
        }
    }

    pub fn offset_bits(&self) -> (r: usize)
        ensures
            r == self.spec_offset_bits(),
    {
        match self {
            LzhufCompression::Lh4 => 4,
            LzhufCompression::Lh5 => 4,
            LzhufCompression::Lh6 => 5,
            LzhufCompression::Lh7 => 5,
        }
    }
}

} // verus!
