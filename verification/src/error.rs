use vstd::prelude::*;

verus! {

/// The ways in which decoding can fail.
#[derive(Debug, Clone, Copy, PartialEq, Eq)]
pub enum CompressionError {
    DataError,
    UnexpectedEof,
    Unexpected,
}

impl CompressionError {
    /// The human-readable message of each error.
    pub open spec fn spec_description(&self) -> Seq<char> {
        match *self {
            CompressionError::DataError => "data integrity error in data"@,
            CompressionError::UnexpectedEof => "file ends unexpectedly"@,
            CompressionError::Unexpected => "unexpected error"@,
        }
    }

    pub fn description_in(&self) -> (r: &'static str)
        ensures
            r@ == self.spec_description(),
    {
        match *self {
            CompressionError::DataError => "data integrity error in data",
            CompressionError::UnexpectedEof => "file ends unexpectedly",
            CompressionError::Unexpected => "unexpected error",
        }
    }

    /// The message, as `Display` prints it.
    pub fn to_string(&self) -> (r: String)
        ensures
            r@ == self.spec_description(),
    {
        self.description_in().to_string()
    }
}

} // verus!
