use vstd::prelude::*;
use crate::error::CompressionError;

verus! {

/// The ways in which decoding a bzip2 stream can fail.
#[derive(Debug, Clone, Copy, PartialEq, Eq)]
pub enum BZip2Error {
    DataError,
    DataErrorMagicFirst,
    DataErrorMagic,
    UnexpectedEof,
    Unexpected,
}

impl BZip2Error {
    /// The human-readable message of each error.
    pub open spec fn spec_description(&self) -> Seq<char> {
        match *self {
            BZip2Error::DataError => "data integrity (CRC) error in data"@,
            BZip2Error::DataErrorMagicFirst => "bad magic number (file not created by bzip2)"@,
            BZip2Error::DataErrorMagic => "trailing garbage after EOF ignored"@,
            BZip2Error::UnexpectedEof => "file ends unexpectedly"@,
            BZip2Error::Unexpected => "unexpected error"@,
        }
    }

    pub fn description_in(&self) -> (r: &'static str)
        ensures
            r@ == self.spec_description(),
    {
        match *self {
            BZip2Error::DataError => "data integrity (CRC) error in data",
            BZip2Error::DataErrorMagicFirst => "bad magic number (file not created by bzip2)",
            BZip2Error::DataErrorMagic => "trailing garbage after EOF ignored",
            BZip2Error::UnexpectedEof => "file ends unexpectedly",
            BZip2Error::Unexpected => "unexpected error",
        }
    }

    /// The message, as `Display` prints it.
    pub fn to_string(&self) -> (r: String)
        ensures
            r@ == self.spec_description(),
    {
        self.description_in().to_string()
    }
}

/// The general error that a bzip2 error maps to.
pub open spec fn spec_compression_error(e: BZip2Error) -> CompressionError {
    match e {
        BZip2Error::UnexpectedEof => CompressionError::UnexpectedEof,
        BZip2Error::Unexpected => CompressionError::Unexpected,
        _ => CompressionError::DataError,
    }
}

impl From<BZip2Error> for CompressionError {
    fn from(error: BZip2Error) -> (r: Self) {
        match error {
            BZip2Error::UnexpectedEof => CompressionError::UnexpectedEof,
            BZip2Error::Unexpected => CompressionError::Unexpected,
            _ => CompressionError::DataError,
        }
    }
}

impl vstd::std_specs::convert::FromSpecImpl<BZip2Error> for CompressionError {
    open spec fn obeys_from_spec() -> bool {
        true
    }

    open spec fn from_spec(v: BZip2Error) -> Self {
        spec_compression_error(v)
    }
}

} // verus!
