//! Error types of the archive format.

use vstd::prelude::*;

verus! {

/// Why looking up a chain or an entry by path failed.
#[derive(Debug, Copy, Clone, PartialEq, Eq, Structural)]
pub enum ChainLookupError {
    NotFound,
    InvalidPath,
    InvalidChainOffset,
}

/// Why an archive header was refused.
#[derive(Debug, Copy, Clone, PartialEq, Eq, Structural)]
pub enum HeaderError {
    CorruptedFile,
    UnsupportedVersion(u32),
}

/// The key does not fit the cipher, or does not match the archive.
#[derive(Debug, Copy, Clone, PartialEq, Eq, Structural)]
pub struct InvalidKey;

impl ChainLookupError {
    /// The human readable description of this error.
    pub fn message(&self) -> (r: &'static str)
        ensures
            r@ == (match *self {
                ChainLookupError::NotFound => "chain not found"@,
                ChainLookupError::InvalidPath => "invalid path"@,
                ChainLookupError::InvalidChainOffset => "invalid chain offset"@,
            }),
    {
        match self {
            ChainLookupError::NotFound => "chain not found",
            ChainLookupError::InvalidPath => "invalid path",
            ChainLookupError::InvalidChainOffset => "invalid chain offset",
        }
    }
}

} // verus!
