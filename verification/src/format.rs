//! The pk2 archive format: header, entries, blocks, chains, and the index of chains.

pub mod block_chain;
pub mod chain_index;
pub mod entry;
pub mod header;
pub mod path;

use vstd::prelude::*;

verus! {

/// Offset into the stream of a chain's first block. Also used as the key of a chain in the
/// chain index. Never zero.
#[derive(Copy, Clone, Debug, Hash, PartialEq, Eq, Structural, PartialOrd, Ord)]
pub struct ChainOffset(pub u64);

/// Offset into the stream of a block. Never zero.
#[derive(Copy, Clone, Debug, Hash, PartialEq, Eq, Structural, PartialOrd, Ord)]
pub struct BlockOffset(pub u64);

/// Offset into the stream of generic data. Never zero.
#[derive(Copy, Clone, Debug, Hash, PartialEq, Eq, Structural, PartialOrd, Ord)]
pub struct StreamOffset(pub u64);

impl ChainOffset {
    /// The offset `v`, or `None` for zero.
    pub fn new(v: u64) -> (r: Option<Self>)
        ensures
            r == (if v == 0 { None } else { Some(ChainOffset(v)) }),
    {
        if v == 0 { None } else { Some(ChainOffset(v)) }
    }

    pub fn get(self) -> (r: u64)
        ensures
            r == self.0,
    {
        self.0
    }
}

impl BlockOffset {
    /// The offset `v`, or `None` for zero.
    pub fn new(v: u64) -> (r: Option<Self>)
        ensures
            r == (if v == 0 { None } else { Some(BlockOffset(v)) }),
    {
        if v == 0 { None } else { Some(BlockOffset(v)) }
    }

    pub fn get(self) -> (r: u64)
        ensures
            r == self.0,
    {
        self.0
    }
}

impl StreamOffset {
    /// The offset `v`, or `None` for zero.
    pub fn new(v: u64) -> (r: Option<Self>)
        ensures
            r == (if v == 0 { None } else { Some(StreamOffset(v)) }),
    {
        if v == 0 { None } else { Some(StreamOffset(v)) }
    }

    pub fn get(self) -> (r: u64)
        ensures
            r == self.0,
    {
        self.0
    }

    /// The sum of two offsets. Overflow is excluded, as the sum of two nonzero offsets must
    /// itself be an offset.
    pub fn checked_sum(self, rhs: StreamOffset) -> (r: StreamOffset)
        requires
            self.0 + rhs.0 <= u64::MAX,
        ensures
            r.0 == self.0 + rhs.0,
    {
        StreamOffset(self.0 + rhs.0)
    }
}

} // verus!
