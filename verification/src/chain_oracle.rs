//! The chain-oracle capability: a service that can answer whether one block
//! is an ancestor of another.

use vstd::prelude::*;

use crate::BlockId;

verus! {

/// Represents a service that tracks the blockchain.
///
/// The main method is `is_block_in_chain`, which determines whether a given
/// block is an ancestor of another "static" block that the caller treats as a
/// trusted reference point.
pub trait ChainOracle {
    /// The implementation's own failure channel (for instance, an I/O error
    /// of a remote-backed oracle).
    type Error: core::fmt::Debug;

    /// Determines whether `block` exists as an ancestor of `static_block`.
    ///
    /// `Ok(None)` means the implementation lacks the data to decide; an
    /// implementation must answer so rather than guess.
    fn is_block_in_chain(&self, block: BlockId, static_block: BlockId) -> Result<
        Option<bool>,
        Self::Error,
    >;
}

} // verus!
