//! A sparse local record of a blockchain's checkpoints (height to block
//! identity), together with the reconciliation algorithm that compares the
//! record against an externally supplied update, detects reorganizations,
//! and produces the minimal set of mutations needed to adopt the new view.

use vstd::prelude::*;

pub mod chain_oracle;
pub mod changeset;
pub mod local_chain;
pub mod reconcile;
pub mod sparse;

pub use chain_oracle::ChainOracle;
pub use changeset::ChangeSet;
pub use changeset::UpdateNotConnectedError;
pub use local_chain::LocalChain;

verus! {

/// An opaque fixed-size block identity: 32 bytes held as four 64-bit words.
///
/// The chain logic only ever compares identities for equality; nothing here
/// interprets the bytes.
#[derive(Clone, Copy, Debug, Hash, PartialEq, Eq, Structural, PartialOrd, Ord)]
pub struct BlockHash {
    pub word0: u64,
    pub word1: u64,
    pub word2: u64,
    pub word3: u64,
}

/// A (height, identity) pair naming one checkpoint on a chain.
///
/// Ordered lexicographically by height and then by identity; the ordering is
/// only for value-level comparisons and plays no part in the chain logic.
#[derive(Clone, Copy, Debug, Hash, PartialEq, Eq, Structural, PartialOrd, Ord)]
pub struct BlockId {
    pub height: u32,
    pub hash: BlockHash,
}

} // verus!
