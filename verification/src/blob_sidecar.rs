//! The part of a blob sidecar that the cache reads, and the errors it reports.

use crate::hash256::Hash256;
use vstd::prelude::*;

verus! {

/// A slot of the chain, counted from genesis.
pub type Slot = u64;

/// What identifies a blob sidecar on the gossip network: the block it belongs to, the slot of
/// that block and its position among the blobs of the block.
#[derive(Clone, Copy, Debug, PartialEq, Eq)]
pub struct BlobSidecar {
    pub block_root: Hash256,
    pub slot: Slot,
    pub index: u64,
}

impl BlobSidecar {
    /// The group that the sidecar belongs to: all sidecars of one block at one slot.
    pub open spec fn key(self) -> (Hash256, Slot) {
        (self.block_root, self.slot)
    }
}

#[derive(Clone, Copy, Debug, PartialEq, Eq)]
pub enum Error {
    /// The slot of the sidecar is at or before the finalized slot, so it should not have been
    /// handed to the cache. This is an internal error of the caller.
    FinalizedBlob { slot: Slot, finalized_slot: Slot },
    /// The index of the sidecar is not below the maximum number of blobs per block, so the
    /// sidecar is invalid. It should have been rejected long before it reached the cache.
    InvalidBlobIndex(u64),
}

} // verus!
