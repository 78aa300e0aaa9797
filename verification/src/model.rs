//! The mathematical model of the cache: which indices have been observed for which block and
//! slot, and how observing and pruning change that.

use crate::blob_sidecar::{BlobSidecar, Error, Slot};
use crate::hash256::Hash256;
use vstd::prelude::*;

verus! {

/// The abstract state of the cache.
pub struct CacheModel {
    /// Valid blob indices are those below this bound.
    pub max_blobs_per_block: nat,
    /// The last finalized slot that the cache was told about; zero while it was told of none.
    pub finalized_slot: Slot,
    /// The observed indices of each `(block root, slot)` group.
    pub items: Map<(Hash256, Slot), Set<u64>>,
}

impl CacheModel {
    /// The cache that has observed nothing and knows of no finalized slot.
    pub open spec fn empty(max_blobs_per_block: nat) -> CacheModel {
        CacheModel { max_blobs_per_block, finalized_slot: 0, items: Map::empty() }
    }

    /// Whether the cache accepts the sidecar: its index must be in range, and its slot must be
    /// after the finalized slot once one is known. The index is checked first.
    pub open spec fn sanitize(self, sidecar: BlobSidecar) -> Result<(), Error> {
        if sidecar.index >= self.max_blobs_per_block {
            Err(Error::InvalidBlobIndex(sidecar.index))
        } else if self.finalized_slot > 0 && sidecar.slot <= self.finalized_slot {
            Err(Error::FinalizedBlob { slot: sidecar.slot, finalized_slot: self.finalized_slot })
        } else {
            Ok(())
        }
    }

    /// The indices observed for a group; empty where the group is absent.
    pub open spec fn indices(self, key: (Hash256, Slot)) -> Set<u64> {
        if self.items.contains_key(key) {
            self.items[key]
        } else {
            Set::empty()
        }
    }

    /// Whether this very sidecar (block root, slot and index) has been observed.
    pub open spec fn contains(self, sidecar: BlobSidecar) -> bool {
        self.indices(sidecar.key()).contains(sidecar.index)
    }

    /// The state after the sidecar's index was recorded in its group.
    pub open spec fn insert(self, sidecar: BlobSidecar) -> CacheModel {
        CacheModel {
            items: self.items.insert(
                sidecar.key(),
                self.indices(sidecar.key()).insert(sidecar.index),
            ),
            ..self
        }
    }

    /// Observing a sidecar: a rejected sidecar leaves the state as it is; an accepted one is
    /// recorded, and the answer says whether it had been observed before.
    pub open spec fn observe(self, sidecar: BlobSidecar) -> (CacheModel, Result<bool, Error>) {
        match self.sanitize(sidecar) {
            Ok(()) => (self.insert(sidecar), Ok(self.contains(sidecar))),
            Err(e) => (self, Err(e)),
        }
    }

    /// The answer to the question whether a sidecar has been observed.
    pub open spec fn is_known(self, sidecar: BlobSidecar) -> Result<bool, Error> {
        match self.sanitize(sidecar) {
            Ok(()) => Ok(self.contains(sidecar)),
            Err(e) => Err(e),
        }
    }

    /// Pruning at a finalized slot: slot zero changes nothing; any other slot becomes the
    /// finalized slot, and only the groups of later slots stay.
    pub open spec fn prune(self, finalized_slot: Slot) -> CacheModel {
        if finalized_slot == 0 {
            self
        } else {
            CacheModel {
                finalized_slot,
                items: self.items.restrict(Set::new(|k: (Hash256, Slot)| k.1 > finalized_slot)),
                ..self
            }
        }
    }

    /// What holds of every state that the cache can reach: it holds finitely many groups, each
    /// of them with at least one index; every index that it holds is below the bound; and once
    /// a finalized slot is known, every group that it holds is of a later slot.
    pub open spec fn wf(self) -> bool {
        &&& self.items.dom().finite()
        &&& forall|k: (Hash256, Slot)| #[trigger]
            self.items.contains_key(k) ==> self.items[k].finite() && self.items[k].len() > 0
        &&& forall|k: (Hash256, Slot), i: u64|
            self.items.contains_key(k) && #[trigger] self.items[k].contains(i) ==> i
                < self.max_blobs_per_block
        &&& self.finalized_slot > 0 ==> forall|k: (Hash256, Slot)| #[trigger]
            self.items.contains_key(k) ==> k.1 > self.finalized_slot
    }
}

impl CacheModel {
    /// Observing the same sidecar `times` times in a row.
    pub open spec fn observe_repeatedly(self, sidecar: BlobSidecar, times: nat) -> CacheModel
        decreases times,
    {
        if times == 0 {
            self
        } else {
            self.observe(sidecar).0.observe_repeatedly(sidecar, (times - 1) as nat)
        }
    }

    /// A finite set of numbers below a bound has at most as many members as the bound.
    proof fn lemma_len_below(indices: Set<u64>, bound: nat)
        requires
            indices.finite(),
            forall|i: u64| #[trigger] indices.contains(i) ==> i < bound,
        ensures
            indices.len() <= bound,
        decreases bound,
    {
        if bound == 0 {
            assert(indices =~= Set::empty());
        } else {
            let top = (bound - 1) as nat;
            if top <= u64::MAX && indices.contains(top as u64) {
                Self::lemma_len_below(indices.remove(top as u64), top);
            } else {
                Self::lemma_len_below(indices, top);
            }
        }
    }

    /// A group never holds more indices than there are valid ones.
    pub proof fn lemma_group_bounded(self, key: (Hash256, Slot))
        requires
            self.wf(),
            self.items.contains_key(key),
        ensures
            1 <= self.items[key].len() <= self.max_blobs_per_block,
    {
        Self::lemma_len_below(self.items[key], self.max_blobs_per_block);
    }

    /// The empty cache is well-formed.
    pub proof fn lemma_empty_wf(max_blobs_per_block: nat)
        ensures
            CacheModel::empty(max_blobs_per_block).wf(),
    {
    }

    /// Observing a sidecar keeps the state well-formed.
    pub proof fn lemma_observe_wf(self, sidecar: BlobSidecar)
        requires
            self.wf(),
        ensures
            self.observe(sidecar).0.wf(),
    {
        if self.sanitize(sidecar) is Ok {
            let after = self.insert(sidecar);
            let key = sidecar.key();
            assert(after.items.dom() =~= self.items.dom().insert(key));
            assert forall|k: (Hash256, Slot)| #[trigger]
                after.items.contains_key(k) implies after.items[k].finite() && after.items[k].len()
                > 0 by {
                if k == key {
                    assert(after.items[k].contains(sidecar.index));
                }
            }
        }
    }

    /// Pruning keeps the state well-formed.
    pub proof fn lemma_prune_wf(self, finalized_slot: Slot)
        requires
            self.wf(),
        ensures
            self.prune(finalized_slot).wf(),
    {
        let after = self.prune(finalized_slot);
        assert(after.items.dom().subset_of(self.items.dom()));
        vstd::set_lib::lemma_set_subset_finite(self.items.dom(), after.items.dom());
    }

    /// Observing or looking up a sidecar changes neither the bound on the indices nor the
    /// finalized slot, so a sidecar that was accepted once is accepted until the next prune.
    pub proof fn lemma_observe_keeps_limits(self, sidecar: BlobSidecar, other: BlobSidecar)
        ensures
            self.observe(sidecar).0.max_blobs_per_block == self.max_blobs_per_block,
            self.observe(sidecar).0.finalized_slot == self.finalized_slot,
            self.observe(sidecar).0.sanitize(other) == self.sanitize(other),
    {
    }

    /// A sidecar that the cache accepts and has not observed is answered with `false`. From
    /// then on it is known: observing it again is answered with `true` and changes nothing.
    pub proof fn lemma_observe_twice(self, sidecar: BlobSidecar)
        requires
            self.sanitize(sidecar) is Ok,
        ensures
            !self.contains(sidecar) ==> self.observe(sidecar).1 == Ok::<bool, Error>(false),
            self.observe(sidecar).0.contains(sidecar),
            self.observe(sidecar).0.is_known(sidecar) == Ok::<bool, Error>(true),
            self.observe(sidecar).0.observe(sidecar) == (
                self.observe(sidecar).0,
                Ok::<bool, Error>(true),
            ),
    {
        let once = self.observe(sidecar).0;
        let group = once.indices(sidecar.key());
        assert(group.insert(sidecar.index) =~= group);
        assert(once.insert(sidecar).items =~= once.items);
    }

    /// However often an accepted sidecar is observed in a row, the state is that after the
    /// first observation, and a further observation is answered with `true`.
    pub proof fn lemma_observe_repeatedly(self, sidecar: BlobSidecar, times: nat)
        requires
            self.sanitize(sidecar) is Ok,
            times >= 1,
        ensures
            self.observe_repeatedly(sidecar, times) == self.observe(sidecar).0,
            self.observe_repeatedly(sidecar, times).observe(sidecar).1 == Ok::<bool, Error>(true),
        decreases times,
    {
        let once = self.observe(sidecar).0;
        self.lemma_observe_twice(sidecar);
        if times == 1 {
            assert(once.observe_repeatedly(sidecar, 0) == once);
        } else {
            once.lemma_observe_repeatedly(sidecar, (times - 1) as nat);
        }
    }

    /// Two indices of one block and slot are observed independently of each other: observing
    /// one does not make the other known, and once both are observed both are known, as
    /// members of the same group.
    pub proof fn lemma_index_independence(self, first: BlobSidecar, second: BlobSidecar)
        requires
            first.key() == second.key(),
            first.index != second.index,
        ensures
            self.observe(first).0.contains(second) == self.contains(second),
            self.sanitize(first) is Ok && self.sanitize(second) is Ok ==> ({
                let both = self.observe(first).0.observe(second).0;
                &&& both.contains(first)
                &&& both.contains(second)
                &&& both.items.contains_key(first.key())
                &&& both.items[first.key()] == self.indices(first.key()).insert(first.index).insert(
                    second.index,
                )
            }),
    {
    }

    /// The groups of different block roots or different slots are independent of each other:
    /// observing a sidecar changes no group but its own.
    pub proof fn lemma_group_independence(self, sidecar: BlobSidecar, key: (Hash256, Slot))
        requires
            sidecar.key() != key,
        ensures
            self.observe(sidecar).0.items.contains_key(key) == self.items.contains_key(key),
            self.observe(sidecar).0.indices(key) == self.indices(key),
    {
    }

    /// The same index is tracked separately for different block roots and for different slots.
    pub proof fn lemma_same_index_independence(self, first: BlobSidecar, second: BlobSidecar)
        requires
            first.index == second.index,
            first.block_root != second.block_root || first.slot != second.slot,
        ensures
            self.observe(first).0.contains(second) == self.contains(second),
    {
        self.lemma_group_independence(first, second.key());
    }

    /// The cache holds nothing but what was observed: after an observation, the known sidecars
    /// are those known before and, if it was accepted, the observed one.
    pub proof fn lemma_observe_adds_one(self, sidecar: BlobSidecar, other: BlobSidecar)
        ensures
            self.observe(sidecar).0.contains(other) <==> self.contains(other) || (self.sanitize(
                sidecar,
            ) is Ok && other == sidecar),
    {
        if other.key() != sidecar.key() {
            self.lemma_group_independence(sidecar, other.key());
        }
    }

    /// Pruning at slot zero changes nothing.
    pub proof fn lemma_prune_zero(self)
        ensures
            self.prune(0) == self,
    {
    }

    /// Pruning at a slot other than zero makes it the finalized slot, even if it is before the
    /// finalized slot so far. Every group at or before it is gone, and every group after it
    /// stays with all its indices.
    pub proof fn lemma_prune_boundary(self, finalized_slot: Slot)
        requires
            finalized_slot > 0,
        ensures
            self.prune(finalized_slot).finalized_slot == finalized_slot,
            self.prune(finalized_slot).max_blobs_per_block == self.max_blobs_per_block,
            forall|k: (Hash256, Slot)|
                k.1 <= finalized_slot ==> !(#[trigger] self.prune(
                    finalized_slot,
                ).items.contains_key(k)),
            forall|k: (Hash256, Slot)|
                k.1 > finalized_slot && #[trigger] self.items.contains_key(k) ==> self.prune(
                    finalized_slot,
                ).items.contains_key(k) && self.prune(finalized_slot).items[k] == self.items[k],
            forall|k: (Hash256, Slot)| #[trigger]
                self.prune(finalized_slot).items.contains_key(k) ==> self.items.contains_key(k),
    {
    }

    /// Pruning makes no sidecar known that was not known before.
    pub proof fn lemma_prune_adds_nothing(self, finalized_slot: Slot, sidecar: BlobSidecar)
        ensures
            self.prune(finalized_slot).contains(sidecar) <==> self.contains(sidecar) && (
            finalized_slot == 0 || sidecar.slot > finalized_slot),
    {
    }

    /// Once a finalized slot is known, a sidecar with a valid index at or before that slot is
    /// rejected as finalized, by an observation as by a lookup, and the state stays as it is.
    pub proof fn lemma_finalized_rejected(self, sidecar: BlobSidecar)
        requires
            self.finalized_slot > 0,
            sidecar.slot <= self.finalized_slot,
            sidecar.index < self.max_blobs_per_block,
        ensures
            self.observe(sidecar) == (
                self,
                Err::<bool, Error>(
                    Error::FinalizedBlob {
                        slot: sidecar.slot,
                        finalized_slot: self.finalized_slot,
                    },
                ),
            ),
            self.is_known(sidecar) == Err::<bool, Error>(
                Error::FinalizedBlob { slot: sidecar.slot, finalized_slot: self.finalized_slot },
            ),
    {
    }

    /// After a prune at a slot other than zero, a sidecar with a valid index at or before
    /// that slot is rejected as finalized at that slot.
    pub proof fn lemma_rejected_after_prune(self, finalized_slot: Slot, sidecar: BlobSidecar)
        requires
            finalized_slot > 0,
            sidecar.slot <= finalized_slot,
            sidecar.index < self.max_blobs_per_block,
        ensures
            self.prune(finalized_slot).observe(sidecar) == (
                self.prune(finalized_slot),
                Err::<bool, Error>(Error::FinalizedBlob { slot: sidecar.slot, finalized_slot }),
            ),
            self.prune(finalized_slot).is_known(sidecar) == Err::<bool, Error>(
                Error::FinalizedBlob { slot: sidecar.slot, finalized_slot },
            ),
    {
    }

    /// A sidecar whose index is not below the bound is rejected for its index, whatever its
    /// other fields and whatever the cache holds, and the state stays as it is.
    pub proof fn lemma_invalid_index_rejected(self, sidecar: BlobSidecar)
        requires
            sidecar.index >= self.max_blobs_per_block,
        ensures
            self.observe(sidecar) == (
                self,
                Err::<bool, Error>(Error::InvalidBlobIndex(sidecar.index)),
            ),
            self.is_known(sidecar) == Err::<bool, Error>(Error::InvalidBlobIndex(sidecar.index)),
    {
    }
}

} // verus!
