//! The cache of observed blob sidecars.

use crate::blob_sidecar::{BlobSidecar, Error, Slot};
use crate::bucket::{
    bucket_view, find_root, has_root, lemma_bucket_push, lemma_bucket_update, lemma_position,
    roots_distinct, ObservedIndices,
};
use crate::hash256::Hash256;
use crate::model::CacheModel;
use std::collections::HashMap;
use std::collections::HashSet;
use vstd::prelude::*;
use vstd::std_specs::hash::*;

verus! {

broadcast use vstd::std_specs::hash::group_hash_axioms;

/// The bucket of a slot; empty where the slot has none.
spec fn bucket_at(items: Map<Slot, Vec<ObservedIndices>>, slot: Slot) -> Seq<ObservedIndices> {
    if items.contains_key(slot) {
        items[slot]@
    } else {
        Seq::empty()
    }
}

/// No bucket holds a block root twice.
spec fn buckets_distinct(items: Map<Slot, Vec<ObservedIndices>>) -> bool {
    forall|slot: Slot| #[trigger] items.contains_key(slot) ==> roots_distinct(items[slot]@)
}

/// The observed indices of each `(block root, slot)` group that the buckets hold.
spec fn observed(items: Map<Slot, Vec<ObservedIndices>>) -> Map<(Hash256, Slot), Set<u64>> {
    Map::new(
        |k: (Hash256, Slot)| items.contains_key(k.1) && bucket_view(items[k.1]@).contains_key(k.0),
        |k: (Hash256, Slot)| bucket_view(items[k.1]@)[k.0],
    )
}

/// Replacing the bucket of a slot by one that holds one more index for a block root records
/// that index in the group of the block root and the slot, and changes no other group.
proof fn lemma_observed_insert(
    items: Map<Slot, Vec<ObservedIndices>>,
    slot: Slot,
    bucket: Vec<ObservedIndices>,
    block_root: Hash256,
    indices: Set<u64>,
)
    requires
        bucket_view(bucket@) == bucket_view(bucket_at(items, slot)).insert(block_root, indices),
    ensures
        observed(items.insert(slot, bucket)) == observed(items).insert((block_root, slot), indices),
{
    let after = items.insert(slot, bucket);
    let expected = observed(items).insert((block_root, slot), indices);
    assert(bucket_view(Seq::<ObservedIndices>::empty()) =~= Map::empty());
    let replaced = bucket_view(bucket_at(items, slot));
    assert forall|k: (Hash256, Slot)| #[trigger]
        observed(after).contains_key(k) <==> expected.contains_key(k) by {
        if k.1 == slot {
            assert(bucket_view(bucket@).contains_key(k.0) <==> (k.0 == block_root
                || replaced.contains_key(k.0)));
        }
    }
    assert forall|k: (Hash256, Slot)| #[trigger] expected.contains_key(k) implies observed(after)[k]
        == expected[k] by {
        if k.1 == slot {
            assert(bucket_view(bucket@)[k.0] == replaced.insert(block_root, indices)[k.0]);
        }
    }
    assert(observed(after) =~= expected);
}

/// Without buckets nothing is observed.
proof fn lemma_observed_empty()
    ensures
        observed(Map::empty()) == Map::<(Hash256, Slot), Set<u64>>::empty(),
{
    assert(observed(Map::empty()) =~= Map::<(Hash256, Slot), Set<u64>>::empty());
}

/// Dropping the buckets of the slots up to a finalized slot drops the groups of those slots,
/// and changes no other group.
proof fn lemma_observed_restrict(
    before: Map<Slot, Vec<ObservedIndices>>,
    after: Map<Slot, Vec<ObservedIndices>>,
    finalized_slot: Slot,
)
    requires
        forall|s: Slot| #[trigger]
            after.contains_key(s) <==> before.contains_key(s) && s > finalized_slot,
        forall|s: Slot| #[trigger] after.contains_key(s) ==> after[s] == before[s],
    ensures
        observed(after) == observed(before).restrict(
            Set::new(|k: (Hash256, Slot)| k.1 > finalized_slot),
        ),
        buckets_distinct(before) ==> buckets_distinct(after),
{
    let expected = observed(before).restrict(Set::new(|k: (Hash256, Slot)| k.1 > finalized_slot));
    assert forall|k: (Hash256, Slot)| #[trigger]
        observed(after).contains_key(k) <==> expected.contains_key(k) by {
        if after.contains_key(k.1) {
            assert(after[k.1] == before[k.1]);
        }
    }
    assert forall|k: (Hash256, Slot)| #[trigger] expected.contains_key(k) implies observed(after)[k]
        == expected[k] by {
        assert(after.contains_key(k.1));
        assert(after[k.1] == before[k.1]);
    }
    assert(observed(after) =~= expected);
    if buckets_distinct(before) {
        assert forall|s: Slot| #[trigger] after.contains_key(s) implies roots_distinct(
            after[s]@,
        ) by {
            assert(before.contains_key(s));
            assert(after[s] == before[s]);
        }
    }
}

/// Maintains a cache of seen blob sidecars that were received over gossip and have been gossip
/// verified.
///
/// The cache supports pruning based upon the finalized slot. It does not prune by itself:
/// `prune` must be called.
///
/// To prevent denial-of-service attacks, the cache must hold only sidecars that have received
/// some resistance against them, such as a check of the proposer's signature.
pub struct ObservedBlobSidecars {
    max_blobs_per_block: usize,
    finalized_slot: Slot,
    /// All received blob indices for a given `(block root, slot)` pair, filed by slot: a lookup
    /// hashes the slot and then compares the block roots seen at that slot, which are few.
    items: HashMap<Slot, Vec<ObservedIndices>>,
}

impl View for ObservedBlobSidecars {
    type V = CacheModel;

    closed spec fn view(&self) -> CacheModel {
        CacheModel {
            max_blobs_per_block: self.max_blobs_per_block as nat,
            finalized_slot: self.finalized_slot,
            items: observed(self.items@),
        }
    }
}

/// The slots that have a bucket, each once, in no particular order.
fn slots_of(items: &HashMap<Slot, Vec<ObservedIndices>>) -> (slots: Vec<Slot>)
    ensures
        slots@.no_duplicates(),
        slots@.to_set() == items@.dom(),
{
    let mut slots: Vec<Slot> = Vec::new();
    for slot in it: items.keys()
        invariant
            it.seq().no_duplicates(),
            it.seq().unref().to_set() == items@.dom(),
            slots@ == it.seq().unref().take(it.index()),
            it.index() == it.seq().len() ==> slots@.no_duplicates() && slots@.to_set()
                == items@.dom(),
    {
        let ghost all = it.seq().unref();
        assert(all[it.index()] == *slot);
        assert(all.take(it.index() + 1) == all.take(it.index()).push(*slot));
        slots.push(*slot);
        assert(it.index() + 1 == it.seq().len() ==> slots@.no_duplicates() && slots@.to_set()
            == items@.dom()) by {
            assert(all.take(all.len() as int) == all);
            assert forall|i: int, j: int| 0 <= i < j < all.len() implies all[i] != all[j] by {
                assert(it.seq()[i] != it.seq()[j]);
            }
        }
    }
    slots
}

impl ObservedBlobSidecars {
    #[verifier::type_invariant]
    spec fn inv(self) -> bool {
        &&& buckets_distinct(self.items@)
        &&& self@.wf()
    }

    /// An empty cache that knows of no finalized slot and accepts the blob indices below
    /// `max_blobs_per_block`.
    pub fn new(max_blobs_per_block: usize) -> (cache: ObservedBlobSidecars)
        ensures
            cache@ == CacheModel::empty(max_blobs_per_block as nat),
            cache@.wf(),
    {
        let items: HashMap<Slot, Vec<ObservedIndices>> = HashMap::new();
        proof {
            lemma_observed_empty();
        }
        ObservedBlobSidecars { max_blobs_per_block, finalized_slot: 0, items }
    }

    /// The slot up to which the cache was last pruned; zero if it never was.
    pub fn finalized_slot(&self) -> (slot: Slot)
        ensures
            slot == self@.finalized_slot,
            self@.wf(),
    {
        proof {
            use_type_invariant(self);
        }
        self.finalized_slot
    }

    /// The bound below which a blob index is valid.
    pub fn max_blobs_per_block(&self) -> (max: usize)
        ensures
            max == self@.max_blobs_per_block,
            self@.wf(),
    {
        proof {
            use_type_invariant(self);
        }
        self.max_blobs_per_block
    }

    /// The `(block root, slot)` groups for which a sidecar was observed and that were not
    /// pruned since, each once, in no particular order.
    pub fn keys(&self) -> (keys: Vec<(Hash256, Slot)>)
        ensures
            keys@.no_duplicates(),
            keys@.to_set() == self@.items.dom(),
            keys@.len() == self@.items.dom().len(),
            self@.wf(),
    {
        proof {
            use_type_invariant(self);
        }
        let slots = slots_of(&self.items);
        let mut keys: Vec<(Hash256, Slot)> = Vec::new();
        let mut i: usize = 0;
        while i < slots.len()
            invariant
                i <= slots.len(),
                slots@.no_duplicates(),
                slots@.to_set() == self.items@.dom(),
                buckets_distinct(self.items@),
                keys@.no_duplicates(),
                forall|p: int|
                    0 <= p < keys.len() ==> slots@.take(i as int).contains((#[trigger] keys@[p]).1)
                        && has_root(self.items@[keys@[p].1]@, keys@[p].0),
                forall|j: int, m: int|
                    0 <= j < i && 0 <= m < self.items@[slots@[j]]@.len() ==> keys@.contains(
                        ((#[trigger] self.items@[slots@[j]]@[m]).block_root, slots@[j]),
                    ),
            decreases slots.len() - i,
        {
            let slot = slots[i];
            assert(slots@.to_set().contains(slot));
            let ghost done = slots@.take(i as int);
            assert(!done.contains(slot));
            assert(slots@.take(i + 1) == done.push(slot));
            if let Some(bucket) = self.items.get(&slot) {
                let ghost listed = keys@;
                let mut n: usize = 0;
                while n < bucket.len()
                    invariant
                        n <= bucket.len(),
                        roots_distinct(bucket@),
                        !done.contains(slot),
                        keys@.no_duplicates(),
                        keys@.len() == listed.len() + n,
                        forall|p: int| 0 <= p < listed.len() ==> keys@[p] == listed[p],
                        forall|p: int|
                            0 <= p < listed.len() ==> done.contains((#[trigger] listed[p]).1),
                        forall|m: int|
                            0 <= m < n ==> #[trigger] keys@[listed.len() + m] == (
                                bucket@[m].block_root,
                                slot,
                            ),
                    decreases bucket.len() - n,
                {
                    let key = (bucket[n].block_root, slot);
                    assert forall|p: int| 0 <= p < keys.len() implies keys@[p] != key by {
                        if p >= listed.len() {
                            let m = p - listed.len();
                            assert(keys@[listed.len() + m] == (bucket@[m].block_root, slot));
                            assert(bucket@[m].block_root != bucket@[n as int].block_root);
                        } else {
                            assert(keys@[p] == listed[p]);
                            assert(done.contains(listed[p].1));
                        }
                    }
                    keys.push(key);
                    n += 1;
                }
                proof {
                    assert forall|p: int| 0 <= p < keys.len() implies slots@.take(i + 1).contains(
                        (#[trigger] keys@[p]).1,
                    ) && has_root(self.items@[keys@[p].1]@, keys@[p].0) by {
                        if p < listed.len() {
                            assert(keys@[p] == listed[p]);
                            let w = choose|w: int| 0 <= w < done.len() && done[w] == listed[p].1;
                            assert(slots@.take(i + 1)[w] == listed[p].1);
                        } else {
                            let m = p - listed.len();
                            assert(keys@[listed.len() + m] == (bucket@[m].block_root, slot));
                            assert(slots@.take(i + 1)[i as int] == slot);
                            assert(bucket@[m].block_root == keys@[p].0);
                        }
                    }
                    assert forall|j: int, m: int|
                        0 <= j < i + 1 && 0 <= m < self.items@[slots@[j]]@.len()
                            implies keys@.contains(
                        ((#[trigger] self.items@[slots@[j]]@[m]).block_root, slots@[j]),
                    ) by {
                        let key = (self.items@[slots@[j]]@[m].block_root, slots@[j]);
                        if j < i {
                            let w = choose|w: int| 0 <= w < listed.len() && listed[w] == key;
                            assert(keys@[w] == key);
                        } else {
                            assert(keys@[listed.len() + m] == key);
                        }
                    }
                }
            }
            i += 1;
        }
        proof {
            assert(slots@.take(slots.len() as int) == slots@);
            let dom = self@.items.dom();
            assert forall|k: (Hash256, Slot)| keys@.to_set().contains(k) implies dom.contains(
                k,
            ) by {
                let p = choose|p: int| 0 <= p < keys.len() && keys@[p] == k;
                assert(slots@.contains(keys@[p].1));
                assert(slots@.to_set().contains(k.1));
            }
            assert forall|k: (Hash256, Slot)| dom.contains(k) implies keys@.to_set().contains(
                k,
            ) by {
                assert(slots@.to_set().contains(k.1));
                let j = choose|j: int| 0 <= j < slots.len() && slots@[j] == k.1;
                let bucket = self.items@[k.1]@;
                let m = choose|m: int|
                    0 <= m < bucket.len() && (#[trigger] bucket[m]).block_root == k.0;
                assert(keys@.contains((self.items@[slots@[j]]@[m].block_root, slots@[j])));
            }
            assert(keys@.to_set() =~= dom);
            keys@.unique_seq_to_set();
        }
        keys
    }

    /// The number of `(block root, slot)` groups that the cache holds.
    pub fn len(&self) -> (len: usize)
        ensures
            len == self@.items.dom().len(),
            self@.wf(),
    {
        self.keys().len()
    }

    /// The number of indices observed for a block root at a slot, where the cache holds that
    /// group.
    pub fn observed_indices_len(&self, block_root: &Hash256, slot: Slot) -> (len: Option<usize>)
        ensures
            match len {
                Some(n) => self@.items.contains_key((*block_root, slot)) && n == self@.items[(
                    *block_root,
                    slot,
                )].len(),
                None => !self@.items.contains_key((*block_root, slot)),
            },
            self@.wf(),
    {
        proof {
            use_type_invariant(self);
        }
        match self.items.get(&slot) {
            None => None,
            Some(bucket) => match find_root(bucket, block_root) {
                None => None,
                Some(i) => {
                    proof {
                        lemma_position(bucket@, i as int);
                    }
                    Some(bucket[i].indices.len())
                },
            },
        }
    }

    /// Moves the buckets out of the cache, which is left empty until they are put back.
    fn take_items(&mut self) -> (items: HashMap<Slot, Vec<ObservedIndices>>)
        ensures
            items == old(self).items,
            final(self).items@ == Map::<Slot, Vec<ObservedIndices>>::empty(),
            final(self).max_blobs_per_block == old(self).max_blobs_per_block,
            final(self).finalized_slot == old(self).finalized_slot,
    {
        let mut items: HashMap<Slot, Vec<ObservedIndices>> = HashMap::new();
        proof {
            lemma_observed_empty();
        }
        core::mem::swap(&mut self.items, &mut items);
        items
    }

    /// Checks that the sidecar may be looked up or recorded.
    pub fn sanitize_blob_sidecar(&self, blob_sidecar: &BlobSidecar) -> (res: Result<(), Error>)
        ensures
            res == self@.sanitize(*blob_sidecar),
            self@.wf(),
    {
        proof {
            use_type_invariant(self);
        }
        if blob_sidecar.index >= self.max_blobs_per_block as u64 {
            return Err(Error::InvalidBlobIndex(blob_sidecar.index));
        }
        let finalized_slot = self.finalized_slot;
        if finalized_slot > 0 && blob_sidecar.slot <= finalized_slot {
            return Err(Error::FinalizedBlob { slot: blob_sidecar.slot, finalized_slot });
        }
        Ok(())
    }

    /// Observes the sidecar at `(blob_sidecar.block_root, blob_sidecar.slot)`, so that later
    /// calls indicate that it is known. Returns `true` if it had been observed before.
    ///
    /// The sidecar **must** have completed proposer signature verification.
    pub fn observe_sidecar(&mut self, blob_sidecar: &BlobSidecar) -> (res: Result<bool, Error>)
        ensures
            (final(self)@, res) == old(self)@.observe(*blob_sidecar),
            final(self)@.wf(),
    {
        proof {
            use_type_invariant(&*self);
        }
        match self.sanitize_blob_sidecar(blob_sidecar) {
            Err(e) => { return Err(e); },
            Ok(()) => {},
        }
        let capacity = self.max_blobs_per_block;
        let mut items = self.take_items();
        let ghost before = items@;
        let ghost group = old(self)@.indices(blob_sidecar.key());
        let bucket = items.entry(blob_sidecar.slot).or_insert(Vec::new());
        assert(bucket@ == bucket_at(before, blob_sidecar.slot));
        let did_not_exist = match find_root(bucket, &blob_sidecar.block_root) {
            Some(i) => {
                let did_not_exist = bucket[i].indices.insert(blob_sidecar.index);
                proof {
                    lemma_bucket_update(
                        bucket_at(before, blob_sidecar.slot),
                        bucket@,
                        i as int,
                        blob_sidecar.index,
                    );
                }
                did_not_exist
            },
            None => {
                let mut indices = HashSet::with_capacity(capacity);
                let did_not_exist = indices.insert(blob_sidecar.index);
                let entry = ObservedIndices { block_root: blob_sidecar.block_root, indices };
                proof {
                    lemma_bucket_push(bucket@, entry);
                }
                bucket.push(entry);
                did_not_exist
            },
        };
        assert(bucket_view(bucket@) == bucket_view(bucket_at(before, blob_sidecar.slot)).insert(
            blob_sidecar.block_root,
            group.insert(blob_sidecar.index),
        ));
        assert(roots_distinct(bucket@));
        proof {
            lemma_observed_insert(
                before,
                blob_sidecar.slot,
                *bucket,
                blob_sidecar.block_root,
                group.insert(blob_sidecar.index),
            );
            old(self)@.lemma_observe_wf(*blob_sidecar);
        }
        self.items = items;
        Ok(!did_not_exist)
    }

    /// Prunes all groups at or before the given slot, which becomes the finalized slot. Slot
    /// zero stands for a finality that is not known yet, and changes nothing.
    pub fn prune(&mut self, finalized_slot: Slot)
        ensures
            final(self)@ == old(self)@.prune(finalized_slot),
            final(self)@.wf(),
    {
        proof {
            use_type_invariant(&*self);
        }
        if finalized_slot == 0 {
            return ;
        }
        let mut items = self.take_items();
        proof {
            lemma_observed_empty();
        }
        self.finalized_slot = finalized_slot;
        let ghost before = items@;
        let slots = slots_of(&items);
        let mut i: usize = 0;
        while i < slots.len()
            invariant
                i <= slots.len(),
                forall|s: Slot|
                    #[trigger] items@.contains_key(s) <==> before.contains_key(s) && !(s
                        <= finalized_slot && slots@.take(i as int).contains(s)),
                forall|s: Slot| #[trigger] items@.contains_key(s) ==> items@[s] == before[s],
            decreases slots.len() - i,
        {
            let slot = slots[i];
            if slot <= finalized_slot {
                items.remove(&slot);
            }
            proof {
                let done = slots@.take(i as int);
                let next = slots@.take(i + 1);
                assert(next == done.push(slot));
                assert forall|s: Slot| done.contains(s) implies next.contains(s) by {
                    let k = choose|k: int| 0 <= k < done.len() && done[k] == s;
                    assert(next[k] == s);
                }
                assert(next[i as int] == slot);
                assert forall|s: Slot| next.contains(s) implies done.contains(s) || s == slot by {
                    let k = choose|k: int| 0 <= k < next.len() && next[k] == s;
                    if k < i {
                        assert(done[k] == s);
                    }
                }
            }
            i += 1;
        }
        proof {
            assert(slots@.take(slots.len() as int) == slots@);
            assert forall|s: Slot| #[trigger]
                items@.contains_key(s) <==> before.contains_key(s) && s > finalized_slot by {
                if before.contains_key(s) {
                    assert(slots@.to_set().contains(s));
                }
            }
            lemma_observed_restrict(before, items@, finalized_slot);
            old(self)@.lemma_prune_wf(finalized_slot);
        }
        self.items = items;
    }

    /// Returns `true` if the sidecar has already been observed in the cache within the prune
    /// window.
    pub fn is_known(&self, blob_sidecar: &BlobSidecar) -> (res: Result<bool, Error>)
        ensures
            res == self@.is_known(*blob_sidecar),
            self@.wf(),
    {
        proof {
            use_type_invariant(self);
        }
        match self.sanitize_blob_sidecar(blob_sidecar) {
            Err(e) => { return Err(e); },
            Ok(()) => {},
        }
        match self.items.get(&blob_sidecar.slot) {
            None => Ok(false),
            Some(bucket) => match find_root(bucket, &blob_sidecar.block_root) {
                None => Ok(false),
                Some(i) => {
                    Ok(bucket[i].indices.contains(&blob_sidecar.index))
                },
            },
        }
    }
}

} // verus!
