//! The bucket of a slot: the blob indices observed at that slot, filed by block root.

use crate::hash256::Hash256;
use std::collections::HashSet;
use vstd::prelude::*;

verus! {

/// The blob indices observed for one block root. The slot is the key under which the cache
/// files the entry.
pub(crate) struct ObservedIndices {
    pub(crate) block_root: Hash256,
    pub(crate) indices: HashSet<u64>,
}

/// Whether some entry of the bucket is for the given block root.
pub(crate) open spec fn has_root(bucket: Seq<ObservedIndices>, block_root: Hash256) -> bool {
    exists|i: int| 0 <= i < bucket.len() && (#[trigger] bucket[i]).block_root == block_root
}

/// The place of the entry for the given block root, where the bucket holds one.
pub(crate) open spec fn position(bucket: Seq<ObservedIndices>, block_root: Hash256) -> int {
    choose|i: int| 0 <= i < bucket.len() && (#[trigger] bucket[i]).block_root == block_root
}

/// No two entries of the bucket are for the same block root.
pub(crate) open spec fn roots_distinct(bucket: Seq<ObservedIndices>) -> bool {
    forall|i: int, j: int|
        0 <= i < j < bucket.len() ==> (#[trigger] bucket[i]).block_root != (
        #[trigger] bucket[j]).block_root
}

/// The observed indices that a bucket holds for each block root.
pub(crate) open spec fn bucket_view(bucket: Seq<ObservedIndices>) -> Map<Hash256, Set<u64>> {
    Map::new(
        |block_root: Hash256| has_root(bucket, block_root),
        |block_root: Hash256| bucket[position(bucket, block_root)].indices@,
    )
}

/// In a bucket without repeated block roots, an entry is found at its own place.
pub(crate) proof fn lemma_position(bucket: Seq<ObservedIndices>, i: int)
    requires
        roots_distinct(bucket),
        0 <= i < bucket.len(),
    ensures
        has_root(bucket, bucket[i].block_root),
        position(bucket, bucket[i].block_root) == i,
{
}

/// Adding an index to one entry of a bucket adds it to that block root's indices, and
/// changes nothing else.
pub(crate) proof fn lemma_bucket_update(
    before: Seq<ObservedIndices>,
    after: Seq<ObservedIndices>,
    i: int,
    index: u64,
)
    requires
        roots_distinct(before),
        0 <= i < before.len(),
        after.len() == before.len(),
        after[i].block_root == before[i].block_root,
        after[i].indices@ == before[i].indices@.insert(index),
        forall|j: int| 0 <= j < before.len() && j != i ==> after[j] == before[j],
    ensures
        roots_distinct(after),
        bucket_view(before).contains_key(before[i].block_root),
        bucket_view(before)[before[i].block_root] == before[i].indices@,
        bucket_view(after) == bucket_view(before).insert(
            before[i].block_root,
            before[i].indices@.insert(index),
        ),
{
    let block_root = before[i].block_root;
    lemma_position(before, i);
    assert forall|j: int, k: int| 0 <= j < k < after.len() implies (#[trigger] after[j]).block_root
        != (#[trigger] after[k]).block_root by {
        assert(after[j].block_root == before[j].block_root);
        assert(after[k].block_root == before[k].block_root);
    }
    lemma_position(after, i);
    let expected = bucket_view(before).insert(block_root, before[i].indices@.insert(index));
    assert forall|r: Hash256| #[trigger]
        bucket_view(after).contains_key(r) implies expected.contains_key(r) by {
        let j = position(after, r);
        assert(before[j].block_root == r);
    }
    assert forall|r: Hash256| #[trigger] expected.contains_key(r) implies bucket_view(
        after,
    ).contains_key(r) && bucket_view(after)[r] == expected[r] by {
        if r != block_root {
            let j = position(before, r);
            lemma_position(before, j);
            assert(after[j].block_root == r);
            lemma_position(after, j);
        }
    }
    assert(bucket_view(after) =~= expected);
}

/// Appending an entry for a block root that a bucket lacks adds that entry's indices, and
/// changes nothing else.
pub(crate) proof fn lemma_bucket_push(before: Seq<ObservedIndices>, entry: ObservedIndices)
    requires
        roots_distinct(before),
        !has_root(before, entry.block_root),
    ensures
        roots_distinct(before.push(entry)),
        bucket_view(before.push(entry)) == bucket_view(before).insert(
            entry.block_root,
            entry.indices@,
        ),
{
    let after = before.push(entry);
    let last = before.len() as int;
    assert forall|j: int, k: int| 0 <= j < k < after.len() implies (#[trigger] after[j]).block_root
        != (#[trigger] after[k]).block_root by {
        assert(after[j] == before[j]);
        if k < last {
            assert(after[k] == before[k]);
        }
    }
    assert(after[last] == entry);
    lemma_position(after, last);
    let expected = bucket_view(before).insert(entry.block_root, entry.indices@);
    assert forall|r: Hash256| #[trigger]
        bucket_view(after).contains_key(r) implies expected.contains_key(r) by {
        let j = position(after, r);
        if j < last {
            assert(before[j].block_root == r);
        }
    }
    assert forall|r: Hash256| #[trigger] expected.contains_key(r) implies bucket_view(
        after,
    ).contains_key(r) && bucket_view(after)[r] == expected[r] by {
        if r != entry.block_root {
            let j = position(before, r);
            lemma_position(before, j);
            assert(after[j] == before[j]);
            lemma_position(after, j);
        }
    }
    assert(bucket_view(after) =~= expected);
}

/// Looks for the entry of a block root in a bucket.
pub(crate) fn find_root(bucket: &Vec<ObservedIndices>, block_root: &Hash256) -> (found: Option<
    usize,
>)
    ensures
        match found {
            Some(i) => i < bucket.len() && bucket[i as int].block_root == *block_root,
            None => !has_root(bucket@, *block_root),
        },
{
    let mut i: usize = 0;
    while i < bucket.len()
        invariant
            i <= bucket.len(),
            forall|j: int| 0 <= j < i ==> (#[trigger] bucket[j]).block_root != *block_root,
        decreases bucket.len() - i,
    {
        if bucket[i].block_root == *block_root {
            return Some(i);
        }
        i += 1;
    }
    None
}

} // verus!
