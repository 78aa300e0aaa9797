use observed_blob_sidecars::{BlobSidecar, Error, Hash256, ObservedBlobSidecars};

const MAX_BLOBS: usize = 6;

fn hash(byte: u8) -> Hash256 {
    Hash256([byte; 32])
}

fn sidecar(block_root: Hash256, slot: u64, index: u64) -> BlobSidecar {
    BlobSidecar { block_root, slot, index }
}

#[test]
fn new_cache_is_empty() {
    let cache = ObservedBlobSidecars::new(MAX_BLOBS);
    assert_eq!(cache.finalized_slot(), 0);
    assert_eq!(cache.max_blobs_per_block(), MAX_BLOBS);
    assert_eq!(cache.len(), 0);
    assert!(cache.keys().is_empty());
    assert_eq!(cache.observed_indices_len(&hash(1), 0), None);
}

#[test]
fn first_observation_is_new_and_every_repetition_is_a_duplicate() {
    let mut cache = ObservedBlobSidecars::new(MAX_BLOBS);
    let s = sidecar(hash(7), 10, 3);
    assert_eq!(cache.observe_sidecar(&s), Ok(false));
    for _ in 0..25 {
        assert_eq!(cache.observe_sidecar(&s), Ok(true));
        assert_eq!(cache.is_known(&s), Ok(true));
    }
    assert_eq!(cache.len(), 1);
    assert_eq!(cache.observed_indices_len(&hash(7), 10), Some(1));
}

#[test]
fn is_known_does_not_record() {
    let mut cache = ObservedBlobSidecars::new(MAX_BLOBS);
    let s = sidecar(hash(7), 10, 3);
    assert_eq!(cache.is_known(&s), Ok(false));
    assert_eq!(cache.is_known(&s), Ok(false));
    assert_eq!(cache.len(), 0);
    assert_eq!(cache.observe_sidecar(&s), Ok(false));
}

#[test]
fn indices_of_one_block_are_independent() {
    let mut cache = ObservedBlobSidecars::new(MAX_BLOBS);
    let zero = sidecar(hash(1), 5, 0);
    let one = sidecar(hash(1), 5, 1);
    assert_eq!(cache.observe_sidecar(&zero), Ok(false));
    assert_eq!(cache.is_known(&one), Ok(false));
    assert_eq!(cache.observe_sidecar(&one), Ok(false));
    assert_eq!(cache.is_known(&zero), Ok(true));
    assert_eq!(cache.is_known(&one), Ok(true));
    assert_eq!(cache.len(), 1);
    assert_eq!(cache.observed_indices_len(&hash(1), 5), Some(2));
}

#[test]
fn every_valid_index_fits_in_one_group() {
    let mut cache = ObservedBlobSidecars::new(MAX_BLOBS);
    for index in 0..MAX_BLOBS as u64 {
        assert_eq!(cache.observe_sidecar(&sidecar(hash(1), 5, index)), Ok(false));
    }
    for index in 0..MAX_BLOBS as u64 {
        assert_eq!(cache.observe_sidecar(&sidecar(hash(1), 5, index)), Ok(true));
    }
    assert_eq!(cache.len(), 1);
    assert_eq!(cache.observed_indices_len(&hash(1), 5), Some(MAX_BLOBS));
}

#[test]
fn same_index_of_other_root_or_slot_is_independent() {
    let mut cache = ObservedBlobSidecars::new(MAX_BLOBS);
    let a = sidecar(hash(1), 5, 2);
    let other_root = sidecar(hash(2), 5, 2);
    let other_slot = sidecar(hash(1), 6, 2);
    assert_eq!(cache.observe_sidecar(&a), Ok(false));
    assert_eq!(cache.is_known(&other_root), Ok(false));
    assert_eq!(cache.is_known(&other_slot), Ok(false));
    assert_eq!(cache.observe_sidecar(&other_root), Ok(false));
    assert_eq!(cache.observe_sidecar(&other_slot), Ok(false));
    assert_eq!(cache.observe_sidecar(&a), Ok(true));
    assert_eq!(cache.len(), 3);
    assert_eq!(cache.observed_indices_len(&hash(1), 5), Some(1));
    assert_eq!(cache.observed_indices_len(&hash(2), 5), Some(1));
    assert_eq!(cache.observed_indices_len(&hash(1), 6), Some(1));
    assert_eq!(cache.observed_indices_len(&hash(2), 6), None);
}

#[test]
fn roots_that_differ_in_one_byte_are_different_blocks() {
    let mut cache = ObservedBlobSidecars::new(MAX_BLOBS);
    let mut bytes = [0u8; 32];
    let first = Hash256(bytes);
    bytes[31] = 1;
    let last_byte = Hash256(bytes);
    bytes[31] = 0;
    bytes[0] = 1;
    let first_byte = Hash256(bytes);
    assert!(first == Hash256([0u8; 32]));
    assert!(first != last_byte);
    assert!(first != first_byte);
    assert_eq!(cache.observe_sidecar(&sidecar(first, 1, 0)), Ok(false));
    assert_eq!(cache.observe_sidecar(&sidecar(last_byte, 1, 0)), Ok(false));
    assert_eq!(cache.observe_sidecar(&sidecar(first_byte, 1, 0)), Ok(false));
    assert_eq!(cache.observe_sidecar(&sidecar(Hash256([0u8; 32]), 1, 0)), Ok(true));
    assert_eq!(cache.len(), 3);
}

#[test]
fn prune_at_zero_changes_nothing() {
    let mut cache = ObservedBlobSidecars::new(MAX_BLOBS);
    assert_eq!(cache.observe_sidecar(&sidecar(hash(1), 0, 0)), Ok(false));
    assert_eq!(cache.observe_sidecar(&sidecar(hash(2), 40, 1)), Ok(false));
    cache.prune(0);
    assert_eq!(cache.finalized_slot(), 0);
    assert_eq!(cache.len(), 2);
    assert_eq!(cache.is_known(&sidecar(hash(1), 0, 0)), Ok(true));
    assert_eq!(cache.is_known(&sidecar(hash(2), 40, 1)), Ok(true));

    cache.prune(10);
    cache.prune(0);
    assert_eq!(cache.finalized_slot(), 10);
    assert_eq!(cache.len(), 1);
    assert_eq!(cache.is_known(&sidecar(hash(2), 40, 1)), Ok(true));
}

#[test]
fn prune_removes_up_to_the_slot_and_keeps_what_is_later() {
    let mut cache = ObservedBlobSidecars::new(MAX_BLOBS);
    for slot in 8..=12u64 {
        assert_eq!(cache.observe_sidecar(&sidecar(hash(1), slot, 0)), Ok(false));
        assert_eq!(cache.observe_sidecar(&sidecar(hash(1), slot, 4)), Ok(false));
        assert_eq!(cache.observe_sidecar(&sidecar(hash(2), slot, 1)), Ok(false));
    }
    assert_eq!(cache.len(), 10);

    cache.prune(10);

    assert_eq!(cache.finalized_slot(), 10);
    assert_eq!(cache.len(), 4);
    for slot in 8..=10u64 {
        assert_eq!(cache.observed_indices_len(&hash(1), slot), None);
        assert_eq!(cache.observed_indices_len(&hash(2), slot), None);
    }
    for slot in 11..=12u64 {
        assert_eq!(cache.observed_indices_len(&hash(1), slot), Some(2));
        assert_eq!(cache.observed_indices_len(&hash(2), slot), Some(1));
        assert_eq!(cache.is_known(&sidecar(hash(1), slot, 0)), Ok(true));
        assert_eq!(cache.is_known(&sidecar(hash(1), slot, 4)), Ok(true));
        assert_eq!(cache.is_known(&sidecar(hash(1), slot, 1)), Ok(false));
        assert_eq!(cache.is_known(&sidecar(hash(2), slot, 1)), Ok(true));
    }
    let mut keys = cache.keys();
    keys.sort_by_key(|k| (k.1, k.0 .0));
    assert_eq!(
        keys,
        vec![(hash(1), 11), (hash(2), 11), (hash(1), 12), (hash(2), 12)]
    );
}

#[test]
fn prune_of_a_cache_with_one_entry_at_slot_zero_empties_it() {
    let mut cache = ObservedBlobSidecars::new(MAX_BLOBS);
    assert_eq!(cache.observe_sidecar(&sidecar(hash(1), 0, 0)), Ok(false));
    cache.prune(32);
    assert_eq!(cache.len(), 0);
    assert!(cache.keys().is_empty());
    assert_eq!(
        cache.observe_sidecar(&sidecar(hash(9), 32, 0)),
        Err(Error::FinalizedBlob { slot: 32, finalized_slot: 32 })
    );
    assert_eq!(cache.observe_sidecar(&sidecar(hash(9), 33, 0)), Ok(false));
}

#[test]
fn entry_after_the_pruned_slot_survives() {
    let mut cache = ObservedBlobSidecars::new(MAX_BLOBS);
    let s = sidecar(hash(3), 96, 5);
    assert_eq!(cache.observe_sidecar(&s), Ok(false));
    cache.prune(64);
    assert_eq!(cache.is_known(&s), Ok(true));
    assert_eq!(cache.observe_sidecar(&s), Ok(true));
    assert_eq!(cache.observed_indices_len(&hash(3), 96), Some(1));
}

#[test]
fn sidecars_at_or_before_the_finalized_slot_are_rejected() {
    let mut cache = ObservedBlobSidecars::new(MAX_BLOBS);
    assert_eq!(cache.observe_sidecar(&sidecar(hash(1), 50, 0)), Ok(false));
    cache.prune(20);
    for slot in [0u64, 1, 19, 20] {
        let s = sidecar(hash(2), slot, 0);
        let error = Error::FinalizedBlob { slot, finalized_slot: 20 };
        assert_eq!(cache.sanitize_blob_sidecar(&s), Err(error));
        assert_eq!(cache.observe_sidecar(&s), Err(error));
        assert_eq!(cache.is_known(&s), Err(error));
    }
    assert_eq!(cache.len(), 1);
    assert_eq!(cache.keys(), vec![(hash(1), 50)]);
    assert_eq!(cache.sanitize_blob_sidecar(&sidecar(hash(2), 21, 0)), Ok(()));
    assert_eq!(cache.is_known(&sidecar(hash(2), 21, 0)), Ok(false));
}

#[test]
fn slot_zero_is_accepted_while_no_finalized_slot_is_known() {
    let mut cache = ObservedBlobSidecars::new(MAX_BLOBS);
    assert_eq!(cache.sanitize_blob_sidecar(&sidecar(hash(1), 0, 0)), Ok(()));
    assert_eq!(cache.observe_sidecar(&sidecar(hash(1), 0, 0)), Ok(false));
    assert_eq!(cache.is_known(&sidecar(hash(1), 0, 0)), Ok(true));
}

#[test]
fn index_at_or_above_the_bound_is_rejected() {
    let mut cache = ObservedBlobSidecars::new(MAX_BLOBS);
    for index in [6u64, 7, 1000, u64::MAX] {
        let s = sidecar(hash(1), 3, index);
        assert_eq!(cache.sanitize_blob_sidecar(&s), Err(Error::InvalidBlobIndex(index)));
        assert_eq!(cache.observe_sidecar(&s), Err(Error::InvalidBlobIndex(index)));
        assert_eq!(cache.is_known(&s), Err(Error::InvalidBlobIndex(index)));
    }
    assert_eq!(cache.len(), 0);
    assert_eq!(cache.observe_sidecar(&sidecar(hash(1), 3, 5)), Ok(false));
}

#[test]
fn index_is_checked_before_the_slot() {
    let mut cache = ObservedBlobSidecars::new(MAX_BLOBS);
    cache.prune(100);
    let s = sidecar(hash(1), 10, 6);
    assert_eq!(cache.observe_sidecar(&s), Err(Error::InvalidBlobIndex(6)));
    assert_eq!(cache.is_known(&s), Err(Error::InvalidBlobIndex(6)));
}

#[test]
fn cache_without_valid_indices_rejects_every_sidecar() {
    let mut cache = ObservedBlobSidecars::new(0);
    assert_eq!(
        cache.observe_sidecar(&sidecar(hash(1), 1, 0)),
        Err(Error::InvalidBlobIndex(0))
    );
    assert_eq!(cache.len(), 0);
}

#[test]
fn prune_may_lower_the_finalized_slot() {
    let mut cache = ObservedBlobSidecars::new(MAX_BLOBS);
    assert_eq!(cache.observe_sidecar(&sidecar(hash(1), 70, 0)), Ok(false));
    cache.prune(64);
    cache.prune(32);
    assert_eq!(cache.finalized_slot(), 32);
    assert_eq!(cache.len(), 1);
    assert_eq!(cache.observe_sidecar(&sidecar(hash(2), 40, 0)), Ok(false));
    assert_eq!(
        cache.observe_sidecar(&sidecar(hash(2), 32, 0)),
        Err(Error::FinalizedBlob { slot: 32, finalized_slot: 32 })
    );
}

#[test]
fn pruned_sidecar_can_not_return() {
    let mut cache = ObservedBlobSidecars::new(MAX_BLOBS);
    let s = sidecar(hash(1), 5, 0);
    assert_eq!(cache.observe_sidecar(&s), Ok(false));
    cache.prune(u64::MAX);
    assert_eq!(cache.len(), 0);
    assert_eq!(
        cache.observe_sidecar(&s),
        Err(Error::FinalizedBlob { slot: 5, finalized_slot: u64::MAX })
    );
    assert_eq!(
        cache.is_known(&sidecar(hash(1), u64::MAX, 0)),
        Err(Error::FinalizedBlob { slot: u64::MAX, finalized_slot: u64::MAX })
    );
}

#[test]
fn keys_list_each_group_once() {
    let mut cache = ObservedBlobSidecars::new(MAX_BLOBS);
    for (byte, slot, index) in [(1u8, 3u64, 0u64), (1, 3, 1), (2, 3, 0), (1, 4, 0), (1, 3, 0)] {
        let _ = cache.observe_sidecar(&sidecar(hash(byte), slot, index));
    }
    let mut keys = cache.keys();
    keys.sort_by_key(|k| (k.1, k.0 .0));
    assert_eq!(keys, vec![(hash(1), 3), (hash(2), 3), (hash(1), 4)]);
    assert_eq!(cache.len(), 3);
}
