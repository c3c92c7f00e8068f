use backingstore::StoreError;
use backingstore::blob::Blob;
use backingstore::hash_eq;
use backingstore::node::BackingStore;
use backingstore::store::{
    BlobStorage, MAX_TRANSFER_ATTEMPTS, RemovalOutcome, TransferRetry, TransferStatus,
};

fn digest(data: &[u8]) -> [u8; 32] {
    let mut hasher = <blake2::Blake2b256 as blake2::Digest>::new();
    blake2::Digest::update(&mut hasher, data);
    blake2::Digest::finalize(hasher).into()
}

#[test]
fn blob_sparse_write_zero_fills_gap() {
    let mut b = Blob::zero(2);
    b.write(5, b"abc");
    let bytes = b.read(0, 100);
    assert_eq!(bytes, vec![0, 0, 0, 0, 0, 97, 98, 99]);
    assert_eq!(b.len(), 8);
}

#[test]
fn blob_read_clips_to_length() {
    let b = Blob::new_with_data(b"hello".to_vec());
    assert_eq!(b.read(1, 100), b"ello".to_vec());
    assert_eq!(b.read(0, 2), b"he".to_vec());
    assert_eq!(b.read(5, 10), Vec::<u8>::new());
}

#[test]
fn blob_write_overwrites_in_place() {
    let mut b = Blob::new_with_data(b"hello".to_vec());
    b.write(1, b"ip");
    assert_eq!(b.read(0, 5), b"hiplo".to_vec());
}

#[test]
fn blob_hash_matches_external_digest() {
    let b = Blob::new_with_data(b"hello".to_vec());
    assert_eq!(b.hash(), digest(b"hello"));
    assert_eq!(BlobStorage::zero(0), digest(b""));
    assert_eq!(BlobStorage::zero(3), digest(&[0u8, 0, 0]));
    assert_eq!(BackingStore::blob_zero(3), digest(&[0u8, 0, 0]));
}

#[test]
fn hash_eq_compares_bytes() {
    let a = digest(b"a");
    let b = digest(b"b");
    assert!(hash_eq(&a, &a));
    assert!(!hash_eq(&a, &b));
}

#[test]
fn paths_use_lowercase_hex() {
    let store = BlobStorage::new("/data/blobs", "host:/backup", 1000);
    let h = digest(b"hello");
    assert_eq!(
        store.local_path(&h),
        format!("/data/blobs/{}", hex::encode(h))
    );
    assert_eq!(
        store.remote_path(&h),
        format!("host:/backup/{}", hex::encode(h))
    );
}

#[test]
fn add_blob_then_load_round_trips() {
    let mut store = BlobStorage::new("/data/blobs", "host:/backup", 1000);
    let h = store.add_blob(b"hello", 1);
    assert_eq!(h, digest(b"hello"));
    let blob = store.get_blob(&h, 2).unwrap();
    assert_eq!(blob.read(0, 5), b"hello".to_vec());
}

#[test]
fn storing_twice_is_idempotent() {
    let mut store = BlobStorage::new("/data/blobs", "host:/backup", 1000);
    let h1 = store.add_blob(b"hello", 1);
    let h2 = store.add_blob(b"hello", 2);
    assert_eq!(h1, h2);
    let blob = store.get_blob(&h1, 3).unwrap();
    assert_eq!(blob.read(0, 5), b"hello".to_vec());
    store.do_save();
    // One record, counted once, despite two pending-write entries.
    assert_eq!(store.localbytes(), 5);
}

#[test]
fn missing_content_reports_not_local() {
    let mut store = BlobStorage::new("/data/blobs", "host:/backup", 1000);
    let h = digest(b"absent");
    assert_eq!(store.get_blob(&h, 1).unwrap_err(), StoreError::NotLocal);
}

#[test]
fn fetch_complete_materializes_content() {
    let mut store = BlobStorage::new("/data/blobs", "host:/backup", 1000);
    let h = digest(b"hello");
    assert_eq!(store.get_blob(&h, 1).unwrap_err(), StoreError::NotLocal);
    store.fetch_complete(&h, b"hello".to_vec());
    let blob = store.get_blob(&h, 2).unwrap();
    assert_eq!(blob.read(0, 5), b"hello".to_vec());
}

#[test]
fn cached_write_is_read_back_without_store_access() {
    let mut store = BlobStorage::new("/data/blobs", "host:/backup", 1000);
    let h = store.add_blob(b"abc", 1);
    store.write(1, 0, &h, 0, b"xyz", 2).unwrap();
    // The cached blob is authoritative: the hash handed here is not resident
    // anywhere, so this read can only have come from the cache.
    let bogus = digest(b"never stored");
    assert_eq!(store.read(1, 0, &bogus, 0, 3, 3).unwrap(), b"xyz".to_vec());
}

#[test]
fn write_miss_loads_canonical_content() {
    let mut store = BlobStorage::new("/data/blobs", "host:/backup", 1000);
    let h = store.add_blob(b"abcdef", 1);
    store.write(7, 2, &h, 1, b"XY", 2).unwrap();
    assert_eq!(
        store.read(7, 2, &h, 0, 6, 3).unwrap(),
        b"aXYdef".to_vec()
    );
    // Writing against content that is neither cached nor resident fails.
    let bogus = digest(b"never stored");
    assert_eq!(
        store.write(8, 0, &bogus, 0, b"zz", 4).unwrap_err(),
        StoreError::NotLocal
    );
}

#[test]
fn flush_returns_hashes_and_clears_cache() {
    let mut store = BlobStorage::new("/data/blobs", "host:/backup", 1000);
    let z = store.add_blob(b"abc", 1);
    store.write(1, 0, &z, 0, b"xyz", 2).unwrap();
    let flushed = store.sync_node(1, 3);
    assert_eq!(flushed.len(), 1);
    assert_eq!(flushed[0].0, 0);
    assert_eq!(flushed[0].1, digest(b"xyz"));
    // The cache entry is gone: a read now needs the canonical content.
    let h2 = flushed[0].1;
    assert_eq!(store.read(1, 0, &h2, 0, 3, 4).unwrap(), b"xyz".to_vec());
    let bogus = digest(b"never stored");
    assert_eq!(
        store.read(1, 0, &bogus, 0, 3, 5).unwrap_err(),
        StoreError::NotLocal
    );
}

#[test]
fn flush_of_empty_node_is_empty() {
    let mut store = BlobStorage::new("/data/blobs", "host:/backup", 1000);
    assert_eq!(store.sync_node(42, 1).len(), 0);
}

#[test]
fn upload_queue_drains_once_marked() {
    let mut store = BlobStorage::new("/data/blobs", "host:/backup", 1000);
    let h1 = store.add_blob(b"one", 1);
    let h2 = store.add_blob(b"two", 2);
    store.do_save();
    let pending = store.to_upload();
    assert_eq!(pending.len(), 2);
    assert!(pending.contains(&h1));
    assert!(pending.contains(&h2));
    store.mark_uploaded(&pending);
    assert_eq!(store.to_upload().len(), 0);
}

#[test]
fn transfer_retries_until_success() {
    // The transport fails the first 3 attempts, then succeeds.
    let outcomes = [false, false, false, true];
    let mut retry = TransferRetry::new();
    let mut finished = false;
    for (i, ok) in outcomes.iter().enumerate() {
        match retry.record_attempt(*ok) {
            TransferStatus::Done => {
                assert_eq!(i, 3);
                finished = true;
                break;
            }
            TransferStatus::Retry => assert!(i < 3),
            TransferStatus::GiveUp => panic!("gave up too early"),
        }
    }
    assert!(finished);
}

#[test]
fn transfer_gives_up_after_budget() {
    let mut retry = TransferRetry::new();
    let mut attempts = 0u64;
    loop {
        attempts += 1;
        match retry.record_attempt(false) {
            TransferStatus::Done => panic!("never succeeds"),
            TransferStatus::Retry => continue,
            TransferStatus::GiveUp => break,
        }
    }
    assert_eq!(attempts, MAX_TRANSFER_ATTEMPTS);
    // Nothing was marked synced: the batch stays pending for a later pass.
    let mut store = BlobStorage::new("/data/blobs", "host:/backup", 1000);
    store.add_blob(b"one", 1);
    store.do_save();
    assert_eq!(store.to_upload().len(), 1);
}

#[test]
fn reclamation_deletes_least_recently_touched_first() {
    let mut store = BlobStorage::new("/data/blobs", "host:/backup", 1000);
    let h1 = store.add_blob(&vec![1u8; 700], 1);
    let h2 = store.add_blob(&vec![2u8; 500], 2);
    let h3 = store.add_blob(&vec![3u8; 300], 3);
    store.do_save();
    let pending = store.to_upload();
    store.mark_uploaded(&pending);
    assert_eq!(store.localbytes(), 1500);

    let deficit = store.begin_removals().unwrap();
    assert_eq!(deficit, 500);
    let mut freed = 0u64;
    while freed < deficit {
        let (h, size) = store.next_removal().expect("candidates exhausted");
        assert_eq!(h, h1, "least-recently-touched content goes first");
        assert_eq!(size, 700);
        freed = store.apply_removal(&h, size, RemovalOutcome::Deleted, freed);
    }
    assert_eq!(freed, 700);
    assert_eq!(store.localbytes(), 800);
    assert!(store.localbytes() <= 1000);
    // The deleted content is no longer resident; the others are.
    assert_eq!(store.get_blob(&h1, 9).unwrap_err(), StoreError::NotLocal);
    assert!(store.get_blob(&h2, 9).is_ok());
    assert!(store.get_blob(&h3, 9).is_ok());
}

#[test]
fn reclamation_with_no_candidates_stops_short() {
    let mut store = BlobStorage::new("/data/blobs", "host:/backup", 1000);
    store.add_blob(&vec![1u8; 1500], 1);
    store.do_save();
    // Nothing was uploaded, so nothing may be deleted locally.
    let deficit = store.begin_removals().unwrap();
    assert_eq!(deficit, 500);
    assert!(store.next_removal().is_none());
    assert_eq!(store.localbytes(), 1500);
}

#[test]
fn failed_delete_is_skipped_for_the_pass() {
    let mut store = BlobStorage::new("/data/blobs", "host:/backup", 100);
    let h = store.add_blob(&vec![1u8; 200], 1);
    store.do_save();
    let pending = store.to_upload();
    store.mark_uploaded(&pending);
    assert!(store.begin_removals().is_some());
    let (cand, size) = store.next_removal().unwrap();
    assert_eq!(cand, h);
    let freed = store.apply_removal(&cand, size, RemovalOutcome::Failed, 0);
    assert_eq!(freed, 0, "a failed delete reclaims nothing");
    assert_eq!(store.localbytes(), 200);
    assert!(store.next_removal().is_none(), "skipped for this pass");
    // A later pass considers the candidate again.
    assert!(store.begin_removals().is_some());
    assert!(store.next_removal().is_some());
}

#[test]
fn missing_file_counts_as_reclaimed() {
    let mut store = BlobStorage::new("/data/blobs", "host:/backup", 100);
    let h = store.add_blob(&vec![1u8; 200], 1);
    store.do_save();
    let pending = store.to_upload();
    store.mark_uploaded(&pending);
    store.begin_removals().unwrap();
    let (cand, size) = store.next_removal().unwrap();
    assert_eq!(cand, h);
    let freed = store.apply_removal(&cand, size, RemovalOutcome::Missing, 0);
    assert_eq!(freed, 200);
    assert_eq!(store.localbytes(), 0);
}

#[test]
fn evicted_node_content_is_fetchable_again() {
    let mut store = BlobStorage::new("/data/blobs", "host:/backup", 0);
    let h = store.add_node(5, b"entry", 1);
    store.do_save();
    let pending = store.to_upload();
    store.mark_uploaded(&pending);
    store.begin_removals().unwrap();
    let (cand, size) = store.next_removal().unwrap();
    assert_eq!(cand, h);
    let _ = store.apply_removal(&cand, size, RemovalOutcome::Deleted, 0);
    // The mapping survives; only residency is lost.
    assert_eq!(store.read_node(5, 2).unwrap_err(), StoreError::NotLocal);
    store.fetch_complete(&h, b"entry".to_vec());
    assert_eq!(store.read_node(5, 3).unwrap(), b"entry".to_vec());
}

#[test]
fn nodes_allocate_monotonically_and_resolve() {
    let mut bs = BackingStore::new("/data/blobs", "host:/backup", 1000);
    let n1 = bs.create_node(b"entry one", 1);
    let n2 = bs.create_node(b"entry two", 2);
    assert_eq!(n1, 1);
    assert_eq!(n2, 2);
    assert!(bs.node_exists(n1));
    assert!(!bs.node_exists(99));
    assert_eq!(bs.max_node(), 2);
    assert_eq!(bs.get_node(n1, 3).unwrap(), b"entry one".to_vec());
    assert_eq!(bs.get_node(n2, 3).unwrap(), b"entry two".to_vec());
    assert_eq!(bs.get_node(99, 3).unwrap_err(), StoreError::NotFound);
}

#[test]
fn store_level_node_round_trip() {
    let mut store = BlobStorage::new("/data/blobs", "host:/backup", 1000);
    let h = store.add_node(7, b"payload", 1);
    assert_eq!(h, digest(b"payload"));
    assert!(store.node_exists(7));
    assert_eq!(store.max_node(), 7);
    assert_eq!(store.read_node(7, 2).unwrap(), b"payload".to_vec());
    assert_eq!(store.read_node(8, 2).unwrap_err(), StoreError::NotFound);
}

#[test]
fn saving_a_node_replaces_its_hash() {
    let mut bs = BackingStore::new("/data/blobs", "host:/backup", 1000);
    let n = bs.create_node(b"first", 1);
    bs.save_node(n, b"second", 2);
    assert_eq!(bs.get_node(n, 3).unwrap(), b"second".to_vec());
}

#[test]
fn hash_addressed_write_yields_new_hash() {
    let mut bs = BackingStore::new("/data/blobs", "host:/backup", 1000);
    let h = bs.add_blob(b"abc", 1);
    assert_eq!(bs.read(&h, 0, 3, 2).unwrap(), b"abc".to_vec());
    let h2 = bs.write(&h, 1, b"X", 3).unwrap();
    assert_eq!(h2, digest(b"aXc"));
    // The original content is untouched; the new content is resident too.
    assert_eq!(bs.read(&h, 0, 3, 4).unwrap(), b"abc".to_vec());
    assert_eq!(bs.read(&h2, 0, 3, 4).unwrap(), b"aXc".to_vec());
}
