//! The content store: hash-addressed, deduplicated content kept resident
//! locally, served through the block cache, with pending-write and recency
//! accumulators, upload and eviction bookkeeping, and the retry policy for
//! remote transfers. Durable mirroring of resident content and the remote
//! transfers themselves are performed by the embedding program, which hands
//! outcomes back to the store.

use vstd::prelude::*;
use crate::{BlobHash, StoreError, hash_eq};
use crate::blob::{Blob, read_end, write_result};
use crate::cache::BlockCache;
use crate::cache::keeps_others;
use crate::digest::{digest_of, hex_of, join_hex_name};
use crate::metadata::{MetadataIndex, add_sat, sub_sat, has_present_rec, hash_listed,
    pending_upload, deletable, is_oldest};

verus! {

/// How many times a remote transfer is attempted before giving up.
pub const MAX_TRANSFER_ATTEMPTS: u64 = 10;

/// What a transfer retry loop should do after an attempt.
#[derive(Clone, Copy, Debug, PartialEq, Eq, Structural)]
pub enum TransferStatus {
    Done,
    Retry,
    GiveUp,
}

/// The bounded-retry policy for remote transfers: retry a failed attempt
/// until the attempt budget is spent.
pub struct TransferRetry {
    attempts: u64,
}

impl TransferRetry {
    /// Attempts recorded so far.
    pub closed spec fn spec_attempts(&self) -> u64 {
        self.attempts
    }

    pub fn new() -> (r: Self)
        ensures
            r.spec_attempts() == 0,
    {
        TransferRetry { attempts: 0 }
    }

    /// Records one attempt's outcome and decides: done on success, retry
    /// while attempts remain, give up once the budget is spent.
    pub fn record_attempt(&mut self, ok: bool) -> (s: TransferStatus)
        requires
            old(self).spec_attempts() < u64::MAX,
        ensures
            final(self).spec_attempts() == old(self).spec_attempts() + 1,
            s == (if ok {
                TransferStatus::Done
            } else if old(self).spec_attempts() + 1 < MAX_TRANSFER_ATTEMPTS {
                TransferStatus::Retry
            } else {
                TransferStatus::GiveUp
            }),
    {
        self.attempts = self.attempts + 1;
        if ok {
            TransferStatus::Done
        } else if self.attempts < MAX_TRANSFER_ATTEMPTS {
            TransferStatus::Retry
        } else {
            TransferStatus::GiveUp
        }
    }
}

/// What happened when the embedding program tried to delete a local file
/// during reclamation.
#[derive(Clone, Copy, Debug, PartialEq, Eq, Structural)]
pub enum RemovalOutcome {
    /// The file was deleted; its bytes count as reclaimed.
    Deleted,
    /// The file was already gone; counted as reclaimed.
    Missing,
    /// The delete failed; the space is not counted and the candidate is
    /// skipped for the rest of this pass.
    Failed,
}

/// Some resident content is recorded under `h`.
pub open spec fn file_listed(fs: Seq<(BlobHash, Vec<u8>)>, h: BlobHash) -> bool {
    exists|j: int| 0 <= j < fs.len() && (#[trigger] fs[j]).0 == h
}

/// The position of the content recorded under `h`.
pub open spec fn file_index(fs: Seq<(BlobHash, Vec<u8>)>, h: BlobHash) -> int {
    choose|j: int| 0 <= j < fs.len() && (#[trigger] fs[j]).0 == h
}

/// The bytes of the content recorded under `h`.
pub open spec fn file_bytes(fs: Seq<(BlobHash, Vec<u8>)>, h: BlobHash) -> Seq<u8> {
    fs[file_index(fs, h)].1@
}

/// No hash is recorded twice.
pub open spec fn files_unique(fs: Seq<(BlobHash, Vec<u8>)>) -> bool {
    forall|i: int, j: int| 0 <= i < j < fs.len() ==> (#[trigger] fs[i]).0 != (#[trigger] fs[j]).0
}

/// With unique hashes, a matching position is the content's only position.
pub proof fn lemma_file_index_is(fs: Seq<(BlobHash, Vec<u8>)>, h: BlobHash, j: int)
    requires
        files_unique(fs),
        0 <= j < fs.len(),
        fs[j].0 == h,
    ensures
        file_listed(fs, h),
        file_index(fs, h) == j,
{
    assert(file_listed(fs, h));
    let w = file_index(fs, h);
    assert(0 <= w < fs.len() && fs[w].0 == h);
    if w != j {
        assert(false);
    }
}

/// Local, hash-addressed storage of content, with its cache, its metadata
/// index, and its write-back and recency accumulators.
pub struct BlobStorage {
    maxbytes: u64,
    source: String,
    server: String,
    index: MetadataIndex,
    written_blobs: Vec<(BlobHash, u64, i64)>,
    touched_blobs: Vec<(BlobHash, i64)>,
    files: Vec<(BlobHash, Vec<u8>)>,
    cache: BlockCache,
}

impl BlobStorage {
    /// The local byte budget.
    pub closed spec fn spec_maxbytes(&self) -> u64 {
        self.maxbytes
    }

    /// The local content directory path.
    pub closed spec fn spec_source(&self) -> Seq<char> {
        self.source@
    }

    /// The remote base address.
    pub closed spec fn spec_server(&self) -> Seq<char> {
        self.server@
    }

    /// The metadata index.
    pub closed spec fn spec_index(&self) -> MetadataIndex {
        self.index
    }

    /// The pending-write accumulator.
    pub closed spec fn written(&self) -> Seq<(BlobHash, u64, i64)> {
        self.written_blobs@
    }

    /// The touched-blob accumulator.
    pub closed spec fn touched(&self) -> Seq<(BlobHash, i64)> {
        self.touched_blobs@
    }

    /// The resident local content, by hash.
    pub closed spec fn files(&self) -> Seq<(BlobHash, Vec<u8>)> {
        self.files@
    }

    /// The block cache.
    pub closed spec fn spec_cache(&self) -> BlockCache {
        self.cache
    }

    pub open spec fn wf(&self) -> bool {
        &&& self.spec_index().wf()
        &&& self.spec_cache().wf()
        &&& files_unique(self.files())
        &&& touched_unique(self.touched())
    }

    pub fn new(source: &str, server: &str, maxbytes: u64) -> (r: Self)
        ensures
            r.wf(),
            r.spec_source() == source@,
            r.spec_server() == server@,
            r.spec_maxbytes() == maxbytes,
            r.files().len() == 0,
            r.written().len() == 0,
            r.touched().len() == 0,
            r.spec_index().records().len() == 0,
            r.spec_index().node_pairs().len() == 0,
            r.spec_index().tracked_local_bytes() == 0,
            forall|n: u64, b: usize| !r.spec_cache().has_cached(n, b),
    {
        BlobStorage {
            maxbytes,
            source: source.to_owned(),
            server: server.to_owned(),
            index: MetadataIndex::new(),
            written_blobs: Vec::new(),
            touched_blobs: Vec::new(),
            files: Vec::new(),
            cache: BlockCache::new(),
        }
    }

    /// The local path of the content file for `hash`: the content directory,
    /// a slash, and the lowercase hex encoding of the hash.
    pub fn local_path(&self, hash: &BlobHash) -> (r: String)
        ensures
            r@ == self.spec_source() + seq!['/'] + hex_of(hash@),
    {
        join_hex_name(self.source.as_str(), hash)
    }

    /// The remote address of the content for `hash`: the remote base, a
    /// slash, and the lowercase hex encoding of the hash.
    pub fn remote_path(&self, hash: &BlobHash) -> (r: String)
        ensures
            r@ == self.spec_server() + seq!['/'] + hex_of(hash@),
    {
        join_hex_name(self.server.as_str(), hash)
    }

    /// Position of the resident content for `hash`, if any.
    fn find_file(&self, hash: &BlobHash) -> (r: Option<usize>)
        ensures
            (match r {
                Some(j) => j < self.files().len() && self.files()[j as int].0 == *hash,
                None => !file_listed(self.files(), *hash),
            }),
    {
        let n = self.files.len();
        let mut j: usize = 0;
        while j < n
            invariant
                n == self.files().len(),
                j <= n,
                forall|i: int| 0 <= i < j ==> (#[trigger] self.files()[i]).0 != *hash,
            decreases n - j,
        {
            if hash_eq(&self.files[j].0, hash) {
                return Some(j);
            }
            j = j + 1;
        }
        None
    }

    /// Records `hash` as touched at `now` in the accumulator, replacing an
    /// earlier time.
    fn touch(&mut self, hash: &BlobHash, now: i64)
        requires
            old(self).wf(),
        ensures
            final(self).wf(),
            touch_upserted(old(self).touched(), final(self).touched(), *hash, now),
            final(self).files() == old(self).files(),
            final(self).written() == old(self).written(),
            final(self).spec_index() == old(self).spec_index(),
            final(self).spec_cache() == old(self).spec_cache(),
            final(self).spec_maxbytes() == old(self).spec_maxbytes(),
            final(self).spec_source() == old(self).spec_source(),
            final(self).spec_server() == old(self).spec_server(),
    {
        let n = self.touched_blobs.len();
        let mut j: usize = 0;
        while j < n
            invariant
                old(self).wf(),
                n == self.touched_blobs.len(),
                j <= n,
                *self == *old(self),
                forall|i: int| 0 <= i < j ==> (#[trigger] self.touched()[i]).0 != *hash,
            decreases n - j,
        {
            if hash_eq(&self.touched_blobs[j].0, hash) {
                self.touched_blobs.set(j, (*hash, now));
                proof {
                    assert(self.touched() == old(self).touched().update(j as int, (*hash, now)));
                    assert forall|a: int, b: int|
                        0 <= a < b < self.touched().len() implies (#[trigger] self.touched()[a]).0
                        != (#[trigger] self.touched()[b]).0 by {
                        assert(old(self).touched()[a].0 != old(self).touched()[b].0);
                    }
                }
                return ;
            }
            j = j + 1;
        }
        self.touched_blobs.push((*hash, now));
        proof {
            assert(self.touched()[self.touched().len() - 1].0 == *hash);
            assert forall|a: int, b: int|
                0 <= a < b < self.touched().len() implies (#[trigger] self.touched()[a]).0 != (
            #[trigger] self.touched()[b]).0 by {
                if b < self.touched().len() - 1 {
                    assert(old(self).touched()[a].0 != old(self).touched()[b].0);
                } else {
                    assert(old(self).touched()[a].0 != *hash);
                }
            }
        }
    }

    /// Loads the resident content for `hash` as a fresh blob, recording the
    /// access in the touched accumulator first. `NotLocal` when the content
    /// is not resident: the caller may fetch it remotely and hand the bytes
    /// to `fetch_complete` before retrying.
    pub fn get_blob(&mut self, hash: &BlobHash, now: i64) -> (r: Result<Blob, StoreError>)
        requires
            old(self).wf(),
        ensures
            final(self).wf(),
            touch_upserted(old(self).touched(), final(self).touched(), *hash, now),
            final(self).files() == old(self).files(),
            final(self).written() == old(self).written(),
            final(self).spec_index() == old(self).spec_index(),
            final(self).spec_cache() == old(self).spec_cache(),
            final(self).spec_maxbytes() == old(self).spec_maxbytes(),
            final(self).spec_source() == old(self).spec_source(),
            final(self).spec_server() == old(self).spec_server(),
            r is Ok ==> file_listed(old(self).files(), *hash) && r.unwrap()@ == file_bytes(
                old(self).files(),
                *hash,
            ),
            r is Err ==> r.unwrap_err() == StoreError::NotLocal && !file_listed(
                old(self).files(),
                *hash,
            ),
    {
        self.touch(hash, now);
        match self.find_file(hash) {
            Some(j) => {
                proof {
                    lemma_file_index_is(self.files(), *hash, j as int);
                }
                let bytes = copy_bytes(&self.files[j].1);
                Ok(Blob::new_with_data(bytes))
            },
            None => Err(StoreError::NotLocal),
        }
    }

    /// Persists a blob under its content hash: computes the digest, records
    /// the content as resident only if that hash is absent (a second store
    /// of the same hash leaves the stored content untouched), and appends a
    /// pending-write record either way.
    pub fn store_blob(&mut self, blob: &Blob, now: i64) -> (r: BlobHash)
        requires
            old(self).wf(),
            blob@.len() <= u64::MAX,
        ensures
            final(self).wf(),
            r@ == digest_of(blob@),
            file_listed(final(self).files(), r),
            !file_listed(old(self).files(), r) ==> final(self).files() == old(self).files().push(
                (r, blob_vec(final(self).files(), r)),
            ) && file_bytes(final(self).files(), r) == blob@,
            file_listed(old(self).files(), r) ==> final(self).files() == old(self).files(),
            forall|h: BlobHash|
                file_listed(old(self).files(), h) ==> #[trigger] file_listed(
                    final(self).files(),
                    h,
                ) && file_bytes(final(self).files(), h) == file_bytes(old(self).files(), h),
            final(self).written() == old(self).written().push(
                (r, blob@.len() as u64, now),
            ),
            final(self).touched() == old(self).touched(),
            final(self).spec_index() == old(self).spec_index(),
            final(self).spec_cache() == old(self).spec_cache(),
            final(self).spec_maxbytes() == old(self).spec_maxbytes(),
            final(self).spec_source() == old(self).spec_source(),
            final(self).spec_server() == old(self).spec_server(),
    {
        let hash = blob.hash();
        let len = blob.len();
        match self.find_file(&hash) {
            Some(j) => {
                proof {
                    lemma_file_index_is(self.files(), hash, j as int);
                }
                self.written_blobs.push((hash, len as u64, now));
                proof {
                    lemma_files_preserved(old(self).files(), self.files());
                }
                hash
            },
            None => {
                let bytes = blob.read(0, len);
                proof {
                    assert(bytes@ =~= blob@);
                }
                self.files.push((hash, bytes));
                self.written_blobs.push((hash, len as u64, now));
                proof {
                    assert(self.files()[self.files().len() - 1].0 == hash);
                    assert forall|a: int, b: int|
                        0 <= a < b < self.files().len() implies (#[trigger] self.files()[a]).0 != (
                    #[trigger] self.files()[b]).0 by {
                        if b < self.files().len() - 1 {
                            assert(old(self).files()[a].0 != old(self).files()[b].0);
                        } else {
                            assert(old(self).files()[a].0 != hash);
                        }
                    }
                    lemma_file_index_is(self.files(), hash, self.files().len() - 1);
                    lemma_files_preserved(old(self).files(), self.files());
                }
                hash
            },
        }
    }

    /// The content hash of `size` zero bytes.
    pub fn zero(size: usize) -> (r: BlobHash)
        ensures
            r@ == digest_of(Seq::new(size as nat, |i: int| 0u8)),
    {
        Blob::zero(size).hash()
    }

    /// Stores raw bytes as a blob and returns their content hash.
    pub fn add_blob(&mut self, data: &[u8], now: i64) -> (r: BlobHash)
        requires
            old(self).wf(),
            data@.len() <= u64::MAX,
        ensures
            final(self).wf(),
            r@ == digest_of(data@),
            file_listed(final(self).files(), r),
            !file_listed(old(self).files(), r) ==> file_bytes(final(self).files(), r) == data@,
            file_listed(old(self).files(), r) ==> final(self).files() == old(self).files(),
            forall|h: BlobHash|
                file_listed(old(self).files(), h) ==> #[trigger] file_listed(
                    final(self).files(),
                    h,
                ) && file_bytes(final(self).files(), h) == file_bytes(old(self).files(), h),
            final(self).written() == old(self).written().push((r, data@.len() as u64, now)),
            final(self).touched() == old(self).touched(),
            final(self).spec_index() == old(self).spec_index(),
            final(self).spec_cache() == old(self).spec_cache(),
    {
        let blob = Blob::new_with_data(slice_to_vec(data));
        self.store_blob(&blob, now)
    }
    /// Reads up to `bytes` bytes at `offset` for (node, block): from the
    /// cached blob if one is there (the unflushed edit is authoritative and
    /// nothing else is consulted or changed), else from the resident content
    /// for `hash`, recording the access. `NotLocal` when neither holds.
    pub fn read(
        &mut self,
        node: u64,
        block: usize,
        hash: &BlobHash,
        offset: usize,
        bytes: usize,
        now: i64,
    ) -> (r: Result<Vec<u8>, StoreError>)
        requires
            old(self).wf(),
            old(self).spec_cache().has_cached(node, block) ==> offset <= old(self).spec_cache().cached_bytes(node, block).len(),
            !old(self).spec_cache().has_cached(node, block) && file_listed(
                old(self).files(),
                *hash,
            ) ==> offset <= file_bytes(old(self).files(), *hash).len(),
        ensures
            final(self).wf(),
            old(self).spec_cache().has_cached(node, block) ==> *final(self) == *old(self) && (
            r matches Ok(v) && v@ == old(self).spec_cache().cached_bytes(node, block).subrange(
                offset as int,
                read_end(
                    old(self).spec_cache().cached_bytes(node, block).len(),
                    offset as nat,
                    bytes as nat,
                ),
            )),
            !old(self).spec_cache().has_cached(node, block) && file_listed(
                old(self).files(),
                *hash,
            ) ==> (r matches Ok(v) && v@ == file_bytes(old(self).files(), *hash).subrange(
                offset as int,
                read_end(file_bytes(old(self).files(), *hash).len(), offset as nat, bytes as nat),
            )) && touch_upserted(old(self).touched(), final(self).touched(), *hash, now),
            !old(self).spec_cache().has_cached(node, block) && !file_listed(
                old(self).files(),
                *hash,
            ) ==> (r matches Err(e) && e == StoreError::NotLocal),
            final(self).files() == old(self).files(),
            final(self).written() == old(self).written(),
            final(self).spec_index() == old(self).spec_index(),
            final(self).spec_cache() == old(self).spec_cache(),
    {
        match self.cache.read_cached(node, block, offset, bytes) {
            Some(v) => Ok(v),
            None => {
                let blob = match self.get_blob(hash, now) {
                    Ok(b) => b,
                    Err(e) => {
                        return Err(e);
                    },
                };
                Ok(blob.read(offset, bytes))
            },
        }
    }

    /// Writes `data` at `offset` for (node, block): into the cached blob in
    /// place if one is there, else onto a copy of the resident content for
    /// `hash`, which is then cached for (node, block). Only that cache entry
    /// changes; resident content is never modified. `NotLocal` when there is
    /// neither a cached blob nor resident content.
    pub fn write(
        &mut self,
        node: u64,
        block: usize,
        hash: &BlobHash,
        offset: usize,
        data: &[u8],
        now: i64,
    ) -> (r: Result<(), StoreError>)
        requires
            old(self).wf(),
            offset + data@.len() <= usize::MAX,
        ensures
            final(self).wf(),
            old(self).spec_cache().has_cached(node, block) ==> r is Ok && final(self).spec_cache().has_cached(node, block) && final(self).spec_cache().cached_bytes(
                node,
                block,
            ) == write_result(
                old(self).spec_cache().cached_bytes(node, block),
                offset as nat,
                data@,
            ) && final(self).touched() == old(self).touched(),
            !old(self).spec_cache().has_cached(node, block) && file_listed(
                old(self).files(),
                *hash,
            ) ==> r is Ok && final(self).spec_cache().has_cached(node, block) && final(self).spec_cache().cached_bytes(node, block) == write_result(
                file_bytes(old(self).files(), *hash),
                offset as nat,
                data@,
            ) && touch_upserted(old(self).touched(), final(self).touched(), *hash, now),
            !old(self).spec_cache().has_cached(node, block) && !file_listed(
                old(self).files(),
                *hash,
            ) ==> (r matches Err(e) && e == StoreError::NotLocal) && final(self).spec_cache()
                == old(self).spec_cache() && touch_upserted(
                old(self).touched(),
                final(self).touched(),
                *hash,
                now,
            ),
            r is Ok ==> keeps_others(
                final(self).spec_cache(),
                old(self).spec_cache(),
                node,
                block,
            ),
            final(self).files() == old(self).files(),
            final(self).written() == old(self).written(),
            final(self).spec_index() == old(self).spec_index(),
    {
        let hit = self.cache.write_cached(node, block, offset, data);
        if hit {
            return Ok(());
        }
        let mut blob = match self.get_blob(hash, now) {
            Ok(b) => b,
            Err(e) => {
                proof {
                    assert(keeps_others(
                        final(self).spec_cache(),
                        old(self).spec_cache(),
                        node,
                        block,
                    ));
                }
                return Err(e);
            },
        };
        blob.write(offset, data);
        self.cache.insert(node, block, blob);
        Ok(())
    }

    /// Flushes `node`: removes all of its cached blocks and persists each
    /// through the store, assigning every block a fresh content hash over
    /// its current bytes. Returns the (block, hash) pairs; afterwards the
    /// node has no cached blocks and every other node's entries are kept.
    #[verifier::rlimit(100)]
    #[verifier::spinoff_prover]
    pub fn sync_node(&mut self, node: u64, now: i64) -> (r: Vec<(usize, BlobHash)>)
        requires
            old(self).wf(),
        ensures
            final(self).wf(),
            forall|b: usize| !final(self).spec_cache().has_cached(node, b),
            forall|n: u64, b: usize|
                n != node ==> (#[trigger] final(self).spec_cache().has_cached(n, b)) == old(self).spec_cache().has_cached(n, b) && (old(self).spec_cache().has_cached(n, b) ==> final(self).spec_cache().cached_bytes(n, b) == old(self).spec_cache().cached_bytes(n, b)),
            forall|i: int|
                0 <= i < r@.len() ==> old(self).spec_cache().has_cached(
                    node,
                    (#[trigger] r@[i]).0,
                ) && r@[i].1@ == digest_of(
                    old(self).spec_cache().cached_bytes(node, r@[i].0),
                ) && file_listed(final(self).files(), r@[i].1),
            forall|b: usize|
                old(self).spec_cache().has_cached(node, b) ==> exists|i: int|
                    0 <= i < r@.len() && (#[trigger] r@[i]).0 == b,
            forall|i: int, j: int|
                0 <= i < j < r@.len() ==> (#[trigger] r@[i]).0 != (#[trigger] r@[j]).0,
            forall|h: BlobHash|
                file_listed(old(self).files(), h) ==> #[trigger] file_listed(
                    final(self).files(),
                    h,
                ) && file_bytes(final(self).files(), h) == file_bytes(old(self).files(), h),
            final(self).written().len() == old(self).written().len() + r@.len(),
            forall|i: int|
                0 <= i < old(self).written().len() ==> #[trigger] final(self).written()[i] == old(self).written()[i],
            forall|i: int|
                0 <= i < r@.len() ==> final(self).written()[old(self).written().len() + i] == ((
                #[trigger] r@[i]).1, old(self).spec_cache().cached_bytes(node, r@[i].0).len() as u64, now),
            forall|i: int|
                0 <= i < r@.len() && !file_listed(old(self).files(), (#[trigger] r@[i]).1) ==> exists|j: int|
                    0 <= j < r@.len() && (#[trigger] r@[j]).1 == r@[i].1 && file_bytes(
                        final(self).files(),
                        r@[i].1,
                    ) == old(self).spec_cache().cached_bytes(node, r@[j].0),
            final(self).touched() == old(self).touched(),
            final(self).spec_index() == old(self).spec_index(),
    {
        let taken = self.cache.take_node(node);
        let ghost cache1 = self.spec_cache();
        let mut r: Vec<(usize, BlobHash)> = Vec::new();
        let mut k: usize = 0;
        let n = taken.len();
        while k < n
            invariant
                old(self).wf(),
                self.wf(),
                n == taken@.len(),
                k <= n,
                r@.len() == k,
                self.spec_cache() == cache1,
                forall|b: usize| !cache1.has_cached(node, b),
                forall|n2: u64, b: usize|
                    n2 != node ==> (#[trigger] cache1.has_cached(n2, b)) == old(self).spec_cache().has_cached(n2, b) && (old(self).spec_cache().has_cached(n2, b)
                        ==> cache1.cached_bytes(n2, b) == old(self).spec_cache().cached_bytes(
                        n2,
                        b,
                    )),
                forall|i: int|
                    0 <= i < taken@.len() ==> old(self).spec_cache().has_cached(
                        node,
                        (#[trigger] taken@[i]).0,
                    ) && taken@[i].1@ == old(self).spec_cache().cached_bytes(node, taken@[i].0),
                forall|i: int, j: int|
                    0 <= i < j < taken@.len() ==> (#[trigger] taken@[i]).0 != (
                    #[trigger] taken@[j]).0,
                forall|b: usize|
                    old(self).spec_cache().has_cached(node, b) ==> exists|i: int|
                        0 <= i < taken@.len() && (#[trigger] taken@[i]).0 == b,
                forall|i: int| 0 <= i < k ==> (#[trigger] r@[i]).0 == taken@[i].0,
                forall|i: int|
                    0 <= i < k ==> (#[trigger] r@[i]).1@ == digest_of(taken@[i].1@) && file_listed(
                        self.files(),
                        r@[i].1,
                    ),
                forall|h: BlobHash|
                    file_listed(old(self).files(), h) ==> #[trigger] file_listed(
                        self.files(),
                        h,
                    ) && file_bytes(self.files(), h) == file_bytes(old(self).files(), h),
                self.written().len() == old(self).written().len() + k,
                forall|i: int|
                    0 <= i < old(self).written().len() ==> #[trigger] self.written()[i] == old(self).written()[i],
                forall|i: int|
                    0 <= i < k ==> self.written()[old(self).written().len() + i] == ((
                    #[trigger] r@[i]).1, taken@[i].1@.len() as u64, now),
                forall|h: BlobHash|
                    #[trigger] file_listed(self.files(), h) && !file_listed(old(self).files(), h)
                        ==> exists|j: int|
                        0 <= j < k && (#[trigger] r@[j]).1 == h && file_bytes(self.files(), h)
                            == taken@[j].1@,
                self.touched() == old(self).touched(),
                self.spec_index() == old(self).spec_index(),
                self.spec_maxbytes() == old(self).spec_maxbytes(),
                self.spec_source() == old(self).spec_source(),
                self.spec_server() == old(self).spec_server(),
            decreases n - k,
        {
            let ghost prev = *self;
            let ghost prev_r = r@;
            let blob_len = taken[k].1.len();
            proof {
                assert(blob_len as int <= u64::MAX as int);
            }
            let h = self.store_blob(&taken[k].1, now);
            r.push((taken[k].0, h));
            proof {
                assert(r@[r@.len() - 1] == (taken@[k as int].0, h));
                assert forall|i: int|
                    0 <= i < k + 1 implies (#[trigger] r@[i]).1@ == digest_of(taken@[i].1@)
                    && file_listed(self.files(), r@[i].1) by {
                    if i < k {
                        assert(file_listed(prev.files(), r@[i].1));
                    }
                }
                assert(self.written() == prev.written().push((h, blob_len as u64, now)));
                assert forall|i: int|
                    0 <= i < k + 1 implies self.written()[old(self).written().len() + i] == ((
                #[trigger] r@[i]).1, taken@[i].1@.len() as u64, now) by {
                    if i < k {
                        assert(r@[i] == prev_r[i]);
                        assert(self.written()[old(self).written().len() + i] == prev.written()[old(self).written().len() + i]);
                    } else {
                        assert(self.written()[self.written().len() - 1] == (h, blob_len as u64, now));
                        assert(r@[i].1 == h);
                        assert(taken@[i].1@.len() == blob_len as int);
                    }
                }
                assert forall|h2: BlobHash|
                    #[trigger] file_listed(self.files(), h2) && !file_listed(old(self).files(), h2)
                        implies exists|j: int|
                        0 <= j < k + 1 && (#[trigger] r@[j]).1 == h2 && file_bytes(self.files(), h2)
                            == taken@[j].1@ by {
                    if file_listed(prev.files(), h2) {
                        let j0 = choose|j: int|
                            0 <= j < k && (#[trigger] prev_r[j]).1 == h2 && file_bytes(
                                prev.files(),
                                h2,
                            ) == taken@[j].1@;
                        assert(r@[j0] == prev_r[j0]);
                        assert(file_bytes(self.files(), h2) == file_bytes(prev.files(), h2));
                    } else {
                        if file_listed(prev.files(), h) {
                            assert(self.files() == prev.files());
                            assert(false);
                        } else {
                            assert(self.files() == prev.files().push(
                                (h, blob_vec(self.files(), h)),
                            ));
                            let w = choose|j: int|
                                0 <= j < self.files().len() && (#[trigger] self.files()[j]).0 == h2;
                            if w < prev.files().len() {
                                assert(self.files()[w] == prev.files()[w]);
                                assert(file_listed(prev.files(), h2));
                                assert(false);
                            }
                            assert(h2 == h);
                            assert(r@[k as int].1 == h);
                            assert(file_bytes(self.files(), h) == taken@[k as int].1@);
                        }
                    }
                }
            }
            k = k + 1;
        }
        proof {
            assert forall|i: int|
                0 <= i < r@.len() implies old(self).spec_cache().has_cached(
                node,
                (#[trigger] r@[i]).0,
            ) && r@[i].1@ == digest_of(
                old(self).spec_cache().cached_bytes(node, r@[i].0),
            ) && file_listed(self.files(), r@[i].1) by {
                assert(r@[i].0 == taken@[i].0);
                assert(taken@[i].1@ == old(self).spec_cache().cached_bytes(node, taken@[i].0));
            }
            assert forall|i: int, j: int|
                0 <= i < j < r@.len() implies (#[trigger] r@[i]).0 != (#[trigger] r@[j]).0 by {
                assert(r@[i].0 == taken@[i].0 && r@[j].0 == taken@[j].0);
            }
            assert forall|b: usize|
                old(self).spec_cache().has_cached(node, b) implies exists|i: int|
                    0 <= i < r@.len() && (#[trigger] r@[i]).0 == b by {
                let i0 = choose|i: int| 0 <= i < taken@.len() && (#[trigger] taken@[i]).0 == b;
                assert(r@[i0].0 == b);
            }
            assert forall|i: int|
                0 <= i < r@.len() implies self.written()[old(self).written().len() + i] == ((
            #[trigger] r@[i]).1, old(self).spec_cache().cached_bytes(node, r@[i].0).len() as u64, now) by {
                assert(r@[i].0 == taken@[i].0);
                assert(taken@[i].1@ == old(self).spec_cache().cached_bytes(node, taken@[i].0));
            }
            assert forall|i: int|
                0 <= i < r@.len() && !file_listed(old(self).files(), (#[trigger] r@[i]).1) implies
                exists|j: int|
                    0 <= j < r@.len() && (#[trigger] r@[j]).1 == r@[i].1 && file_bytes(
                        self.files(),
                        r@[i].1,
                    ) == old(self).spec_cache().cached_bytes(node, r@[j].0) by {
                assert(file_listed(self.files(), r@[i].1));
                let j0 = choose|j: int|
                    0 <= j < taken@.len() && (#[trigger] r@[j]).1 == r@[i].1 && file_bytes(
                        self.files(),
                        r@[i].1,
                    ) == taken@[j].1@;
                assert(r@[j0].0 == taken@[j0].0);
                assert(taken@[j0].1@ == old(self).spec_cache().cached_bytes(node, taken@[j0].0));
            }
        }
        r
    }

    /// Hands freshly fetched remote content to the store: the bytes become
    /// resident under `hash` (unless that hash is already resident) and the
    /// content is marked live again in the index.
    pub fn fetch_complete(&mut self, hash: &BlobHash, data: Vec<u8>)
        requires
            old(self).wf(),
        ensures
            final(self).wf(),
            file_listed(final(self).files(), *hash),
            !file_listed(old(self).files(), *hash) ==> file_bytes(final(self).files(), *hash)
                == data@,
            file_listed(old(self).files(), *hash) ==> final(self).files() == old(self).files(),
            forall|h: BlobHash|
                file_listed(old(self).files(), h) ==> #[trigger] file_listed(
                    final(self).files(),
                    h,
                ) && file_bytes(final(self).files(), h) == file_bytes(old(self).files(), h),
            final(self).spec_index().records().len() == old(self).spec_index().records().len(),
            forall|j: int|
                0 <= j < old(self).spec_index().records().len() && (#[trigger] old(self).spec_index().records()[j]).hash != *hash ==> final(self).spec_index().records()[j]
                    == old(self).spec_index().records()[j],
            forall|j: int|
                0 <= j < old(self).spec_index().records().len() && (#[trigger] old(self).spec_index().records()[j]).hash == *hash ==> final(self).spec_index().records()[j]
                    == (crate::metadata::BlobRecord {
                    present: true,
                    ..old(self).spec_index().records()[j]
                }),
            final(self).spec_cache() == old(self).spec_cache(),
            final(self).written() == old(self).written(),
            final(self).touched() == old(self).touched(),
    {
        match self.find_file(hash) {
            Some(_) => {},
            None => {
                self.files.push((*hash, data));
                proof {
                    assert(self.files()[self.files().len() - 1].0 == *hash);
                    assert forall|a: int, b: int|
                        0 <= a < b < self.files().len() implies (#[trigger] self.files()[a]).0 != (
                    #[trigger] self.files()[b]).0 by {
                        if b < self.files().len() - 1 {
                            assert(old(self).files()[a].0 != old(self).files()[b].0);
                        } else {
                            assert(old(self).files()[a].0 != *hash);
                        }
                    }
                    lemma_file_index_is(self.files(), *hash, self.files().len() - 1);
                    lemma_files_preserved(old(self).files(), self.files());
                }
            },
        }
        self.index.mark_deleted(hash, false);
        proof {
            assert forall|j: int|
                0 <= j < old(self).spec_index().records().len() && (#[trigger] old(self).spec_index().records()[j]).hash == *hash implies final(self).spec_index().records()[j] == (crate::metadata::BlobRecord {
                present: true,
                ..old(self).spec_index().records()[j]
            }) by {
                assert(self.spec_index().records() == old(self).spec_index().records().update(
                    j,
                    (crate::metadata::BlobRecord {
                        present: true,
                        ..old(self).spec_index().records()[j]
                    }),
                ));
            }
        }
    }

    /// Drains the pending-write accumulator into the metadata index: every
    /// drained hash gets a resident record there, and the accumulator is
    /// left empty.
    pub fn do_save(&mut self)
        requires
            old(self).wf(),
        ensures
            final(self).wf(),
            final(self).written().len() == 0,
            forall|i: int|
                0 <= i < old(self).written().len() ==> has_present_rec(
                    final(self).spec_index().records(),
                    (#[trigger] old(self).written()[i]).0,
                ),
            forall|j: int|
                0 <= j < old(self).spec_index().records().len() && !crate::metadata::triple_listed(
                    old(self).written(),
                    (#[trigger] old(self).spec_index().records()[j]).hash,
                ) ==> final(self).spec_index().records()[j] == old(self).spec_index().records()[j],
            forall|j: int|
                0 <= j < final(self).spec_index().records().len() && crate::metadata::triple_listed(
                    old(self).written(),
                    (#[trigger] final(self).spec_index().records()[j]).hash,
                ) ==> final(self).spec_index().records()[j].present && (exists|i: int|
                    0 <= i < old(self).written().len() && (#[trigger] old(self).written()[i]).0
                        == final(self).spec_index().records()[j].hash && final(self).spec_index().records()[j].size == old(self).written()[i].1 && final(self).spec_index().records()[j].touched == old(self).written()[i].2),
            (crate::metadata::triples_distinct(old(self).written()) && (forall|i: int|
                0 <= i < old(self).written().len() ==> !crate::metadata::has_rec(
                    old(self).spec_index().records(),
                    (#[trigger] old(self).written()[i]).0,
                )) && old(self).spec_index().tracked_local_bytes() + crate::metadata::sum_sizes(
                old(self).written(),
            ) <= u64::MAX) ==> final(self).spec_index().tracked_local_bytes() == old(self).spec_index().tracked_local_bytes() + crate::metadata::sum_sizes(old(self).written()),
            final(self).spec_index().node_pairs() == old(self).spec_index().node_pairs(),
            final(self).files() == old(self).files(),
            final(self).touched() == old(self).touched(),
            final(self).spec_cache() == old(self).spec_cache(),
    {
        self.index.set_blobs(&self.written_blobs);
        self.written_blobs = Vec::new();
    }

    /// The hashes a sync pass still has to upload: stored locally, not yet
    /// confirmed on the remote.
    pub fn to_upload(&self) -> (r: Vec<BlobHash>)
        requires
            self.wf(),
        ensures
            forall|i: int|
                0 <= i < r@.len() ==> crate::metadata::has_pending_rec(
                    self.spec_index().records(),
                    #[trigger] r@[i],
                ),
            forall|j: int|
                0 <= j < self.spec_index().records().len() && pending_upload(
                    #[trigger] self.spec_index().records()[j],
                ) ==> hash_listed(r@, self.spec_index().records()[j].hash),
    {
        self.index.to_upload()
    }

    /// Marks a successfully uploaded batch as confirmed on the remote.
    /// Marking everything `to_upload` returned leaves nothing pending, so a
    /// drain loop that alternates the two stops once the queue is empty.
    pub fn mark_uploaded(&mut self, hashes: &Vec<BlobHash>)
        requires
            old(self).wf(),
        ensures
            final(self).wf(),
            final(self).spec_index().records().len() == old(self).spec_index().records().len(),
            forall|j: int|
                0 <= j < old(self).spec_index().records().len() ==> final(self).spec_index().records()[j] == (crate::metadata::BlobRecord {
                    synced: old(self).spec_index().records()[j].synced || hash_listed(
                        hashes@,
                        (#[trigger] old(self).spec_index().records()[j]).hash,
                    ),
                    ..old(self).spec_index().records()[j]
                }),
            final(self).spec_index().node_pairs() == old(self).spec_index().node_pairs(),
            final(self).spec_index().tracked_local_bytes() == old(self).spec_index().tracked_local_bytes(),
            final(self).files() == old(self).files(),
            final(self).written() == old(self).written(),
            final(self).touched() == old(self).touched(),
            final(self).spec_cache() == old(self).spec_cache(),
    {
        self.index.mark_synced_blobs(hashes);
    }

    /// Starts a reclamation pass: drains the touched accumulator into the
    /// index's recency bookkeeping, clears per-pass skips, and returns how
    /// many bytes must be freed — `None` when tracked local usage is within
    /// the budget.
    pub fn begin_removals(&mut self) -> (r: Option<u64>)
        requires
            old(self).wf(),
        ensures
            final(self).wf(),
            final(self).touched().len() == 0,
            r is Some <==> final(self).spec_index().tracked_local_bytes() > final(self).spec_maxbytes(),
            r is Some ==> r.unwrap() == final(self).spec_index().tracked_local_bytes() - final(self).spec_maxbytes(),
            final(self).spec_index().tracked_local_bytes() == old(self).spec_index().tracked_local_bytes(),
            final(self).spec_maxbytes() == old(self).spec_maxbytes(),
            final(self).spec_index().records().len() == old(self).spec_index().records().len(),
            forall|j: int|
                0 <= j < old(self).spec_index().records().len() ==> ((#[trigger] final(self).spec_index().records()[j]).hash == old(self).spec_index().records()[j].hash
                    && final(self).spec_index().records()[j].size == old(self).spec_index().records()[j].size && final(self).spec_index().records()[j].synced
                    == old(self).spec_index().records()[j].synced && final(self).spec_index().records()[j].present == old(self).spec_index().records()[j].present
                    && final(self).spec_index().records()[j].evict_failed == false),
            forall|j: int|
                0 <= j < old(self).spec_index().records().len() && touched_listed(
                    old(self).touched(),
                    (#[trigger] old(self).spec_index().records()[j]).hash,
                ) ==> exists|i: int|
                    0 <= i < old(self).touched().len() && (#[trigger] old(self).touched()[i]).0
                        == old(self).spec_index().records()[j].hash && final(self).spec_index().records()[j].touched == old(self).touched()[i].1,
            forall|j: int|
                0 <= j < old(self).spec_index().records().len() && !touched_listed(
                    old(self).touched(),
                    (#[trigger] old(self).spec_index().records()[j]).hash,
                ) ==> final(self).spec_index().records()[j].touched == old(self).spec_index().records()[j].touched,
            final(self).files() == old(self).files(),
            final(self).written() == old(self).written(),
            final(self).spec_cache() == old(self).spec_cache(),
    {
        self.index.touch_blobs(&self.touched_blobs);
        self.touched_blobs = Vec::new();
        let ghost mid = self.spec_index();
        self.index.clear_eviction_skips();
        proof {
            assert forall|j: int|
                0 <= j < old(self).spec_index().records().len() implies ((#[trigger] self.spec_index().records()[j]).hash
                == old(self).spec_index().records()[j].hash && self.spec_index().records()[j].size
                == old(self).spec_index().records()[j].size && self.spec_index().records()[j].synced
                == old(self).spec_index().records()[j].synced
                && self.spec_index().records()[j].present == old(self).spec_index().records()[j].present && self.spec_index().records()[j].evict_failed
                == false) by {
                assert(mid.records()[j].hash == old(self).spec_index().records()[j].hash);
                assert(self.spec_index().records()[j] == (crate::metadata::BlobRecord {
                    evict_failed: false,
                    ..mid.records()[j]
                }));
            }
        }
        let lb = self.index.localbytes();
        if lb > self.maxbytes {
            Some(lb - self.maxbytes)
        } else {
            None
        }
    }

    /// The next eviction candidate: least-recently-touched resident content
    /// already confirmed on the remote, skipping candidates that failed in
    /// this pass. `None` when none remains.
    pub fn next_removal(&self) -> (r: Option<(BlobHash, u64)>)
        requires
            self.wf(),
        ensures
            r is None ==> forall|j: int|
                0 <= j < self.spec_index().records().len() ==> !deletable(
                    #[trigger] self.spec_index().records()[j],
                ),
            r is Some ==> exists|j: int|
                0 <= j < self.spec_index().records().len() && (#[trigger] self.spec_index().records()[j]).hash
                    == r.unwrap().0 && deletable(self.spec_index().records()[j])
                    && self.spec_index().records()[j].size == r.unwrap().1 && is_oldest(
                    self.spec_index().records(),
                    j,
                ),
    {
        self.index.to_delete()
    }

    /// Applies the outcome of one deletion attempt. A deleted or
    /// already-missing file counts as reclaimed: the content stops being
    /// resident, tracked local usage drops by its recorded size, and the
    /// freed total grows by `size`. A failed delete reclaims nothing and
    /// skips the candidate for the rest of the pass.
    pub fn apply_removal(
        &mut self,
        hash: &BlobHash,
        size: u64,
        outcome: RemovalOutcome,
        freed: u64,
    ) -> (r: u64)
        requires
            old(self).wf(),
        ensures
            final(self).wf(),
            outcome != RemovalOutcome::Failed ==> r == add_sat(freed, size) && !file_listed(
                final(self).files(),
                *hash,
            ) && (forall|j: int|
                0 <= j < old(self).spec_index().records().len() && (#[trigger] old(self).spec_index().records()[j]).hash == *hash ==> final(self).spec_index().records()[j]
                    == (crate::metadata::BlobRecord {
                    present: false,
                    ..old(self).spec_index().records()[j]
                }) && final(self).spec_index().tracked_local_bytes() == (if old(self).spec_index().records()[j].present {
                    sub_sat(
                        old(self).spec_index().tracked_local_bytes(),
                        old(self).spec_index().records()[j].size,
                    )
                } else {
                    old(self).spec_index().tracked_local_bytes()
                })),
            outcome == RemovalOutcome::Failed ==> r == freed && final(self).files() == old(self).files() && final(self).spec_index().tracked_local_bytes() == old(self).spec_index().tracked_local_bytes() && (forall|j: int|
                0 <= j < old(self).spec_index().records().len() && (#[trigger] old(self).spec_index().records()[j]).hash == *hash ==> final(self).spec_index().records()[j]
                    == (crate::metadata::BlobRecord {
                    evict_failed: true,
                    ..old(self).spec_index().records()[j]
                })),
            final(self).spec_index().records().len() == old(self).spec_index().records().len(),
            forall|j: int|
                0 <= j < old(self).spec_index().records().len() && (#[trigger] old(self).spec_index().records()[j]).hash != *hash ==> final(self).spec_index().records()[j]
                    == old(self).spec_index().records()[j],
            final(self).spec_index().node_pairs() == old(self).spec_index().node_pairs(),
            final(self).written() == old(self).written(),
            final(self).touched() == old(self).touched(),
            final(self).spec_cache() == old(self).spec_cache(),
            final(self).spec_maxbytes() == old(self).spec_maxbytes(),
    {
        match outcome {
            RemovalOutcome::Failed => {
                self.index.skip_candidate(hash);
                proof {
                    assert forall|j: int|
                        0 <= j < old(self).spec_index().records().len() && (#[trigger] old(self).spec_index().records()[j]).hash == *hash implies final(self).spec_index().records()[j] == (crate::metadata::BlobRecord {
                        evict_failed: true,
                        ..old(self).spec_index().records()[j]
                    }) by {
                        assert(self.spec_index().records() == old(self).spec_index().records().update(
                            j,
                            (crate::metadata::BlobRecord {
                                evict_failed: true,
                                ..old(self).spec_index().records()[j]
                            }),
                        ));
                    }
                }
                freed
            },
            _ => {
                self.index.mark_deleted(hash, true);
                let ghost mid = *self;
                match self.find_file(hash) {
                    Some(j) => {
                        proof {
                            lemma_file_index_is(self.files(), *hash, j as int);
                        }
                        let _ = self.files.remove(j);
                        proof {
                            assert forall|a: int, b: int|
                                0 <= a < b < self.files().len() implies (
                            #[trigger] self.files()[a]).0 != (#[trigger] self.files()[b]).0 by {
                                if b < j as int {
                                    assert(mid.files()[a].0 != mid.files()[b].0);
                                } else if a < j as int {
                                    assert(mid.files()[a].0 != mid.files()[b + 1].0);
                                } else {
                                    assert(mid.files()[a + 1].0 != mid.files()[b + 1].0);
                                }
                            }
                            assert forall|w: int|
                                0 <= w < self.files().len() implies (#[trigger] self.files()[w]).0
                                != *hash by {
                                if w < j as int {
                                    assert(self.files()[w] == mid.files()[w]);
                                } else {
                                    assert(self.files()[w] == mid.files()[w + 1]);
                                }
                            }
                        }
                    },
                    None => {},
                }
                proof {
                    assert forall|j: int|
                        0 <= j < old(self).spec_index().records().len() && (#[trigger] old(self).spec_index().records()[j]).hash == *hash implies final(self).spec_index().records()[j] == (crate::metadata::BlobRecord {
                        present: false,
                        ..old(self).spec_index().records()[j]
                    }) && final(self).spec_index().tracked_local_bytes() == (if old(self).spec_index().records()[j].present {
                        sub_sat(
                            old(self).spec_index().tracked_local_bytes(),
                            old(self).spec_index().records()[j].size,
                        )
                    } else {
                        old(self).spec_index().tracked_local_bytes()
                    }) by {
                        assert(self.spec_index().records() == old(self).spec_index().records().update(
                            j,
                            (crate::metadata::BlobRecord {
                                present: false,
                                ..old(self).spec_index().records()[j]
                            }),
                        ));
                    }
                }
                crate::metadata::add_sat_exec(freed, size)
            },
        }
    }

    /// Total bytes the metadata index tracks as locally resident.
    pub fn localbytes(&self) -> (r: u64)
        ensures
            r == self.spec_index().tracked_local_bytes(),
    {
        self.index.localbytes()
    }

    /// Records `hash` as the current content of `node` in the index.
    pub fn set_node(&mut self, node: u64, hash: &BlobHash)
        requires
            old(self).wf(),
        ensures
            final(self).wf(),
            crate::metadata::has_node(final(self).spec_index().node_pairs(), node),
            forall|j: int|
                0 <= j < final(self).spec_index().node_pairs().len() && (#[trigger] final(self).spec_index().node_pairs()[j]).0 == node ==> final(self).spec_index().node_pairs()[j].1 == *hash,
            forall|j: int|
                0 <= j < old(self).spec_index().node_pairs().len() && (#[trigger] old(self).spec_index().node_pairs()[j]).0 != node ==> final(self).spec_index().node_pairs()[j] == old(self).spec_index().node_pairs()[j],
            final(self).spec_index().records() == old(self).spec_index().records(),
            final(self).files() == old(self).files(),
            final(self).written() == old(self).written(),
            final(self).touched() == old(self).touched(),
            final(self).spec_cache() == old(self).spec_cache(),
    {
        self.index.set_node(node, hash);
    }

    /// Stores raw bytes and records their hash as the current content of
    /// `node`.
    pub fn add_node(&mut self, node: u64, data: &[u8], now: i64) -> (r: BlobHash)
        requires
            old(self).wf(),
            data@.len() <= u64::MAX,
        ensures
            final(self).wf(),
            r@ == digest_of(data@),
            file_listed(final(self).files(), r),
            crate::metadata::has_node(final(self).spec_index().node_pairs(), node),
            forall|j: int|
                0 <= j < final(self).spec_index().node_pairs().len() && (#[trigger] final(self).spec_index().node_pairs()[j]).0 == node ==> final(self).spec_index().node_pairs()[j].1 == r,
            forall|j: int|
                0 <= j < old(self).spec_index().node_pairs().len() && (#[trigger] old(self).spec_index().node_pairs()[j]).0 != node ==> final(self).spec_index().node_pairs()[j] == old(self).spec_index().node_pairs()[j],
    {
        let hash = self.add_blob(data, now);
        self.set_node(node, &hash);
        hash
    }

    /// The stored bytes of `node`'s current content: `NotFound` when the
    /// node has no recorded hash, `NotLocal` when its content was evicted
    /// and must be fetched first.
    pub fn read_node(&mut self, node: u64, now: i64) -> (r: Result<Vec<u8>, StoreError>)
        requires
            old(self).wf(),
        ensures
            final(self).wf(),
            final(self).files() == old(self).files(),
            final(self).spec_index() == old(self).spec_index(),
            r matches Ok(v) ==> exists|j: int|
                0 <= j < old(self).spec_index().node_pairs().len() && (#[trigger] old(self).spec_index().node_pairs()[j]).0 == node && file_listed(
                    old(self).files(),
                    old(self).spec_index().node_pairs()[j].1,
                ) && v@ == file_bytes(old(self).files(), old(self).spec_index().node_pairs()[j].1),
            (r matches Err(e) && e == StoreError::NotFound) ==> !crate::metadata::has_node(
                old(self).spec_index().node_pairs(),
                node,
            ),
            forall|j: int|
                0 <= j < old(self).spec_index().node_pairs().len() && (#[trigger] old(self).spec_index().node_pairs()[j]).0 == node && file_listed(
                    old(self).files(),
                    old(self).spec_index().node_pairs()[j].1,
                ) ==> r is Ok,
            !crate::metadata::has_node(old(self).spec_index().node_pairs(), node) ==> (
            r matches Err(e) && e == StoreError::NotFound),
            (r matches Err(e) && e == StoreError::NotLocal) ==> crate::metadata::has_node(
                old(self).spec_index().node_pairs(),
                node,
            ) && (forall|j: int|
                0 <= j < old(self).spec_index().node_pairs().len() && (#[trigger] old(self).spec_index().node_pairs()[j]).0 == node ==> !file_listed(
                    old(self).files(),
                    old(self).spec_index().node_pairs()[j].1,
                )),
    {
        let hash = match self.get_node(node) {
            Ok(h) => h,
            Err(e) => {
                return Err(e);
            },
        };
        let blob = match self.get_blob(&hash, now) {
            Ok(b) => b,
            Err(e) => {
                proof {
                    let pairs = old(self).spec_index().node_pairs();
                    let j0 = choose|j: int|
                        0 <= j < pairs.len() && #[trigger] pairs[j] == (node, hash);
                    assert(pairs[j0].0 == node);
                    assert(crate::metadata::has_node(pairs, node));
                    assert forall|j: int|
                        0 <= j < pairs.len() && (#[trigger] pairs[j]).0 == node implies !file_listed(
                        old(self).files(),
                        pairs[j].1,
                    ) by {
                        assert(j == j0);
                        assert(pairs[j].1 == hash);
                    }
                }
                return Err(e);
            },
        };
        let len = blob.len();
        let v = blob.read(0, len);
        proof {
            assert(v@ =~= file_bytes(old(self).files(), hash));
            let pairs = old(self).spec_index().node_pairs();
            let j0 = choose|j: int| 0 <= j < pairs.len() && #[trigger] pairs[j] == (node, hash);
            assert(pairs[j0].0 == node);
            assert(crate::metadata::has_node(pairs, node));
        }
        Ok(v)
    }

    /// The recorded content hash of `node`; `NotFound` when unset.
    pub fn get_node(&self, node: u64) -> (r: Result<BlobHash, StoreError>)
        requires
            self.wf(),
        ensures
            r is Ok ==> exists|j: int|
                0 <= j < self.spec_index().node_pairs().len()
                    && #[trigger] self.spec_index().node_pairs()[j] == (node, r.unwrap()),
            r is Err ==> r.unwrap_err() == StoreError::NotFound && !crate::metadata::has_node(
                self.spec_index().node_pairs(),
                node,
            ),
    {
        self.index.get_node(node)
    }

    /// Whether `node` has a recorded content hash.
    pub fn node_exists(&self, node: u64) -> (r: bool)
        requires
            self.wf(),
        ensures
            r == crate::metadata::has_node(self.spec_index().node_pairs(), node),
    {
        self.index.node_exists(node)
    }

    /// The largest recorded node identifier, or zero when none.
    pub fn max_node(&self) -> (r: u64)
        ensures
            forall|j: int|
                0 <= j < self.spec_index().node_pairs().len() ==> (
                #[trigger] self.spec_index().node_pairs()[j]).0 <= r,
            r != 0 ==> crate::metadata::has_node(self.spec_index().node_pairs(), r),
    {
        self.index.max_node()
    }
}

/// `t1` is `t0` with the time of `h` set to `now`: replaced in place if `h`
/// was listed, appended otherwise.
pub open spec fn touch_upserted(
    t0: Seq<(BlobHash, i64)>,
    t1: Seq<(BlobHash, i64)>,
    h: BlobHash,
    now: i64,
) -> bool {
    &&& (forall|j: int|
        0 <= j < t0.len() && (#[trigger] t0[j]).0 == h ==> t1 == t0.update(j, (h, now)))
    &&& (!touched_listed(t0, h) ==> t1 == t0.push((h, now)))
}

/// `h` has an entry in the touched accumulator.
pub open spec fn touched_listed(t: Seq<(BlobHash, i64)>, h: BlobHash) -> bool {
    exists|j: int| 0 <= j < t.len() && (#[trigger] t[j]).0 == h
}

/// No hash appears twice in the touched accumulator.
pub open spec fn touched_unique(t: Seq<(BlobHash, i64)>) -> bool {
    forall|i: int, j: int| 0 <= i < j < t.len() ==> (#[trigger] t[i]).0 != (#[trigger] t[j]).0
}

/// The stored copy of the content recorded under `h`.
pub open spec fn blob_vec(fs: Seq<(BlobHash, Vec<u8>)>, h: BlobHash) -> Vec<u8> {
    fs[file_index(fs, h)].1
}

/// Growing the file list pointwise preserves every listed hash and its bytes.
pub proof fn lemma_files_preserved(fs0: Seq<(BlobHash, Vec<u8>)>, fs1: Seq<(BlobHash, Vec<u8>)>)
    requires
        files_unique(fs0),
        files_unique(fs1),
        fs1.len() >= fs0.len(),
        forall|j: int| 0 <= j < fs0.len() ==> fs1[j] == fs0[j],
    ensures
        forall|h: BlobHash|
            file_listed(fs0, h) ==> #[trigger] file_listed(fs1, h) && file_bytes(fs1, h)
                == file_bytes(fs0, h),
{
    assert forall|h: BlobHash| file_listed(fs0, h) implies #[trigger] file_listed(fs1, h)
        && file_bytes(fs1, h) == file_bytes(fs0, h) by {
        let j = file_index(fs0, h);
        assert(0 <= j < fs0.len() && fs0[j].0 == h);
        assert(fs1[j] == fs0[j]);
        lemma_file_index_is(fs1, h, j);
        lemma_file_index_is(fs0, h, j);
    }
}

/// Content-addressing round trip: a hash under which bytes `d` were
/// recorded resolves to exactly `d` — whoever loads the hash gets the bytes
/// that were stored, since a hash has at most one record and a second store
/// of an occupied hash leaves the stored content untouched.
pub proof fn lemma_content_roundtrip(fs: Seq<(BlobHash, Vec<u8>)>, h: BlobHash, d: Seq<u8>)
    requires
        files_unique(fs),
        exists|j: int| 0 <= j < fs.len() && (#[trigger] fs[j]).0 == h && fs[j].1@ == d,
    ensures
        file_listed(fs, h),
        file_bytes(fs, h) == d,
{
    let j = choose|j: int| 0 <= j < fs.len() && (#[trigger] fs[j]).0 == h && fs[j].1@ == d;
    lemma_file_index_is(fs, h, j);
}

/// Eviction convergence: once a reclamation pass has freed at least the
/// deficit of an over-budget store, tracked local usage is within the
/// budget.
pub proof fn lemma_reclaim_converges(start: u64, maxbytes: u64, freed: u64)
    requires
        start > maxbytes,
        freed >= start - maxbytes,
        freed <= start,
    ensures
        sub_sat(start, freed) <= maxbytes,
{
}

/// A fresh vector holding a copy of the bytes of `v`.
pub fn copy_bytes(v: &Vec<u8>) -> (r: Vec<u8>)
    ensures
        r@ == v@,
{
    let n = v.len();
    let mut r: Vec<u8> = Vec::new();
    let mut i: usize = 0;
    while i < n
        invariant
            n == v@.len(),
            i <= n,
            r@ == v@.subrange(0, i as int),
        decreases n - i,
    {
        r.push(v[i]);
        proof {
            assert(r@ =~= v@.subrange(0, i + 1 as int));
        }
        i = i + 1;
    }
    proof {
        assert(v@.subrange(0, n as int) =~= v@);
    }
    r
}

/// A fresh vector holding a copy of the bytes of `s`.
pub fn slice_to_vec(s: &[u8]) -> (r: Vec<u8>)
    ensures
        r@ == s@,
{
    let n = s.len();
    let mut r: Vec<u8> = Vec::new();
    let mut i: usize = 0;
    while i < n
        invariant
            n == s@.len(),
            i <= n,
            r@ == s@.subrange(0, i as int),
        decreases n - i,
    {
        r.push(s[i]);
        proof {
            assert(r@ =~= s@.subrange(0, i + 1 as int));
        }
        i = i + 1;
    }
    proof {
        assert(s@.subrange(0, n as int) =~= s@);
    }
    r
}

} // verus!
