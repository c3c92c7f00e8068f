//! The node layer: allocates logical node identifiers from a monotonic
//! counter, stores serialized filesystem entries (handed in as bytes by the
//! embedding program's encoder) through the content store, and maintains the
//! node-to-current-hash indirection.

use vstd::prelude::*;
use crate::{BlobHash, StoreError};
use crate::blob::{read_end, write_result};
use crate::digest::digest_of;
use crate::metadata::has_node;
use crate::store::{BlobStorage, file_bytes, file_listed};

verus! {

/// Content-addressed backing for filesystem entries: a content store plus a
/// never-reused, monotonically increasing node-identifier counter.
pub struct BackingStore {
    /// The content store; the embedding program drives its maintenance
    /// passes (write-back, upload, reclamation) directly.
    pub blobs: BlobStorage,
    node_counter: u64,
}

impl BackingStore {
    /// The content store.
    pub closed spec fn store(&self) -> BlobStorage {
        self.blobs
    }

    /// The last allocated node identifier.
    pub closed spec fn counter(&self) -> u64 {
        self.node_counter
    }

    pub open spec fn wf(&self) -> bool {
        self.store().wf()
    }

    /// The last allocated node identifier.
    pub fn counter_value(&self) -> (r: u64)
        ensures
            r == self.counter(),
    {
        self.node_counter
    }

    pub fn new(source: &str, server: &str, maxbytes: u64) -> (r: Self)
        ensures
            r.wf(),
            r.counter() == 0,
            r.store().files().len() == 0,
            r.store().spec_index().node_pairs().len() == 0,
    {
        BackingStore { blobs: BlobStorage::new(source, server, maxbytes), node_counter: 0 }
    }

    /// The content hash of `size` zero bytes.
    pub fn blob_zero(size: usize) -> (r: BlobHash)
        ensures
            r@ == digest_of(Seq::new(size as nat, |i: int| 0u8)),
    {
        BlobStorage::zero(size)
    }

    /// Stores raw bytes and returns their content hash.
    pub fn add_blob(&mut self, data: &[u8], now: i64) -> (r: BlobHash)
        requires
            old(self).wf(),
            data@.len() <= u64::MAX,
        ensures
            final(self).wf(),
            final(self).counter() == old(self).counter(),
            r@ == digest_of(data@),
            file_listed(final(self).store().files(), r),
            !file_listed(old(self).store().files(), r) ==> file_bytes(
                final(self).store().files(),
                r,
            ) == data@,
    {
        self.blobs.add_blob(data, now)
    }

    /// Allocates a fresh node identifier — one more than any this instance
    /// has handed out — stores the encoded entry, and records its hash as
    /// the node's content.
    pub fn create_node(&mut self, data: &[u8], now: i64) -> (r: u64)
        requires
            old(self).wf(),
            old(self).counter() < u64::MAX,
            data@.len() <= u64::MAX,
        ensures
            final(self).wf(),
            r == old(self).counter() + 1,
            final(self).counter() == r,
            has_node(final(self).store().spec_index().node_pairs(), r),
            forall|j: int|
                0 <= j < final(self).store().spec_index().node_pairs().len() && (#[trigger] final(self).store().spec_index().node_pairs()[j]).0 == r ==> final(self).store().spec_index().node_pairs()[j].1@ == digest_of(data@),
            file_listed(final(self).store().files(), final(self).store().spec_index().node_pairs()[
                crate::metadata::has_node_index(final(self).store().spec_index().node_pairs(), r)
            ].1),
    {
        let node = self.node_counter + 1;
        self.node_counter = node;
        self.save_node(node, data, now);
        node
    }

    /// Stores the encoded entry and records its hash as the current content
    /// of `node`, replacing any earlier hash.
    pub fn save_node(&mut self, node: u64, data: &[u8], now: i64)
        requires
            old(self).wf(),
            data@.len() <= u64::MAX,
        ensures
            final(self).wf(),
            final(self).counter() == old(self).counter(),
            has_node(final(self).store().spec_index().node_pairs(), node),
            forall|j: int|
                0 <= j < final(self).store().spec_index().node_pairs().len() && (#[trigger] final(self).store().spec_index().node_pairs()[j]).0 == node ==> final(self).store().spec_index().node_pairs()[j].1@ == digest_of(data@),
            forall|j: int|
                0 <= j < old(self).store().spec_index().node_pairs().len() && (#[trigger] old(self).store().spec_index().node_pairs()[j]).0 != node ==> final(self).store().spec_index().node_pairs()[j] == old(self).store().spec_index().node_pairs()[j],
            file_listed(final(self).store().files(), final(self).store().spec_index().node_pairs()[
                crate::metadata::has_node_index(final(self).store().spec_index().node_pairs(), node)
            ].1),
    {
        let hash = self.blobs.add_blob(data, now);
        self.blobs.set_node(node, &hash);
        proof {
            let pairs = self.store().spec_index().node_pairs();
            let j = crate::metadata::has_node_index(pairs, node);
            assert(0 <= j < pairs.len() && pairs[j].0 == node);
            assert(pairs[j].1 == hash);
        }
    }

    /// The stored encoded entry of `node`: the resident bytes of its current
    /// hash. `NotFound` when the node has no recorded hash, `NotLocal` when
    /// the content was evicted and must be fetched first.
    pub fn get_node(&mut self, node: u64, now: i64) -> (r: Result<Vec<u8>, StoreError>)
        requires
            old(self).wf(),
        ensures
            final(self).wf(),
            final(self).counter() == old(self).counter(),
            final(self).store().files() == old(self).store().files(),
            final(self).store().spec_index() == old(self).store().spec_index(),
            r matches Ok(v) ==> exists|j: int|
                0 <= j < old(self).store().spec_index().node_pairs().len() && (#[trigger] old(self).store().spec_index().node_pairs()[j]).0 == node && file_listed(
                    old(self).store().files(),
                    old(self).store().spec_index().node_pairs()[j].1,
                ) && v@ == file_bytes(
                    old(self).store().files(),
                    old(self).store().spec_index().node_pairs()[j].1,
                ),
            (r matches Err(e) && e == StoreError::NotFound) ==> !has_node(
                old(self).store().spec_index().node_pairs(),
                node,
            ),
            forall|j: int|
                0 <= j < old(self).store().spec_index().node_pairs().len() && (#[trigger] old(self).store().spec_index().node_pairs()[j]).0 == node && file_listed(
                    old(self).store().files(),
                    old(self).store().spec_index().node_pairs()[j].1,
                ) ==> r is Ok,
            !has_node(old(self).store().spec_index().node_pairs(), node) ==> (r matches Err(e)
                && e == StoreError::NotFound),
            (r matches Err(e) && e == StoreError::NotLocal) ==> has_node(
                old(self).store().spec_index().node_pairs(),
                node,
            ) && (forall|j: int|
                0 <= j < old(self).store().spec_index().node_pairs().len() && (#[trigger] old(self).store().spec_index().node_pairs()[j]).0 == node ==> !file_listed(
                    old(self).store().files(),
                    old(self).store().spec_index().node_pairs()[j].1,
                )),
    {
        let hash = match self.blobs.get_node(node) {
            Ok(h) => h,
            Err(e) => {
                return Err(e);
            },
        };
        let blob = match self.blobs.get_blob(&hash, now) {
            Ok(b) => b,
            Err(e) => {
                proof {
                    let pairs = old(self).store().spec_index().node_pairs();
                    let j0 = choose|j: int|
                        0 <= j < pairs.len() && #[trigger] pairs[j] == (node, hash);
                    assert(pairs[j0].0 == node);
                    assert(has_node(pairs, node));
                    assert forall|j: int|
                        0 <= j < pairs.len() && (#[trigger] pairs[j]).0 == node implies !file_listed(
                        old(self).store().files(),
                        pairs[j].1,
                    ) by {
                        assert(j == j0);
                        assert(pairs[j].1 == hash);
                    }
                }
                return Err(e);
            },
        };
        let len = blob.len();
        let v = blob.read(0, len);
        proof {
            assert(v@ =~= file_bytes(old(self).store().files(), hash));
            let pairs = old(self).store().spec_index().node_pairs();
            let j0 = choose|j: int| 0 <= j < pairs.len() && #[trigger] pairs[j] == (node, hash);
            assert(pairs[j0].0 == node);
            assert(has_node(pairs, node));
        }
        Ok(v)
    }

    /// Reads up to `bytes` bytes at `offset` from the resident content for
    /// `hash`, clipped to its length; `NotLocal` when the content is not
    /// resident.
    pub fn read(&mut self, hash: &BlobHash, offset: usize, bytes: usize, now: i64) -> (r: Result<
        Vec<u8>,
        StoreError,
    >)
        requires
            old(self).wf(),
            file_listed(old(self).store().files(), *hash) ==> offset <= file_bytes(
                old(self).store().files(),
                *hash,
            ).len(),
        ensures
            final(self).wf(),
            final(self).store().files() == old(self).store().files(),
            file_listed(old(self).store().files(), *hash) ==> (r matches Ok(v) && v@ == file_bytes(
                old(self).store().files(),
                *hash,
            ).subrange(
                offset as int,
                read_end(file_bytes(old(self).store().files(), *hash).len(), offset as nat, bytes as nat),
            )),
            !file_listed(old(self).store().files(), *hash) ==> (r matches Err(e) && e
                == StoreError::NotLocal),
    {
        let blob = match self.blobs.get_blob(hash, now) {
            Ok(b) => b,
            Err(e) => {
                return Err(e);
            },
        };
        Ok(blob.read(offset, bytes))
    }

    /// Writes `data` at `offset` onto a copy of the resident content for
    /// `hash` (content itself is immutable) and stores the result under its
    /// new content hash, which is returned. `NotLocal` when the content is
    /// not resident.
    pub fn write(&mut self, hash: &BlobHash, offset: usize, data: &[u8], now: i64) -> (r: Result<
        BlobHash,
        StoreError,
    >)
        requires
            old(self).wf(),
            offset + data@.len() <= usize::MAX,
            file_listed(old(self).store().files(), *hash) ==> file_bytes(
                old(self).store().files(),
                *hash,
            ).len() + data@.len() + offset <= u64::MAX,
        ensures
            final(self).wf(),
            file_listed(old(self).store().files(), *hash) ==> (r matches Ok(h) && h@ == digest_of(
                write_result(file_bytes(old(self).store().files(), *hash), offset as nat, data@),
            ) && file_listed(final(self).store().files(), h)),
            !file_listed(old(self).store().files(), *hash) ==> (r matches Err(e) && e
                == StoreError::NotLocal) && final(self).store().files() == old(self).store().files(),
    {
        let mut blob = match self.blobs.get_blob(hash, now) {
            Ok(b) => b,
            Err(e) => {
                return Err(e);
            },
        };
        blob.write(offset, data);
        let h = self.blobs.store_blob(&blob, now);
        Ok(h)
    }

    /// Whether `node` has a recorded content hash.
    pub fn node_exists(&self, node: u64) -> (r: bool)
        requires
            self.wf(),
        ensures
            r == has_node(self.store().spec_index().node_pairs(), node),
    {
        self.blobs.node_exists(node)
    }

    /// The largest recorded node identifier, or zero when none.
    pub fn max_node(&self) -> (r: u64)
        ensures
            forall|j: int|
                0 <= j < self.store().spec_index().node_pairs().len() ==> (
                #[trigger] self.store().spec_index().node_pairs()[j]).0 <= r,
            r != 0 ==> has_node(self.store().spec_index().node_pairs(), r),
    {
        self.blobs.max_node()
    }
}

} // verus!
