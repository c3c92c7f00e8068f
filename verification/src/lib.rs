//! Content-addressed blob storage: in-memory blobs with content-derived
//! identities, a sharded block cache, a metadata index with recency-based
//! eviction bookkeeping, and the decision logic of a write-back, upload and
//! reclamation pipeline.

use vstd::prelude::*;

pub mod blob;
pub mod cache;
pub mod digest;
pub mod metadata;
pub mod node;
pub mod store;

verus! {

broadcast use vstd::array::group_array_axioms;

/// Number of bytes in a content hash.
pub const HASH_SIZE: usize = 32;

/// A content address: the fixed-length digest of a blob's bytes.
pub type BlobHash = [u8; 32];

/// How a storage operation fails.
///
/// `NotFound`: a node identifier has no recorded hash. `NotLocal`: the
/// requested content is not resident locally; the caller may fetch it from
/// the remote and hand the bytes back before retrying.
#[derive(Clone, Copy, Debug, PartialEq, Eq, Structural)]
pub enum StoreError {
    NotFound,
    NotLocal,
}

/// Byte-for-byte equality of two content hashes.
pub fn hash_eq(a: &BlobHash, b: &BlobHash) -> (r: bool)
    ensures
        r == (a@ == b@),
        r == (*a == *b),
{
    let mut i: usize = 0;
    while i < 32
        invariant
            0 <= i <= 32,
            forall|j: int| 0 <= j < i ==> a@[j] == b@[j],
        decreases 32 - i,
    {
        if a[i] != b[i] {
            return false;
        }
        i = i + 1;
    }
    proof {
        assert(a@ =~= b@);
        assert(*a == *b);
    }
    true
}

} // verus!
