//! In-memory, mutable byte buffers with a content-derived identity.

use vstd::prelude::*;
use crate::BlobHash;
use crate::digest::{content_digest, digest_of};

verus! {

/// A variable-length byte buffer. Writing past the end zero-extends the
/// buffer first; reads clip to the current length. The content hash is a
/// pure function of the current bytes, recomputed on demand.
#[derive(Debug)]
pub struct Blob {
    data: Vec<u8>,
}

/// Where a clipped read of `bytes` bytes at `offset` ends in a buffer of
/// length `len`.
pub open spec fn read_end(len: nat, offset: nat, bytes: nat) -> int {
    if offset + bytes <= len {
        offset + bytes as int
    } else {
        len as int
    }
}

/// The bytes of a buffer `orig` after writing `data` at `offset`: the buffer
/// is zero-extended to cover the written range, then the range is overwritten.
pub open spec fn write_result(orig: Seq<u8>, offset: nat, data: Seq<u8>) -> Seq<u8> {
    let n = if orig.len() >= offset + data.len() {
        orig.len() as int
    } else {
        offset + data.len() as int
    };
    Seq::new(
        n as nat,
        |i: int|
            if offset <= i < offset + data.len() {
                data[i - offset]
            } else if i < orig.len() {
                orig[i]
            } else {
                0u8
            },
    )
}

impl Blob {
    pub closed spec fn view(&self) -> Seq<u8> {
        self.data@
    }

    /// A blob of `size` zero bytes.
    pub fn zero(size: usize) -> (r: Self)
        ensures
            r@ == Seq::new(size as nat, |i: int| 0u8),
    {
        let mut data: Vec<u8> = Vec::new();
        let mut i: usize = 0;
        while i < size
            invariant
                i <= size,
                data@ == Seq::new(i as nat, |j: int| 0u8),
            decreases size - i,
        {
            data.push(0u8);
            proof {
                assert(data@ =~= Seq::new((i + 1) as nat, |j: int| 0u8));
            }
            i = i + 1;
        }
        Blob { data }
    }

    /// Wraps existing bytes.
    pub fn new_with_data(data: Vec<u8>) -> (r: Self)
        ensures
            r@ == data@,
    {
        Blob { data }
    }

    pub fn len(&self) -> (r: usize)
        ensures
            r == self@.len(),
    {
        self.data.len()
    }

    /// Up to `bytes` bytes starting at `offset`, clipped to the end of the
    /// buffer. An offset beyond the end is not a valid read.
    pub fn read(&self, offset: usize, bytes: usize) -> (r: Vec<u8>)
        requires
            offset <= self@.len(),
        ensures
            r@ == self@.subrange(offset as int, read_end(self@.len(), offset as nat, bytes as nat)),
            r@.len() == if offset + bytes <= self@.len() {
                bytes as int
            } else {
                self@.len() - offset
            },
    {
        let len = self.data.len();
        let end = if bytes > len - offset {
            len
        } else {
            offset + bytes
        };
        let mut r: Vec<u8> = Vec::new();
        let mut i: usize = offset;
        while i < end
            invariant
                offset <= i <= end <= self@.len(),
                r@ == self@.subrange(offset as int, i as int),
        decreases end - i,
        {
            r.push(self.data[i]);
            proof {
                assert(r@ =~= self@.subrange(offset as int, i + 1 as int));
            }
            i = i + 1;
        }
        proof {
            assert(end as int == read_end(self@.len(), offset as nat, bytes as nat));
        }
        r
    }

    /// Writes `data` at `offset`, zero-filling any gap between the current
    /// end of the buffer and `offset` first.
    pub fn write(&mut self, offset: usize, data: &[u8])
        requires
            offset + data@.len() <= usize::MAX,
        ensures
            final(self)@ == write_result(old(self)@, offset as nat, data@),
    {
        let ghost orig = self.data@;
        let end = offset + data.len();
        while self.data.len() < end
            invariant
                orig.len() <= self.data@.len() <= if orig.len() >= end as int {
                    orig.len() as int
                } else {
                    end as int
                },
                forall|i: int| 0 <= i < orig.len() ==> self.data@[i] == orig[i],
                forall|i: int| orig.len() <= i < self.data@.len() ==> self.data@[i] == 0u8,
            decreases end - self.data.len(),
        {
            self.data.push(0u8);
        }
        let mut i: usize = 0;
        while i < data.len()
            invariant
                i <= data@.len(),
                offset + data@.len() == end <= self.data@.len(),
                self.data@.len() == if orig.len() >= end as int {
                    orig.len() as int
                } else {
                    end as int
                },
                forall|j: int| 0 <= j < orig.len() && !(offset <= j < offset + i) ==> self.data@[j]
                    == orig[j],
                forall|j: int| orig.len() <= j < self.data@.len() && !(offset <= j < offset + i)
                    ==> self.data@[j] == 0u8,
                forall|j: int| offset <= j < offset + i ==> self.data@[j] == data@[j - offset],
            decreases data@.len() - i,
        {
            self.data.set(offset + i, data[i]);
            i = i + 1;
        }
        proof {
            assert(self.data@ =~= write_result(orig, offset as nat, data@));
        }
    }

    /// A new blob holding a copy of the current bytes.
    pub fn duplicate(&self) -> (r: Self)
        ensures
            r@ == self@,
    {
        let d = self.read(0, self.data.len());
        proof {
            assert(d@ =~= self@);
        }
        Blob { data: d }
    }

    /// The content digest of the current bytes.
    pub fn hash(&self) -> (r: BlobHash)
        ensures
            r@ == digest_of(self@),
    {
        content_digest(self.data.as_slice())
    }
}

/// Sparse write: writing at an offset past the current end zero-fills the gap
/// and places the data at the offset; bytes before the old end are kept.
pub proof fn lemma_sparse_write(orig: Seq<u8>, offset: nat, data: Seq<u8>)
    requires
        offset > orig.len(),
    ensures
        write_result(orig, offset, data).len() == offset + data.len(),
        forall|i: int| 0 <= i < orig.len() ==> write_result(orig, offset, data)[i] == orig[i],
        forall|i: int| orig.len() <= i < offset ==> write_result(orig, offset, data)[i] == 0u8,
        forall|i: int|
            offset <= i < offset + data.len() ==> write_result(orig, offset, data)[i] == data[
                i - offset
            ],
{
}

} // verus!
