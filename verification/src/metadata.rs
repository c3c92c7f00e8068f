//! The metadata index: node-to-hash mappings and per-blob bookkeeping
//! (size, last-access recency, upload and residency state), consumed by the
//! store and the sync and eviction passes. The index itself is in-memory
//! state owned by the storage instance; durability of the index is the
//! embedding program's concern.

use vstd::prelude::*;
use crate::{BlobHash, StoreError, hash_eq};

verus! {

/// Bookkeeping for one piece of content.
#[derive(Clone, Copy)]
pub struct BlobRecord {
    /// The content address.
    pub hash: BlobHash,
    /// Size of the content in bytes.
    pub size: u64,
    /// Last-access timestamp.
    pub touched: i64,
    /// Confirmed present on the remote.
    pub synced: bool,
    /// Resident locally.
    pub present: bool,
    /// A local delete failed during the current reclamation pass; the
    /// candidate is skipped until the next pass.
    pub evict_failed: bool,
}

/// Content stored locally but not yet confirmed on the remote.
pub open spec fn pending_upload(rec: BlobRecord) -> bool {
    rec.present && !rec.synced
}

/// Content that a reclamation pass may delete locally: resident, already on
/// the remote, and not skipped in this pass.
pub open spec fn deletable(rec: BlobRecord) -> bool {
    rec.present && rec.synced && !rec.evict_failed
}

/// `s[j]` is a least-recently-touched deletable record.
pub open spec fn is_oldest(s: Seq<BlobRecord>, j: int) -> bool {
    forall|k: int| 0 <= k < s.len() && deletable(#[trigger] s[k]) ==> s[j].touched <= s[k].touched
}

/// Saturating add on u64.
pub open spec fn add_sat(a: u64, b: u64) -> u64 {
    if a + b <= u64::MAX {
        (a + b) as u64
    } else {
        u64::MAX
    }
}

/// Saturating subtract on u64.
pub open spec fn sub_sat(a: u64, b: u64) -> u64 {
    if a >= b {
        (a - b) as u64
    } else {
        0u64
    }
}

/// Some record in `s` carries `hash`.
pub open spec fn has_rec(s: Seq<BlobRecord>, hash: BlobHash) -> bool {
    exists|j: int| 0 <= j < s.len() && (#[trigger] s[j]).hash == hash
}

/// Some pair in `s` maps `node`.
pub open spec fn has_node(s: Seq<(u64, BlobHash)>, node: u64) -> bool {
    exists|j: int| 0 <= j < s.len() && (#[trigger] s[j]).0 == node
}

/// The position of the pair mapping `node`.
pub open spec fn has_node_index(s: Seq<(u64, BlobHash)>, node: u64) -> int {
    choose|j: int| 0 <= j < s.len() && (#[trigger] s[j]).0 == node
}

/// No two pairs in `s` map the same node.
pub open spec fn nodes_unique(s: Seq<(u64, BlobHash)>) -> bool {
    forall|i: int, j: int|
        0 <= i < j < s.len() ==> (#[trigger] s[i]).0 != (#[trigger] s[j]).0
}

/// No two records in `s` carry the same hash.
pub open spec fn recs_unique(s: Seq<BlobRecord>) -> bool {
    forall|i: int, j: int|
        0 <= i < j < s.len() ==> (#[trigger] s[i]).hash != (#[trigger] s[j]).hash
}

/// The node-to-hash mappings and the per-blob bookkeeping.
pub struct MetadataIndex {
    nodes: Vec<(u64, BlobHash)>,
    blobs: Vec<BlobRecord>,
    local_bytes: u64,
}

impl MetadataIndex {
    /// The node mappings, in insertion order.
    pub closed spec fn node_pairs(&self) -> Seq<(u64, BlobHash)> {
        self.nodes@
    }

    /// The blob records, in insertion order.
    pub closed spec fn records(&self) -> Seq<BlobRecord> {
        self.blobs@
    }

    /// Total bytes of content tracked as locally resident.
    pub closed spec fn tracked_local_bytes(&self) -> u64 {
        self.local_bytes
    }

    /// Each node is mapped at most once and each hash has at most one record.
    pub open spec fn wf(&self) -> bool {
        &&& nodes_unique(self.node_pairs())
        &&& recs_unique(self.records())
    }

    pub fn new() -> (r: Self)
        ensures
            r.wf(),
            r.node_pairs().len() == 0,
            r.records().len() == 0,
            r.tracked_local_bytes() == 0,
    {
        MetadataIndex { nodes: Vec::new(), blobs: Vec::new(), local_bytes: 0 }
    }

    /// Records `hash` as the current content of `node`, replacing any
    /// earlier mapping.
    pub fn set_node(&mut self, node: u64, hash: &BlobHash)
        requires
            old(self).wf(),
        ensures
            final(self).wf(),
            final(self).records() == old(self).records(),
            final(self).tracked_local_bytes() == old(self).tracked_local_bytes(),
            has_node(final(self).node_pairs(), node),
            forall|j: int|
                0 <= j < old(self).node_pairs().len() && (#[trigger] old(self).node_pairs()[j]).0
                    != node ==> final(self).node_pairs()[j] == old(self).node_pairs()[j],
            forall|j: int|
                0 <= j < old(self).node_pairs().len() && (#[trigger] old(self).node_pairs()[j]).0
                    == node ==> final(self).node_pairs() == old(self).node_pairs().update(
                    j,
                    (node, *hash),
                ),
            !has_node(old(self).node_pairs(), node) ==> final(self).node_pairs() == old(self).node_pairs().push((node, *hash)),
            forall|j: int|
                0 <= j < final(self).node_pairs().len()
                    && (#[trigger] final(self).node_pairs()[j]).0 == node
                    ==> final(self).node_pairs()[j].1 == *hash,
    {
        let n = self.nodes.len();
        let mut i: usize = 0;
        while i < n
            invariant
                old(self).wf(),
                n == self.nodes.len(),
                i <= n,
                self.nodes@ == old(self).nodes@,
                self.blobs@ == old(self).blobs@,
                self.local_bytes == old(self).local_bytes,
                forall|j: int| 0 <= j < i ==> (#[trigger] self.nodes@[j]).0 != node,
            decreases n - i,
        {
            if self.nodes[i].0 == node {
                self.nodes.set(i, (node, *hash));
                proof {
                    assert(self.node_pairs() == old(self).node_pairs().update(
                        i as int,
                        (node, *hash),
                    ));
                    assert(self.node_pairs()[i as int].0 == node);
                    assert forall|a: int, b: int|
                        0 <= a < b < self.node_pairs().len() implies (
                    #[trigger] self.node_pairs()[a]).0 != (#[trigger] self.node_pairs()[b]).0 by {
                        assert((old(self).node_pairs()[a]).0 != (old(self).node_pairs()[b]).0);
                        assert(self.node_pairs()[a].0 == old(self).node_pairs()[a].0);
                        assert(self.node_pairs()[b].0 == old(self).node_pairs()[b].0);
                    }
                }
                return ;
            }
            i = i + 1;
        }
        self.nodes.push((node, *hash));
        proof {
            assert(self.node_pairs()[self.node_pairs().len() - 1].0 == node);
            assert forall|a: int, b: int|
                0 <= a < b < self.node_pairs().len() implies (#[trigger] self.node_pairs()[a]).0
                != (#[trigger] self.node_pairs()[b]).0 by {
                if b < self.node_pairs().len() - 1 {
                    assert((old(self).node_pairs()[a]).0 != (old(self).node_pairs()[b]).0);
                } else {
                    assert((old(self).node_pairs()[a]).0 != node);
                }
            }
        }
    }

    /// The current content hash of `node`; `NotFound` if the node has no
    /// recorded hash.
    pub fn get_node(&self, node: u64) -> (r: Result<BlobHash, StoreError>)
        requires
            self.wf(),
        ensures
            r is Ok ==> exists|j: int|
                0 <= j < self.node_pairs().len() && #[trigger] self.node_pairs()[j] == (
                node,
                r.unwrap(),
                ),
            r is Err ==> r.unwrap_err() == StoreError::NotFound && !has_node(
                self.node_pairs(),
                node,
            ),
    {
        let n = self.nodes.len();
        let mut i: usize = 0;
        while i < n
            invariant
                n == self.nodes.len(),
                i <= n,
                forall|j: int| 0 <= j < i ==> (#[trigger] self.nodes@[j]).0 != node,
            decreases n - i,
        {
            if self.nodes[i].0 == node {
                let h = self.nodes[i].1;
                proof {
                    assert(self.node_pairs()[i as int] == (node, h));
                }
                return Ok(h);
            }
            i = i + 1;
        }
        Err(StoreError::NotFound)
    }

    pub fn node_exists(&self, node: u64) -> (r: bool)
        requires
            self.wf(),
        ensures
            r == has_node(self.node_pairs(), node),
    {
        match self.get_node(node) {
            Ok(_) => true,
            Err(_) => false,
        }
    }

    /// The largest mapped node identifier, or zero when none is mapped.
    pub fn max_node(&self) -> (r: u64)
        ensures
            forall|j: int|
                0 <= j < self.node_pairs().len() ==> (#[trigger] self.node_pairs()[j]).0 <= r,
            r != 0 ==> has_node(self.node_pairs(), r),
    {
        let n = self.nodes.len();
        let mut best: u64 = 0;
        let mut i: usize = 0;
        while i < n
            invariant
                n == self.nodes.len(),
                i <= n,
                forall|j: int| 0 <= j < i ==> (#[trigger] self.nodes@[j]).0 <= best,
                best != 0 ==> has_node(self.node_pairs(), best),
            decreases n - i,
        {
            if self.nodes[i].0 > best {
                best = self.nodes[i].0;
            }
            i = i + 1;
        }
        best
    }

    /// Index of the record carrying `hash`, if any.
    fn find_rec(&self, hash: &BlobHash) -> (r: Option<usize>)
        ensures
            (match r {
                Some(i) => i < self.records().len() && self.records()[i as int].hash == *hash,
                None => !has_rec(self.records(), *hash),
            }),
    {
        let n = self.blobs.len();
        let mut i: usize = 0;
        while i < n
            invariant
                n == self.blobs.len(),
                i <= n,
                forall|j: int| 0 <= j < i ==> (#[trigger] self.records()[j]).hash != *hash,
            decreases n - i,
        {
            if hash_eq(&self.blobs[i].hash, hash) {
                return Some(i);
            }
            i = i + 1;
        }
        None
    }

    /// Upserts bookkeeping for newly stored content: the record becomes
    /// resident with the given size and access time; a fresh record starts
    /// unsynced. Tracked local usage follows, saturating.
    pub fn set_blob(&mut self, hash: &BlobHash, size: u64, now: i64)
        requires
            old(self).wf(),
        ensures
            final(self).wf(),
            final(self).node_pairs() == old(self).node_pairs(),
            has_rec(final(self).records(), *hash),
            final(self).records().len() >= old(self).records().len(),
            forall|j: int|
                0 <= j < old(self).records().len() && (#[trigger] old(self).records()[j]).hash
                    != *hash ==> final(self).records()[j] == old(self).records()[j],
            forall|j: int|
                0 <= j < old(self).records().len() && (#[trigger] old(self).records()[j]).hash
                    == *hash ==> final(self).records() == old(self).records().update(
                    j,
                    (BlobRecord { size, touched: now, present: true, ..old(self).records()[j] }),
                ) && final(self).tracked_local_bytes() == (if old(self).records()[j].present {
                    add_sat(sub_sat(old(self).tracked_local_bytes(), old(self).records()[j].size), size)
                } else {
                    add_sat(old(self).tracked_local_bytes(), size)
                }),
            !has_rec(old(self).records(), *hash) ==> final(self).records() == old(
                self,
            ).records().push(
                (BlobRecord {
                    hash: *hash,
                    size,
                    touched: now,
                    synced: false,
                    present: true,
                    evict_failed: false,
                }),
            ) && final(self).tracked_local_bytes() == add_sat(old(self).tracked_local_bytes(), size),
    {
        match self.find_rec(hash) {
            Some(i) => {
                let old_rec = self.blobs[i];
                if old_rec.present {
                    self.local_bytes = sub_sat_exec(self.local_bytes, old_rec.size);
                }
                self.local_bytes = add_sat_exec(self.local_bytes, size);
                self.blobs.set(
                    i,
                    BlobRecord { size, touched: now, present: true, ..old_rec },
                );
                proof {
                    assert(self.records()[i as int].hash == *hash);
                    assert(has_rec(self.records(), *hash));
                    assert forall|a: int, b: int|
                        0 <= a < b < self.records().len() implies (#[trigger] self.records()[a]).hash
                        != (#[trigger] self.records()[b]).hash by {
                        assert(old(self).records()[a].hash != old(self).records()[b].hash);
                    }
                }
            },
            None => {
                self.local_bytes = add_sat_exec(self.local_bytes, size);
                self.blobs.push(
                    BlobRecord {
                        hash: *hash,
                        size,
                        touched: now,
                        synced: false,
                        present: true,
                        evict_failed: false,
                    },
                );
                proof {
                    assert(self.records()[self.records().len() - 1].hash == *hash);
                    assert(has_rec(self.records(), *hash));
                    assert forall|a: int, b: int|
                        0 <= a < b < self.records().len() implies (#[trigger] self.records()[a]).hash
                        != (#[trigger] self.records()[b]).hash by {
                        if b < self.records().len() - 1 {
                            assert(old(self).records()[a].hash != old(self).records()[b].hash);
                        } else {
                            assert(old(self).records()[a].hash != *hash);
                        }
                    }
                }
            },
        }
    }

    /// Updates the last-access time of the record carrying `hash`, if the
    /// index knows it; an unknown hash is ignored.
    pub fn touch_blob(&mut self, hash: &BlobHash, now: i64)
        requires
            old(self).wf(),
        ensures
            final(self).wf(),
            final(self).node_pairs() == old(self).node_pairs(),
            final(self).tracked_local_bytes() == old(self).tracked_local_bytes(),
            final(self).records().len() == old(self).records().len(),
            forall|j: int|
                0 <= j < old(self).records().len() && (#[trigger] old(self).records()[j]).hash
                    != *hash ==> final(self).records()[j] == old(self).records()[j],
            forall|j: int|
                0 <= j < old(self).records().len() && (#[trigger] old(self).records()[j]).hash
                    == *hash ==> final(self).records() == old(self).records().update(
                    j,
                    (BlobRecord { touched: now, ..old(self).records()[j] }),
                ),
            !has_rec(old(self).records(), *hash) ==> final(self).records() == old(self).records(),
    {
        match self.find_rec(hash) {
            Some(i) => {
                let old_rec = self.blobs[i];
                self.blobs.set(i, BlobRecord { touched: now, ..old_rec });
                proof {
                    assert forall|a: int, b: int|
                        0 <= a < b < self.records().len() implies (#[trigger] self.records()[a]).hash
                        != (#[trigger] self.records()[b]).hash by {
                        assert(old(self).records()[a].hash != old(self).records()[b].hash);
                    }
                }
            },
            None => {
                proof {
                    assert(self.records() =~= old(self).records());
                }
            },
        }
    }

    /// Marks content deleted (`permanent`) or live again (not `permanent`,
    /// after a re-fetch), adjusting tracked local usage accordingly.
    pub fn mark_deleted(&mut self, hash: &BlobHash, permanent: bool)
        requires
            old(self).wf(),
        ensures
            final(self).wf(),
            final(self).node_pairs() == old(self).node_pairs(),
            final(self).records().len() == old(self).records().len(),
            forall|j: int|
                0 <= j < old(self).records().len() && (#[trigger] old(self).records()[j]).hash
                    != *hash ==> final(self).records()[j] == old(self).records()[j],
            forall|j: int|
                0 <= j < old(self).records().len() && (#[trigger] old(self).records()[j]).hash
                    == *hash ==> final(self).records() == old(self).records().update(
                    j,
                    (BlobRecord { present: !permanent, ..old(self).records()[j] }),
                ) && final(self).tracked_local_bytes() == (if permanent && old(
                    self,
                ).records()[j].present {
                    sub_sat(old(self).tracked_local_bytes(), old(self).records()[j].size)
                } else if !permanent && !old(self).records()[j].present {
                    add_sat(old(self).tracked_local_bytes(), old(self).records()[j].size)
                } else {
                    old(self).tracked_local_bytes()
                }),
            !has_rec(old(self).records(), *hash) ==> final(self).records() == old(self).records()
                && final(self).tracked_local_bytes() == old(self).tracked_local_bytes(),
    {
        match self.find_rec(hash) {
            Some(i) => {
                let old_rec = self.blobs[i];
                if permanent && old_rec.present {
                    self.local_bytes = sub_sat_exec(self.local_bytes, old_rec.size);
                } else if !permanent && !old_rec.present {
                    self.local_bytes = add_sat_exec(self.local_bytes, old_rec.size);
                }
                self.blobs.set(i, BlobRecord { present: !permanent, ..old_rec });
                proof {
                    assert forall|a: int, b: int|
                        0 <= a < b < self.records().len() implies (#[trigger] self.records()[a]).hash
                        != (#[trigger] self.records()[b]).hash by {
                        assert(old(self).records()[a].hash != old(self).records()[b].hash);
                    }
                }
            },
            None => {
                proof {
                    assert(self.records() =~= old(self).records());
                }
            },
        }
    }

    /// Total bytes of content tracked as locally resident.
    pub fn localbytes(&self) -> (r: u64)
        ensures
            r == self.tracked_local_bytes(),
    {
        self.local_bytes
    }

    /// Upserts bookkeeping for a batch of newly stored content, in order.
    pub fn set_blobs(&mut self, list: &Vec<(BlobHash, u64, i64)>)
        requires
            old(self).wf(),
        ensures
            final(self).wf(),
            final(self).node_pairs() == old(self).node_pairs(),
            final(self).records().len() >= old(self).records().len(),
            forall|j: int|
                0 <= j < old(self).records().len() && !triple_listed(
                    list@,
                    (#[trigger] old(self).records()[j]).hash,
                ) ==> final(self).records()[j] == old(self).records()[j],
            forall|i: int|
                0 <= i < list@.len() ==> has_present_rec(
                    final(self).records(),
                    (#[trigger] list@[i]).0,
                ),
            forall|j: int|
                0 <= j < final(self).records().len() && triple_listed(
                    list@,
                    (#[trigger] final(self).records()[j]).hash,
                ) ==> final(self).records()[j].present && (exists|i: int|
                    0 <= i < list@.len() && (#[trigger] list@[i]).0 == final(self).records()[j].hash
                        && final(self).records()[j].size == list@[i].1
                        && final(self).records()[j].touched == list@[i].2),
            forall|j: int|
                old(self).records().len() <= j < final(self).records().len() ==> triple_listed(
                    list@,
                    (#[trigger] final(self).records()[j]).hash,
                ),
            forall|j: int|
                0 <= j < old(self).records().len() ==> (#[trigger] final(self).records()[j]).hash
                    == old(self).records()[j].hash,
            (triples_distinct(list@) && (forall|i: int|
                0 <= i < list@.len() ==> !has_rec(old(self).records(), (#[trigger] list@[i]).0))
                && old(self).tracked_local_bytes() + sum_sizes(list@) <= u64::MAX) ==> final(self).tracked_local_bytes() == old(self).tracked_local_bytes() + sum_sizes(list@),
    {
        let n = list.len();
        let mut k: usize = 0;
        while k < n
            invariant
                n == list@.len(),
                k <= n,
                self.wf(),
                self.node_pairs() == old(self).node_pairs(),
                self.records().len() >= old(self).records().len(),
                forall|j: int|
                    0 <= j < old(self).records().len() && !triple_listed(
                        list@.take(k as int),
                        (#[trigger] old(self).records()[j]).hash,
                    ) ==> self.records()[j] == old(self).records()[j],
                forall|i: int|
                    0 <= i < k ==> has_present_rec(self.records(), (#[trigger] list@[i]).0),
                forall|j: int|
                    0 <= j < self.records().len() && triple_listed(
                        list@.take(k as int),
                        (#[trigger] self.records()[j]).hash,
                    ) ==> self.records()[j].present && (exists|i: int|
                        0 <= i < k && (#[trigger] list@[i]).0 == self.records()[j].hash
                            && self.records()[j].size == list@[i].1 && self.records()[j].touched
                            == list@[i].2),
                forall|j: int|
                    old(self).records().len() <= j < self.records().len() ==> triple_listed(
                        list@.take(k as int),
                        (#[trigger] self.records()[j]).hash,
                    ),
                forall|j: int|
                    0 <= j < old(self).records().len() ==> (#[trigger] self.records()[j]).hash
                        == old(self).records()[j].hash,
                (triples_distinct(list@) && (forall|i: int|
                    0 <= i < list@.len() ==> !has_rec(old(self).records(), (#[trigger] list@[i]).0))
                    && old(self).tracked_local_bytes() + sum_sizes(list@) <= u64::MAX) ==> self.tracked_local_bytes() == old(self).tracked_local_bytes() + sum_sizes(list@.take(k as int)),
            decreases n - k,
        {
            let ghost prev = *self;
            let (hash, size, now) = list[k];
            self.set_blob(&hash, size, now);
            proof {
                assert(list@.take(k + 1 as int) =~= list@.take(k as int).push(list@[k as int]));
                assert forall|j: int|
                    0 <= j < old(self).records().len() && !triple_listed(
                        list@.take(k + 1 as int),
                        (#[trigger] old(self).records()[j]).hash,
                    ) implies self.records()[j] == old(self).records()[j] by {
                    let h0 = old(self).records()[j].hash;
                    if triple_listed(list@.take(k as int), h0) {
                        let w = choose|w: int|
                            0 <= w < k && (#[trigger] list@.take(k as int)[w]).0 == h0;
                        assert((list@.take(k + 1 as int)[w]).0 == h0);
                    }
                    assert(prev.records()[j] == old(self).records()[j]);
                    assert((list@.take(k + 1 as int)[k as int]).0 == hash);
                    assert(prev.records()[j].hash != hash);
                }
                assert forall|i: int|
                    0 <= i < k + 1 implies has_present_rec(self.records(), (#[trigger] list@[i]).0) by {
                    if i == k {
                        assert(has_rec(self.records(), hash));
                        let w = choose|w: int|
                            0 <= w < self.records().len() && (#[trigger] self.records()[w]).hash
                                == hash;
                        assert(self.records()[w].present) by {
                            if w < prev.records().len() && prev.records()[w].hash == hash {
                                assert(self.records() == prev.records().update(
                                    w,
                                    (BlobRecord {
                                        size,
                                        touched: now,
                                        present: true,
                                        ..prev.records()[w]
                                    }),
                                ));
                            } else {
                                if !has_rec(prev.records(), hash) {
                                    assert(self.records() == prev.records().push(
                                        (BlobRecord {
                                            hash,
                                            size,
                                            touched: now,
                                            synced: false,
                                            present: true,
                                            evict_failed: false,
                                        }),
                                    ));
                                    assert(w == self.records().len() - 1);
                                } else {
                                    let v = choose|v: int|
                                        0 <= v < prev.records().len() && (#[trigger] prev.records()[v]).hash
                                            == hash;
                                    assert(self.records() == prev.records().update(
                                        v,
                                        (BlobRecord {
                                            size,
                                            touched: now,
                                            present: true,
                                            ..prev.records()[v]
                                        }),
                                    ));
                                    assert(w == v);
                                }
                            }
                        }
                    } else {
                        let w = choose|w: int|
                            0 <= w < prev.records().len() && (#[trigger] prev.records()[w]).hash
                                == list@[i].0 && prev.records()[w].present;
                        if prev.records()[w].hash == hash {
                            assert(self.records() == prev.records().update(
                                w,
                                (BlobRecord { size, touched: now, present: true, ..prev.records()[w] }),
                            ));
                            assert(self.records()[w].present);
                        } else {
                            assert(self.records()[w] == prev.records()[w]);
                        }
                    }
                }
                assert forall|j: int|
                    0 <= j < old(self).records().len() implies (#[trigger] self.records()[j]).hash
                    == old(self).records()[j].hash by {
                    if prev.records()[j].hash == hash {
                        assert(self.records() == prev.records().update(
                            j,
                            (BlobRecord { size, touched: now, present: true, ..prev.records()[j] }),
                        ));
                    } else {
                        assert(self.records()[j] == prev.records()[j]);
                    }
                }
                assert forall|j: int|
                    0 <= j < self.records().len() && triple_listed(
                        list@.take(k + 1 as int),
                        (#[trigger] self.records()[j]).hash,
                    ) implies self.records()[j].present && (exists|i: int|
                        0 <= i < k + 1 && (#[trigger] list@[i]).0 == self.records()[j].hash
                            && self.records()[j].size == list@[i].1 && self.records()[j].touched
                            == list@[i].2) by {
                    if j < prev.records().len() && prev.records()[j].hash == hash {
                        assert(self.records() == prev.records().update(
                            j,
                            (BlobRecord { size, touched: now, present: true, ..prev.records()[j] }),
                        ));
                        assert(self.records()[j].hash == hash && self.records()[j].size == size
                            && self.records()[j].touched == now && self.records()[j].present);
                        assert(list@[k as int] == (hash, size, now));
                    } else if j >= prev.records().len() {
                        assert(!has_rec(prev.records(), hash));
                        assert(self.records() == prev.records().push(
                            (BlobRecord {
                                hash,
                                size,
                                touched: now,
                                synced: false,
                                present: true,
                                evict_failed: false,
                            }),
                        ));
                        assert(j == self.records().len() - 1);
                        assert(list@[k as int] == (hash, size, now));
                    } else {
                        assert(self.records()[j] == prev.records()[j]);
                        let w = choose|w: int|
                            0 <= w < k + 1 && (#[trigger] list@.take(k + 1 as int)[w]).0
                                == self.records()[j].hash;
                        assert(w != k);
                        assert(list@.take(k as int)[w].0 == prev.records()[j].hash);
                        assert(triple_listed(list@.take(k as int), prev.records()[j].hash));
                        let i0 = choose|i: int|
                            0 <= i < k && (#[trigger] list@[i]).0 == prev.records()[j].hash
                                && prev.records()[j].size == list@[i].1 && prev.records()[j].touched
                                == list@[i].2;
                        assert(0 <= i0 < k + 1 && list@[i0].0 == self.records()[j].hash
                            && self.records()[j].size == list@[i0].1 && self.records()[j].touched
                            == list@[i0].2);
                    }
                }
                assert forall|j: int|
                    old(self).records().len() <= j < self.records().len() implies triple_listed(
                        list@.take(k + 1 as int),
                        (#[trigger] self.records()[j]).hash,
                    ) by {
                    assert(list@.take(k + 1 as int)[k as int].0 == hash);
                    if j < prev.records().len() {
                        if prev.records()[j].hash == hash {
                            assert(self.records() == prev.records().update(
                                j,
                                (BlobRecord {
                                    size,
                                    touched: now,
                                    present: true,
                                    ..prev.records()[j]
                                }),
                            ));
                            assert(self.records()[j].hash == hash);
                        } else {
                            assert(self.records()[j] == prev.records()[j]);
                            assert(triple_listed(list@.take(k as int), prev.records()[j].hash));
                            let w = choose|w: int|
                                0 <= w < k && (#[trigger] list@.take(k as int)[w]).0
                                    == prev.records()[j].hash;
                            assert(list@.take(k + 1 as int)[w].0 == self.records()[j].hash);
                        }
                    } else {
                        assert(!has_rec(prev.records(), hash));
                        assert(self.records() == prev.records().push(
                            (BlobRecord {
                                hash,
                                size,
                                touched: now,
                                synced: false,
                                present: true,
                                evict_failed: false,
                            }),
                        ));
                        assert(self.records()[j].hash == hash);
                    }
                }
                if triples_distinct(list@) && (forall|i: int|
                    0 <= i < list@.len() ==> !has_rec(old(self).records(), (#[trigger] list@[i]).0))
                    && old(self).tracked_local_bytes() + sum_sizes(list@) <= u64::MAX {
                    assert(list@[k as int].0 == hash);
                    assert(!has_rec(prev.records(), hash)) by {
                        if has_rec(prev.records(), hash) {
                            let w = choose|w: int|
                                0 <= w < prev.records().len() && (#[trigger] prev.records()[w]).hash
                                    == hash;
                            if w < old(self).records().len() {
                                assert(old(self).records()[w].hash == hash);
                                assert(has_rec(old(self).records(), hash));
                                assert(false);
                            } else {
                                assert(triple_listed(list@.take(k as int), prev.records()[w].hash));
                                let v = choose|v: int|
                                    0 <= v < k && (#[trigger] list@.take(k as int)[v]).0 == hash;
                                assert(list@[v].0 == hash);
                                assert(false);
                            }
                        }
                    }
                    lemma_sum_sizes_take(list@, k as int);
                    lemma_sum_sizes_take(list@, k + 1 as int);
                    assert(list@.take(k + 1 as int).drop_last() =~= list@.take(k as int));
                    assert(sum_sizes(list@.take(k + 1 as int)) == sum_sizes(list@.take(k as int))
                        + size);
                    assert(self.tracked_local_bytes() == add_sat(prev.tracked_local_bytes(), size));
                    assert(prev.tracked_local_bytes() + size <= u64::MAX);
                    assert(self.tracked_local_bytes() == old(self).tracked_local_bytes()
                        + sum_sizes(list@.take(k + 1 as int)));
                }
            }
            k = k + 1;
        }
        proof {
            assert(list@.take(n as int) =~= list@);
        }
    }

    /// Updates last-access times for a batch of (hash, time) pairs, in order.
    pub fn touch_blobs(&mut self, list: &Vec<(BlobHash, i64)>)
        requires
            old(self).wf(),
        ensures
            final(self).wf(),
            final(self).node_pairs() == old(self).node_pairs(),
            final(self).tracked_local_bytes() == old(self).tracked_local_bytes(),
            final(self).records().len() == old(self).records().len(),
            forall|j: int|
                0 <= j < old(self).records().len() && !pair_listed(
                    list@,
                    (#[trigger] old(self).records()[j]).hash,
                ) ==> final(self).records()[j] == old(self).records()[j],
            forall|j: int|
                0 <= j < old(self).records().len() ==> ((#[trigger] final(self).records()[j]).hash
                    == old(self).records()[j].hash && final(self).records()[j].size == old(
                    self,
                ).records()[j].size && final(self).records()[j].synced == old(
                    self,
                ).records()[j].synced && final(self).records()[j].present == old(
                    self,
                ).records()[j].present && final(self).records()[j].evict_failed == old(
                    self,
                ).records()[j].evict_failed),
            forall|j: int|
                0 <= j < old(self).records().len() && pair_listed(
                    list@,
                    (#[trigger] old(self).records()[j]).hash,
                ) ==> exists|i: int|
                    0 <= i < list@.len() && (#[trigger] list@[i]).0 == old(self).records()[j].hash
                        && final(self).records()[j].touched == list@[i].1,
    {
        let n = list.len();
        let mut k: usize = 0;
        while k < n
            invariant
                n == list@.len(),
                k <= n,
                self.wf(),
                self.node_pairs() == old(self).node_pairs(),
                self.tracked_local_bytes() == old(self).tracked_local_bytes(),
                self.records().len() == old(self).records().len(),
                forall|j: int|
                    0 <= j < old(self).records().len() && pair_listed(
                        list@.take(k as int),
                        (#[trigger] old(self).records()[j]).hash,
                    ) ==> exists|i: int|
                        0 <= i < k && (#[trigger] list@[i]).0 == old(self).records()[j].hash
                            && self.records()[j].touched == list@[i].1,
                forall|j: int|
                    0 <= j < old(self).records().len() && !pair_listed(
                        list@.take(k as int),
                        (#[trigger] old(self).records()[j]).hash,
                    ) ==> self.records()[j] == old(self).records()[j],
                forall|j: int|
                    0 <= j < old(self).records().len() ==> ((#[trigger] self.records()[j]).hash
                        == old(self).records()[j].hash && self.records()[j].size == old(
                        self,
                    ).records()[j].size && self.records()[j].synced == old(
                        self,
                    ).records()[j].synced && self.records()[j].present == old(
                        self,
                    ).records()[j].present && self.records()[j].evict_failed == old(
                        self,
                    ).records()[j].evict_failed),
            decreases n - k,
        {
            let ghost prev = *self;
            let (hash, now) = list[k];
            self.touch_blob(&hash, now);
            proof {
                assert(list@.take(k + 1 as int) =~= list@.take(k as int).push(list@[k as int]));
                assert forall|j: int|
                    0 <= j < old(self).records().len() && !pair_listed(
                        list@.take(k + 1 as int),
                        (#[trigger] old(self).records()[j]).hash,
                    ) implies self.records()[j] == old(self).records()[j] by {
                    let h0 = old(self).records()[j].hash;
                    if pair_listed(list@.take(k as int), h0) {
                        let w = choose|w: int|
                            0 <= w < k && (#[trigger] list@.take(k as int)[w]).0 == h0;
                        assert((list@.take(k + 1 as int)[w]).0 == h0);
                    }
                    assert(prev.records()[j] == old(self).records()[j]);
                    assert((list@.take(k + 1 as int)[k as int]).0 == hash);
                    assert(prev.records()[j].hash != hash);
                }
                assert forall|j: int|
                    0 <= j < old(self).records().len() && pair_listed(
                        list@.take(k + 1 as int),
                        (#[trigger] old(self).records()[j]).hash,
                    ) implies exists|i: int|
                        0 <= i < k + 1 && (#[trigger] list@[i]).0 == old(self).records()[j].hash
                            && self.records()[j].touched == list@[i].1 by {
                    if old(self).records()[j].hash == hash {
                        assert(prev.records()[j].hash == hash);
                        assert(self.records() == prev.records().update(
                            j,
                            (BlobRecord { touched: now, ..prev.records()[j] }),
                        ));
                        assert(list@[k as int].0 == hash && list@[k as int].1 == now);
                        assert(self.records()[j].touched == now);
                    } else {
                        assert(prev.records()[j].hash != hash);
                        assert(self.records()[j] == prev.records()[j]);
                        let w = choose|w: int|
                            0 <= w < k + 1 && (#[trigger] list@.take(k + 1 as int)[w]).0 == old(self).records()[j].hash;
                        assert(w != k);
                        assert(list@.take(k as int)[w].0 == old(self).records()[j].hash);
                        assert(pair_listed(list@.take(k as int), old(self).records()[j].hash));
                        let i0 = choose|i: int|
                            0 <= i < k && (#[trigger] list@[i]).0 == old(self).records()[j].hash
                                && prev.records()[j].touched == list@[i].1;
                        assert(0 <= i0 < k + 1 && list@[i0].0 == old(self).records()[j].hash
                            && self.records()[j].touched == list@[i0].1);
                    }
                }
            }
            k = k + 1;
        }
        proof {
            assert(list@.take(n as int) =~= list@);
        }
    }

    /// Marks the listed hashes as confirmed on the remote; every other field
    /// of every record is kept.
    pub fn mark_synced_blobs(&mut self, hashes: &Vec<BlobHash>)
        requires
            old(self).wf(),
        ensures
            final(self).wf(),
            final(self).node_pairs() == old(self).node_pairs(),
            final(self).tracked_local_bytes() == old(self).tracked_local_bytes(),
            final(self).records().len() == old(self).records().len(),
            forall|j: int|
                0 <= j < old(self).records().len() ==> final(self).records()[j] == (BlobRecord {
                    synced: old(self).records()[j].synced || hash_listed(
                        hashes@,
                        (#[trigger] old(self).records()[j]).hash,
                    ),
                    ..old(self).records()[j]
                }),
    {
        let n = self.blobs.len();
        let mut j: usize = 0;
        while j < n
            invariant
                old(self).wf(),
                n == self.blobs.len(),
                j <= n,
                self.wf(),
                self.node_pairs() == old(self).node_pairs(),
                self.tracked_local_bytes() == old(self).tracked_local_bytes(),
                self.records().len() == old(self).records().len(),
                forall|a: int|
                    0 <= a < j ==> self.records()[a] == (BlobRecord {
                        synced: old(self).records()[a].synced || hash_listed(
                            hashes@,
                            (#[trigger] old(self).records()[a]).hash,
                        ),
                        ..old(self).records()[a]
                    }),
                forall|a: int|
                    j <= a < n ==> (#[trigger] self.records()[a]) == old(self).records()[a],
            decreases n - j,
        {
            let rec = self.blobs[j];
            if hash_list_contains(hashes, &rec.hash) {
                self.blobs.set(j, BlobRecord { synced: true, ..rec });
            }
            proof {
                assert forall|a: int, b: int|
                    0 <= a < b < self.records().len() implies (#[trigger] self.records()[a]).hash
                    != (#[trigger] self.records()[b]).hash by {
                    assert(old(self).records()[a].hash != old(self).records()[b].hash);
                    assert(self.records()[a].hash == old(self).records()[a].hash);
                    assert(self.records()[b].hash == old(self).records()[b].hash);
                }
            }
            j = j + 1;
        }
    }

    /// The hashes of all content stored locally but not yet confirmed on the
    /// remote: everything a sync pass still has to upload.
    pub fn to_upload(&self) -> (r: Vec<BlobHash>)
        requires
            self.wf(),
        ensures
            forall|i: int| 0 <= i < r@.len() ==> has_pending_rec(self.records(), #[trigger] r@[i]),
            forall|j: int|
                0 <= j < self.records().len() && pending_upload(#[trigger] self.records()[j])
                    ==> hash_listed(r@, self.records()[j].hash),
    {
        let n = self.blobs.len();
        let mut r: Vec<BlobHash> = Vec::new();
        let mut j: usize = 0;
        while j < n
            invariant
                n == self.blobs.len(),
                j <= n,
                forall|i: int|
                    0 <= i < r@.len() ==> has_pending_rec(self.records(), #[trigger] r@[i]),
                forall|a: int|
                    0 <= a < j && pending_upload(#[trigger] self.records()[a]) ==> hash_listed(
                        r@,
                        self.records()[a].hash,
                    ),
            decreases n - j,
        {
            let rec = self.blobs[j];
            let ghost prev_r = r@;
            if rec.present && !rec.synced {
                r.push(rec.hash);
                proof {
                    assert(r@[r@.len() - 1] == rec.hash);
                    assert forall|i: int|
                        0 <= i < r@.len() implies has_pending_rec(self.records(), #[trigger] r@[i]) by {
                        if i < prev_r.len() {
                            assert(r@[i] == prev_r[i]);
                            assert(has_pending_rec(self.records(), prev_r[i]));
                        } else {
                            assert(r@[i] == rec.hash);
                            assert(self.records()[j as int].hash == rec.hash && pending_upload(
                                self.records()[j as int],
                            ));
                        }
                    }
                    assert forall|a: int|
                        0 <= a < j + 1 && pending_upload(#[trigger] self.records()[a]) implies
                        hash_listed(r@, self.records()[a].hash) by {
                        if a < j {
                            assert(hash_listed(prev_r, self.records()[a].hash));
                            let w = choose|w: int|
                                0 <= w < prev_r.len() && prev_r[w] == self.records()[a].hash;
                            assert(r@[w] == self.records()[a].hash);
                        } else {
                            assert(r@[r@.len() - 1] == self.records()[a].hash);
                        }
                    }
                }
            }
            j = j + 1;
        }
        r
    }

    /// The next eviction candidate: a least-recently-touched record that is
    /// resident, confirmed on the remote, and not skipped in this pass.
    /// `None` when no such record remains.
    pub fn to_delete(&self) -> (r: Option<(BlobHash, u64)>)
        requires
            self.wf(),
        ensures
            r is None ==> forall|j: int|
                0 <= j < self.records().len() ==> !deletable(#[trigger] self.records()[j]),
            r is Some ==> exists|j: int|
                0 <= j < self.records().len() && (#[trigger] self.records()[j]).hash == r.unwrap().0
                    && deletable(self.records()[j]) && self.records()[j].size == r.unwrap().1
                    && is_oldest(self.records(), j),
    {
        let n = self.blobs.len();
        let mut best: Option<usize> = None;
        let mut j: usize = 0;
        while j < n
            invariant
                n == self.blobs.len(),
                j <= n,
                (match best {
                    None => forall|a: int| 0 <= a < j ==> !deletable(#[trigger] self.records()[a]),
                    Some(b) => b < j && deletable(self.records()[b as int]) && (forall|a: int|
                        0 <= a < j && deletable(#[trigger] self.records()[a]) ==> self.records()[
                            b as int
                        ].touched <= self.records()[a].touched),
                }),
            decreases n - j,
        {
            let rec = self.blobs[j];
            if rec.present && rec.synced && !rec.evict_failed {
                match best {
                    None => {
                        best = Some(j);
                    },
                    Some(b) => {
                        if rec.touched < self.blobs[b].touched {
                            best = Some(j);
                        }
                    },
                }
            }
            j = j + 1;
        }
        match best {
            None => None,
            Some(b) => {
                let rec = self.blobs[b];
                proof {
                    assert(self.records()[b as int].hash == rec.hash);
                }
                Some((rec.hash, rec.size))
            },
        }
    }

    /// Skips a candidate whose local delete failed, until the next pass.
    pub fn skip_candidate(&mut self, hash: &BlobHash)
        requires
            old(self).wf(),
        ensures
            final(self).wf(),
            final(self).node_pairs() == old(self).node_pairs(),
            final(self).tracked_local_bytes() == old(self).tracked_local_bytes(),
            final(self).records().len() == old(self).records().len(),
            forall|j: int|
                0 <= j < old(self).records().len() && (#[trigger] old(self).records()[j]).hash
                    != *hash ==> final(self).records()[j] == old(self).records()[j],
            forall|j: int|
                0 <= j < old(self).records().len() && (#[trigger] old(self).records()[j]).hash
                    == *hash ==> final(self).records() == old(self).records().update(
                    j,
                    (BlobRecord { evict_failed: true, ..old(self).records()[j] }),
                ),
            !has_rec(old(self).records(), *hash) ==> final(self).records() == old(self).records(),
    {
        match self.find_rec(hash) {
            Some(i) => {
                let old_rec = self.blobs[i];
                self.blobs.set(i, BlobRecord { evict_failed: true, ..old_rec });
                proof {
                    assert forall|a: int, b: int|
                        0 <= a < b < self.records().len() implies (#[trigger] self.records()[a]).hash
                        != (#[trigger] self.records()[b]).hash by {
                        assert(old(self).records()[a].hash != old(self).records()[b].hash);
                    }
                }
            },
            None => {
                proof {
                    assert(self.records() =~= old(self).records());
                }
            },
        }
    }

    /// Clears all per-pass eviction skips at the start of a reclamation pass.
    pub fn clear_eviction_skips(&mut self)
        requires
            old(self).wf(),
        ensures
            final(self).wf(),
            final(self).node_pairs() == old(self).node_pairs(),
            final(self).tracked_local_bytes() == old(self).tracked_local_bytes(),
            final(self).records().len() == old(self).records().len(),
            forall|j: int|
                0 <= j < old(self).records().len() ==> final(self).records()[j] == (BlobRecord {
                    evict_failed: false,
                    ..(#[trigger] old(self).records()[j])
                }),
    {
        let n = self.blobs.len();
        let mut j: usize = 0;
        while j < n
            invariant
                old(self).wf(),
                n == self.blobs.len(),
                j <= n,
                self.node_pairs() == old(self).node_pairs(),
                self.tracked_local_bytes() == old(self).tracked_local_bytes(),
                self.records().len() == old(self).records().len(),
                forall|a: int|
                    0 <= a < j ==> self.records()[a] == (BlobRecord {
                        evict_failed: false,
                        ..(#[trigger] old(self).records()[a])
                    }),
                forall|a: int|
                    j <= a < n ==> (#[trigger] self.records()[a]) == old(self).records()[a],
            decreases n - j,
        {
            let rec = self.blobs[j];
            self.blobs.set(j, BlobRecord { evict_failed: false, ..rec });
            j = j + 1;
        }
        proof {
            assert forall|a: int, b: int|
                0 <= a < b < self.records().len() implies (#[trigger] self.records()[a]).hash != (
            #[trigger] self.records()[b]).hash by {
                assert(old(self).records()[a].hash != old(self).records()[b].hash);
                assert(self.records()[a].hash == old(self).records()[a].hash);
                assert(self.records()[b].hash == old(self).records()[b].hash);
            }
        }
    }
}

/// Some record in `s` carries `hash` and is resident.
pub open spec fn has_present_rec(s: Seq<BlobRecord>, hash: BlobHash) -> bool {
    exists|j: int| 0 <= j < s.len() && (#[trigger] s[j]).hash == hash && s[j].present
}

/// Some record in `s` carries `h` and is pending upload.
pub open spec fn has_pending_rec(s: Seq<BlobRecord>, h: BlobHash) -> bool {
    exists|j: int| 0 <= j < s.len() && (#[trigger] s[j]).hash == h && pending_upload(s[j])
}

/// `h` occurs in a list of hashes.
pub open spec fn hash_listed(hs: Seq<BlobHash>, h: BlobHash) -> bool {
    exists|i: int| 0 <= i < hs.len() && hs[i] == h
}

/// `h` occurs among the hashes of a (hash, size, time) list.
pub open spec fn triple_listed(ls: Seq<(BlobHash, u64, i64)>, h: BlobHash) -> bool {
    exists|i: int| 0 <= i < ls.len() && (#[trigger] ls[i]).0 == h
}

/// The sum of the sizes in a (hash, size, time) list.
pub open spec fn sum_sizes(ls: Seq<(BlobHash, u64, i64)>) -> int
    decreases ls.len(),
{
    if ls.len() == 0 {
        0
    } else {
        sum_sizes(ls.drop_last()) + ls.last().1
    }
}

/// The hashes of a (hash, size, time) list are pairwise distinct.
pub open spec fn triples_distinct(ls: Seq<(BlobHash, u64, i64)>) -> bool {
    forall|i: int, j: int| 0 <= i < j < ls.len() ==> (#[trigger] ls[i]).0 != (#[trigger] ls[j]).0
}

/// A sum of sizes is never negative.
pub proof fn lemma_sum_sizes_nonneg(ls: Seq<(BlobHash, u64, i64)>)
    ensures
        sum_sizes(ls) >= 0,
    decreases ls.len(),
{
    if ls.len() > 0 {
        lemma_sum_sizes_nonneg(ls.drop_last());
    }
}

/// A prefix sum of sizes is at most the whole, and never negative.
pub proof fn lemma_sum_sizes_take(ls: Seq<(BlobHash, u64, i64)>, k: int)
    requires
        0 <= k <= ls.len(),
    ensures
        0 <= sum_sizes(ls.take(k)) <= sum_sizes(ls),
    decreases ls.len() - k,
{
    lemma_sum_sizes_nonneg(ls.take(k));
    if k == ls.len() {
        assert(ls.take(k) =~= ls);
    } else {
        lemma_sum_sizes_take(ls, k + 1);
        assert(ls.take(k + 1).drop_last() =~= ls.take(k));
        assert(sum_sizes(ls.take(k + 1)) == sum_sizes(ls.take(k)) + ls[k].1);
    }
}

/// `h` occurs among the hashes of a (hash, time) list.
pub open spec fn pair_listed(ls: Seq<(BlobHash, i64)>, h: BlobHash) -> bool {
    exists|i: int| 0 <= i < ls.len() && (#[trigger] ls[i]).0 == h
}

/// Whether a list of hashes contains `h`.
pub fn hash_list_contains(hs: &Vec<BlobHash>, h: &BlobHash) -> (r: bool)
    ensures
        r == hash_listed(hs@, *h),
{
    let n = hs.len();
    let mut i: usize = 0;
    while i < n
        invariant
            n == hs@.len(),
            i <= n,
            forall|j: int| 0 <= j < i ==> hs@[j] != *h,
        decreases n - i,
    {
        if hash_eq(&hs[i], h) {
            proof {
                assert(hs@[i as int] == *h);
            }
            return true;
        }
        i = i + 1;
    }
    false
}

/// Upload drain: a sync pass that asks for everything pending and marks all
/// of it synced leaves nothing pending; a following pass has nothing to do.
pub proof fn lemma_upload_drain(
    old_recs: Seq<BlobRecord>,
    hashes: Seq<BlobHash>,
    new_recs: Seq<BlobRecord>,
)
    requires
        new_recs.len() == old_recs.len(),
        forall|j: int|
            0 <= j < old_recs.len() ==> new_recs[j] == (BlobRecord {
                synced: old_recs[j].synced || hash_listed(hashes, (#[trigger] old_recs[j]).hash),
                ..old_recs[j]
            }),
        forall|j: int|
            0 <= j < old_recs.len() && pending_upload(#[trigger] old_recs[j]) ==> hash_listed(
                hashes,
                old_recs[j].hash,
            ),
    ensures
        forall|j: int| 0 <= j < new_recs.len() ==> !pending_upload(#[trigger] new_recs[j]),
{
    assert forall|j: int| 0 <= j < new_recs.len() implies !pending_upload(new_recs[j]) by {
        if pending_upload(old_recs[j]) {
            assert(hash_listed(hashes, old_recs[j].hash));
            assert(new_recs[j].synced);
        } else {
            assert(!old_recs[j].present || old_recs[j].synced);
        }
    }
}

/// Exec saturating add matching `add_sat`.
pub fn add_sat_exec(a: u64, b: u64) -> (r: u64)
    ensures
        r == add_sat(a, b),
{
    if a <= u64::MAX - b {
        a + b
    } else {
        u64::MAX
    }
}

/// Exec saturating subtract matching `sub_sat`.
pub fn sub_sat_exec(a: u64, b: u64) -> (r: u64)
    ensures
        r == sub_sat(a, b),
{
    if a >= b {
        a - b
    } else {
        0
    }
}

} // verus!
