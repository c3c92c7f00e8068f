//! The block cache: a partitioned map from (logical node, block index) to an
//! in-memory blob, absorbing repeated small reads and writes before a flush
//! commits them to the content store. Entries are spread over a fixed number
//! of independent shards selected by a stable function of the node
//! identifier, so an embedding program can lock shards independently.

use vstd::prelude::*;
use crate::blob::Blob;

verus! {

/// Number of independent shards.
pub const SHARD_COUNT: usize = 8;

/// The shard that holds a node's cached blocks.
pub open spec fn shard_of(node: u64) -> int {
    node as int % (SHARD_COUNT as int)
}

/// One cached block of one node.
pub struct CacheEntry {
    pub node: u64,
    pub block: usize,
    pub blob: Blob,
}

/// Some entry in `s` is keyed (node, block).
pub open spec fn entry_at(s: Seq<CacheEntry>, node: u64, block: usize) -> bool {
    exists|i: int| 0 <= i < s.len() && (#[trigger] s[i]).node == node && s[i].block == block
}

/// The index of the entry keyed (node, block).
pub open spec fn entry_index(s: Seq<CacheEntry>, node: u64, block: usize) -> int {
    choose|i: int| 0 <= i < s.len() && (#[trigger] s[i]).node == node && s[i].block == block
}

/// No two entries in `s` share a key.
pub open spec fn shard_unique(s: Seq<CacheEntry>) -> bool {
    forall|i: int, j: int|
        0 <= i < j < s.len() ==> !((#[trigger] s[i]).node == (#[trigger] s[j]).node && s[i].block
            == s[j].block)
}

/// With unique keys, a matching position is the entry's only position.
pub proof fn lemma_entry_index_is(s: Seq<CacheEntry>, node: u64, block: usize, i: int)
    requires
        shard_unique(s),
        0 <= i < s.len(),
        s[i].node == node,
        s[i].block == block,
    ensures
        entry_at(s, node, block),
        entry_index(s, node, block) == i,
{
    assert(entry_at(s, node, block));
    let w = entry_index(s, node, block);
    assert(0 <= w < s.len() && s[w].node == node && s[w].block == block);
    if w != i {
        assert(false);
    }
}

/// Every key other than (node, block) is cached the same way in `c1` as in
/// `c0`, with the same bytes.
pub open spec fn keeps_others(c1: BlockCache, c0: BlockCache, node: u64, block: usize) -> bool {
    forall|n: u64, b: usize|
        !(n == node && b == block) ==> (#[trigger] c1.has_cached(n, b)) == c0.has_cached(n, b) && (
        c0.has_cached(n, b) ==> c1.cached_bytes(n, b) == c0.cached_bytes(n, b))
}

/// The sharded map from (node, block) to the blob cached there.
pub struct BlockCache {
    shards: Vec<Vec<CacheEntry>>,
}

impl BlockCache {
    /// The entries of shard `t`.
    pub closed spec fn shard(&self, t: int) -> Seq<CacheEntry> {
        self.shards@[t]@
    }

    /// How many shards the cache holds.
    pub closed spec fn num_shards(&self) -> nat {
        self.shards@.len()
    }

    /// All shards exist, keys are unique, and every entry sits in its node's
    /// shard.
    pub open spec fn wf(&self) -> bool {
        &&& self.num_shards() == SHARD_COUNT
        &&& (forall|t: int| 0 <= t < SHARD_COUNT ==> shard_unique(#[trigger] self.shard(t)))
        &&& (forall|t: int, i: int|
            0 <= t < SHARD_COUNT && 0 <= i < self.shard(t).len() ==> shard_of(
                (#[trigger] self.shard(t)[i]).node,
            ) == t)
    }

    /// A blob is cached for (node, block).
    pub open spec fn has_cached(&self, node: u64, block: usize) -> bool {
        entry_at(self.shard(shard_of(node)), node, block)
    }

    /// The bytes cached for (node, block).
    pub open spec fn cached_bytes(&self, node: u64, block: usize) -> Seq<u8> {
        self.shard(shard_of(node))[entry_index(self.shard(shard_of(node)), node, block)].blob@
    }

    /// An empty cache.
    pub fn new() -> (r: Self)
        ensures
            r.wf(),
            forall|n: u64, b: usize| !r.has_cached(n, b),
    {
        let mut shards: Vec<Vec<CacheEntry>> = Vec::new();
        let mut t: usize = 0;
        while t < SHARD_COUNT
            invariant
                t <= SHARD_COUNT,
                shards@.len() == t,
                forall|u: int| 0 <= u < t ==> (#[trigger] shards@[u])@.len() == 0,
            decreases SHARD_COUNT - t,
        {
            shards.push(Vec::new());
            t = t + 1;
        }
        BlockCache { shards }
    }

    /// Serves a clipped read from the cached blob for (node, block), if one
    /// is there; the cache itself is untouched.
    pub fn read_cached(&self, node: u64, block: usize, offset: usize, bytes: usize) -> (r: Option<
        Vec<u8>,
    >)
        requires
            self.wf(),
            self.has_cached(node, block) ==> offset <= self.cached_bytes(node, block).len(),
        ensures
            r is Some <==> self.has_cached(node, block),
            r is Some ==> r.unwrap()@ == self.cached_bytes(node, block).subrange(
                offset as int,
                crate::blob::read_end(
                    self.cached_bytes(node, block).len(),
                    offset as nat,
                    bytes as nat,
                ),
            ),
    {
        let sidx = (node % (SHARD_COUNT as u64)) as usize;
        proof {
            assert(sidx as int == shard_of(node));
        }
        match find_entry(&self.shards[sidx], node, block) {
            Some(i) => {
                proof {
                    lemma_entry_index_is(self.shard(shard_of(node)), node, block, i as int);
                }
                Some(self.shards[sidx][i].blob.read(offset, bytes))
            },
            None => None,
        }
    }

    /// Writes into the cached blob for (node, block) in place; reports
    /// whether there was one. Every other entry is untouched.
    pub fn write_cached(&mut self, node: u64, block: usize, offset: usize, data: &[u8]) -> (hit:
        bool)
        requires
            old(self).wf(),
            offset + data@.len() <= usize::MAX,
        ensures
            final(self).wf(),
            hit == old(self).has_cached(node, block),
            hit ==> final(self).has_cached(node, block) && final(self).cached_bytes(node, block)
                == crate::blob::write_result(
                old(self).cached_bytes(node, block),
                offset as nat,
                data@,
            ),
            !hit ==> *final(self) == *old(self),
            keeps_others(*final(self), *old(self), node, block),
    {
        let sidx = (node % (SHARD_COUNT as u64)) as usize;
        proof {
            assert(sidx as int == shard_of(node));
        }
        let found = find_entry(&self.shards[sidx], node, block);
        match found {
            Some(i) => {
                let ghost old_shard = self.shard(shard_of(node));
                proof {
                    lemma_entry_index_is(old_shard, node, block, i as int);
                }
                let mut shard = self.shards.remove(sidx);
                let mut entry = shard.remove(i);
                entry.blob.write(offset, data);
                let ghost new_entry = entry;
                shard.insert(i, entry);
                self.shards.insert(sidx, shard);
                proof {
                    assert(self.shards@ =~= old(self).shards@.update(sidx as int, self.shards@[sidx as int]));
                    assert(self.shard(shard_of(node)) =~= old_shard.update(i as int, new_entry));
                    self.lemma_update_same_key(*old(self), node, block, i as int, new_entry);
                }
                true
            },
            None => {
                proof {
                    assert(*self =~= *old(self)) by {
                        assert(self.shards@ =~= old(self).shards@);
                    }
                    assert(keeps_others(*self, *old(self), node, block));
                }
                false
            },
        }
    }

    /// After shard `shard_of(node)` was updated at a position keyed
    /// (node, block) with an entry keyed the same, the cache is well formed
    /// and every other key is untouched.
    proof fn lemma_update_same_key(
        &self,
        prev: Self,
        node: u64,
        block: usize,
        i: int,
        e: CacheEntry,
    )
        requires
            prev.wf(),
            0 <= i < prev.shard(shard_of(node)).len(),
            prev.shard(shard_of(node))[i].node == node,
            prev.shard(shard_of(node))[i].block == block,
            e.node == node,
            e.block == block,
            self.num_shards() == SHARD_COUNT,
            self.shard(shard_of(node)) == prev.shard(shard_of(node)).update(i, e),
            forall|t: int|
                0 <= t < SHARD_COUNT && t != shard_of(node) ==> #[trigger] self.shard(t)
                    == prev.shard(t),
        ensures
            self.wf(),
            self.has_cached(node, block),
            self.cached_bytes(node, block) == e.blob@,
            keeps_others(*self, prev, node, block),
    {
        let s0 = prev.shard(shard_of(node));
        let s1 = self.shard(shard_of(node));
        assert forall|t: int| 0 <= t < SHARD_COUNT implies shard_unique(#[trigger] self.shard(t))
            && (forall|a: int|
            0 <= a < self.shard(t).len() ==> shard_of((#[trigger] self.shard(t)[a]).node)
                == t) by {
            if t == shard_of(node) {
                assert forall|a: int, b: int|
                    0 <= a < b < s1.len() implies !((#[trigger] s1[a]).node == (
                #[trigger] s1[b]).node && s1[a].block == s1[b].block) by {
                    assert(!((s0[a]).node == (s0[b]).node && s0[a].block == s0[b].block));
                }
                assert forall|a: int|
                    0 <= a < self.shard(t).len() implies shard_of(
                    (#[trigger] self.shard(t)[a]).node,
                ) == t by {
                    if a != i {
                        assert(s1[a] == s0[a]);
                    }
                }
            } else {
                assert(self.shard(t) == prev.shard(t));
            }
        }
        lemma_entry_index_is(s1, node, block, i);
        assert forall|n: u64, b: usize|
            !(n == node && b == block) implies (#[trigger] self.has_cached(n, b))
            == prev.has_cached(n, b) && (prev.has_cached(n, b) ==> self.cached_bytes(n, b)
            == prev.cached_bytes(n, b)) by {
            if shard_of(n) != shard_of(node) {
                assert(self.shard(shard_of(n)) == prev.shard(shard_of(n)));
            } else {
                assert forall|w: int|
                    0 <= w < s1.len() && (#[trigger] s1[w]).node == n && s1[w].block == b implies (
                s0[w].node == n && s0[w].block == b) by {
                    if w == i {
                        assert(false);
                    }
                }
                if prev.has_cached(n, b) {
                    let w0 = entry_index(s0, n, b);
                    assert(0 <= w0 < s0.len() && s0[w0].node == n && s0[w0].block == b);
                    if w0 == i {
                        assert(false);
                    }
                    assert(s1[w0] == s0[w0]);
                    lemma_entry_index_is(s1, n, b, w0);
                }
                if entry_at(s1, n, b) {
                    let w1 = entry_index(s1, n, b);
                    assert(0 <= w1 < s1.len() && s1[w1].node == n && s1[w1].block == b);
                    assert(s0[w1].node == n && s0[w1].block == b);
                    assert(entry_at(s0, n, b));
                }
            }
        }
    }

    /// Caches `blob` for (node, block), replacing what was there. Every
    /// other entry is untouched.
    pub fn insert(&mut self, node: u64, block: usize, blob: Blob)
        requires
            old(self).wf(),
        ensures
            final(self).wf(),
            final(self).has_cached(node, block),
            final(self).cached_bytes(node, block) == blob@,
            keeps_others(*final(self), *old(self), node, block),
    {
        let sidx = (node % (SHARD_COUNT as u64)) as usize;
        proof {
            assert(sidx as int == shard_of(node));
        }
        let found = find_entry(&self.shards[sidx], node, block);
        let mut shard = self.shards.remove(sidx);
        let ghost old_shard = shard@;
        let entry = CacheEntry { node, block, blob };
        let ghost new_entry = entry;
        match found {
            Some(i) => {
                let _ = shard.remove(i);
                shard.insert(i, entry);
                self.shards.insert(sidx, shard);
                proof {
                    assert(self.shard(shard_of(node)) =~= old_shard.update(i as int, new_entry));
                    assert forall|t: int|
                        0 <= t < SHARD_COUNT && t != shard_of(node) implies #[trigger] self.shard(t)
                        == old(self).shard(t) by {
                        assert(self.shards@[t] == old(self).shards@[t]);
                    }
                    self.lemma_update_same_key(*old(self), node, block, i as int, new_entry);
                }
            },
            None => {
                shard.push(entry);
                self.shards.insert(sidx, shard);
                proof {
                    assert(self.shard(shard_of(node)) =~= old_shard.push(new_entry));
                    assert forall|t: int|
                        0 <= t < SHARD_COUNT && t != shard_of(node) implies #[trigger] self.shard(t)
                        == old(self).shard(t) by {
                        assert(self.shards@[t] == old(self).shards@[t]);
                    }
                    self.lemma_push_new_key(*old(self), node, block, new_entry);
                }
            },
        }
    }

    /// After shard `shard_of(node)` got a fresh entry keyed (node, block)
    /// pushed at its end, the cache is well formed and every other key is
    /// untouched.
    proof fn lemma_push_new_key(&self, prev: Self, node: u64, block: usize, e: CacheEntry)
        requires
            prev.wf(),
            !entry_at(prev.shard(shard_of(node)), node, block),
            e.node == node,
            e.block == block,
            self.num_shards() == SHARD_COUNT,
            self.shard(shard_of(node)) == prev.shard(shard_of(node)).push(e),
            forall|t: int|
                0 <= t < SHARD_COUNT && t != shard_of(node) ==> #[trigger] self.shard(t)
                    == prev.shard(t),
        ensures
            self.wf(),
            self.has_cached(node, block),
            self.cached_bytes(node, block) == e.blob@,
            keeps_others(*self, prev, node, block),
    {
        let s0 = prev.shard(shard_of(node));
        let s1 = self.shard(shard_of(node));
        assert(s1[s1.len() - 1] == e);
        assert forall|t: int| 0 <= t < SHARD_COUNT implies shard_unique(#[trigger] self.shard(t))
            && (forall|a: int|
            0 <= a < self.shard(t).len() ==> shard_of((#[trigger] self.shard(t)[a]).node)
                == t) by {
            if t == shard_of(node) {
                assert forall|a: int, b: int|
                    0 <= a < b < s1.len() implies !((#[trigger] s1[a]).node == (
                #[trigger] s1[b]).node && s1[a].block == s1[b].block) by {
                    if b < s1.len() - 1 {
                        assert(!((s0[a]).node == (s0[b]).node && s0[a].block == s0[b].block));
                    } else {
                        assert(s1[b] == e);
                        if s1[a].node == node && s1[a].block == block {
                            assert(entry_at(s0, node, block));
                            assert(false);
                        }
                    }
                }
                assert forall|a: int|
                    0 <= a < self.shard(t).len() implies shard_of(
                    (#[trigger] self.shard(t)[a]).node,
                ) == t by {
                    if a < s1.len() - 1 {
                        assert(s1[a] == s0[a]);
                    } else {
                        assert(s1[a] == e);
                    }
                }
            } else {
                assert(self.shard(t) == prev.shard(t));
            }
        }
        lemma_entry_index_is(s1, node, block, s1.len() - 1);
        assert forall|n: u64, b: usize|
            !(n == node && b == block) implies (#[trigger] self.has_cached(n, b))
            == prev.has_cached(n, b) && (prev.has_cached(n, b) ==> self.cached_bytes(n, b)
            == prev.cached_bytes(n, b)) by {
            if shard_of(n) != shard_of(node) {
                assert(self.shard(shard_of(n)) == prev.shard(shard_of(n)));
            } else {
                assert forall|w: int|
                    0 <= w < s1.len() && (#[trigger] s1[w]).node == n && s1[w].block == b implies (
                w < s0.len() && s0[w].node == n && s0[w].block == b) by {
                    if w == s1.len() - 1 {
                        assert(false);
                    }
                }
                if prev.has_cached(n, b) {
                    let w0 = entry_index(s0, n, b);
                    assert(0 <= w0 < s0.len() && s0[w0].node == n && s0[w0].block == b);
                    assert(s1[w0] == s0[w0]);
                    lemma_entry_index_is(s1, n, b, w0);
                }
                if entry_at(s1, n, b) {
                    let w1 = entry_index(s1, n, b);
                    assert(entry_at(s0, n, b));
                }
            }
        }
    }
}

/// `e` is a copy of one of the first `hi` entries of `s0`, belonging to a
/// node other than `node`.
pub open spec fn kept_entry(s0: Seq<CacheEntry>, hi: int, e: CacheEntry, node: u64) -> bool {
    exists|u: int|
        0 <= u < hi && e.node == (#[trigger] s0[u]).node && e.block == s0[u].block && e.blob@
            == s0[u].blob@ && s0[u].node != node
}

/// `p` is the (block, bytes) pair of one of the first `hi` entries of `s0`
/// belonging to `node`.
pub open spec fn taken_entry(s0: Seq<CacheEntry>, hi: int, p: (usize, Blob), node: u64) -> bool {
    exists|u: int|
        0 <= u < hi && p.0 == (#[trigger] s0[u]).block && s0[u].node == node && p.1@ == s0[u].blob@
}

/// Copies the entries of nodes other than `node` out of a shard, in order.
#[verifier::rlimit(100)]
#[verifier::spinoff_prover]
fn collect_others(shard: &Vec<CacheEntry>, node: u64) -> (kept: Vec<CacheEntry>)
    requires
        shard_unique(shard@),
    ensures
        shard_unique(kept@),
        forall|v: int|
            0 <= v < kept@.len() ==> kept_entry(shard@, shard@.len() as int, #[trigger] kept@[v], node),
        forall|u: int|
            0 <= u < shard@.len() && (#[trigger] shard@[u]).node != node ==> exists|v: int|
                0 <= v < kept@.len() && (#[trigger] kept@[v]).node == shard@[u].node
                    && kept@[v].block == shard@[u].block && kept@[v].blob@ == shard@[u].blob@,
{
    let ghost s0 = shard@;
    let n = shard.len();
    let mut kept: Vec<CacheEntry> = Vec::new();
    let mut w: usize = 0;
    while w < n
        invariant
            n == s0.len(),
            w <= n,
            shard@ == s0,
            shard_unique(s0),
            forall|v: int|
                0 <= v < kept@.len() ==> kept_entry(s0, w as int, #[trigger] kept@[v], node),
            forall|u: int|
                0 <= u < w && (#[trigger] s0[u]).node != node ==> exists|v: int|
                    0 <= v < kept@.len() && (#[trigger] kept@[v]).node == s0[u].node
                        && kept@[v].block == s0[u].block && kept@[v].blob@ == s0[u].blob@,
            shard_unique(kept@),
        decreases n - w,
    {
        let e = &shard[w];
        let ghost prev_kept = kept@;
        if e.node != node {
            kept.push(CacheEntry { node: e.node, block: e.block, blob: e.blob.duplicate() });
            proof {
                assert(kept@[kept@.len() - 1].node == s0[w as int].node && kept@[kept@.len()
                    - 1].block == s0[w as int].block && kept@[kept@.len() - 1].blob@ == s0[
                    w as int
                ].blob@);
                assert(kept_entry(s0, w + 1 as int, kept@[kept@.len() - 1], node));
                assert forall|a: int, b: int|
                    0 <= a < b < kept@.len() implies !((#[trigger] kept@[a]).node == (
                #[trigger] kept@[b]).node && kept@[a].block == kept@[b].block) by {
                    if b == kept@.len() - 1 {
                        assert(kept@[a] == prev_kept[a]);
                        assert(kept_entry(s0, w as int, prev_kept[a], node));
                        let u0 = choose|u: int|
                            0 <= u < w && prev_kept[a].node == (#[trigger] s0[u]).node && prev_kept[
                                a
                            ].block == s0[u].block && prev_kept[a].blob@ == s0[u].blob@ && s0[
                                u
                            ].node != node;
                        assert(!(s0[u0].node == s0[w as int].node && s0[u0].block == s0[
                            w as int
                        ].block));
                    }
                }
            }
        }
        proof {
            assert forall|v: int|
                0 <= v < kept@.len() implies kept_entry(s0, w + 1 as int, #[trigger] kept@[v], node) by {
                if v < prev_kept.len() {
                    assert(kept@[v] == prev_kept[v]);
                    assert(kept_entry(s0, w as int, prev_kept[v], node));
                    let u0 = choose|u: int|
                        0 <= u < w && prev_kept[v].node == (#[trigger] s0[u]).node && prev_kept[
                            v
                        ].block == s0[u].block && prev_kept[v].blob@ == s0[u].blob@ && s0[u].node
                            != node;
                    assert(0 <= u0 < w + 1 && kept@[v].node == s0[u0].node && kept@[v].block == s0[
                        u0
                    ].block && kept@[v].blob@ == s0[u0].blob@ && s0[u0].node != node);
                }
            }
            assert forall|u: int|
                0 <= u < w + 1 && (#[trigger] s0[u]).node != node implies exists|v: int|
                    0 <= v < kept@.len() && (#[trigger] kept@[v]).node == s0[u].node && kept@[
                        v
                    ].block == s0[u].block && kept@[v].blob@ == s0[u].blob@ by {
                if u < w {
                    let v0 = choose|v: int|
                        0 <= v < prev_kept.len() && (#[trigger] prev_kept[v]).node == s0[u].node
                            && prev_kept[v].block == s0[u].block && prev_kept[v].blob@
                            == s0[u].blob@;
                    assert(kept@[v0] == prev_kept[v0]);
                    assert(kept@[v0].node == s0[u].node && kept@[v0].block == s0[u].block && kept@[
                        v0
                    ].blob@ == s0[u].blob@);
                } else {
                    assert(kept@[kept@.len() - 1].node == s0[u].node && kept@[kept@.len()
                        - 1].block == s0[u].block && kept@[kept@.len() - 1].blob@ == s0[u].blob@);
                }
            }
        }
        w = w + 1;
    }
    kept
}

/// Copies the (block, bytes) pairs of `node` out of a shard, in order.
#[verifier::rlimit(100)]
#[verifier::spinoff_prover]
fn collect_node(shard: &Vec<CacheEntry>, node: u64) -> (taken: Vec<(usize, Blob)>)
    requires
        shard_unique(shard@),
    ensures
        forall|i: int|
            0 <= i < taken@.len() ==> taken_entry(shard@, shard@.len() as int, #[trigger] taken@[i], node),
        forall|u: int|
            0 <= u < shard@.len() && (#[trigger] shard@[u]).node == node ==> exists|i: int|
                0 <= i < taken@.len() && (#[trigger] taken@[i]).0 == shard@[u].block,
        forall|i: int, j: int|
            0 <= i < j < taken@.len() ==> (#[trigger] taken@[i]).0 != (#[trigger] taken@[j]).0,
{
    let ghost s0 = shard@;
    let n = shard.len();
    let mut taken: Vec<(usize, Blob)> = Vec::new();
    let mut w: usize = 0;
    while w < n
        invariant
            n == s0.len(),
            w <= n,
            shard@ == s0,
            shard_unique(s0),
            forall|i: int|
                0 <= i < taken@.len() ==> taken_entry(s0, w as int, #[trigger] taken@[i], node),
            forall|u: int|
                0 <= u < w && (#[trigger] s0[u]).node == node ==> exists|i: int|
                    0 <= i < taken@.len() && (#[trigger] taken@[i]).0 == s0[u].block,
            forall|i: int, j: int|
                0 <= i < j < taken@.len() ==> (#[trigger] taken@[i]).0 != (#[trigger] taken@[j]).0,
        decreases n - w,
    {
        let e = &shard[w];
        let ghost prev_taken = taken@;
        if e.node == node {
            taken.push((e.block, e.blob.duplicate()));
            proof {
                assert(taken@[taken@.len() - 1].0 == s0[w as int].block && taken@[taken@.len()
                    - 1].1@ == s0[w as int].blob@);
                assert(taken_entry(s0, w + 1 as int, taken@[taken@.len() - 1], node));
                assert forall|i: int, j: int|
                    0 <= i < j < taken@.len() implies (#[trigger] taken@[i]).0 != (
                #[trigger] taken@[j]).0 by {
                    if j == taken@.len() - 1 {
                        assert(taken@[i] == prev_taken[i]);
                        assert(taken_entry(s0, w as int, prev_taken[i], node));
                        let u0 = choose|u: int|
                            0 <= u < w && prev_taken[i].0 == (#[trigger] s0[u]).block && s0[u].node
                                == node && prev_taken[i].1@ == s0[u].blob@;
                        assert(!(s0[u0].node == s0[w as int].node && s0[u0].block == s0[
                            w as int
                        ].block));
                    }
                }
            }
        }
        proof {
            assert forall|i: int|
                0 <= i < taken@.len() implies taken_entry(s0, w + 1 as int, #[trigger] taken@[i], node) by {
                if i < prev_taken.len() {
                    assert(taken@[i] == prev_taken[i]);
                    assert(taken_entry(s0, w as int, prev_taken[i], node));
                    let u0 = choose|u: int|
                        0 <= u < w && prev_taken[i].0 == (#[trigger] s0[u]).block && s0[u].node
                            == node && prev_taken[i].1@ == s0[u].blob@;
                    assert(0 <= u0 < w + 1 && taken@[i].0 == s0[u0].block && s0[u0].node == node
                        && taken@[i].1@ == s0[u0].blob@);
                }
            }
            assert forall|u: int|
                0 <= u < w + 1 && (#[trigger] s0[u]).node == node implies exists|i: int|
                    0 <= i < taken@.len() && (#[trigger] taken@[i]).0 == s0[u].block by {
                if u < w {
                    let i0 = choose|i: int|
                        0 <= i < prev_taken.len() && (#[trigger] prev_taken[i]).0 == s0[u].block;
                    assert(taken@[i0] == prev_taken[i0]);
                    assert(taken@[i0].0 == s0[u].block);
                } else {
                    assert(taken@[taken@.len() - 1].0 == s0[u].block);
                }
            }
        }
        w = w + 1;
    }
    taken
}

impl BlockCache {
    /// Removes and returns all cached blocks of `node`, as (block, blob)
    /// pairs with pairwise distinct blocks. Afterwards nothing is cached for
    /// `node`; every other node's entries are untouched.
    #[verifier::rlimit(100)]
    #[verifier::spinoff_prover]
    pub fn take_node(&mut self, node: u64) -> (r: Vec<(usize, Blob)>)
        requires
            old(self).wf(),
        ensures
            final(self).wf(),
            forall|b: usize| !final(self).has_cached(node, b),
            forall|n: u64, b: usize|
                n != node ==> (#[trigger] final(self).has_cached(n, b)) == old(self).has_cached(
                    n,
                    b,
                ) && (old(self).has_cached(n, b) ==> final(self).cached_bytes(n, b) == old(
                    self,
                ).cached_bytes(n, b)),
            forall|i: int|
                0 <= i < r@.len() ==> old(self).has_cached(node, (#[trigger] r@[i]).0)
                    && r@[i].1@ == old(self).cached_bytes(node, r@[i].0),
            forall|b: usize|
                old(self).has_cached(node, b) ==> exists|i: int|
                    0 <= i < r@.len() && (#[trigger] r@[i]).0 == b,
            forall|i: int, j: int|
                0 <= i < j < r@.len() ==> (#[trigger] r@[i]).0 != (#[trigger] r@[j]).0,
    {
        let sidx = (node % (SHARD_COUNT as u64)) as usize;
        proof {
            assert(sidx as int == shard_of(node));
            assert(shard_unique(old(self).shard(shard_of(node))));
        }
        let shard = self.shards.remove(sidx);
        let ghost s0 = shard@;
        let kept = collect_others(&shard, node);
        let taken = collect_node(&shard, node);
        self.shards.insert(sidx, kept);
        proof {
            let prev = *old(self);
            let s1 = self.shard(shard_of(node));
            let n = s0.len() as int;
            assert(s0 == prev.shard(shard_of(node)));
            assert(s1 == kept@);
            assert forall|t: int|
                0 <= t < SHARD_COUNT && t != shard_of(node) implies #[trigger] self.shard(t)
                == prev.shard(t) by {
                assert(self.shards@[t] == prev.shards@[t]);
            }
            assert forall|b: usize| !self.has_cached(node, b) by {
                if entry_at(s1, node, b) {
                    let v = entry_index(s1, node, b);
                    assert(0 <= v < s1.len() && s1[v].node == node && s1[v].block == b);
                    assert(kept_entry(s0, n, s1[v], node));
                    let u = choose|u: int|
                        0 <= u < n && s1[v].node == (#[trigger] s0[u]).node && s1[v].block
                            == s0[u].block && s1[v].blob@ == s0[u].blob@ && s0[u].node != node;
                    assert(false);
                }
            }
            assert forall|t: int| 0 <= t < SHARD_COUNT implies shard_unique(#[trigger] self.shard(t))
                && (forall|a: int|
                0 <= a < self.shard(t).len() ==> shard_of((#[trigger] self.shard(t)[a]).node)
                    == t) by {
                if t == shard_of(node) {
                    assert(shard_unique(s1));
                    assert forall|a: int|
                        0 <= a < s1.len() implies shard_of((#[trigger] s1[a]).node) == t by {
                        assert(kept_entry(s0, n, s1[a], node));
                        let u = choose|u: int|
                            0 <= u < n && s1[a].node == (#[trigger] s0[u]).node && s1[a].block
                                == s0[u].block && s1[a].blob@ == s0[u].blob@ && s0[u].node != node;
                        assert(shard_of(s0[u].node) == t);
                    }
                } else {
                    assert(self.shard(t) == prev.shard(t));
                }
            }
            assert forall|nn: u64, b: usize|
                nn != node implies (#[trigger] self.has_cached(nn, b)) == prev.has_cached(nn, b)
                && (prev.has_cached(nn, b) ==> self.cached_bytes(nn, b) == prev.cached_bytes(
                nn,
                b,
            )) by {
                if shard_of(nn) != shard_of(node) {
                    assert(self.shard(shard_of(nn)) == prev.shard(shard_of(nn)));
                } else {
                    if prev.has_cached(nn, b) {
                        let u0 = entry_index(s0, nn, b);
                        assert(0 <= u0 < s0.len() && s0[u0].node == nn && s0[u0].block == b);
                        let v0 = choose|v: int|
                            0 <= v < s1.len() && (#[trigger] s1[v]).node == s0[u0].node && s1[
                                v
                            ].block == s0[u0].block && s1[v].blob@ == s0[u0].blob@;
                        assert(s1[v0].node == nn && s1[v0].block == b);
                        lemma_entry_index_is(s1, nn, b, v0);
                        lemma_entry_index_is(s0, nn, b, u0);
                        assert(self.cached_bytes(nn, b) == prev.cached_bytes(nn, b));
                    }
                    if entry_at(s1, nn, b) {
                        let v1 = entry_index(s1, nn, b);
                        assert(0 <= v1 < s1.len() && s1[v1].node == nn && s1[v1].block == b);
                        assert(kept_entry(s0, n, s1[v1], node));
                        let u1 = choose|u: int|
                            0 <= u < n && s1[v1].node == (#[trigger] s0[u]).node && s1[v1].block
                                == s0[u].block && s1[v1].blob@ == s0[u].blob@ && s0[u].node
                                != node;
                        assert(s0[u1].node == nn && s0[u1].block == b);
                        assert(entry_at(s0, nn, b));
                    }
                }
            }
            assert forall|i: int|
                0 <= i < taken@.len() implies prev.has_cached(node, (#[trigger] taken@[i]).0)
                && taken@[i].1@ == prev.cached_bytes(node, taken@[i].0) by {
                assert(taken_entry(s0, n, taken@[i], node));
                let u = choose|u: int|
                    0 <= u < n && taken@[i].0 == (#[trigger] s0[u]).block && s0[u].node == node
                        && taken@[i].1@ == s0[u].blob@;
                lemma_entry_index_is(s0, node, taken@[i].0, u);
            }
            assert forall|b: usize| prev.has_cached(node, b) implies exists|i: int|
                0 <= i < taken@.len() && (#[trigger] taken@[i]).0 == b by {
                let u = entry_index(s0, node, b);
                assert(0 <= u < s0.len() && s0[u].node == node && s0[u].block == b);
                let i0 = choose|i: int|
                    0 <= i < taken@.len() && (#[trigger] taken@[i]).0 == s0[u].block;
                assert(taken@[i0].0 == b);
            }
        }
        taken
    }
}

/// Index of the entry keyed (node, block) in a shard, if any.
fn find_entry(s: &Vec<CacheEntry>, node: u64, block: usize) -> (r: Option<usize>)
    ensures
        (match r {
            Some(i) => i < s@.len() && s@[i as int].node == node && s@[i as int].block == block,
            None => !entry_at(s@, node, block),
        }),
{
    let n = s.len();
    let mut i: usize = 0;
    while i < n
        invariant
            n == s@.len(),
            i <= n,
            forall|j: int|
                0 <= j < i ==> !((#[trigger] s@[j]).node == node && s@[j].block == block),
        decreases n - i,
    {
        if s[i].node == node && s[i].block == block {
            return Some(i);
        }
        i = i + 1;
    }
    None
}

} // verus!
