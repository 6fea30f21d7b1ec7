//! The routing table: 256 k-buckets indexed by the length of the prefix shared with the owner.

use crate::k_bucket::{holds_id, id_bit, unique_ids, KBucket};
use crate::node::Node;
use crate::node_id::{be_value, id_distance, xor_bytes, NodeId, Distance, KBUCKET_MAX, NODE_ID_BITS};
use vstd::prelude::*;

verus! {

/// Capacity of the bucket at depth `d`: `min(d + 1, K)`.
pub open spec fn bucket_capacity(d: int) -> int {
    if d + 1 < KBUCKET_MAX as int {
        d + 1
    } else {
        KBUCKET_MAX as int
    }
}

/// The bucket at depth 0 holds one peer; the bucket at depth `d` holds `min(d + 1, K)`.
pub proof fn lemma_bucket_capacity(d: int)
    requires
        0 <= d < 256,
    ensures
        bucket_capacity(0) == 1,
        bucket_capacity(d) == if d + 1 < KBUCKET_MAX as int { d + 1 } else { KBUCKET_MAX as int },
        bucket_capacity(d) <= KBUCKET_MAX,
{
}

/// The first bit at or after `k` where `a` and `b` differ; 0 when none does.
pub open spec fn first_diff_bit(a: Seq<u8>, b: Seq<u8>, k: int) -> int
    decreases 256 - k,
{
    if k >= 256 || k < 0 {
        0
    } else if id_bit(a, k) != id_bit(b, k) {
        k
    } else {
        first_diff_bit(a, b, k + 1)
    }
}

/// The bucket of `id` in the table of `owner`: the position of the highest-order bit where the
/// two identifiers differ (0 for the owner itself).
pub open spec fn bucket_index(owner: NodeId, id: NodeId) -> int {
    first_diff_bit(owner.0@, id.0@, 0)
}

/// `a` and `b` agree on bits `0..d` and differ on bit `d`: they share exactly `d` leading bits.
pub open spec fn shares_exactly(a: Seq<u8>, b: Seq<u8>, d: int) -> bool {
    &&& forall|j: int| 0 <= j < d ==> id_bit(a, j) == id_bit(b, j)
    &&& id_bit(a, d) != id_bit(b, d)
}

proof fn lemma_first_diff_bit(a: Seq<u8>, b: Seq<u8>, k: int, d: int)
    requires
        0 <= k <= d < 256,
        forall|j: int| 0 <= j < k ==> id_bit(a, j) == id_bit(b, j),
        shares_exactly(a, b, d),
    ensures
        first_diff_bit(a, b, k) == d,
    decreases d - k,
{
    if k < d {
        lemma_first_diff_bit(a, b, k + 1, d);
    }
}

/// A peer whose identifier shares exactly `d` leading bits with the owner's lies in bucket `d`,
/// and a peer placed in bucket `d` shares exactly `d` leading bits with the owner.
pub proof fn lemma_bucket_index_is_shared_prefix(owner: NodeId, id: NodeId, d: int)
    requires
        0 <= d < 256,
        exists|k: int| 0 <= k < 256 && id_bit(owner.0@, k) != id_bit(id.0@, k),
    ensures
        bucket_index(owner, id) == d <==> shares_exactly(owner.0@, id.0@, d),
{
    let k = choose|k: int| 0 <= k < 256 && id_bit(owner.0@, k) != id_bit(id.0@, k);
    let m = lemma_least_diff(owner.0@, id.0@, k);
    lemma_first_diff_bit(owner.0@, id.0@, 0, m);
    if shares_exactly(owner.0@, id.0@, d) {
        lemma_first_diff_bit(owner.0@, id.0@, 0, d);
    }
}

proof fn lemma_least_diff(a: Seq<u8>, b: Seq<u8>, k: int) -> (m: int)
    requires
        0 <= k < 256,
        id_bit(a, k) != id_bit(b, k),
    ensures
        0 <= m <= k,
        shares_exactly(a, b, m),
    decreases k,
{
    if forall|j: int| 0 <= j < k ==> id_bit(a, j) == id_bit(b, j) {
        k
    } else {
        let j = choose|j: int| 0 <= j < k && id_bit(a, j) != id_bit(b, j);
        lemma_least_diff(a, b, j)
    }
}

/// What an insertion did, or the probe it waits on.
#[derive(Debug)]
pub enum InsertOutcome {
    /// The peer was appended to its bucket.
    Added,
    /// The peer was already known and is now the most recently seen.
    Refreshed,
    /// The owner's bucket was split to make room, and the peer was appended.
    SplitAndAdded,
    /// The bucket is full: the oldest peer must be pinged, and the answer handed to
    /// `resolve_probe`.
    ProbeOldest(Node),
    /// The peer is the owner itself, which the table does not take as a peer.
    Ignored,
}

/// The first bucket at or after `j` with room; 256 when there is none.
pub open spec fn first_room(bs: Seq<KBucket>, j: int) -> int
    decreases 256 - j,
{
    if j >= 256 || j < 0 {
        256
    } else if bs[j].nodes@.len() < bucket_capacity(j) {
        j
    } else {
        first_room(bs, j + 1)
    }
}

/// What `insert_node(node)` does to table `old`, giving `new` and outcome `r`: a known peer is
/// refreshed, a new one appended while its bucket has room; a full bucket that holds the owner
/// splits: the owner's record moves to the first deeper bucket with room (or leaves the table
/// when none has room) and the peer takes its place. Otherwise nothing changes and the oldest
/// peer is to be probed. The owner's own identifier changes nothing.
pub open spec fn insert_effect(old: RoutingTable, new: RoutingTable, node: Node, r: InsertOutcome) -> bool {
    &&& new.host == old.host
    &&& node.id.0@ == old.host.id.0@ ==> r is Ignored && new.kbuckets@ == old.kbuckets@
    &&& node.id.0@ != old.host.id.0@ ==> ({
        let d = bucket_index(old.host.id, node.id);
        let before = old.kbuckets@[d].nodes@;
        let after = new.kbuckets@[d].nodes@;
        let full = before.len() >= bucket_capacity(d);
        let splits = full && !holds_id(before, node.id) && holds_id(before, old.host.id);
        let t = first_room(old.kbuckets@, d + 1);
        &&& holds_id(before, node.id) ==> {
            &&& r is Refreshed
            &&& exists|p: int| 0 <= p < before.len() && before[p].id.0@ == node.id.0@
                && after == before.remove(p).push(node)
        }
        &&& !holds_id(before, node.id) && !full ==> r is Added && after == before.push(node)
        &&& splits ==> {
            &&& r is SplitAndAdded
            &&& exists|p: int| 0 <= p < before.len() && before[p].id.0@ == old.host.id.0@
                && after == before.remove(p).push(node)
                && (t < 256 ==> new.kbuckets@[t].nodes@ == old.kbuckets@[t].nodes@.push(before[p]))
        }
        &&& !holds_id(before, node.id) && full && !splits ==> {
            &&& r == InsertOutcome::ProbeOldest(before[0])
            &&& new.kbuckets@ == old.kbuckets@
        }
        &&& forall|j: int| 0 <= j < 256 && j != d && !(splits && j == t)
            ==> #[trigger] new.kbuckets@[j] == old.kbuckets@[j]
    })
}

/// A peer with its distance to a lookup key.
#[derive(Debug)]
pub struct NodeDistance(pub Distance, pub Node);

impl Clone for NodeDistance {
    fn clone(&self) -> (r: Self)
        ensures
            r == *self,
    {
        NodeDistance(self.0, self.1.clone())
    }
}

/// Coordinates `(d, i)` come before `(e, j)` in bucket-major order.
pub open spec fn coord_before(a: (int, int), b: (int, int)) -> bool {
    a.0 < b.0 || (a.0 == b.0 && a.1 < b.1)
}

#[derive(Debug)]
pub struct RoutingTable {
    pub host: Node,
    pub kbuckets: Vec<KBucket>,
}

impl RoutingTable {
    /// 256 buckets, bucket `d` at depth `d` with capacity `min(d + 1, K)`; every peer other than
    /// the owner lies in the bucket of its shared-prefix length.
    pub open spec fn wf(&self) -> bool {
        &&& self.kbuckets@.len() == NODE_ID_BITS
        &&& forall|d: int| 0 <= d < 256 ==> {
            &&& (#[trigger] self.kbuckets@[d]).depth == d
            &&& self.kbuckets@[d].bucket_size == bucket_capacity(d)
            &&& self.kbuckets@[d].wf()
        }
        &&& forall|d: int, i: int|
            0 <= d < 256 && 0 <= i < self.kbuckets@[d].nodes@.len()
                && (#[trigger] self.kbuckets@[d].nodes@[i]).id.0@ != self.host.id.0@
                ==> bucket_index(self.host.id, self.kbuckets@[d].nodes@[i].id) == d
        &&& forall|d1: int, d2: int|
            0 <= d1 < 256 && 0 <= d2 < 256 && holds_id((#[trigger] self.kbuckets@[d1]).nodes@, self.host.id)
                && holds_id((#[trigger] self.kbuckets@[d2]).nodes@, self.host.id) ==> d1 == d2
    }

    /// Whether `n` is a peer of the table other than the owner.
    pub open spec fn is_peer(&self, n: Node) -> bool {
        exists|d: int, i: int|
            0 <= d < 256 && 0 <= i < self.kbuckets@[d].nodes@.len()
                && #[trigger] self.kbuckets@[d].nodes@[i] == n && n.id.0@ != self.host.id.0@
    }

    /// The empty buckets of a fresh table.
    pub fn gen_kbuckets() -> (r: Vec<KBucket>)
        ensures
            r@.len() == NODE_ID_BITS,
            forall|d: int| 0 <= d < 256 ==> {
                &&& (#[trigger] r@[d]).depth == d
                &&& r@[d].bucket_size == bucket_capacity(d)
                &&& r@[d].nodes@.len() == 0
            },
    {
        let mut buckets: Vec<KBucket> = Vec::new();
        let mut depth: usize = 0;
        while depth < NODE_ID_BITS
            invariant
                depth <= NODE_ID_BITS,
                buckets@.len() == depth,
                forall|d: int| 0 <= d < depth ==> {
                    &&& (#[trigger] buckets@[d]).depth == d
                    &&& buckets@[d].bucket_size == bucket_capacity(d)
                    &&& buckets@[d].nodes@.len() == 0
                },
            decreases NODE_ID_BITS - depth,
        {
            let size = if depth + 1 < KBUCKET_MAX {
                depth + 1
            } else {
                KBUCKET_MAX
            };
            buckets.push(KBucket::new(depth, size));
            depth = depth + 1;
        }
        buckets
    }

    /// A table owned by `node`, holding only the owner, in bucket 0.
    pub fn new(node: Node) -> (r: RoutingTable)
        ensures
            r.wf(),
            r.host == node,
            r.kbuckets@[0].nodes@ == seq![node],
            forall|d: int| 1 <= d < 256 ==> (#[trigger] r.kbuckets@[d]).nodes@.len() == 0,
    {
        let mut kbuckets = Self::gen_kbuckets();
        let host = node.clone();
        let mut first = KBucket::new(0, 1);
        first.insert(node);
        kbuckets.set(0, first);
        let r = RoutingTable { host, kbuckets };
        assert(r.kbuckets@[0].nodes@ =~= seq![r.host]);
        r
    }

    /// Inserts `node` into the bucket of its shared-prefix length. A known peer becomes the most
    /// recently seen; a new one is appended while the bucket has room. When the bucket is full
    /// and holds the owner, the bucket splits: the owner's record moves to the first deeper
    /// bucket with room (or leaves the table) and the peer takes its place; otherwise the table
    /// is unchanged and the oldest peer must be probed.
    /// The owner's own identifier is ignored.
    pub fn insert_node(&mut self, node: &Node) -> (r: InsertOutcome)
        requires
            old(self).wf(),
        ensures
            final(self).wf(),
            final(self).host == old(self).host,
            insert_effect(*old(self), *final(self), *node, r),
    {
        let host_id = self.host.id;
        if node.id == host_id {
            return InsertOutcome::Ignored;
        }
        let idx = self.get_bucket_index(node);
        if self.kbuckets[idx].contains(&node.id) {
            self.kbuckets[idx].insert(node.clone());
            proof { self.lemma_wf_after_bucket_change(*old(self), idx as int, *node); }
            return InsertOutcome::Refreshed;
        }
        if !self.kbuckets[idx].is_full() {
            self.kbuckets[idx].insert(node.clone());
            proof { self.lemma_wf_after_bucket_change(*old(self), idx as int, *node); }
            return InsertOutcome::Added;
        }
        if self.kbuckets[idx].contains(&host_id) {
            let mut t: usize = idx + 1;
            while t < NODE_ID_BITS && self.kbuckets[t].is_full()
                invariant
                    idx < t <= 256,
                    idx < 256,
                    self.wf(),
                    *self == *old(self),
                    first_room(self.kbuckets@, idx + 1) == first_room(self.kbuckets@, t as int),
                decreases NODE_ID_BITS - t,
            {
                t = t + 1;
            }
            let ghost prev = *self;
            let Some(owner) = self.kbuckets[idx].take(&host_id) else {
                return InsertOutcome::Ignored;
            };
            if t < NODE_ID_BITS {
                proof {
                    assert(!holds_id(prev.kbuckets@[t as int].nodes@, host_id));
                }
                self.kbuckets[t].insert(owner);
            }
            self.kbuckets[idx].insert(node.clone());
            proof { self.lemma_wf_after_split(prev, idx as int, t as int, *node, owner); }
            InsertOutcome::SplitAndAdded
        } else {
            let oldest = self.kbuckets[idx].nodes[0].clone();
            InsertOutcome::ProbeOldest(oldest)
        }
    }

    /// Applies the answer of the probe that `insert_node` asked for: when the oldest peer of the
    /// bucket of `node` did not respond, it is evicted and `node` appended; when it responded,
    /// `node` is dropped. Returns whether `node` entered the table.
    pub fn resolve_probe(&mut self, node: &Node, oldest_responded: bool) -> (r: bool)
        requires
            old(self).wf(),
        ensures
            final(self).wf(),
            final(self).host == old(self).host,
            (oldest_responded || node.id.0@ == old(self).host.id.0@) ==> !r && final(self).kbuckets@ == old(self).kbuckets@,
            (!oldest_responded && node.id.0@ != old(self).host.id.0@) ==> ({
                let d = bucket_index(old(self).host.id, node.id);
                let before = old(self).kbuckets@[d].nodes@;
                let after = final(self).kbuckets@[d].nodes@;
                &&& r
                &&& before.len() > 0 && !holds_id(before, node.id) ==> after == before.subrange(1, before.len() as int).push(*node)
                &&& forall|j: int| 0 <= j < 256 && j != d ==> #[trigger] final(self).kbuckets@[j] == old(self).kbuckets@[j]
            }),
    {
        if oldest_responded || node.id == self.host.id {
            return false;
        }
        let idx = self.get_bucket_index(node);
        if self.kbuckets[idx].nodes.len() > 0 && !self.kbuckets[idx].contains(&node.id) {
            self.kbuckets[idx].envict_and_insert(node.clone());
            proof {
                let before = old(self).kbuckets@[idx as int].nodes@;
                assert forall|i: int| 0 <= i < self.kbuckets@[idx as int].nodes@.len() implies
                    (#[trigger] self.kbuckets@[idx as int].nodes@[i]) == *node
                        || before.contains(self.kbuckets@[idx as int].nodes@[i]) by {
                    if i + 1 < before.len() {
                        assert(before[i + 1] == self.kbuckets@[idx as int].nodes@[i]);
                    }
                }
                self.lemma_wf_after_bucket_change(*old(self), idx as int, *node);
            }
        } else {
            self.kbuckets[idx].insert(node.clone());
            proof { self.lemma_wf_after_bucket_change(*old(self), idx as int, *node); }
        }
        true
    }

    /// Deletes the peer with the identifier of `node` from its bucket; nothing when absent.
    pub fn remove(&mut self, node: &Node)
        requires
            old(self).wf(),
        ensures
            final(self).wf(),
            final(self).host == old(self).host,
            ({
                let d = bucket_index(old(self).host.id, node.id);
                let before = old(self).kbuckets@[d].nodes@;
                let after = final(self).kbuckets@[d].nodes@;
                &&& !holds_id(after, node.id)
                &&& holds_id(before, node.id) ==> exists|p: int|
                    0 <= p < before.len() && before[p].id.0@ == node.id.0@ && after == before.remove(p)
                &&& !holds_id(before, node.id) ==> after == before
                &&& forall|j: int| 0 <= j < 256 && j != d ==> #[trigger] final(self).kbuckets@[j] == old(self).kbuckets@[j]
            }),
    {
        let idx = self.get_bucket_index(node);
        self.kbuckets[idx].remove(node.clone());
        proof {
            let d = idx as int;
            let h = self.host.id;
            let before = old(self).kbuckets@[d].nodes@;
            let after = self.kbuckets@[d].nodes@;
            assert forall|i: int| 0 <= i < after.len() implies before.contains(#[trigger] after[i]) by {
                if holds_id(before, node.id) {
                    let p = choose|p: int| 0 <= p < before.len() && before[p].id.0@ == node.id.0@ && after == before.remove(p);
                    if i < p {
                        assert(before[i] == after[i]);
                    } else {
                        assert(before[i + 1] == after[i]);
                    }
                }
            }
            assert forall|e: int, i: int|
                0 <= e < 256 && 0 <= i < self.kbuckets@[e].nodes@.len()
                    && (#[trigger] self.kbuckets@[e].nodes@[i]).id.0@ != h.0@
                implies bucket_index(h, self.kbuckets@[e].nodes@[i].id) == e by {
                if e == d {
                    let k = choose|k: int| 0 <= k < before.len() && before[k] == after[i];
                    assert(before[k] == after[i]);
                }
            }
            assert forall|d1: int, d2: int|
                0 <= d1 < 256 && 0 <= d2 < 256 && holds_id((#[trigger] self.kbuckets@[d1]).nodes@, h)
                    && holds_id((#[trigger] self.kbuckets@[d2]).nodes@, h) implies d1 == d2 by {
                if d1 == d {
                    let i = choose|i: int| 0 <= i < after.len() && after[i].id.0@ == h.0@;
                    let k = choose|k: int| 0 <= k < before.len() && before[k] == after[i];
                    assert(holds_id(before, h));
                }
                if d2 == d {
                    let i = choose|i: int| 0 <= i < after.len() && after[i].id.0@ == h.0@;
                    let k = choose|k: int| 0 <= k < before.len() && before[k] == after[i];
                    assert(holds_id(before, h));
                }
            }
        }
    }

    /// Up to `count` peers of the table (the owner excluded), nearest to `key` first: each with
    /// its distance to `key`, no identifier twice, and no peer left out that is nearer than one
    /// returned. Fewer than `count` only when every peer is returned.
    pub fn get_closest_nodes(&self, key: &NodeId, count: usize) -> (r: Vec<NodeDistance>)
        requires
            self.wf(),
        ensures
            r@.len() <= count,
            forall|t: int| 0 <= t < r@.len() ==> self.is_peer(#[trigger] r@[t].1),
            forall|t: int| 0 <= t < r@.len() ==> (#[trigger] r@[t]).0.0@ == xor_bytes(key.0@, r@[t].1.id.0@),
            forall|t1: int, t2: int| 0 <= t1 < t2 < r@.len() ==> be_value((#[trigger] r@[t1]).0.0@) <= be_value((#[trigger] r@[t2]).0.0@),
            forall|t1: int, t2: int| 0 <= t1 < r@.len() && 0 <= t2 < r@.len() && t1 != t2
                ==> (#[trigger] r@[t1]).1.id.0@ != (#[trigger] r@[t2]).1.id.0@,
            forall|n: Node| #[trigger] self.is_peer(n) ==> (exists|t: int| 0 <= t < r@.len() && r@[t].1 == n)
                || (r@.len() == count && forall|t: int| 0 <= t < r@.len() ==> be_value(r@[t].0.0@) <= id_distance(*key, n.id)),
    {
        let cands = self.peers_by_distance(key);
        let ghost src = choose|src: Seq<(int, int)>| self.candidates_from(*key, cands@, src);
        let mut taken: Vec<bool> = Vec::new();
        let mut k: usize = 0;
        while k < cands.len()
            invariant
                k <= cands@.len(),
                taken@.len() == k,
                forall|j: int| 0 <= j < k ==> !taken@[j],
            decreases cands@.len() - k,
        {
            taken.push(false);
            k = k + 1;
        }
        let mut result: Vec<NodeDistance> = Vec::new();
        let ghost mut picked: Seq<int> = Seq::empty();
        let mut more = true;
        while more && result.len() < count
            invariant
                self.candidates_from(*key, cands@, src),
                taken@.len() == cands@.len(),
                result@.len() == picked.len(),
                result@.len() <= count,
                forall|t: int| 0 <= t < picked.len() ==> 0 <= #[trigger] picked[t] < cands@.len() && result@[t] == cands@[picked[t]],
                forall|t1: int, t2: int| 0 <= t1 < picked.len() && 0 <= t2 < picked.len() && t1 != t2 ==> #[trigger] picked[t1] != #[trigger] picked[t2],
                forall|j: int| 0 <= j < cands@.len() ==> (#[trigger] taken@[j] <==> picked.contains(j)),
                forall|t: int, j: int| 0 <= t < result@.len() && 0 <= j < cands@.len() && !taken@[j]
                    ==> be_value((#[trigger] result@[t]).0.0@) <= be_value((#[trigger] cands@[j]).0.0@),
                forall|t1: int, t2: int| 0 <= t1 < t2 < result@.len() ==> be_value((#[trigger] result@[t1]).0.0@) <= be_value((#[trigger] result@[t2]).0.0@),
                !more ==> forall|j: int| 0 <= j < cands@.len() ==> taken@[j],
            decreases cands@.len() - picked.len(), if more { 1int } else { 0int },
        {
            let mut best: Option<usize> = None;
            let mut j: usize = 0;
            while j < cands.len()
                invariant
                    j <= cands@.len(),
                    taken@.len() == cands@.len(),
                    best matches Some(b) ==> b < j && !taken@[b as int]
                        && forall|m: int| 0 <= m < j && !taken@[m] ==> be_value(cands@[b as int].0.0@) <= be_value(#[trigger] cands@[m].0.0@),
                    best is None ==> forall|m: int| 0 <= m < j ==> taken@[m],
                decreases cands@.len() - j,
            {
                if !taken[j] {
                    match best {
                        None => { best = Some(j); },
                        Some(b) => {
                            if cands[j].0.less_than(&cands[b].0) {
                                best = Some(j);
                            }
                        },
                    }
                }
                j = j + 1;
            }
            match best {
                None => { more = false; },
                Some(b) => {
                    proof {
                        assert(!picked.contains(b as int));
                        lemma_fresh_index_bound(picked, cands@.len() as int, b as int);
                    }
                    taken.set(b, true);
                    result.push(cands[b].clone());
                    let ghost old_picked = picked;
                    proof { picked = picked.push(b as int); }
                    assert forall|j: int| 0 <= j < cands@.len() implies (#[trigger] taken@[j] <==> picked.contains(j)) by {
                        if picked.contains(j) && j != b {
                            let t = choose|t: int| 0 <= t < picked.len() && picked[t] == j;
                            assert(old_picked[t] == j);
                        }
                        if old_picked.contains(j) {
                            let t = choose|t: int| 0 <= t < old_picked.len() && old_picked[t] == j;
                            assert(picked[t] == j);
                        }
                        if j == b {
                            assert(picked[picked.len() - 1] == j);
                        }
                    }
                },
            }
        }
        proof {
            self.lemma_candidates_distinct(*key, cands@, src);
            assert forall|t: int| 0 <= t < result@.len() implies (#[trigger] result@[t]).0.0@ == xor_bytes(key.0@, result@[t].1.id.0@) by {
                let c = src[picked[t]];
            }
            assert forall|t1: int, t2: int| 0 <= t1 < result@.len() && 0 <= t2 < result@.len() && t1 != t2
                implies (#[trigger] result@[t1]).1.id.0@ != (#[trigger] result@[t2]).1.id.0@ by {
                assert(picked[t1] != picked[t2]);
                assert(cands@[picked[t1]].1.id.0@ != cands@[picked[t2]].1.id.0@);
            }
            assert forall|t: int| 0 <= t < result@.len() implies self.is_peer(#[trigger] result@[t].1) by {
                let c = src[picked[t]];
                assert(self.kbuckets@[c.0].nodes@[c.1] == result@[t].1);
            }
            assert forall|n: Node| #[trigger] self.is_peer(n) implies (exists|t: int| 0 <= t < result@.len() && result@[t].1 == n)
                || (result@.len() == count && forall|t: int| 0 <= t < result@.len() ==> be_value(result@[t].0.0@) <= id_distance(*key, n.id)) by {
                let (d, i) = choose|d: int, i: int| 0 <= d < 256 && 0 <= i < self.kbuckets@[d].nodes@.len()
                    && #[trigger] self.kbuckets@[d].nodes@[i] == n && n.id.0@ != self.host.id.0@;
                let k = choose|k: int| 0 <= k < src.len() && src[k] == (d, i);
                assert(cands@[k].1 == n);
                if taken@[k] {
                    let t = choose|t: int| 0 <= t < picked.len() && picked[t] == k;
                    assert(result@[t].1 == n);
                } else {
                    assert forall|t: int| 0 <= t < result@.len() implies be_value(result@[t].0.0@) <= id_distance(*key, n.id) by {
                        assert(be_value(result@[t].0.0@) <= be_value(cands@[k].0.0@));
                    }
                }
            }
        }
        result
    }

    /// `cands` holds every peer of the table (owner excluded) once, each with its distance to
    /// `key`, in bucket-major order; `src` gives each one's coordinates.
    pub open spec fn candidates_from(&self, key: NodeId, cands: Seq<NodeDistance>, src: Seq<(int, int)>) -> bool {
        &&& src.len() == cands.len()
        &&& forall|k: int| 0 <= k < src.len() ==> {
            let c = #[trigger] src[k];
            &&& 0 <= c.0 < 256 && 0 <= c.1 < self.kbuckets@[c.0].nodes@.len()
            &&& cands[k].1 == self.kbuckets@[c.0].nodes@[c.1]
            &&& cands[k].1.id.0@ != self.host.id.0@
            &&& cands[k].0.0@ == xor_bytes(key.0@, cands[k].1.id.0@)
        }
        &&& forall|k1: int, k2: int| 0 <= k1 < k2 < src.len() ==> coord_before(#[trigger] src[k1], #[trigger] src[k2])
        &&& forall|d: int, i: int| 0 <= d < 256 && 0 <= i < self.kbuckets@[d].nodes@.len()
            && (#[trigger] self.kbuckets@[d].nodes@[i]).id.0@ != self.host.id.0@
            ==> exists|k: int| 0 <= k < src.len() && src[k] == (d, i)
    }

    proof fn lemma_candidates_distinct(&self, key: NodeId, cands: Seq<NodeDistance>, src: Seq<(int, int)>)
        requires
            self.wf(),
            self.candidates_from(key, cands, src),
        ensures
            forall|k1: int, k2: int| 0 <= k1 < cands.len() && 0 <= k2 < cands.len() && k1 != k2
                ==> (#[trigger] cands[k1]).1.id.0@ != (#[trigger] cands[k2]).1.id.0@,
    {
        assert forall|k1: int, k2: int| 0 <= k1 < cands.len() && 0 <= k2 < cands.len() && k1 != k2
            implies (#[trigger] cands[k1]).1.id.0@ != (#[trigger] cands[k2]).1.id.0@ by {
            let c1 = src[k1];
            let c2 = src[k2];
            if k1 < k2 {
                assert(coord_before(src[k1], src[k2]));
            } else {
                assert(coord_before(src[k2], src[k1]));
            }
            let n1 = self.kbuckets@[c1.0].nodes@[c1.1];
            let n2 = self.kbuckets@[c2.0].nodes@[c2.1];
            if c1.0 == c2.0 {
                assert(unique_ids(self.kbuckets@[c1.0].nodes@));
            } else {
                assert(bucket_index(self.host.id, n1.id) == c1.0);
                assert(bucket_index(self.host.id, n2.id) == c2.0);
                if n1.id.0@ == n2.id.0@ {
                    assert(n1.id.0@ =~= n2.id.0@);
                }
            }
        }
    }

    /// Every peer of the table (owner excluded) with its distance to `key`, bucket by bucket.
    fn peers_by_distance(&self, key: &NodeId) -> (r: Vec<NodeDistance>)
        requires
            self.wf(),
        ensures
            exists|src: Seq<(int, int)>| self.candidates_from(*key, r@, src),
    {
        let mut cands: Vec<NodeDistance> = Vec::new();
        let ghost mut src: Seq<(int, int)> = Seq::empty();
        let mut d: usize = 0;
        while d < NODE_ID_BITS
            invariant
                self.wf(),
                d <= 256,
                src.len() == cands@.len(),
                forall|k: int| 0 <= k < src.len() ==> {
                    let c = #[trigger] src[k];
                    &&& 0 <= c.0 < d && 0 <= c.1 < self.kbuckets@[c.0].nodes@.len()
                    &&& cands@[k].1 == self.kbuckets@[c.0].nodes@[c.1]
                    &&& cands@[k].1.id.0@ != self.host.id.0@
                    &&& cands@[k].0.0@ == xor_bytes(key.0@, cands@[k].1.id.0@)
                },
                forall|k1: int, k2: int| 0 <= k1 < k2 < src.len() ==> coord_before(#[trigger] src[k1], #[trigger] src[k2]),
                forall|e: int, i: int| 0 <= e < d && 0 <= i < self.kbuckets@[e].nodes@.len()
                    && (#[trigger] self.kbuckets@[e].nodes@[i]).id.0@ != self.host.id.0@
                    ==> exists|k: int| 0 <= k < src.len() && src[k] == (e, i),
            decreases NODE_ID_BITS - d,
        {
            let bucket = &self.kbuckets[d];
            let mut i: usize = 0;
            while i < bucket.nodes.len()
                invariant
                    self.wf(),
                    d < 256,
                    *bucket == self.kbuckets@[d as int],
                    i <= bucket.nodes@.len(),
                    src.len() == cands@.len(),
                    forall|k: int| 0 <= k < src.len() ==> {
                        let c = #[trigger] src[k];
                        &&& 0 <= c.0 <= d && 0 <= c.1 < self.kbuckets@[c.0].nodes@.len()
                        &&& (c.0 == d ==> c.1 < i)
                        &&& cands@[k].1 == self.kbuckets@[c.0].nodes@[c.1]
                        &&& cands@[k].1.id.0@ != self.host.id.0@
                        &&& cands@[k].0.0@ == xor_bytes(key.0@, cands@[k].1.id.0@)
                    },
                    forall|k1: int, k2: int| 0 <= k1 < k2 < src.len() ==> coord_before(#[trigger] src[k1], #[trigger] src[k2]),
                    forall|e: int, j: int| 0 <= e < 256 && 0 <= j < self.kbuckets@[e].nodes@.len()
                        && (e < d || (e == d && j < i))
                        && (#[trigger] self.kbuckets@[e].nodes@[j]).id.0@ != self.host.id.0@
                        ==> exists|k: int| 0 <= k < src.len() && src[k] == (e, j),
                decreases bucket.nodes@.len() - i,
            {
                let node = &bucket.nodes[i];
                if !(node.id == self.host.id) {
                    let dist = key.distance(&node.id);
                    cands.push(NodeDistance(dist, node.clone()));
                    proof {
                        let old_src = src;
                        src = src.push((d as int, i as int));
                        assert forall|e: int, j: int| 0 <= e < 256 && 0 <= j < self.kbuckets@[e].nodes@.len()
                            && (e < d || (e == d && j <= i))
                            && (#[trigger] self.kbuckets@[e].nodes@[j]).id.0@ != self.host.id.0@
                            implies exists|k: int| 0 <= k < src.len() && src[k] == (e, j) by {
                            if e == d && j == i {
                                assert(src[src.len() - 1] == (e, j));
                            } else {
                                let k = choose|k: int| 0 <= k < old_src.len() && old_src[k] == (e, j);
                                assert(src[k] == (e, j));
                            }
                        }
                    }
                }
                i = i + 1;
            }
            d = d + 1;
        }
        assert(self.candidates_from(*key, cands@, src));
        cands
    }

    proof fn lemma_wf_after_split(&self, prev: RoutingTable, d: int, t: int, node: Node, owner: Node)
        requires
            prev.wf(),
            0 <= d < 256,
            d < t <= 256,
            self.host == prev.host,
            owner.id.0@ == prev.host.id.0@,
            node.id.0@ != prev.host.id.0@,
            self.kbuckets@.len() == 256,
            holds_id(prev.kbuckets@[d].nodes@, prev.host.id),
            forall|j: int| 0 <= j < 256 ==> {
                &&& (#[trigger] self.kbuckets@[j]).depth == prev.kbuckets@[j].depth
                &&& self.kbuckets@[j].bucket_size == prev.kbuckets@[j].bucket_size
                &&& self.kbuckets@[j].wf()
            },
            bucket_index(prev.host.id, node.id) == d,
            forall|i: int| 0 <= i < self.kbuckets@[d].nodes@.len() ==>
                (#[trigger] self.kbuckets@[d].nodes@[i]) == node || (prev.kbuckets@[d].nodes@.contains(self.kbuckets@[d].nodes@[i])
                    && self.kbuckets@[d].nodes@[i].id.0@ != prev.host.id.0@),
            t < 256 ==> forall|i: int| 0 <= i < self.kbuckets@[t].nodes@.len() ==>
                (#[trigger] self.kbuckets@[t].nodes@[i]) == owner || prev.kbuckets@[t].nodes@.contains(self.kbuckets@[t].nodes@[i]),
            forall|j: int| 0 <= j < 256 && j != d && j != t ==> #[trigger] self.kbuckets@[j] == prev.kbuckets@[j],
        ensures
            self.wf(),
    {
        let h = self.host.id;
        assert forall|e: int, i: int|
            0 <= e < 256 && 0 <= i < self.kbuckets@[e].nodes@.len()
                && (#[trigger] self.kbuckets@[e].nodes@[i]).id.0@ != h.0@
            implies bucket_index(h, self.kbuckets@[e].nodes@[i].id) == e by {
            let n = self.kbuckets@[e].nodes@[i];
            if (e == d && n != node) || e == t {
                let k = choose|k: int| 0 <= k < prev.kbuckets@[e].nodes@.len() && prev.kbuckets@[e].nodes@[k] == n;
                assert(prev.kbuckets@[e].nodes@[k] == n);
            }
        }
        assert(!holds_id(self.kbuckets@[d].nodes@, h)) by {
            if holds_id(self.kbuckets@[d].nodes@, h) {
                let i = choose|i: int| 0 <= i < self.kbuckets@[d].nodes@.len() && self.kbuckets@[d].nodes@[i].id.0@ == h.0@;
                assert(self.kbuckets@[d].nodes@[i] == node || prev.kbuckets@[d].nodes@.contains(self.kbuckets@[d].nodes@[i]));
            }
        }
        assert forall|d1: int, d2: int|
            0 <= d1 < 256 && 0 <= d2 < 256 && holds_id((#[trigger] self.kbuckets@[d1]).nodes@, h)
                && holds_id((#[trigger] self.kbuckets@[d2]).nodes@, h) implies d1 == d2 by {
            if d1 != t && d1 != d {
                assert(holds_id(prev.kbuckets@[d1].nodes@, h));
                assert(d1 == d);
            }
            if d2 != t && d2 != d {
                assert(holds_id(prev.kbuckets@[d2].nodes@, h));
                assert(d2 == d);
            }
        }
    }

    proof fn lemma_wf_after_bucket_change(&self, prev: RoutingTable, d: int, node: Node)
        requires
            prev.wf(),
            0 <= d < 256,
            self.host == prev.host,
            node.id.0@ != prev.host.id.0@,
            self.kbuckets@.len() == 256,
            self.kbuckets@[d].depth == prev.kbuckets@[d].depth,
            self.kbuckets@[d].bucket_size == prev.kbuckets@[d].bucket_size,
            self.kbuckets@[d].wf(),
            bucket_index(prev.host.id, node.id) == d,
            forall|i: int| 0 <= i < self.kbuckets@[d].nodes@.len() ==>
                (#[trigger] self.kbuckets@[d].nodes@[i]) == node || prev.kbuckets@[d].nodes@.contains(self.kbuckets@[d].nodes@[i]),
            forall|j: int| 0 <= j < 256 && j != d ==> #[trigger] self.kbuckets@[j] == prev.kbuckets@[j],
        ensures
            self.wf(),
    {
        let h = self.host.id;
        assert forall|e: int, i: int|
            0 <= e < 256 && 0 <= i < self.kbuckets@[e].nodes@.len()
                && (#[trigger] self.kbuckets@[e].nodes@[i]).id.0@ != h.0@
            implies bucket_index(h, self.kbuckets@[e].nodes@[i].id) == e by {
            if e == d && self.kbuckets@[d].nodes@[i] != node {
                let k = choose|k: int| 0 <= k < prev.kbuckets@[d].nodes@.len()
                    && prev.kbuckets@[d].nodes@[k] == self.kbuckets@[d].nodes@[i];
                assert(prev.kbuckets@[d].nodes@[k] == self.kbuckets@[d].nodes@[i]);
            }
        }
        assert forall|d1: int, d2: int|
            0 <= d1 < 256 && 0 <= d2 < 256 && holds_id((#[trigger] self.kbuckets@[d1]).nodes@, h)
                && holds_id((#[trigger] self.kbuckets@[d2]).nodes@, h) implies d1 == d2 by {
            if d1 == d {
                let i = choose|i: int| 0 <= i < self.kbuckets@[d].nodes@.len() && self.kbuckets@[d].nodes@[i].id.0@ == h.0@;
                let k = choose|k: int| 0 <= k < prev.kbuckets@[d].nodes@.len()
                    && prev.kbuckets@[d].nodes@[k] == self.kbuckets@[d].nodes@[i];
                assert(holds_id(prev.kbuckets@[d].nodes@, h));
            }
            if d2 == d {
                let i = choose|i: int| 0 <= i < self.kbuckets@[d].nodes@.len() && self.kbuckets@[d].nodes@[i].id.0@ == h.0@;
                let k = choose|k: int| 0 <= k < prev.kbuckets@[d].nodes@.len()
                    && prev.kbuckets@[d].nodes@[k] == self.kbuckets@[d].nodes@[i];
                assert(holds_id(prev.kbuckets@[d].nodes@, h));
            }
        }
    }

    /// The bucket of `node`.
    pub fn get_bucket_index(&self, node: &Node) -> (r: usize)
        ensures
            r == bucket_index(self.host.id, node.id),
            r < 256,
    {
        let mut k: usize = 0;
        while k < NODE_ID_BITS
            invariant
                k <= 256,
                forall|j: int| 0 <= j < k ==> id_bit(self.host.id.0@, j) == id_bit(node.id.0@, j),
                first_diff_bit(self.host.id.0@, node.id.0@, 0) == first_diff_bit(self.host.id.0@, node.id.0@, k as int)
                    || k == 256,
            decreases NODE_ID_BITS - k,
        {
            if KBucket::get_bit(&self.host.id, k) != KBucket::get_bit(&node.id, k) {
                return k;
            }
            k = k + 1;
        }
        proof {
            lemma_all_equal_bits(self.host.id.0@, node.id.0@, 0);
        }
        0
    }
}

pub proof fn lemma_fresh_index_bound(picked: Seq<int>, n: int, b: int)
    requires
        0 <= b < n,
        !picked.contains(b),
        forall|t: int| 0 <= t < picked.len() ==> 0 <= #[trigger] picked[t] < n,
        forall|t1: int, t2: int| 0 <= t1 < picked.len() && 0 <= t2 < picked.len() && t1 != t2 ==> #[trigger] picked[t1] != #[trigger] picked[t2],
    ensures
        picked.len() < n,
{
    let full = vstd::set_lib::set_int_range(0, n);
    vstd::set_lib::lemma_int_range(0, n);
    assert(picked.no_duplicates()) by {
        assert forall|i: int, j: int| 0 <= i < picked.len() && 0 <= j < picked.len() && i != j implies picked[i] != picked[j] by {
            assert(picked[i] != picked[j]);
        }
    }
    picked.unique_seq_to_set();
    let s = picked.to_set();
    assert(s.subset_of(full.remove(b))) by {
        assert forall|x: int| s.contains(x) implies full.remove(b).contains(x) by {
            let t = choose|t: int| 0 <= t < picked.len() && picked[t] == x;
            assert(0 <= picked[t] < n);
        }
    }
    vstd::set_lib::lemma_len_subset(s, full.remove(b));
}

proof fn lemma_all_equal_bits(a: Seq<u8>, b: Seq<u8>, k: int)
    requires
        0 <= k <= 256,
        forall|j: int| 0 <= j < 256 ==> id_bit(a, j) == id_bit(b, j),
    ensures
        first_diff_bit(a, b, k) == 0,
    decreases 256 - k,
{
    if k < 256 {
        lemma_all_equal_bits(a, b, k + 1);
    }
}

} // verus!
