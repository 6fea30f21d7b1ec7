//! The iterative lookup: which peer to ask next, and what to make of each answer.

use crate::data::KademliaData;
use crate::dht::{peers_of, FindValueReply};
use crate::node::Node;
use crate::node_id::{be_value, id_distance, Distance, NodeId};
use crate::routing_table::{lemma_fresh_index_bound, NodeDistance};
use std::collections::VecDeque;
use vstd::prelude::*;

verus! {

/// Peers of `s` are ordered by distance to `key`, nearest first.
pub open spec fn sorted_by_distance(key: NodeId, s: Seq<Node>) -> bool {
    forall|t1: int, t2: int| 0 <= t1 < t2 < s.len() ==> id_distance(key, (#[trigger] s[t1]).id) <= id_distance(key, (#[trigger] s[t2]).id)
}

/// No identifier occurs twice in `s`.
pub open spec fn distinct_ids(s: Seq<Node>) -> bool {
    forall|t1: int, t2: int| 0 <= t1 < s.len() && 0 <= t2 < s.len() && t1 != t2 ==> (#[trigger] s[t1]).id.0@ != (#[trigger] s[t2]).id.0@
}

/// Some identifier of `v` is `id`.
pub open spec fn has_id(v: Seq<NodeId>, id: NodeId) -> bool {
    exists|i: int| 0 <= i < v.len() && (#[trigger] v[i]).0@ == id.0@
}

/// Some peer of `s` has identifier `id`.
pub open spec fn has_peer_id(s: Seq<Node>, id: NodeId) -> bool {
    exists|i: int| 0 <= i < s.len() && (#[trigger] s[i]).id.0@ == id.0@
}

/// `r` is `nodes` ordered by distance to `key` with each identifier kept once.
pub open spec fn sorted_dedup_of(key: NodeId, nodes: Seq<Node>, r: Seq<Node>) -> bool {
    &&& sorted_by_distance(key, r)
    &&& distinct_ids(r)
    &&& forall|t: int| 0 <= t < r.len() ==> nodes.contains(#[trigger] r[t])
    &&& forall|j: int| 0 <= j < nodes.len() ==> has_peer_id(r, #[trigger] nodes[j].id)
}

/// `nodes` ordered by distance to `key`, nearest first, each identifier kept once.
pub fn sorted_unique_by_distance(key: &NodeId, nodes: &Vec<Node>) -> (r: Vec<Node>)
    ensures
        sorted_dedup_of(*key, nodes@, r@),
{
    let n = nodes.len();
    let mut dists: Vec<Distance> = Vec::new();
    let mut taken: Vec<bool> = Vec::new();
    let mut k: usize = 0;
    while k < n
        invariant
            n == nodes@.len(),
            k <= n,
            dists@.len() == k,
            taken@.len() == k,
            forall|j: int| 0 <= j < k ==> !taken@[j],
            forall|j: int| 0 <= j < k ==> be_value((#[trigger] dists@[j]).0@) == id_distance(*key, nodes@[j].id),
        decreases n - k,
    {
        dists.push(key.distance(&nodes[k].id));
        taken.push(false);
        k = k + 1;
    }
    let mut result: Vec<Node> = Vec::new();
    let ghost mut picked: Seq<int> = Seq::empty();
    let mut more = true;
    while more
        invariant
            n == nodes@.len(),
            dists@.len() == n,
            taken@.len() == n,
            forall|j: int| 0 <= j < n ==> be_value((#[trigger] dists@[j]).0@) == id_distance(*key, nodes@[j].id),
            forall|t: int| 0 <= t < picked.len() ==> 0 <= #[trigger] picked[t] < n,
            forall|t1: int, t2: int| 0 <= t1 < picked.len() && 0 <= t2 < picked.len() && t1 != t2 ==> #[trigger] picked[t1] != #[trigger] picked[t2],
            forall|j: int| 0 <= j < n ==> (#[trigger] taken@[j] <==> picked.contains(j)),
            forall|t: int| 0 <= t < result@.len() ==> nodes@.contains(#[trigger] result@[t]),
            distinct_ids(result@),
            sorted_by_distance(*key, result@),
            forall|t: int, j: int| 0 <= t < result@.len() && 0 <= j < n && !taken@[j]
                ==> id_distance(*key, (#[trigger] result@[t]).id) <= id_distance(*key, (#[trigger] nodes@[j]).id),
            forall|j: int| 0 <= j < n && #[trigger] taken@[j] ==> has_peer_id(result@, nodes@[j].id),
            !more ==> forall|j: int| 0 <= j < n ==> taken@[j],
        decreases n - picked.len(), if more { 1int } else { 0int },
    {
        let mut best: Option<usize> = None;
        let mut j: usize = 0;
        while j < n
            invariant
                n == nodes@.len(),
                dists@.len() == n,
                taken@.len() == n,
                j <= n,
                forall|m: int| 0 <= m < n ==> be_value((#[trigger] dists@[m]).0@) == id_distance(*key, nodes@[m].id),
                best matches Some(b) ==> b < j && !taken@[b as int]
                    && forall|m: int| 0 <= m < j && !taken@[m] ==> id_distance(*key, nodes@[b as int].id) <= id_distance(*key, (#[trigger] nodes@[m]).id),
                best is None ==> forall|m: int| 0 <= m < j ==> taken@[m],
            decreases n - j,
        {
            if !taken[j] {
                match best {
                    None => { best = Some(j); },
                    Some(b) => {
                        if dists[j].less_than(&dists[b]) {
                            best = Some(j);
                        }
                    },
                }
            }
            j = j + 1;
        }
        match best {
            None => { more = false; },
            Some(b) => {
                proof {
                    assert(!picked.contains(b as int));
                    lemma_fresh_index_bound(picked, n as int, b as int);
                }
                let mut dup = false;
                let mut t: usize = 0;
                while t < result.len()
                    invariant
                        t <= result@.len(),
                        b < nodes@.len(),
                        dup <==> exists|u: int| 0 <= u < t && (#[trigger] result@[u]).id.0@ == nodes@[b as int].id.0@,
                    decreases result@.len() - t,
                {
                    if result[t].id == nodes[b].id {
                        dup = true;
                    }
                    t = t + 1;
                }
                let ghost old_result = result@;
                let ghost old_taken = taken@;
                taken.set(b, true);
                if !dup {
                    result.push(nodes[b].clone());
                    assert(result@.last() == nodes@[b as int]);
                    assert(distinct_ids(result@)) by {
                        assert forall|t1: int, t2: int| 0 <= t1 < result@.len() && 0 <= t2 < result@.len() && t1 != t2
                            implies (#[trigger] result@[t1]).id.0@ != (#[trigger] result@[t2]).id.0@ by {
                            if t1 < old_result.len() && t2 < old_result.len() {
                                assert(old_result[t1] == result@[t1] && old_result[t2] == result@[t2]);
                            }
                        }
                    }
                    assert forall|t: int| 0 <= t < result@.len() implies nodes@.contains(#[trigger] result@[t]) by {
                        if t < old_result.len() {
                            assert(old_result[t] == result@[t]);
                        }
                    }
                }
                let ghost old_picked = picked;
                proof { picked = picked.push(b as int); }
                assert forall|j: int| 0 <= j < n implies (#[trigger] taken@[j] <==> picked.contains(j)) by {
                    if picked.contains(j) && j != b {
                        let u = choose|u: int| 0 <= u < picked.len() && picked[u] == j;
                        assert(old_picked[u] == j);
                    }
                    if old_picked.contains(j) {
                        let u = choose|u: int| 0 <= u < old_picked.len() && old_picked[u] == j;
                        assert(picked[u] == j);
                    }
                    if j == b {
                        assert(picked[picked.len() - 1] == j);
                    }
                }
                assert forall|j: int| 0 <= j < n && #[trigger] taken@[j] implies has_peer_id(result@, nodes@[j].id) by {
                    if j == b {
                        if dup {
                            let u = choose|u: int| 0 <= u < old_result.len() && (#[trigger] old_result[u]).id.0@ == nodes@[b as int].id.0@;
                            assert(result@[u] == old_result[u]);
                        } else {
                            assert(result@[result@.len() - 1] == nodes@[j]);
                        }
                    } else {
                        assert(old_taken[j]);
                        let u = choose|u: int| 0 <= u < old_result.len() && (#[trigger] old_result[u]).id.0@ == nodes@[j].id.0@;
                        assert(result@[u] == old_result[u]);
                    }
                }
            },
        }
    }
    proof {
        assert forall|j: int| 0 <= j < nodes@.len() implies has_peer_id(result@, #[trigger] nodes@[j].id) by {
            assert(taken@[j]);
        }
    }
    result
}

/// The state of one iterative lookup of `target` run by node `self_id`.
#[derive(Debug)]
pub struct NodeLookup {
    pub target: NodeId,
    pub self_id: NodeId,
    /// Peers still to ask, in the order they will be asked.
    pub check_nodes: VecDeque<Node>,
    /// Peers already asked.
    pub visited: Vec<NodeId>,
    /// Peers that answered a FIND_NODE.
    pub closest_nodes: Vec<Node>,
}

/// The peers of `reply` worth asking next: neither the asking node nor a peer already asked.
pub open spec fn fresh_peers(reply: Seq<Node>, self_id: NodeId, visited: Seq<NodeId>) -> Seq<Node> {
    reply.filter(|n: Node| n.id.0@ != self_id.0@ && !has_id(visited, n.id))
}

impl NodeLookup {
    /// A lookup seeded with the peers nearest to `target` in the local routing table.
    pub fn new(target: NodeId, self_id: NodeId, seeds: Vec<NodeDistance>) -> (r: NodeLookup)
        ensures
            r.target == target,
            r.self_id == self_id,
            r.check_nodes@ == peers_of(seeds@),
            r.visited@.len() == 0,
            r.closest_nodes@.len() == 0,
    {
        let mut check_nodes: VecDeque<Node> = VecDeque::new();
        let mut i: usize = 0;
        while i < seeds.len()
            invariant
                i <= seeds@.len(),
                check_nodes@ == peers_of(seeds@.subrange(0, i as int)),
            decreases seeds@.len() - i,
        {
            check_nodes.push_back(seeds[i].1.clone());
            assert(peers_of(seeds@.subrange(0, i + 1)) =~= peers_of(seeds@.subrange(0, i as int)).push(seeds@[i as int].1));
            i = i + 1;
        }
        assert(seeds@.subrange(0, seeds@.len() as int) =~= seeds@);
        NodeLookup { target, self_id, check_nodes, visited: Vec::new(), closest_nodes: Vec::new() }
    }

    fn visited_contains(&self, id: &NodeId) -> (r: bool)
        ensures
            r == has_id(self.visited@, *id),
    {
        let mut i: usize = 0;
        while i < self.visited.len()
            invariant
                i <= self.visited@.len(),
                forall|j: int| 0 <= j < i ==> (#[trigger] self.visited@[j]).0@ != id.0@,
            decreases self.visited@.len() - i,
        {
            if self.visited[i] == *id {
                return true;
            }
            i = i + 1;
        }
        false
    }

    /// The next peer to ask: the first queued peer not asked yet, now marked as asked. Queued
    /// peers that were asked already are dropped on the way. `None` ends the lookup.
    pub fn next_peer(&mut self) -> (r: Option<Node>)
        ensures
            final(self).target == old(self).target,
            final(self).self_id == old(self).self_id,
            final(self).closest_nodes == old(self).closest_nodes,
            r matches Some(n) ==> {
                &&& old(self).check_nodes@.contains(n)
                &&& !has_id(old(self).visited@, n.id)
                &&& final(self).visited@ == old(self).visited@.push(n.id)
                &&& exists|p: int| 0 <= p < old(self).check_nodes@.len() && old(self).check_nodes@[p] == n
                    && final(self).check_nodes@ == old(self).check_nodes@.subrange(p + 1, old(self).check_nodes@.len() as int)
                    && forall|q: int| 0 <= q < p ==> has_id(old(self).visited@, (#[trigger] old(self).check_nodes@[q]).id)
            },
            r is None ==> {
                &&& final(self).check_nodes@.len() == 0
                &&& final(self).visited@ == old(self).visited@
                &&& forall|q: int| 0 <= q < old(self).check_nodes@.len() ==> has_id(old(self).visited@, (#[trigger] old(self).check_nodes@[q]).id)
            },
    {
        let ghost start = self.check_nodes@;
        let ghost mut p: int = 0;
        loop
            invariant
                self.target == old(self).target,
                self.self_id == old(self).self_id,
                self.closest_nodes == old(self).closest_nodes,
                self.visited@ == old(self).visited@,
                start == old(self).check_nodes@,
                0 <= p <= start.len(),
                self.check_nodes@ == start.subrange(p, start.len() as int),
                forall|q: int| 0 <= q < p ==> has_id(old(self).visited@, (#[trigger] start[q]).id),
            decreases self.check_nodes@.len(),
        {
            let Some(node) = self.check_nodes.pop_front() else {
                return None;
            };
            assert(node == start[p]);
            if !self.visited_contains(&node.id) {
                self.visited.push(node.id);
                proof {
                    assert(start[p] == node);
                }
                assert(self.check_nodes@ == start.subrange(p + 1, start.len() as int));
                return Some(node);
            }
            proof {
                p = p + 1;
            }
            assert(self.check_nodes@ =~= start.subrange(p, start.len() as int));
        }
    }

    /// Takes the FIND_NODE answer of `peer` (`None` when the call failed, and the peer is
    /// skipped): the peer counts as found, and the peers it names that are new to this lookup
    /// are queued nearest first.
    pub fn on_reply(&mut self, peer: Node, reply: Option<Vec<Node>>)
        ensures
            final(self).target == old(self).target,
            final(self).self_id == old(self).self_id,
            final(self).visited == old(self).visited,
            reply is None ==> final(self).check_nodes == old(self).check_nodes && final(self).closest_nodes == old(self).closest_nodes,
            reply matches Some(ns) ==> {
                &&& final(self).closest_nodes@ == old(self).closest_nodes@.push(peer)
                &&& exists|added: Seq<Node>| final(self).check_nodes@ == old(self).check_nodes@ + added
                    && sorted_dedup_of(old(self).target, fresh_peers(ns@, old(self).self_id, old(self).visited@), added)
            },
    {
        let Some(nodes) = reply else {
            return;
        };
        self.closest_nodes.push(peer);
        let fresh = self.filter_fresh(&nodes);
        let sorted = sorted_unique_by_distance(&self.target, &fresh);
        let ghost before = self.check_nodes@;
        let mut i: usize = 0;
        while i < sorted.len()
            invariant
                i <= sorted@.len(),
                self.check_nodes@ == before + sorted@.subrange(0, i as int),
                self.target == old(self).target,
                self.self_id == old(self).self_id,
                self.visited == old(self).visited,
                self.closest_nodes@ == old(self).closest_nodes@.push(peer),
            decreases sorted@.len() - i,
        {
            self.check_nodes.push_back(sorted[i].clone());
            assert(before + sorted@.subrange(0, i + 1) =~= (before + sorted@.subrange(0, i as int)).push(sorted@[i as int]));
            i = i + 1;
        }
        assert(sorted@.subrange(0, sorted@.len() as int) =~= sorted@);
    }

    /// The peers of `nodes` that are neither this node nor already asked, in order.
    fn filter_fresh(&self, nodes: &Vec<Node>) -> (r: Vec<Node>)
        ensures
            r@ == fresh_peers(nodes@, self.self_id, self.visited@),
    {
        let mut out: Vec<Node> = Vec::new();
        let mut i: usize = 0;
        while i < nodes.len()
            invariant
                i <= nodes@.len(),
                out@ == fresh_peers(nodes@.subrange(0, i as int), self.self_id, self.visited@),
            decreases nodes@.len() - i,
        {
            let keep = !(nodes[i].id == self.self_id) && !self.visited_contains(&nodes[i].id);
            proof {
                let pre = nodes@.subrange(0, i as int);
                assert(nodes@.subrange(0, i + 1) =~= pre.push(nodes@[i as int]));
                pre.lemma_filter_push(nodes@[i as int], |n: Node| n.id.0@ != self.self_id.0@ && !has_id(self.visited@, n.id));
            }
            if keep {
                out.push(nodes[i].clone());
            }
            i = i + 1;
        }
        assert(nodes@.subrange(0, nodes@.len() as int) =~= nodes@);
        out
    }

    /// Takes the FIND_VALUE answer of a peer (`None` when the call failed): a value ends the
    /// lookup and is returned; a list of peers queues the new ones nearest first.
    pub fn on_value_reply(&mut self, reply: Option<FindValueReply>) -> (r: Option<KademliaData>)
        ensures
            final(self).target == old(self).target,
            final(self).self_id == old(self).self_id,
            final(self).visited == old(self).visited,
            final(self).closest_nodes == old(self).closest_nodes,
            reply is None ==> r is None && final(self).check_nodes == old(self).check_nodes,
            reply matches Some(FindValueReply::Value(v)) ==> r matches Some(w) && w.view() == v.view(),
            reply matches Some(FindValueReply::Nodes(ns)) ==> r is None && exists|added: Seq<Node>|
                final(self).check_nodes@ == old(self).check_nodes@ + added
                    && sorted_dedup_of(old(self).target, fresh_peers(ns@, old(self).self_id, old(self).visited@), added),
    {
        match reply {
            None => None,
            Some(FindValueReply::Value(v)) => Some(v),
            Some(FindValueReply::Nodes(nodes)) => {
                let fresh = self.filter_fresh(&nodes);
                let sorted = sorted_unique_by_distance(&self.target, &fresh);
                let ghost before = self.check_nodes@;
                let mut i: usize = 0;
                while i < sorted.len()
                    invariant
                        i <= sorted@.len(),
                        self.check_nodes@ == before + sorted@.subrange(0, i as int),
                        self.target == old(self).target,
                        self.self_id == old(self).self_id,
                        self.visited == old(self).visited,
                        self.closest_nodes == old(self).closest_nodes,
                    decreases sorted@.len() - i,
                {
                    self.check_nodes.push_back(sorted[i].clone());
                    assert(before + sorted@.subrange(0, i + 1) =~= (before + sorted@.subrange(0, i as int)).push(sorted@[i as int]));
                    i = i + 1;
                }
                assert(sorted@.subrange(0, sorted@.len() as int) =~= sorted@);
                None
            },
        }
    }

    /// The lookup's result: the peers that answered, nearest to the target first, each once.
    pub fn finish(&self) -> (r: Vec<Node>)
        ensures
            sorted_dedup_of(self.target, self.closest_nodes@, r@),
    {
        sorted_unique_by_distance(&self.target, &self.closest_nodes)
    }
}

} // verus!
