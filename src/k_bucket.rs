//! A bounded, ordered set of peers, oldest first.

use crate::node::Node;
use crate::node_id::NodeId;
use std::collections::VecDeque;
use vstd::prelude::*;

verus! {

/// Whether some peer of `s` has identifier `id`.
pub open spec fn holds_id(s: Seq<Node>, id: NodeId) -> bool {
    exists|i: int| 0 <= i < s.len() && s[i].id.0@ == id.0@
}

/// No two peers of `s` share an identifier.
pub open spec fn unique_ids(s: Seq<Node>) -> bool {
    forall|i: int, j: int| 0 <= i < s.len() && 0 <= j < s.len() && i != j ==> s[i].id.0@ != s[j].id.0@
}

/// Bit `k` of an identifier, counting from the most significant bit of its first byte.
pub open spec fn id_bit(id: Seq<u8>, k: int) -> bool {
    0 <= k && k / 8 < id.len() && (id[k / 8] >> ((7 - k % 8) as u8)) & 1 == 1
}

/// The peers of `s`, in order, whose bit `k` is `side`.
pub open spec fn side_of(s: Seq<Node>, k: int, side: bool) -> Seq<Node>
    decreases s.len(),
{
    if s.len() == 0 {
        Seq::empty()
    } else if id_bit(s.last().id.0@, k) == side {
        side_of(s.drop_last(), k, side).push(s.last())
    } else {
        side_of(s.drop_last(), k, side)
    }
}

#[derive(Debug)]
pub struct KBucket {
    pub nodes: VecDeque<Node>,
    pub bucket_size: usize,
    pub depth: usize,
}

impl KBucket {
    pub open spec fn view(&self) -> Seq<Node> {
        self.nodes@
    }

    /// At most `bucket_size` peers, each identifier once.
    pub open spec fn wf(&self) -> bool {
        &&& self.nodes@.len() <= self.bucket_size
        &&& unique_ids(self.nodes@)
    }

    pub fn new(depth: usize, bucket_size: usize) -> (r: KBucket)
        ensures
            r.view() == Seq::<Node>::empty(),
            r.depth == depth,
            r.bucket_size == bucket_size,
            r.wf(),
    {
        KBucket { nodes: VecDeque::with_capacity(bucket_size), bucket_size, depth }
    }

    /// The position of the peer with identifier `node_id`, if there is one.
    fn position(&self, node_id: &NodeId) -> (r: Option<usize>)
        ensures
            r matches Some(p) ==> p < self.nodes@.len() && self.nodes@[p as int].id.0@ == node_id.0@,
            r is None ==> !holds_id(self.nodes@, *node_id),
    {
        let mut i: usize = 0;
        while i < self.nodes.len()
            invariant
                i <= self.nodes@.len(),
                forall|j: int| 0 <= j < i ==> self.nodes@[j].id.0@ != node_id.0@,
            decreases self.nodes@.len() - i,
        {
            if self.nodes[i].id == *node_id {
                return Some(i);
            }
            i = i + 1;
        }
        None
    }

    pub fn contains(&self, node_id: &NodeId) -> (r: bool)
        ensures
            r == holds_id(self.nodes@, *node_id),
    {
        self.position(node_id).is_some()
    }

    pub fn is_full(&self) -> (r: bool)
        ensures
            r == (self.nodes@.len() == self.bucket_size),
    {
        self.nodes.len() == self.bucket_size
    }

    /// Drops the oldest peer, then inserts `node`.
    pub fn envict_and_insert(&mut self, node: Node)
        requires
            old(self).wf(),
            old(self).nodes@.len() > 0,
            !holds_id(old(self).nodes@, node.id),
        ensures
            final(self).wf(),
            final(self).nodes@ == old(self).nodes@.subrange(1, old(self).nodes@.len() as int).push(node),
            final(self).bucket_size == old(self).bucket_size,
            final(self).depth == old(self).depth,
    {
        self.nodes.pop_front();
        assert(!holds_id(self.nodes@, node.id)) by {
            if holds_id(self.nodes@, node.id) {
                let i = choose|i: int| 0 <= i < self.nodes@.len() && self.nodes@[i].id.0@ == node.id.0@;
                assert(old(self).nodes@[i + 1].id.0@ == node.id.0@);
            }
        }
        self.insert(node);
    }

    /// Removes the peer with the identifier of `node`; nothing when there is none.
    pub fn remove(&mut self, node: Node)
        requires
            old(self).wf(),
        ensures
            final(self).wf(),
            !holds_id(final(self).nodes@, node.id),
            holds_id(old(self).nodes@, node.id) ==> exists|p: int|
                0 <= p < old(self).nodes@.len() && old(self).nodes@[p].id.0@ == node.id.0@
                    && final(self).nodes@ == old(self).nodes@.remove(p),
            !holds_id(old(self).nodes@, node.id) ==> final(self).nodes@ == old(self).nodes@,
            final(self).bucket_size == old(self).bucket_size,
            final(self).depth == old(self).depth,
    {
        if let Some(pos) = self.position(&node.id) {
            let ghost before = self.nodes@;
            self.nodes.remove(pos);
            assert(!holds_id(self.nodes@, node.id)) by {
                if holds_id(self.nodes@, node.id) {
                    let i = choose|i: int| 0 <= i < self.nodes@.len() && self.nodes@[i].id.0@ == node.id.0@;
                    if i < pos {
                        assert(before[i].id.0@ == node.id.0@);
                    } else {
                        assert(before[i + 1].id.0@ == node.id.0@);
                    }
                }
            }
        }
    }

    /// Removes and returns the peer with identifier `node_id`, if there is one.
    pub fn take(&mut self, node_id: &NodeId) -> (r: Option<Node>)
        requires
            old(self).wf(),
        ensures
            final(self).wf(),
            final(self).bucket_size == old(self).bucket_size,
            final(self).depth == old(self).depth,
            r matches Some(n) ==> exists|p: int|
                0 <= p < old(self).nodes@.len() && old(self).nodes@[p] == n && n.id.0@ == node_id.0@
                    && final(self).nodes@ == old(self).nodes@.remove(p),
            r is None ==> !holds_id(old(self).nodes@, *node_id) && final(self).nodes@ == old(self).nodes@,
    {
        match self.position(node_id) {
            Some(pos) => self.nodes.remove(pos),
            None => None,
        }
    }

    /// The oldest peer.
    pub fn get_first_node(&self) -> (r: Option<Node>)
        ensures
            self.nodes@.len() == 0 ==> r.is_none(),
            self.nodes@.len() > 0 ==> r == Some(self.nodes@[0]),
    {
        if self.nodes.len() == 0 {
            None
        } else {
            Some(self.nodes[0].clone())
        }
    }

    /// The oldest peer, the head of the bucket.
    pub fn get_oldest_node(&self) -> (r: Option<Node>)
        ensures
            self.nodes@.len() == 0 ==> r.is_none(),
            self.nodes@.len() > 0 ==> r == Some(self.nodes@[0]),
    {
        self.get_first_node()
    }

    /// Makes `node` the most recently seen peer: a present identifier moves to the tail with the
    /// new record, an absent one is appended unless the bucket is full.
    pub fn insert(&mut self, node: Node)
        requires
            old(self).wf(),
        ensures
            final(self).wf(),
            final(self).bucket_size == old(self).bucket_size,
            final(self).depth == old(self).depth,
            holds_id(old(self).nodes@, node.id) ==> exists|p: int|
                0 <= p < old(self).nodes@.len() && old(self).nodes@[p].id.0@ == node.id.0@
                    && final(self).nodes@ == old(self).nodes@.remove(p).push(node),
            !holds_id(old(self).nodes@, node.id) && old(self).nodes@.len() < old(self).bucket_size
                ==> final(self).nodes@ == old(self).nodes@.push(node),
            !holds_id(old(self).nodes@, node.id) && old(self).nodes@.len() >= old(self).bucket_size
                ==> final(self).nodes@ == old(self).nodes@,
    {
        let ghost before = self.nodes@;
        if let Some(pos) = self.position(&node.id) {
            self.nodes.remove(pos);
            let ghost mid = self.nodes@;
            assert(forall|i: int| 0 <= i < mid.len() ==> mid[i].id.0@ != node.id.0@) by {
                assert forall|i: int| 0 <= i < mid.len() implies mid[i].id.0@ != node.id.0@ by {
                    if i < pos {
                        assert(before[i] == mid[i]);
                    } else {
                        assert(before[i + 1] == mid[i]);
                    }
                }
            }
            self.nodes.push_back(node);
            assert(self.nodes@ == before.remove(pos as int).push(node));
            return;
        }
        if self.nodes.len() >= self.bucket_size {
            return;
        }
        self.nodes.push_back(node);
    }

    /// The two halves of this bucket one level deeper, each with the capacity of that depth:
    /// peers whose bit `depth` is clear go left, the others right, each in their order here.
    pub fn split(&self) -> (r: (KBucket, KBucket))
        requires
            self.wf(),
            self.depth < 256,
        ensures
            r.0.depth == self.depth + 1,
            r.1.depth == self.depth + 1,
            r.0.bucket_size == crate::routing_table::bucket_capacity(self.depth + 1),
            r.1.bucket_size == crate::routing_table::bucket_capacity(self.depth + 1),
            r.0.nodes@ == side_of(self.nodes@, self.depth as int, false),
            r.1.nodes@ == side_of(self.nodes@, self.depth as int, true),
    {
        let next_depth = self.depth + 1;
        let size = if next_depth + 1 < crate::node_id::KBUCKET_MAX {
            next_depth + 1
        } else {
            crate::node_id::KBUCKET_MAX
        };
        let mut left_bucket = KBucket::new(next_depth, size);
        let mut right_bucket = KBucket::new(next_depth, size);
        let mut i: usize = 0;
        while i < self.nodes.len()
            invariant
                i <= self.nodes@.len(),
                left_bucket.depth == next_depth,
                right_bucket.depth == next_depth,
                left_bucket.bucket_size == size,
                right_bucket.bucket_size == size,
                size == crate::routing_table::bucket_capacity(self.depth + 1),
                left_bucket.nodes@ == side_of(self.nodes@.subrange(0, i as int), self.depth as int, false),
                right_bucket.nodes@ == side_of(self.nodes@.subrange(0, i as int), self.depth as int, true),
            decreases self.nodes@.len() - i,
        {
            let node = self.nodes[i].clone();
            proof {
                let next = self.nodes@.subrange(0, i + 1);
                assert(next.drop_last() =~= self.nodes@.subrange(0, i as int));
                assert(next.last() == self.nodes@[i as int]);
            }
            if Self::get_bit(&node.id, self.depth) {
                right_bucket.nodes.push_back(node);
            } else {
                left_bucket.nodes.push_back(node);
            }
            i = i + 1;
        }
        assert(self.nodes@.subrange(0, self.nodes@.len() as int) =~= self.nodes@);
        (left_bucket, right_bucket)
    }

    /// Bit `bit_index` of `id`, most significant first; `false` past the last bit.
    pub fn get_bit(id: &NodeId, bit_index: usize) -> (r: bool)
        ensures
            r == id_bit(id.0@, bit_index as int),
    {
        let byte_index = bit_index / 8;
        let bit_offset = (7 - (bit_index % 8)) as u8;
        if byte_index >= 32 {
            return false;
        }
        (id.0[byte_index] >> bit_offset) & 1 == 1
    }

    /// The peers, oldest first.
    pub fn get_nodes(&self) -> (r: &VecDeque<Node>)
        ensures
            r@ == self.nodes@,
    {
        &self.nodes
    }
}

} // verus!
