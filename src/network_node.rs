//! How a node ties the DHT to its chain: choosing the network's tip, walking back to a common
//! ancestor, swapping in a fetched suffix, and reacting to stored values and mined blocks.

use crate::block::{Block, BlockView};
use crate::block_header::{header_signed_by, BlockHeader};
use crate::chain::{append_outcome, holds_hash, BlockChain, BlockChainError};
use crate::data::KademliaData;
use crate::hash_func::sha256_of;
use crate::node::{Contract, Node};
use crate::node_id::NodeId;
use crate::utils::bytes32_eq;
use vstd::prelude::*;

verus! {

/// Size of a miner batch.
pub const BATCH_PULLING_SIZE: usize = 15;

/// Longest walk back along `prev_hash` links when reconciling.
pub const MAX_TTL: u32 = 1024;

/// Peers probed in one round of the health check.
pub const HEALTH_PROBE_COUNT: usize = 5;

/// Where a node listens and whom it asks to join.
#[derive(Debug)]
pub struct NetworkMode {
    pub bootstraps: Vec<Contract>,
    pub host: String,
    pub port: usize,
}

/// `a` is heavier than `b`: greater difficulty, then greater index, then earlier timestamp.
pub open spec fn heavier(a: BlockHeader, b: BlockHeader) -> bool {
    a.difficulty > b.difficulty
        || (a.difficulty == b.difficulty && a.index > b.index)
        || (a.difficulty == b.difficulty && a.index == b.index && a.timestamp < b.timestamp)
}

/// Whether `a` is heavier than `b`.
pub fn is_heavier(a: &BlockHeader, b: &BlockHeader) -> (r: bool)
    ensures
        r == heavier(*a, *b),
{
    a.difficulty > b.difficulty
        || (a.difficulty == b.difficulty && a.index > b.index)
        || (a.difficulty == b.difficulty && a.index == b.index && a.timestamp < b.timestamp)
}

/// The heaviest candidate, the last one among equally heavy candidates; `None` when there are
/// none.
pub fn select_tip(candidates: &Vec<BlockHeader>) -> (r: Option<BlockHeader>)
    ensures
        candidates@.len() == 0 <==> r.is_none(),
        r matches Some(h) ==> exists|p: int| 0 <= p < candidates@.len() && candidates@[p] == h
            && (forall|j: int| 0 <= j < candidates@.len() ==> !heavier(#[trigger] candidates@[j], h))
            && (forall|j: int| p < j < candidates@.len() ==> heavier(h, #[trigger] candidates@[j])),
{
    if candidates.len() == 0 {
        return None;
    }
    let mut best: usize = 0;
    let mut i: usize = 1;
    while i < candidates.len()
        invariant
            1 <= i <= candidates@.len(),
            best < i,
            forall|j: int| 0 <= j < i ==> !heavier(#[trigger] candidates@[j], candidates@[best as int]),
            forall|j: int| best < j < i ==> heavier(candidates@[best as int], #[trigger] candidates@[j]),
        decreases candidates@.len() - i,
    {
        if !is_heavier(&candidates[best], &candidates[i]) {
            best = i;
        }
        i = i + 1;
    }
    Some(candidates[best])
}

/// The chain-tip headers of `replies` that may be believed: a header found under a peer's
/// chain-head key and signed by that peer.
pub open spec fn believed_tips(replies: Seq<(Node, Option<KademliaData>)>) -> Seq<BlockHeader>
    decreases replies.len(),
{
    if replies.len() == 0 {
        Seq::empty()
    } else {
        let rest = believed_tips(replies.drop_last());
        let (peer, value) = replies.last();
        match value {
            Some(KademliaData::Header(h)) => if header_signed_by(h, peer.keys.public_key@) {
                rest.push(h)
            } else {
                rest
            },
            _ => rest,
        }
    }
}

/// The candidate tips: this node's own header first, then each believed header of `replies`,
/// which pairs each peer near this node with what FIND_VALUE of its chain-head key returned.
pub fn collect_tip_candidates(own: BlockHeader, replies: &Vec<(Node, Option<KademliaData>)>) -> (r: Vec<BlockHeader>)
    ensures
        r@ == seq![own] + believed_tips(replies@),
{
    let mut out: Vec<BlockHeader> = Vec::new();
    out.push(own);
    let mut i: usize = 0;
    while i < replies.len()
        invariant
            i <= replies@.len(),
            out@ == seq![own] + believed_tips(replies@.subrange(0, i as int)),
        decreases replies@.len() - i,
    {
        let ghost pre = replies@.subrange(0, i as int);
        assert(replies@.subrange(0, i + 1).drop_last() =~= pre);
        if let Some(KademliaData::Header(h)) = &replies[i].1 {
            if h.validate_signature(replies[i].0.keys.public_key) {
                out.push(*h);
                assert(out@ =~= seq![own] + believed_tips(replies@.subrange(0, i + 1)));
            }
        }
        i = i + 1;
    }
    assert(replies@.subrange(0, replies@.len() as int) =~= replies@);
    out
}

/// The network's current tip as this node sees it: the heaviest of its own header and the
/// believed headers of its peers.
pub fn fetch_last_block_header(own: BlockHeader, replies: &Vec<(Node, Option<KademliaData>)>) -> (r: BlockHeader)
    ensures
        exists|p: int| 0 <= p < (seq![own] + believed_tips(replies@)).len()
            && (seq![own] + believed_tips(replies@))[p] == r,
        !heavier(own, r),
        forall|t: int| 0 <= t < believed_tips(replies@).len() ==> !heavier(#[trigger] believed_tips(replies@)[t], r),
{
    let candidates = collect_tip_candidates(own, replies);
    let tip = select_tip(&candidates);
    let Some(h) = tip else {
        return own;
    };
    proof {
        let c = seq![own] + believed_tips(replies@);
        assert(c[0] == own);
        assert forall|t: int| 0 <= t < believed_tips(replies@).len() implies !heavier(#[trigger] believed_tips(replies@)[t], h) by {
            assert(c[t + 1] == believed_tips(replies@)[t]);
        }
    }
    h
}

/// The DHT key of the block with hash `hash`: `NodeId(H(hash))`.
pub fn block_key(hash: &[u8; 32]) -> (r: NodeId)
    ensures
        r.0@ == sha256_of(hash@),
{
    NodeId::new(hash)
}

/// A walk back from a fetched tip along `prev_hash` links towards the local tip.
#[derive(Debug)]
pub struct ChainWalk {
    /// Hash of the local tip: the walk ends at the block that names it as predecessor.
    pub goal_hash: [u8; 32],
    pub ttl: u32,
    pub counter: u32,
    pub visited: Vec<[u8; 32]>,
    /// The blocks fetched, newest first.
    pub founded_blocks: Vec<Block>,
    /// Hash of the block the walk starts from.
    pub start_hash: [u8; 32],
    /// Hash of the block the next fetch must return.
    pub expected_hash: [u8; 32],
    pub done: bool,
}

/// Some hash of `v` is `h`.
pub open spec fn has_hash(v: Seq<[u8; 32]>, h: Seq<u8>) -> bool {
    exists|i: int| 0 <= i < v.len() && (#[trigger] v[i])@ == h
}

/// Whether some hash of `v` is `h`.
fn contains_hash(v: &Vec<[u8; 32]>, h: &[u8; 32]) -> (r: bool)
    ensures
        r == has_hash(v@, h@),
{
    let mut i: usize = 0;
    while i < v.len()
        invariant
            i <= v@.len(),
            forall|j: int| 0 <= j < i ==> (#[trigger] v@[j])@ != h@,
        decreases v@.len() - i,
    {
        if bytes32_eq(&v[i], h) {
            return true;
        }
        i = i + 1;
    }
    false
}

impl ChainWalk {
    /// The blocks collected so far link up: the first has the start hash, each later one is the
    /// predecessor of the one before, the next fetch must return the predecessor of the last,
    /// and no more than `ttl` were taken.
    pub open spec fn links(&self) -> bool {
        let f = self.founded_blocks@;
        &&& self.counter == f.len()
        &&& self.counter <= self.ttl
        &&& f.len() == 0 ==> self.expected_hash@ == self.start_hash@
        &&& f.len() > 0 ==> f[0].header.hash@ == self.start_hash@ && self.expected_hash@ == f.last().header.prev_hash@
        &&& forall|i: int| 1 <= i < f.len() ==> (#[trigger] f[i]).header.hash@ == f[i - 1].header.prev_hash@
    }

    /// A walk from the block with hash `start_hash` towards the local tip `goal_hash`.
    pub fn new(goal_hash: [u8; 32], ttl: u32, start_hash: [u8; 32]) -> (r: ChainWalk)
        ensures
            r.goal_hash == goal_hash,
            r.ttl == ttl,
            r.start_hash == start_hash,
            r.visited@.len() == 0,
            r.founded_blocks@.len() == 0,
            !r.done,
            r.links(),
    {
        ChainWalk {
            goal_hash,
            ttl,
            counter: 0,
            visited: Vec::new(),
            founded_blocks: Vec::new(),
            start_hash,
            expected_hash: start_hash,
            done: false,
        }
    }

    /// Takes the block that the last FIND_VALUE found (`None` when none was found) and returns
    /// the key to fetch next, or `None` when the walk is over: after a failed fetch, after `ttl`
    /// blocks, on a block other than the one asked for, on a block seen before, or on the block
    /// whose predecessor is the local tip.
    pub fn step(&mut self, fetched: Option<Block>) -> (r: Option<NodeId>)
        requires
            old(self).links(),
        ensures
            final(self).links(),
            final(self).goal_hash == old(self).goal_hash,
            final(self).ttl == old(self).ttl,
            final(self).start_hash == old(self).start_hash,
            r is Some ==> !final(self).done,
            (old(self).done || fetched is None || old(self).counter >= old(self).ttl) ==> r is None && final(self).done
                && final(self).founded_blocks@ == old(self).founded_blocks@,
            (!old(self).done && old(self).counter < old(self).ttl) ==> (fetched matches Some(b) ==> {
                &&& (b.header.hash@ != old(self).expected_hash@ || has_hash(old(self).visited@, b.header.hash@))
                    ==> r is None && final(self).done && final(self).founded_blocks@ == old(self).founded_blocks@
                &&& (b.header.hash@ == old(self).expected_hash@ && !has_hash(old(self).visited@, b.header.hash@)) ==> {
                    &&& final(self).founded_blocks@.len() == old(self).founded_blocks@.len() + 1
                    &&& final(self).founded_blocks@.last().view() == b.view()
                    &&& final(self).founded_blocks@.drop_last() == old(self).founded_blocks@
                    &&& b.header.prev_hash@ == old(self).goal_hash@ ==> r is None && final(self).done
                    &&& b.header.prev_hash@ != old(self).goal_hash@ ==> (r matches Some(k) && k.0@ == sha256_of(b.header.prev_hash@))
                }
            }),
    {
        if self.done {
            return None;
        }
        let Some(block) = fetched else {
            self.done = true;
            return None;
        };
        if self.counter >= self.ttl {
            self.done = true;
            return None;
        }
        if !bytes32_eq(&block.header.hash, &self.expected_hash) || contains_hash(&self.visited, &block.header.hash) {
            self.done = true;
            return None;
        }
        self.visited.push(block.header.hash);
        let prev = block.header.prev_hash;
        let reached = bytes32_eq(&self.goal_hash, &prev);
        let ghost before = self.founded_blocks@;
        self.founded_blocks.push(block);
        self.expected_hash = prev;
        self.counter = self.counter + 1;
        proof {
            let f = self.founded_blocks@;
            assert forall|i: int| 1 <= i < f.len() implies (#[trigger] f[i]).header.hash@ == f[i - 1].header.prev_hash@ by {
                if i < f.len() - 1 {
                    assert(f[i] == before[i] && f[i - 1] == before[i - 1]);
                }
            }
            if before.len() > 0 {
                assert(f[0] == before[0]);
            }
        }
        if reached {
            self.done = true;
            None
        } else {
            Some(block_key(&prev))
        }
    }

    /// The fetched blocks, oldest first: each names the one before it as predecessor, and the
    /// last is the block the walk started from.
    pub fn into_blocks(self) -> (r: Vec<Block>)
        requires
            self.links(),
        ensures
            r@ == self.founded_blocks@.reverse(),
            r@.len() <= self.ttl,
            forall|i: int| 0 <= i < r@.len() - 1 ==> (#[trigger] r@[i + 1]).header.prev_hash@ == r@[i].header.hash@,
            r@.len() > 0 ==> r@.last().header.hash@ == self.start_hash@,
    {
        let ghost f = self.founded_blocks@;
        let mut blocks = self.founded_blocks;
        let ghost all = blocks@;
        let mut out: Vec<Block> = Vec::new();
        while blocks.len() > 0
            invariant
                out@ + blocks@.reverse() == all.reverse(),
            decreases blocks@.len(),
        {
            let ghost before = blocks@;
            let b = blocks.pop().unwrap();
            proof {
                assert(before.reverse() =~= seq![b] + blocks@.reverse());
                assert(out@.push(b) + blocks@.reverse() =~= out@ + before.reverse());
            }
            out.push(b);
        }
        assert(blocks@.reverse() =~= Seq::<Block>::empty());
        assert(out@ =~= all.reverse());
        proof {
            let n = f.len();
            assert forall|i: int| 0 <= i < out@.len() - 1 implies (#[trigger] out@[i + 1]).header.prev_hash@ == out@[i].header.hash@ by {
                assert(out@[i] == f[n - 1 - i]);
                assert(out@[i + 1] == f[n - 2 - i]);
                assert(f[n - 1 - i].header.hash@ == f[n - 1 - i - 1].header.prev_hash@);
            }
            if n > 0 {
                assert(out@[n - 1] == f[0]);
            }
        }
        out
    }
}

/// `c` after appending the blocks of `bs` in order, up to the first that `append_block` refuses
/// at `difficulty`.
pub open spec fn append_all(c: Seq<BlockView>, bs: Seq<BlockView>, difficulty: u32) -> Seq<BlockView>
    decreases bs.len(),
{
    if bs.len() == 0 {
        c
    } else if append_outcome(c, bs[0], difficulty) is Ok {
        append_all(c.push(bs[0]), bs.drop_first(), difficulty)
    } else {
        c
    }
}

/// The views of a sequence of blocks.
pub open spec fn blocks_view(bs: Seq<Block>) -> Seq<BlockView> {
    bs.map_values(|b: Block| b.view())
}

/// When each block of `bs` in turn appends to `c` followed by the blocks before it, appending
/// them all gives `c` followed by `bs`.
pub proof fn lemma_append_all_accepts(c: Seq<BlockView>, bs: Seq<BlockView>, difficulty: u32)
    requires
        forall|i: int| 0 <= i < bs.len() ==> append_outcome(c + bs.subrange(0, i), #[trigger] bs[i], difficulty) is Ok,
    ensures
        append_all(c, bs, difficulty) == c + bs,
    decreases bs.len(),
{
    if bs.len() == 0 {
        assert(c + bs =~= c);
    } else {
        assert(c + bs.subrange(0, 0) =~= c);
        assert(append_outcome(c, bs[0], difficulty) is Ok);
        let rest = bs.drop_first();
        assert forall|i: int| 0 <= i < rest.len() implies append_outcome(c.push(bs[0]) + rest.subrange(0, i), #[trigger] rest[i], difficulty) is Ok by {
            assert(c.push(bs[0]) + rest.subrange(0, i) =~= c + bs.subrange(0, i + 1));
            assert(rest[i] == bs[i + 1]);
        }
        lemma_append_all_accepts(c.push(bs[0]), rest, difficulty);
        assert(c.push(bs[0]) + rest =~= c + bs);
    }
}

/// Reconciling with a fork: when the fetched blocks `bs` start with `k` blocks the chain holds,
/// the next one names the chain's block `p` (the first with that hash) as predecessor, and
/// every fetched block from there appends in turn, the chain becomes its first `p + 1` blocks
/// followed by the fetched ones.
pub proof fn lemma_reconcile_adopts_fork(c: Seq<BlockView>, bs: Seq<BlockView>, k: int, p: int, difficulty: u32)
    requires
        known_prefix(c, bs, k),
        k < bs.len(),
        0 <= p < c.len(),
        c[p].header.hash@ == bs[k].header.prev_hash@,
        forall|j: int| 0 <= j < p ==> (#[trigger] c[j]).header.hash@ != bs[k].header.prev_hash@,
        forall|i: int| k <= i < bs.len() ==> append_outcome(c.subrange(0, p + 1) + bs.subrange(k, i), #[trigger] bs[i], difficulty) is Ok,
    ensures
        reconciled(c, bs, k, difficulty) == c.subrange(0, p + 1) + bs.subrange(k, bs.len() as int),
{
    lemma_first_position(c, bs[k].header.prev_hash@, p);
    let tail = bs.subrange(k, bs.len() as int);
    assert forall|i: int| 0 <= i < tail.len() implies append_outcome(c.subrange(0, p + 1) + tail.subrange(0, i), #[trigger] tail[i], difficulty) is Ok by {
        assert(tail.subrange(0, i) =~= bs.subrange(k, k + i));
        assert(tail[i] == bs[k + i]);
    }
    lemma_append_all_accepts(c.subrange(0, p + 1), tail, difficulty);
}

/// How many leading blocks of `bs` the chain `c` already holds.
pub open spec fn known_prefix(c: Seq<BlockView>, bs: Seq<BlockView>, k: int) -> bool {
    &&& 0 <= k <= bs.len()
    &&& forall|i: int| 0 <= i < k ==> holds_hash(c, (#[trigger] bs[i]).header.hash@)
    &&& k < bs.len() ==> !holds_hash(c, bs[k].header.hash@)
}

/// The chain after reconciling with `bs`, the fetched blocks oldest first: the blocks it
/// already holds are skipped; the chain is cut after the block that the first new one names
/// as predecessor, and the new blocks are appended in order. Without such a block the chain
/// stays as it is.
pub open spec fn reconciled(c: Seq<BlockView>, bs: Seq<BlockView>, k: int, difficulty: u32) -> Seq<BlockView> {
    if k >= bs.len() {
        c
    } else if exists|p: int| 0 <= p < c.len() && (#[trigger] c[p]).header.hash@ == bs[k].header.prev_hash@ {
        let p = choose|p: int| 0 <= p < c.len() && (#[trigger] c[p]).header.hash@ == bs[k].header.prev_hash@
            && forall|j: int| 0 <= j < p ==> (#[trigger] c[j]).header.hash@ != bs[k].header.prev_hash@;
        append_all(c.subrange(0, p + 1), bs.subrange(k, bs.len() as int), difficulty)
    } else {
        c
    }
}

proof fn lemma_first_position(c: Seq<BlockView>, h: Seq<u8>, p: int)
    requires
        0 <= p < c.len(),
        c[p].header.hash@ == h,
        forall|j: int| 0 <= j < p ==> (#[trigger] c[j]).header.hash@ != h,
    ensures
        p == choose|q: int| 0 <= q < c.len() && (#[trigger] c[q]).header.hash@ == h
            && forall|j: int| 0 <= j < q ==> (#[trigger] c[j]).header.hash@ != h,
{
    let q = choose|q: int| 0 <= q < c.len() && (#[trigger] c[q]).header.hash@ == h
        && forall|j: int| 0 <= j < q ==> (#[trigger] c[j]).header.hash@ != h;
    if q < p {
        assert(c[q].header.hash@ != h);
    } else if p < q {
        assert(c[p].header.hash@ != h);
    }
}

/// Replaces the chain's suffix with `blocks`, oldest first, from the common ancestor on.
pub fn fix_block_chain(chain: &mut BlockChain, blocks: Vec<Block>)
    ensures
        exists|k: int| #[trigger] known_prefix(old(chain).view(), blocks_view(blocks@), k)
            && final(chain).view() == reconciled(old(chain).view(), blocks_view(blocks@), k, old(chain).dificulty),
        final(chain).dificulty == old(chain).dificulty,
{
    let ghost bv = blocks_view(blocks@);
    let mut k: usize = 0;
    while k < blocks.len() && chain.contains_hash(&blocks[k].header.hash)
        invariant
            k <= blocks@.len(),
            bv == blocks_view(blocks@),
            *chain == *old(chain),
            forall|i: int| 0 <= i < k ==> holds_hash(chain.view(), (#[trigger] bv[i]).header.hash@),
        decreases blocks@.len() - k,
    {
        k = k + 1;
    }
    assert(known_prefix(old(chain).view(), bv, k as int));
    if k >= blocks.len() {
        return;
    }
    let Some(p) = chain.position_of_hash(&blocks[k].header.prev_hash) else {
        return;
    };
    proof {
        lemma_first_position(old(chain).view(), bv[k as int].header.prev_hash@, p as int);
    }
    let n = chain.blocks.len();
    assert(p < n);
    let ghost target = reconciled(old(chain).view(), bv, k as int, old(chain).dificulty);
    assert(old(chain).view()[p as int].header.hash@ == bv[k as int].header.prev_hash@);
    chain.keep_first(p + 1);
    let ghost rest = bv.subrange(k as int, bv.len() as int);
    let ghost start = chain.view();
    assert(target == append_all(start, rest, old(chain).dificulty));
    let mut i: usize = k;
    while i < blocks.len()
        invariant
            k <= i <= blocks@.len(),
            bv == blocks_view(blocks@),
            rest == bv.subrange(k as int, bv.len() as int),
            chain.dificulty == old(chain).dificulty,
            append_all(start, rest, old(chain).dificulty) == append_all(chain.view(), bv.subrange(i as int, bv.len() as int), old(chain).dificulty),
            target == append_all(start, rest, old(chain).dificulty),
            target == reconciled(old(chain).view(), bv, k as int, old(chain).dificulty),
            known_prefix(old(chain).view(), bv, k as int),
        decreases blocks@.len() - i,
    {
        let ghost before = chain.view();
        let ghost tail = bv.subrange(i as int, bv.len() as int);
        assert(tail[0] == blocks@[i as int].view());
        assert(tail.drop_first() =~= bv.subrange(i + 1, bv.len() as int));
        match chain.append_block(&blocks[i]) {
            Ok(()) => {},
            Err(_) => {
                assert(append_all(before, tail, old(chain).dificulty) == before);
                assert(chain.view() == target);
                return;
            },
        }
        i = i + 1;
    }
    assert(bv.subrange(blocks@.len() as int, bv.len() as int) =~= Seq::<BlockView>::empty());
    assert(chain.view() == target);
}

/// What a node does with a value that a peer stored on it.
#[derive(Debug)]
pub enum StoreEventAction {
    /// A block: try to append it.
    AppendBlock(Block),
    /// A tip announcement: fetch the full block under this key, then append it.
    FetchBlock(NodeId),
    /// Anything else is not the chain's business.
    Ignore,
}

pub fn store_event_action(value: &KademliaData) -> (r: StoreEventAction)
    ensures
        value matches KademliaData::Block(b) ==> (r matches StoreEventAction::AppendBlock(c) && c.view() == b.view()),
        value matches KademliaData::Header(h) ==> (r matches StoreEventAction::FetchBlock(k) && k.0@ == sha256_of(h.hash@)),
        value is Ticket ==> r is Ignore,
{
    match value {
        KademliaData::Block(b) => StoreEventAction::AppendBlock(b.clone()),
        KademliaData::Header(h) => StoreEventAction::FetchBlock(block_key(&h.hash)),
        KademliaData::Ticket(_) => StoreEventAction::Ignore,
    }
}

/// What follows an attempt to append a received block.
#[derive(Debug)]
pub enum AppendReaction {
    /// Appended: store it again under its key so that peers can fetch it.
    Repropagate(NodeId),
    /// The block does not link to the local tip: reconcile towards this header.
    FixChain(BlockHeader),
    /// Any other failure: drop the block.
    Drop,
}

pub fn append_reaction(result: &Result<(), BlockChainError>, block: &Block) -> (r: AppendReaction)
    ensures
        result is Ok ==> (r matches AppendReaction::Repropagate(k) && k.0@ == sha256_of(block.header.hash@)),
        *result == Err::<(), BlockChainError>(BlockChainError::ChainBroken) ==> r == AppendReaction::FixChain(block.header),
        (result is Err && *result != Err::<(), BlockChainError>(BlockChainError::ChainBroken)) ==> r is Drop,
{
    match result {
        Ok(()) => AppendReaction::Repropagate(block_key(&block.header.hash)),
        Err(BlockChainError::ChainBroken) => AppendReaction::FixChain(block.header),
        Err(_) => AppendReaction::Drop,
    }
}

/// What follows mining a block, once the network's tip is known.
#[derive(Debug)]
pub enum MinedReaction {
    /// The network's tip is another block: reconcile towards it.
    FixChain(BlockHeader),
    /// The new block is the tip: publish its header under this node's chain-head key.
    PublishHead(BlockHeader),
}

pub fn mined_reaction(block: &Block, tip: &BlockHeader) -> (r: MinedReaction)
    ensures
        tip.hash@ != block.header.hash@ ==> r == MinedReaction::FixChain(*tip),
        tip.hash@ == block.header.hash@ ==> r == MinedReaction::PublishHead(block.header),
{
    if !bytes32_eq(&tip.hash, &block.header.hash) {
        MinedReaction::FixChain(*tip)
    } else {
        MinedReaction::PublishHead(block.header)
    }
}

/// The peers one round of the health check pings: the first `HEALTH_PROBE_COUNT` of a lookup
/// of this node's own identifier.
pub fn health_probe_targets(nodes: Vec<Node>) -> (r: Vec<Node>)
    ensures
        nodes@.len() <= HEALTH_PROBE_COUNT ==> r@ == nodes@,
        nodes@.len() > HEALTH_PROBE_COUNT ==> r@ == nodes@.subrange(0, HEALTH_PROBE_COUNT as int),
{
    let mut out = nodes;
    out.truncate(HEALTH_PROBE_COUNT);
    out
}

} // verus!
