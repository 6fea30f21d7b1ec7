//! The chain: a genesis block followed by hash-linked, proof-of-work blocks.

use crate::block::{block_valid, is_genesis_header, txs_view, Block, BlockView};
use crate::block_builder::{mined_block, now_nanos, BlockBuilder, MineError};
use crate::secret_key::SecretPair;
use crate::transaction::{Transaction, TransactionView};
use crate::transaction_pool::{batch_len, TransactionPool};
use crate::utils::bytes32_eq;
use crate::ticket::{meets_difficulty, NodeTicket};
use crate::block_header::block_hash;
use crate::block::tx_merkle_root;
use vstd::prelude::*;

verus! {

#[derive(Debug, PartialEq, Eq, Structural)]
pub enum BlockChainError {
    BlockAlreadyPersisted,
    InvalidBlock,
    BlockNotFound,
    ChainBroken,
}

/// What the chain tells the rest of the node.
#[derive(Debug)]
pub enum BlockChainEvent {
    AddBlock(Block),
}

/// A party that reacts to chain events.
pub trait BlockChainEventHandler {
    fn on_event(&self, event: BlockChainEvent);
}

/// Difficulty of the blocks this node mines, in leading zero nibbles.
pub const DEFAULT_DIFFICULTY: u32 = 5;

/// Every block is valid against its own Merkle root, and each block after the first names its
/// predecessor's hash as `prev_hash`.
pub open spec fn chain_valid(bs: Seq<BlockView>) -> bool {
    &&& forall|i: int| 0 <= i < bs.len() ==> block_valid(#[trigger] bs[i], bs[i].header.merkle_root@)
    &&& forall|i: int| 1 <= i < bs.len() ==> (#[trigger] bs[i]).header.prev_hash@ == bs[i - 1].header.hash@
}

/// Some block of `bs` has hash `h`.
pub open spec fn holds_hash(bs: Seq<BlockView>, h: Seq<u8>) -> bool {
    exists|i: int| 0 <= i < bs.len() && (#[trigger] bs[i]).header.hash@ == h
}

/// Position `i` holds the head of `bs`: the greatest index, the last such block on ties.
pub open spec fn is_head(bs: Seq<BlockView>, i: int) -> bool {
    &&& 0 <= i < bs.len()
    &&& forall|j: int| 0 <= j < bs.len() ==> (#[trigger] bs[j]).header.index <= bs[i].header.index
    &&& forall|j: int| i < j < bs.len() ==> (#[trigger] bs[j]).header.index < bs[i].header.index
}

/// The outcome of `append_block` on chain `bs`, mining at `difficulty`, and block `b`.
pub open spec fn append_outcome(bs: Seq<BlockView>, b: BlockView, difficulty: u32) -> Result<(), BlockChainError> {
    if holds_hash(bs, b.header.hash@) {
        Err(BlockChainError::BlockAlreadyPersisted)
    } else if bs.len() == 0 {
        Err(BlockChainError::BlockNotFound)
    } else if !block_valid(b, b.header.merkle_root@) || !meets_difficulty(b.header.hash@, difficulty as nat) {
        Err(BlockChainError::InvalidBlock)
    } else if bs.last().header.hash@ != b.header.prev_hash@ {
        Err(BlockChainError::ChainBroken)
    } else {
        Ok(())
    }
}

/// Appending a valid block that links to the last block of a valid chain gives a valid chain.
pub proof fn lemma_append_keeps_chain_valid(bs: Seq<BlockView>, b: BlockView, difficulty: u32)
    requires
        chain_valid(bs),
        bs.len() > 0,
        append_outcome(bs, b, difficulty) is Ok,
    ensures
        chain_valid(bs.push(b)),
{
    let cs = bs.push(b);
    assert forall|i: int| 0 <= i < cs.len() implies block_valid(#[trigger] cs[i], cs[i].header.merkle_root@) by {
        if i < bs.len() {
            assert(cs[i] == bs[i]);
        }
    }
    assert forall|i: int| 1 <= i < cs.len() implies (#[trigger] cs[i]).header.prev_hash@ == cs[i - 1].header.hash@ by {
        if i < bs.len() {
            assert(cs[i] == bs[i]);
            assert(cs[i - 1] == bs[i - 1]);
        }
    }
}

#[derive(Debug)]
pub struct BlockChain {
    pub dificulty: u32,
    pub blocks: Vec<Block>,
    pub transaction_poll: TransactionPool,
}

impl BlockChain {
    pub open spec fn view(&self) -> Seq<BlockView> {
        self.blocks@.map_values(|b: Block| b.view())
    }

    /// A chain holding only the genesis block, mining at the default difficulty.
    pub fn new() -> (r: BlockChain)
        ensures
            r.view().len() == 1,
            is_genesis_header(r.view()[0].header),
            r.view()[0].transactions.len() == 0,
            r.dificulty == DEFAULT_DIFFICULTY,
            r.transaction_poll.view().len() == 0,
            chain_valid(r.view()),
    {
        let genesis = Block::new_genesis();
        let mut blocks: Vec<Block> = Vec::new();
        blocks.push(genesis);
        let r = BlockChain { dificulty: DEFAULT_DIFFICULTY, blocks, transaction_poll: TransactionPool::new() };
        proof {
            let g = r.view()[0];
            assert(g.transactions =~= Seq::<TransactionView>::empty());
            assert(crate::merkle::leaves_of(g.transactions) =~= Seq::<Seq<u8>>::empty());
            assert(g.header.merkle_root@ =~= seq![0u8; 32]);
        }
        r
    }

    /// Whether every block is valid and each links to its predecessor.
    pub fn validate(&self) -> (r: bool)
        ensures
            r == chain_valid(self.view()),
    {
        let ghost bs = self.view();
        let mut i: usize = 0;
        while i < self.blocks.len()
            invariant
                bs == self.view(),
                i <= bs.len(),
                forall|j: int| 0 <= j < i ==> block_valid(#[trigger] bs[j], bs[j].header.merkle_root@),
                forall|j: int| 1 <= j < i ==> (#[trigger] bs[j]).header.prev_hash@ == bs[j - 1].header.hash@,
            decreases bs.len() - i,
        {
            let block = &self.blocks[i];
            assert(bs[i as int] == block.view());
            let ok = block.validate(block.header.merkle_root);
            if !ok {
                return false;
            }
            if i > 0 {
                assert(bs[i - 1] == self.blocks@[i - 1].view());
                if !bytes32_eq(&block.header.prev_hash, &self.blocks[i - 1].header.hash) {
                    return false;
                }
            }
            i = i + 1;
        }
        true
    }

    /// The position of the first block with hash `hash`.
    pub fn position_of_hash(&self, hash: &[u8; 32]) -> (r: Option<usize>)
        ensures
            r matches Some(p) ==> p < self.view().len() && self.view()[p as int].header.hash@ == hash@
                && forall|j: int| 0 <= j < p ==> (#[trigger] self.view()[j]).header.hash@ != hash@,
            r is None ==> !holds_hash(self.view(), hash@),
    {
        let mut i: usize = 0;
        while i < self.blocks.len()
            invariant
                i <= self.view().len(),
                forall|j: int| 0 <= j < i ==> (#[trigger] self.view()[j]).header.hash@ != hash@,
            decreases self.view().len() - i,
        {
            if bytes32_eq(&self.blocks[i].header.hash, hash) {
                return Some(i);
            }
            i = i + 1;
        }
        None
    }

    /// The first block with hash `hash`.
    pub fn get_block_by_hash(&self, hash: [u8; 32]) -> (r: Option<&Block>)
        ensures
            r matches Some(b) ==> exists|p: int| 0 <= p < self.view().len() && self.blocks@[p] == *b
                && b.header.hash@ == hash@ && forall|j: int| 0 <= j < p ==> (#[trigger] self.view()[j]).header.hash@ != hash@,
            r is None ==> !holds_hash(self.view(), hash@),
    {
        match self.position_of_hash(&hash) {
            Some(p) => Some(&self.blocks[p]),
            None => None,
        }
    }

    /// The block of greatest index (the last of them on ties); `None` for an empty chain.
    pub fn get_blockchain_head(&self) -> (r: Option<&Block>)
        ensures
            self.view().len() == 0 <==> r.is_none(),
            r matches Some(b) ==> exists|p: int| is_head(self.view(), p) && self.blocks@[p] == *b,
    {
        if self.blocks.len() == 0 {
            return None;
        }
        let mut best: usize = 0;
        let mut i: usize = 1;
        while i < self.blocks.len()
            invariant
                1 <= i <= self.view().len(),
                best < i,
                forall|j: int| 0 <= j < i ==> (#[trigger] self.view()[j]).header.index <= self.view()[best as int].header.index,
                forall|j: int| best < j < i ==> (#[trigger] self.view()[j]).header.index < self.view()[best as int].header.index,
            decreases self.view().len() - i,
        {
            if self.blocks[i].header.index >= self.blocks[best].header.index {
                best = i;
            }
            i = i + 1;
        }
        assert(is_head(self.view(), best as int));
        Some(&self.blocks[best])
    }

    /// Whether some block has hash `hash`.
    pub fn contains_hash(&self, hash: &[u8; 32]) -> (r: bool)
        ensures
            r == holds_hash(self.view(), hash@),
    {
        self.position_of_hash(hash).is_some()
    }

    /// Keeps the first `n` blocks and drops the rest.
    pub fn keep_first(&mut self, n: usize)
        requires
            n <= old(self).view().len(),
        ensures
            final(self).view() == old(self).view().subrange(0, n as int),
            final(self).dificulty == old(self).dificulty,
    {
        self.blocks.truncate(n);
        assert(self.view() =~= old(self).view().subrange(0, n as int));
    }

    /// Removes and returns the last block.
    pub fn remove_last(&mut self) -> (r: Option<Block>)
        ensures
            old(self).view().len() == 0 ==> r.is_none() && final(self).view() == old(self).view(),
            old(self).view().len() > 0 ==> (r matches Some(b) && b.view() == old(self).view().last()
                && final(self).view() == old(self).view().drop_last()),
            final(self).dificulty == old(self).dificulty,
    {
        let r = self.blocks.pop();
        assert(self.view() =~= old(self).view().subrange(0, self.view().len() as int));
        r
    }

    /// Appends `block` after the last block. Fails, in this order of checks, when a block with
    /// the same hash is already on the chain, when the chain is empty, when the block is not
    /// valid against its own Merkle root or its hash misses the chain's difficulty, and when it
    /// does not name the last block's hash.
    pub fn append_block(&mut self, block: &Block) -> (r: Result<(), BlockChainError>)
        ensures
            r == append_outcome(old(self).view(), block.view(), old(self).dificulty),
            r is Ok ==> final(self).view() == old(self).view().push(block.view()),
            r is Err ==> final(self).view() == old(self).view(),
            final(self).dificulty == old(self).dificulty,
            final(self).transaction_poll == old(self).transaction_poll,
    {
        if self.contains_hash(&block.header.hash) {
            return Err(BlockChainError::BlockAlreadyPersisted);
        }
        if self.blocks.len() == 0 {
            return Err(BlockChainError::BlockNotFound);
        }
        if !block.validate(block.header.merkle_root) || !NodeTicket::validate_pow(&block.header.hash, self.dificulty) {
            return Err(BlockChainError::InvalidBlock);
        }
        let last = self.blocks.len() - 1;
        if !bytes32_eq(&self.blocks[last].header.hash, &block.header.prev_hash) {
            return Err(BlockChainError::ChainBroken);
        }
        self.blocks.push(block.clone());
        assert(self.view() =~= old(self).view().push(block.view()));
        Ok(())
    }

    /// Queues `transaction` for mining.
    pub fn add_transaction(&mut self, transaction: Transaction)
        ensures
            final(self).transaction_poll.view() == old(self).transaction_poll.view().push(transaction.view()),
            final(self).view() == old(self).view(),
            final(self).dificulty == old(self).dificulty,
    {
        self.transaction_poll.add_transaction(transaction);
    }

    /// Mines `transactions` into a block on top of the last block, signed by `pair` and stamped
    /// with the current time, and appends it.
    pub fn add_block(&mut self, transactions: Vec<Transaction>, pair: SecretPair) -> (r: Result<Block, MineError>)
        requires
            old(self).view().len() > 0,
            old(self).view().len() <= u64::MAX,
        ensures
            r matches Ok(b) ==> {
                &&& mined_block(b.view(), old(self).view().len() as u64, old(self).dificulty,
                    old(self).blocks@.last().header.hash, txs_view(transactions@), pair, b.header.timestamp)
                &&& final(self).view() == old(self).view().push(b.view())
            },
            r is Err ==> final(self).view() == old(self).view(),
            r is Err ==> r == Err::<Block, MineError>(MineError::NonceSpaceExhausted),
            old(self).dificulty == 0 ==> r is Ok,
    {
        let timestamp = now_nanos();
        self.add_block_at(transactions, pair, timestamp)
    }

    /// One round of the miner, stamped with the current time.
    pub fn mine_pending(&mut self, batch_size: usize, pair: SecretPair) -> (r: Result<Option<Block>, MineError>)
        requires
            old(self).view().len() > 0,
            old(self).view().len() <= u64::MAX,
        ensures
            final(self).transaction_poll.view() == old(self).transaction_poll.view().subrange(
                batch_len(batch_size as int, old(self).transaction_poll.view().len() as int),
                old(self).transaction_poll.view().len() as int,
            ),
            batch_len(batch_size as int, old(self).transaction_poll.view().len() as int) == 0
                ==> r == Ok::<Option<Block>, MineError>(None) && final(self).view() == old(self).view(),
            r matches Ok(Some(b)) ==> {
                &&& mined_block(b.view(), old(self).view().len() as u64, old(self).dificulty,
                    old(self).blocks@.last().header.hash,
                    old(self).transaction_poll.view().subrange(0, batch_len(batch_size as int, old(self).transaction_poll.view().len() as int)),
                    pair, b.header.timestamp)
                &&& final(self).view() == old(self).view().push(b.view())
            },
            r is Err ==> final(self).view() == old(self).view(),
            r is Err ==> r == Err::<Option<Block>, MineError>(MineError::NonceSpaceExhausted),
            old(self).dificulty == 0 && batch_len(batch_size as int, old(self).transaction_poll.view().len() as int) > 0
                ==> r matches Ok(Some(_)),
    {
        let timestamp = now_nanos();
        self.mine_pending_at(batch_size, pair, timestamp)
    }

    /// The index the next mined block gets: the number of blocks.
    pub fn next_index(&self) -> (r: u64)
        requires
            self.view().len() <= u64::MAX,
        ensures
            r == self.view().len(),
    {
        self.blocks.len() as u64
    }

    /// Mines `transactions` into a block on top of the last block, signed by `pair` and stamped
    /// `timestamp`, and appends it.
    pub fn add_block_at(&mut self, transactions: Vec<Transaction>, pair: SecretPair, timestamp: u128) -> (r: Result<Block, MineError>)
        requires
            old(self).view().len() > 0,
            old(self).view().len() <= u64::MAX,
        ensures
            r matches Ok(b) ==> {
                &&& mined_block(b.view(), old(self).view().len() as u64, old(self).dificulty,
                    old(self).blocks@.last().header.hash, txs_view(transactions@), pair, timestamp)
                &&& final(self).view() == old(self).view().push(b.view())
            },
            r is Err ==> final(self).view() == old(self).view(),
            r is Err ==> r == Err::<Block, MineError>(MineError::NonceSpaceExhausted) && forall|m: u32| !meets_difficulty(
                block_hash(old(self).blocks@.last().header.hash@, tx_merkle_root(txs_view(transactions@)), timestamp, m),
                old(self).dificulty as nat,
            ),
            old(self).dificulty == 0 ==> r is Ok,
            final(self).dificulty == old(self).dificulty,
            final(self).transaction_poll == old(self).transaction_poll,
    {
        let prev_hash = self.blocks[self.blocks.len() - 1].header.hash;
        let mut builder = BlockBuilder::new(self.next_index(), self.dificulty, prev_hash);
        builder.add_transactions(transactions);
        assert(builder.transactions@ =~= transactions@);
        builder.sign_with(pair);
        let block = match builder.mine_at(timestamp) {
            Ok(b) => b,
            Err(e) => {
                return Err(e);
            },
        };
        self.blocks.push(block.clone());
        assert(self.view() =~= old(self).view().push(block.view()));
        Ok(block)
    }

    /// One round of the miner: takes up to `batch_size` pending transactions (at most
    /// `MAX_TRANSACTION`) and, when there are any, mines them into a block stamped `timestamp`
    /// and appends it. `Ok(None)` when the pool is empty.
    pub fn mine_pending_at(&mut self, batch_size: usize, pair: SecretPair, timestamp: u128) -> (r: Result<Option<Block>, MineError>)
        requires
            old(self).view().len() > 0,
            old(self).view().len() <= u64::MAX,
        ensures
            final(self).transaction_poll.view() == old(self).transaction_poll.view().subrange(
                batch_len(batch_size as int, old(self).transaction_poll.view().len() as int),
                old(self).transaction_poll.view().len() as int,
            ),
            batch_len(batch_size as int, old(self).transaction_poll.view().len() as int) == 0
                ==> r == Ok::<Option<Block>, MineError>(None) && final(self).view() == old(self).view(),
            r matches Ok(Some(b)) ==> {
                &&& mined_block(b.view(), old(self).view().len() as u64, old(self).dificulty,
                    old(self).blocks@.last().header.hash,
                    old(self).transaction_poll.view().subrange(0, batch_len(batch_size as int, old(self).transaction_poll.view().len() as int)),
                    pair, timestamp)
                &&& final(self).view() == old(self).view().push(b.view())
            },
            r is Err ==> final(self).view() == old(self).view(),
            r is Err ==> r == Err::<Option<Block>, MineError>(MineError::NonceSpaceExhausted) && forall|m: u32| !meets_difficulty(
                block_hash(old(self).blocks@.last().header.hash@,
                    tx_merkle_root(old(self).transaction_poll.view().subrange(0, batch_len(batch_size as int, old(self).transaction_poll.view().len() as int))),
                    timestamp, m),
                old(self).dificulty as nat,
            ),
            old(self).dificulty == 0 && batch_len(batch_size as int, old(self).transaction_poll.view().len() as int) > 0
                ==> r matches Ok(Some(_)),
    {
        let batch = self.transaction_poll.fetch_batch_transactions(batch_size);
        if batch.len() == 0 {
            return Ok(None);
        }
        assert(txs_view(batch@) =~= old(self).transaction_poll.view().subrange(0, batch@.len() as int));
        match self.add_block_at(batch, pair, timestamp) {
            Ok(b) => Ok(Some(b)),
            Err(e) => Err(e),
        }
    }
}

} // verus!
