//! Sealing transactions into a block by proof of work.

use crate::block::{tx_merkle_root, txs_view, Block, BlockView};
use crate::block_header::{block_hash, recompute_hash};
use crate::merkle::MerkleTree;
use crate::secret_key::{ed25519_signature, SecretPair};
use crate::signature::Signature;
use crate::ticket::{meets_difficulty, NodeTicket};
use crate::transaction::Transaction;
use vstd::prelude::*;

verus! {

/// Why mining stopped without a block.
#[derive(Debug, PartialEq, Eq, Structural)]
pub enum MineError {
    /// No signing key was configured.
    MissingKey,
    /// No 32-bit nonce meets the difficulty.
    NonceSpaceExhausted,
}

#[derive(Debug)]
pub struct BlockBuilder {
    pub index: u64,
    pub difficulty: u32,
    pub prev_hash: [u8; 32],
    pub transactions: Vec<Transaction>,
    pub pair: Option<SecretPair>,
}

/// Relies on std::time::SystemTime::now and duration_since(UNIX_EPOCH): the wall-clock time in
/// nanoseconds since the epoch (0 for a clock set before it).
#[verifier::external_body]
pub(crate) fn now_nanos() -> (r: u128) {
    match std::time::SystemTime::now().duration_since(std::time::UNIX_EPOCH) {
        Ok(d) => d.as_nanos(),
        Err(_) => 0,
    }
}

/// `b` is the block that mining the builder's fields at `timestamp` with `pair` yields: the
/// first nonce from 0 whose hash meets the difficulty, and the pair's signature over that hash.
pub open spec fn mined_block(
    b: BlockView,
    index: u64,
    difficulty: u32,
    prev_hash: [u8; 32],
    txs: Seq<crate::transaction::TransactionView>,
    pair: SecretPair,
    timestamp: u128,
) -> bool {
    &&& b.header.index == index
    &&& b.header.difficulty == difficulty
    &&& b.header.prev_hash == prev_hash
    &&& b.header.timestamp == timestamp
    &&& b.header.merkle_root@ == tx_merkle_root(txs)
    &&& b.transactions == txs
    &&& b.header.hash@ == recompute_hash(b.header)
    &&& meets_difficulty(b.header.hash@, difficulty as nat)
    &&& forall|m: u32| m < b.header.nonce ==> !meets_difficulty(
        block_hash(prev_hash@, b.header.merkle_root@, timestamp, m),
        difficulty as nat,
    )
    &&& b.header.signature matches Some(s) && s.pub_key == pair.public_key
        && s.signature@ == ed25519_signature(pair.private_key@, b.header.hash@)
}

impl BlockBuilder {
    pub fn new(index: u64, dificult: u32, prev_hash: [u8; 32]) -> (r: BlockBuilder)
        ensures
            r.index == index,
            r.difficulty == dificult,
            r.prev_hash == prev_hash,
            r.transactions@.len() == 0,
            r.pair.is_none(),
    {
        BlockBuilder { index, difficulty: dificult, prev_hash, transactions: Vec::new(), pair: None }
    }

    /// Appends `transactions` to the block's transactions.
    pub fn add_transactions(&mut self, transactions: Vec<Transaction>)
        ensures
            final(self).transactions@ == old(self).transactions@ + transactions@,
            final(self).index == old(self).index,
            final(self).difficulty == old(self).difficulty,
            final(self).prev_hash == old(self).prev_hash,
            final(self).pair == old(self).pair,
    {
        let mut more = transactions;
        self.transactions.append(&mut more);
    }

    /// Sets the key that signs the mined block.
    pub fn sign_with(&mut self, pair: SecretPair)
        ensures
            final(self).pair == Some(pair),
            final(self).transactions == old(self).transactions,
            final(self).index == old(self).index,
            final(self).difficulty == old(self).difficulty,
            final(self).prev_hash == old(self).prev_hash,
    {
        self.pair = Some(pair);
    }

    /// Mines the block at the current wall-clock time.
    pub fn mine(&self) -> (r: Result<Block, MineError>)
        ensures
            self.pair.is_none() <==> r == Err::<Block, MineError>(MineError::MissingKey),
            self.pair.is_some() ==> (r is Ok || r == Err::<Block, MineError>(MineError::NonceSpaceExhausted)),
            self.pair.is_some() && self.difficulty == 0 ==> r is Ok,
            r matches Ok(b) ==> mined_block(b.view(), self.index, self.difficulty, self.prev_hash,
                txs_view(self.transactions@), self.pair.unwrap(), b.header.timestamp),
    {
        let timestamp = now_nanos();
        self.mine_at(timestamp)
    }

    /// Mines the block stamped `timestamp`: the Merkle root of the transactions, then nonces
    /// from 0 until the hash meets the difficulty, then the configured key signs the hash.
    /// Fails without a key, and when no 32-bit nonce meets the difficulty.
    pub fn mine_at(&self, timestamp: u128) -> (r: Result<Block, MineError>)
        ensures
            self.pair.is_none() <==> r == Err::<Block, MineError>(MineError::MissingKey),
            self.pair.is_some() && self.difficulty == 0 ==> r is Ok,
            self.pair.is_some() ==> match r {
                Ok(b) => mined_block(b.view(), self.index, self.difficulty, self.prev_hash,
                    txs_view(self.transactions@), self.pair.unwrap(), timestamp),
                Err(e) => e == MineError::NonceSpaceExhausted && forall|m: u32| !meets_difficulty(
                    block_hash(self.prev_hash@, tx_merkle_root(txs_view(self.transactions@)), timestamp, m),
                    self.difficulty as nat,
                ),
            },
    {
        let Some(pair) = self.pair else {
            return Err(MineError::MissingKey);
        };
        let merkle_tree = MerkleTree::from_transactions(&self.transactions);
        let merkle_root = merkle_tree.root;
        assert(merkle_root@ == tx_merkle_root(txs_view(self.transactions@)));
        let mut nonce: u32 = 0;
        loop
            invariant
                self.pair == Some(pair),
                merkle_root@ == tx_merkle_root(txs_view(self.transactions@)),
                forall|m: u32| m < nonce ==> !meets_difficulty(
                    block_hash(self.prev_hash@, merkle_root@, timestamp, m),
                    self.difficulty as nat,
                ),
            decreases u32::MAX - nonce,
        {
            let hash = Block::hash_of(&self.prev_hash, &merkle_root, timestamp, nonce);
            if self.validate_hash(&hash, self.difficulty) {
                let transactions = self.transactions.clone();
                assert(txs_view(transactions@) =~= txs_view(self.transactions@));
                let mut block = Block::new(
                    self.index,
                    self.difficulty,
                    merkle_root,
                    self.prev_hash,
                    hash,
                    timestamp,
                    nonce,
                    transactions,
                );
                block.header.sign(pair);
                return Ok(block);
            }
            if nonce == u32::MAX {
                return Err(MineError::NonceSpaceExhausted);
            }
            nonce = nonce + 1;
        }
    }

    /// Whether `hash` has at least `difficulty` leading zero nibbles.
    pub fn validate_hash(&self, hash: &[u8; 32], difficulty: u32) -> (r: bool)
        ensures
            r == meets_difficulty(hash@, difficulty as nat),
    {
        NodeTicket::validate_pow(hash, difficulty)
    }
}

} // verus!
