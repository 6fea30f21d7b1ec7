//! Blocks: a header and the transactions it seals.

use crate::block_header::{block_hash, hash_input, recompute_hash, BlockHeader};
use crate::hash_func::double_sha256_of;
use crate::merkle::{leaves_of, merkle_root_of, MerkleTree};
use crate::transaction::{Transaction, TransactionView};
use crate::utils::{bytes32_eq, push_decimal, push_hex};
use vstd::prelude::*;

verus! {

/// Most transactions a block takes from the pool at once.
pub const MAX_TRANSACTION: usize = 200;

/// What a block is, as a value.
pub struct BlockView {
    pub header: BlockHeader,
    pub transactions: Seq<TransactionView>,
}

/// The Merkle root of a sequence of transactions.
pub open spec fn tx_merkle_root(txs: Seq<TransactionView>) -> Seq<u8> {
    merkle_root_of(leaves_of(txs))
}

/// A block is valid against `merkle_root` when its transactions have that Merkle root and its
/// header's fields hash to its `hash`.
pub open spec fn block_valid(b: BlockView, merkle_root: Seq<u8>) -> bool {
    &&& tx_merkle_root(b.transactions) == merkle_root
    &&& recompute_hash(b.header) == b.header.hash@
}

/// The header of the first block, the same on every node.
pub open spec fn is_genesis_header(h: BlockHeader) -> bool {
    &&& h.index == 0
    &&& h.difficulty == 0
    &&& h.timestamp == 0
    &&& h.merkle_root@ == seq![0u8; 32]
    &&& h.nonce == 0
    &&& h.prev_hash@ == seq![0u8; 32]
    &&& h.hash@ == genesis_hash()
    &&& h.signature.is_none()
}

/// The hash of the first block: `H²("0"*64 || "0"*64 || "0" || "0")`.
pub open spec fn genesis_hash() -> Seq<u8> {
    block_hash(seq![0u8; 32], seq![0u8; 32], 0, 0)
}

pub open spec fn txs_view(txs: Seq<Transaction>) -> Seq<TransactionView> {
    txs.map_values(|t: Transaction| t.view())
}

#[derive(Debug)]
pub struct Block {
    pub header: BlockHeader,
    pub transactions: Vec<Transaction>,
}

impl Clone for Block {
    fn clone(&self) -> (r: Self)
        ensures
            r.view() == self.view(),
    {
        let transactions = self.transactions.clone();
        assert(txs_view(transactions@) =~= txs_view(self.transactions@));
        Block { header: self.header, transactions }
    }
}

impl Block {
    pub open spec fn view(&self) -> BlockView {
        BlockView { header: self.header, transactions: txs_view(self.transactions@) }
    }

    /// An unsigned block with the given fields.
    pub fn new(
        index: u64,
        difficulty: u32,
        merkle_root: [u8; 32],
        prev_hash: [u8; 32],
        hash: [u8; 32],
        timestamp: u128,
        nonce: u32,
        transactions: Vec<Transaction>,
    ) -> (r: Block)
        ensures
            r.header == (BlockHeader {
                index,
                difficulty,
                timestamp,
                merkle_root,
                nonce,
                prev_hash,
                hash,
                signature: None,
            }),
            r.transactions == transactions,
    {
        Block {
            header: BlockHeader {
                index,
                difficulty,
                merkle_root,
                prev_hash,
                hash,
                timestamp,
                nonce,
                signature: None,
            },
            transactions,
        }
    }

    /// The first block: index, difficulty, timestamp and nonce 0, all-zero Merkle root and
    /// previous hash, no transactions, and the hash those fields give.
    pub fn new_genesis() -> (r: Block)
        ensures
            is_genesis_header(r.header),
            r.transactions@.len() == 0,
    {
        let mut block = Block {
            header: BlockHeader {
                index: 0,
                difficulty: 0,
                timestamp: 0,
                merkle_root: [0u8; 32],
                nonce: 0,
                prev_hash: [0u8; 32],
                hash: [0u8; 32],
                signature: None,
            },
            transactions: Vec::new(),
        };
        assert(block.header.merkle_root@ =~= seq![0u8; 32]);
        assert(block.header.prev_hash@ =~= seq![0u8; 32]);
        block.header.hash = block.compute_hash();
        block
    }

    /// The hash that this block's header fields give.
    pub fn compute_hash(&self) -> (r: [u8; 32])
        ensures
            r@ == recompute_hash(self.header),
    {
        Self::hash_of(&self.header.prev_hash, &self.header.merkle_root, self.header.timestamp, self.header.nonce)
    }

    /// `H²(hex(prev_hash) || hex(merkle_root) || timestamp || nonce)`.
    pub fn hash_of(prev_hash: &[u8; 32], merkle_root: &[u8; 32], timestamp: u128, nonce: u32) -> (r: [u8; 32])
        ensures
            r@ == block_hash(prev_hash@, merkle_root@, timestamp, nonce),
    {
        let mut input: Vec<u8> = Vec::new();
        push_hex(prev_hash, &mut input);
        push_hex(merkle_root, &mut input);
        push_decimal(timestamp, &mut input);
        push_decimal(nonce as u128, &mut input);
        assert(input@ =~= hash_input(prev_hash@, merkle_root@, timestamp, nonce));
        double_sha256_of(input.as_slice())
    }

    /// Whether the transactions have Merkle root `merkle_root` and the header's fields hash to
    /// its `hash`.
    pub fn validate(&self, merkle_root: [u8; 32]) -> (r: bool)
        ensures
            r == block_valid(self.view(), merkle_root@),
    {
        let merkle_tree = MerkleTree::from_transactions(&self.transactions);
        if !bytes32_eq(&merkle_tree.root, &merkle_root) {
            return false;
        }
        let compute_hash = self.compute_hash();
        bytes32_eq(&compute_hash, &self.header.hash)
    }

    /// The transactions, in order.
    pub fn get_transaction(&self) -> (r: &Vec<Transaction>)
        ensures
            r@ == self.transactions@,
    {
        &self.transactions
    }
}

} // verus!
