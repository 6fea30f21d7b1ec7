use p2p::block::{Block, MAX_TRANSACTION};
use p2p::block_builder::{BlockBuilder, MineError};
use p2p::chain::{BlockChain, BlockChainError};
use p2p::merkle::MerkleTree;
use p2p::network_node::{fix_block_chain, mined_reaction, select_tip, MinedReaction};
use p2p::secret_key::SecretPair;
use p2p::transaction::Transaction;
use p2p::transaction_pool::TransactionPool;
use sha2::Digest;

fn keys() -> SecretPair {
    SecretPair::generate_keys().unwrap()
}

fn tx(pair: SecretPair, n: u8) -> Transaction {
    Transaction::new_at(pair, vec![n; 3], 1_700_000_000, n as u32)
}

fn chain_low() -> BlockChain {
    let mut c = BlockChain::new();
    c.dificulty = 1;
    c
}

#[test]
fn genesis_block_is_fixed() {
    let g = Block::new_genesis();
    let text = format!("{}{}00", "0".repeat(64), "0".repeat(64));
    let expected: [u8; 32] = sha2::Sha256::digest(sha2::Sha256::digest(text.as_bytes())).into();
    assert_eq!(g.header.hash, expected);
    assert_eq!(g.header.index, 0);
    assert!(g.transactions.is_empty());
    assert_eq!(Block::new_genesis().header.hash, g.header.hash);
    assert!(BlockChain::new().validate());
}

#[test]
fn merkle_root_pairs_hex_and_duplicates_last() {
    let h = |s: &str| -> [u8; 32] { sha2::Sha256::digest(s.as_bytes()).into() };
    let a = [1u8; 32];
    let b = [2u8; 32];
    let c = [3u8; 32];
    let ab = h(&format!("{}{}", hex::encode(a), hex::encode(b)));
    let cc = h(&format!("{}{}", hex::encode(c), hex::encode(c)));
    let root = h(&format!("{}{}", hex::encode(ab), hex::encode(cc)));
    assert_eq!(MerkleTree::build_tree(vec![a, b, c]).root, root);
    let tree = MerkleTree::build_tree(vec![a, b, c]);
    assert_eq!(tree.levels, vec![vec![a, b, c], vec![ab, cc], vec![root]]);
    assert_eq!(MerkleTree::build_tree(vec![a]).root, a);
    assert_eq!(MerkleTree::build_tree(vec![]).root, [0u8; 32]);
}

#[test]
fn mined_block_recomputes_and_meets_difficulty() {
    let pair = keys();
    let mut builder = BlockBuilder::new(1, 2, [0u8; 32]);
    builder.add_transactions(vec![tx(pair, 1), tx(pair, 2)]);
    assert_eq!(builder.mine_at(42).unwrap_err(), MineError::MissingKey);
    builder.sign_with(pair);
    let block = builder.mine_at(42).unwrap();
    assert_eq!(block.compute_hash(), block.header.hash);
    assert!(builder.validate_hash(&block.header.hash, 2));
    assert!(block.validate(block.header.merkle_root));
    assert!(block.header.validate_signature(pair.public_key));
    assert!(!block.header.validate_signature(keys().public_key));
    let expected = Block::hash_of(&[0u8; 32], &block.header.merkle_root, 42, block.header.nonce);
    assert_eq!(expected, block.header.hash);
}

#[test]
fn appending_valid_block_keeps_chain_valid() {
    let pair = keys();
    let mut chain = chain_low();
    let b1 = chain.add_block_at(vec![tx(pair, 1)], pair, 10).unwrap();
    assert!(chain.validate());
    let mut other = chain_low();
    assert_eq!(other.append_block(&b1), Ok(()));
    assert!(other.validate());
    assert_eq!(other.blocks[1].header.hash, b1.header.hash);
    assert_eq!(other.get_blockchain_head().unwrap().header.hash, b1.header.hash);
    assert_eq!(other.next_index(), 2);
}

#[test]
fn append_errors() {
    let pair = keys();
    let mut chain = chain_low();
    let b1 = chain.add_block_at(vec![tx(pair, 1)], pair, 10).unwrap();
    assert_eq!(chain.append_block(&b1), Err(BlockChainError::BlockAlreadyPersisted));
    let mut tampered = b1.clone();
    tampered.header.nonce = tampered.header.nonce.wrapping_add(1);
    let mut fresh = chain_low();
    assert_eq!(fresh.append_block(&tampered), Err(BlockChainError::InvalidBlock));
    let mut builder = BlockBuilder::new(1, 1, [9u8; 32]);
    builder.sign_with(pair);
    let orphan = builder.mine_at(5).unwrap();
    assert_eq!(fresh.append_block(&orphan), Err(BlockChainError::ChainBroken));
    let mut strict = chain_low();
    strict.dificulty = 16;
    assert_eq!(strict.append_block(&b1), Err(BlockChainError::InvalidBlock));
    let mut empty = chain_low();
    empty.remove_last();
    assert_eq!(empty.append_block(&b1), Err(BlockChainError::BlockNotFound));
    assert!(empty.get_blockchain_head().is_none());
}

#[test]
fn pool_draw_is_capped() {
    let pair = keys();
    let mut pool = TransactionPool::new();
    for i in 0..250u32 {
        pool.add_transaction(Transaction::new_at(pair, vec![], 0, i));
    }
    let batch = pool.fetch_batch_transactions(1000);
    assert_eq!(batch.len(), MAX_TRANSACTION);
    assert_eq!(batch[0].nonce, 0);
    assert_eq!(pool.len(), 50);
    assert_eq!(pool.fetch_batch_transactions(15).len(), 15);
    assert_eq!(pool.fetch_batch_transactions(1000).len(), 35);
    assert!(pool.is_empty());
    assert!(pool.fetch_batch_transactions(5).is_empty());
}

#[test]
fn miner_round_mines_pending_transactions() {
    let pair = keys();
    let mut chain = chain_low();
    assert!(chain.mine_pending_at(15, pair, 1).unwrap().is_none());
    chain.transaction_poll.add_transaction(tx(pair, 1));
    let b = chain.mine_pending_at(15, pair, 2).unwrap().unwrap();
    assert_eq!(b.transactions.len(), 1);
    assert_eq!(chain.blocks.len(), 2);
    assert!(chain.transaction_poll.is_empty());
    // a peer that receives the block holds it at height 1
    let mut peer = chain_low();
    peer.append_block(&b).unwrap();
    assert_eq!(peer.blocks[1].header.hash, b.header.hash);
}

#[test]
fn fork_is_replaced_by_fetched_suffix() {
    let pair = keys();
    let mut j = chain_low();
    let mut k = chain_low();
    for i in 0..3u8 {
        j.add_block_at(vec![tx(pair, i)], pair, 100 + i as u128).unwrap();
        k.add_block_at(vec![tx(pair, i + 10)], pair, 200 + i as u128).unwrap();
    }
    // what the walk back from K's tip brings: K's blocks down to the genesis, oldest first
    let fetched: Vec<Block> = k.blocks.iter().cloned().collect();
    fix_block_chain(&mut j, fetched);
    assert_eq!(j.blocks.len(), 4);
    for h in 0..4 {
        assert_eq!(j.blocks[h].header.hash, k.blocks[h].header.hash);
    }
    assert!(j.validate());
}

#[test]
fn reconciliation_without_common_ancestor_changes_nothing() {
    let pair = keys();
    let mut j = chain_low();
    j.add_block_at(vec![tx(pair, 1)], pair, 1).unwrap();
    let mut builder = BlockBuilder::new(5, 1, [7u8; 32]);
    builder.sign_with(pair);
    let stray = builder.mine_at(3).unwrap();
    fix_block_chain(&mut j, vec![stray]);
    assert_eq!(j.blocks.len(), 2);
    let same: Vec<Block> = j.blocks.iter().cloned().collect();
    fix_block_chain(&mut j, same);
    assert_eq!(j.blocks.len(), 2);
}

#[test]
fn heaviest_tip_wins() {
    let g = Block::new_genesis().header;
    let mut a = g;
    a.hash = [1u8; 32];
    a.difficulty = 5;
    a.index = 3;
    a.timestamp = 10;
    let mut b = a;
    b.timestamp = 5;
    let mut c = a;
    c.index = 2;
    assert_eq!(select_tip(&vec![a, b, c]).unwrap().timestamp, 5);
    let mut d = a;
    d.difficulty = 6;
    d.index = 0;
    assert_eq!(select_tip(&vec![a, d, b]).unwrap().difficulty, 6);
    assert!(select_tip(&vec![]).is_none());
    let blk = Block::new_genesis();
    assert!(matches!(mined_reaction(&blk, &blk.header), MinedReaction::PublishHead(_)));
    assert!(matches!(mined_reaction(&blk, &a), MinedReaction::FixChain(_)));
}

#[test]
fn chain_bytes_round_trip() {
    let pair = keys();
    let mut chain = chain_low();
    chain.add_block_at(vec![tx(pair, 1), tx(pair, 2)], pair, 10).unwrap();
    chain.add_block_at(vec![], pair, 11).unwrap();
    let bytes = chain.encode();
    let back = BlockChain::decode(&bytes).unwrap();
    assert_eq!(back.blocks.len(), 3);
    for i in 0..3 {
        assert_eq!(back.blocks[i].header.hash, chain.blocks[i].header.hash);
        assert_eq!(back.blocks[i].transactions.len(), chain.blocks[i].transactions.len());
    }
    assert!(back.validate());
    assert_eq!(back.dificulty, 5);
    assert!(BlockChain::decode(&bytes[..bytes.len() - 1]).is_none());
    assert!(BlockChain::decode(&[]).is_none());
    assert_eq!(BlockChain::decode(&[0u8; 8]).unwrap().blocks.len(), 0);
}

#[test]
fn zero_difficulty_always_mines() {
    let pair = keys();
    let mut chain = chain_low();
    chain.dificulty = 0;
    chain.add_transaction(tx(pair, 3));
    let b = chain.mine_pending(15, pair).unwrap().unwrap();
    assert_eq!(b.header.nonce, 0);
    assert!(b.header.validate_signature(pair.public_key));
    assert!(chain.add_block(vec![], pair).is_ok());
    let mut builder = BlockBuilder::new(1, 0, [0u8; 32]);
    builder.sign_with(pair);
    assert!(builder.mine().is_ok());
}
