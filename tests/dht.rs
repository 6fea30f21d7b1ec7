use p2p::block::Block;
use p2p::block_builder::BlockBuilder;
use p2p::chain::{BlockChain, BlockChainError};
use p2p::data::{KademliaData, Ticket};
use p2p::dht::{DHTEvent, DHTNode, FindValueReply, KademliaError};
use p2p::lookup::{sorted_unique_by_distance, NodeLookup};
use p2p::network_node::{
    append_reaction, block_key, collect_tip_candidates, fetch_last_block_header, health_probe_targets,
    store_event_action, AppendReaction, ChainWalk, StoreEventAction,
};
use p2p::node::Node;
use p2p::node_id::{NodeId, KBUCKET_MAX};
use p2p::routing_table::RoutingTable;
use p2p::secret_key::SecretPair;
use p2p::transaction::Transaction;
use sha2::Digest;

fn node(port: usize) -> DHTNode {
    DHTNode::new("127.0.0.1".to_string(), port).unwrap()
}

fn peer(first: u8) -> Node {
    let mut id = [0u8; 32];
    id[0] = first;
    Node { id: NodeId(id), keys: SecretPair::default([first; 32]), ticket: None, address: "h".to_string(), port: 1 }
}

fn sample_block() -> Block {
    let pair = SecretPair::generate_keys().unwrap();
    let mut b = BlockBuilder::new(1, 1, Block::new_genesis().header.hash);
    b.add_transactions(vec![
        Transaction::new_at(pair, vec![1, 2, 3], 1_700_000_000, 7),
        Transaction::new_at(pair, vec![], -5, 8),
    ]);
    b.sign_with(pair);
    b.mine_at(99).unwrap()
}

#[test]
fn store_then_find_value_returns_the_block() {
    let mut b = node(3000);
    let j = node(4000);
    let key = NodeId::random().unwrap();
    let block = sample_block();
    let (echo, event, _) = b.handle_store(&j.core, key, KademliaData::Block(block.clone()));
    assert_eq!(echo, key);
    assert!(matches!(event, DHTEvent::Store(KademliaData::Block(_))));
    let k = node(5000);
    match b.handle_find_value(&k.core, &key).0 {
        FindValueReply::Value(KademliaData::Block(found)) => assert_eq!(found.header.hash, block.header.hash),
        other => panic!("unexpected {:?}", other),
    }
    match b.handle_find_value(&k.core, &NodeId([9u8; 32])).0 {
        FindValueReply::Nodes(ns) => assert!(ns.len() <= KBUCKET_MAX),
        other => panic!("unexpected {:?}", other),
    }
    assert!(b.find_value_local(&key).is_some());
}

#[test]
fn find_node_answers_at_most_k_nearest() {
    let mut b = node(3000);
    for p in [peer(0x40), peer(0x20), peer(0x10), peer(0x08), peer(0x04)] {
        b.routing_table.insert_node(&p);
    }
    let caller = peer(0x02);
    let (closest, _) = b.handle_find_node(&caller, &NodeId([0u8; 32]), 10);
    assert!(closest.len() <= KBUCKET_MAX);
    let (one, _) = b.handle_find_node(&caller, &NodeId([0u8; 32]), 1);
    assert_eq!(one.len(), 1);
    let (none, _) = b.handle_find_node(&caller, &NodeId([0u8; 32]), 0);
    assert!(none.is_empty());
    let mut c = DHTNode::from_secret([1u8; 32], "h".to_string(), 1);
    let (all, _) = c.handle_find_node(&peer(0x80), &NodeId([0u8; 32]), 5);
    assert_eq!(all.len(), 1);
    for w in closest.windows(2) {
        assert!(!w[1].0.less_than(&w[0].0));
    }
}

#[test]
fn store_outcome_needs_an_echo_or_a_local_copy() {
    let mut a = node(3000);
    let key = NodeId([3u8; 32]);
    let others = vec![peer(1), peer(2)];
    let value = || KademliaData::Ticket(Ticket::new(1, 2));
    assert_eq!(a.finish_store(key, value(), &others, &vec![None, Some(vec![1u8; 32])]), Err(KademliaError::StoreFailedError));
    assert_eq!(a.finish_store(key, value(), &others, &vec![None, Some(key.0.to_vec())]), Ok(()));
    assert!(a.find_value_local(&key).is_none());
    let with_self = vec![peer(1), a.core.clone()];
    assert_eq!(a.finish_store(key, value(), &with_self, &vec![]), Ok(()));
    assert!(a.find_value_local(&key).is_some());
}

#[test]
fn lookup_asks_each_peer_once_nearest_first() {
    let me = peer(0x01);
    let target = NodeId([0u8; 32]);
    let mut table = RoutingTable::new(peer(0x00));
    table.insert_node(&peer(0x80));
    table.insert_node(&peer(0x40));
    let seeds = table.get_closest_nodes(&target, KBUCKET_MAX);
    let mut lookup = NodeLookup::new(target, me.id, seeds);
    let first = lookup.next_peer().unwrap();
    assert_eq!(first.id, peer(0x40).id);
    lookup.on_reply(first.clone(), Some(vec![peer(0x10), me.clone(), peer(0x40), peer(0x08)]));
    let second = lookup.next_peer().unwrap();
    assert_eq!(second.id, peer(0x80).id);
    lookup.on_reply(second, None);
    assert_eq!(lookup.next_peer().unwrap().id, peer(0x08).id);
    assert_eq!(lookup.next_peer().unwrap().id, peer(0x10).id);
    assert!(lookup.next_peer().is_none());
    let found = lookup.finish();
    assert_eq!(found.len(), 1);
    assert_eq!(found[0].id, peer(0x40).id);
}

#[test]
fn value_reply_ends_lookup() {
    let mut lookup = NodeLookup::new(NodeId([0u8; 32]), peer(1).id, vec![]);
    assert!(lookup.on_value_reply(None).is_none());
    assert!(lookup.on_value_reply(Some(FindValueReply::Nodes(vec![peer(0x20)]))).is_none());
    assert_eq!(lookup.check_nodes.len(), 1);
    let v = lookup.on_value_reply(Some(FindValueReply::Value(KademliaData::Ticket(Ticket::new(4, 5)))));
    assert!(matches!(v, Some(KademliaData::Ticket(t)) if t.nonce == 4 && t.difficulty == 5));
}

#[test]
fn sort_by_distance_dedups() {
    let nodes = vec![peer(0x40), peer(0x10), peer(0x40), peer(0x20)];
    let sorted = sorted_unique_by_distance(&NodeId([0u8; 32]), &nodes);
    let firsts: Vec<u8> = sorted.iter().map(|n| n.id.0[0]).collect();
    assert_eq!(firsts, vec![0x10, 0x20, 0x40]);
}

#[test]
fn encoding_round_trips() {
    let block = sample_block();
    let values = vec![
        KademliaData::Block(block.clone()),
        KademliaData::Header(block.header),
        KademliaData::Header(Block::new_genesis().header),
        KademliaData::Ticket(Ticket::new(0xdead_beef, 5)),
    ];
    for v in values {
        let bytes = v.encode();
        let back = KademliaData::decode(&bytes).unwrap();
        assert_eq!(back.encode(), bytes);
    }
    let bytes = KademliaData::Block(block.clone()).encode();
    match KademliaData::decode(&bytes).unwrap() {
        KademliaData::Block(b) => {
            assert_eq!(b.header.hash, block.header.hash);
            assert_eq!(b.header.signature, block.header.signature);
            assert_eq!(b.transactions.len(), 2);
            assert_eq!(b.transactions[0].data, vec![1, 2, 3]);
            assert_eq!(b.transactions[1].timestamp, -5);
        }
        _ => panic!("not a block"),
    }
    assert_eq!(KademliaData::Ticket(Ticket::new(1, 2)).encode(), vec![2, 1, 0, 0, 0, 2, 0, 0, 0]);
}

#[test]
fn decoding_rejects_malformed_bytes() {
    assert!(KademliaData::decode(&[]).is_none());
    assert!(KademliaData::decode(&[7]).is_none());
    assert!(KademliaData::decode(&[2, 1, 0]).is_none());
    let mut bytes = KademliaData::Header(Block::new_genesis().header).encode();
    bytes.push(0);
    assert!(KademliaData::decode(&bytes).is_none());
    bytes.truncate(50);
    assert!(KademliaData::decode(&bytes).is_none());
}

#[test]
fn block_key_is_hash_of_block_hash() {
    let h = [4u8; 32];
    let expected: [u8; 32] = sha2::Sha256::digest(h).into();
    assert_eq!(block_key(&h).0, expected);
}

#[test]
fn store_events_and_append_reactions() {
    let block = sample_block();
    assert!(matches!(store_event_action(&KademliaData::Block(block.clone())), StoreEventAction::AppendBlock(_)));
    match store_event_action(&KademliaData::Header(block.header)) {
        StoreEventAction::FetchBlock(k) => assert_eq!(k, block_key(&block.header.hash)),
        _ => panic!(),
    }
    assert!(matches!(store_event_action(&KademliaData::Ticket(Ticket::new(1, 1))), StoreEventAction::Ignore));
    assert!(matches!(append_reaction(&Ok(()), &block), AppendReaction::Repropagate(_)));
    assert!(matches!(append_reaction(&Err(BlockChainError::ChainBroken), &block), AppendReaction::FixChain(_)));
    assert!(matches!(append_reaction(&Err(BlockChainError::InvalidBlock), &block), AppendReaction::Drop));
}

#[test]
fn chain_walk_stops_at_local_tip() {
    let pair = SecretPair::generate_keys().unwrap();
    let mut k = BlockChain::new();
    k.dificulty = 1;
    for i in 0..3u32 {
        k.add_block_at(vec![Transaction::new_at(pair, vec![], 0, i)], pair, i as u128).unwrap();
    }
    let goal = k.blocks[1].header.hash;
    let mut walk = ChainWalk::new(goal, 1024, k.blocks[3].header.hash);
    let next = walk.step(Some(k.blocks[3].clone())).unwrap();
    assert_eq!(next, block_key(&k.blocks[2].header.hash));
    assert!(walk.step(Some(k.blocks[2].clone())).is_none());
    let blocks = walk.into_blocks();
    assert_eq!(blocks.len(), 2);
    assert_eq!(blocks[0].header.hash, k.blocks[2].header.hash);
    let mut short = ChainWalk::new([0u8; 32], 1, k.blocks[3].header.hash);
    assert!(short.step(Some(k.blocks[3].clone())).is_some());
    assert!(short.step(Some(k.blocks[2].clone())).is_none());
    assert_eq!(short.into_blocks().len(), 1);
    let mut failed = ChainWalk::new(goal, 10, k.blocks[3].header.hash);
    assert!(failed.step(None).is_none());
    let mut wrong = ChainWalk::new(goal, 10, k.blocks[3].header.hash);
    assert!(wrong.step(Some(k.blocks[2].clone())).is_none());
    assert!(wrong.into_blocks().is_empty());
}

#[test]
fn tip_candidates_need_the_peers_signature() {
    let signer = Node::new("h".to_string(), 1).unwrap();
    let impostor = Node::new("h".to_string(), 2).unwrap();
    let mut good = Block::new_genesis().header;
    good.index = 4;
    good.hash = [5u8; 32];
    good.sign(signer.keys);
    let own = Block::new_genesis().header;
    let replies = vec![
        (signer.clone(), Some(KademliaData::Header(good))),
        (impostor.clone(), Some(KademliaData::Header(good))),
        (impostor, None),
    ];
    let candidates = collect_tip_candidates(own, &replies);
    assert_eq!(candidates.len(), 2);
    assert_eq!(fetch_last_block_header(own, &replies).index, 4);
    assert_eq!(fetch_last_block_header(own, &vec![]).index, 0);
    let nodes: Vec<Node> = (1..8u8).map(peer).collect();
    assert_eq!(health_probe_targets(nodes).len(), 5);
}

#[test]
fn value_stored_through_one_peer_is_found_from_another() {
    let mut b = node(3000);
    let mut j = node(4000);
    let mut k = node(4500);
    j.routing_table.insert_node(&b.core);
    k.routing_table.insert_node(&b.core);
    let key = NodeId::random().unwrap();
    let block = sample_block();

    // J looks up the key: B is the only peer it can ask
    let seeds = j.routing_table.get_closest_nodes(&key, KBUCKET_MAX);
    let mut lookup = NodeLookup::new(key, j.core.id, seeds);
    while let Some(peer) = lookup.next_peer() {
        assert_eq!(peer.id, b.core.id);
        let (answer, _) = b.handle_find_node(&j.core, &key, KBUCKET_MAX as u64);
        let nodes: Vec<Node> = answer.into_iter().map(|nd| nd.1).collect();
        lookup.on_reply(peer, Some(nodes));
    }
    let closest = lookup.finish();
    assert_eq!(closest.len(), 1);

    // J stores at each peer found, and B echoes the key
    let value = KademliaData::Block(block.clone());
    let bytes = value.encode();
    let mut echoes = Vec::new();
    for _peer in &closest {
        let decoded = KademliaData::decode(&bytes).unwrap();
        let (echo, _, _) = b.handle_store(&j.core, key, decoded);
        echoes.push(Some(echo.0.to_vec()));
    }
    assert_eq!(j.finish_store(key, value, &closest, &echoes), Ok(()));

    // K finds it through B
    assert!(k.find_value_local(&key).is_none());
    let seeds = k.routing_table.get_closest_nodes(&key, KBUCKET_MAX);
    let mut lookup = NodeLookup::new(key, k.core.id, seeds);
    let mut found = None;
    while let Some(_peer) = lookup.next_peer() {
        let (reply, _) = b.handle_find_value(&k.core, &key);
        if let Some(v) = lookup.on_value_reply(Some(reply)) {
            found = Some(v);
            break;
        }
    }
    match found {
        Some(KademliaData::Block(got)) => assert_eq!(got.header.hash, block.header.hash),
        other => panic!("not found: {:?}", other),
    }
    // the first request made B learn of J
    assert!(b.routing_table.kbuckets.iter().any(|bk| bk.contains(&j.core.id)));
}
