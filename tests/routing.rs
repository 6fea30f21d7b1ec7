use p2p::k_bucket::KBucket;
use p2p::node::Node;
use p2p::node_id::{NodeId, KBUCKET_MAX};
use p2p::routing_table::{InsertOutcome, RoutingTable};
use p2p::secret_key::SecretPair;

fn peer(first: u8, last: u8) -> Node {
    let mut id = [0u8; 32];
    id[0] = first;
    id[31] = last;
    Node {
        id: NodeId(id),
        keys: SecretPair::default([first; 32]),
        ticket: None,
        address: "127.0.0.1".to_string(),
        port: 4000 + first as usize,
    }
}

#[test]
fn bucket_capacities() {
    let buckets = RoutingTable::gen_kbuckets();
    assert_eq!(buckets.len(), 256);
    assert_eq!(buckets[0].bucket_size, 1);
    assert_eq!(buckets[1].bucket_size, 2);
    assert_eq!(buckets[255].bucket_size, KBUCKET_MAX);
    for (d, b) in buckets.iter().enumerate() {
        assert_eq!(b.depth, d);
        assert_eq!(b.bucket_size, (d + 1).min(KBUCKET_MAX));
    }
}

#[test]
fn bucket_index_is_shared_prefix_length() {
    let table = RoutingTable::new(peer(0, 0));
    assert_eq!(table.get_bucket_index(&peer(0x80, 0)), 0);
    assert_eq!(table.get_bucket_index(&peer(0xC0, 0)), 0);
    assert_eq!(table.get_bucket_index(&peer(0x40, 0)), 1);
    assert_eq!(table.get_bucket_index(&peer(0x01, 0)), 7);
    assert_eq!(table.get_bucket_index(&peer(0x00, 1)), 255);
    assert_eq!(table.get_bucket_index(&peer(0, 0)), 0);
}

#[test]
fn bucket_split_moves_the_owner_deeper() {
    let mut table = RoutingTable::new(peer(0, 0));
    assert!(table.kbuckets[0].is_full());
    assert!(matches!(table.insert_node(&peer(0x80, 0)), InsertOutcome::SplitAndAdded));
    assert!(table.kbuckets[0].contains(&peer(0x80, 0).id));
    assert!(table.kbuckets[1].contains(&peer(0, 0).id));
    match table.insert_node(&peer(0xC0, 0)) {
        InsertOutcome::ProbeOldest(n) => assert_eq!(n.id, peer(0x80, 0).id),
        other => panic!("unexpected {:?}", other),
    }
    assert!(table.resolve_probe(&peer(0xE0, 0), false));
    assert!(table.kbuckets[0].contains(&peer(0xE0, 0).id));
    assert!(!table.kbuckets[0].contains(&peer(0x80, 0).id));
    assert!(!table.resolve_probe(&peer(0xC0, 0), true));
    assert!(!table.kbuckets[0].contains(&peer(0xC0, 0).id));
}

#[test]
fn insert_refreshes_known_peer_and_ignores_owner() {
    let mut table = RoutingTable::new(peer(0, 0));
    assert!(matches!(table.insert_node(&peer(0x40, 1)), InsertOutcome::Added));
    assert!(matches!(table.insert_node(&peer(0x40, 2)), InsertOutcome::Added));
    assert!(matches!(table.insert_node(&peer(0x40, 1)), InsertOutcome::Refreshed));
    assert_eq!(table.kbuckets[1].nodes[1].id, peer(0x40, 1).id);
    assert!(matches!(table.insert_node(&peer(0, 0)), InsertOutcome::Ignored));
}

#[test]
fn closest_nodes_are_sorted_and_capped() {
    let mut table = RoutingTable::new(peer(0, 0));
    for p in [peer(0x40, 1), peer(0x20, 1), peer(0x10, 1), peer(0x08, 1)] {
        table.insert_node(&p);
    }
    let key = NodeId([0u8; 32]);
    let closest = table.get_closest_nodes(&key, 2);
    assert_eq!(closest.len(), 2);
    assert_eq!(closest[0].1.id, peer(0x08, 1).id);
    assert_eq!(closest[1].1.id, peer(0x10, 1).id);
    let all = table.get_closest_nodes(&key, 10);
    assert_eq!(all.len(), 4);
    assert!(all.iter().all(|nd| nd.1.id != peer(0, 0).id));
    assert_eq!(all[3].1.id, peer(0x40, 1).id);
}

#[test]
fn remove_deletes_by_id() {
    let mut table = RoutingTable::new(peer(0, 0));
    table.insert_node(&peer(0x40, 1));
    table.remove(&peer(0x40, 1));
    assert!(!table.kbuckets[1].contains(&peer(0x40, 1).id));
    table.remove(&peer(0x40, 9));
    assert!(table.kbuckets[0].contains(&peer(0, 0).id));
}

#[test]
fn kbucket_insert_evict_and_split() {
    let mut b = KBucket::new(0, 2);
    b.insert(peer(0x80, 0));
    b.insert(peer(0x01, 0));
    b.insert(peer(0x02, 0));
    assert!(b.is_full());
    assert!(!b.contains(&peer(0x02, 0).id));
    assert_eq!(b.get_oldest_node().unwrap().id, peer(0x80, 0).id);
    let (left, right) = b.split();
    assert_eq!(left.depth, 1);
    assert_eq!(left.bucket_size, 2);
    assert_eq!(KBucket::new(0, 1).split().1.bucket_size, 2);
    assert_eq!(left.nodes.len(), 1);
    assert_eq!(right.nodes[0].id, peer(0x80, 0).id);
    b.envict_and_insert(peer(0x03, 0));
    assert_eq!(b.get_first_node().unwrap().id, peer(0x01, 0).id);
    assert_eq!(b.nodes[1].id, peer(0x03, 0).id);
    b.remove(peer(0x01, 0));
    assert_eq!(b.nodes.len(), 1);
    assert!(KBucket::get_bit(&peer(0x80, 0).id, 0));
    assert!(!KBucket::get_bit(&peer(0x80, 0).id, 1));
    assert!(!KBucket::get_bit(&peer(0x80, 0).id, 300));
}

#[test]
fn split_moves_owner_past_full_buckets() {
    let mut table = RoutingTable::new(peer(0, 0));
    assert!(matches!(table.insert_node(&peer(0x40, 1)), InsertOutcome::Added));
    assert!(matches!(table.insert_node(&peer(0x40, 2)), InsertOutcome::Added));
    assert!(table.kbuckets[1].is_full());
    assert!(matches!(table.insert_node(&peer(0x80, 0)), InsertOutcome::SplitAndAdded));
    assert!(table.kbuckets[0].contains(&peer(0x80, 0).id));
    assert!(table.kbuckets[2].contains(&peer(0, 0).id));
}
