use p2p::dht::{verify_sybil_attack, AdmissionError, DHTNode, CHALLENGE_DIFFICULTY};
use p2p::node::Node;
use p2p::routing_table::InsertOutcome;
use p2p::ticket::NodeTicket;

fn node(port: usize) -> DHTNode {
    DHTNode::new("127.0.0.1".to_string(), port).unwrap()
}

#[test]
fn difficulty_zero_accepts_any_hash() {
    assert!(NodeTicket::validate_pow(&[0xffu8; 32], 0));
    assert!(NodeTicket::validate_pow(&[0x00u8; 32], 0));
}

#[test]
fn large_difficulty_accepts_only_zero_hash() {
    assert!(NodeTicket::validate_pow(&[0u8; 32], 512));
    let mut h = [0u8; 32];
    h[31] = 1;
    assert!(!NodeTicket::validate_pow(&h, 512));
    assert!(!NodeTicket::validate_pow(&h, 64));
    assert!(NodeTicket::validate_pow(&h, 63));
}

#[test]
fn difficulty_counts_nibbles() {
    let mut h = [0u8; 32];
    h[2] = 0x0f;
    assert!(NodeTicket::validate_pow(&h, 5));
    h[2] = 0x10;
    assert!(!NodeTicket::validate_pow(&h, 5));
    assert!(NodeTicket::validate_pow(&h, 4));
}

#[test]
fn brute_force_finds_first_nonce() {
    let key = [5u8; 32];
    let (nonce, pow) = NodeTicket::brute_force_pow(key, 77, 2).unwrap();
    assert_eq!(pow, NodeTicket::calculate_pow(key, 77, nonce));
    assert!(NodeTicket::validate_pow(&pow, 2));
    for m in 0..nonce {
        assert!(!NodeTicket::validate_pow(&NodeTicket::calculate_pow(key, 77, m), 2));
    }
}

#[test]
fn challenge_submit_round_trip_issues_verifiable_ticket() {
    let mut bootstrap = node(3000);
    let mut joining = node(4000);
    let key = joining.core.keys.public_key.to_vec();
    let (challenge, difficulty) = bootstrap.handle_request_challenge(key.clone(), 1234, 2).unwrap();
    assert_eq!((challenge, difficulty), (1234, 2));
    let mut ticket = NodeTicket::request_challange(&joining.core, challenge, difficulty).unwrap();
    assert!(NodeTicket::validate_pow(&ticket.pow, 2));
    let sig = bootstrap.handle_submit_challenge(key.clone(), ticket.nonce).unwrap();
    assert_eq!(sig.pub_key, bootstrap.core.keys.public_key);
    let bootstrap_node = bootstrap.core.clone();
    let mut host = joining.core.clone();
    assert_eq!(
        ticket.submit_challange(&mut host, &bootstrap_node, sig.pub_key.to_vec(), sig.signature.to_vec()),
        Some(())
    );
    assert!(ticket.validate_signature(Some(bootstrap.core.keys.public_key)));
    assert_eq!(host.ticket, Some(ticket));
    assert_eq!(verify_sybil_attack(host.keys.public_key, &ticket, 2), Ok(()));
    // the pending record was redeemed
    assert_eq!(
        bootstrap.handle_submit_challenge(key, ticket.nonce).unwrap_err(),
        AdmissionError::TicketUnavailable
    );
    joining.core = host;
    // after joining each side knows the other
    assert!(!matches!(joining.routing_table.insert_node(&bootstrap.core), InsertOutcome::Ignored));
    let (id, _) = bootstrap.handle_ping(&joining.core);
    assert_eq!(id, bootstrap.core.id);
    assert!(bootstrap.routing_table.kbuckets.iter().any(|b| b.contains(&joining.core.id)));
    assert!(joining.routing_table.kbuckets.iter().any(|b| b.contains(&bootstrap.core.id)));
}

#[test]
fn second_challenge_for_same_key_is_refused() {
    let mut bootstrap = node(3001);
    let key = vec![4u8; 32];
    assert_eq!(bootstrap.handle_request_challenge(key.clone(), 1, CHALLENGE_DIFFICULTY), Ok((1, CHALLENGE_DIFFICULTY)));
    assert_eq!(bootstrap.handle_request_challenge(key, 2, CHALLENGE_DIFFICULTY), Err(AdmissionError::AlreadyExists));
    assert_eq!(bootstrap.handle_request_challenge(vec![1u8; 3], 2, 1), Err(AdmissionError::InvalidKey));
}

#[test]
fn tampered_proof_of_work_is_rejected() {
    let mut bootstrap = node(3002);
    let key = [6u8; 32];
    bootstrap.handle_request_challenge(key.to_vec(), 99, 2).unwrap();
    let good = NodeTicket::brute_force_pow(key, 99, 2).unwrap().0;
    let mut bad = good.wrapping_add(1);
    while NodeTicket::validate_pow(&NodeTicket::calculate_pow(key, 99, bad), 2) {
        bad = bad.wrapping_add(1);
    }
    assert_eq!(bootstrap.handle_submit_challenge(key.to_vec(), bad), Err(AdmissionError::PoWInvalid));
    assert!(bootstrap.handle_submit_challenge(key.to_vec(), good).is_ok());
    assert_eq!(bootstrap.handle_submit_challenge(vec![0u8; 5], good), Err(AdmissionError::InvalidKey));
}

#[test]
fn request_without_valid_ticket_is_rejected() {
    let caller = Node::new("127.0.0.1".to_string(), 5000).unwrap();
    let unsigned = NodeTicket::new([0u8; 32], 1, 2);
    assert_eq!(verify_sybil_attack(caller.keys.public_key, &unsigned, 0), Err(AdmissionError::SignatureInvalid));
    let mut bootstrap = node(3003);
    let key = caller.keys.public_key;
    bootstrap.handle_request_challenge(key.to_vec(), 5, 2).unwrap();
    let (nonce, pow) = NodeTicket::brute_force_pow(key, 5, 2).unwrap();
    let sig = bootstrap.handle_submit_challenge(key.to_vec(), nonce).unwrap();
    let mut ticket = NodeTicket::new(pow, 5, nonce);
    ticket.set_signature(sig.pub_key, sig.signature);
    assert_eq!(verify_sybil_attack(key, &ticket, 2), Ok(()));
    assert_eq!(verify_sybil_attack(key, &ticket, 40), Err(AdmissionError::PoWInvalid));
    let mut forged = ticket;
    forged.nonce = nonce.wrapping_add(1);
    assert_eq!(verify_sybil_attack(key, &forged, 2), Err(AdmissionError::PoWInvalid));
    assert_eq!(verify_sybil_attack([1u8; 32], &ticket, 2), Err(AdmissionError::PoWInvalid));
}

#[test]
fn submission_with_wrong_lengths_or_key_is_refused() {
    let bootstrap = Node::new("127.0.0.1".to_string(), 3004).unwrap();
    let other = Node::new("127.0.0.1".to_string(), 3005).unwrap();
    let mut host = Node::new("127.0.0.1".to_string(), 4004).unwrap();
    let mut ticket = NodeTicket::new([1u8; 32], 1, 1);
    assert_eq!(ticket.submit_challange(&mut host, &bootstrap, vec![0u8; 31], vec![0u8; 64]), None);
    let sig = other.keys.sign([1u8; 32]);
    assert_eq!(ticket.submit_challange(&mut host, &bootstrap, other.keys.public_key.to_vec(), sig.to_vec()), None);
    assert!(host.ticket.is_none());
}
