use p2p::hash_func::{double_sha256_of, sha256, DefaultHasher, DoubleHasher, HashFunc};
use p2p::node_id::NodeId;
use p2p::secret_key::SecretPair;
use p2p::signature::{HandleSignature, Signature};
use p2p::utils::{hex_encode, push_decimal, to_32bytes, to_64bytes};
use sha2::Digest;

fn hex(bytes: &[u8]) -> String {
    String::from_utf8(hex_encode(bytes)).unwrap()
}

#[test]
fn hex_encoding_is_lower_case_two_digits_per_byte() {
    assert_eq!(hex(&[0x00, 0x0f, 0xa5, 0xff]), "000fa5ff");
    assert_eq!(hex(&[]), "");
}

#[test]
fn decimal_text_of_numbers() {
    let mut out = Vec::new();
    push_decimal(0, &mut out);
    assert_eq!(out, b"0".to_vec());
    let mut out = Vec::new();
    push_decimal(1234567890123, &mut out);
    assert_eq!(out, b"1234567890123".to_vec());
}

#[test]
fn sha256_known_digests() {
    assert_eq!(hex(&sha256(b"")), "e3b0c44298fc1c149afbf4c8996fb92427ae41e4649b934ca495991b7852b855");
    assert_eq!(hex(&sha256(b"abc")), "ba7816bf8f01cfea414140de5dae2223b00361a396177a9cb410ff61f20015ad");
}

#[test]
fn double_hash_is_hash_of_hash() {
    for input in [&b""[..], &b"abc"[..], &b"chain_head:00"[..]] {
        let once = sha256(input);
        assert_eq!(double_sha256_of(input), sha256(&once));
        assert_eq!(DoubleHasher.hash(input), sha256(&once));
        assert_eq!(DefaultHasher.hash(input), once);
        assert_ne!(double_sha256_of(input), once);
    }
}

#[test]
fn node_id_is_hash_of_public_key() {
    let key = [7u8; 32];
    let expected: [u8; 32] = sha2::Sha256::digest(key).into();
    assert_eq!(NodeId::new(&key).0, expected);
}

#[test]
fn namespace_keys_follow_the_formula() {
    let id = NodeId([0xabu8; 32]);
    let text = format!("chain_head:{}", "ab".repeat(32));
    let expected: [u8; 32] = sha2::Sha256::digest(sha2::Sha256::digest(text.as_bytes())).into();
    assert_eq!(NodeId::create_chain_head(id).0, expected);
    assert_eq!(NodeId::get_namespace_key("chain_head", id).0, expected);
    assert_ne!(NodeId::create_ticket(id).0, expected);
    assert_eq!(NodeId::create_ticket(id).0, NodeId::get_namespace_key("ticket", id).0);
}

#[test]
fn distance_is_bytewise_xor_ordered_big_endian() {
    let a = NodeId([0u8; 32]);
    let mut b = [0u8; 32];
    b[0] = 0x80;
    let mut c = [0u8; 32];
    c[31] = 0xff;
    let d_ab = a.distance(&NodeId(b));
    let d_ac = a.distance(&NodeId(c));
    assert_eq!(d_ab.0, b);
    assert!(d_ac.less_than(&d_ab));
    assert!(!d_ab.less_than(&d_ac));
    assert!(!d_ab.less_than(&d_ab));
}

#[test]
fn fixed_size_conversions() {
    assert_eq!(to_32bytes(vec![1u8; 32]), Some([1u8; 32]));
    assert_eq!(to_32bytes(vec![1u8; 31]), None);
    assert_eq!(to_64bytes(vec![2u8; 64]).map(|a| a.to_vec()), Some(vec![2u8; 64]));
    assert!(to_64bytes(vec![2u8; 65]).is_none());
    assert!(NodeId::try_from(vec![0u8; 33]).is_err());
}

#[test]
fn signatures_verify_only_under_the_signing_key() {
    let pair = SecretPair::generate_keys().unwrap();
    let other = SecretPair::generate_keys().unwrap();
    let value = [9u8; 32];
    let sig = Signature::sign(pair, value);
    assert_eq!(sig.pub_key, pair.public_key);
    assert!(sig.validate_signature(pair.public_key, value));
    assert!(!sig.validate_signature(other.public_key, value));
    assert!(!sig.validate_signature(pair.public_key, [8u8; 32]));
    assert!(pair.verify(value, sig.get_signature()));
    assert_eq!(pair.sign(value), sig.signature);
}

#[test]
fn default_signature_is_all_zero() {
    let s = Signature::default();
    assert_eq!(s.pub_key, [0u8; 32]);
    assert_eq!(s.signature, [0u8; 64]);
    let p = SecretPair::default([3u8; 32]);
    assert_eq!(p.private_key, [0u8; 32]);
}

#[test]
fn key_pair_from_secret_is_deterministic() {
    let a = SecretPair::from_secret([11u8; 32]);
    let b = SecretPair::from_secret([11u8; 32]);
    assert_eq!(a, b);
    assert_eq!(a.private_key, [11u8; 32]);
    let node = p2p::node::Node::from_secret([11u8; 32], "h".to_string(), 7);
    assert_eq!(node.keys, a);
    assert_eq!(node.id, NodeId::new(&a.public_key));
    let sig = Signature::sign(a, [1u8; 32]);
    assert!(sig.validate_signature(a.public_key, [1u8; 32]));
}

#[test]
fn fresh_transaction_is_signed_by_sender() {
    let pair = SecretPair::generate_keys().unwrap();
    let tx = p2p::transaction::Transaction::new(pair, vec![1, 2]).unwrap();
    assert_eq!(tx.from, pair.public_key);
    assert!(tx.timestamp > 1_600_000_000);
}
