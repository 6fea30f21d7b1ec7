//! Peers: identity, keys, admission ticket and network endpoint.

use crate::hash_func::sha256_of;
use crate::node_id::NodeId;
use crate::secret_key::{ed25519_public_key, SecretPair};
use crate::ticket::NodeTicket;
use vstd::prelude::*;

verus! {

/// A network endpoint known before its node's identity is.
#[derive(Debug)]
pub struct Contract {
    pub host: String,
    pub port: usize,
}

impl Clone for Contract {
    fn clone(&self) -> (r: Self)
        ensures
            r == *self,
    {
        Contract { host: self.host.clone(), port: self.port }
    }
}

/// A peer as it travels in FIND_NODE and FIND_VALUE answers.
#[derive(Debug)]
pub struct NodeInfo {
    pub id: Vec<u8>,
    pub addr: String,
    pub port: u64,
    pub pub_key: Vec<u8>,
}

/// A peer of the overlay.
#[derive(Debug)]
pub struct Node {
    pub id: NodeId,
    pub keys: SecretPair,
    pub ticket: Option<NodeTicket>,
    pub address: String,
    pub port: usize,
}

impl Clone for Node {
    fn clone(&self) -> (r: Self)
        ensures
            r == *self,
    {
        Node {
            id: self.id,
            keys: self.keys,
            ticket: self.ticket,
            address: self.address.clone(),
            port: self.port,
        }
    }
}

impl Node {
    pub open spec fn spec_address(&self) -> Seq<char> {
        self.address@
    }

    pub open spec fn spec_port(&self) -> usize {
        self.port
    }

    /// The peer described by a wire record; `None` when its identifier or public key is not
    /// 32 bytes long. Only the public key is known of such a peer.
    pub fn from(node: NodeInfo) -> (r: Option<Node>)
        ensures
            (node.id@.len() == 32 && node.pub_key@.len() == 32) <==> r.is_some(),
            r matches Some(n) ==> {
                &&& n.id.0@ == node.id@
                &&& n.keys.public_key@ == node.pub_key@
                &&& n.keys.private_key@ == seq![0u8; 32]
                &&& n.spec_address() == node.addr@
                &&& n.spec_port() == node.port as usize
                &&& n.ticket.is_none()
            },
    {
        let NodeInfo { id, addr, port, pub_key } = node;
        let Some(public_key) = crate::utils::to_32bytes(pub_key) else {
            return None;
        };
        let Ok(id) = NodeId::try_from(id) else {
            return None;
        };
        Some(Node {
            id,
            keys: SecretPair::default(public_key),
            address: addr,
            port: port as usize,
            ticket: None,
        })
    }

    /// The wire record of this peer.
    pub fn to_node_info(&self) -> (r: NodeInfo)
        ensures
            r.id@ == self.id.0@,
            r.addr@ == self.spec_address(),
            r.port == self.spec_port() as u64,
            r.pub_key@ == self.keys.public_key@,
    {
        NodeInfo {
            id: self.id.to_vec(),
            addr: self.address.clone(),
            port: self.port as u64,
            pub_key: crate::utils::slice_to_vec(&self.keys.public_key),
        }
    }

    /// The peer that owns `pub_key`, at the given endpoint.
    pub fn from_pub_key(pub_key: &[u8; 32], address: String, port: usize) -> (r: Node)
        ensures
            r.id.0@ == sha256_of(pub_key@),
            r.keys.public_key == *pub_key,
            r.keys.private_key@ == seq![0u8; 32],
            r.spec_address() == address@,
            r.spec_port() == port,
            r.ticket.is_none(),
    {
        Node {
            id: NodeId::new(pub_key),
            keys: SecretPair::default(*pub_key),
            address,
            port,
            ticket: None,
        }
    }

    /// A placeholder peer for an endpoint whose key is not known yet: the all-zero key.
    pub fn from_contract(contract: &Contract) -> (r: Node)
        ensures
            r.id.0@ == sha256_of(seq![0u8; 32]),
            r.keys.public_key@ == seq![0u8; 32],
            r.keys.private_key@ == seq![0u8; 32],
            r.spec_address() == contract.host@,
            r.spec_port() == contract.port,
            r.ticket.is_none(),
    {
        let zero = [0u8; 32];
        assert(zero@ =~= seq![0u8; 32]);
        Node {
            id: NodeId::new(&zero),
            keys: SecretPair::default(zero),
            address: contract.host.clone(),
            port: contract.port,
            ticket: None,
        }
    }

    /// The identity and keys of `node` at another endpoint, without a ticket.
    pub fn from_node(address: String, port: usize, node: &Node) -> (r: Node)
        ensures
            r.id == node.id,
            r.keys == node.keys,
            r.spec_address() == address@,
            r.spec_port() == port,
            r.ticket.is_none(),
    {
        Node { id: node.id, keys: node.keys, address, port, ticket: None }
    }

    /// The node whose secret key is `secret`, at the given endpoint, without a ticket.
    pub fn from_secret(secret: [u8; 32], address: String, port: usize) -> (r: Node)
        ensures
            r.keys.private_key == secret,
            r.keys.public_key@ == ed25519_public_key(secret@),
            r.id.0@ == sha256_of(r.keys.public_key@),
            r.spec_address() == address@,
            r.spec_port() == port,
            r.ticket.is_none(),
    {
        let keys = SecretPair::from_secret(secret);
        Node { id: NodeId::new(&keys.public_key), keys, address, port, ticket: None }
    }

    /// A node with a fresh key pair; `None` when no randomness is available.
    pub fn new(address: String, port: usize) -> (r: Option<Node>)
        ensures
            r matches Some(n) ==> {
                &&& n.id.0@ == sha256_of(n.keys.public_key@)
                &&& n.keys.public_key@ == ed25519_public_key(n.keys.private_key@)
                &&& n.spec_address() == address@
                &&& n.spec_port() == port
                &&& n.ticket.is_none()
            },
    {
        let Some(secret) = crate::secret_key::os_random_bytes() else {
            return None;
        };
        Some(Self::from_secret(secret, address, port))
    }

    pub fn set_ticket(&mut self, ticket: &NodeTicket)
        ensures
            final(self).ticket == Some(*ticket),
            final(self).id == old(self).id,
            final(self).keys == old(self).keys,
            final(self).spec_address() == old(self).spec_address(),
            final(self).spec_port() == old(self).spec_port(),
    {
        self.ticket = Some(*ticket);
    }

    /// The host part of the endpoint.
    pub fn address(&self) -> (r: &String)
        ensures
            r@ == self.spec_address(),
    {
        &self.address
    }

    /// The port of the endpoint.
    pub fn port(&self) -> (r: usize)
        ensures
            r == self.spec_port(),
    {
        self.port
    }
}

} // verus!
