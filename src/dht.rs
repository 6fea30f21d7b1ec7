//! A DHT node: its identity, routing table and records, and how it answers each request.

use crate::data::{DataView, KademliaData, Ticket};
use crate::k_bucket::holds_id;
use crate::node::Node;
use crate::node_id::{be_value, id_distance, ticket_ns, namespace_key, xor_bytes, NodeId, KBUCKET_MAX};
use crate::routing_table::{insert_effect, InsertOutcome, NodeDistance, RoutingTable};
use crate::secret_key::ed25519_signature;
use crate::signature::{HandleSignature, Signature};
use crate::store::DhtTable;
use crate::ticket::{meets_difficulty, pow_hash, ticket_signed_by, NodeTicket};
use vstd::prelude::*;

verus! {

/// Failures of DHT operations.
#[derive(Debug, PartialEq, Eq, Structural)]
pub enum KademliaError {
    FailedAccessError,
    PingFailedError,
    StoreFailedError,
    FindNodeFailedError,
    FindValueFailedError,
}

/// Failures of the admission handshake and of inbound ticket checks.
#[derive(Debug, PartialEq, Eq, Structural)]
pub enum AdmissionError {
    /// A public key that is not 32 bytes long.
    InvalidKey,
    /// A challenge for this key is already outstanding.
    AlreadyExists,
    /// No challenge is pending for this key.
    TicketUnavailable,
    /// The proof of work does not meet the difficulty, or does not recompute.
    PoWInvalid,
    /// The ticket carries no signature that verifies.
    SignatureInvalid,
}

/// Difficulty, in leading zero nibbles, that a bootstrap asks of a joining node by default.
pub const CHALLENGE_DIFFICULTY: u32 = 5;

/// The answer to FIND_VALUE: the value, or the closest peers known.
#[derive(Debug)]
pub enum FindValueReply {
    Value(KademliaData),
    Nodes(Vec<Node>),
}

/// Why the integration layer hears of a store.
#[derive(Debug)]
pub enum DHTEvent {
    Store(KademliaData),
}

/// A party that reacts to DHT events.
pub trait DHTEventHandler {
    fn on_event(&self, event: DHTEvent);
}

/// The challenge pending under `k`, if `m` holds one there.
pub open spec fn pending_challenge(m: Map<Seq<u8>, DataView>, k: Seq<u8>) -> Option<Ticket> {
    if m.contains_key(k) {
        match m[k] {
            DataView::Ticket(t) => Some(t),
            _ => None,
        }
    } else {
        None
    }
}

/// A bootstrap holding records `m` accepts the submission of `nonce` by the holder of
/// `pub_key`: a challenge is pending for that key and the proof of work meets its difficulty.
pub open spec fn submission_accepted(m: Map<Seq<u8>, DataView>, pub_key: Seq<u8>, nonce: u32) -> bool {
    match pending_challenge(m, namespace_key(ticket_ns(), key_id(pub_key))) {
        Some(t) => meets_difficulty(pow_hash(pub_key, t.nonce, nonce), t.difficulty as nat),
        None => false,
    }
}

/// A STORE answer that echoes `key`.
pub open spec fn echoed(e: Option<Vec<u8>>, key: Seq<u8>) -> bool {
    match e {
        Some(v) => v@ == key,
        None => false,
    }
}

/// The identifier that a 32-byte key names.
pub open spec fn key_id(k: Seq<u8>) -> NodeId {
    NodeId(choose|a: [u8; 32]| #[trigger] a@ == k)
}

#[derive(Debug)]
pub struct DHTNode {
    pub core: Node,
    pub routing_table: RoutingTable,
    pub distributed_hash_tb: DhtTable,
}

/// The peers of `r`, dropping the distances.
pub open spec fn peers_of(r: Seq<NodeDistance>) -> Seq<Node> {
    r.map_values(|nd: NodeDistance| nd.1)
}

fn strip_distances(r: Vec<NodeDistance>) -> (out: Vec<Node>)
    ensures
        out@ == peers_of(r@),
{
    let mut out: Vec<Node> = Vec::new();
    let rest = r;
    let ghost all = rest@;
    let mut i: usize = 0;
    let n = rest.len();
    while i < n
        invariant
            n == all.len(),
            rest@ == all,
            i <= n,
            out@ == peers_of(all.subrange(0, i as int)),
        decreases n - i,
    {
        let nd = rest[i].1.clone();
        out.push(nd);
        assert(peers_of(all.subrange(0, i + 1)) =~= peers_of(all.subrange(0, i as int)).push(all[i as int].1));
        i = i + 1;
    }
    assert(all.subrange(0, n as int) =~= all);
    out
}

impl DHTNode {
    pub open spec fn wf(&self) -> bool {
        &&& self.routing_table.wf()
        &&& self.distributed_hash_tb.wf()
        &&& self.routing_table.host == self.core
    }

    /// A node with a fresh identity at the given endpoint, an empty table of records, and a
    /// routing table that holds only itself; `None` when no key could be made.
    pub fn new(address: String, port: usize) -> (r: Option<DHTNode>)
        ensures
            r matches Some(d) ==> d.wf() && d.distributed_hash_tb.view().len() == 0
                && d.core.spec_address() == address@ && d.core.spec_port() == port,
    {
        let Some(secret) = crate::secret_key::os_random_bytes() else {
            return None;
        };
        Some(Self::from_secret(secret, address, port))
    }

    /// The node whose secret key is `secret`, at the given endpoint, with no records and a
    /// routing table that holds only itself.
    pub fn from_secret(secret: [u8; 32], address: String, port: usize) -> (r: DHTNode)
        ensures
            r.wf(),
            r.core.keys.private_key == secret,
            r.core.keys.public_key@ == crate::secret_key::ed25519_public_key(secret@),
            r.core.id.0@ == crate::hash_func::sha256_of(r.core.keys.public_key@),
            r.core.spec_address() == address@,
            r.core.spec_port() == port,
            r.core.ticket.is_none(),
            r.distributed_hash_tb.view().len() == 0,
            r.routing_table.kbuckets@[0].nodes@ == seq![r.core],
            forall|d: int| 1 <= d < 256 ==> (#[trigger] r.routing_table.kbuckets@[d]).nodes@.len() == 0,
    {
        Self::with_records(Node::from_secret(secret, address, port), DhtTable::new())
    }

    /// A node with identity `core` and the given records.
    pub fn with_records(core: Node, records: DhtTable) -> (r: DHTNode)
        requires
            records.wf(),
        ensures
            r.wf(),
            r.core == core,
            r.distributed_hash_tb == records,
            r.routing_table.kbuckets@[0].nodes@ == seq![core],
            forall|d: int| 1 <= d < 256 ==> (#[trigger] r.routing_table.kbuckets@[d]).nodes@.len() == 0,
    {
        let routing_table = RoutingTable::new(core.clone());
        DHTNode { core, routing_table, distributed_hash_tb: records }
    }

    /// PING: records the caller and answers with this node's identifier.
    pub fn handle_ping(&mut self, caller: &Node) -> (r: (NodeId, InsertOutcome))
        requires
            old(self).wf(),
        ensures
            final(self).wf(),
            r.0 == old(self).core.id,
            final(self).core == old(self).core,
            final(self).distributed_hash_tb == old(self).distributed_hash_tb,
            insert_effect(old(self).routing_table, final(self).routing_table, *caller, r.1),
    {
        let outcome = self.routing_table.insert_node(caller);
        (self.core.id, outcome)
    }

    /// STORE: keeps `value` under `key`, records the caller, and echoes the key with the event
    /// for the integration layer.
    pub fn handle_store(&mut self, caller: &Node, key: NodeId, value: KademliaData) -> (r: (NodeId, DHTEvent, InsertOutcome))
        requires
            old(self).wf(),
        ensures
            final(self).wf(),
            r.0 == key,
            final(self).distributed_hash_tb.view() == old(self).distributed_hash_tb.view().insert(key.0@, value.view()),
            r.1 matches DHTEvent::Store(v) && v.view() == value.view(),
            final(self).core == old(self).core,
            insert_effect(old(self).routing_table, final(self).routing_table, *caller, r.2),
    {
        let copy = value.clone();
        self.distributed_hash_tb.insert(key, value);
        let outcome = self.routing_table.insert_node(caller);
        (key, DHTEvent::Store(copy), outcome)
    }

    /// FIND_NODE: records the caller, then answers with up to `min(count, K)` peers nearest
    /// to `key`, nearest first.
    pub fn handle_find_node(&mut self, caller: &Node, key: &NodeId, count: u64) -> (r: (Vec<NodeDistance>, InsertOutcome))
        requires
            old(self).wf(),
        ensures
            final(self).wf(),
            r.0@.len() <= count,
            r.0@.len() <= KBUCKET_MAX,
            final(self).distributed_hash_tb == old(self).distributed_hash_tb,
            final(self).core == old(self).core,
            insert_effect(old(self).routing_table, final(self).routing_table, *caller, r.1),
            forall|t: int| 0 <= t < r.0@.len() ==> final(self).routing_table.is_peer(#[trigger] r.0@[t].1),
            forall|t1: int, t2: int| 0 <= t1 < t2 < r.0@.len() ==>
                id_distance(*key, (#[trigger] r.0@[t1]).1.id) <= id_distance(*key, (#[trigger] r.0@[t2]).1.id),
            forall|n: Node| #[trigger] final(self).routing_table.is_peer(n) ==> (exists|t: int| 0 <= t < r.0@.len() && r.0@[t].1 == n)
                || (r.0@.len() == (if count < KBUCKET_MAX as u64 { count as int } else { KBUCKET_MAX as int })
                    && forall|t: int| 0 <= t < r.0@.len() ==> id_distance(*key, r.0@[t].1.id) <= id_distance(*key, n.id)),
    {
        let limit: usize = if count < KBUCKET_MAX as u64 { count as usize } else { KBUCKET_MAX };
        let outcome = self.routing_table.insert_node(caller);
        let closest = self.routing_table.get_closest_nodes(key, limit);
        (closest, outcome)
    }

    /// FIND_VALUE: records the caller, then answers with the value stored under `key`, or else
    /// with the K peers nearest to it.
    pub fn handle_find_value(&mut self, caller: &Node, key: &NodeId) -> (r: (FindValueReply, InsertOutcome))
        requires
            old(self).wf(),
        ensures
            final(self).wf(),
            final(self).distributed_hash_tb == old(self).distributed_hash_tb,
            final(self).core == old(self).core,
            insert_effect(old(self).routing_table, final(self).routing_table, *caller, r.1),
            old(self).distributed_hash_tb.view().contains_key(key.0@) <==> r.0 is Value,
            r.0 matches FindValueReply::Value(v) ==> v.view() == old(self).distributed_hash_tb.view()[key.0@],
            r.0 matches FindValueReply::Nodes(ns) ==> {
                &&& ns@.len() <= KBUCKET_MAX
                &&& forall|t: int| 0 <= t < ns@.len() ==> final(self).routing_table.is_peer(#[trigger] ns@[t])
                &&& forall|t1: int, t2: int| 0 <= t1 < t2 < ns@.len() ==>
                    id_distance(*key, (#[trigger] ns@[t1]).id) <= id_distance(*key, (#[trigger] ns@[t2]).id)
                &&& forall|n: Node| #[trigger] final(self).routing_table.is_peer(n) ==> (exists|t: int| 0 <= t < ns@.len() && ns@[t] == n)
                    || (ns@.len() == KBUCKET_MAX && forall|t: int| 0 <= t < ns@.len() ==> id_distance(*key, ns@[t].id) <= id_distance(*key, n.id))
            },
    {
        let outcome = self.routing_table.insert_node(caller);
        if let Some(value) = self.distributed_hash_tb.get(key) {
            return (FindValueReply::Value(value.clone()), outcome);
        }
        let closest = self.routing_table.get_closest_nodes(key, KBUCKET_MAX);
        let nodes = strip_distances(closest);
        proof {
            let c = closest@;
            let ns = nodes@;
            assert forall|t: int| 0 <= t < ns.len() implies ns[t] == c[t].1 && be_value(c[t].0.0@) == id_distance(*key, ns[t].id) by {
                assert(c[t].0.0@ == xor_bytes(key.0@, c[t].1.id.0@));
            }
            assert forall|t1: int, t2: int| 0 <= t1 < t2 < ns.len() implies
                id_distance(*key, (#[trigger] ns[t1]).id) <= id_distance(*key, (#[trigger] ns[t2]).id) by {
                assert(be_value(c[t1].0.0@) <= be_value(c[t2].0.0@));
            }
            assert forall|n: Node| #[trigger] self.routing_table.is_peer(n) implies (exists|t: int| 0 <= t < ns.len() && ns[t] == n)
                || (ns.len() == KBUCKET_MAX && forall|t: int| 0 <= t < ns.len() ==> id_distance(*key, ns[t].id) <= id_distance(*key, n.id)) by {
                if exists|t: int| 0 <= t < c.len() && c[t].1 == n {
                    let t = choose|t: int| 0 <= t < c.len() && c[t].1 == n;
                    assert(ns[t] == n);
                } else {
                    assert forall|t: int| 0 <= t < ns.len() implies id_distance(*key, ns[t].id) <= id_distance(*key, n.id) by {
                        assert(be_value(c[t].0.0@) <= id_distance(*key, n.id));
                    }
                }
            }
        }
        (FindValueReply::Nodes(nodes), outcome)
    }

    /// REQUEST_CHALLENGE at a bootstrap: records `challenge` at `difficulty` under
    /// `ticket:<pub_key>`, unless a challenge for that key is already pending.
    pub fn handle_request_challenge(&mut self, pub_key: Vec<u8>, challenge: u32, difficulty: u32) -> (r: Result<(u32, u32), AdmissionError>)
        requires
            old(self).wf(),
        ensures
            final(self).wf(),
            final(self).routing_table == old(self).routing_table,
            pub_key@.len() != 32 ==> r == Err::<(u32, u32), AdmissionError>(AdmissionError::InvalidKey)
                && final(self).distributed_hash_tb.view() == old(self).distributed_hash_tb.view(),
            pub_key@.len() == 32 ==> ({
                let k = namespace_key(ticket_ns(), key_id(pub_key@));
                &&& old(self).distributed_hash_tb.view().contains_key(k) ==> r == Err::<(u32, u32), AdmissionError>(AdmissionError::AlreadyExists)
                    && final(self).distributed_hash_tb.view() == old(self).distributed_hash_tb.view()
                &&& !old(self).distributed_hash_tb.view().contains_key(k) ==> r == Ok::<(u32, u32), AdmissionError>((challenge, difficulty))
                    && final(self).distributed_hash_tb.view() == old(self).distributed_hash_tb.view().insert(k,
                        DataView::Ticket(Ticket { nonce: challenge, difficulty }))
            }),
    {
        let Ok(id) = NodeId::try_from(pub_key) else {
            return Err(AdmissionError::InvalidKey);
        };
        assert(id == key_id(pub_key@)) by {
            let a = choose|a: [u8; 32]| #[trigger] a@ == pub_key@;
            assert(a@ == id.0@);
            assert(a =~= id.0);
        }
        let ticket_id = NodeId::create_ticket(id);
        if self.distributed_hash_tb.contains_key(&ticket_id) {
            return Err(AdmissionError::AlreadyExists);
        }
        self.distributed_hash_tb.insert(ticket_id, KademliaData::Ticket(Ticket::new(challenge, difficulty)));
        Ok((challenge, difficulty))
    }

    /// SUBMIT_CHALLENGE at a bootstrap: recomputes the proof of work of `pub_key` for the
    /// pending challenge and `nonce`; when it meets the difficulty, the pending record is removed
    /// and this node signs the proof.
    pub fn handle_submit_challenge(&mut self, pub_key: Vec<u8>, nonce: u32) -> (r: Result<Signature, AdmissionError>)
        requires
            old(self).wf(),
        ensures
            final(self).wf(),
            final(self).routing_table == old(self).routing_table,
            pub_key@.len() != 32 ==> r == Err::<Signature, AdmissionError>(AdmissionError::InvalidKey),
            r is Err ==> final(self).distributed_hash_tb.view() == old(self).distributed_hash_tb.view(),
            pub_key@.len() == 32 ==> (r is Ok <==> submission_accepted(old(self).distributed_hash_tb.view(), pub_key@, nonce)),
            pub_key@.len() == 32 ==> ({
                let k = namespace_key(ticket_ns(), key_id(pub_key@));
                let m = old(self).distributed_hash_tb.view();
                &&& pending_challenge(m, k) is None ==> r == Err::<Signature, AdmissionError>(AdmissionError::TicketUnavailable)
                &&& pending_challenge(m, k) matches Some(t) ==> ({
                    let pow = pow_hash(pub_key@, t.nonce, nonce);
                    &&& !meets_difficulty(pow, t.difficulty as nat) ==> r == Err::<Signature, AdmissionError>(AdmissionError::PoWInvalid)
                    &&& meets_difficulty(pow, t.difficulty as nat) ==> (r matches Ok(s) && s.pub_key == old(self).core.keys.public_key
                        && s.signature@ == ed25519_signature(old(self).core.keys.private_key@, pow)
                        && final(self).distributed_hash_tb.view() == m.remove(k))
                })
            }),
    {
        let Ok(id) = NodeId::try_from(pub_key) else {
            return Err(AdmissionError::InvalidKey);
        };
        assert(id == key_id(id.0@)) by {
            let a = choose|a: [u8; 32]| #[trigger] a@ == id.0@;
            assert(a =~= id.0);
        }
        let ticket_id = NodeId::create_ticket(id);
        let (challenge, difficulty) = match self.distributed_hash_tb.get(&ticket_id) {
            Some(KademliaData::Ticket(t)) => (t.nonce, t.difficulty),
            _ => { return Err(AdmissionError::TicketUnavailable); },
        };
        let proof_of_work = NodeTicket::calculate_pow(id.0, challenge, nonce);
        if !NodeTicket::validate_pow(&proof_of_work, difficulty) {
            return Err(AdmissionError::PoWInvalid);
        }
        let _ = self.distributed_hash_tb.remove(&ticket_id);
        Ok(Signature::sign(self.core.keys, proof_of_work))
    }

    /// The value this node holds under `key`.
    pub fn find_value_local(&self, key: &NodeId) -> (r: Option<KademliaData>)
        requires
            self.wf(),
        ensures
            r is None <==> !self.distributed_hash_tb.view().contains_key(key.0@),
            r matches Some(v) ==> v.view() == self.distributed_hash_tb.view()[key.0@],
    {
        match self.distributed_hash_tb.get(key) {
            Some(v) => Some(v.clone()),
            None => None,
        }
    }

    /// The end of a STORE issued by this node: `closest` are the peers that the lookup of `key`
    /// returned and `echoes` what each of them answered (`None` for a failed call). When this
    /// node is among `closest` it keeps the value too. The store succeeded when some peer echoed
    /// the key or the value was kept here.
    pub fn finish_store(&mut self, key: NodeId, value: KademliaData, closest: &Vec<Node>, echoes: &Vec<Option<Vec<u8>>>) -> (r: Result<(), KademliaError>)
        requires
            old(self).wf(),
        ensures
            final(self).wf(),
            final(self).routing_table == old(self).routing_table,
            holds_id(closest@, old(self).core.id) ==> final(self).distributed_hash_tb.view()
                == old(self).distributed_hash_tb.view().insert(key.0@, value.view()),
            !holds_id(closest@, old(self).core.id) ==> final(self).distributed_hash_tb == old(self).distributed_hash_tb,
            r is Ok <==> (holds_id(closest@, old(self).core.id)
                || exists|i: int| 0 <= i < echoes@.len() && echoed(#[trigger] echoes@[i], key.0@)),
            r is Err ==> r == Err::<(), KademliaError>(KademliaError::StoreFailedError),
    {
        let mut has_stored = false;
        let mut i: usize = 0;
        while i < echoes.len()
            invariant
                i <= echoes@.len(),
                has_stored <==> exists|j: int| 0 <= j < i && echoed(#[trigger] echoes@[j], key.0@),
            decreases echoes@.len() - i,
        {
            if let Some(e) = &echoes[i] {
                let same = match crate::utils::to_32bytes(e.clone()) {
                    Some(bytes) => crate::utils::bytes32_eq(&bytes, &key.0),
                    None => false,
                };
                if same {
                    has_stored = true;
                }
            }
            i = i + 1;
        }
        let mut local = false;
        let mut j: usize = 0;
        while j < closest.len()
            invariant
                j <= closest@.len(),
                local <==> exists|m: int| 0 <= m < j && (#[trigger] closest@[m]).id.0@ == self.core.id.0@,
            decreases closest@.len() - j,
        {
            if closest[j].id == self.core.id {
                local = true;
            }
            j = j + 1;
        }
        if local {
            self.distributed_hash_tb.insert(key, value);
            has_stored = true;
        }
        if has_stored {
            Ok(())
        } else {
            Err(KademliaError::StoreFailedError)
        }
    }
}

/// What of a DHT node outlives a restart: its identity and its records.
#[derive(Debug)]
pub struct PersistDHTNode {
    pub core: Node,
    pub distributed_hash_tb: DhtTable,
}

impl PersistDHTNode {
    /// A fresh identity with no records and no endpoint yet; `None` when no key could be made.
    pub fn new() -> (r: Option<PersistDHTNode>)
        ensures
            r matches Some(p) ==> p.distributed_hash_tb.wf() && p.distributed_hash_tb.view().len() == 0,
    {
        let Some(node) = Node::new(String::new(), 0) else {
            return None;
        };
        Some(PersistDHTNode { core: node, distributed_hash_tb: DhtTable::new() })
    }
}

impl DHTNode {
    /// The node restored from `persist` at the given endpoint.
    pub fn from(address: String, port: usize, persist: PersistDHTNode) -> (r: Option<DHTNode>)
        requires
            persist.distributed_hash_tb.wf(),
        ensures
            r matches Some(d) ==> d.wf() && d.core.id == persist.core.id && d.core.keys == persist.core.keys
                && d.core.spec_address() == address@ && d.core.spec_port() == port
                && d.distributed_hash_tb.view() == persist.distributed_hash_tb.view(),
            r is Some,
    {
        let node = Node::from_node(address, port, &persist.core);
        Some(Self::with_records(node, persist.distributed_hash_tb))
    }

    /// What of this node outlives a restart.
    pub fn into_persist(&self) -> (r: PersistDHTNode)
        requires
            self.wf(),
        ensures
            r.core == self.core,
            r.distributed_hash_tb.wf(),
            r.distributed_hash_tb.view() == self.distributed_hash_tb.view(),
    {
        PersistDHTNode { core: self.core.clone(), distributed_hash_tb: self.distributed_hash_tb.duplicate() }
    }
}

/// A value stored under a key is found there: after STORE of `v` under `k`, FIND_VALUE of `k`
/// at the same node answers with `v`.
pub proof fn lemma_store_then_find_value(m: Map<Seq<u8>, DataView>, k: Seq<u8>, v: DataView)
    ensures
        m.insert(k, v).contains_key(k),
        m.insert(k, v)[k] == v,
{
}

/// REQUEST_CHALLENGE then SUBMIT_CHALLENGE at one bootstrap: once the challenge `c` at
/// difficulty `d` is recorded for `pub_key`, a submitted nonce is accepted exactly when its proof
/// of work meets `d`. So the nonce that the joining node's search returns is accepted, and a
/// tampered one is refused.
pub proof fn lemma_challenge_round_trip(m: Map<Seq<u8>, DataView>, pub_key: Seq<u8>, c: u32, d: u32, nonce: u32)
    ensures
        ({
            let k = namespace_key(ticket_ns(), key_id(pub_key));
            submission_accepted(m.insert(k, DataView::Ticket(Ticket { nonce: c, difficulty: d })), pub_key, nonce)
                <==> meets_difficulty(pow_hash(pub_key, c, nonce), d as nat)
        }),
{
}

/// The inbound check of every request but the handshake: the ticket's signature must verify
/// under the key it names, the proof of work must recompute from the caller's public key, the
/// ticket's challenge and its nonce, and it must meet `difficulty`.
pub fn verify_sybil_attack(pub_key: [u8; 32], ticket: &NodeTicket, difficulty: u32) -> (r: Result<(), AdmissionError>)
    ensures
        !(ticket.signature matches Some(s) && ticket_signed_by(*ticket, s.pub_key@))
            ==> r == Err::<(), AdmissionError>(AdmissionError::SignatureInvalid),
        (ticket.signature matches Some(s) && ticket_signed_by(*ticket, s.pub_key@)) ==> {
            let pow = pow_hash(pub_key@, ticket.challange, ticket.nonce);
            &&& (pow == ticket.pow@ && meets_difficulty(pow, difficulty as nat)) ==> r is Ok
            &&& !(pow == ticket.pow@ && meets_difficulty(pow, difficulty as nat))
                ==> r == Err::<(), AdmissionError>(AdmissionError::PoWInvalid)
        },
{
    if !ticket.validate_signature(None) {
        return Err(AdmissionError::SignatureInvalid);
    }
    let calculated = NodeTicket::calculate_pow(pub_key, ticket.challange, ticket.nonce);
    if !crate::utils::bytes32_eq(&calculated, &ticket.pow) {
        return Err(AdmissionError::PoWInvalid);
    }
    if !NodeTicket::validate_pow(&calculated, difficulty) {
        return Err(AdmissionError::PoWInvalid);
    }
    Ok(())
}

} // verus!
