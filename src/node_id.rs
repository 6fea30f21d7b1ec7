//! 256-bit node identifiers and the XOR distance between them.

use crate::hash_func::{double_sha256, sha256, double_sha256_of, sha256_of};
use crate::utils::{bytes32_eq, hex_ascii, push_hex, slice_to_vec};
use vstd::prelude::*;
use vstd::string::StringSliceAdditionalSpecFns;

verus! {

/// Length of an identifier in bytes.
pub const NODE_ID_LENGTH: usize = 32;

/// Length of an identifier in bits, and the number of buckets of a routing table.
pub const NODE_ID_BITS: usize = 256;

/// The replication parameter K: bucket capacity cap and lookup width.
pub const KBUCKET_MAX: usize = 2;

/// A 256-bit identifier: of a node, of a stored value, or of a namespace record.
#[derive(Clone, Copy, Debug, Hash, Eq)]
pub struct NodeId(pub [u8; 32]);

impl PartialEq for NodeId {
    fn eq(&self, o: &NodeId) -> (r: bool) {
        bytes32_eq(&self.0, &o.0)
    }
}

impl vstd::std_specs::cmp::PartialEqSpecImpl for NodeId {
    open spec fn obeys_eq_spec() -> bool {
        true
    }

    open spec fn eq_spec(&self, o: &NodeId) -> bool {
        self.0@ == o.0@
    }
}

/// The big-endian value of a byte string.
pub open spec fn be_value(s: Seq<u8>) -> nat
    decreases s.len(),
{
    if s.len() == 0 {
        0
    } else {
        be_value(s.drop_last()) * 256 + s.last() as nat
    }
}

/// The byte-wise XOR of two byte strings of equal length.
pub open spec fn xor_bytes(a: Seq<u8>, b: Seq<u8>) -> Seq<u8> {
    Seq::new(a.len(), |i: int| a[i] ^ b[i])
}

/// The XOR distance between two identifiers, as a big-endian 256-bit integer.
pub open spec fn id_distance(a: NodeId, b: NodeId) -> nat {
    be_value(xor_bytes(a.0@, b.0@))
}

/// The bytes that name a record of namespace `ns` for identifier `id`: `ns ':' hex(id)`.
pub open spec fn namespace_input(ns: Seq<u8>, id: NodeId) -> Seq<u8> {
    ns + seq![58u8] + hex_ascii(id.0@)
}

/// `NamespaceKey(ns, id) = NodeId(H²(ns ':' hex(id)))`.
pub open spec fn namespace_key(ns: Seq<u8>, id: NodeId) -> Seq<u8> {
    double_sha256(namespace_input(ns, id))
}

/// The bytes of the namespace under which a node publishes its chain tip.
pub open spec fn chain_head_ns() -> Seq<u8> {
    seq![99u8, 104, 97, 105, 110, 95, 104, 101, 97, 100]
}

/// The bytes of the namespace under which a bootstrap keeps a pending challenge.
pub open spec fn ticket_ns() -> Seq<u8> {
    seq![116u8, 105, 99, 107, 101, 116]
}

proof fn lemma_be_value_prefix_step(a: Seq<u8>, b: Seq<u8>, n: int)
    requires
        0 < n <= a.len(),
        a.len() == b.len(),
        be_value(a.subrange(0, n - 1)) < be_value(b.subrange(0, n - 1)),
    ensures
        be_value(a.subrange(0, n)) < be_value(b.subrange(0, n)),
{
    assert(a.subrange(0, n).drop_last() =~= a.subrange(0, n - 1));
    assert(b.subrange(0, n).drop_last() =~= b.subrange(0, n - 1));
    let x = be_value(a.subrange(0, n - 1));
    let y = be_value(b.subrange(0, n - 1));
    let c = a[n - 1] as nat;
    let d = b[n - 1] as nat;
    assert(x * 256 + c < y * 256 + d) by (nonlinear_arith)
        requires
            x < y,
            c < 256,
    ;
}

proof fn lemma_be_value_prefix_less(a: Seq<u8>, b: Seq<u8>, k: int, n: int)
    requires
        a.len() == b.len(),
        0 <= k < n <= a.len(),
        forall|j: int| 0 <= j < k ==> a[j] == b[j],
        a[k] < b[k],
    ensures
        be_value(a.subrange(0, n)) < be_value(b.subrange(0, n)),
    decreases n - k,
{
    if n == k + 1 {
        assert(a.subrange(0, k) =~= b.subrange(0, k));
        assert(a.subrange(0, n).drop_last() =~= a.subrange(0, k));
        assert(b.subrange(0, n).drop_last() =~= b.subrange(0, k));
    } else {
        lemma_be_value_prefix_less(a, b, k, n - 1);
        lemma_be_value_prefix_step(a, b, n);
    }
}

/// Where two equal-length byte strings first differ decides their big-endian order.
pub proof fn lemma_be_value_first_difference(a: Seq<u8>, b: Seq<u8>, k: int)
    requires
        a.len() == b.len(),
        0 <= k < a.len(),
        forall|j: int| 0 <= j < k ==> a[j] == b[j],
        a[k] < b[k],
    ensures
        be_value(a) < be_value(b),
{
    lemma_be_value_prefix_less(a, b, k, a.len() as int);
    assert(a.subrange(0, a.len() as int) =~= a);
    assert(b.subrange(0, b.len() as int) =~= b);
}

impl NodeId {
    /// The identifier of a public key: `NodeId = H(public_key)`.
    pub fn new(pub_key: &[u8]) -> (r: NodeId)
        ensures
            r.0@ == sha256_of(pub_key@),
    {
        NodeId(sha256(pub_key))
    }

    /// The key of record `id` in namespace `namespace`.
    pub fn get_namespace_key(namespace: &str, node_id: NodeId) -> (r: NodeId)
        ensures
            r.0@ == namespace_key(namespace.spec_bytes(), node_id),
    {
        Self::namespace_key_of(namespace.as_bytes(), node_id)
    }

    fn namespace_key_of(ns: &[u8], node_id: NodeId) -> (r: NodeId)
        ensures
            r.0@ == namespace_key(ns@, node_id),
    {
        let mut input = slice_to_vec(ns);
        input.push(58u8);
        push_hex(&node_id.0, &mut input);
        assert(input@ =~= namespace_input(ns@, node_id));
        NodeId(double_sha256_of(input.as_slice()))
    }

    /// The key under which node `node_id` publishes its chain tip.
    pub fn create_chain_head(node_id: NodeId) -> (r: NodeId)
        ensures
            r.0@ == namespace_key(chain_head_ns(), node_id),
    {
        let ns: [u8; 10] = [99, 104, 97, 105, 110, 95, 104, 101, 97, 100];
        assert(ns@ =~= chain_head_ns());
        Self::namespace_key_of(&ns, node_id)
    }

    /// The key under which a bootstrap keeps the pending challenge of `node_id`.
    pub fn create_ticket(node_id: NodeId) -> (r: NodeId)
        ensures
            r.0@ == namespace_key(ticket_ns(), node_id),
    {
        let ns: [u8; 6] = [116, 105, 99, 107, 101, 116];
        assert(ns@ =~= ticket_ns());
        Self::namespace_key_of(&ns, node_id)
    }

    /// A random identifier, or `None` when the system has no randomness to give.
    pub fn random() -> (r: Option<NodeId>) {
        match crate::secret_key::os_random_bytes() {
            Some(bytes) => Some(NodeId(bytes)),
            None => None,
        }
    }

    /// The XOR distance between this identifier and `node`.
    pub fn distance(&self, node: &NodeId) -> (r: Distance)
        ensures
            r.0@ == xor_bytes(self.0@, node.0@),
            be_value(r.0@) == id_distance(*self, *node),
    {
        let mut distance = [0u8; 32];
        let mut i: usize = 0;
        while i < 32
            invariant
                i <= 32,
                distance@.len() == 32,
                forall|j: int| 0 <= j < i ==> distance@[j] == self.0@[j] ^ node.0@[j],
            decreases 32 - i,
        {
            distance[i] = self.0[i] ^ node.0[i];
            i = i + 1;
        }
        assert(distance@ =~= xor_bytes(self.0@, node.0@));
        Distance(distance)
    }

    /// The identifier's bytes.
    pub fn to_vec(&self) -> (r: Vec<u8>)
        ensures
            r@ == self.0@,
    {
        slice_to_vec(&self.0)
    }

    /// The identifier held in `value`, which must be exactly 32 bytes long.
    pub fn try_from(value: Vec<u8>) -> (r: Result<NodeId, ()>)
        ensures
            value@.len() == 32 <==> r.is_ok(),
            r matches Ok(id) ==> id.0@ == value@,
    {
        match crate::utils::to_32bytes(value) {
            Some(bytes) => Ok(NodeId(bytes)),
            None => Err(()),
        }
    }
}

/// An XOR distance, compared as a big-endian 256-bit integer.
#[derive(Clone, Copy, Debug)]
pub struct Distance(pub [u8; 32]);

impl Distance {
    /// Whether this distance is strictly smaller than `other`.
    pub fn less_than(&self, other: &Distance) -> (r: bool)
        ensures
            r == (be_value(self.0@) < be_value(other.0@)),
    {
        let mut i: usize = 0;
        while i < 32
            invariant
                i <= 32,
                self.0@.len() == 32,
                other.0@.len() == 32,
                forall|j: int| 0 <= j < i ==> self.0@[j] == other.0@[j],
            decreases 32 - i,
        {
            if self.0[i] != other.0[i] {
                proof {
                    if self.0@[i as int] < other.0@[i as int] {
                        lemma_be_value_first_difference(self.0@, other.0@, i as int);
                    } else {
                        lemma_be_value_first_difference(other.0@, self.0@, i as int);
                    }
                }
                return self.0[i] < other.0[i];
            }
            i = i + 1;
        }
        assert(self.0@ =~= other.0@);
        false
    }
}

} // verus!
