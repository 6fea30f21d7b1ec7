//! The Merkle root of a block's transactions.

use crate::hash_func::{sha256, sha256_of};
use crate::transaction::{tx_bytes, Transaction, TransactionView};
use crate::utils::{hex_ascii, push_hex};
use vstd::prelude::*;

verus! {

/// `H(hex(a) || hex(b))`: the parent of two nodes.
pub open spec fn pair_hash(a: Seq<u8>, b: Seq<u8>) -> Seq<u8> {
    sha256_of(hex_ascii(a) + hex_ascii(b))
}

/// The level above `level`: adjacent pairs hashed together, a last odd node paired with itself.
pub open spec fn next_level(level: Seq<Seq<u8>>) -> Seq<Seq<u8>>
    decreases level.len(),
{
    if level.len() == 0 {
        Seq::empty()
    } else if level.len() == 1 {
        seq![pair_hash(level[0], level[0])]
    } else {
        seq![pair_hash(level[0], level[1])] + next_level(level.subrange(2, level.len() as int))
    }
}

pub proof fn lemma_next_level_len(level: Seq<Seq<u8>>)
    ensures
        next_level(level).len() == (level.len() + 1) / 2,
    decreases level.len(),
{
    if level.len() >= 2 {
        lemma_next_level_len(level.subrange(2, level.len() as int));
    }
}

proof fn lemma_next_level_append_pair(level: Seq<Seq<u8>>, i: int)
    requires
        0 <= i,
        i % 2 == 0,
        i + 2 <= level.len(),
    ensures
        next_level(level.subrange(0, i + 2)) == next_level(level.subrange(0, i)) + seq![
            pair_hash(level[i], level[i + 1]),
        ],
    decreases i,
{
    let a = level.subrange(0, i + 2);
    let p = seq![pair_hash(level[i], level[i + 1])];
    if i == 0 {
        let e = a.subrange(2, 2);
        assert(e.len() == 0);
        assert(next_level(e) =~= Seq::<Seq<u8>>::empty());
        assert(next_level(level.subrange(0, 0)) =~= Seq::<Seq<u8>>::empty());
        assert(next_level(a) =~= seq![pair_hash(a[0], a[1])] + next_level(e));
        assert(next_level(a) =~= next_level(level.subrange(0, i)) + p);
    } else {
        let rest = level.subrange(2, level.len() as int);
        lemma_next_level_append_pair(rest, i - 2);
        assert(a.subrange(2, a.len() as int) =~= rest.subrange(0, i));
        assert(level.subrange(0, i).subrange(2, i) =~= rest.subrange(0, i - 2));
        let head = seq![pair_hash(level[0], level[1])];
        assert(next_level(a) == head + next_level(rest.subrange(0, i)));
        assert(next_level(level.subrange(0, i)) == head + next_level(rest.subrange(0, i - 2)));
        assert(rest[i - 2] == level[i] && rest[i - 1] == level[i + 1]);
        assert(next_level(a) =~= next_level(level.subrange(0, i)) + p);
    }
}

proof fn lemma_next_level_append_single(level: Seq<Seq<u8>>, i: int)
    requires
        0 <= i,
        i % 2 == 0,
        i + 1 == level.len(),
    ensures
        next_level(level) == next_level(level.subrange(0, i)) + seq![pair_hash(level[i], level[i])],
    decreases i,
{
    if i == 0 {
        assert(next_level(level.subrange(0, 0)) =~= Seq::<Seq<u8>>::empty());
    } else {
        let rest = level.subrange(2, level.len() as int);
        lemma_next_level_append_single(rest, i - 2);
        assert(level.subrange(0, i).subrange(2, i) =~= rest.subrange(0, i - 2));
    }
}

/// The Merkle root of a level: the all-zero hash for no leaves, the leaf itself for one.
pub open spec fn merkle_root_of(level: Seq<Seq<u8>>) -> Seq<u8>
    decreases level.len(),
{
    if level.len() == 0 {
        seq![0u8; 32]
    } else if level.len() == 1 {
        level[0]
    } else {
        proof {
            lemma_next_level_len(level);
        }
        merkle_root_of(next_level(level))
    }
}

/// The leaves of a block: the hash of each transaction's canonical bytes.
pub open spec fn leaves_of(txs: Seq<TransactionView>) -> Seq<Seq<u8>> {
    txs.map_values(|t: TransactionView| sha256_of(tx_bytes(t)))
}

/// The view of a level of hashes.
pub open spec fn level_view(level: Seq<[u8; 32]>) -> Seq<Seq<u8>> {
    level.map_values(|h: [u8; 32]| h@)
}

pub struct MerkleTree {
    pub root: [u8; 32],
    pub levels: Vec<Vec<[u8; 32]>>,
}

impl MerkleTree {
    /// The tree over the given transactions, in order.
    pub fn from_transactions(txs: &Vec<Transaction>) -> (r: MerkleTree)
        ensures
            r.root@ == merkle_root_of(leaves_of(txs@.map_values(|t: Transaction| t.view()))),
    {
        let mut leaves: Vec<[u8; 32]> = Vec::new();
        let mut i: usize = 0;
        while i < txs.len()
            invariant
                i <= txs@.len(),
                leaves@.len() == i,
                forall|j: int| 0 <= j < i ==> (#[trigger] leaves@[j])@ == sha256_of(tx_bytes(txs@[j].view())),
            decreases txs@.len() - i,
        {
            let bytes = txs[i].to_bytes();
            leaves.push(sha256(bytes.as_slice()));
            i = i + 1;
        }
        assert(level_view(leaves@) =~= leaves_of(txs@.map_values(|t: Transaction| t.view())));
        Self::build_tree(leaves)
    }

    /// The tree whose lowest level is `current_level`: each level above is the pairwise hash of
    /// the one below (a last odd node paired with itself), up to a level of at most one node.
    pub fn build_tree(current_level: Vec<[u8; 32]>) -> (r: MerkleTree)
        ensures
            r.root@ == merkle_root_of(level_view(current_level@)),
            r.levels@.len() >= 1,
            r.levels@[0]@ == current_level@,
            forall|k: int| 0 <= k < r.levels@.len() - 1 ==> level_view((#[trigger] r.levels@[k + 1])@)
                == next_level(level_view(r.levels@[k]@)),
            r.levels@.last()@.len() <= 1,
            current_level@.len() >= 1 ==> r.levels@.last()@.len() == 1 && r.root == r.levels@.last()@[0],
    {
        let ghost target = merkle_root_of(level_view(current_level@));
        let ghost leaves = current_level@;
        let mut current = current_level;
        let mut levels: Vec<Vec<[u8; 32]>> = Vec::new();
        levels.push(Self::copy_level(&current));
        while current.len() > 1
            invariant
                merkle_root_of(level_view(current@)) == target,
                levels@.len() >= 1,
                levels@[0]@ == leaves,
                levels@.last()@ == current@,
                forall|k: int| 0 <= k < levels@.len() - 1 ==> level_view((#[trigger] levels@[k + 1])@)
                    == next_level(level_view(levels@[k]@)),
                leaves.len() >= 1 ==> current@.len() >= 1,
            decreases current@.len(),
        {
            let next = Self::next_level(&current);
            proof {
                lemma_next_level_len(level_view(current@));
            }
            let ghost prev_levels = levels@;
            current = next;
            levels.push(Self::copy_level(&current));
            assert forall|k: int| 0 <= k < levels@.len() - 1 implies level_view((#[trigger] levels@[k + 1])@)
                == next_level(level_view(levels@[k]@)) by {
                if k < prev_levels.len() - 1 {
                    assert(levels@[k + 1] == prev_levels[k + 1]);
                    assert(levels@[k] == prev_levels[k]);
                } else {
                    assert(levels@[k] == prev_levels.last());
                }
            }
        }
        let root = if current.len() == 0 {
            let zero = [0u8; 32];
            assert(zero@ =~= seq![0u8; 32]);
            zero
        } else {
            current[0]
        };
        MerkleTree { root, levels }
    }

    fn copy_level(level: &Vec<[u8; 32]>) -> (r: Vec<[u8; 32]>)
        ensures
            r@ == level@,
    {
        let mut out: Vec<[u8; 32]> = Vec::new();
        let mut i: usize = 0;
        while i < level.len()
            invariant
                i <= level@.len(),
                out@ == level@.subrange(0, i as int),
            decreases level@.len() - i,
        {
            out.push(level[i]);
            assert(level@.subrange(0, i + 1) =~= level@.subrange(0, i as int).push(level@[i as int]));
            i = i + 1;
        }
        assert(level@.subrange(0, level@.len() as int) =~= level@);
        out
    }

    /// The level above `prev_level`.
    pub fn next_level(prev_level: &Vec<[u8; 32]>) -> (r: Vec<[u8; 32]>)
        ensures
            level_view(r@) == next_level(level_view(prev_level@)),
            r@.len() == (prev_level@.len() + 1) / 2,
    {
        let ghost lv = level_view(prev_level@);
        let mut out: Vec<[u8; 32]> = Vec::new();
        let mut i: usize = 0;
        while i + 1 < prev_level.len()
            invariant
                i % 2 == 0,
                i <= prev_level@.len(),
                lv == level_view(prev_level@),
                level_view(out@) == next_level(lv.subrange(0, i as int)),
            decreases prev_level@.len() - i,
        {
            let h = Self::hash_pair(&prev_level[i], &prev_level[i + 1]);
            proof {
                lemma_next_level_append_pair(lv, i as int);
            }
            out.push(h);
            assert(level_view(out@) =~= next_level(lv.subrange(0, i as int + 2)));
            i = i + 2;
        }
        if i < prev_level.len() {
            let h = Self::hash_pair(&prev_level[i], &prev_level[i]);
            proof {
                lemma_next_level_append_single(lv, i as int);
            }
            out.push(h);
            assert(level_view(out@) =~= next_level(lv));
        } else {
            assert(lv.subrange(0, i as int) =~= lv);
        }
        proof {
            lemma_next_level_len(lv);
        }
        out
    }

    fn hash_pair(a: &[u8; 32], b: &[u8; 32]) -> (r: [u8; 32])
        ensures
            r@ == pair_hash(a@, b@),
    {
        let mut input: Vec<u8> = Vec::new();
        push_hex(a, &mut input);
        push_hex(b, &mut input);
        assert(input@ =~= hex_ascii(a@) + hex_ascii(b@));
        sha256(input.as_slice())
    }
}

} // verus!
