//! The byte format of DHT values: a tag byte, then fixed-width little-endian fields.

use crate::block::{Block, BlockView};
use crate::chain::{BlockChain, DEFAULT_DIFFICULTY};
use crate::transaction_pool::TransactionPool;
use crate::block_header::BlockHeader;
use crate::data::{DataView, KademliaData, Ticket};
use crate::encoding::{le_bytes, le_value, lemma_le_bytes_len, lemma_le_bytes_of_value, lemma_le_round_trip, lemma_le_value_bound, lemma_pow256_values, pow256, push_le, read_le};
use crate::signature::Signature;
use crate::transaction::{tx_bytes, Transaction, TransactionView};
use vstd::prelude::*;

verus! {

/// The bytes of an optional signature: 0, or 1 followed by the signature and the signer key.
pub open spec fn sig_bytes(s: Option<Signature>) -> Seq<u8> {
    match s {
        None => seq![0u8],
        Some(sig) => seq![1u8] + sig.signature@ + sig.pub_key@,
    }
}

/// The bytes of a header: index (8), difficulty (4), timestamp (16), Merkle root, nonce (4),
/// previous hash, hash, signature.
pub open spec fn header_bytes(h: BlockHeader) -> Seq<u8> {
    le_bytes(h.index as nat, 8) + le_bytes(h.difficulty as nat, 4) + le_bytes(h.timestamp as nat, 16)
        + h.merkle_root@ + le_bytes(h.nonce as nat, 4) + h.prev_hash@ + h.hash@ + sig_bytes(h.signature)
}

/// The bytes of transactions, one after another.
pub open spec fn txs_bytes(s: Seq<TransactionView>) -> Seq<u8>
    decreases s.len(),
{
    if s.len() == 0 {
        Seq::empty()
    } else {
        txs_bytes(s.drop_last()) + tx_bytes(s.last())
    }
}

/// The bytes of a block: header, number of transactions (8), transactions.
pub open spec fn block_bytes(b: BlockView) -> Seq<u8> {
    header_bytes(b.header) + le_bytes(b.transactions.len(), 8) + txs_bytes(b.transactions)
}

/// The bytes of a stored value: tag 0 for a block, 1 for a header, 2 for a challenge.
pub open spec fn data_bytes(d: DataView) -> Seq<u8> {
    match d {
        DataView::Block(b) => seq![0u8] + block_bytes(b),
        DataView::Header(h) => seq![1u8] + header_bytes(h),
        DataView::Ticket(t) => seq![2u8] + le_bytes(t.nonce as nat, 4) + le_bytes(t.difficulty as nat, 4),
    }
}

/// `bytes` holds `s` from `pos`.
pub open spec fn at(bytes: Seq<u8>, pos: int, s: Seq<u8>) -> bool {
    0 <= pos && pos + s.len() <= bytes.len() && bytes.subrange(pos, pos + s.len()) == s
}

proof fn lemma_at_split(bytes: Seq<u8>, pos: int, a: Seq<u8>, b: Seq<u8>)
    requires
        at(bytes, pos, a + b),
    ensures
        at(bytes, pos, a),
        at(bytes, pos + a.len(), b),
{
    let whole = bytes.subrange(pos, pos + (a + b).len());
    assert(whole == a + b);
    assert(bytes.subrange(pos, pos + a.len()) =~= whole.subrange(0, a.len() as int));
    assert(whole.subrange(0, a.len() as int) =~= a);
    assert(bytes.subrange(pos + a.len(), pos + a.len() + b.len()) =~= whole.subrange(a.len() as int, (a + b).len() as int));
    assert(whole.subrange(a.len() as int, (a + b).len() as int) =~= b);
}

proof fn lemma_at_join(bytes: Seq<u8>, pos: int, a: Seq<u8>, b: Seq<u8>)
    requires
        at(bytes, pos, a),
        at(bytes, pos + a.len(), b),
    ensures
        at(bytes, pos, a + b),
{
    assert(bytes.subrange(pos, pos + (a + b).len()) =~= a + b) by {
        assert forall|i: int| 0 <= i < (a + b).len() implies bytes.subrange(pos, pos + (a + b).len())[i] == (a + b)[i] by {
            if i < a.len() {
                assert(bytes.subrange(pos, pos + a.len())[i] == a[i]);
            } else {
                assert(bytes.subrange(pos + a.len(), pos + a.len() + b.len())[i - a.len()] == b[i - a.len()]);
            }
        }
    }
}

/// `bytes` holds at `pos` the `n` little-endian bytes of the value read there.
proof fn lemma_at_read(bytes: Seq<u8>, pos: int, n: nat)
    requires
        0 <= pos,
        pos + n <= bytes.len(),
    ensures
        at(bytes, pos, le_bytes(le_value(bytes.subrange(pos, pos + n)), n)),
{
    lemma_le_bytes_of_value(bytes.subrange(pos, pos + n));
}

proof fn lemma_at_slice(bytes: Seq<u8>, pos: int, n: int)
    requires
        0 <= pos,
        0 <= n,
        pos + n <= bytes.len(),
    ensures
        at(bytes, pos, bytes.subrange(pos, pos + n)),
{
}

proof fn lemma_txs_bytes_prefix(s: Seq<TransactionView>, i: int)
    requires
        0 <= i <= s.len(),
    ensures
        txs_bytes(s) == txs_bytes(s.subrange(0, i)) + txs_bytes(s.subrange(i, s.len() as int)),
    decreases s.len() - i,
{
    if i == s.len() {
        assert(s.subrange(0, i) =~= s);
        assert(txs_bytes(s.subrange(i, s.len() as int)) =~= Seq::<u8>::empty());
        assert(txs_bytes(s) + Seq::<u8>::empty() =~= txs_bytes(s));
    } else {
        lemma_txs_bytes_prefix(s, i + 1);
        let rest = s.subrange(i, s.len() as int);
        lemma_txs_bytes_first(rest);
        assert(rest.subrange(1, rest.len() as int) =~= s.subrange(i + 1, s.len() as int));
        assert(s.subrange(0, i + 1).drop_last() =~= s.subrange(0, i));
        assert(txs_bytes(s.subrange(0, i + 1)) == txs_bytes(s.subrange(0, i)) + tx_bytes(s[i]));
        assert(txs_bytes(s) =~= txs_bytes(s.subrange(0, i)) + txs_bytes(rest));
    }
}

proof fn lemma_txs_bytes_first(s: Seq<TransactionView>)
    requires
        s.len() > 0,
    ensures
        txs_bytes(s) == tx_bytes(s[0]) + txs_bytes(s.subrange(1, s.len() as int)),
    decreases s.len(),
{
    if s.len() == 1 {
        assert(s.drop_last() =~= Seq::<TransactionView>::empty());
        assert(s.subrange(1, 1) =~= Seq::<TransactionView>::empty());
        assert(txs_bytes(s) =~= tx_bytes(s[0]) + txs_bytes(s.subrange(1, s.len() as int)));
    } else {
        lemma_txs_bytes_first(s.drop_last());
        assert(s.drop_last().subrange(1, s.len() - 1) =~= s.subrange(1, s.len() as int).drop_last());
        assert(s.subrange(1, s.len() as int).last() == s.last());
        assert(txs_bytes(s) =~= tx_bytes(s[0]) + txs_bytes(s.subrange(1, s.len() as int)));
    }
}

fn push_bytes(src: &[u8], out: &mut Vec<u8>)
    ensures
        final(out)@ == old(out)@ + src@,
{
    let mut i: usize = 0;
    while i < src.len()
        invariant
            i <= src@.len(),
            out@ == old(out)@ + src@.subrange(0, i as int),
        decreases src@.len() - i,
    {
        out.push(src[i]);
        i = i + 1;
    }
    assert(src@.subrange(0, src@.len() as int) =~= src@);
}

fn encode_header(h: &BlockHeader, out: &mut Vec<u8>)
    ensures
        final(out)@ == old(out)@ + header_bytes(*h),
{
    push_le(h.index as u128, 8, out);
    push_le(h.difficulty as u128, 4, out);
    push_le(h.timestamp, 16, out);
    push_bytes(&h.merkle_root, out);
    push_le(h.nonce as u128, 4, out);
    push_bytes(&h.prev_hash, out);
    push_bytes(&h.hash, out);
    match h.signature {
        None => out.push(0u8),
        Some(s) => {
            out.push(1u8);
            push_bytes(&s.signature, out);
            push_bytes(&s.pub_key, out);
        },
    }
    assert(out@ =~= old(out)@ + header_bytes(*h));
}

fn read_array32(bytes: &[u8], pos: usize) -> (r: [u8; 32])
    requires
        pos + 32 <= bytes@.len(),
    ensures
        r@ == bytes@.subrange(pos as int, pos + 32),
{
    let len = bytes.len();
    let mut a = [0u8; 32];
    let mut i: usize = 0;
    while i < 32
        invariant
            i <= 32,
            pos + 32 <= bytes@.len(),
            len == bytes@.len(),
            a@.len() == 32,
            forall|j: int| 0 <= j < i ==> a@[j] == bytes@[pos + j],
        decreases 32 - i,
    {
        a[i] = bytes[pos + i];
        i = i + 1;
    }
    assert(a@ =~= bytes@.subrange(pos as int, pos + 32));
    a
}

fn read_array64(bytes: &[u8], pos: usize) -> (r: [u8; 64])
    requires
        pos + 64 <= bytes@.len(),
    ensures
        r@ == bytes@.subrange(pos as int, pos + 64),
{
    let len = bytes.len();
    let mut a = [0u8; 64];
    let mut i: usize = 0;
    while i < 64
        invariant
            i <= 64,
            pos + 64 <= bytes@.len(),
            len == bytes@.len(),
            a@.len() == 64,
            forall|j: int| 0 <= j < i ==> a@[j] == bytes@[pos + j],
        decreases 64 - i,
    {
        a[i] = bytes[pos + i];
        i = i + 1;
    }
    assert(a@ =~= bytes@.subrange(pos as int, pos + 64));
    a
}

/// Reads `n` little-endian bytes at `pos`; every value below `256^n` written there reads back.
fn parse_uint(bytes: &[u8], pos: usize, n: usize) -> (r: Option<u128>)
    requires
        n <= 16,
    ensures
        r matches Some(x) ==> pos + n <= bytes@.len() && x == le_value(bytes@.subrange(pos as int, pos + n))
            && at(bytes@, pos as int, le_bytes(x as nat, n as nat)),
        forall|v: nat| v < pow256(n as nat) && #[trigger] at(bytes@, pos as int, le_bytes(v, n as nat))
            ==> r == Some(v as u128),
{
    let len = bytes.len();
    if pos > len || n > len - pos {
        proof {
            assert forall|v: nat| v < pow256(n as nat) && #[trigger] at(bytes@, pos as int, le_bytes(v, n as nat))
                implies false by {
                lemma_le_bytes_len(v, n as nat);
            }
        }
        return None;
    }
    let x = read_le(bytes, pos, n);
    proof {
        lemma_at_read(bytes@, pos as int, n as nat);
        assert forall|v: nat| v < pow256(n as nat) && #[trigger] at(bytes@, pos as int, le_bytes(v, n as nat))
            implies Some(x) == Some(v as u128) by {
            lemma_le_round_trip(v, n as nat);
        }
    }
    Some(x)
}


proof fn lemma_header_fields(bytes: Seq<u8>, pos: int, h: BlockHeader)
    requires
        at(bytes, pos, header_bytes(h)),
    ensures
        pos + 129 <= bytes.len(),
        le_value(bytes.subrange(pos, pos + 8)) == h.index,
        le_value(bytes.subrange(pos + 8, pos + 12)) == h.difficulty,
        le_value(bytes.subrange(pos + 12, pos + 28)) == h.timestamp,
        bytes.subrange(pos + 28, pos + 60) == h.merkle_root@,
        le_value(bytes.subrange(pos + 60, pos + 64)) == h.nonce,
        bytes.subrange(pos + 64, pos + 96) == h.prev_hash@,
        bytes.subrange(pos + 96, pos + 128) == h.hash@,
        at(bytes, pos + 128, sig_bytes(h.signature)),
        header_bytes(h).len() == 128 + sig_bytes(h.signature).len(),
{
    lemma_pow256_values();
    lemma_le_round_trip(h.index as nat, 8);
    lemma_le_round_trip(h.difficulty as nat, 4);
    lemma_le_round_trip(h.timestamp as nat, 16);
    lemma_le_round_trip(h.nonce as nat, 4);
    let a = le_bytes(h.index as nat, 8);
    let b = le_bytes(h.difficulty as nat, 4);
    let c = le_bytes(h.timestamp as nat, 16);
    let d = h.merkle_root@;
    let e = le_bytes(h.nonce as nat, 4);
    let f = h.prev_hash@;
    let g = h.hash@;
    let sg = sig_bytes(h.signature);
    assert(header_bytes(h) == a + b + c + d + e + f + g + sg);
    lemma_at_split(bytes, pos, a + b + c + d + e + f + g, sg);
    lemma_at_split(bytes, pos, a + b + c + d + e + f, g);
    lemma_at_split(bytes, pos, a + b + c + d + e, f);
    lemma_at_split(bytes, pos, a + b + c + d, e);
    lemma_at_split(bytes, pos, a + b + c, d);
    lemma_at_split(bytes, pos, a + b, c);
    lemma_at_split(bytes, pos, a, b);
    if h.signature is Some {
        assert(sg.len() == 97);
    }
}

/// Reads a header at `pos`; a header written there reads back, with the position after it.
fn parse_header(bytes: &[u8], pos: usize) -> (r: Option<(BlockHeader, usize)>)
    ensures
        r matches Some((h, p)) ==> pos < p <= bytes@.len() && at(bytes@, pos as int, header_bytes(h))
            && p == pos + header_bytes(h).len(),
        forall|h: BlockHeader| #[trigger] at(bytes@, pos as int, header_bytes(h))
            ==> r == Some((h, (pos + header_bytes(h).len()) as usize)),
{
    let len = bytes.len();
    if pos > len || 129 > len - pos {
        proof {
            assert forall|h: BlockHeader| #[trigger] at(bytes@, pos as int, header_bytes(h)) implies false by {
                lemma_header_fields(bytes@, pos as int, h);
            }
        }
        return None;
    }
    proof { lemma_pow256_values(); }
    let index = read_le(bytes, pos, 8);
    let difficulty = read_le(bytes, pos + 8, 4);
    let timestamp = read_le(bytes, pos + 12, 16);
    let merkle_root = read_array32(bytes, pos + 28);
    let nonce = read_le(bytes, pos + 60, 4);
    let prev_hash = read_array32(bytes, pos + 64);
    let hash = read_array32(bytes, pos + 96);
    proof {
        crate::encoding::lemma_le_value_bound(bytes@.subrange(pos as int, pos + 8));
        crate::encoding::lemma_le_value_bound(bytes@.subrange(pos + 8, pos + 12));
        crate::encoding::lemma_le_value_bound(bytes@.subrange(pos + 60, pos + 64));
    }
    let tag = bytes[pos + 128];
    let (signature, end) = if tag == 0 {
        (None, pos + 129)
    } else if tag == 1 && 97 <= len - pos - 128 {
        let sig = read_array64(bytes, pos + 129);
        let key = read_array32(bytes, pos + 193);
        (Some(Signature { signature: sig, pub_key: key }), pos + 225)
    } else {
        proof {
            assert forall|h: BlockHeader| #[trigger] at(bytes@, pos as int, header_bytes(h)) implies false by {
                lemma_header_fields(bytes@, pos as int, h);
                assert(bytes@.subrange(pos + 128, pos + 128 + sig_bytes(h.signature).len())[0] == bytes@[pos + 128]);
            }
        }
        return None;
    };
    let header = BlockHeader {
        index: index as u64,
        difficulty: difficulty as u32,
        timestamp,
        merkle_root,
        nonce: nonce as u32,
        prev_hash,
        hash,
        signature,
    };
    proof {
        let b = bytes@;
        let q = pos as int;
        lemma_at_read(b, q, 8);
        lemma_at_read(b, q + 8, 4);
        lemma_at_read(b, q + 12, 16);
        lemma_at_slice(b, q + 28, 32);
        lemma_at_read(b, q + 60, 4);
        lemma_at_slice(b, q + 64, 32);
        lemma_at_slice(b, q + 96, 32);
        let sa = le_bytes(header.index as nat, 8);
        let sb = le_bytes(header.difficulty as nat, 4);
        let sc = le_bytes(header.timestamp as nat, 16);
        let sd = header.merkle_root@;
        let se = le_bytes(header.nonce as nat, 4);
        let sf = header.prev_hash@;
        let sg = header.hash@;
        let ss = sig_bytes(header.signature);
        lemma_le_bytes_len(header.index as nat, 8);
        lemma_le_bytes_len(header.difficulty as nat, 4);
        lemma_le_bytes_len(header.timestamp as nat, 16);
        lemma_le_bytes_len(header.nonce as nat, 4);
        if tag == 0 {
            assert(b.subrange(q + 128, q + 129) =~= seq![0u8]);
        } else {
            lemma_at_slice(b, q + 129, 64);
            lemma_at_slice(b, q + 193, 32);
            assert(b.subrange(q + 128, q + 129) =~= seq![1u8]);
            lemma_at_join(b, q + 128, seq![1u8], header.signature.unwrap().signature@);
            lemma_at_join(b, q + 128, seq![1u8] + header.signature.unwrap().signature@, header.signature.unwrap().pub_key@);
            assert(ss =~= seq![1u8] + header.signature.unwrap().signature@ + header.signature.unwrap().pub_key@);
        }
        lemma_at_join(b, q, sa, sb);
        lemma_at_join(b, q, sa + sb, sc);
        lemma_at_join(b, q, sa + sb + sc, sd);
        lemma_at_join(b, q, sa + sb + sc + sd, se);
        lemma_at_join(b, q, sa + sb + sc + sd + se, sf);
        lemma_at_join(b, q, sa + sb + sc + sd + se + sf, sg);
        lemma_at_join(b, q, sa + sb + sc + sd + se + sf + sg, ss);
        assert(header_bytes(header) == sa + sb + sc + sd + se + sf + sg + ss);
    }
    proof {
        assert forall|h: BlockHeader| #[trigger] at(bytes@, pos as int, header_bytes(h))
            implies Some((header, end)) == Some((h, (pos + header_bytes(h).len()) as usize)) by {
            lemma_header_fields(bytes@, pos as int, h);
            let sg = sig_bytes(h.signature);
            assert(bytes@.subrange(pos + 128, pos + 128 + sg.len())[0] == bytes@[pos + 128]);
            assert(header.merkle_root =~= h.merkle_root);
            assert(header.prev_hash =~= h.prev_hash);
            assert(header.hash =~= h.hash);
            if let Some(s) = h.signature {
                let body = s.signature@ + s.pub_key@;
                assert(sg =~= seq![1u8] + body);
                lemma_at_split(bytes@, pos + 128, seq![1u8], body);
                lemma_at_split(bytes@, pos + 129, s.signature@, s.pub_key@);
                let hs = header.signature.unwrap();
                assert(hs.signature =~= s.signature);
                assert(hs.pub_key =~= s.pub_key);
            }
        }
    }
    Some((header, end))
}

proof fn lemma_i64_bits(x: i64)
    ensures
        ((x as u64) as i64) == x,
{
    assert(((x as u64) as i64) == x) by (bit_vector);
}

proof fn lemma_u64_bits(x: u64)
    ensures
        ((x as i64) as u64) == x,
{
    assert(((x as i64) as u64) == x) by (bit_vector);
}

proof fn lemma_tx_fields(bytes: Seq<u8>, pos: int, t: TransactionView)
    requires
        at(bytes, pos, tx_bytes(t)),
        bytes.len() <= u64::MAX,
    ensures
        pos + 40 + t.data.len() + 108 <= bytes.len(),
        tx_bytes(t).len() == 148 + t.data.len(),
        bytes.subrange(pos, pos + 32) == t.from@,
        le_value(bytes.subrange(pos + 32, pos + 40)) == t.data.len(),
        bytes.subrange(pos + 40, pos + 40 + t.data.len()) == t.data,
        bytes.subrange(pos + 40 + t.data.len(), pos + 104 + t.data.len()) == t.signature.signature@,
        bytes.subrange(pos + 104 + t.data.len(), pos + 136 + t.data.len()) == t.signature.pub_key@,
        le_value(bytes.subrange(pos + 136 + t.data.len(), pos + 140 + t.data.len())) == t.nonce,
        le_value(bytes.subrange(pos + 140 + t.data.len(), pos + 148 + t.data.len())) == t.timestamp as u64,
{
    lemma_pow256_values();
    assert(t.data.len() < pow256(8)) by {
        assert(t.data.len() <= bytes.len());
    }
    lemma_le_round_trip(t.data.len(), 8);
    lemma_le_round_trip(t.nonce as nat, 4);
    lemma_le_round_trip((t.timestamp as u64) as nat, 8);
    let a = t.from@;
    let b = le_bytes(t.data.len(), 8);
    let c = t.data;
    let d = t.signature.signature@;
    let e = t.signature.pub_key@;
    let f = le_bytes(t.nonce as nat, 4);
    let g = le_bytes((t.timestamp as u64) as nat, 8);
    assert(tx_bytes(t) == a + b + c + d + e + f + g);
    lemma_at_split(bytes, pos, a + b + c + d + e + f, g);
    lemma_at_split(bytes, pos, a + b + c + d + e, f);
    lemma_at_split(bytes, pos, a + b + c + d, e);
    lemma_at_split(bytes, pos, a + b + c, d);
    lemma_at_split(bytes, pos, a + b, c);
    lemma_at_split(bytes, pos, a, b);
}

fn copy_range(bytes: &[u8], from: usize, n: usize) -> (r: Vec<u8>)
    requires
        from + n <= bytes@.len(),
    ensures
        r@ == bytes@.subrange(from as int, from + n),
{
    let len = bytes.len();
    let mut out: Vec<u8> = Vec::new();
    let mut i: usize = 0;
    while i < n
        invariant
            i <= n,
            from + n <= bytes@.len(),
            len == bytes@.len(),
            out@ == bytes@.subrange(from as int, from + i),
        decreases n - i,
    {
        out.push(bytes[from + i]);
        assert(bytes@.subrange(from as int, from + i + 1) =~= bytes@.subrange(from as int, from + i).push(bytes@[from + i]));
        i = i + 1;
    }
    out
}

/// Reads a transaction at `pos`; a transaction written there reads back, with the position
/// after it.
fn parse_tx(bytes: &[u8], pos: usize) -> (r: Option<(Transaction, usize)>)
    ensures
        r matches Some((x, p)) ==> pos < p <= bytes@.len() && at(bytes@, pos as int, tx_bytes(x.view()))
            && p == pos + tx_bytes(x.view()).len(),
        forall|t: TransactionView| #[trigger] at(bytes@, pos as int, tx_bytes(t))
            ==> (r matches Some((x, p)) && x.view() == t && p == pos + tx_bytes(t).len()),
{
    let len = bytes.len();
    if pos > len || 40 > len - pos {
        proof {
            assert forall|t: TransactionView| #[trigger] at(bytes@, pos as int, tx_bytes(t)) implies false by {
                lemma_tx_fields(bytes@, pos as int, t);
            }
        }
        return None;
    }
    proof { lemma_pow256_values(); }
    let from = read_array32(bytes, pos);
    let dlen = read_le(bytes, pos + 32, 8);
    if dlen > (len - pos - 40) as u128 || 108 > len - pos - 40 - (dlen as usize) {
        proof {
            assert forall|t: TransactionView| #[trigger] at(bytes@, pos as int, tx_bytes(t)) implies false by {
                lemma_tx_fields(bytes@, pos as int, t);
            }
        }
        return None;
    }
    let n = dlen as usize;
    let data = copy_range(bytes, pos + 40, n);
    let sig = read_array64(bytes, pos + 40 + n);
    let key = read_array32(bytes, pos + 104 + n);
    let nonce = read_le(bytes, pos + 136 + n, 4);
    let ts = read_le(bytes, pos + 140 + n, 8);
    proof {
        crate::encoding::lemma_le_value_bound(bytes@.subrange(pos + 136 + n, pos + 140 + n));
        crate::encoding::lemma_le_value_bound(bytes@.subrange(pos + 140 + n, pos + 148 + n));
    }
    let tx = Transaction {
        from,
        data,
        signature: Signature { signature: sig, pub_key: key },
        nonce: nonce as u32,
        timestamp: (ts as u64) as i64,
    };
    let end = pos + 148 + n;
    proof {
        let b = bytes@;
        let q = pos as int;
        let t = tx.view();
        lemma_at_slice(b, q, 32);
        lemma_at_read(b, q + 32, 8);
        lemma_at_slice(b, q + 40, n as int);
        lemma_at_slice(b, q + 40 + n, 64);
        lemma_at_slice(b, q + 104 + n, 32);
        lemma_at_read(b, q + 136 + n, 4);
        lemma_at_read(b, q + 140 + n, 8);
        lemma_u64_bits(ts as u64);
        let sa = t.from@;
        let sb = le_bytes(t.data.len(), 8);
        let sc = t.data;
        let sd = t.signature.signature@;
        let se = t.signature.pub_key@;
        let sf = le_bytes(t.nonce as nat, 4);
        let sg = le_bytes((t.timestamp as u64) as nat, 8);
        lemma_le_bytes_len(t.data.len(), 8);
        lemma_le_bytes_len(t.nonce as nat, 4);
        lemma_at_join(b, q, sa, sb);
        lemma_at_join(b, q, sa + sb, sc);
        lemma_at_join(b, q, sa + sb + sc, sd);
        lemma_at_join(b, q, sa + sb + sc + sd, se);
        lemma_at_join(b, q, sa + sb + sc + sd + se, sf);
        lemma_at_join(b, q, sa + sb + sc + sd + se + sf, sg);
        assert(tx_bytes(t) == sa + sb + sc + sd + se + sf + sg);
    }
    proof {
        assert forall|t: TransactionView| #[trigger] at(bytes@, pos as int, tx_bytes(t))
            implies (Some((tx, end)) matches Some((x, p)) && x.view() == t && p == pos + tx_bytes(t).len()) by {
            lemma_tx_fields(bytes@, pos as int, t);
            lemma_i64_bits(t.timestamp);
            assert(tx.from =~= t.from);
            assert(tx.signature.signature =~= t.signature.signature);
            assert(tx.signature.pub_key =~= t.signature.pub_key);
            assert(((t.timestamp as u64) as i64) == t.timestamp);
            assert(tx.view().data =~= t.data);
        }
    }
    Some((tx, end))
}

/// Reads a block at `pos`; a block written there reads back, with the position after it.
fn parse_block(bytes: &[u8], pos: usize) -> (r: Option<(Block, usize)>)
    ensures
        r matches Some((x, p)) ==> pos < p <= bytes@.len() && at(bytes@, pos as int, block_bytes(x.view()))
            && p == pos + block_bytes(x.view()).len(),
        forall|b: BlockView| #[trigger] at(bytes@, pos as int, block_bytes(b))
            ==> (r matches Some((x, p)) && x.view() == b && p == pos + block_bytes(b).len()),
{
    let len = bytes.len();
    let Some((header, p0)) = parse_header(bytes, pos) else {
        proof {
            assert forall|b: BlockView| #[trigger] at(bytes@, pos as int, block_bytes(b)) implies false by {
                lemma_at_split(bytes@, pos as int, header_bytes(b.header) + le_bytes(b.transactions.len(), 8), txs_bytes(b.transactions));
                lemma_at_split(bytes@, pos as int, header_bytes(b.header), le_bytes(b.transactions.len(), 8));
            }
        }
        return None;
    };
    let Some(count) = parse_uint(bytes, p0, 8) else {
        proof {
            assert forall|b: BlockView| #[trigger] at(bytes@, pos as int, block_bytes(b)) implies false by {
                lemma_at_split(bytes@, pos as int, header_bytes(b.header) + le_bytes(b.transactions.len(), 8), txs_bytes(b.transactions));
                lemma_at_split(bytes@, pos as int, header_bytes(b.header), le_bytes(b.transactions.len(), 8));
                lemma_pow256_values();
                lemma_txs_len_bound(b.transactions);
                assert(b.transactions.len() < pow256(8));
            }
        }
        return None;
    };
    proof {
        assert forall|b: BlockView| #[trigger] at(bytes@, pos as int, block_bytes(b))
            implies header == b.header && count == b.transactions.len()
                && at(bytes@, p0 + 8, txs_bytes(b.transactions)) by {
            lemma_at_split(bytes@, pos as int, header_bytes(b.header) + le_bytes(b.transactions.len(), 8), txs_bytes(b.transactions));
            lemma_at_split(bytes@, pos as int, header_bytes(b.header), le_bytes(b.transactions.len(), 8));
            lemma_pow256_values();
            lemma_txs_len_bound(b.transactions);
            lemma_le_bytes_len(b.transactions.len(), 8);
        }
    }
    let mut p = p0 + 8;
    let mut txs: Vec<Transaction> = Vec::new();
    let mut i: u128 = 0;
    assert(crate::block::txs_view(txs@) =~= Seq::<TransactionView>::empty());
    assert(bytes@.subrange(p0 + 8, p0 + 8) =~= Seq::<u8>::empty());
    while i < count
        invariant
            p0 + 8 <= p <= bytes@.len(),
            i <= count,
            txs@.len() == i,
            at(bytes@, p0 + 8, txs_bytes(crate::block::txs_view(txs@))),
            p == p0 + 8 + txs_bytes(crate::block::txs_view(txs@)).len(),
            forall|b: BlockView| #[trigger] at(bytes@, pos as int, block_bytes(b)) ==> {
                &&& header == b.header && count == b.transactions.len()
                &&& at(bytes@, p0 + 8, txs_bytes(b.transactions))
                &&& crate::block::txs_view(txs@) == b.transactions.subrange(0, i as int)
                &&& p == p0 + 8 + txs_bytes(b.transactions.subrange(0, i as int)).len()
            },
        decreases count - i,
    {
        let Some((tx, next)) = parse_tx(bytes, p) else {
            proof {
                assert forall|b: BlockView| #[trigger] at(bytes@, pos as int, block_bytes(b)) implies false by {
                    let s = b.transactions;
                    lemma_txs_bytes_prefix(s, i as int);
                    lemma_at_split(bytes@, p0 + 8, txs_bytes(s.subrange(0, i as int)), txs_bytes(s.subrange(i as int, s.len() as int)));
                    lemma_txs_bytes_first(s.subrange(i as int, s.len() as int));
                    assert(s.subrange(i as int, s.len() as int)[0] == s[i as int]);
                    assert(s.subrange(i as int, s.len() as int).subrange(1, s.len() - i) =~= s.subrange(i + 1, s.len() as int));
                    lemma_at_split(bytes@, p as int, tx_bytes(s[i as int]), txs_bytes(s.subrange(i + 1, s.len() as int)));
                }
            }
            return None;
        };
        let ghost old_txs = txs@;
        txs.push(tx);
        proof {
            assert forall|b: BlockView| #[trigger] at(bytes@, pos as int, block_bytes(b)) implies
                crate::block::txs_view(txs@) == b.transactions.subrange(0, i + 1)
                && next == p0 + 8 + txs_bytes(b.transactions.subrange(0, i + 1)).len() by {
                let s = b.transactions;
                lemma_txs_bytes_prefix(s, i as int);
                lemma_at_split(bytes@, p0 + 8, txs_bytes(s.subrange(0, i as int)), txs_bytes(s.subrange(i as int, s.len() as int)));
                lemma_txs_bytes_first(s.subrange(i as int, s.len() as int));
                assert(s.subrange(i as int, s.len() as int)[0] == s[i as int]);
                assert(s.subrange(i as int, s.len() as int).subrange(1, s.len() - i) =~= s.subrange(i + 1, s.len() as int));
                lemma_at_split(bytes@, p as int, tx_bytes(s[i as int]), txs_bytes(s.subrange(i + 1, s.len() as int)));
                assert(crate::block::txs_view(txs@) =~= crate::block::txs_view(old_txs).push(tx.view()));
                assert(s.subrange(0, i + 1) =~= s.subrange(0, i as int).push(s[i as int]));
                assert(s.subrange(0, i + 1).drop_last() =~= s.subrange(0, i as int));
            }
            let tv = crate::block::txs_view(txs@);
            assert(tv.drop_last() =~= crate::block::txs_view(old_txs));
            assert(tv.last() == tx.view());
            lemma_at_join(bytes@, p0 + 8, txs_bytes(crate::block::txs_view(old_txs)), tx_bytes(tx.view()));
        }
        p = next;
        i = i + 1;
    }
    let block = Block { header, transactions: txs };
    proof {
        let bv = block.view();
        lemma_le_bytes_len(count as nat, 8);
        lemma_at_join(bytes@, pos as int, header_bytes(header), le_bytes(count as nat, 8));
        lemma_at_join(bytes@, pos as int, header_bytes(header) + le_bytes(count as nat, 8), txs_bytes(bv.transactions));
        assert(bv.transactions.len() == count);
    }
    proof {
        assert forall|b: BlockView| #[trigger] at(bytes@, pos as int, block_bytes(b))
            implies (Some((block, p)) matches Some((x, q)) && x.view() == b && q == pos + block_bytes(b).len()) by {
            assert(b.transactions.subrange(0, b.transactions.len() as int) =~= b.transactions);
            lemma_le_bytes_len(b.transactions.len(), 8);
            lemma_at_split(bytes@, pos as int, header_bytes(b.header) + le_bytes(b.transactions.len(), 8), txs_bytes(b.transactions));
            lemma_at_split(bytes@, pos as int, header_bytes(b.header), le_bytes(b.transactions.len(), 8));
        }
    }
    Some((block, p))
}

proof fn lemma_txs_len_bound(s: Seq<TransactionView>)
    ensures
        s.len() <= txs_bytes(s).len(),
    decreases s.len(),
{
    if s.len() > 0 {
        lemma_txs_len_bound(s.drop_last());
    }
}

fn encode_tx(t: &Transaction, out: &mut Vec<u8>)
    ensures
        final(out)@ == old(out)@ + tx_bytes(t.view()),
{
    let bytes = t.to_bytes();
    push_bytes(bytes.as_slice(), out);
}

impl KademliaData {
    /// The bytes of this value: a tag byte, then its fields.
    pub fn encode(&self) -> (r: Vec<u8>)
        ensures
            r@ == data_bytes(self.view()),
    {
        let mut out: Vec<u8> = Vec::new();
        match self {
            KademliaData::Block(b) => {
                out.push(0u8);
                encode_header(&b.header, &mut out);
                push_le(b.transactions.len() as u128, 8, &mut out);
                let ghost start = out@;
                let mut i: usize = 0;
                while i < b.transactions.len()
                    invariant
                        i <= b.transactions@.len(),
                        out@ == start + txs_bytes(crate::block::txs_view(b.transactions@).subrange(0, i as int)),
                    decreases b.transactions@.len() - i,
                {
                    encode_tx(&b.transactions[i], &mut out);
                    proof {
                        let s = crate::block::txs_view(b.transactions@);
                        assert(s.subrange(0, i + 1).drop_last() =~= s.subrange(0, i as int));
                    }
                    i = i + 1;
                }
                proof {
                    let s = crate::block::txs_view(b.transactions@);
                    assert(s.subrange(0, s.len() as int) =~= s);
                }
                assert(out@ =~= data_bytes(self.view()));
            },
            KademliaData::Header(h) => {
                out.push(1u8);
                encode_header(h, &mut out);
                assert(out@ =~= data_bytes(self.view()));
            },
            KademliaData::Ticket(t) => {
                out.push(2u8);
                push_le(t.nonce as u128, 4, &mut out);
                push_le(t.difficulty as u128, 4, &mut out);
                assert(out@ =~= data_bytes(self.view()));
            },
        }
        out
    }

    /// The value that `bytes` holds: every value's bytes decode back to that value, and
    /// anything that is not the bytes of a value decodes to `None`.
    pub fn decode(bytes: &[u8]) -> (r: Option<KademliaData>)
        ensures
            forall|d: DataView| bytes@ == #[trigger] data_bytes(d) ==> (r matches Some(x) && x.view() == d),
            r matches Some(x) ==> bytes@ == data_bytes(x.view()),
    {
        let len = bytes.len();
        if len == 0 {
            return None;
        }
        let tag = bytes[0];
        if tag == 0 {
            let Some((block, end)) = parse_block(bytes, 1) else {
                proof { Self::lemma_body_at(bytes@); }
                return None;
            };
            if end != len {
                proof { Self::lemma_body_at(bytes@); }
                return None;
            }
            proof {
                Self::lemma_body_at(bytes@);
                assert(bytes@ =~= seq![0u8] + block_bytes(block.view()));
            }
            Some(KademliaData::Block(block))
        } else if tag == 1 {
            let Some((header, end)) = parse_header(bytes, 1) else {
                proof { Self::lemma_body_at(bytes@); }
                return None;
            };
            if end != len {
                proof { Self::lemma_body_at(bytes@); }
                return None;
            }
            proof {
                Self::lemma_body_at(bytes@);
                assert(bytes@ =~= seq![1u8] + header_bytes(header));
            }
            Some(KademliaData::Header(header))
        } else if tag == 2 {
            let Some(nonce) = parse_uint(bytes, 1, 4) else {
                proof { Self::lemma_body_at(bytes@); }
                return None;
            };
            let Some(difficulty) = parse_uint(bytes, 5, 4) else {
                proof { Self::lemma_body_at(bytes@); }
                return None;
            };
            if len != 9 {
                proof { Self::lemma_body_at(bytes@); }
                return None;
            }
            let t = Ticket { nonce: nonce as u32, difficulty: difficulty as u32 };
            proof {
                Self::lemma_body_at(bytes@);
                lemma_le_value_bound(bytes@.subrange(1, 5));
                lemma_le_value_bound(bytes@.subrange(5, 9));
                lemma_pow256_values();
                lemma_le_bytes_len(t.nonce as nat, 4);
                lemma_le_bytes_len(t.difficulty as nat, 4);
                assert(bytes@ =~= seq![2u8] + le_bytes(t.nonce as nat, 4) + le_bytes(t.difficulty as nat, 4));
            }
            Some(KademliaData::Ticket(t))
        } else {
            proof { Self::lemma_body_at(bytes@); }
            None
        }
    }

    proof fn lemma_body_at(bytes: Seq<u8>)
        ensures
            forall|d: DataView| bytes == #[trigger] data_bytes(d) ==> bytes.len() > 0 && match d {
                DataView::Block(b) => bytes[0] == 0 && at(bytes, 1, block_bytes(b)) && bytes.len() == 1 + block_bytes(b).len(),
                DataView::Header(h) => bytes[0] == 1 && at(bytes, 1, header_bytes(h)) && bytes.len() == 1 + header_bytes(h).len(),
                DataView::Ticket(t) => bytes[0] == 2 && bytes.len() == 9
                    && at(bytes, 1, le_bytes(t.nonce as nat, 4)) && at(bytes, 5, le_bytes(t.difficulty as nat, 4))
                    && t.nonce < pow256(4) && t.difficulty < pow256(4),
            },
    {
        lemma_pow256_values();
        assert forall|d: DataView| bytes == #[trigger] data_bytes(d) implies bytes.len() > 0 && match d {
            DataView::Block(b) => bytes[0] == 0 && at(bytes, 1, block_bytes(b)) && bytes.len() == 1 + block_bytes(b).len(),
            DataView::Header(h) => bytes[0] == 1 && at(bytes, 1, header_bytes(h)) && bytes.len() == 1 + header_bytes(h).len(),
            DataView::Ticket(t) => bytes[0] == 2 && bytes.len() == 9
                && at(bytes, 1, le_bytes(t.nonce as nat, 4)) && at(bytes, 5, le_bytes(t.difficulty as nat, 4))
                && t.nonce < pow256(4) && t.difficulty < pow256(4),
        } by {
            match d {
                DataView::Block(b) => {
                    assert(bytes.subrange(1, 1 + block_bytes(b).len() as int) =~= block_bytes(b));
                },
                DataView::Header(h) => {
                    assert(bytes.subrange(1, 1 + header_bytes(h).len() as int) =~= header_bytes(h));
                },
                DataView::Ticket(t) => {
                    lemma_le_bytes_len(t.nonce as nat, 4);
                    lemma_le_bytes_len(t.difficulty as nat, 4);
                    assert(bytes.subrange(1, 5) =~= le_bytes(t.nonce as nat, 4));
                    assert(bytes.subrange(5, 9) =~= le_bytes(t.difficulty as nat, 4));
                },
            }
        }
    }
}

/// The bytes of blocks, one after another.
pub open spec fn blocks_bytes(s: Seq<BlockView>) -> Seq<u8>
    decreases s.len(),
{
    if s.len() == 0 {
        Seq::empty()
    } else {
        blocks_bytes(s.drop_last()) + block_bytes(s.last())
    }
}

/// The bytes of a chain: the number of blocks (8), then the blocks.
pub open spec fn chain_bytes(s: Seq<BlockView>) -> Seq<u8> {
    le_bytes(s.len(), 8) + blocks_bytes(s)
}

proof fn lemma_blocks_bytes_first(s: Seq<BlockView>)
    requires
        s.len() > 0,
    ensures
        blocks_bytes(s) == block_bytes(s[0]) + blocks_bytes(s.subrange(1, s.len() as int)),
    decreases s.len(),
{
    if s.len() == 1 {
        assert(s.drop_last() =~= Seq::<BlockView>::empty());
        assert(s.subrange(1, 1) =~= Seq::<BlockView>::empty());
        assert(blocks_bytes(s) =~= block_bytes(s[0]) + blocks_bytes(s.subrange(1, s.len() as int)));
    } else {
        lemma_blocks_bytes_first(s.drop_last());
        assert(s.drop_last().subrange(1, s.len() - 1) =~= s.subrange(1, s.len() as int).drop_last());
        assert(s.subrange(1, s.len() as int).last() == s.last());
        assert(blocks_bytes(s) =~= block_bytes(s[0]) + blocks_bytes(s.subrange(1, s.len() as int)));
    }
}

proof fn lemma_blocks_bytes_prefix(s: Seq<BlockView>, i: int)
    requires
        0 <= i <= s.len(),
    ensures
        blocks_bytes(s) == blocks_bytes(s.subrange(0, i)) + blocks_bytes(s.subrange(i, s.len() as int)),
    decreases s.len() - i,
{
    if i == s.len() {
        assert(s.subrange(0, i) =~= s);
        assert(blocks_bytes(s.subrange(i, s.len() as int)) =~= Seq::<u8>::empty());
        assert(blocks_bytes(s) + Seq::<u8>::empty() =~= blocks_bytes(s));
    } else {
        lemma_blocks_bytes_prefix(s, i + 1);
        let rest = s.subrange(i, s.len() as int);
        lemma_blocks_bytes_first(rest);
        assert(rest.subrange(1, rest.len() as int) =~= s.subrange(i + 1, s.len() as int));
        assert(s.subrange(0, i + 1).drop_last() =~= s.subrange(0, i));
        assert(blocks_bytes(s.subrange(0, i + 1)) == blocks_bytes(s.subrange(0, i)) + block_bytes(s[i]));
        assert(blocks_bytes(s) =~= blocks_bytes(s.subrange(0, i)) + blocks_bytes(rest));
    }
}

proof fn lemma_blocks_len_bound(s: Seq<BlockView>)
    ensures
        s.len() <= blocks_bytes(s).len(),
    decreases s.len(),
{
    if s.len() > 0 {
        lemma_blocks_len_bound(s.drop_last());
        assert(block_bytes(s.last()).len() >= 1) by {
            lemma_header_len(s.last().header);
        }
    }
}

proof fn lemma_header_len(h: BlockHeader)
    ensures
        header_bytes(h).len() >= 129,
{
    lemma_le_bytes_len(h.index as nat, 8);
    lemma_le_bytes_len(h.difficulty as nat, 4);
    lemma_le_bytes_len(h.timestamp as nat, 16);
    lemma_le_bytes_len(h.nonce as nat, 4);
}

impl BlockChain {
    /// The bytes of this chain's blocks: their number, then each block.
    pub fn encode(&self) -> (r: Vec<u8>)
        ensures
            r@ == chain_bytes(self.view()),
    {
        let mut out: Vec<u8> = Vec::new();
        push_le(self.blocks.len() as u128, 8, &mut out);
        let ghost start = out@;
        let mut i: usize = 0;
        while i < self.blocks.len()
            invariant
                i <= self.blocks@.len(),
                out@ == start + blocks_bytes(self.view().subrange(0, i as int)),
            decreases self.blocks@.len() - i,
        {
            let bytes = KademliaData::Block(self.blocks[i].clone()).encode();
            let ghost bv = self.blocks@[i as int].view();
            assert(bytes@ == seq![0u8] + block_bytes(bv));
            let mut j: usize = 1;
            let ghost mid = out@;
            while j < bytes.len()
                invariant
                    1 <= j <= bytes@.len(),
                    out@ == mid + bytes@.subrange(1, j as int),
                decreases bytes@.len() - j,
            {
                out.push(bytes[j]);
                assert(bytes@.subrange(1, j + 1) =~= bytes@.subrange(1, j as int).push(bytes@[j as int]));
                j = j + 1;
            }
            proof {
                assert(bytes@.subrange(1, bytes@.len() as int) =~= block_bytes(bv));
                let s = self.view();
                assert(s.subrange(0, i + 1).drop_last() =~= s.subrange(0, i as int));
                assert(s[i as int] == bv);
            }
            i = i + 1;
        }
        proof {
            let s = self.view();
            assert(s.subrange(0, s.len() as int) =~= s);
        }
        assert(out@ =~= chain_bytes(self.view()));
        out
    }

    /// The chain whose bytes `bytes` are, mining at the default difficulty with an empty pool.
    /// The bytes of every sequence of blocks decode back to it.
    pub fn decode(bytes: &[u8]) -> (r: Option<BlockChain>)
        ensures
            forall|s: Seq<BlockView>| bytes@ == #[trigger] chain_bytes(s) ==> (r matches Some(c) && c.view() == s),
            r matches Some(c) ==> bytes@ == chain_bytes(c.view()),
            r matches Some(c) ==> c.dificulty == DEFAULT_DIFFICULTY && c.transaction_poll.view().len() == 0,
    {
        let len = bytes.len();
        let res = parse_uint(bytes, 0, 8);
        let Some(count) = res else {
            proof {
                assert forall|s: Seq<BlockView>| bytes@ == #[trigger] chain_bytes(s) implies false by {
                    Self::lemma_chain_head(bytes@, s);
                    assert(at(bytes@, 0usize as int, le_bytes(s.len(), 8usize as nat)));
                }
            }
            return None;
        };
        proof {
            assert forall|s: Seq<BlockView>| bytes@ == #[trigger] chain_bytes(s) implies count == s.len()
                && at(bytes@, 8, blocks_bytes(s)) && bytes@.len() == 8 + blocks_bytes(s).len() by {
                Self::lemma_chain_head(bytes@, s);
                lemma_le_round_trip(s.len(), 8);
                lemma_le_bytes_len(s.len(), 8);
                assert(bytes@.subrange(0, 8) == le_bytes(s.len(), 8));
            }
        }
        let mut p: usize = 8;
        let mut blocks: Vec<Block> = Vec::new();
        let mut i: u128 = 0;
        assert(crate::network_node::blocks_view(blocks@) =~= Seq::<BlockView>::empty());
        assert(bytes@.subrange(8, 8) =~= Seq::<u8>::empty());
        while i < count
            invariant
                8 <= p <= bytes@.len(),
                len == bytes@.len(),
                i <= count,
                blocks@.len() == i,
                at(bytes@, 0, le_bytes(count as nat, 8)),
                at(bytes@, 8, blocks_bytes(crate::network_node::blocks_view(blocks@))),
                p == 8 + blocks_bytes(crate::network_node::blocks_view(blocks@)).len(),
                forall|s: Seq<BlockView>| bytes@ == #[trigger] chain_bytes(s) ==> {
                    &&& count == s.len()
                    &&& at(bytes@, 8, blocks_bytes(s))
                    &&& bytes@.len() == 8 + blocks_bytes(s).len()
                    &&& crate::network_node::blocks_view(blocks@) == s.subrange(0, i as int)
                    &&& p == 8 + blocks_bytes(s.subrange(0, i as int)).len()
                },
            decreases count - i,
        {
            let Some((block, next)) = parse_block(bytes, p) else {
                proof {
                    assert forall|s: Seq<BlockView>| bytes@ == #[trigger] chain_bytes(s) implies false by {
                        Self::lemma_step(bytes@, s, i as int, p as int);
                    }
                }
                return None;
            };
            let ghost old_blocks = blocks@;
            blocks.push(block);
            proof {
                assert forall|s: Seq<BlockView>| bytes@ == #[trigger] chain_bytes(s) implies
                    crate::network_node::blocks_view(blocks@) == s.subrange(0, i + 1)
                    && next == 8 + blocks_bytes(s.subrange(0, i + 1)).len() by {
                    Self::lemma_step(bytes@, s, i as int, p as int);
                    assert(crate::network_node::blocks_view(blocks@) =~= crate::network_node::blocks_view(old_blocks).push(block.view()));
                    assert(s.subrange(0, i + 1) =~= s.subrange(0, i as int).push(s[i as int]));
                    assert(s.subrange(0, i + 1).drop_last() =~= s.subrange(0, i as int));
                }
                let bv = crate::network_node::blocks_view(blocks@);
                assert(bv.drop_last() =~= crate::network_node::blocks_view(old_blocks));
                assert(bv.last() == block.view());
                lemma_at_join(bytes@, 8, blocks_bytes(crate::network_node::blocks_view(old_blocks)), block_bytes(block.view()));
            }
            p = next;
            i = i + 1;
        }
        if p != len {
            proof {
                assert forall|s: Seq<BlockView>| bytes@ == #[trigger] chain_bytes(s) implies false by {
                    assert(s.subrange(0, s.len() as int) =~= s);
                }
            }
            return None;
        }
        let chain = BlockChain { dificulty: DEFAULT_DIFFICULTY, blocks, transaction_poll: TransactionPool::new() };
        proof {
            let cv = chain.view();
            lemma_le_bytes_len(count as nat, 8);
            assert(cv.len() == count);
            lemma_at_join(bytes@, 0, le_bytes(count as nat, 8), blocks_bytes(cv));
            assert(bytes@ =~= chain_bytes(cv));
        }
        proof {
            assert forall|s: Seq<BlockView>| bytes@ == #[trigger] chain_bytes(s) implies chain.view() == s by {
                assert(s.subrange(0, s.len() as int) =~= s);
            }
        }
        Some(chain)
    }

    proof fn lemma_chain_head(bytes: Seq<u8>, s: Seq<BlockView>)
        requires
            bytes == chain_bytes(s),
            bytes.len() <= u64::MAX,
        ensures
            s.len() < pow256(8),
            at(bytes, 0, le_bytes(s.len(), 8)),
            at(bytes, 8, blocks_bytes(s)),
            bytes.len() == 8 + blocks_bytes(s).len(),
    {
        lemma_pow256_values();
        lemma_blocks_len_bound(s);
        lemma_le_bytes_len(s.len(), 8);
        assert(bytes.subrange(0, 8) =~= le_bytes(s.len(), 8));
        assert(bytes.subrange(8, bytes.len() as int) =~= blocks_bytes(s));
    }

    proof fn lemma_step(bytes: Seq<u8>, s: Seq<BlockView>, i: int, p: int)
        requires
            0 <= i < s.len(),
            at(bytes, 8, blocks_bytes(s)),
            p == 8 + blocks_bytes(s.subrange(0, i)).len(),
        ensures
            at(bytes, p, block_bytes(s[i])),
    {
        lemma_blocks_bytes_prefix(s, i);
        lemma_at_split(bytes, 8, blocks_bytes(s.subrange(0, i)), blocks_bytes(s.subrange(i, s.len() as int)));
        lemma_blocks_bytes_first(s.subrange(i, s.len() as int));
        assert(s.subrange(i, s.len() as int)[0] == s[i]);
        assert(s.subrange(i, s.len() as int).subrange(1, s.len() - i) =~= s.subrange(i + 1, s.len() as int));
        lemma_at_split(bytes, p, block_bytes(s[i]), blocks_bytes(s.subrange(i + 1, s.len() as int)));
    }
}

} // verus!
