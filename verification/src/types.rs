//! The ledger's value types: addresses, digests, transactions, vertices, accounts.
use vstd::prelude::*;
use sha2::{Digest, Sha256};

pub mod hex;

use crate::types::hex::{all_hex, hex_decoded, hex_digit_value, hex_lower, hex_value, lemma_hex_roundtrip, push_hex};

verus! {

/// What SHA-256 returns for a byte sequence.
pub uninterp spec fn sha256(data: Seq<u8>) -> Seq<u8>;

/// Calls `sha2::Sha256` (`new`, `update(data)`, `finalize`) and copies the 32-byte
/// digest out. Claimed: the digest is `sha256(data)`, a function of the bytes alone.
#[verifier::external_body]
pub(crate) fn sha256_digest(data: &[u8]) -> (h: [u8; 32])
    ensures
        h@ == sha256(data@),
{
    let mut hasher = Sha256::new();
    hasher.update(data);
    let out = hasher.finalize();
    let mut h = [0u8; 32];
    h.copy_from_slice(&out);
    h
}

/// The big-endian bytes of a `u64` (`to_be_bytes`).
pub open spec fn u64_be(x: u64) -> Seq<u8> {
    seq![
        (x >> 56u64) as u8, (x >> 48u64) as u8, (x >> 40u64) as u8, (x >> 32u64) as u8,
        (x >> 24u64) as u8, (x >> 16u64) as u8, (x >> 8u64) as u8, x as u8,
    ]
}

/// The `u64` whose big-endian bytes are the eight bytes of `s` (`from_be_bytes`).
pub open spec fn be_u64(s: Seq<u8>) -> u64 {
    ((s[0] as u64) << 56u64) | ((s[1] as u64) << 48u64) | ((s[2] as u64) << 40u64)
        | ((s[3] as u64) << 32u64) | ((s[4] as u64) << 24u64) | ((s[5] as u64) << 16u64)
        | ((s[6] as u64) << 8u64) | (s[7] as u64)
}

/// Reading back the big-endian bytes of `x` gives `x`.
pub proof fn lemma_be_roundtrip(x: u64)
    ensures
        be_u64(u64_be(x)) == x,
{
    let s = u64_be(x);
    let b0 = (x >> 56u64) as u8;
    let b1 = (x >> 48u64) as u8;
    let b2 = (x >> 40u64) as u8;
    let b3 = (x >> 32u64) as u8;
    let b4 = (x >> 24u64) as u8;
    let b5 = (x >> 16u64) as u8;
    let b6 = (x >> 8u64) as u8;
    let b7 = x as u8;
    assert(s[0] == b0 && s[1] == b1 && s[2] == b2 && s[3] == b3);
    assert(s[4] == b4 && s[5] == b5 && s[6] == b6 && s[7] == b7);
    assert(((b0 as u64) << 56u64) | ((b1 as u64) << 48u64) | ((b2 as u64) << 40u64)
        | ((b3 as u64) << 32u64) | ((b4 as u64) << 24u64) | ((b5 as u64) << 16u64)
        | ((b6 as u64) << 8u64) | (b7 as u64) == x) by (bit_vector)
        requires
            b0 == (x >> 56u64) as u8, b1 == (x >> 48u64) as u8, b2 == (x >> 40u64) as u8,
            b3 == (x >> 32u64) as u8, b4 == (x >> 24u64) as u8, b5 == (x >> 16u64) as u8,
            b6 == (x >> 8u64) as u8, b7 == x as u8;
}

/// Appends the big-endian bytes of `x` to `v`.
pub fn push_u64_be(v: &mut Vec<u8>, x: u64)
    ensures
        final(v)@ == old(v)@ + u64_be(x),
{
    v.push((x >> 56) as u8);
    v.push((x >> 48) as u8);
    v.push((x >> 40) as u8);
    v.push((x >> 32) as u8);
    v.push((x >> 24) as u8);
    v.push((x >> 16) as u8);
    v.push((x >> 8) as u8);
    v.push(x as u8);
    proof { assert(v@ =~= old(v)@ + u64_be(x)); }
}

/// Appends all of `src` to `v`.
pub fn push_bytes(v: &mut Vec<u8>, src: &[u8])
    ensures
        final(v)@ == old(v)@ + src@,
{
    let ghost start = v@;
    let n = src.len();
    for i in 0..n
        invariant
            n == src@.len(),
            v@ == start + src@.subrange(0, i as int),
    {
        v.push(src[i]);
        proof { assert(v@ =~= start + src@.subrange(0, i + 1)); }
    }
    proof { assert(src@.subrange(0, n as int) =~= src@); }
}

/// A 20-byte account or contract address.
#[derive(Clone, Copy, PartialEq, Eq, PartialOrd, Ord, Hash, Debug, Default)]
pub struct Address(pub [u8; 20]);

/// The bytes of `Address::new(id)`: twelve zero bytes, then `id` big-endian.
pub open spec fn address_bytes(id: u64) -> Seq<u8> {
    Seq::new(12, |i: int| 0u8) + u64_be(id)
}

/// The numeric id carried by the last eight bytes of an address.
pub open spec fn address_id(a: Address) -> u64 {
    be_u64(a.0@.subrange(12, 20))
}

/// What `Display` shows of an address: `0x` and the hex of its last four bytes.
pub open spec fn address_display(a: Address) -> Seq<char> {
    "0x"@ + hex_lower(a.0@.subrange(16, 20))
}

/// The digits of a hexadecimal address: the text after a leading `0x`, or all
/// of it.
pub open spec fn hex_body(s: Seq<char>) -> Seq<char> {
    if s.len() >= 2 && s[0] == '0' && s[1] == 'x' { s.skip(2) } else { s }
}

/// The bytes a hexadecimal address spells: forty digits of either case,
/// after an optional `0x`; `None` for any other text.
pub open spec fn address_from_hex(s: Seq<char>) -> Option<Seq<u8>> {
    let t = hex_body(s);
    if t.len() == 40 && all_hex(t) { Some(hex_decoded(t)) } else { None }
}

/// An address written by `to_hex` reads back as itself.
pub proof fn lemma_address_hex_roundtrip(a: Address)
    ensures
        address_from_hex("0x"@ + hex_lower(a.0@)) == Some(a.0@),
{
    reveal_strlit("0x");
    let s = "0x"@ + hex_lower(a.0@);
    assert(hex_body(s) =~= hex_lower(a.0@));
    lemma_hex_roundtrip(a.0@);
    crate::types::hex::lemma_hex_lower_at(a.0@);
}

impl Address {
    /// The address whose last eight bytes hold `id` big-endian, the rest zero.
    pub fn new(id: u64) -> (a: Address)
        ensures
            a.0@ == address_bytes(id),
    {
        let mut bytes = [0u8; 20];
        bytes[12] = (id >> 56) as u8;
        bytes[13] = (id >> 48) as u8;
        bytes[14] = (id >> 40) as u8;
        bytes[15] = (id >> 32) as u8;
        bytes[16] = (id >> 24) as u8;
        bytes[17] = (id >> 16) as u8;
        bytes[18] = (id >> 8) as u8;
        bytes[19] = id as u8;
        proof { assert(bytes@ =~= address_bytes(id)); }
        Address(bytes)
    }

    /// Reads an address written as forty hexadecimal digits, with or without
    /// a leading `0x`.
    pub fn from_hex(s: &str) -> (r: Option<Address>)
        ensures
            r is Some <==> address_from_hex(s@) is Some,
            r matches Some(a) ==> a.0@ == address_from_hex(s@).unwrap(),
    {
        let cs = crate::p2p::chars_of(s);
        let n = cs.len();
        let start: usize = if n >= 2 && cs[0] == '0' && cs[1] == 'x' { 2 } else { 0 };
        let ghost t = hex_body(s@);
        proof { assert(t =~= cs@.subrange(start as int, n as int)); }
        if n - start != 40 {
            return None;
        }
        let mut bytes = [0u8; 20];
        let mut i: usize = 0;
        while i < 20
            invariant
                i <= 20,
                start + 40 == n,
                n == cs@.len(),
                t == cs@.subrange(start as int, n as int),
                t == hex_body(s@),
                forall|j: int| 0 <= j < 2 * i ==> hex_value(#[trigger] t[j]) >= 0,
                forall|j: int| 0 <= j < i ==> #[trigger] bytes@[j] == (16 * hex_value(t[2 * j]) + hex_value(t[2 * j + 1])) as u8,
            decreases 20 - i,
        {
            let hi = hex_digit_value(cs[start + 2 * i]);
            let lo = hex_digit_value(cs[start + 2 * i + 1]);
            match (hi, lo) {
                (Some(h), Some(l)) => {
                    proof {
                        assert(t[2 * i as int] == cs@[start + 2 * i]);
                        assert(t[2 * i + 1] == cs@[start + 2 * i + 1]);
                    }
                    bytes[i] = h * 16 + l;
                },
                _ => {
                    proof {
                        assert(t[2 * i as int] == cs@[start + 2 * i]);
                        assert(t[2 * i + 1] == cs@[start + 2 * i + 1]);
                        assert(!all_hex(t));
                    }
                    return None;
                },
            }
            i = i + 1;
        }
        proof {
            assert(all_hex(t));
            assert(bytes@ =~= hex_decoded(t));
        }
        Some(Address(bytes))
    }

    /// The full address as `0x` followed by forty hex digits.
    pub fn to_hex(&self) -> (s: String)
        ensures
            s@ == "0x"@ + hex_lower(self.0@),
    {
        let mut s = String::from_str("0x");
        push_hex(&mut s, self.0.as_slice());
        s
    }

    /// What the address shows when displayed: `0x` and the hex of its last four bytes.
    pub fn display_string(&self) -> (s: String)
        ensures
            s@ == address_display(*self),
    {
        let mut s = String::from_str("0x");
        let mut tail: Vec<u8> = Vec::new();
        tail.push(self.0[16]);
        tail.push(self.0[17]);
        tail.push(self.0[18]);
        tail.push(self.0[19]);
        proof { assert(tail@ =~= self.0@.subrange(16, 20)); }
        push_hex(&mut s, tail.as_slice());
        s
    }

    /// The numeric id in the last eight bytes (`u64::from_be_bytes(a.0[12..20])`).
    pub fn id(&self) -> (x: u64)
        ensures
            x == address_id(*self),
    {
        let b = &self.0;
        ((b[12] as u64) << 56) | ((b[13] as u64) << 48) | ((b[14] as u64) << 40)
            | ((b[15] as u64) << 32) | ((b[16] as u64) << 24) | ((b[17] as u64) << 16)
            | ((b[18] as u64) << 8) | (b[19] as u64)
    }

    /// Byte-wise equality of two addresses.
    pub fn same(&self, other: &Address) -> (b: bool)
        ensures
            b == (*self == *other),
    {
        let mut i: usize = 0;
        while i < 20
            invariant
                i <= 20,
                forall|j: int| 0 <= j < i ==> self.0@[j] == other.0@[j],
            decreases 20 - i,
        {
            if self.0[i] != other.0[i] {
                return false;
            }
            i = i + 1;
        }
        proof {
            assert(self.0@ =~= other.0@);
            assert(self.0 =~= other.0);
        }
        true
    }
}

/// The id of `Address::new(id)` is `id`.
pub proof fn lemma_address_id(id: u64)
    ensures
        forall|a: Address| a.0@ == address_bytes(id) ==> address_id(a) == id,
{
    assert forall|a: Address| a.0@ == address_bytes(id) implies address_id(a) == id by {
        assert(a.0@.subrange(12, 20) =~= u64_be(id));
        lemma_be_roundtrip(id);
    }
}

/// A 32-byte digest.
#[derive(Clone, Copy, PartialEq, Eq, Hash, Debug, Default)]
pub struct Hash256(pub [u8; 32]);

/// What `Display` shows of a digest: the hex of its first four bytes.
pub open spec fn hash_display(h: Hash256) -> Seq<char> {
    hex_lower(h.0@.subrange(0, 4))
}

impl Hash256 {
    /// The SHA-256 digest of `data`.
    pub fn of(data: &[u8]) -> (h: Hash256)
        ensures
            h.0@ == sha256(data@),
    {
        Hash256(sha256_digest(data))
    }

    /// What the digest shows when displayed: the hex of its first four bytes.
    pub fn display_string(&self) -> (s: String)
        ensures
            s@ == hash_display(*self),
    {
        let mut s = String::new();
        let mut head: Vec<u8> = Vec::new();
        head.push(self.0[0]);
        head.push(self.0[1]);
        head.push(self.0[2]);
        head.push(self.0[3]);
        proof { assert(head@ =~= self.0@.subrange(0, 4)); }
        push_hex(&mut s, head.as_slice());
        proof { assert(s@ =~= hash_display(*self)); }
        s
    }

    /// Byte-wise equality of two digests.
    pub fn same(&self, other: &Hash256) -> (b: bool)
        ensures
            b == (*self == *other),
    {
        let mut i: usize = 0;
        while i < 32
            invariant
                i <= 32,
                forall|j: int| 0 <= j < i ==> self.0@[j] == other.0@[j],
            decreases 32 - i,
        {
            if self.0[i] != other.0[i] {
                return false;
            }
            i = i + 1;
        }
        proof {
            assert(self.0@ =~= other.0@);
            assert(self.0 =~= other.0);
        }
        true
    }
}

/// What a transaction asks the ledger to do.
#[derive(Clone, Debug, PartialEq, Eq)]
pub enum TxPayload {
    Transfer { to: Address, amount: u64 },
    Swap { pool_id: u64, amount_in: u64, min_out: u64 },
    DeployContract { name: String, template: String, params: Vec<u64> },
    CallContract { contract: Address, method: String, args: Vec<u64> },
}

/// A plaintext transaction.
#[derive(Clone, Debug, PartialEq, Eq)]
pub struct Transaction {
    pub id: u64,
    pub sender: Address,
    pub nonce: u64,
    pub payload: TxPayload,
    pub gas_limit: u64,
}

/// A transaction whose body is encrypted under the threshold key.
#[derive(Debug, PartialEq, Eq)]
pub struct EncryptedTx {
    pub id: u64,
    pub sender: Address,
    pub ciphertext: Vec<u8>,
    pub ephemeral_key: [u8; 32],
}

/// The mathematical content of an encrypted transaction.
pub struct EncryptedTxView {
    pub id: u64,
    pub sender: Address,
    pub ciphertext: Seq<u8>,
    pub ephemeral_key: [u8; 32],
}

impl View for EncryptedTx {
    type V = EncryptedTxView;

    open spec fn view(&self) -> EncryptedTxView {
        EncryptedTxView {
            id: self.id,
            sender: self.sender,
            ciphertext: self.ciphertext@,
            ephemeral_key: self.ephemeral_key,
        }
    }
}

/// The contents of a list of encrypted transactions.
pub open spec fn etx_views(s: Seq<EncryptedTx>) -> Seq<EncryptedTxView> {
    s.map_values(|e: EncryptedTx| e@)
}

impl Clone for EncryptedTx {
    fn clone(&self) -> (r: Self)
        ensures
            r@ == self@,
    {
        let c = self.ciphertext.clone();
        proof { assert(c@ =~= self.ciphertext@); }
        EncryptedTx { id: self.id, sender: self.sender, ciphertext: c, ephemeral_key: self.ephemeral_key }
    }
}

/// Two lists of encrypted transactions with the same contents, element by element.
pub proof fn lemma_etx_views_eq(a: Seq<EncryptedTx>, b: Seq<EncryptedTx>)
    requires
        a.len() == b.len(),
        forall|k: int| 0 <= k < a.len() ==> #[trigger] a[k]@ == b[k]@,
    ensures
        etx_views(a) == etx_views(b),
{
    assert(etx_views(a) =~= etx_views(b));
}

/// Copies a list of encrypted transactions.
pub fn clone_encrypted_txs(v: &Vec<EncryptedTx>) -> (r: Vec<EncryptedTx>)
    ensures
        etx_views(r@) == etx_views(v@),
{
    let mut r: Vec<EncryptedTx> = Vec::new();
    for i in 0..v.len()
        invariant
            r@.len() == i,
            forall|k: int| 0 <= k < i ==> #[trigger] r@[k]@ == v@[k]@,
    {
        let c = v[i].clone();
        r.push(c);
    }
    proof { lemma_etx_views_eq(r@, v@); }
    r
}

/// Copies a list of digests.
pub fn clone_hashes(v: &Vec<Hash256>) -> (r: Vec<Hash256>)
    ensures
        r@ == v@,
{
    let mut r: Vec<Hash256> = Vec::new();
    for i in 0..v.len()
        invariant
            r@ == v@.subrange(0, i as int),
    {
        r.push(v[i]);
        proof { assert(r@ =~= v@.subrange(0, i + 1)); }
    }
    proof { assert(v@.subrange(0, v@.len() as int) =~= v@); }
    r
}

/// A DAG vertex: one validator's batch for one round, linked to its parents.
#[derive(Debug)]
pub struct Vertex {
    pub author: Address,
    pub round: u64,
    pub parents: Vec<Hash256>,
    pub transactions: Vec<EncryptedTx>,
    pub hash: Hash256,
}

/// The mathematical content of a vertex.
pub struct VertexView {
    pub author: Address,
    pub round: u64,
    pub parents: Seq<Hash256>,
    pub transactions: Seq<EncryptedTxView>,
    pub hash: Hash256,
}

impl View for Vertex {
    type V = VertexView;

    open spec fn view(&self) -> VertexView {
        VertexView {
            author: self.author,
            round: self.round,
            parents: self.parents@,
            transactions: etx_views(self.transactions@),
            hash: self.hash,
        }
    }
}

impl Clone for Vertex {
    fn clone(&self) -> (r: Self)
        ensures
            r@ == self@,
    {
        let p = clone_hashes(&self.parents);
        let t = clone_encrypted_txs(&self.transactions);
        Vertex { author: self.author, round: self.round, parents: p, transactions: t, hash: self.hash }
    }
}

/// The concatenated bytes of a list of digests.
pub open spec fn hashes_bytes(ps: Seq<Hash256>) -> Seq<u8>
    decreases ps.len(),
{
    if ps.len() == 0 { Seq::empty() } else { hashes_bytes(ps.drop_last()) + ps.last().0@ }
}

/// For each encrypted transaction in turn, its id big-endian then its ciphertext.
pub open spec fn txs_bytes(ts: Seq<EncryptedTxView>) -> Seq<u8>
    decreases ts.len(),
{
    if ts.len() == 0 {
        Seq::empty()
    } else {
        txs_bytes(ts.drop_last()) + u64_be(ts.last().id) + ts.last().ciphertext
    }
}

/// The bytes a vertex's digest is taken over.
pub open spec fn vertex_preimage(author: Address, round: u64, parents: Seq<Hash256>, txs: Seq<EncryptedTxView>) -> Seq<u8> {
    author.0@ + u64_be(round) + hashes_bytes(parents) + txs_bytes(txs)
}

impl Vertex {
    /// Builds a vertex; its hash is SHA-256 over author, round, parent digests and
    /// each transaction's id and ciphertext.
    pub fn new(author: Address, round: u64, parents: Vec<Hash256>, transactions: Vec<EncryptedTx>) -> (v: Vertex)
        ensures
            v.author == author,
            v.round == round,
            v.parents@ == parents@,
            v.transactions@ == transactions@,
            v.hash.0@ == sha256(vertex_preimage(author, round, parents@, etx_views(transactions@))),
    {
        let mut bytes: Vec<u8> = Vec::new();
        push_bytes(&mut bytes, author.0.as_slice());
        push_u64_be(&mut bytes, round);
        let ghost base = bytes@;
        for i in 0..parents.len()
            invariant
                bytes@ == base + hashes_bytes(parents@.subrange(0, i as int)),
        {
            push_bytes(&mut bytes, parents[i].0.as_slice());
            proof {
                assert(parents@.subrange(0, i + 1).drop_last() =~= parents@.subrange(0, i as int));
                assert(bytes@ =~= base + hashes_bytes(parents@.subrange(0, i + 1)));
            }
        }
        proof { assert(parents@.subrange(0, parents@.len() as int) =~= parents@); }
        let ghost base2 = bytes@;
        for i in 0..transactions.len()
            invariant
                bytes@ == base2 + txs_bytes(etx_views(transactions@.subrange(0, i as int))),
        {
            push_u64_be(&mut bytes, transactions[i].id);
            push_bytes(&mut bytes, transactions[i].ciphertext.as_slice());
            proof {
                assert(etx_views(transactions@.subrange(0, i + 1)).drop_last() =~= etx_views(transactions@.subrange(0, i as int)));
                assert(bytes@ =~= base2 + txs_bytes(etx_views(transactions@.subrange(0, i + 1))));
            }
        }
        proof {
            assert(transactions@.subrange(0, transactions@.len() as int) =~= transactions@);
            assert(bytes@ =~= vertex_preimage(author, round, parents@, etx_views(transactions@)));
        }
        let hash = Hash256::of(bytes.as_slice());
        Vertex { author, round, parents, transactions, hash }
    }
}

/// An account's balance and nonce.
#[derive(Clone, Copy, Debug, Default, PartialEq, Eq)]
pub struct AccountState {
    pub balance: u64,
    pub nonce: u64,
}

/// A deployed contract's metadata.
#[derive(Debug, PartialEq, Eq)]
pub struct ContractInfo {
    pub address: Address,
    pub name: String,
    pub template: String,
    pub creator: Address,
    pub created_at_round: u64,
}

/// The contents of a contract's metadata.
pub struct ContractInfoView {
    pub address: Address,
    pub name: Seq<char>,
    pub template: Seq<char>,
    pub creator: Address,
    pub created_at_round: u64,
}

impl View for ContractInfo {
    type V = ContractInfoView;

    open spec fn view(&self) -> ContractInfoView {
        ContractInfoView {
            address: self.address,
            name: self.name@,
            template: self.template@,
            creator: self.creator,
            created_at_round: self.created_at_round,
        }
    }
}

impl Clone for ContractInfo {
    fn clone(&self) -> (r: Self)
        ensures
            r == *self,
    {
        ContractInfo {
            address: self.address,
            name: self.name.clone(),
            template: self.template.clone(),
            creator: self.creator,
            created_at_round: self.created_at_round,
        }
    }
}

/// A node's persistent identity.
#[derive(Debug, PartialEq, Eq)]
pub struct NodeIdentity {
    pub node_id: String,
    pub address: Address,
    pub name: String,
    pub created_at: u64,
}

impl Clone for NodeIdentity {
    fn clone(&self) -> (r: Self)
        ensures
            r == *self,
    {
        NodeIdentity {
            node_id: self.node_id.clone(),
            address: self.address,
            name: self.name.clone(),
            created_at: self.created_at,
        }
    }
}

/// What a node knows of one peer.
#[derive(Debug, PartialEq, Eq)]
pub struct PeerInfo {
    pub node_id: String,
    pub address: Address,
    pub endpoint: String,
    pub last_seen_ms: u64,
    pub latency_ms: u64,
    pub round: u64,
}

impl Clone for PeerInfo {
    fn clone(&self) -> (r: Self)
        ensures
            r == *self,
    {
        PeerInfo {
            node_id: self.node_id.clone(),
            address: self.address,
            endpoint: self.endpoint.clone(),
            last_seen_ms: self.last_seen_ms,
            latency_ms: self.latency_ms,
            round: self.round,
        }
    }
}

} // verus!
