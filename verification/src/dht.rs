//! BitTorrent mainline DHT framing: the network's info-hash, node ids, KRPC
//! `get_peers` and `announce_peer` queries, and the fields the node reads from
//! replies (token, compact nodes, compact peer values).
use vstd::prelude::*;

use sha1::{Digest, Sha1};

use crate::text::{dec, digit_char, push_dec};

verus! {

/// What SHA-1 returns for a byte sequence.
pub uninterp spec fn sha1(data: Seq<u8>) -> Seq<u8>;

/// Calls `sha1::Sha1` (`new`, `update(data)`, `finalize`) and copies the 20-byte
/// digest out. Claimed: the digest is `sha1(data)`, a function of the bytes alone.
#[verifier::external_body]
fn sha1_digest(data: &[u8]) -> (h: [u8; 20])
    ensures
        h@ == sha1(data@),
{
    let mut hasher = Sha1::new();
    hasher.update(data);
    let out = hasher.finalize();
    let mut h = [0u8; 20];
    h.copy_from_slice(&out);
    h
}

/// Calls `rand::random::<u8>()`: a byte from the thread's random generator.
/// Nothing is claimed of its value.
#[verifier::external_body]
fn random_byte() -> (b: u8) {
    rand::random::<u8>()
}

/// The bytes `b"aether-mesh-network-v1"`: the seed of the network's info-hash.
pub open spec fn info_hash_seed() -> Seq<u8> {
    seq![97u8, 101u8, 116u8, 104u8, 101u8, 114u8, 45u8, 109u8, 101u8, 115u8, 104u8, 45u8, 110u8, 101u8, 116u8, 119u8, 111u8, 114u8, 107u8, 45u8, 118u8, 49u8]
}

fn info_hash_seed_bytes() -> (v: Vec<u8>)
    ensures
        v@ == info_hash_seed(),
{
    let v: Vec<u8> = vec![97u8, 101u8, 116u8, 104u8, 101u8, 114u8, 45u8, 109u8, 101u8, 115u8, 104u8, 45u8, 110u8, 101u8, 116u8, 119u8, 111u8, 114u8, 107u8, 45u8, 118u8, 49u8];
    proof { assert(v@ =~= info_hash_seed()); }
    v
}

/// The bytes `b"d1:ad2:id20:"`: the start of a query, up to the node id.
pub open spec fn query_head() -> Seq<u8> {
    seq![100u8, 49u8, 58u8, 97u8, 100u8, 50u8, 58u8, 105u8, 100u8, 50u8, 48u8, 58u8]
}

fn query_head_bytes() -> (v: Vec<u8>)
    ensures
        v@ == query_head(),
{
    let v: Vec<u8> = vec![100u8, 49u8, 58u8, 97u8, 100u8, 50u8, 58u8, 105u8, 100u8, 50u8, 48u8, 58u8];
    proof { assert(v@ =~= query_head()); }
    v
}

/// The bytes `b"9:info_hash20:"`: the key before the info-hash.
pub open spec fn info_hash_key() -> Seq<u8> {
    seq![57u8, 58u8, 105u8, 110u8, 102u8, 111u8, 95u8, 104u8, 97u8, 115u8, 104u8, 50u8, 48u8, 58u8]
}

fn info_hash_key_bytes() -> (v: Vec<u8>)
    ensures
        v@ == info_hash_key(),
{
    let v: Vec<u8> = vec![57u8, 58u8, 105u8, 110u8, 102u8, 111u8, 95u8, 104u8, 97u8, 115u8, 104u8, 50u8, 48u8, 58u8];
    proof { assert(v@ =~= info_hash_key()); }
    v
}

/// The bytes `b"e1:q9:get_peers1:t2:aa1:y1:qe"`: the end of a `get_peers` query.
pub open spec fn get_peers_tail() -> Seq<u8> {
    seq![101u8, 49u8, 58u8, 113u8, 57u8, 58u8, 103u8, 101u8, 116u8, 95u8, 112u8, 101u8, 101u8, 114u8, 115u8, 49u8, 58u8, 116u8, 50u8, 58u8, 97u8, 97u8, 49u8, 58u8, 121u8, 49u8, 58u8, 113u8, 101u8]
}

fn get_peers_tail_bytes() -> (v: Vec<u8>)
    ensures
        v@ == get_peers_tail(),
{
    let v: Vec<u8> = vec![101u8, 49u8, 58u8, 113u8, 57u8, 58u8, 103u8, 101u8, 116u8, 95u8, 112u8, 101u8, 101u8, 114u8, 115u8, 49u8, 58u8, 116u8, 50u8, 58u8, 97u8, 97u8, 49u8, 58u8, 121u8, 49u8, 58u8, 113u8, 101u8];
    proof { assert(v@ =~= get_peers_tail()); }
    v
}

/// The bytes `b"4:porti"`: the key before the announced port.
pub open spec fn port_key() -> Seq<u8> {
    seq![52u8, 58u8, 112u8, 111u8, 114u8, 116u8, 105u8]
}

fn port_key_bytes() -> (v: Vec<u8>)
    ensures
        v@ == port_key(),
{
    let v: Vec<u8> = vec![52u8, 58u8, 112u8, 111u8, 114u8, 116u8, 105u8];
    proof { assert(v@ =~= port_key()); }
    v
}

/// The bytes `b"e5:token"`: the end of the port and the key before the token.
pub open spec fn token_key_open() -> Seq<u8> {
    seq![101u8, 53u8, 58u8, 116u8, 111u8, 107u8, 101u8, 110u8]
}

fn token_key_open_bytes() -> (v: Vec<u8>)
    ensures
        v@ == token_key_open(),
{
    let v: Vec<u8> = vec![101u8, 53u8, 58u8, 116u8, 111u8, 107u8, 101u8, 110u8];
    proof { assert(v@ =~= token_key_open()); }
    v
}

/// The bytes `b"e1:q13:announce_peer1:t2:ab1:y1:qe"`: the end of an `announce_peer` query.
pub open spec fn announce_tail() -> Seq<u8> {
    seq![101u8, 49u8, 58u8, 113u8, 49u8, 51u8, 58u8, 97u8, 110u8, 110u8, 111u8, 117u8, 110u8, 99u8, 101u8, 95u8, 112u8, 101u8, 101u8, 114u8, 49u8, 58u8, 116u8, 50u8, 58u8, 97u8, 98u8, 49u8, 58u8, 121u8, 49u8, 58u8, 113u8, 101u8]
}

fn announce_tail_bytes() -> (v: Vec<u8>)
    ensures
        v@ == announce_tail(),
{
    let v: Vec<u8> = vec![101u8, 49u8, 58u8, 113u8, 49u8, 51u8, 58u8, 97u8, 110u8, 110u8, 111u8, 117u8, 110u8, 99u8, 101u8, 95u8, 112u8, 101u8, 101u8, 114u8, 49u8, 58u8, 116u8, 50u8, 58u8, 97u8, 98u8, 49u8, 58u8, 121u8, 49u8, 58u8, 113u8, 101u8];
    proof { assert(v@ =~= announce_tail()); }
    v
}

/// The bytes `b"5:token"`: the key of a token in a reply.
pub open spec fn token_key() -> Seq<u8> {
    seq![53u8, 58u8, 116u8, 111u8, 107u8, 101u8, 110u8]
}

fn token_key_bytes() -> (v: Vec<u8>)
    ensures
        v@ == token_key(),
{
    let v: Vec<u8> = vec![53u8, 58u8, 116u8, 111u8, 107u8, 101u8, 110u8];
    proof { assert(v@ =~= token_key()); }
    v
}

/// The bytes `b"5:nodes"`: the key of the compact node list in a reply.
pub open spec fn nodes_key() -> Seq<u8> {
    seq![53u8, 58u8, 110u8, 111u8, 100u8, 101u8, 115u8]
}

fn nodes_key_bytes() -> (v: Vec<u8>)
    ensures
        v@ == nodes_key(),
{
    let v: Vec<u8> = vec![53u8, 58u8, 110u8, 111u8, 100u8, 101u8, 115u8];
    proof { assert(v@ =~= nodes_key()); }
    v
}

/// The bytes `b"6:valuesl"`: the key of the peer list in a reply, with the list opened.
pub open spec fn values_key() -> Seq<u8> {
    seq![54u8, 58u8, 118u8, 97u8, 108u8, 117u8, 101u8, 115u8, 108u8]
}

fn values_key_bytes() -> (v: Vec<u8>)
    ensures
        v@ == values_key(),
{
    let v: Vec<u8> = vec![54u8, 58u8, 118u8, 97u8, 108u8, 117u8, 101u8, 115u8, 108u8];
    proof { assert(v@ =~= values_key()); }
    v
}

/// The info-hash under which Aether nodes meet: SHA-1 of `b"aether-mesh-network-v1"`.
pub fn get_aether_info_hash() -> (h: [u8; 20])
    ensures
        h@ == sha1(info_hash_seed()),
{
    let seed = info_hash_seed_bytes();
    sha1_digest(seed.as_slice())
}

/// A node id from twenty drawn bytes: the first four replaced by `b"AETH"`,
/// the other sixteen kept.
pub fn stamp_node_id(drawn: [u8; 20]) -> (id: [u8; 20])
    ensures
        id@ == seq![65u8, 69u8, 84u8, 72u8] + drawn@.subrange(4, 20),
{
    let mut id = drawn;
    id[0] = 65u8;
    id[1] = 69u8;
    id[2] = 84u8;
    id[3] = 72u8;
    proof { assert(id@ =~= seq![65u8, 69u8, 84u8, 72u8] + drawn@.subrange(4, 20)); }
    id
}

/// A random node id: twenty bytes drawn from the thread's generator, the first
/// four replaced by `b"AETH"`.
pub fn generate_node_id() -> (id: [u8; 20])
    ensures
        id@.subrange(0, 4) == seq![65u8, 69u8, 84u8, 72u8],
{
    let mut drawn = [0u8; 20];
    for i in 0..20usize {
        drawn[i] = random_byte();
    }
    let id = stamp_node_id(drawn);
    proof { assert(id@.subrange(0, 4) =~= seq![65u8, 69u8, 84u8, 72u8]); }
    id
}

/// The ASCII bytes of the decimal rendering of `n`.
pub open spec fn dec_ascii(n: nat) -> Seq<u8> {
    dec(n).map_values(|c: char| c as u8)
}

/// A decimal digit's character is ASCII `'0'` plus the digit.
proof fn lemma_digit_ascii(d: nat)
    requires
        d < 10,
    ensures
        digit_char(d) as u8 == 48 + d,
{
}

/// Appends the ASCII decimal rendering of `n` to `v`.
fn push_dec_ascii(v: &mut Vec<u8>, n: u64)
    ensures
        final(v)@ == old(v)@ + dec_ascii(n as nat),
    decreases n,
{
    if n >= 10 {
        push_dec_ascii(v, n / 10);
    }
    let ghost mid = v@;
    v.push((n % 10) as u8 + 48u8);
    proof {
        lemma_digit_ascii((n % 10) as nat);
        let f = |c: char| c as u8;
        if n < 10 {
            assert(dec(n as nat) == seq![digit_char(n as nat)]);
            assert(dec_ascii(n as nat) =~= seq![((n % 10) as u8 + 48u8) as u8]);
        } else {
            assert(dec(n as nat) == dec((n / 10) as nat).push(digit_char((n % 10) as nat)));
            assert(dec_ascii(n as nat) =~= dec_ascii((n / 10) as nat).push(((n % 10) as u8 + 48u8) as u8));
        }
        assert(v@ =~= old(v)@ + dec_ascii(n as nat));
    }
}

/// The `get_peers` query of `node_id` for `info_hash`.
pub open spec fn get_peers_msg(node_id: Seq<u8>, info_hash: Seq<u8>) -> Seq<u8> {
    query_head() + node_id + info_hash_key() + info_hash + get_peers_tail()
}

/// The `announce_peer` query of `node_id` for `info_hash`, announcing `port` with
/// the `token` the queried node handed out.
pub open spec fn announce_msg(node_id: Seq<u8>, info_hash: Seq<u8>, port: u16, token: Seq<u8>) -> Seq<u8> {
    query_head() + node_id + info_hash_key() + info_hash + port_key() + dec_ascii(port as nat)
        + token_key_open() + dec_ascii(token.len()) + seq![58u8] + token + announce_tail()
}

/// Builds the KRPC `get_peers` query.
pub fn make_get_peers_msg(node_id: &[u8; 20], info_hash: &[u8; 20]) -> (msg: Vec<u8>)
    ensures
        msg@ == get_peers_msg(node_id@, info_hash@),
{
    let mut msg = query_head_bytes();
    crate::types::push_bytes(&mut msg, node_id);
    let k = info_hash_key_bytes();
    crate::types::push_bytes(&mut msg, k.as_slice());
    crate::types::push_bytes(&mut msg, info_hash);
    let t = get_peers_tail_bytes();
    crate::types::push_bytes(&mut msg, t.as_slice());
    proof { assert(msg@ =~= get_peers_msg(node_id@, info_hash@)); }
    msg
}

/// Builds the KRPC `announce_peer` query.
pub fn make_announce_msg(node_id: &[u8; 20], info_hash: &[u8; 20], port: u16, token: &[u8]) -> (msg: Vec<u8>)
    ensures
        msg@ == announce_msg(node_id@, info_hash@, port, token@),
{
    let mut msg = query_head_bytes();
    crate::types::push_bytes(&mut msg, node_id);
    let k = info_hash_key_bytes();
    crate::types::push_bytes(&mut msg, k.as_slice());
    crate::types::push_bytes(&mut msg, info_hash);
    let pk = port_key_bytes();
    crate::types::push_bytes(&mut msg, pk.as_slice());
    push_dec_ascii(&mut msg, port as u64);
    let tk = token_key_open_bytes();
    crate::types::push_bytes(&mut msg, tk.as_slice());
    push_dec_ascii(&mut msg, token.len() as u64);
    msg.push(58u8);
    crate::types::push_bytes(&mut msg, token);
    let t = announce_tail_bytes();
    crate::types::push_bytes(&mut msg, t.as_slice());
    proof { assert(msg@ =~= announce_msg(node_id@, info_hash@, port, token@)); }
    msg
}

// ---------------------------------------------------------------------------
// Reading replies

/// The first position at or after `p` where `key` occurs in `s`.
pub open spec fn first_from(s: Seq<u8>, key: Seq<u8>, p: nat) -> Option<nat>
    decreases s.len() - p,
{
    if p >= s.len() || p + key.len() > s.len() {
        None
    } else if s.subrange(p as int, (p + key.len()) as int) == key {
        Some(p)
    } else {
        first_from(s, key, p + 1)
    }
}

/// Finds the first occurrence of `key` in `buf` from position `base` on; the
/// position is counted from `base`.
pub(crate) fn find_key(buf: &[u8], base: usize, key: &[u8]) -> (r: Option<usize>)
    requires
        base <= buf@.len(),
        key@.len() > 0,
    ensures
        match r {
            Some(p) => first_from(buf@.subrange(base as int, buf@.len() as int), key@, 0) == Some(p as nat)
                && base + p + key@.len() <= buf@.len(),
            None => first_from(buf@.subrange(base as int, buf@.len() as int), key@, 0) is None,
        },
{
    let ghost rest = buf@.subrange(base as int, buf@.len() as int);
    let n = buf.len();
    let k = key.len();
    let mut p: usize = 0;
    while p < n - base && k <= n - base - p
        invariant
            n == buf@.len(),
            k == key@.len(),
            k > 0,
            base <= n,
            p <= n - base,
            rest == buf@.subrange(base as int, n as int),
            first_from(rest, key@, 0) == first_from(rest, key@, p as nat),
        decreases n - p,
    {
        let mut same = true;
        let mut j: usize = 0;
        while j < k && same
            invariant
                n == buf@.len(),
                k == key@.len(),
                base + p + k <= n,
                j <= k,
                same == forall|x: int| 0 <= x < j ==> buf@[base + p + x] == key@[x],
            decreases k - j,
        {
            if buf[base + p + j] != key[j] {
                same = false;
            }
            j = j + 1;
        }
        proof {
            let w = rest.subrange(p as int, p + k);
            if same {
                assert(w =~= key@);
            } else {
                let x = choose|x: int| 0 <= x < j && !(buf@[base + p + x] == key@[x]);
                assert(w[x] != key@[x]);
            }
        }
        if same {
            return Some(p);
        }
        p = p + 1;
    }
    None
}

/// ASCII `'0'..='9'`.
pub open spec fn is_digit(b: u8) -> bool {
    48 <= b <= 57
}

/// The number the decimal digits `d` spell.
pub open spec fn digits_value(d: Seq<u8>) -> nat
    decreases d.len(),
{
    if d.len() == 0 { 0 } else { digits_value(d.drop_last()) * 10 + (d.last() - 48) as nat }
}

/// What `usize::from_str` gives for the text `s`: an optional `+`, then at
/// least one decimal digit and nothing else, the value fitting in `usize`.
pub open spec fn parse_usize(s: Seq<u8>) -> Option<nat> {
    let d = unsigned_digits(s);
    if d.len() > 0 && all_digits(d) && digits_value(d) <= usize::MAX {
        Some(digits_value(d))
    } else {
        None
    }
}

/// `s` without a leading `+`.
pub open spec fn unsigned_digits(s: Seq<u8>) -> Seq<u8> {
    if s.len() > 0 && s[0] == 43u8 { s.drop_first() } else { s }
}

/// Every byte of `d` is a decimal digit.
pub open spec fn all_digits(d: Seq<u8>) -> bool {
    forall|i: int| 0 <= i < d.len() ==> is_digit(#[trigger] d[i])
}

/// A prefix of a digit string spells no more than the whole.
proof fn lemma_digits_prefix(d: Seq<u8>, j: int)
    requires
        0 <= j <= d.len(),
        all_digits(d),
    ensures
        digits_value(d.subrange(0, j)) <= digits_value(d),
    decreases d.len(),
{
    if j < d.len() {
        let p = d.drop_last();
        assert forall|i: int| 0 <= i < p.len() implies is_digit(#[trigger] p[i]) by {
            assert(p[i] == d[i]);
        }
        assert(all_digits(p));
        lemma_digits_prefix(p, j);
        assert(p.subrange(0, j) =~= d.subrange(0, j));
    } else {
        assert(d.subrange(0, j) =~= d);
    }
}

/// Parses `buf[lo..hi]` as `usize::from_str` would.
pub(crate) fn parse_usize_at(buf: &[u8], lo: usize, hi: usize) -> (r: Option<usize>)
    requires
        lo <= hi <= buf@.len(),
    ensures
        r == match parse_usize(buf@.subrange(lo as int, hi as int)) {
            Some(v) => Some(v as usize),
            None => None::<usize>,
        },
{
    let ghost s = buf@.subrange(lo as int, hi as int);
    let mut i = lo;
    if i < hi && buf[i] == 43u8 {
        i = i + 1;
    }
    let start = i;
    let ghost d = unsigned_digits(s);
    proof { assert(d =~= buf@.subrange(start as int, hi as int)); }
    if i == hi {
        proof { assert(d.len() == 0); }
        return None;
    }
    let mut val: usize = 0;
    while i < hi
        invariant
            lo <= start <= i <= hi <= buf@.len(),
            start < hi,
            d == buf@.subrange(start as int, hi as int),
            s == buf@.subrange(lo as int, hi as int),
            d == unsigned_digits(s),
            forall|x: int| 0 <= x < i - start ==> is_digit(#[trigger] d[x]),
            val == digits_value(d.subrange(0, i - start)),
        decreases hi - i,
    {
        let b = buf[i];
        if b < 48u8 || b > 57u8 {
            proof {
                assert(!is_digit(d[i - start]));
                assert(!all_digits(d));
            }
            return None;
        }
        let ghost pre = d.subrange(0, i - start);
        let ghost nxt = d.subrange(0, i - start + 1);
        proof {
            assert(nxt.drop_last() =~= pre);
            assert(nxt.last() == b);
        }
        match val.checked_mul(10) {
            Some(x) => {
                match x.checked_add((b - 48u8) as usize) {
                    Some(y) => {
                        val = y;
                    },
                    None => {
                        proof {
                            assert(digits_value(nxt) == val * 10 + (b - 48) as nat);
                            assert(digits_value(nxt) > usize::MAX);
                            if all_digits(d) {
                                lemma_digits_prefix(d, i - start + 1);
                            }
                        }
                        return None;
                    },
                }
            },
            None => {
                proof {
                    assert(digits_value(nxt) == val * 10 + (b - 48) as nat);
                    assert(val * 10 + (b - 48) as nat >= val * 10);
                    assert(digits_value(nxt) > usize::MAX);
                    if all_digits(d) {
                        lemma_digits_prefix(d, i - start + 1);
                    }
                }
                return None;
            },
        }
        i = i + 1;
    }
    proof { assert(d.subrange(0, hi - start) =~= d); }
    Some(val)
}

/// Where a length-prefixed field follows `key` in `buf`: the key's position, the
/// position of the `:` after it (counted from the end of the key), and the
/// length the text before the `:` spells.
pub open spec fn field_parse(buf: Seq<u8>, key: Seq<u8>) -> Option<(nat, nat, nat)> {
    match first_from(buf, key, 0) {
        None => None,
        Some(p) => {
            let rest = buf.subrange((p + key.len()) as int, buf.len() as int);
            match first_from(rest, seq![58u8], 0) {
                None => None,
                Some(c) => match parse_usize(rest.subrange(0, c as int)) {
                    None => None,
                    Some(n) => Some((p, c, n)),
                },
            }
        },
    }
}

/// The end of the field, counted from the end of its key, fits in `usize`.
pub open spec fn field_fits(buf: Seq<u8>, key: Seq<u8>) -> bool {
    match field_parse(buf, key) {
        Some((p, c, n)) => c + 1 + n <= usize::MAX,
        None => true,
    }
}

/// The length-prefixed field after `key` in `buf`, where it lies within the buffer.
pub open spec fn field(buf: Seq<u8>, key: Seq<u8>) -> Option<Seq<u8>> {
    match field_parse(buf, key) {
        Some((p, c, n)) => {
            let rest = buf.subrange((p + key.len()) as int, buf.len() as int);
            if c + 1 + n <= rest.len() { Some(rest.subrange((c + 1) as int, (c + 1 + n) as int)) } else { None }
        },
        None => None,
    }
}

/// Locates the length-prefixed field after `key`: its start in `buf` and its length.
fn field_after(buf: &[u8], key: &[u8]) -> (r: Option<(usize, usize)>)
    requires
        key@.len() > 0,
        field_fits(buf@, key@),
    ensures
        match r {
            Some((s, n)) => field(buf@, key@) == Some(buf@.subrange(s as int, s + n)) && s + n <= buf@.len(),
            None => field(buf@, key@) is None,
        },
{
    let blen = buf.len();
    let pos = match find_key(buf, 0, key) {
        Some(p) => p,
        None => {
            proof { assert(buf@.subrange(0, buf@.len() as int) =~= buf@); }
            return None;
        },
    };
    proof { assert(buf@.subrange(0, buf@.len() as int) =~= buf@); }
    let base = pos + key.len();
    let colon: Vec<u8> = vec![58u8];
    proof { assert(colon@ =~= seq![58u8]); }
    let c = match find_key(buf, base, colon.as_slice()) {
        Some(c) => c,
        None => { return None; },
    };
    let ghost rest = buf@.subrange(base as int, buf@.len() as int);
    proof { assert(rest.subrange(0, c as int) =~= buf@.subrange(base as int, base + c)); }
    let n = match parse_usize_at(buf, base, base + c) {
        Some(n) => n,
        None => { return None; },
    };
    let start = c + 1;
    if start + n <= buf.len() - base {
        proof { assert(rest.subrange(start as int, start + n) =~= buf@.subrange(base + start, base + start + n)); }
        Some((base + start, n))
    } else {
        None
    }
}

/// Whether the length-prefixed field after `key` ends within `usize`.
fn fits(buf: &[u8], key: &[u8]) -> (b: bool)
    requires
        key@.len() > 0,
    ensures
        b == field_fits(buf@, key@),
{
    let blen = buf.len();
    let pos = match find_key(buf, 0, key) {
        Some(p) => p,
        None => {
            proof { assert(buf@.subrange(0, buf@.len() as int) =~= buf@); }
            return true;
        },
    };
    proof { assert(buf@.subrange(0, buf@.len() as int) =~= buf@); }
    let base = pos + key.len();
    let colon: Vec<u8> = vec![58u8];
    proof { assert(colon@ =~= seq![58u8]); }
    let c = match find_key(buf, base, colon.as_slice()) {
        Some(c) => c,
        None => { return true; },
    };
    let ghost rest = buf@.subrange(base as int, buf@.len() as int);
    proof { assert(rest.subrange(0, c as int) =~= buf@.subrange(base as int, base + c)); }
    let n = match parse_usize_at(buf, base, base + c) {
        Some(n) => n,
        None => { return true; },
    };
    (c + 1).checked_add(n).is_some()
}

/// Whether a reply's token field ends within `usize`, as `extract_token` needs.
pub fn token_fits(buf: &[u8]) -> (b: bool)
    ensures
        b == field_fits(buf@, token_key()),
{
    let key = token_key_bytes();
    fits(buf, key.as_slice())
}

/// Whether a reply's nodes field ends within `usize`, as `extract_nodes` needs.
pub fn nodes_fit(buf: &[u8]) -> (b: bool)
    ensures
        b == field_fits(buf@, nodes_key()),
{
    let key = nodes_key_bytes();
    fits(buf, key.as_slice())
}

/// Copies `buf[s..s + n]`.
fn copy_range(buf: &[u8], s: usize, n: usize) -> (v: Vec<u8>)
    requires
        s + n <= buf@.len(),
    ensures
        v@ == buf@.subrange(s as int, s + n),
{
    let mut v: Vec<u8> = Vec::new();
    let blen = buf.len();
    for i in 0..n
        invariant
            s + n <= buf@.len(),
            buf@.len() <= usize::MAX,
            v@ == buf@.subrange(s as int, s + i),
    {
        v.push(buf[s + i]);
        proof { assert(v@ =~= buf@.subrange(s as int, s + i + 1)); }
    }
    v
}

/// The token of a KRPC reply: the length-prefixed bytes after `5:token`, where
/// the length parses and the bytes lie within the reply.
/// Read from an `announce_peer` query this gives back the token the query
/// carries (`lemma_announce_token_roundtrip`).
pub fn extract_token(buf: &[u8]) -> (r: Option<Vec<u8>>)
    requires
        field_fits(buf@, token_key()),
    ensures
        r is Some <==> field(buf@, token_key()) is Some,
        r matches Some(t) ==> Some(t@) == field(buf@, token_key()),
{
    let key = token_key_bytes();
    match field_after(buf, key.as_slice()) {
        Some((s, n)) => Some(copy_range(buf, s, n)),
        None => None,
    }
}

/// The decimal rendering of `n` is a nonempty run of digits spelling `n`.
proof fn lemma_dec_ascii_digits(n: nat)
    ensures
        dec_ascii(n).len() >= 1,
        all_digits(dec_ascii(n)),
        digits_value(dec_ascii(n)) == n,
    decreases n,
{
    if n < 10 {
        lemma_digit_ascii(n);
        assert(dec_ascii(n) =~= seq![(48 + n) as u8]);
        assert(dec_ascii(n).drop_last() =~= Seq::<u8>::empty());
        assert(digits_value(dec_ascii(n)) == digits_value(Seq::<u8>::empty()) * 10 + n);
    } else {
        lemma_dec_ascii_digits(n / 10);
        lemma_digit_ascii(n % 10);
        let d = dec_ascii(n / 10);
        assert(dec(n) == dec(n / 10).push(digit_char(n % 10)));
        assert(dec_ascii(n) =~= d.push((48 + n % 10) as u8));
        assert(dec_ascii(n).drop_last() =~= d);
        assert(dec_ascii(n).last() == (48 + n % 10) as u8);
        assert(digits_value(dec_ascii(n)) == digits_value(d) * 10 + n % 10);
        assert forall|i: int| 0 <= i < dec_ascii(n).len() implies is_digit(#[trigger] dec_ascii(n)[i]) by {
            if i < d.len() {
                assert(dec_ascii(n)[i] == d[i]);
            }
        }
    }
}

/// Where no occurrence of `key` starts in `s` from `p` on, no window from `x`
/// on is `key`.
proof fn lemma_first_from_none(s: Seq<u8>, key: Seq<u8>, p: nat, x: int)
    requires
        key.len() > 0,
        first_from(s, key, p) is None,
        p <= x,
        x + key.len() <= s.len(),
    ensures
        s.subrange(x, x + key.len()) != key,
    decreases x - p,
{
    if x > p {
        lemma_first_from_none(s, key, p + 1, x);
    }
}

/// The `n` bytes of `s` from `x` on.
spec fn window_at(s: Seq<u8>, x: int, n: nat) -> Seq<u8> {
    s.subrange(x, x + n)
}

/// The search for `key` passes over positions `p..q` where no window is `key`.
proof fn lemma_first_from_skip(s: Seq<u8>, key: Seq<u8>, p: nat, q: nat)
    requires
        key.len() > 0,
        p <= q,
        q + key.len() <= s.len() + 1,
        forall|x: int| p <= x < q ==> #[trigger] window_at(s, x, key.len()) != key,
    ensures
        first_from(s, key, p) == first_from(s, key, q),
    decreases q - p,
{
    if p < q {
        assert(window_at(s, p as int, key.len()) != key);
        lemma_first_from_skip(s, key, (p + 1) as nat, q);
    }
}

/// A window differs from `key` where one of its bytes does.
proof fn lemma_window_differs(s: Seq<u8>, key: Seq<u8>, x: int, j: int)
    requires
        0 <= x,
        x + key.len() <= s.len(),
        0 <= j < key.len(),
        s[x + j] != key[j],
    ensures
        s.subrange(x, x + key.len()) != key,
{
    assert(s.subrange(x, x + key.len())[j] == s[x + j]);
}

/// The token a node announces with is the token read back from its announce
/// query, where neither the node id nor the info-hash holds the bytes `5:token`
/// and the query fits in memory.
pub proof fn lemma_announce_token_roundtrip(node_id: Seq<u8>, info_hash: Seq<u8>, port: u16, token: Seq<u8>)
    requires
        node_id.len() == 20,
        info_hash.len() == 20,
        first_from(node_id, token_key(), 0) is None,
        first_from(info_hash, token_key(), 0) is None,
        announce_msg(node_id, info_hash, port, token).len() <= usize::MAX,
    ensures
        field_fits(announce_msg(node_id, info_hash, port, token), token_key()),
        field(announce_msg(node_id, info_hash, port, token), token_key()) == Some(token),
{
    let key = token_key();
    let msg = announce_msg(node_id, info_hash, port, token);
    let dp = dec_ascii(port as nat);
    let dl = dec_ascii(token.len());
    lemma_dec_ascii_digits(port as nat);
    lemma_dec_ascii_digits(token.len());
    let pre = query_head() + node_id + info_hash_key() + info_hash + port_key() + dp + seq![101u8];
    let post = dl + seq![58u8] + token + announce_tail();
    assert(msg =~= pre + key + post);
    let pl = pre.len();
    assert(pl == 74 + dp.len());
    assert forall|k: int| 0 <= k < pl implies #[trigger] msg[k] == pre[k] by {}
    assert forall|k: int| 0 <= k < 7 implies #[trigger] msg[pl + k] == key[k] by {}
    // no window before the key's place is the key
    assert forall|x: int| 0 <= x < pl implies #[trigger] window_at(msg, x, key.len()) != key by {
        if x < 12 {
            assert(msg[x] == query_head()[x]);
            lemma_window_differs(msg, key, x, 0);
        } else if x < 32 {
            if x + 7 <= 32 {
                assert(msg.subrange(x, x + 7) =~= node_id.subrange(x - 12, x - 5));
                lemma_first_from_none(node_id, key, 0, x - 12);
            } else {
                assert(msg[32] == info_hash_key()[0]);
                lemma_window_differs(msg, key, x, 32 - x);
            }
        } else if x < 46 {
            assert(msg[x] == info_hash_key()[x - 32]);
            lemma_window_differs(msg, key, x, 0);
        } else if x < 66 {
            if x + 7 <= 66 {
                assert(msg.subrange(x, x + 7) =~= info_hash.subrange(x - 46, x - 39));
                lemma_first_from_none(info_hash, key, 0, x - 46);
            } else {
                assert(msg[66] == port_key()[0]);
                lemma_window_differs(msg, key, x, 66 - x);
            }
        } else if x < 73 {
            assert(msg[x] == port_key()[x - 66]);
            lemma_window_differs(msg, key, x, 0);
        } else if x < pl - 1 {
            assert(msg[x] == dp[x - 73]);
            if msg[x] == 53u8 {
                if x + 1 < pl - 1 {
                    assert(msg[x + 1] == dp[x + 1 - 73]);
                    assert(is_digit(dp[x + 1 - 73]));
                } else {
                    assert(msg[x + 1] == 101u8);
                }
                lemma_window_differs(msg, key, x, 1);
            } else {
                lemma_window_differs(msg, key, x, 0);
            }
        } else {
            assert(msg[x] == 101u8);
            lemma_window_differs(msg, key, x, 0);
        }
    }
    lemma_first_from_skip(msg, key, 0, pl);
    assert(msg.subrange(pl as int, pl + 7int) =~= key);
    assert(first_from(msg, key, 0) == Some(pl));
    // after the key: the length, a colon, the token
    let rest = msg.subrange(pl + 7int, msg.len() as int);
    assert(rest =~= post);
    let colon = seq![58u8];
    assert forall|x: int| 0 <= x < dl.len() implies #[trigger] window_at(rest, x, colon.len()) != colon by {
        assert(rest[x] == dl[x]);
        assert(is_digit(dl[x]));
        lemma_window_differs(rest, colon, x, 0);
    }
    lemma_first_from_skip(rest, colon, 0, dl.len());
    assert(rest.subrange(dl.len() as int, dl.len() + 1int) =~= colon);
    assert(first_from(rest, colon, 0) == Some(dl.len()));
    assert(rest.subrange(0, dl.len() as int) =~= dl);
    assert(unsigned_digits(dl) == dl) by {
        assert(is_digit(dl[0]));
    }
    assert(parse_usize(dl) == Some(token.len()));
    assert(rest.subrange(dl.len() + 1int, dl.len() + 1int + token.len()) =~= token);
}

/// A big-endian `u16` from its two bytes.
pub open spec fn be_u16(hi: u8, lo: u8) -> u16 {
    (hi * 256 + lo) as u16
}

/// The compact node entries of a `nodes` field: per 26-byte entry, the IPv4
/// octets at bytes 20..24 and the big-endian port at bytes 24..26.
pub open spec fn compact_nodes(b: Seq<u8>) -> Seq<(Seq<u8>, u16)> {
    Seq::new(b.len() / 26, |i: int| (b.subrange(26 * i + 20, 26 * i + 24), be_u16(b[26 * i + 24], b[26 * i + 25])))
}

/// The DHT nodes of a KRPC reply, as IPv4 octets and port, from the
/// length-prefixed compact list after `5:nodes`; none where that field is
/// missing or runs past the reply.
pub fn extract_nodes(buf: &[u8]) -> (r: Vec<([u8; 4], u16)>)
    requires
        field_fits(buf@, nodes_key()),
    ensures
        field(buf@, nodes_key()) is None ==> r@.len() == 0,
        field(buf@, nodes_key()) matches Some(b) ==> r@.len() == compact_nodes(b).len()
            && forall|i: int| 0 <= i < r@.len() ==> (#[trigger] r@[i]).0@ == compact_nodes(b)[i].0 && r@[i].1 == compact_nodes(b)[i].1,
{
    let mut nodes: Vec<([u8; 4], u16)> = Vec::new();
    let key = nodes_key_bytes();
    match field_after(buf, key.as_slice()) {
        Some((s, n)) => {
            let ghost b = buf@.subrange(s as int, s + n);
            let blen = buf.len();
            let count = n / 26;
            for i in 0..count
                invariant
                    count == n / 26,
                    s + n <= buf@.len(),
                    buf@.len() <= usize::MAX,
                    b == buf@.subrange(s as int, s + n),
                    nodes@.len() == i,
                    forall|j: int| 0 <= j < i ==> (#[trigger] nodes@[j]).0@ == compact_nodes(b)[j].0 && nodes@[j].1 == compact_nodes(b)[j].1,
            {
                proof {
                    assert(26 * i + 26 <= n) by (nonlinear_arith) requires i < count, count == n / 26;
                }
                let at = s + 26 * i;
                let ip: [u8; 4] = [buf[at + 20], buf[at + 21], buf[at + 22], buf[at + 23]];
                let port = (buf[at + 24] as u16) * 256 + (buf[at + 25] as u16);
                proof {
                    assert(ip@ =~= compact_nodes(b)[i as int].0);
                }
                nodes.push((ip, port));
            }
        },
        None => {},
    }
    nodes
}

/// The text `a.b.c.d:port` of a 6-byte compact peer entry.
pub open spec fn peer_text(c: Seq<u8>) -> Seq<char> {
    dec(c[0] as nat) + seq!['.'] + dec(c[1] as nat) + seq!['.'] + dec(c[2] as nat) + seq!['.'] + dec(c[3] as nat)
        + seq![':'] + dec(be_u16(c[4], c[5]) as nat)
}

/// The peer entries at the front of `rest`: while it starts with `6:` and holds
/// at least eight bytes, the six bytes after `6:` are one entry.
pub open spec fn peer_values(rest: Seq<u8>) -> Seq<Seq<char>>
    decreases rest.len(),
{
    if rest.len() >= 8 && rest[0] == 54u8 && rest[1] == 58u8 {
        seq![peer_text(rest.subrange(2, 8))] + peer_values(rest.subrange(8, rest.len() as int))
    } else {
        Seq::empty()
    }
}

/// The contents of a list of strings.
pub open spec fn string_views(v: Seq<String>) -> Seq<Seq<char>> {
    v.map_values(|s: String| s@)
}

/// Renders one compact peer entry `buf[at..at + 6]`.
fn peer_string(buf: &[u8], at: usize) -> (s: String)
    requires
        at + 6 <= buf@.len(),
    ensures
        s@ == peer_text(buf@.subrange(at as int, at + 6)),
{
    let mut s = String::new();
    push_dec(&mut s, buf[at] as u64);
    s.append(".");
    push_dec(&mut s, buf[at + 1] as u64);
    s.append(".");
    push_dec(&mut s, buf[at + 2] as u64);
    s.append(".");
    push_dec(&mut s, buf[at + 3] as u64);
    s.append(":");
    let port = (buf[at + 4] as u16) * 256 + (buf[at + 5] as u16);
    push_dec(&mut s, port as u64);
    proof {
        reveal_strlit(".");
        reveal_strlit(":");
        assert(s@ =~= peer_text(buf@.subrange(at as int, at + 6)));
    }
    s
}

/// The peers of a KRPC reply, as `ip:port` texts, from the compact entries of
/// the list after `6:valuesl`; none where that key is missing.
pub fn extract_values(buf: &[u8]) -> (peers: Vec<String>)
    ensures
        string_views(peers@) == match first_from(buf@, values_key(), 0) {
            Some(p) => peer_values(buf@.subrange((p + 9) as int, buf@.len() as int)),
            None => Seq::<Seq<char>>::empty(),
        },
{
    let mut peers: Vec<String> = Vec::new();
    let key = values_key_bytes();
    proof { assert(buf@.subrange(0, buf@.len() as int) =~= buf@); }
    match find_key(buf, 0, key.as_slice()) {
        Some(pos) => {
            let n = buf.len();
            let mut off = pos + 9;
            let ghost rest0 = buf@.subrange(off as int, n as int);
            proof { assert(string_views(peers@) + peer_values(rest0) =~= peer_values(rest0)); }
            while 8 <= n - off && buf[off] == 54u8 && buf[off + 1] == 58u8
                invariant
                    n == buf@.len(),
                    off <= n,
                    string_views(peers@) + peer_values(buf@.subrange(off as int, n as int)) == peer_values(rest0),
                decreases n - off,
            {
                let ghost r = buf@.subrange(off as int, n as int);
                let p = peer_string(buf, off + 2);
                let ghost before = peers@;
                peers.push(p);
                proof {
                    assert(r.subrange(2, 8) =~= buf@.subrange(off + 2, off + 8));
                    assert(r.subrange(8, r.len() as int) =~= buf@.subrange(off + 8, n as int));
                    assert(string_views(peers@) =~= string_views(before).push(p@));
                    assert(peer_values(r) == seq![peer_text(r.subrange(2, 8))] + peer_values(r.subrange(8, r.len() as int)));
                    assert(string_views(peers@) + peer_values(buf@.subrange(off + 8, n as int)) =~= string_views(before) + peer_values(r));
                }
                off = off + 8;
            }
            proof {
                let r = buf@.subrange(off as int, n as int);
                assert(peer_values(r) =~= Seq::<Seq<char>>::empty());
                assert(string_views(peers@) + peer_values(r) =~= string_views(peers@));
            }
        },
        None => {
            proof { assert(string_views(peers@) =~= Seq::<Seq<char>>::empty()); }
        },
    }
    peers
}

/// `found` with each of `ps` not already there appended, in order.
pub open spec fn merge_peers_spec(found: Seq<Seq<char>>, ps: Seq<Seq<char>>) -> Seq<Seq<char>>
    decreases ps.len(),
{
    if ps.len() == 0 {
        found
    } else {
        let m = merge_peers_spec(found, ps.drop_last());
        if m.contains(ps.last()) { m } else { m.push(ps.last()) }
    }
}

/// Adds the newly discovered `peers` to `found`, skipping any already there.
pub fn merge_peers(found: &mut Vec<String>, peers: Vec<String>)
    ensures
        string_views(final(found)@) == merge_peers_spec(string_views(old(found)@), string_views(peers@)),
{
    let ghost f0 = string_views(found@);
    let ghost ps = string_views(peers@);
    let n = peers.len();
    for i in 0..n
        invariant
            n == peers@.len(),
            ps == string_views(peers@),
            string_views(found@) == merge_peers_spec(f0, ps.subrange(0, i as int)),
    {
        let p = &peers[i];
        let mut present = false;
        let m = found.len();
        for j in 0..m
            invariant
                m == found@.len(),
                present == exists|k: int| 0 <= k < j && found@[k]@ == p@,
        {
            if found[j] == *p {
                present = true;
            }
        }
        proof {
            assert(ps.subrange(0, i + 1).drop_last() =~= ps.subrange(0, i as int));
            assert(ps.subrange(0, i + 1).last() == p@);
            let fv = string_views(found@);
            if present {
                let k = choose|k: int| 0 <= k < m && found@[k]@ == p@;
                assert(fv[k] == p@);
            } else {
                assert forall|k: int| 0 <= k < fv.len() implies fv[k] != p@ by {
                    assert(fv[k] == found@[k]@);
                }
            }
        }
        if !present {
            let ghost before = found@;
            found.push(p.clone());
            proof { assert(string_views(found@) =~= string_views(before).push(p@)); }
        }
    }
    proof { assert(ps.subrange(0, n as int) =~= ps); }
}

} // verus!
