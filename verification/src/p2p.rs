//! The peer table and the text the node exchanges with peers: endpoint
//! normalization, beacon acceptance, and minimal HTTP/1.1 request and response
//! framing.
use vstd::prelude::*;

use std::time::{SystemTime, UNIX_EPOCH};

use crate::types::{Address, NodeIdentity, PeerInfo};

verus! {

/// What a node sends a peer to open a session.
pub struct HandshakeRequest {
    pub identity: NodeIdentity,
    pub listen_port: u16,
}

/// What a node broadcasts on the LAN to be found.
pub struct BeaconPayload {
    pub magic: String,
    pub node_id: String,
    pub address: Address,
    pub port: u16,
}

/// Reads the system clock: `SystemTime::now()` since the Unix epoch, in
/// milliseconds (zero if the clock is before the epoch). Nothing is claimed of
/// the value.
#[verifier::external_body]
fn now_millis() -> (ms: u64) {
    SystemTime::now().duration_since(UNIX_EPOCH).unwrap_or_default().as_millis() as u64
}

/// The peer table with `p` recorded under its endpoint: replacing the entry
/// with that endpoint, or appended.
pub open spec fn upsert_peer(s: Seq<PeerInfo>, p: PeerInfo) -> Seq<PeerInfo> {
    if exists|i: int| 0 <= i < s.len() && s[i].endpoint@ == p.endpoint@ {
        s.update(choose|i: int| 0 <= i < s.len() && s[i].endpoint@ == p.endpoint@, p)
    } else {
        s.push(p)
    }
}

/// The peer table without the entry for endpoint `e`.
pub open spec fn remove_peer(s: Seq<PeerInfo>, e: Seq<char>) -> Seq<PeerInfo> {
    if exists|i: int| 0 <= i < s.len() && s[i].endpoint@ == e {
        s.remove(choose|i: int| 0 <= i < s.len() && s[i].endpoint@ == e)
    } else {
        s
    }
}

/// No endpoint occurs twice.
pub open spec fn endpoints_distinct(s: Seq<PeerInfo>) -> bool {
    forall|i: int, j: int| 0 <= i < s.len() && 0 <= j < s.len() && i != j ==> s[i].endpoint@ != s[j].endpoint@
}

/// `p` with its last-seen time set to `t`.
pub open spec fn seen_at(p: PeerInfo, t: u64) -> PeerInfo {
    PeerInfo { last_seen_ms: t, ..p }
}

/// The index of the entry of `ps` for endpoint `e`.
fn find_endpoint(ps: &Vec<PeerInfo>, e: &String) -> (r: Option<usize>)
    ensures
        match r {
            Some(i) => i < ps@.len() && ps@[i as int].endpoint@ == e@,
            None => !exists|i: int| 0 <= i < ps@.len() && ps@[i].endpoint@ == e@,
        },
{
    let n = ps.len();
    for i in 0..n
        invariant
            n == ps@.len(),
            forall|j: int| 0 <= j < i ==> ps@[j].endpoint@ != e@,
    {
        if ps[i].endpoint == *e {
            return Some(i);
        }
    }
    None
}

/// The node's identity, its listening port, and the peers it knows, one entry
/// per endpoint.
pub struct PeerManager {
    my_identity: NodeIdentity,
    my_port: u16,
    peers: Vec<PeerInfo>,
}

impl PeerManager {
    #[verifier::type_invariant]
    spec fn inv(self) -> bool {
        endpoints_distinct(self.peers@)
    }

    /// The known peers.
    pub closed spec fn peers(&self) -> Seq<PeerInfo> {
        self.peers@
    }

    /// The node's own identity.
    pub closed spec fn identity(&self) -> NodeIdentity {
        self.my_identity
    }

    /// The port the node listens on.
    pub closed spec fn port(&self) -> u16 {
        self.my_port
    }

    /// The port the node listens on.
    pub fn my_port(&self) -> (p: u16)
        ensures
            p == self.port(),
    {
        self.my_port
    }

    /// A table for `my_identity` listening on `my_port`, with no peers.
    pub fn new(my_identity: NodeIdentity, my_port: u16) -> (m: Self)
        ensures
            m.identity() == my_identity,
            m.port() == my_port,
            m.peers() == Seq::<PeerInfo>::empty(),
    {
        PeerManager { my_identity, my_port, peers: Vec::new() }
    }

    /// A copy of the node's identity.
    pub fn get_my_identity(&self) -> (id: NodeIdentity)
        ensures
            id == self.identity(),
    {
        self.my_identity.clone()
    }

    /// The index of the entry for endpoint `e`.
    fn position(&self, e: &String) -> (r: Option<usize>)
        ensures
            match r {
                Some(i) => i < self.peers().len() && self.peers()[i as int].endpoint@ == e@,
                None => !exists|i: int| 0 <= i < self.peers().len() && self.peers()[i].endpoint@ == e@,
            },
    {
        find_endpoint(&self.peers, e)
    }

    /// Records `peer` under its endpoint, seen at time `now_ms`.
    pub fn add_or_update_at(&mut self, peer: PeerInfo, now_ms: u64)
        ensures
            final(self).peers() == upsert_peer(old(self).peers(), seen_at(peer, now_ms)),
            final(self).identity() == old(self).identity(),
            final(self).port() == old(self).port(),
    {
        proof { use_type_invariant(&*self); }
        let mut p = peer;
        p.last_seen_ms = now_ms;
        let ghost s = self.peers@;
        let ghost pv = p;
        let mut ps: Vec<PeerInfo> = Vec::new();
        std::mem::swap(&mut ps, &mut self.peers);
        let found = find_endpoint(&ps, &p.endpoint);
        match found {
            Some(k) => {
                ps.set(k, p);
                proof {
                    let c = choose|i: int| 0 <= i < s.len() && s[i].endpoint@ == pv.endpoint@;
                    assert(c == k as int);
                    assert(ps@ == upsert_peer(s, pv));
                    assert(endpoints_distinct(ps@)) by {
                        assert forall|i: int, j: int| 0 <= i < ps@.len() && 0 <= j < ps@.len() && i != j implies ps@[i].endpoint@ != ps@[j].endpoint@ by {
                            if i != k && j != k {
                                assert(ps@[i] == s[i] && ps@[j] == s[j]);
                            } else if i == k {
                                assert(ps@[j] == s[j]);
                            } else {
                                assert(ps@[i] == s[i]);
                            }
                        }
                    }
                }
            },
            None => {
                ps.push(p);
                proof {
                    assert(ps@ == upsert_peer(s, pv));
                    assert(endpoints_distinct(ps@)) by {
                        assert forall|i: int, j: int| 0 <= i < ps@.len() && 0 <= j < ps@.len() && i != j implies ps@[i].endpoint@ != ps@[j].endpoint@ by {
                            if i < s.len() && j < s.len() {
                                assert(ps@[i] == s[i] && ps@[j] == s[j]);
                            } else if i < s.len() {
                                assert(ps@[i] == s[i]);
                            } else {
                                assert(ps@[j] == s[j]);
                            }
                        }
                    }
                }
            },
        }
        self.peers = ps;
    }

    /// Records `peer` under its endpoint, seen now by the system clock.
    pub fn add_or_update(&mut self, peer: PeerInfo)
        ensures
            exists|t: u64| final(self).peers() == upsert_peer(old(self).peers(), #[trigger] seen_at(peer, t)),
            final(self).identity() == old(self).identity(),
            final(self).port() == old(self).port(),
    {
        let now = now_millis();
        let ghost p = peer;
        self.add_or_update_at(peer, now);
        proof { assert(self.peers() == upsert_peer(old(self).peers(), seen_at(p, now))); }
    }

    /// Forgets the peer at `endpoint`.
    pub fn remove(&mut self, endpoint: &str)
        ensures
            final(self).peers() == remove_peer(old(self).peers(), endpoint@),
            final(self).identity() == old(self).identity(),
            final(self).port() == old(self).port(),
    {
        proof { use_type_invariant(&*self); }
        let e = String::from_str(endpoint);
        match self.position(&e) {
            Some(k) => {
                let ghost s = self.peers@;
                let mut ps: Vec<PeerInfo> = Vec::new();
                std::mem::swap(&mut ps, &mut self.peers);
                let _ = ps.remove(k);
                proof {
                    let c = choose|i: int| 0 <= i < s.len() && s[i].endpoint@ == e@;
                    assert(c == k as int);
                    assert(ps@ == s.remove(k as int));
                    assert(endpoints_distinct(ps@)) by {
                        assert forall|i: int, j: int| 0 <= i < ps@.len() && 0 <= j < ps@.len() && i != j implies ps@[i].endpoint@ != ps@[j].endpoint@ by {
                            let i2 = if i < k { i } else { i + 1 };
                            let j2 = if j < k { j } else { j + 1 };
                            assert(ps@[i] == s[i2] && ps@[j] == s[j2]);
                        }
                    }
                }
                self.peers = ps;
            },
            None => {},
        }
    }

    /// Copies of the known peers.
    pub fn list(&self) -> (v: Vec<PeerInfo>)
        ensures
            v@ == self.peers(),
    {
        let mut v: Vec<PeerInfo> = Vec::new();
        let n = self.peers.len();
        for i in 0..n
            invariant
                n == self.peers@.len(),
                v@ == self.peers@.subrange(0, i as int),
        {
            v.push(self.peers[i].clone());
            proof { assert(v@ =~= self.peers@.subrange(0, i + 1)); }
        }
        proof { assert(self.peers@.subrange(0, n as int) =~= self.peers@); }
        v
    }

    /// How many peers are known.
    pub fn count(&self) -> (n: usize)
        ensures
            n == self.peers().len(),
    {
        self.peers.len()
    }

    /// Whether a peer is known at `endpoint`.
    pub fn contains_endpoint(&self, endpoint: &str) -> (b: bool)
        ensures
            b == exists|i: int| 0 <= i < self.peers().len() && self.peers()[i].endpoint@ == endpoint@,
    {
        let e = String::from_str(endpoint);
        self.position(&e).is_some()
    }
}

// ---------------------------------------------------------------------------
// Endpoints

/// The characters `char::is_whitespace` accepts (Unicode `White_Space`).
pub open spec fn is_ws(c: char) -> bool {
    ||| '\u{9}' <= c <= '\u{d}'
    ||| c == ' ' || c == '\u{85}' || c == '\u{a0}' || c == '\u{1680}'
    ||| '\u{2000}' <= c <= '\u{200a}'
    ||| c == '\u{2028}' || c == '\u{2029}' || c == '\u{202f}' || c == '\u{205f}' || c == '\u{3000}'
}

pub(crate) fn is_whitespace(c: char) -> (b: bool)
    ensures
        b == is_ws(c),
{
    ('\u{9}' <= c && c <= '\u{d}') || c == ' ' || c == '\u{85}' || c == '\u{a0}' || c == '\u{1680}'
        || ('\u{2000}' <= c && c <= '\u{200a}') || c == '\u{2028}' || c == '\u{2029}' || c == '\u{202f}'
        || c == '\u{205f}' || c == '\u{3000}'
}

/// The first position at or after `i` that is not whitespace (or the end).
pub open spec fn skip_ws(s: Seq<char>, i: nat) -> nat
    decreases s.len() - i,
{
    if i < s.len() && is_ws(s[i as int]) { skip_ws(s, i + 1) } else { i }
}

/// The end of `s[lo..j]` without its trailing whitespace.
pub open spec fn trim_end(s: Seq<char>, lo: nat, j: nat) -> nat
    decreases j,
{
    if j > lo && is_ws(s[j - 1]) { trim_end(s, lo, (j - 1) as nat) } else { j }
}

/// `s` without leading and trailing whitespace (`str::trim`).
pub open spec fn trim(s: Seq<char>) -> Seq<char> {
    let lo = skip_ws(s, 0);
    s.subrange(lo as int, trim_end(s, lo, s.len()) as int)
}

/// `"aether://"`.
pub open spec fn scheme() -> Seq<char> {
    seq!['a', 'e', 't', 'h', 'e', 'r', ':', '/', '/']
}

/// `"http://"`.
pub open spec fn http_prefix() -> Seq<char> {
    seq!['h', 't', 't', 'p', ':', '/', '/']
}

/// `s` starts with `p`.
pub open spec fn has_prefix(s: Seq<char>, p: Seq<char>) -> bool {
    p.len() <= s.len() && s.subrange(0, p.len() as int) == p
}

/// The last position of `'@'` in `s`.
pub open spec fn last_at(s: Seq<char>) -> Option<int> {
    if exists|i: int| 0 <= i < s.len() && s[i] == '@' {
        Some(choose|i: int| 0 <= i < s.len() && s[i] == '@' && forall|j: int| i < j < s.len() ==> s[j] != '@')
    } else {
        None
    }
}

/// After an `aether://` scheme: the part after the last `@`, or all of it.
pub open spec fn after_scheme(t: Seq<char>) -> Seq<char> {
    if has_prefix(t, scheme()) {
        let rest = t.subrange(9, t.len() as int);
        match last_at(rest) {
            Some(i) => rest.subrange(i + 1, rest.len() as int),
            None => rest,
        }
    } else {
        t
    }
}

/// `s` with every leading `http://` removed (`trim_start_matches`).
pub open spec fn strip_http(s: Seq<char>) -> Seq<char>
    decreases s.len(),
{
    if has_prefix(s, http_prefix()) { strip_http(s.subrange(7, s.len() as int)) } else { s }
}

/// The endpoint a peer address names: trimmed, without an `aether://` scheme
/// (and node id before `@`), and without leading `http://`.
pub open spec fn endpoint_of(remote: Seq<char>) -> Seq<char> {
    strip_http(after_scheme(trim(remote)))
}

/// The characters of `s`.
pub(crate) fn chars_of(s: &str) -> (cs: Vec<char>)
    ensures
        cs@ == s@,
{
    let n = s.unicode_len();
    let mut cs: Vec<char> = Vec::new();
    for i in 0..n
        invariant
            n == s@.len(),
            cs@ == s@.subrange(0, i as int),
    {
        cs.push(s.get_char(i));
        proof { assert(cs@ =~= s@.subrange(0, i + 1)); }
    }
    proof { assert(s@.subrange(0, n as int) =~= s@); }
    cs
}

/// Whether `cs[at..]` starts with `p`.
fn prefix_at(cs: &Vec<char>, at: usize, p: &[char]) -> (b: bool)
    requires
        at <= cs@.len(),
    ensures
        b == has_prefix(cs@.subrange(at as int, cs@.len() as int), p@),
{
    let ghost t = cs@.subrange(at as int, cs@.len() as int);
    let cl = cs.len();
    if p.len() > cl - at {
        return false;
    }
    for k in 0..p.len()
        invariant
            cl == cs@.len(),
            at + p@.len() <= cs@.len(),
            t == cs@.subrange(at as int, cs@.len() as int),
            forall|j: int| 0 <= j < k ==> t[j] == p@[j],
    {
        if cs[at + k] != p[k] {
            proof { assert(t.subrange(0, p@.len() as int)[k as int] != p@[k as int]); }
            return false;
        }
    }
    proof { assert(t.subrange(0, p@.len() as int) =~= p@); }
    true
}

/// Where `trim` cuts `cs`: the bounds of what is left.
pub(crate) fn trim_bounds(cs: &Vec<char>) -> (r: (usize, usize))
    ensures
        r.0 <= r.1 <= cs@.len(),
        trim(cs@) == cs@.subrange(r.0 as int, r.1 as int),
{
    let ghost s = cs@;
    let n = cs.len();
    let mut lo: usize = 0;
    while lo < n && is_whitespace(cs[lo])
        invariant
            n == s.len(),
            s == cs@,
            lo <= n,
            skip_ws(s, 0) == skip_ws(s, lo as nat),
        decreases n - lo,
    {
        lo = lo + 1;
    }
    let mut hi: usize = n;
    while hi > lo && is_whitespace(cs[hi - 1])
        invariant
            n == s.len(),
            s == cs@,
            lo <= hi <= n,
            lo == skip_ws(s, 0),
            trim_end(s, lo as nat, n as nat) == trim_end(s, lo as nat, hi as nat),
        decreases hi,
    {
        hi = hi - 1;
    }
    (lo, hi)
}

/// Where the endpoint starts in `cs[lo..hi]` once an `aether://` scheme (and a
/// node id before `@`) is dropped.
fn scheme_end(cs: &Vec<char>, lo: usize, hi: usize) -> (from: usize)
    requires
        lo <= hi <= cs@.len(),
    ensures
        lo <= from <= hi,
        after_scheme(cs@.subrange(lo as int, hi as int)) == cs@.subrange(from as int, hi as int),
{
    let ghost s = cs@;
    let n = cs.len();
    let ghost t = s.subrange(lo as int, hi as int);
    let scheme_chars: [char; 9] = ['a', 'e', 't', 'h', 'e', 'r', ':', '/', '/'];
    proof { assert(scheme_chars@ =~= scheme()); }
    if !(hi - lo >= 9 && prefix_at(cs, lo, &scheme_chars)) {
        proof {
            if has_prefix(t, scheme()) {
                assert(s.subrange(lo as int, n as int).subrange(0, 9) =~= t.subrange(0, 9));
            }
            assert(t.subrange(0, t.len() as int) =~= t);
        }
        return lo;
    }
    proof {
        assert(s.subrange(lo as int, n as int).subrange(0, 9) =~= s.subrange(lo as int, lo + 9));
        assert(t.subrange(0, 9) =~= s.subrange(lo as int, lo + 9));
        assert(has_prefix(t, scheme()));
    }
    let from0 = lo + 9;
    let mut k = hi;
    let mut at: Option<usize> = None;
    while k > from0 && at.is_none()
        invariant
            from0 <= k <= hi <= n,
            n == s.len(),
            s == cs@,
            match at {
                Some(a) => from0 <= a < hi && s[a as int] == '@' && forall|j: int| a < j < hi ==> s[j] != '@',
                None => forall|j: int| k <= j < hi ==> s[j] != '@',
            },
        decreases k,
    {
        if cs[k - 1] == '@' {
            at = Some(k - 1);
        }
        k = k - 1;
    }
    let rest_start = match at {
        Some(a) => a + 1,
        None => from0,
    };
    proof {
        let rest = t.subrange(9, t.len() as int);
        assert(rest =~= s.subrange(from0 as int, hi as int));
        match at {
            Some(a) => {
                let i = (a - from0) as int;
                assert(rest[i] == '@');
                let c = choose|x: int| 0 <= x < rest.len() && rest[x] == '@' && forall|j: int| x < j < rest.len() ==> rest[j] != '@';
                if c < i { assert(rest[i] != '@'); }
                if c > i { assert(s[from0 + c] != '@'); }
                assert(c == i);
                assert(last_at(rest) == Some(i));
                assert(rest.subrange(i + 1, rest.len() as int) =~= s.subrange(rest_start as int, hi as int));
            },
            None => {
                assert forall|x: int| 0 <= x < rest.len() implies rest[x] != '@' by {
                    assert(rest[x] == s[from0 + x]);
                }
                assert(last_at(rest) is None);
            },
        }
    }
    rest_start
}

/// Where the endpoint starts in `cs[from..hi]` once every leading `http://` is dropped.
fn http_end(cs: &Vec<char>, from: usize, hi: usize) -> (r: usize)
    requires
        from <= hi <= cs@.len(),
    ensures
        from <= r <= hi,
        strip_http(cs@.subrange(from as int, hi as int)) == cs@.subrange(r as int, hi as int),
{
    let ghost s = cs@;
    let n = cs.len();
    let http: [char; 7] = ['h', 't', 't', 'p', ':', '/', '/'];
    proof { assert(http@ =~= http_prefix()); }
    let mut at = from;
    while hi - at >= 7 && prefix_at(cs, at, &http)
        invariant
            from <= at <= hi <= n,
            n == s.len(),
            s == cs@,
            http@ == http_prefix(),
            strip_http(s.subrange(from as int, hi as int)) == strip_http(s.subrange(at as int, hi as int)),
        decreases hi - at,
    {
        proof {
            let u = s.subrange(at as int, hi as int);
            assert(u.subrange(0, 7) =~= s.subrange(at as int, n as int).subrange(0, 7));
            assert(u.subrange(7, u.len() as int) =~= s.subrange(at + 7, hi as int));
        }
        at = at + 7;
    }
    proof {
        let u = s.subrange(at as int, hi as int);
        if has_prefix(u, http_prefix()) {
            assert(u.subrange(0, 7) =~= s.subrange(at as int, n as int).subrange(0, 7));
        }
    }
    at
}

/// The endpoint `remote` names; fails where nothing is left of it.
pub fn normalize_endpoint(remote: &str) -> (r: Result<String, String>)
    ensures
        r is Ok <==> endpoint_of(remote@).len() > 0,
        r matches Ok(e) ==> e@ == endpoint_of(remote@),
        r matches Err(msg) ==> msg@ == "빈 피어 주소입니다"@,
{
    let cs = chars_of(remote);
    let (lo, hi) = trim_bounds(&cs);
    let from = scheme_end(&cs, lo, hi);
    let start = http_end(&cs, from, hi);
    if start == hi {
        let msg = String::from_str("빈 피어 주소입니다");
        return Err(msg);
    }
    Ok(String::from_str(remote.substring_char(start, hi)))
}


// ---------------------------------------------------------------------------
// Messages

/// Whether a received beacon announces another Aether node: its magic is
/// `AETHER_BEACON` and its node id is not ours.
pub fn beacon_accepted(beacon: &BeaconPayload, my_id: &String) -> (b: bool)
    ensures
        b == (beacon.magic@ == "AETHER_BEACON"@ && beacon.node_id@ != my_id@),
{
    let magic = String::from_str("AETHER_BEACON");
    beacon.magic == magic && !(beacon.node_id == *my_id)
}

/// The peer entry a completed handshake with `remote` at `endpoint` gives: seen
/// at `now_ms`, with the measured latency (at least 1 ms) and round 0.
pub fn make_peer_info(remote: NodeIdentity, endpoint: String, now_ms: u64, latency_ms: u64) -> (p: PeerInfo)
    ensures
        p.node_id == remote.node_id,
        p.address == remote.address,
        p.endpoint == endpoint,
        p.last_seen_ms == now_ms,
        p.latency_ms == if latency_ms < 1 { 1 } else { latency_ms },
        p.round == 0,
{
    PeerInfo {
        node_id: remote.node_id,
        address: remote.address,
        endpoint,
        last_seen_ms: now_ms,
        latency_ms: if latency_ms < 1 { 1 } else { latency_ms },
        round: 0,
    }
}

/// The HTTP/1.1 POST of a JSON `body` to `path` on `endpoint`, with its length
/// in bytes and `Connection: close`.
pub open spec fn post_request(path: Seq<char>, endpoint: Seq<char>, body: Seq<char>, body_bytes: nat) -> Seq<char> {
    "POST "@ + path + " HTTP/1.1\r\nHost: "@ + endpoint + "\r\nContent-Type: application/json\r\nContent-Length: "@
        + crate::text::dec(body_bytes) + "\r\nConnection: close\r\n\r\n"@ + body
}

/// The HTTP/1.1 GET of `path` on `endpoint`, with `Connection: close`.
pub open spec fn get_request(path: Seq<char>, endpoint: Seq<char>) -> Seq<char> {
    "GET "@ + path + " HTTP/1.1\r\nHost: "@ + endpoint + "\r\nConnection: close\r\n\r\n"@
}

/// Builds the POST request `http_post` sends.
pub fn build_post_request(path: &str, endpoint: &str, body: &str) -> (r: String)
    ensures
        r@ == post_request(path@, endpoint@, body@, body.len() as nat),
{
    let mut r = String::from_str("POST ");
    r.append(path);
    r.append(" HTTP/1.1\r\nHost: ");
    r.append(endpoint);
    r.append("\r\nContent-Type: application/json\r\nContent-Length: ");
    crate::text::push_dec(&mut r, body.len() as u64);
    r.append("\r\nConnection: close\r\n\r\n");
    r.append(body);
    proof { assert(r@ =~= post_request(path@, endpoint@, body@, body.len() as nat)); }
    r
}

/// Builds the GET request `http_get` sends.
pub fn build_get_request(path: &str, endpoint: &str) -> (r: String)
    ensures
        r@ == get_request(path@, endpoint@),
{
    let mut r = String::from_str("GET ");
    r.append(path);
    r.append(" HTTP/1.1\r\nHost: ");
    r.append(endpoint);
    r.append("\r\nConnection: close\r\n\r\n");
    proof { assert(r@ =~= get_request(path@, endpoint@)); }
    r
}

/// The first position at or after `p` where `key` occurs in `s`.
pub open spec fn find_chars(s: Seq<char>, key: Seq<char>, p: nat) -> Option<nat>
    decreases s.len() - p,
{
    if p >= s.len() || p + key.len() > s.len() {
        None
    } else if s.subrange(p as int, (p + key.len()) as int) == key {
        Some(p)
    } else {
        find_chars(s, key, p + 1)
    }
}

/// The body of an HTTP response: what follows the first blank line, or the
/// whole response where there is none.
pub open spec fn response_body_of(resp: Seq<char>) -> Seq<char> {
    match find_chars(resp, seq!['\r', '\n', '\r', '\n'], 0) {
        Some(i) => resp.subrange((i + 4) as int, resp.len() as int),
        None => resp,
    }
}

/// The body of an HTTP response.
pub fn response_body(response: &str) -> (b: String)
    ensures
        b@ == response_body_of(response@),
{
    let cs = chars_of(response);
    let ghost s = cs@;
    let n = cs.len();
    let pat: [char; 4] = ['\r', '\n', '\r', '\n'];
    proof { assert(pat@ =~= seq!['\r', '\n', '\r', '\n']); }
    let mut p: usize = 0;
    while p < n && 4 <= n - p
        invariant
            n == s.len(),
            s == cs@,
            s == response@,
            pat@ == seq!['\r', '\n', '\r', '\n'],
            p <= n,
            find_chars(s, pat@, 0) == find_chars(s, pat@, p as nat),
        decreases n - p,
    {
        if prefix_at(&cs, p, &pat) {
            proof {
                assert(s.subrange(p as int, n as int).subrange(0, 4) =~= s.subrange(p as int, p + 4));
            }
            return String::from_str(response.substring_char(p + 4, n));
        }
        proof {
            if s.subrange(p as int, p + 4) == pat@ {
                assert(s.subrange(p as int, n as int).subrange(0, 4) =~= s.subrange(p as int, p + 4));
            }
        }
        p = p + 1;
    }
    proof { assert(response@.subrange(0, n as int) =~= response@); }
    String::from_str(response.substring_char(0, n))
}

} // verus!
