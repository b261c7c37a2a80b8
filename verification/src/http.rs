//! What the node reads of an HTTP request: where the head ends, the body's
//! announced length, the method and path of the request line, and the
//! endpoint they name.
use vstd::prelude::*;

use crate::dht::{find_key, first_from, parse_usize, parse_usize_at};
use crate::p2p::{chars_of, is_whitespace, is_ws, skip_ws, trim, trim_bounds};
use crate::vm::{lowercase, str_to_lowercase};

verus! {

/// The first line of a request: up to the first `\n`, without a `\r` before it
/// (`str::lines`); all of it where there is no `\n`.
pub open spec fn first_line(s: Seq<char>) -> Seq<char> {
    if exists|i: int| 0 <= i < s.len() && s[i] == '\n' {
        let e = choose|i: int| 0 <= i < s.len() && s[i] == '\n' && forall|j: int| 0 <= j < i ==> s[j] != '\n';
        let l = s.subrange(0, e);
        if l.len() > 0 && l.last() == '\r' { l.drop_last() } else { l }
    } else {
        s
    }
}

/// The end of the word starting at `i`: the first whitespace at or after `i`.
pub open spec fn word_end(s: Seq<char>, i: nat) -> nat
    decreases s.len() - i,
{
    if i < s.len() && !is_ws(s[i as int]) { word_end(s, i + 1) } else { i }
}

/// The method and path of a request: the first two whitespace-separated words
/// of its first line; `None` where there are fewer than two.
pub open spec fn request_line_of(s: Seq<char>) -> Option<(Seq<char>, Seq<char>)> {
    let l = first_line(s);
    let a = skip_ws(l, 0);
    let b = word_end(l, a);
    let c = skip_ws(l, b);
    let d = word_end(l, c);
    if c < l.len() { Some((l.subrange(a as int, b as int), l.subrange(c as int, d as int))) } else { None }
}

/// The method and path of an HTTP request.
pub fn request_line(request: &str) -> (r: Option<(String, String)>)
    ensures
        r is Some <==> request_line_of(request@) is Some,
        r matches Some(p) ==> Some((p.0@, p.1@)) == request_line_of(request@),
{
    let cs = chars_of(request);
    let ghost s = cs@;
    let n = cs.len();
    // the end of the first line
    let mut e: usize = 0;
    while e < n && cs[e] != '\n'
        invariant
            n == s.len(),
            s == cs@,
            e <= n,
            forall|j: int| 0 <= j < e ==> s[j] != '\n',
        decreases n - e,
    {
        e = e + 1;
    }
    let mut end = e;
    if e < n && e > 0 && cs[e - 1] == '\r' {
        end = e - 1;
    }
    proof {
        if e < n {
            let c = choose|i: int| 0 <= i < s.len() && s[i] == '\n' && forall|j: int| 0 <= j < i ==> s[j] != '\n';
            if c < e { assert(s[c] != '\n'); }
            if c > e { assert(s[e as int] != '\n'); }
            assert(c == e);
            let l = s.subrange(0, e as int);
            if l.len() > 0 && l.last() == '\r' {
                assert(l.drop_last() =~= s.subrange(0, end as int));
            }
        } else {
            assert(s.subrange(0, n as int) =~= s);
        }
        assert(first_line(s) =~= s.subrange(0, end as int));
    }
    let ghost l = s.subrange(0, end as int);
    let mut a: usize = 0;
    while a < end && is_whitespace(cs[a])
        invariant
            end <= n,
            n == s.len(),
            s == cs@,
            l == s.subrange(0, end as int),
            a <= end,
            skip_ws(l, 0) == skip_ws(l, a as nat),
        decreases end - a,
    {
        a = a + 1;
    }
    let mut b: usize = a;
    while b < end && !is_whitespace(cs[b])
        invariant
            end <= n,
            n == s.len(),
            s == cs@,
            l == s.subrange(0, end as int),
            a <= b <= end,
            word_end(l, a as nat) == word_end(l, b as nat),
        decreases end - b,
    {
        b = b + 1;
    }
    let mut c: usize = b;
    while c < end && is_whitespace(cs[c])
        invariant
            end <= n,
            n == s.len(),
            s == cs@,
            l == s.subrange(0, end as int),
            b <= c <= end,
            skip_ws(l, b as nat) == skip_ws(l, c as nat),
        decreases end - c,
    {
        c = c + 1;
    }
    let mut d: usize = c;
    while d < end && !is_whitespace(cs[d])
        invariant
            end <= n,
            n == s.len(),
            s == cs@,
            l == s.subrange(0, end as int),
            c <= d <= end,
            word_end(l, c as nat) == word_end(l, d as nat),
        decreases end - d,
    {
        d = d + 1;
    }
    if c >= end {
        return None;
    }
    proof {
        assert(l.subrange(a as int, b as int) =~= request@.subrange(a as int, b as int));
        assert(l.subrange(c as int, d as int) =~= request@.subrange(c as int, d as int));
    }
    let method = String::from_str(request.substring_char(a, b));
    let path = String::from_str(request.substring_char(c, d));
    Some((method, path))
}

/// The endpoints the node serves.
#[derive(Clone, Copy, Debug, PartialEq, Eq, Structural)]
pub enum Route {
    Dashboard,
    Handshake,
    Connect,
    Peers,
    Sync,
    Gossip,
    Status,
    Dag,
    Step,
    MevAttack,
    Contracts,
    Deploy,
    Call,
    SubmitTx,
    Bench,
    NotFound,
}

/// The endpoint a method and path name.
pub open spec fn route_of(m: Seq<char>, p: Seq<char>) -> Route {
    if m == "GET"@ && p == "/"@ { Route::Dashboard }
    else if m == "POST"@ && p == "/api/p2p/handshake"@ { Route::Handshake }
    else if m == "POST"@ && p == "/api/p2p/connect"@ { Route::Connect }
    else if m == "GET"@ && p == "/api/p2p/peers"@ { Route::Peers }
    else if m == "GET"@ && p == "/api/p2p/sync"@ { Route::Sync }
    else if m == "POST"@ && p == "/api/p2p/gossip"@ { Route::Gossip }
    else if m == "GET"@ && p == "/api/status"@ { Route::Status }
    else if m == "GET"@ && p == "/api/dag"@ { Route::Dag }
    else if m == "POST"@ && p == "/api/step"@ { Route::Step }
    else if m == "POST"@ && p == "/api/mev_attack"@ { Route::MevAttack }
    else if m == "GET"@ && p == "/api/contracts"@ { Route::Contracts }
    else if m == "POST"@ && p == "/api/contract/deploy"@ { Route::Deploy }
    else if m == "POST"@ && p == "/api/contract/call"@ { Route::Call }
    else if m == "POST"@ && p == "/api/tx"@ { Route::SubmitTx }
    else if m == "POST"@ && p == "/api/bench"@ { Route::Bench }
    else { Route::NotFound }
}

/// Routes a request by its method and path.
pub fn route(method: &str, path: &str) -> (r: Route)
    ensures
        r == route_of(method@, path@),
{
    let get = crate::vm::str_eq(method, "GET");
    let post = crate::vm::str_eq(method, "POST");
    let p = |lit: &str| -> (b: bool)
        ensures
            b == (path@ == lit@),
    {
        crate::vm::str_eq(path, lit)
    };
    if get && p("/") { Route::Dashboard }
    else if post && p("/api/p2p/handshake") { Route::Handshake }
    else if post && p("/api/p2p/connect") { Route::Connect }
    else if get && p("/api/p2p/peers") { Route::Peers }
    else if get && p("/api/p2p/sync") { Route::Sync }
    else if post && p("/api/p2p/gossip") { Route::Gossip }
    else if get && p("/api/status") { Route::Status }
    else if get && p("/api/dag") { Route::Dag }
    else if post && p("/api/step") { Route::Step }
    else if post && p("/api/mev_attack") { Route::MevAttack }
    else if get && p("/api/contracts") { Route::Contracts }
    else if post && p("/api/contract/deploy") { Route::Deploy }
    else if post && p("/api/contract/call") { Route::Call }
    else if post && p("/api/tx") { Route::SubmitTx }
    else if post && p("/api/bench") { Route::Bench }
    else { Route::NotFound }
}

/// `\r\n\r\n`, the end of a request's head.
pub open spec fn blank_line() -> Seq<u8> {
    seq![13u8, 10u8, 13u8, 10u8]
}

/// Where the body of a request starts: just past the first `\r\n\r\n`.
pub open spec fn head_end(buf: Seq<u8>) -> Option<nat> {
    match first_from(buf, blank_line(), 0) {
        Some(p) => Some(p + 4),
        None => None,
    }
}

/// Where the body of the request in `buf` starts, if its head is complete.
pub fn header_end(buf: &[u8]) -> (r: Option<usize>)
    ensures
        r matches Some(e) ==> head_end(buf@) == Some(e as nat) && e <= buf@.len(),
        r is None ==> head_end(buf@) is None,
{
    let mut key: Vec<u8> = Vec::new();
    key.push(13);
    key.push(10);
    key.push(13);
    key.push(10);
    proof {
        assert(key@ =~= blank_line());
        assert(buf@.subrange(0, buf@.len() as int) =~= buf@);
    }
    match find_key(buf, 0, key.as_slice()) {
        Some(p) => {
            let n = buf.len();
            proof { assert(p + 4 <= n); }
            Some(p + 4)
        },
        None => None,
    }
}

/// The end of the line starting at `i`: the first `\n` at or after `i`, or the
/// end of the text.
pub open spec fn line_end(s: Seq<char>, i: nat) -> nat
    decreases s.len() - i,
{
    if i < s.len() && s[i as int] != '\n' { line_end(s, i + 1) } else { i }
}

/// The end of a line lies between its start and the end of the text.
pub proof fn lemma_line_end(s: Seq<char>, i: nat)
    requires
        i <= s.len(),
    ensures
        i <= line_end(s, i) <= s.len(),
    decreases s.len() - i,
{
    if i < s.len() && s[i as int] != '\n' {
        lemma_line_end(s, i + 1);
    }
}

/// `l` without one trailing `\r`.
pub open spec fn strip_cr(l: Seq<char>) -> Seq<char> {
    if l.len() > 0 && l.last() == '\r' { l.drop_last() } else { l }
}

/// `"content-length:"`.
pub open spec fn length_key() -> Seq<char> {
    seq!['c', 'o', 'n', 't', 'e', 'n', 't', '-', 'l', 'e', 'n', 'g', 't', 'h', ':']
}

/// A header line names the body's length: in lower case it starts with
/// `content-length:`.
pub open spec fn is_length_line(l: Seq<char>) -> bool {
    let low = lowercase(l);
    low.len() >= 15 && low.subrange(0, 15) == length_key()
}

/// The first `c` in `l` at or after `i`, or the end of `l`.
pub open spec fn next_char(l: Seq<char>, c: char, i: nat) -> nat
    decreases l.len() - i,
{
    if i < l.len() && l[i as int] != c { next_char(l, c, i + 1) } else { i }
}

/// The byte `usize::from_str` sees of a character: a digit or `+` as itself,
/// anything else as 0, which is neither.
pub open spec fn number_byte(c: char) -> u8 {
    if c == '+' { 43u8 }
    else if c == '0' { 48u8 } else if c == '1' { 49u8 } else if c == '2' { 50u8 }
    else if c == '3' { 51u8 } else if c == '4' { 52u8 } else if c == '5' { 53u8 }
    else if c == '6' { 54u8 } else if c == '7' { 55u8 } else if c == '8' { 56u8 }
    else if c == '9' { 57u8 } else { 0u8 }
}

/// What `usize::from_str` gives for a text.
pub open spec fn parse_usize_text(t: Seq<char>) -> Option<nat> {
    parse_usize(t.map_values(|c: char| number_byte(c)))
}

fn number_byte_of(c: char) -> (b: u8)
    ensures
        b == number_byte(c),
{
    if c == '+' { 43 }
    else if c == '0' { 48 } else if c == '1' { 49 } else if c == '2' { 50 }
    else if c == '3' { 51 } else if c == '4' { 52 } else if c == '5' { 53 }
    else if c == '6' { 54 } else if c == '7' { 55 } else if c == '8' { 56 }
    else if c == '9' { 57 } else { 0 }
}

/// What a length line announces: the text between its first and second `:`
/// (`split(':').nth(1)`), trimmed and parsed, 0 where that fails; the length
/// announced before where the line has no `:`.
pub open spec fn announced(l: Seq<char>, before: usize) -> usize {
    let c = next_char(l, ':', 0);
    if c >= l.len() {
        before
    } else {
        let f = l.subrange(c as int + 1, next_char(l, ':', c + 1) as int);
        match parse_usize_text(trim(f)) {
            Some(v) => v as usize,
            None => 0,
        }
    }
}

/// The body length announced by the lines of `s` from position `i` on, `acc`
/// being what the lines before announced: the last length line wins.
pub open spec fn length_from(s: Seq<char>, i: nat, acc: usize) -> usize
    decreases s.len() + 1 - i,
{
    if i >= s.len() {
        acc
    } else {
        let e = line_end(s, i);
        proof { lemma_line_end(s, i); }
        let l = strip_cr(s.subrange(i as int, e as int));
        length_from(s, e + 1, if is_length_line(l) { announced(l, acc) } else { acc })
    }
}

/// The body length a request head announces: the value of its last
/// `Content-Length` line (any case), 0 where none is given or it does not
/// parse.
pub open spec fn content_length_of(head: Seq<char>) -> usize {
    length_from(head, 0, 0)
}

/// Parses the text `t[lo..hi]` as `usize::from_str` would.
fn parse_text(t: &Vec<char>, lo: usize, hi: usize) -> (r: Option<usize>)
    requires
        lo <= hi <= t@.len(),
    ensures
        r == match parse_usize_text(t@.subrange(lo as int, hi as int)) {
            Some(v) => Some(v as usize),
            None => None::<usize>,
        },
{
    let ghost u = t@.subrange(lo as int, hi as int);
    let mut bytes: Vec<u8> = Vec::new();
    for i in lo..hi
        invariant
            lo <= hi <= t@.len(),
            u == t@.subrange(lo as int, hi as int),
            bytes@.len() == i - lo,
            forall|j: int| 0 <= j < i - lo ==> #[trigger] bytes@[j] == number_byte(u[j]),
    {
        bytes.push(number_byte_of(t[i]));
    }
    proof { assert(bytes@ =~= u.map_values(|c: char| number_byte(c))); }
    let n = bytes.len();
    proof { assert(bytes@.subrange(0, n as int) =~= bytes@); }
    parse_usize_at(bytes.as_slice(), 0, n)
}

/// The body length a request head announces.
pub fn content_length(head: &str) -> (n: usize)
    ensures
        n == content_length_of(head@),
{
    let cs = chars_of(head);
    let ghost s = cs@;
    let len = cs.len();
    let mut acc: usize = 0;
    let mut i: usize = 0;
    while i < len
        invariant
            len == s.len(),
            s == cs@,
            s == head@,
            i <= len,
            length_from(s, i as nat, acc) == content_length_of(s),
        decreases len - i,
    {
        let ghost acc0 = acc;
        let mut e = i;
        while e < len && cs[e] != '\n'
            invariant
                i <= e <= len,
                len == s.len(),
                s == cs@,
                line_end(s, i as nat) == line_end(s, e as nat),
            decreases len - e,
        {
            e = e + 1;
        }
        let end = if e > i && cs[e - 1] == '\r' { e - 1 } else { e };
        let ghost l = strip_cr(s.subrange(i as int, e as int));
        proof {
            if e > i && cs@[e - 1] == '\r' {
                assert(l =~= s.subrange(i as int, end as int));
            } else {
                assert(l =~= s.subrange(i as int, end as int));
            }
        }
        let line = head.substring_char(i, end);
        proof { assert(line@ =~= l); }
        let low = str_to_lowercase(line);
        let lc = chars_of(low.as_str());
        let mut matches = lc.len() >= 15;
        if matches {
            let key: [char; 15] = ['c', 'o', 'n', 't', 'e', 'n', 't', '-', 'l', 'e', 'n', 'g', 't', 'h', ':'];
            let mut k: usize = 0;
            while k < 15 && lc[k] == key[k]
                invariant
                    lc@.len() >= 15,
                    k <= 15,
                    key@ == length_key(),
                    forall|j: int| 0 <= j < k ==> lc@[j] == key@[j],
                decreases 15 - k,
            {
                k = k + 1;
            }
            matches = k == 15;
            proof {
                if matches {
                    assert(lc@.subrange(0, 15) =~= length_key());
                } else {
                    assert(lc@[k as int] != key@[k as int]);
                    assert(lc@.subrange(0, 15)[k as int] != length_key()[k as int]);
                }
            }
        }
        if matches {
            let lcs = chars_of(line);
            let ll = lcs.len();
            let mut c: usize = 0;
            while c < ll && lcs[c] != ':'
                invariant
                    c <= ll,
                    ll == l.len(),
                    lcs@ == l,
                    next_char(l, ':', 0) == next_char(l, ':', c as nat),
                decreases ll - c,
            {
                c = c + 1;
            }
            if c < ll {
                let mut f = c + 1;
                while f < ll && lcs[f] != ':'
                    invariant
                        c + 1 <= f <= ll,
                        ll == l.len(),
                        lcs@ == l,
                        next_char(l, ':', (c + 1) as nat) == next_char(l, ':', f as nat),
                    decreases ll - f,
                {
                    f = f + 1;
                }
                let mut field: Vec<char> = Vec::new();
                let mut j = c + 1;
                while j < f
                    invariant
                        c + 1 <= j <= f <= ll,
                        ll == l.len(),
                        lcs@ == l,
                        field@ == l.subrange(c + 1, j as int),
                    decreases f - j,
                {
                    field.push(lcs[j]);
                    j = j + 1;
                    proof { assert(field@ =~= l.subrange(c + 1, j as int)); }
                }
                let (a, b) = trim_bounds(&field);
                acc = match parse_text(&field, a, b) {
                    Some(v) => v,
                    None => 0,
                };
            }
        }
        proof {
            assert(line_end(s, e as nat) == e);
            assert(acc == if is_length_line(l) { announced(l, acc0) } else { acc0 });
            assert(length_from(s, i as nat, acc0) == length_from(s, (e + 1) as nat, acc));
        }
        if e < len {
            i = e + 1;
        } else {
            i = len;
        }
    }
    acc
}

} // verus!
