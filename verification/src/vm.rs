//! The contract engine: template deployment and method execution over a
//! contract's storage slots.
use vstd::prelude::*;
use std::collections::HashMap;

use crate::text::{dec, push_dec};
use crate::assoc::{AssocMap, upsert, entries_map, keys_distinct, lemma_entries_map_at};
use crate::types::{Address, ContractInfo, address_id, address_bytes, address_display, sha256, sha256_digest, u64_be, push_u64_be, push_bytes};

verus! {

broadcast use vstd::std_specs::hash::group_hash_axioms;

/// What one contract call produced: slot writes, balance deltas, log lines and
/// the slots it read, in the order it read them.
pub struct VmOutcome {
    pub writes: Seq<(u64, u64)>,
    pub deltas: Seq<(Address, i64)>,
    pub logs: Seq<Seq<char>>,
    pub reads: Seq<u64>,
}

impl VmOutcome {
    pub open spec fn empty() -> VmOutcome {
        VmOutcome { writes: Seq::empty(), deltas: Seq::empty(), logs: Seq::empty(), reads: Seq::empty() }
    }

    pub open spec fn read(self, s: u64) -> VmOutcome {
        VmOutcome { reads: self.reads.push(s), ..self }
    }

    pub open spec fn write(self, k: u64, v: u64) -> VmOutcome {
        VmOutcome { writes: upsert(self.writes, k, v), ..self }
    }

    pub open spec fn log(self, m: Seq<char>) -> VmOutcome {
        VmOutcome { logs: self.logs.push(m), ..self }
    }

    pub open spec fn delta(self, a: Address, d: i64) -> VmOutcome {
        VmOutcome { deltas: self.deltas.push((a, d)), ..self }
    }
}

/// A slot reader the engine can call on any slot, always with the same answer.
pub open spec fn reader_ok<F: Fn(u64) -> u64>(f: F) -> bool {
    &&& forall|s: u64| #[trigger] f.requires((s,))
    &&& forall|s: u64, a: u64, b: u64|
        #![trigger f.ensures((s,), a), f.ensures((s,), b)]
        f.ensures((s,), a) && f.ensures((s,), b) ==> a == b
}

/// The reader `f` can read any slot, and what it gives for slot `s` is `rd(s)`.
pub open spec fn reads_as<F: Fn(u64) -> u64>(f: F, rd: spec_fn(u64) -> u64) -> bool {
    &&& forall|s: u64| #[trigger] f.requires((s,))
    &&& forall|s: u64, v: u64| #[trigger] f.ensures((s,), v) ==> v == rd(s)
}

/// A deterministic reader reads as `reader_fn` of itself.
pub proof fn lemma_reader_ok_reads_as<F: Fn(u64) -> u64>(f: F)
    requires
        reader_ok(f),
    ensures
        reads_as(f, reader_fn(f)),
{
    assert forall|s: u64, v: u64| #[trigger] f.ensures((s,), v) implies v == reader_fn(f)(s) by {
        let c = choose|c: u64| f.ensures((s,), c);
        assert(f.ensures((s,), c));
    }
}

/// The slot values a reader gives.
pub open spec fn reader_fn<F: Fn(u64) -> u64>(f: F) -> spec_fn(u64) -> u64 {
    |s: u64| choose|v: u64| f.ensures((s,), v)
}

/// The `i`-th call argument, or `d` where there are not that many.
pub open spec fn arg(args: Seq<u64>, i: int, d: u64) -> u64 {
    if 0 <= i < args.len() { args[i] } else { d }
}

/// The storage slot that holds an account's balance or share.
pub open spec fn slot_of(id: u64) -> u64 {
    (100 + id % 1000) as u64
}

/// The storage slot that holds an account's debt or freeze flag.
pub open spec fn flag_slot_of(id: u64) -> u64 {
    (200 + id % 1000) as u64
}

pub open spec fn sat_add(a: u64, b: u64) -> u64 {
    if a + b > u64::MAX { u64::MAX } else { (a + b) as u64 }
}

pub open spec fn sat_sub(a: u64, b: u64) -> u64 {
    if a < b { 0 } else { (a - b) as u64 }
}

/// `Address`'s display text for `Address::new(id)`.
pub open spec fn id_display(id: u64) -> Seq<char> {
    "0x"@ + crate::types::hex::hex_lower(address_bytes(id).subrange(16, 20))
}

struct VmAcc {
    rd: Ghost<spec_fn(u64) -> u64>,
    writes: AssocMap<u64, u64>,
    deltas: Vec<(Address, i64)>,
    logs: Vec<String>,
    reads: Vec<u64>,
}

/// The texts of a list of strings.
pub open spec fn texts(v: Seq<String>) -> Seq<Seq<char>> {
    v.map_values(|s: String| s@)
}

impl VmAcc {
    spec fn out(&self) -> VmOutcome {
        VmOutcome { writes: self.writes.entries(), deltas: self.deltas@, logs: texts(self.logs@), reads: self.reads@ }
    }

    fn new(rd: Ghost<spec_fn(u64) -> u64>) -> (a: VmAcc)
        ensures
            a.out() == VmOutcome::empty(),
            a.writes.wf(),
            a.rd == rd,
    {
        let a = VmAcc { rd, writes: AssocMap::new(), deltas: Vec::new(), logs: Vec::new(), reads: Vec::new() };
        proof { assert(a.out().logs =~= Seq::<Seq<char>>::empty()); }
        a
    }

    fn rd<F: Fn(u64) -> u64>(&mut self, f: &F, s: u64) -> (v: u64)
        requires
            reads_as(*f, old(self).rd@),
        ensures
            v == old(self).rd@(s),
            final(self).out() == old(self).out().read(s),
            final(self).writes == old(self).writes,
            final(self).rd == old(self).rd,
    {
        let v = f(s);
        self.reads.push(s);
        v
    }

    fn write(&mut self, k: u64, v: u64)
        requires
            old(self).writes.wf(),
        ensures
            final(self).out() == old(self).out().write(k, v),
            final(self).writes.wf(),
            final(self).rd == old(self).rd,
    {
        self.writes.insert(k, v);
    }

    fn log(&mut self, m: String)
        ensures
            final(self).out() == old(self).out().log(m@),
            final(self).writes == old(self).writes,
            final(self).rd == old(self).rd,
    {
        let ghost before = self.logs@;
        self.logs.push(m);
        proof { assert(texts(self.logs@) =~= texts(before).push(m@)); }
    }

    fn delta(&mut self, a: Address, d: i64)
        ensures
            final(self).out() == old(self).out().delta(a, d),
            final(self).writes == old(self).writes,
            final(self).rd == old(self).rd,
    {
        self.deltas.push((a, d));
    }
}

/// Character-wise equality of two strings.
pub fn str_eq(a: &str, b: &str) -> (r: bool)
    ensures
        r == (a@ == b@),
{
    let n = a.unicode_len();
    let m = b.unicode_len();
    if n != m {
        return false;
    }
    let mut i: usize = 0;
    while i < n
        invariant
            n == a@.len(),
            n == b@.len(),
            i <= n,
            forall|j: int| 0 <= j < i ==> a@[j] == b@[j],
        decreases n - i,
    {
        if a.get_char(i) != b.get_char(i) {
            return false;
        }
        i = i + 1;
    }
    proof { assert(a@ =~= b@); }
    true
}

fn arg_or(args: &[u64], i: usize, d: u64) -> (v: u64)
    ensures
        v == arg(args@, i as int, d),
{
    if i < args.len() { args[i] } else { d }
}

pub open spec fn vm_counter(lm: Seq<char>, m: Seq<char>, args: Seq<u64>, rd: spec_fn(u64) -> u64) -> Option<VmOutcome> {
    let cur = rd(0);
    let o = VmOutcome::empty().read(0);
    if lm == "increment"@ {
        let next = sat_add(cur, arg(args, 0, 1));
        Some(o.write(0, next).log("Counter incremented: "@ + dec(cur as nat) + " -> "@ + dec(next as nat)))
    } else if lm == "decrement"@ {
        let next = sat_sub(cur, arg(args, 0, 1));
        Some(o.write(0, next).log("Counter decremented: "@ + dec(cur as nat) + " -> "@ + dec(next as nat)))
    } else if lm == "set"@ {
        let v = arg(args, 0, 0);
        Some(o.write(0, v).log("Counter set to: "@ + dec(v as nat)))
    } else {
        Some(o.log("Unknown counter method: "@ + m))
    }
}

fn run_counter<F: Fn(u64) -> u64>(acc: &mut VmAcc, f: &F, lm: &str, method: &str, args: &[u64])
    requires
        reads_as(*f, old(acc).rd@),
        old(acc).out() == VmOutcome::empty(),
        old(acc).writes.wf(),
    ensures
        vm_counter(lm@, method@, args@, old(acc).rd@) == Some(final(acc).out()),
        final(acc).writes.wf(),
{
    let cur = acc.rd(f, 0);
    if str_eq(lm, "increment") {
        let next = cur.saturating_add(arg_or(args, 0, 1));
        acc.write(0, next);
        let mut s = String::from_str("Counter incremented: ");
        push_dec(&mut s, cur);
        s.append(" -> ");
        push_dec(&mut s, next);
        acc.log(s);
    } else if str_eq(lm, "decrement") {
        let next = cur.saturating_sub(arg_or(args, 0, 1));
        acc.write(0, next);
        let mut s = String::from_str("Counter decremented: ");
        push_dec(&mut s, cur);
        s.append(" -> ");
        push_dec(&mut s, next);
        acc.log(s);
    } else if str_eq(lm, "set") {
        let v = arg_or(args, 0, 0);
        acc.write(0, v);
        let mut s = String::from_str("Counter set to: ");
        push_dec(&mut s, v);
        acc.log(s);
    } else {
        let mut s = String::from_str("Unknown counter method: ");
        s.append(method);
        acc.log(s);
    }
}

pub open spec fn vm_token(sender: Address, lm: Seq<char>, m: Seq<char>, args: Seq<u64>, rd: spec_fn(u64) -> u64) -> Option<VmOutcome> {
    let sid = address_id(sender);
    let ss = slot_of(sid);
    if lm == "transfer"@ {
        let rid = arg(args, 0, 0);
        let amount = arg(args, 1, 0);
        let rs = slot_of(rid);
        let sb = rd(ss);
        let rb = rd(rs);
        let o = VmOutcome::empty().read(ss).read(rs);
        if sb >= amount {
            if rb + amount > u64::MAX {
                None
            } else {
                Some(o.write(ss, (sb - amount) as u64).write(rs, (rb + amount) as u64).log(
                    "Transferred "@ + dec(amount as nat) + " tokens from "@ + address_display(sender) + " to "@ + id_display(rid)))
            }
        } else {
            Some(o.log("Insufficient token balance: "@ + dec(sb as nat) + " < "@ + dec(amount as nat)))
        }
    } else if lm == "mint"@ {
        let rid = arg(args, 0, sid);
        let amount = arg(args, 1, 100);
        let rs = slot_of(rid);
        let ts = rd(0);
        let rb = rd(rs);
        let o = VmOutcome::empty().read(0).read(rs);
        if ts + amount > u64::MAX || rb + amount > u64::MAX {
            None
        } else {
            Some(o.write(0, (ts + amount) as u64).write(rs, (rb + amount) as u64).log(
                "Minted "@ + dec(amount as nat) + " tokens to "@ + id_display(rid) + ". New supply: "@ + dec((ts + amount) as nat)))
        }
    } else {
        Some(VmOutcome::empty().log("Unknown token method: "@ + m))
    }
}

fn run_token<F: Fn(u64) -> u64>(acc: &mut VmAcc, f: &F, sender: Address, lm: &str, method: &str, args: &[u64]) -> (ok: bool)
    requires
        reads_as(*f, old(acc).rd@),
        old(acc).out() == VmOutcome::empty(),
        old(acc).writes.wf(),
    ensures
        ok == (vm_token(sender, lm@, method@, args@, old(acc).rd@) is Some),
        ok ==> vm_token(sender, lm@, method@, args@, old(acc).rd@) == Some(final(acc).out()),
        final(acc).writes.wf(),
{
    let sid = sender.id();
    let ss = 100 + sid % 1000;
    if str_eq(lm, "transfer") {
        let rid = arg_or(args, 0, 0);
        let amount = arg_or(args, 1, 0);
        let rs = 100 + rid % 1000;
        let sb = acc.rd(f, ss);
        let rb = acc.rd(f, rs);
        if sb >= amount {
            if rb > u64::MAX - amount {
                return false;
            }
            acc.write(ss, sb - amount);
            acc.write(rs, rb + amount);
            let mut s = String::from_str("Transferred ");
            push_dec(&mut s, amount);
            s.append(" tokens from ");
            push_address_display(&mut s, &sender);
            s.append(" to ");
            push_address_display(&mut s, &Address::new(rid));
            acc.log(s);
        } else {
            let mut s = String::from_str("Insufficient token balance: ");
            push_dec(&mut s, sb);
            s.append(" < ");
            push_dec(&mut s, amount);
            acc.log(s);
        }
    } else if str_eq(lm, "mint") {
        let rid = arg_or(args, 0, sid);
        let amount = arg_or(args, 1, 100);
        let rs = 100 + rid % 1000;
        let ts = acc.rd(f, 0);
        let rb = acc.rd(f, rs);
        if ts > u64::MAX - amount || rb > u64::MAX - amount {
            return false;
        }
        acc.write(0, ts + amount);
        acc.write(rs, rb + amount);
        let mut s = String::from_str("Minted ");
        push_dec(&mut s, amount);
        s.append(" tokens to ");
        push_address_display(&mut s, &Address::new(rid));
        s.append(". New supply: ");
        push_dec(&mut s, ts + amount);
        acc.log(s);
    } else {
        let mut s = String::from_str("Unknown token method: ");
        s.append(method);
        acc.log(s);
    }
    true
}

/// Appends what `Display` shows of an address.
fn push_address_display(s: &mut String, a: &Address)
    ensures
        final(s)@ == old(s)@ + address_display(*a),
{
    let d = a.display_string();
    s.append(d.as_str());
    proof { assert(final(s)@ =~= old(s)@ + address_display(*a)); }
}

pub open spec fn vm_vault(sender: Address, lm: Seq<char>, m: Seq<char>, args: Seq<u64>, rd: spec_fn(u64) -> u64) -> Option<VmOutcome> {
    let ss = slot_of(address_id(sender));
    if lm == "deposit"@ {
        let amount = arg(args, 0, 100);
        let ca = rd(0);
        let cs = rd(1);
        if (amount as i64) == i64::MIN {
            None
        } else {
            let o = VmOutcome::empty().read(0).read(1).delta(sender, (-((amount as i64) as int)) as i64);
            if ca != 0 && cs != 0 && amount * cs > u64::MAX {
                None
            } else {
                let shares: u64 = if ca == 0 || cs == 0 { amount } else { ((amount * cs) / (ca as int)) as u64 };
                let us = rd(ss);
                let o2 = o.read(ss);
                if ca + amount > u64::MAX || cs + shares > u64::MAX || us + shares > u64::MAX {
                    None
                } else {
                    Some(o2.write(0, (ca + amount) as u64).write(1, (cs + shares) as u64).write(ss, (us + shares) as u64).log(
                        "Vault deposit: "@ + dec(amount as nat) + " AETH deposited, "@ + dec(shares as nat) + " shares minted for "@ + address_display(sender)))
                }
            }
        }
    } else if lm == "compound"@ {
        let apy = rd(2);
        let ca = rd(0);
        let o = VmOutcome::empty().read(2).read(0);
        if ca * apy > u64::MAX {
            None
        } else {
            let y = ((ca * apy) / 100) as u64;
            if ca + y > u64::MAX {
                None
            } else {
                Some(o.write(0, (ca + y) as u64).log(
                    "Vault compounded: +"@ + dec(y as nat) + " yield generated. Total assets: "@ + dec((ca + y) as nat)))
            }
        }
    } else {
        Some(VmOutcome::empty().log("Unknown vault method: "@ + m))
    }
}

fn run_vault<F: Fn(u64) -> u64>(acc: &mut VmAcc, f: &F, sender: Address, lm: &str, method: &str, args: &[u64]) -> (ok: bool)
    requires
        reads_as(*f, old(acc).rd@),
        old(acc).out() == VmOutcome::empty(),
        old(acc).writes.wf(),
    ensures
        ok == (vm_vault(sender, lm@, method@, args@, old(acc).rd@) is Some),
        ok ==> vm_vault(sender, lm@, method@, args@, old(acc).rd@) == Some(final(acc).out()),
        final(acc).writes.wf(),
{
    let ss = 100 + sender.id() % 1000;
    if str_eq(lm, "deposit") {
        let amount = arg_or(args, 0, 100);
        let ca = acc.rd(f, 0);
        let cs = acc.rd(f, 1);
        let signed = amount as i64;
        if signed == i64::MIN {
            return false;
        }
        acc.delta(sender, -signed);
        let shares = if ca == 0 || cs == 0 {
            amount
        } else {
            match amount.checked_mul(cs) {
                Some(p) => p / ca,
                None => { return false; },
            }
        };
        let us = acc.rd(f, ss);
        if ca > u64::MAX - amount || cs > u64::MAX - shares || us > u64::MAX - shares {
            return false;
        }
        acc.write(0, ca + amount);
        acc.write(1, cs + shares);
        acc.write(ss, us + shares);
        let mut s = String::from_str("Vault deposit: ");
        push_dec(&mut s, amount);
        s.append(" AETH deposited, ");
        push_dec(&mut s, shares);
        s.append(" shares minted for ");
        push_address_display(&mut s, &sender);
        acc.log(s);
    } else if str_eq(lm, "compound") {
        let apy = acc.rd(f, 2);
        let ca = acc.rd(f, 0);
        let y = match ca.checked_mul(apy) {
            Some(p) => p / 100,
            None => { return false; },
        };
        if ca > u64::MAX - y {
            return false;
        }
        acc.write(0, ca + y);
        let mut s = String::from_str("Vault compounded: +");
        push_dec(&mut s, y);
        s.append(" yield generated. Total assets: ");
        push_dec(&mut s, ca + y);
        acc.log(s);
    } else {
        let mut s = String::from_str("Unknown vault method: ");
        s.append(method);
        acc.log(s);
    }
    true
}

/// `r` is the integer square root of `n`.
pub open spec fn is_isqrt(n: int, r: int) -> bool {
    0 <= r && r * r <= n && n < (r + 1) * (r + 1)
}

/// The integer square root (the floor of the real square root).
pub open spec fn isqrt(n: nat) -> nat {
    choose|r: nat| is_isqrt(n as int, r as int)
}

proof fn lemma_isqrt_unique(n: int, r1: int, r2: int)
    requires
        is_isqrt(n, r1),
        is_isqrt(n, r2),
    ensures
        r1 == r2,
{
    if r1 < r2 {
        assert((r1 + 1) * (r1 + 1) <= r2 * r2) by (nonlinear_arith)
            requires 0 <= r1 + 1 <= r2;
    } else if r2 < r1 {
        assert((r2 + 1) * (r2 + 1) <= r1 * r1) by (nonlinear_arith)
            requires 0 <= r2 + 1 <= r1;
    }
}

proof fn lemma_isqrt_is(n: nat, r: nat)
    requires
        is_isqrt(n as int, r as int),
    ensures
        isqrt(n) == r,
{
    let c = isqrt(n);
    assert(is_isqrt(n as int, c as int));
    lemma_isqrt_unique(n as int, r as int, c as int);
}

/// A Newton step from any positive guess lands at or above the square root.
proof fn lemma_newton_step(n: int, x: int)
    requires
        x >= 1,
        n >= 0,
    ensures
        ((x + n / x) / 2 + 1) * ((x + n / x) / 2 + 1) > n,
{
    let q = n / x;
    let y = (x + q) / 2;
    vstd::arithmetic::div_mod::lemma_fundamental_div_mod(n, x);
    assert(n < x * (q + 1)) by (nonlinear_arith)
        requires n == x * q + n % x, n % x < x, x >= 1;
    assert(2 * (y + 1) >= x + q + 1);
    assert(q >= 0) by (nonlinear_arith) requires n >= 0, x >= 1, q == n / x;
    assert(4 * (y + 1) * (y + 1) >= (x + q + 1) * (x + q + 1)) by (nonlinear_arith)
        requires 2 * (y + 1) >= x + q + 1, x + q + 1 >= 0;
    assert((x + q + 1) * (x + q + 1) >= 4 * x * (q + 1)) by (nonlinear_arith)
        requires x >= 1, q >= 0;
    assert(4 * x * (q + 1) > 4 * n) by (nonlinear_arith)
        requires n < x * (q + 1);
    assert((y + 1) * (y + 1) > n) by (nonlinear_arith)
        requires 4 * (y + 1) * (y + 1) >= (x + q + 1) * (x + q + 1),
            (x + q + 1) * (x + q + 1) >= 4 * x * (q + 1), 4 * x * (q + 1) > 4 * n;
}

/// A Newton step from a guess between 1 and `n / 2` does not overflow.
proof fn lemma_newton_no_overflow(n: int, x: int)
    requires
        1 <= x <= n / 2,
        n <= u64::MAX,
        (x + 1) * (x + 1) > n,
    ensures
        x + n / x <= u64::MAX,
{
    if x >= 2 {
        assert(n / x <= n / 2) by {
            vstd::arithmetic::div_mod::lemma_div_is_ordered_by_denominator(n, 2, x);
        }
    } else {
        assert(x == 1);
        assert(n < 4) by (nonlinear_arith) requires x == 1, (x + 1) * (x + 1) > n;
    }
}

/// When a Newton step does not go down, the guess is at most the square root.
proof fn lemma_newton_stop(n: int, x: int)
    requires
        x >= 1,
        n >= 0,
        (x + n / x) / 2 >= x,
    ensures
        x * x <= n,
{
    if x * x > n {
        let q = n / x;
        vstd::arithmetic::div_mod::lemma_fundamental_div_mod(n, x);
        assert(q < x) by (nonlinear_arith)
            requires x * x > n, n == x * q + n % x, 0 <= n % x, x >= 1;
    }
}

/// The integer square root of `n` by Newton's iteration.
pub fn integer_sqrt(n: u64) -> (r: u64)
    ensures
        r == isqrt(n as nat),
{
    if n < 2 {
        proof {
            assert(is_isqrt(n as int, n as int)) by (nonlinear_arith) requires n < 2;
            lemma_isqrt_is(n as nat, n as nat);
        }
        return n;
    }
    let mut x0 = n / 2;
    proof {
        let h = n / 2;
        assert((h + 1) * (h + 1) > n) by (nonlinear_arith) requires h >= 1, n <= 2 * h + 1;
        assert((x0 + 1) * (x0 + 1) > n) by (nonlinear_arith) requires x0 == h, (h + 1) * (h + 1) > n;
        lemma_newton_no_overflow(n as int, x0 as int);
    }
    let mut x1 = (x0 + n / x0) / 2;
    proof { lemma_newton_step(n as int, x0 as int); }
    while x1 < x0
        invariant
            n >= 2,
            1 <= x0 <= n / 2,
            x1 == (x0 + n / x0) / 2,
            (x0 + 1) * (x0 + 1) > n,
            (x1 + 1) * (x1 + 1) > n,
        decreases x0,
    {
        proof {
            assert(x1 >= 1) by (nonlinear_arith) requires (x1 + 1) * (x1 + 1) > n, n >= 2;
        }
        x0 = x1;
        proof { lemma_newton_no_overflow(n as int, x0 as int); }
        x1 = (x0 + n / x0) / 2;
        proof { lemma_newton_step(n as int, x0 as int); }
    }
    proof {
        lemma_newton_stop(n as int, x0 as int);
        lemma_isqrt_is(n as nat, x0 as nat);
    }
    x0
}

/// The product of two `u64` values fits in a `u128`.
proof fn lemma_mul_fits(a: u64, b: u64)
    ensures
        a as int * b as int <= u128::MAX,
{
    assert(a as int * b as int <= u64::MAX as int * u64::MAX as int) by (nonlinear_arith)
        requires a <= u64::MAX, b <= u64::MAX, a >= 0, b >= 0;
}

pub open spec fn sat_mul(a: u64, b: u64) -> u64 {
    if a * b > u64::MAX { u64::MAX } else { (a * b) as u64 }
}

/// `a * b`, or `u64::MAX` where the product does not fit (`u64::saturating_mul`).
fn saturating_mul(a: u64, b: u64) -> (r: u64)
    ensures
        r == sat_mul(a, b),
{
    proof { lemma_mul_fits(a, b); }
    let p: u128 = a as u128 * b as u128;
    if p > u64::MAX as u128 { u64::MAX } else { p as u64 }
}

pub open spec fn min_u64(a: u64, b: u64) -> u64 {
    if a <= b { a } else { b }
}

/// The constant-product quote: `amount_in` with a fee of `1 - keep/scale` against
/// reserves `(res_in, res_out)`; `None` where the product overflows `u128`.
pub open spec fn amm_out(amount_in: u64, res_in: u64, res_out: u64, keep: int, scale: int) -> Option<u64> {
    let f = amount_in * keep;
    let num = f * res_out;
    if num > u128::MAX {
        None
    } else {
        Some((num / (res_in * scale + f)) as u64)
    }
}

/// The constant-product quote, or `None` where the product overflows `u128`.
fn amm_try(amount_in: u64, res_in: u64, res_out: u64, keep: u128, scale: u128) -> (r: Option<u64>)
    requires
        res_in > 0,
        1 <= keep <= 10000,
        1 <= scale <= 10000,
    ensures
        r == amm_out(amount_in, res_in, res_out, keep as int, scale as int),
{
    proof {
        assert(amount_in as int * keep as int <= u64::MAX as int * 10000) by (nonlinear_arith)
            requires amount_in <= u64::MAX, 1 <= keep <= 10000;
        assert(res_in as int * scale as int <= u64::MAX as int * 10000) by (nonlinear_arith)
            requires res_in <= u64::MAX, 1 <= scale <= 10000;
        assert(res_in as int * scale as int >= 1) by (nonlinear_arith)
            requires res_in >= 1, scale >= 1;
    }
    let f: u128 = amount_in as u128 * keep;
    match f.checked_mul(res_out as u128) {
        Some(num) => {
            let den: u128 = (res_in as u128 * scale) + f;
            Some((num / den) as u64)
        },
        None => None,
    }
}

pub open spec fn vm_uniswap(sender: Address, lm: Seq<char>, m: Seq<char>, args: Seq<u64>, rd: spec_fn(u64) -> u64) -> Option<VmOutcome> {
    let ss = slot_of(address_id(sender));
    if lm == "swap_a_to_b"@ || lm == "swap_x_for_y"@ {
        let ain = arg(args, 0, 0);
        let mo = arg(args, 1, 0);
        let ra = rd(0);
        let rb = rd(1);
        let o = VmOutcome::empty().read(0).read(1);
        if ra > 0 && rb > 0 && ain > 0 {
            match amm_out(ain, ra, rb, 997, 1000) {
                None => None,
                Some(out) => if out >= mo && out < rb {
                    if ra + ain > u64::MAX {
                        None
                    } else {
                        Some(o.write(0, (ra + ain) as u64).write(1, (rb - out) as u64).log(
                            "Uniswap V2 Swap: "@ + dec(ain as nat) + " Token A -> "@ + dec(out as nat) + " Token B"@))
                    }
                } else {
                    Some(o.log("Slippage exceeded: expected min "@ + dec(mo as nat) + ", got "@ + dec(out as nat)))
                },
            }
        } else {
            Some(o)
        }
    } else if lm == "swap_b_to_a"@ || lm == "swap_y_for_x"@ {
        let ain = arg(args, 0, 0);
        let mo = arg(args, 1, 0);
        let ra = rd(0);
        let rb = rd(1);
        let o = VmOutcome::empty().read(0).read(1);
        if ra > 0 && rb > 0 && ain > 0 {
            match amm_out(ain, rb, ra, 997, 1000) {
                None => None,
                Some(out) => if out >= mo && out < ra {
                    if rb + ain > u64::MAX {
                        None
                    } else {
                        Some(o.write(1, (rb + ain) as u64).write(0, (ra - out) as u64).log(
                            "Uniswap V2 Swap: "@ + dec(ain as nat) + " Token B -> "@ + dec(out as nat) + " Token A"@))
                    }
                } else {
                    Some(o)
                },
            }
        } else {
            Some(o)
        }
    } else if lm == "add_liquidity"@ || lm == "mint_lp"@ {
        let aa = arg(args, 0, 0);
        let ab = arg(args, 1, 0);
        let ra = rd(0);
        let rb = rd(1);
        let tl = rd(2);
        let ul = rd(ss);
        let o = VmOutcome::empty().read(0).read(1).read(2).read(ss);
        if tl != 0 && (ra == 0 || rb == 0) {
            None
        } else {
            let minted: u64 = if tl == 0 {
                isqrt(sat_mul(aa, ab) as nat) as u64
            } else {
                min_u64(((aa * tl) / (ra as int)) as u64, ((ab * tl) / (rb as int)) as u64)
            };
            if ra + aa > u64::MAX || rb + ab > u64::MAX || tl + minted > u64::MAX || ul + minted > u64::MAX {
                None
            } else {
                Some(o.write(0, (ra + aa) as u64).write(1, (rb + ab) as u64).write(2, (tl + minted) as u64).write(
                    ss, (ul + minted) as u64).log(
                    "Uniswap V2 Add Liquidity: +"@ + dec(aa as nat) + " A, +"@ + dec(ab as nat) + " B -> "@ + dec(minted as nat)
                        + " LP minted"@))
            }
        }
    } else if lm == "remove_liquidity"@ || lm == "burn_lp"@ {
        let lp = arg(args, 0, 0);
        let ra = rd(0);
        let rb = rd(1);
        let tl = rd(2);
        let ul = rd(ss);
        let o = VmOutcome::empty().read(0).read(1).read(2).read(ss);
        if ul >= lp && tl > 0 {
            let oa = ((lp * ra) / (tl as int)) as u64;
            let ob = ((lp * rb) / (tl as int)) as u64;
            Some(o.write(0, sat_sub(ra, oa)).write(1, sat_sub(rb, ob)).write(2, sat_sub(tl, lp)).write(ss, (ul - lp) as u64).log(
                "Uniswap V2 Remove Liquidity: -"@ + dec(lp as nat) + " LP -> "@ + dec(oa as nat) + " A, "@ + dec(ob as nat) + " B"@))
        } else {
            Some(o)
        }
    } else {
        Some(VmOutcome::empty().log("Unknown Uniswap method: "@ + m))
    }
}

fn run_uniswap<F: Fn(u64) -> u64>(acc: &mut VmAcc, f: &F, sender: Address, lm: &str, method: &str, args: &[u64]) -> (ok: bool)
    requires
        reads_as(*f, old(acc).rd@),
        old(acc).out() == VmOutcome::empty(),
        old(acc).writes.wf(),
    ensures
        ok == (vm_uniswap(sender, lm@, method@, args@, old(acc).rd@) is Some),
        ok ==> vm_uniswap(sender, lm@, method@, args@, old(acc).rd@) == Some(final(acc).out()),
        final(acc).writes.wf(),
{
    let ss = 100 + sender.id() % 1000;
    if str_eq(lm, "swap_a_to_b") || str_eq(lm, "swap_x_for_y") {
        let ain = arg_or(args, 0, 0);
        let mo = arg_or(args, 1, 0);
        let ra = acc.rd(f, 0);
        let rb = acc.rd(f, 1);
        if ra > 0 && rb > 0 && ain > 0 {
            let out = match amm_try(ain, ra, rb, 997, 1000) {
                Some(o) => o,
                None => { return false; },
            };
            if out >= mo && out < rb {
                if ra > u64::MAX - ain {
                    return false;
                }
                acc.write(0, ra + ain);
                acc.write(1, rb - out);
                let mut s = String::from_str("Uniswap V2 Swap: ");
                push_dec(&mut s, ain);
                s.append(" Token A -> ");
                push_dec(&mut s, out);
                s.append(" Token B");
                acc.log(s);
            } else {
                let mut s = String::from_str("Slippage exceeded: expected min ");
                push_dec(&mut s, mo);
                s.append(", got ");
                push_dec(&mut s, out);
                acc.log(s);
            }
        }
    } else if str_eq(lm, "swap_b_to_a") || str_eq(lm, "swap_y_for_x") {
        let ain = arg_or(args, 0, 0);
        let mo = arg_or(args, 1, 0);
        let ra = acc.rd(f, 0);
        let rb = acc.rd(f, 1);
        if ra > 0 && rb > 0 && ain > 0 {
            let out = match amm_try(ain, rb, ra, 997, 1000) {
                Some(o) => o,
                None => { return false; },
            };
            if out >= mo && out < ra {
                if rb > u64::MAX - ain {
                    return false;
                }
                acc.write(1, rb + ain);
                acc.write(0, ra - out);
                let mut s = String::from_str("Uniswap V2 Swap: ");
                push_dec(&mut s, ain);
                s.append(" Token B -> ");
                push_dec(&mut s, out);
                s.append(" Token A");
                acc.log(s);
            }
        }
    } else if str_eq(lm, "add_liquidity") || str_eq(lm, "mint_lp") {
        let aa = arg_or(args, 0, 0);
        let ab = arg_or(args, 1, 0);
        let ra = acc.rd(f, 0);
        let rb = acc.rd(f, 1);
        let tl = acc.rd(f, 2);
        let ul = acc.rd(f, ss);
        if tl != 0 && (ra == 0 || rb == 0) {
            return false;
        }
        let minted = if tl == 0 {
            integer_sqrt(saturating_mul(aa, ab))
        } else {
            proof { lemma_mul_fits(aa, tl); lemma_mul_fits(ab, tl); }
            let x = (aa as u128 * tl as u128 / ra as u128) as u64;
            let y = (ab as u128 * tl as u128 / rb as u128) as u64;
            if x <= y { x } else { y }
        };
        if ra > u64::MAX - aa || rb > u64::MAX - ab || tl > u64::MAX - minted || ul > u64::MAX - minted {
            return false;
        }
        acc.write(0, ra + aa);
        acc.write(1, rb + ab);
        acc.write(2, tl + minted);
        acc.write(ss, ul + minted);
        let mut s = String::from_str("Uniswap V2 Add Liquidity: +");
        push_dec(&mut s, aa);
        s.append(" A, +");
        push_dec(&mut s, ab);
        s.append(" B -> ");
        push_dec(&mut s, minted);
        s.append(" LP minted");
        acc.log(s);
    } else if str_eq(lm, "remove_liquidity") || str_eq(lm, "burn_lp") {
        let lp = arg_or(args, 0, 0);
        let ra = acc.rd(f, 0);
        let rb = acc.rd(f, 1);
        let tl = acc.rd(f, 2);
        let ul = acc.rd(f, ss);
        if ul >= lp && tl > 0 {
            proof { lemma_mul_fits(lp, ra); lemma_mul_fits(lp, rb); }
            let oa = (lp as u128 * ra as u128 / tl as u128) as u64;
            let ob = (lp as u128 * rb as u128 / tl as u128) as u64;
            acc.write(0, ra.saturating_sub(oa));
            acc.write(1, rb.saturating_sub(ob));
            acc.write(2, tl.saturating_sub(lp));
            acc.write(ss, ul - lp);
            let mut s = String::from_str("Uniswap V2 Remove Liquidity: -");
            push_dec(&mut s, lp);
            s.append(" LP -> ");
            push_dec(&mut s, oa);
            s.append(" A, ");
            push_dec(&mut s, ob);
            s.append(" B");
            acc.log(s);
        }
    } else {
        let mut s = String::from_str("Unknown Uniswap method: ");
        s.append(method);
        acc.log(s);
    }
    true
}

/// A constant-product quote pays out so little that the product of the
/// reserves does not fall.
proof fn lemma_quote_keeps_product(ain: u64, rin: u64, rout: u64, out: u64)
    requires
        rin > 0,
        amm_out(ain, rin, rout, 997, 1000) == Some(out),
    ensures
        (rin + ain) * (rout - out) >= rin * rout,
        out <= rout,
{
    let f = ain * 997;
    let d = rin * 1000 + f;
    let num = f * rout;
    assert(d > f && d > 0);
    assert(num / d <= rout) by (nonlinear_arith)
        requires
            num == f * rout,
            d > f,
            f >= 0,
            rout >= 0,
    {
        assert(num <= d * rout);
    }
    assert(out == num / d);
    assert(out * d <= num) by (nonlinear_arith)
        requires
            out == num / d,
            d > 0,
            num >= 0,
    ;
    assert(out * (rin + ain) <= ain * rout) by (nonlinear_arith)
        requires
            out * d <= num,
            num == ain * 997 * rout,
            d == rin * 1000 + ain * 997,
            out >= 0,
            rin >= 0,
            ain >= 0,
    {
        assert(997 * (out * (rin + ain)) <= out * d);
    }
    assert((rin + ain) * (rout - out) >= rin * rout) by (nonlinear_arith)
        requires
            out * (rin + ain) <= ain * rout,
    ;
}

/// A swap through a constant-product pool never lowers the product of its two
/// reserves. Where a swap of `amount_in` (minimum out `min_out`) writes, it
/// raises the reserve paid in by `amount_in` and lowers the other, still above
/// zero, by at least `min_out`; what it writes multiplies to at least the old
/// product. Where the quote (0.3% fee kept) is below `min_out`, it writes
/// nothing; where it is at least `min_out` and below the reserve paid out, the
/// reserve paid out falls by exactly the quote.
pub proof fn lemma_swap_keeps_product(sender: Address, template: Seq<char>, lm: Seq<char>, m: Seq<char>, args: Seq<u64>, rd: spec_fn(u64) -> u64)
    requires
        template == "uniswap_v2"@ || template == "uniswap"@,
        lm == "swap_a_to_b"@ || lm == "swap_x_for_y"@ || lm == "swap_b_to_a"@ || lm == "swap_y_for_x"@,
    ensures
        vm_call(sender, template, lm, m, args, rd) matches Some(out) ==> (out.writes.len() == 0 || (
            out.writes.len() == 2
            && entries_map(out.writes).dom() == set![0u64, 1u64]
            && entries_map(out.writes)[0] * entries_map(out.writes)[1] >= rd(0) * rd(1))),
        (lm == "swap_a_to_b"@ || lm == "swap_x_for_y"@) ==> (vm_call(sender, template, lm, m, args, rd) matches Some(out) ==>
            (out.writes.len() == 0 || (
                entries_map(out.writes)[0] == rd(0) + arg(args, 0, 0)
                && 0 < entries_map(out.writes)[1]
                && rd(1) - entries_map(out.writes)[1] >= arg(args, 1, 0)))),
        (lm == "swap_b_to_a"@ || lm == "swap_y_for_x"@) ==> (vm_call(sender, template, lm, m, args, rd) matches Some(out) ==>
            (out.writes.len() == 0 || (
                entries_map(out.writes)[1] == rd(1) + arg(args, 0, 0)
                && 0 < entries_map(out.writes)[0]
                && rd(0) - entries_map(out.writes)[0] >= arg(args, 1, 0)))),
        (lm == "swap_a_to_b"@ || lm == "swap_x_for_y"@)
            && (arg(args, 0, 0) * 997 * rd(1)) / (rd(0) * 1000 + arg(args, 0, 0) * 997) < arg(args, 1, 0)
            ==> (vm_call(sender, template, lm, m, args, rd) matches Some(out) ==> out.writes.len() == 0),
        (lm == "swap_b_to_a"@ || lm == "swap_y_for_x"@)
            && (arg(args, 0, 0) * 997 * rd(0)) / (rd(1) * 1000 + arg(args, 0, 0) * 997) < arg(args, 1, 0)
            ==> (vm_call(sender, template, lm, m, args, rd) matches Some(out) ==> out.writes.len() == 0),
        ({
            let q = (arg(args, 0, 0) * 997 * rd(1)) / (rd(0) * 1000 + arg(args, 0, 0) * 997);
            (lm == "swap_a_to_b"@ || lm == "swap_x_for_y"@) && rd(0) > 0 && rd(1) > 0 && arg(args, 0, 0) > 0
                && arg(args, 1, 0) <= q < rd(1)
            ==> (vm_call(sender, template, lm, m, args, rd) matches Some(out) ==>
                out.writes.len() == 2 && entries_map(out.writes)[0] == rd(0) + arg(args, 0, 0) && entries_map(out.writes)[1] == rd(1) - q)
        }),
        ({
            let q = (arg(args, 0, 0) * 997 * rd(0)) / (rd(1) * 1000 + arg(args, 0, 0) * 997);
            (lm == "swap_b_to_a"@ || lm == "swap_y_for_x"@) && rd(0) > 0 && rd(1) > 0 && arg(args, 0, 0) > 0
                && arg(args, 1, 0) <= q < rd(0)
            ==> (vm_call(sender, template, lm, m, args, rd) matches Some(out) ==>
                out.writes.len() == 2 && entries_map(out.writes)[1] == rd(1) + arg(args, 0, 0) && entries_map(out.writes)[0] == rd(0) - q)
        }),
{
    reveal(vm_call);
    reveal_strlit("counter");
    reveal_strlit("token");
    reveal_strlit("vault");
    reveal_strlit("uniswap_v2");
    reveal_strlit("uniswap");
    reveal_strlit("swap_a_to_b");
    reveal_strlit("swap_x_for_y");
    reveal_strlit("swap_b_to_a");
    reveal_strlit("swap_y_for_x");
    assert(template != "counter"@) by {
        if template == "uniswap"@ {
            assert(template[0] != "counter"@[0]);
        } else {
            assert(template.len() != "counter"@.len());
        }
    }
    assert(template.len() != "token"@.len());
    assert(template.len() != "vault"@.len());
    assert(vm_call(sender, template, lm, m, args, rd) == vm_uniswap(sender, lm, m, args, rd));
    assert("swap_b_to_a"@[5] != "swap_a_to_b"@[5]);
    assert("swap_y_for_x"@[5] != "swap_x_for_y"@[5]);
    let ain = arg(args, 0, 0);
    let ra = rd(0);
    let rb = rd(1);
    let o = VmOutcome::empty().read(0).read(1);
    assert(o.writes.len() == 0);
    if lm == "swap_a_to_b"@ || lm == "swap_x_for_y"@ {
        if ra > 0 && rb > 0 && ain > 0 {
            if let Some(out) = amm_out(ain, ra, rb, 997, 1000) {
                lemma_quote_keeps_product(ain, ra, rb, out);
                if out >= arg(args, 1, 0) && out < rb && ra + ain <= u64::MAX {
                    let na = (ra + ain) as u64;
                    let nb = (rb - out) as u64;
                    let w1 = o.write(0, na);
                    assert(w1.writes == seq![(0u64, na)]);
                    let w = seq![(0u64, na), (1u64, nb)];
                    assert(w1.write(1, nb).writes =~= w);
                    lemma_entries_map_at(w, 0);
                    lemma_entries_map_at(w, 1);
                    assert(entries_map(w).dom() =~= set![0u64, 1u64]);
                }
            }
        }
    } else {
        assert(lm != "swap_a_to_b"@ && lm != "swap_x_for_y"@);
        if ra > 0 && rb > 0 && ain > 0 {
            if let Some(out) = amm_out(ain, rb, ra, 997, 1000) {
                lemma_quote_keeps_product(ain, rb, ra, out);
                if out >= arg(args, 1, 0) && out < ra && rb + ain <= u64::MAX {
                    let na = (ra - out) as u64;
                    let nb = (rb + ain) as u64;
                    let w1 = o.write(1, nb);
                    assert(w1.writes == seq![(1u64, nb)]);
                    let w = seq![(1u64, nb), (0u64, na)];
                    assert(w1.write(0, na).writes =~= w);
                    lemma_entries_map_at(w, 0);
                    lemma_entries_map_at(w, 1);
                    assert(entries_map(w).dom() =~= set![0u64, 1u64]);
                    assert(na * nb == nb * na) by (nonlinear_arith);
                    assert(ra * rb == rb * ra) by (nonlinear_arith);
                }
            }
        }
    }
}

/// A token transfer conserves tokens: where the sender holds at least `amount`
/// and the two balance slots differ, the call debits the sender's slot by
/// `amount` and credits the recipient's by `amount`, so their sum is unchanged;
/// where the sender holds less, it writes nothing.
pub proof fn lemma_token_transfer_conserves(sender: Address, lm: Seq<char>, m: Seq<char>, args: Seq<u64>, rd: spec_fn(u64) -> u64)
    requires
        lm == "transfer"@,
    ensures
        rd(slot_of(address_id(sender))) < arg(args, 1, 0) ==>
            (vm_call(sender, "token"@, lm, m, args, rd) matches Some(out) ==> out.writes.len() == 0),
        rd(slot_of(address_id(sender))) >= arg(args, 1, 0) && slot_of(address_id(sender)) != slot_of(arg(args, 0, 0)) ==>
        (vm_call(sender, "token"@, lm, m, args, rd) matches Some(out) ==> ({
            let w = entries_map(out.writes);
            let ss = slot_of(address_id(sender));
            let rs = slot_of(arg(args, 0, 0));
            &&& w.dom() == set![ss, rs]
            &&& w[ss] == rd(ss) - arg(args, 1, 0)
            &&& w[rs] == rd(rs) + arg(args, 1, 0)
            &&& w[ss] + w[rs] == rd(ss) + rd(rs)
        })),
{
    reveal(vm_call);
    reveal_strlit("counter");
    reveal_strlit("token");
    assert("token"@.len() != "counter"@.len());
    assert(vm_call(sender, "token"@, lm, m, args, rd) == vm_token(sender, lm, m, args, rd));
    let ss = slot_of(address_id(sender));
    let rs = slot_of(arg(args, 0, 0));
    let amount = arg(args, 1, 0);
    let sb = rd(ss);
    let rb = rd(rs);
    let o = VmOutcome::empty().read(ss).read(rs);
    assert(o.writes.len() == 0);
    if sb >= amount && ss != rs && rb + amount <= u64::MAX {
        let w1 = o.write(ss, (sb - amount) as u64);
        assert(w1.writes == seq![(ss, (sb - amount) as u64)]);
        let w = seq![(ss, (sb - amount) as u64), (rs, (rb + amount) as u64)];
        assert(w1.write(rs, (rb + amount) as u64).writes =~= w);
        lemma_entries_map_at(w, 0);
        lemma_entries_map_at(w, 1);
        assert(entries_map(w).dom() =~= set![ss, rs]);
    }
}

/// Minting raises the supply (slot 0) and the recipient's balance by the same
/// amount, so the supply still covers what was minted.
pub proof fn lemma_token_mint_adds_supply(sender: Address, lm: Seq<char>, m: Seq<char>, args: Seq<u64>, rd: spec_fn(u64) -> u64)
    requires
        lm == "mint"@,
    ensures
        vm_call(sender, "token"@, lm, m, args, rd) matches Some(out) ==> ({
            let w = entries_map(out.writes);
            let rs = slot_of(arg(args, 0, address_id(sender)));
            let amount = arg(args, 1, 100);
            &&& w.dom() == set![0u64, rs]
            &&& w[0] == rd(0) + amount
            &&& w[rs] == rd(rs) + amount
        }),
{
    reveal(vm_call);
    reveal_strlit("counter");
    reveal_strlit("token");
    reveal_strlit("transfer");
    reveal_strlit("mint");
    assert("token"@.len() != "counter"@.len());
    assert("mint"@.len() != "transfer"@.len());
    assert(vm_call(sender, "token"@, lm, m, args, rd) == vm_token(sender, lm, m, args, rd));
    let rs = slot_of(arg(args, 0, address_id(sender)));
    let amount = arg(args, 1, 100);
    let ts = rd(0);
    let rb = rd(rs);
    let o = VmOutcome::empty().read(0).read(rs);
    if ts + amount <= u64::MAX && rb + amount <= u64::MAX {
        let w1 = o.write(0, (ts + amount) as u64);
        assert(w1.writes == seq![(0u64, (ts + amount) as u64)]);
        let w = seq![(0u64, (ts + amount) as u64), (rs, (rb + amount) as u64)];
        assert(w1.write(rs, (rb + amount) as u64).writes =~= w);
        lemma_entries_map_at(w, 0);
        lemma_entries_map_at(w, 1);
        assert(entries_map(w).dom() =~= set![0u64, rs]);
    }
}

/// An SPL transfer conserves tokens: from an account that is not frozen (nor
/// the token globally) holding at least `amount`, between two different balance
/// slots, it debits the sender and credits the recipient by `amount`; from a
/// frozen account, or one holding less, it writes nothing.
pub proof fn lemma_spl_transfer_conserves(sender: Address, lm: Seq<char>, m: Seq<char>, args: Seq<u64>, rd: spec_fn(u64) -> u64)
    requires
        lm == "transfer"@ || lm == "transfer_checked"@,
    ensures
        ({
            let ss = slot_of(address_id(sender));
            let rs = slot_of(arg(args, 0, 0));
            let amount = arg(args, 1, 0);
            let frozen = rd(2) == 1 || rd(flag_slot_of(address_id(sender))) == 1;
            &&& (frozen || rd(ss) < amount) ==> (vm_call(sender, "spl_token"@, lm, m, args, rd) matches Some(out) ==> out.writes.len() == 0)
            &&& (!frozen && rd(ss) >= amount && ss != rs) ==> (vm_call(sender, "spl_token"@, lm, m, args, rd) matches Some(out) ==> ({
                let w = entries_map(out.writes);
                &&& w.dom() == set![ss, rs]
                &&& w[ss] == rd(ss) - amount
                &&& w[rs] == rd(rs) + amount
                &&& w[ss] + w[rs] == rd(ss) + rd(rs)
            }))
        }),
{
    reveal(vm_call);
    reveal_strlit("counter");
    reveal_strlit("token");
    reveal_strlit("vault");
    reveal_strlit("uniswap_v2");
    reveal_strlit("uniswap");
    reveal_strlit("maker_cdp");
    reveal_strlit("maker");
    reveal_strlit("raydium");
    reveal_strlit("orca");
    reveal_strlit("spl_token");
    reveal_strlit("mint_to");
    reveal_strlit("transfer");
    reveal_strlit("transfer_checked");
    let t = "spl_token"@;
    assert(t.len() != "counter"@.len() && t.len() != "token"@.len() && t.len() != "vault"@.len());
    assert(t.len() != "uniswap_v2"@.len() && t.len() != "uniswap"@.len() && t.len() != "maker"@.len());
    assert(t[0] != "maker_cdp"@[0]);
    assert(t.len() != "raydium"@.len() && t.len() != "orca"@.len());
    assert(vm_call(sender, t, lm, m, args, rd) == vm_spl(sender, lm, m, args, rd));
    assert(lm != "mint_to"@) by {
        if lm == "transfer"@ { assert(lm.len() != "mint_to"@.len()); } else { assert(lm.len() != "mint_to"@.len()); }
    }
    let sid = address_id(sender);
    let ss = slot_of(sid);
    let rs = slot_of(arg(args, 0, 0));
    let amount = arg(args, 1, 0);
    let sb = rd(ss);
    let rb = rd(rs);
    let gf = rd(2) == 1;
    let o = VmOutcome::empty().read(2);
    let o1 = if gf { o } else { o.read(flag_slot_of(sid)) };
    let o2 = o1.read(ss).read(rs);
    assert(o2.writes.len() == 0);
    if !gf && rd(flag_slot_of(sid)) != 1 && sb >= amount && ss != rs && rb + amount <= u64::MAX {
        let w1 = o2.write(ss, (sb - amount) as u64);
        assert(w1.writes == seq![(ss, (sb - amount) as u64)]);
        let w = seq![(ss, (sb - amount) as u64), (rs, (rb + amount) as u64)];
        assert(w1.write(rs, (rb + amount) as u64).writes =~= w);
        lemma_entries_map_at(w, 0);
        lemma_entries_map_at(w, 1);
        assert(entries_map(w).dom() =~= set![ss, rs]);
    }
}

/// A Raydium swap of base for quote pays out at least its minimum and keeps a
/// 0.25% fee: where it writes, the base reserve rises by `amount_in`, the quote
/// reserve falls by at least `min_out`, and the fee slot (2) grows by
/// `amount_in * 25 / 10000`; where the quote (0.25% fee kept) is below
/// `min_out`, it writes nothing.
pub proof fn lemma_raydium_swap_respects_min_out(sender: Address, template: Seq<char>, lm: Seq<char>, m: Seq<char>, args: Seq<u64>, rd: spec_fn(u64) -> u64)
    requires
        template == "raydium"@ || template == "orca"@,
        lm == "swap_base_to_quote"@ || lm == "swap_coin_for_pc"@,
    ensures
        (arg(args, 0, 0) * 9975 * rd(1)) / (rd(0) * 10000 + arg(args, 0, 0) * 9975) < arg(args, 1, 0)
            ==> (vm_call(sender, template, lm, m, args, rd) matches Some(out) ==> out.writes.len() == 0),
        vm_call(sender, template, lm, m, args, rd) matches Some(out) ==> (out.writes.len() == 0 || ({
            let w = entries_map(out.writes);
            &&& w.dom() == set![0u64, 1u64, 2u64]
            &&& w[0] == rd(0) + arg(args, 0, 0)
            &&& rd(1) - w[1] >= arg(args, 1, 0)
            &&& w[1] > 0
            &&& w[2] == rd(2) + (arg(args, 0, 0) * 25) / 10000
        })),
{
    reveal(vm_call);
    reveal_strlit("counter");
    reveal_strlit("token");
    reveal_strlit("vault");
    reveal_strlit("uniswap_v2");
    reveal_strlit("uniswap");
    reveal_strlit("maker_cdp");
    reveal_strlit("maker");
    reveal_strlit("raydium");
    reveal_strlit("orca");
    assert(template != "counter"@ && template != "uniswap"@) by {
        if template == "raydium"@ {
            assert(template[0] != "counter"@[0]);
            assert(template[0] != "uniswap"@[0]);
        } else {
            assert(template.len() != "counter"@.len());
            assert(template.len() != "uniswap"@.len());
        }
    }
    assert(template.len() != "token"@.len() && template.len() != "vault"@.len() && template.len() != "uniswap_v2"@.len());
    assert(template.len() != "maker_cdp"@.len() && template.len() != "maker"@.len());
    assert(vm_call(sender, template, lm, m, args, rd) == vm_raydium(lm, m, args, rd));
    let bi = arg(args, 0, 0);
    let rbase = rd(0);
    let rq = rd(1);
    let o = VmOutcome::empty().read(0).read(1);
    assert(o.writes.len() == 0);
    if rbase > 0 && rq > 0 && bi > 0 {
        if let Some(qo) = amm_out(bi, rbase, rq, 9975, 10000) {
            let fee = (bi * 25) / 10000;
            let af = rd(2);
            if qo >= arg(args, 1, 0) && qo < rq && rbase + bi <= u64::MAX && bi * 25 <= u64::MAX && af + fee <= u64::MAX {
                let x = (rbase + bi) as u64;
                let y = (rq - qo) as u64;
                let z = (af + fee) as u64;
                let w1 = o.write(0, x);
                assert(w1.writes == seq![(0u64, x)]);
                let w2 = w1.write(1, y);
                assert(w2.writes =~= seq![(0u64, x), (1u64, y)]);
                let w = seq![(0u64, x), (1u64, y), (2u64, z)];
                assert(w2.read(2).write(2, z).writes =~= w);
                lemma_entries_map_at(w, 0);
                lemma_entries_map_at(w, 1);
                lemma_entries_map_at(w, 2);
                assert forall|k: u64| entries_map(w).contains_key(k) <==> set![0u64, 1u64, 2u64].contains(k) by {
                    if entries_map(w).contains_key(k) {
                        let i = choose|i: int| 0 <= i < w.len() && w[i].0 == k;
                        assert(i == 0 || i == 1 || i == 2);
                    }
                }
                assert(entries_map(w).dom() =~= set![0u64, 1u64, 2u64]);
            }
        }
    }
}

/// The map of four writes to distinct slots `0`, `1`, `2` and `k >= 100`.
proof fn lemma_four_writes(a: u64, b: u64, c: u64, k: u64, d: u64)
    requires
        k >= 100,
    ensures
        ({
            let w = entries_map(VmOutcome::empty().write(0, a).write(1, b).write(2, c).write(k, d).writes);
            &&& w.dom() == set![0u64, 1u64, 2u64, k]
            &&& w[0] == a && w[1] == b && w[2] == c && w[k] == d
        }),
{
    let o = VmOutcome::empty();
    assert(o.write(0, a).writes == seq![(0u64, a)]);
    assert(o.write(0, a).write(1, b).writes =~= seq![(0u64, a), (1u64, b)]);
    assert(o.write(0, a).write(1, b).write(2, c).writes =~= seq![(0u64, a), (1u64, b), (2u64, c)]);
    let w = seq![(0u64, a), (1u64, b), (2u64, c), (k, d)];
    assert(o.write(0, a).write(1, b).write(2, c).write(k, d).writes =~= w);
    lemma_entries_map_at(w, 0);
    lemma_entries_map_at(w, 1);
    lemma_entries_map_at(w, 2);
    lemma_entries_map_at(w, 3);
    assert forall|x: u64| entries_map(w).contains_key(x) <==> set![0u64, 1u64, 2u64, k].contains(x) by {
        if entries_map(w).contains_key(x) {
            let i = choose|i: int| 0 <= i < w.len() && w[i].0 == x;
            assert(i == 0 || i == 1 || i == 2 || i == 3);
        }
    }
    assert(entries_map(w).dom() =~= set![0u64, 1u64, 2u64, k]);
}

/// Pool liquidity is accounted for: adding liquidity raises both reserves by
/// what is paid in, and the LP supply (slot 2) and the provider's LP balance by
/// the same minted amount; removing `lp` needs the provider to hold `lp` and a
/// nonzero supply, and then takes `lp` from the provider's balance and (down to
/// zero) from the supply; otherwise it writes nothing.
pub proof fn lemma_pool_liquidity_accounting(sender: Address, template: Seq<char>, lm: Seq<char>, m: Seq<char>, args: Seq<u64>, rd: spec_fn(u64) -> u64)
    requires
        template == "uniswap_v2"@ || template == "uniswap"@,
        lm == "add_liquidity"@ || lm == "mint_lp"@ || lm == "remove_liquidity"@ || lm == "burn_lp"@,
    ensures
        ({
            let ss = slot_of(address_id(sender));
            &&& (lm == "add_liquidity"@ || lm == "mint_lp"@) ==> (vm_call(sender, template, lm, m, args, rd) matches Some(out) ==> ({
                let w = entries_map(out.writes);
                &&& w.dom() == set![0u64, 1u64, 2u64, ss]
                &&& w[0] == rd(0) + arg(args, 0, 0)
                &&& w[1] == rd(1) + arg(args, 1, 0)
                &&& w[2] - rd(2) == w[ss] - rd(ss)
                &&& w[2] >= rd(2)
            }))
            &&& (lm == "remove_liquidity"@ || lm == "burn_lp"@) ==> (vm_call(sender, template, lm, m, args, rd) matches Some(out) ==>
                if rd(ss) >= arg(args, 0, 0) && rd(2) > 0 {
                    let w = entries_map(out.writes);
                    &&& w.dom() == set![0u64, 1u64, 2u64, ss]
                    &&& w[ss] == rd(ss) - arg(args, 0, 0)
                    &&& w[2] == (if rd(2) >= arg(args, 0, 0) { rd(2) - arg(args, 0, 0) } else { 0 })
                } else {
                    out.writes.len() == 0
                })
        }),
{
    reveal(vm_call);
    reveal_strlit("counter");
    reveal_strlit("token");
    reveal_strlit("vault");
    reveal_strlit("uniswap_v2");
    reveal_strlit("uniswap");
    reveal_strlit("swap_a_to_b");
    reveal_strlit("swap_x_for_y");
    reveal_strlit("swap_b_to_a");
    reveal_strlit("swap_y_for_x");
    reveal_strlit("add_liquidity");
    reveal_strlit("mint_lp");
    reveal_strlit("remove_liquidity");
    reveal_strlit("burn_lp");
    assert(template != "counter"@) by {
        if template == "uniswap"@ {
            assert(template[0] != "counter"@[0]);
        } else {
            assert(template.len() != "counter"@.len());
        }
    }
    assert(template.len() != "token"@.len());
    assert(template.len() != "vault"@.len());
    assert(vm_call(sender, template, lm, m, args, rd) == vm_uniswap(sender, lm, m, args, rd));
    assert(lm.len() != "swap_a_to_b"@.len() && lm.len() != "swap_x_for_y"@.len());
    assert(lm.len() != "swap_b_to_a"@.len() && lm.len() != "swap_y_for_x"@.len());
    if lm == "burn_lp"@ {
        assert(lm[0] != "mint_lp"@[0]);
    }
    if lm == "mint_lp"@ || lm == "add_liquidity"@ {
        assert(lm != "remove_liquidity"@ && lm != "burn_lp"@) by {
            if lm == "mint_lp"@ { assert(lm[0] != "burn_lp"@[0]); }
        }
    }
    let ss = slot_of(address_id(sender));
    let ra = rd(0);
    let rb = rd(1);
    let tl = rd(2);
    let ul = rd(ss);
    if lm == "add_liquidity"@ || lm == "mint_lp"@ {
        let aa = arg(args, 0, 0);
        let ab = arg(args, 1, 0);
        if !(tl != 0 && (ra == 0 || rb == 0)) {
            let minted: u64 = if tl == 0 {
                isqrt(sat_mul(aa, ab) as nat) as u64
            } else {
                min_u64(((aa * tl) / (ra as int)) as u64, ((ab * tl) / (rb as int)) as u64)
            };
            if !(ra + aa > u64::MAX || rb + ab > u64::MAX || tl + minted > u64::MAX || ul + minted > u64::MAX) {
                lemma_four_writes((ra + aa) as u64, (rb + ab) as u64, (tl + minted) as u64, ss, (ul + minted) as u64);
                let o = VmOutcome::empty().read(0).read(1).read(2).read(ss);
                assert(o.write(0, (ra + aa) as u64).write(1, (rb + ab) as u64).write(2, (tl + minted) as u64).write(ss, (ul + minted) as u64).writes
                    == VmOutcome::empty().write(0, (ra + aa) as u64).write(1, (rb + ab) as u64).write(2, (tl + minted) as u64).write(ss, (ul + minted) as u64).writes);
            }
        }
    } else {
        let lp = arg(args, 0, 0);
        if ul >= lp && tl > 0 {
            let oa = ((lp * ra) / (tl as int)) as u64;
            let ob = ((lp * rb) / (tl as int)) as u64;
            lemma_four_writes(sat_sub(ra, oa), sat_sub(rb, ob), sat_sub(tl, lp), ss, (ul - lp) as u64);
            let o = VmOutcome::empty().read(0).read(1).read(2).read(ss);
            assert(o.write(0, sat_sub(ra, oa)).write(1, sat_sub(rb, ob)).write(2, sat_sub(tl, lp)).write(ss, (ul - lp) as u64).writes
                == VmOutcome::empty().write(0, sat_sub(ra, oa)).write(1, sat_sub(rb, ob)).write(2, sat_sub(tl, lp)).write(ss, (ul - lp) as u64).writes);
        } else {
            assert(VmOutcome::empty().read(0).read(1).read(2).read(ss).writes.len() == 0);
        }
    }
}

/// A CDP borrow never exceeds the collateral ratio: where it writes, the
/// borrower's debt rises by the amount borrowed to at most
/// `collateral * price * 100 / ratio` (nothing where the ratio is 0), and the
/// total debt (slot 1) rises by the same amount; where the new debt would exceed
/// that, it writes nothing. (Stated where that bound fits in `u64`; above it the
/// bound is truncated to 64 bits, as the original's cast does.)
pub proof fn lemma_cdp_borrow_within_ratio(sender: Address, template: Seq<char>, lm: Seq<char>, m: Seq<char>, args: Seq<u64>, rd: spec_fn(u64) -> u64)
    requires
        template == "maker_cdp"@ || template == "maker"@,
        lm == "borrow"@ || lm == "borrow_debt"@,
    ensures
        ({
            let ss = slot_of(address_id(sender));
            let ds = flag_slot_of(address_id(sender));
            let dai = arg(args, 0, 0);
            let cap = if rd(3) > 0 { (rd(ss) * rd(2) * 100) / (rd(3) as int) } else { 0 };
            cap <= u64::MAX ==> (vm_call(sender, template, lm, m, args, rd) matches Some(out) ==>
                if rd(ds) + dai <= cap {
                    let w = entries_map(out.writes);
                    &&& w.dom() == set![1u64, ds]
                    &&& w[ds] == rd(ds) + dai
                    &&& w[1] == rd(1) + dai
                } else {
                    out.writes.len() == 0
                })
        }),
{
    reveal(vm_call);
    reveal_strlit("counter");
    reveal_strlit("token");
    reveal_strlit("vault");
    reveal_strlit("uniswap_v2");
    reveal_strlit("uniswap");
    reveal_strlit("maker_cdp");
    reveal_strlit("maker");
    reveal_strlit("deposit_collateral");
    reveal_strlit("deposit");
    reveal_strlit("borrow");
    reveal_strlit("borrow_debt");
    assert(template != "counter"@ && template != "uniswap"@ && template != "token"@ && template != "vault"@) by {
        if template == "maker"@ {
            assert(template.len() != "counter"@.len() && template.len() != "uniswap"@.len());
            assert(template[0] != "token"@[0] && template[0] != "vault"@[0]);
        } else {
            assert(template.len() != "counter"@.len() && template.len() != "uniswap"@.len());
            assert(template.len() != "token"@.len() && template.len() != "vault"@.len());
        }
    }
    assert(template.len() != "uniswap_v2"@.len());
    assert(vm_call(sender, template, lm, m, args, rd) == vm_maker(sender, lm, m, args, rd));
    assert(lm != "deposit_collateral"@ && lm != "deposit"@) by {
        if lm == "borrow"@ {
            assert(lm.len() != "deposit_collateral"@.len() && lm.len() != "deposit"@.len());
        } else {
            assert(lm.len() != "deposit_collateral"@.len() && lm.len() != "deposit"@.len());
        }
    }
    let ss = slot_of(address_id(sender));
    let ds = flag_slot_of(address_id(sender));
    let dai = arg(args, 0, 0);
    let ud = rd(ds);
    let td = rd(1);
    assert(ds >= 200);
    let o = VmOutcome::empty().read(2).read(3).read(ss).read(ds);
    assert(o.writes.len() == 0);
    assert(o.read(1).writes.len() == 0);
    if td + dai <= u64::MAX && ud + dai <= u64::MAX {
        let w1 = o.read(1).write(1, (td + dai) as u64);
        assert(w1.writes == seq![(1u64, (td + dai) as u64)]);
        let w = seq![(1u64, (td + dai) as u64), (ds, (ud + dai) as u64)];
        assert(w1.write(ds, (ud + dai) as u64).writes =~= w);
        lemma_entries_map_at(w, 0);
        lemma_entries_map_at(w, 1);
        assert(entries_map(w).dom() =~= set![1u64, ds]);
    }
}

/// A vault deposit mints fair shares: the assets (slot 0) rise by the amount
/// deposited; the total shares (slot 1) and the depositor's shares rise by the
/// same minted amount, which is the amount itself into an empty vault and
/// otherwise never more than the amount's worth at the current share price.
pub proof fn lemma_vault_deposit_fair(sender: Address, lm: Seq<char>, m: Seq<char>, args: Seq<u64>, rd: spec_fn(u64) -> u64)
    requires
        lm == "deposit"@,
    ensures
        vm_call(sender, "vault"@, lm, m, args, rd) matches Some(out) ==> ({
            let w = entries_map(out.writes);
            let ss = slot_of(address_id(sender));
            let amount = arg(args, 0, 100);
            let minted = w[1] - rd(1);
            &&& w.dom() == set![0u64, 1u64, ss]
            &&& w[0] == rd(0) + amount
            &&& w[ss] - rd(ss) == minted
            &&& (rd(0) == 0 || rd(1) == 0) ==> minted == amount
            &&& (rd(0) != 0 && rd(1) != 0) ==> minted * rd(0) <= amount * rd(1)
        }),
{
    reveal(vm_call);
    reveal_strlit("counter");
    reveal_strlit("token");
    reveal_strlit("vault");
    assert("vault"@.len() != "counter"@.len());
    assert("vault"@[0] != "token"@[0]);
    assert(vm_call(sender, "vault"@, lm, m, args, rd) == vm_vault(sender, lm, m, args, rd));
    let ss = slot_of(address_id(sender));
    let amount = arg(args, 0, 100);
    let ca = rd(0);
    let cs = rd(1);
    let us = rd(ss);
    if (amount as i64) != i64::MIN && !(ca != 0 && cs != 0 && amount * cs > u64::MAX) {
        let o = VmOutcome::empty().read(0).read(1).delta(sender, (-((amount as i64) as int)) as i64);
        let shares: u64 = if ca == 0 || cs == 0 { amount } else { ((amount * cs) / (ca as int)) as u64 };
        if !(ca + amount > u64::MAX || cs + shares > u64::MAX || us + shares > u64::MAX) {
            let o2 = o.read(ss);
            assert(o2.writes.len() == 0);
            let a = (ca + amount) as u64;
            let b = (cs + shares) as u64;
            let c = (us + shares) as u64;
            assert(o2.write(0, a).writes == seq![(0u64, a)]);
            assert(o2.write(0, a).write(1, b).writes =~= seq![(0u64, a), (1u64, b)]);
            let w = seq![(0u64, a), (1u64, b), (ss, c)];
            assert(o2.write(0, a).write(1, b).write(ss, c).writes =~= w);
            lemma_entries_map_at(w, 0);
            lemma_entries_map_at(w, 1);
            lemma_entries_map_at(w, 2);
            assert forall|x: u64| entries_map(w).contains_key(x) <==> set![0u64, 1u64, ss].contains(x) by {
                if entries_map(w).contains_key(x) {
                    let i = choose|i: int| 0 <= i < w.len() && w[i].0 == x;
                    assert(i == 0 || i == 1 || i == 2);
                }
            }
            assert(entries_map(w).dom() =~= set![0u64, 1u64, ss]);
            if ca != 0 && cs != 0 {
                let q = (amount * cs) / (ca as int);
                assert(q * ca <= amount * cs) by (nonlinear_arith)
                    requires q == (amount * cs) / (ca as int), ca > 0, amount * cs >= 0;
            }
        }
    }
}

/// Every natural number has an integer square root.
proof fn lemma_isqrt_exists(n: nat)
    ensures
        is_isqrt(n as int, isqrt(n) as int),
    decreases n,
{
    if n == 0 {
        assert(is_isqrt(0, 0));
    } else {
        lemma_isqrt_exists((n - 1) as nat);
        let r = isqrt((n - 1) as nat) as int;
        if n < (r + 1) * (r + 1) {
            assert(is_isqrt(n as int, r));
        } else {
            assert(is_isqrt(n as int, r + 1)) by (nonlinear_arith)
                requires
                    r * r <= n - 1,
                    n - 1 < (r + 1) * (r + 1),
                    n >= (r + 1) * (r + 1),
                    r >= 0;
        }
    }
}

/// Deploying a constant-product pool gives the creator the whole LP supply:
/// the creator's balance slot and the supply slot 2 both hold the integer square
/// root of the reserves' product (capped at `u64::MAX`), beside the two reserves.
pub proof fn lemma_pool_deploy_credits_creator(creator: Address, lt: Seq<char>, params: Seq<u64>)
    requires
        lt == "uniswap_v2"@ || lt == "uniswap"@,
    ensures
        ({
            let d = deploy_slots(creator, lt, params);
            let ra = arg(params, 0, 10_000);
            let rb = arg(params, 1, 20_000_000);
            let p = if ra * rb > u64::MAX { u64::MAX as int } else { ra * rb };
            let cs = slot_of(address_id(creator));
            &&& d.dom() == set![0u64, 1u64, 2u64, cs]
            &&& d[0] == ra
            &&& d[1] == rb
            &&& d[cs] == d[2]
            &&& d[2] * d[2] <= p < (d[2] + 1) * (d[2] + 1)
        }),
{
    reveal_strlit("counter");
    reveal_strlit("token");
    reveal_strlit("vault");
    reveal_strlit("uniswap_v2");
    reveal_strlit("uniswap");
    assert(lt != "counter"@) by {
        if lt == "uniswap"@ {
            assert(lt[0] != "counter"@[0]);
        } else {
            assert(lt.len() != "counter"@.len());
        }
    }
    assert(lt.len() != "token"@.len());
    assert(lt.len() != "vault"@.len());
    let ra = arg(params, 0, 10_000);
    let rb = arg(params, 1, 20_000_000);
    let sp = sat_mul(ra, rb);
    lemma_isqrt_exists(sp as nat);
    let lp = isqrt(sp as nat);
    assert(lp * lp <= sp);
    assert(lp <= u64::MAX) by (nonlinear_arith)
        requires lp * lp <= sp, sp <= u64::MAX, lp >= 0;
    let lpu = lp as u64;
    let cs = slot_of(address_id(creator));
    let e = Seq::<(u64, u64)>::empty();
    let w = seq![(0u64, ra), (1u64, rb), (2u64, lpu), (cs, lpu)];
    assert(upsert(e, 0, ra) == seq![(0u64, ra)]);
    assert(upsert(seq![(0u64, ra)], 1, rb) =~= seq![(0u64, ra), (1u64, rb)]);
    assert(upsert(seq![(0u64, ra), (1u64, rb)], 2, lpu) =~= seq![(0u64, ra), (1u64, rb), (2u64, lpu)]);
    assert(upsert(seq![(0u64, ra), (1u64, rb), (2u64, lpu)], cs, lpu) =~= w);
    assert(deploy_entries(creator, lt, params) == w);
    assert(keys_distinct(w));
    lemma_entries_map_at(w, 0);
    lemma_entries_map_at(w, 1);
    lemma_entries_map_at(w, 2);
    lemma_entries_map_at(w, 3);
    assert forall|k: u64| entries_map(w).contains_key(k) <==> set![0u64, 1u64, 2u64, cs].contains(k) by {
        if entries_map(w).contains_key(k) {
            let i = choose|i: int| 0 <= i < w.len() && w[i].0 == k;
            assert(i == 0 || i == 1 || i == 2 || i == 3);
        }
    }
    assert(entries_map(w).dom() =~= set![0u64, 1u64, 2u64, cs]);
}

pub open spec fn vm_maker(sender: Address, lm: Seq<char>, m: Seq<char>, args: Seq<u64>, rd: spec_fn(u64) -> u64) -> Option<VmOutcome> {
    let sid = address_id(sender);
    let ss = slot_of(sid);
    let ds = flag_slot_of(sid);
    if lm == "deposit_collateral"@ || lm == "deposit"@ {
        let amt = arg(args, 0, 0);
        let tc = rd(0);
        let uc = rd(ss);
        let o = VmOutcome::empty().read(0).read(ss);
        if tc + amt > u64::MAX || uc + amt > u64::MAX {
            None
        } else {
            Some(o.write(0, (tc + amt) as u64).write(ss, (uc + amt) as u64).log(
                "MakerDAO Deposit: +"@ + dec(amt as nat) + " ETH collateral"@))
        }
    } else if lm == "borrow"@ || lm == "borrow_debt"@ {
        let dai = arg(args, 0, 0);
        let price = rd(2);
        let lr = rd(3);
        let uc = rd(ss);
        let ud = rd(ds);
        let o = VmOutcome::empty().read(2).read(3).read(ss).read(ds);
        if lr > 0 && uc * price * 100 > u128::MAX {
            None
        } else if ud + dai > u64::MAX {
            None
        } else {
            let maxd: u64 = if lr > 0 { ((uc * price * 100) / (lr as int)) as u64 } else { 0 };
            if ud + dai <= maxd {
                let td = rd(1);
                if td + dai > u64::MAX {
                    None
                } else {
                    Some(o.read(1).write(1, (td + dai) as u64).write(ds, (ud + dai) as u64).log(
                        "MakerDAO Borrow: "@ + dec(dai as nat) + " DAI borrowed against "@ + dec(uc as nat) + " ETH"@))
                }
            } else {
                Some(o.log("Borrow rejected: Exceeds 150% collateral ratio"@))
            }
        }
    } else if lm == "repay"@ || lm == "repay_debt"@ {
        let dai = arg(args, 0, 0);
        let ud = rd(ds);
        let rep = min_u64(ud, dai);
        let td = rd(1);
        Some(VmOutcome::empty().read(ds).read(1).write(1, sat_sub(td, rep)).write(ds, (ud - rep) as u64).log(
            "MakerDAO Repay: "@ + dec(rep as nat) + " DAI repaid"@))
    } else {
        Some(VmOutcome::empty().log("Unknown MakerDAO method: "@ + m))
    }
}

fn run_maker<F: Fn(u64) -> u64>(acc: &mut VmAcc, f: &F, sender: Address, lm: &str, method: &str, args: &[u64]) -> (ok: bool)
    requires
        reads_as(*f, old(acc).rd@),
        old(acc).out() == VmOutcome::empty(),
        old(acc).writes.wf(),
    ensures
        ok == (vm_maker(sender, lm@, method@, args@, old(acc).rd@) is Some),
        ok ==> vm_maker(sender, lm@, method@, args@, old(acc).rd@) == Some(final(acc).out()),
        final(acc).writes.wf(),
{
    let sid = sender.id();
    let ss = 100 + sid % 1000;
    let ds = 200 + sid % 1000;
    if str_eq(lm, "deposit_collateral") || str_eq(lm, "deposit") {
        let amt = arg_or(args, 0, 0);
        let tc = acc.rd(f, 0);
        let uc = acc.rd(f, ss);
        if tc > u64::MAX - amt || uc > u64::MAX - amt {
            return false;
        }
        acc.write(0, tc + amt);
        acc.write(ss, uc + amt);
        let mut s = String::from_str("MakerDAO Deposit: +");
        push_dec(&mut s, amt);
        s.append(" ETH collateral");
        acc.log(s);
    } else if str_eq(lm, "borrow") || str_eq(lm, "borrow_debt") {
        let dai = arg_or(args, 0, 0);
        let price = acc.rd(f, 2);
        let lr = acc.rd(f, 3);
        let uc = acc.rd(f, ss);
        let ud = acc.rd(f, ds);
        let maxd = if lr > 0 {
            proof { lemma_mul_fits(uc, price); }
            match (uc as u128 * price as u128).checked_mul(100) {
                Some(p) => (p / lr as u128) as u64,
                None => { return false; },
            }
        } else {
            0
        };
        if ud > u64::MAX - dai {
            return false;
        }
        if ud + dai <= maxd {
            let td = acc.rd(f, 1);
            if td > u64::MAX - dai {
                return false;
            }
            acc.write(1, td + dai);
            acc.write(ds, ud + dai);
            let mut s = String::from_str("MakerDAO Borrow: ");
            push_dec(&mut s, dai);
            s.append(" DAI borrowed against ");
            push_dec(&mut s, uc);
            s.append(" ETH");
            acc.log(s);
        } else {
            acc.log(String::from_str("Borrow rejected: Exceeds 150% collateral ratio"));
        }
    } else if str_eq(lm, "repay") || str_eq(lm, "repay_debt") {
        let dai = arg_or(args, 0, 0);
        let ud = acc.rd(f, ds);
        let rep = if ud <= dai { ud } else { dai };
        let td = acc.rd(f, 1);
        acc.write(1, td.saturating_sub(rep));
        acc.write(ds, ud - rep);
        let mut s = String::from_str("MakerDAO Repay: ");
        push_dec(&mut s, rep);
        s.append(" DAI repaid");
        acc.log(s);
    } else {
        let mut s = String::from_str("Unknown MakerDAO method: ");
        s.append(method);
        acc.log(s);
    }
    true
}

pub open spec fn vm_raydium(lm: Seq<char>, m: Seq<char>, args: Seq<u64>, rd: spec_fn(u64) -> u64) -> Option<VmOutcome> {
    if lm == "swap_base_to_quote"@ || lm == "swap_coin_for_pc"@ {
        let bi = arg(args, 0, 0);
        let mq = arg(args, 1, 0);
        let rbase = rd(0);
        let rq = rd(1);
        let o = VmOutcome::empty().read(0).read(1);
        if rbase > 0 && rq > 0 && bi > 0 {
            match amm_out(bi, rbase, rq, 9975, 10000) {
                None => None,
                Some(qo) => if qo >= mq && qo < rq {
                    let fee = (bi * 25) / 10000;
                    let af = rd(2);
                    if rbase + bi > u64::MAX || bi * 25 > u64::MAX || af + fee > u64::MAX {
                        None
                    } else {
                        Some(o.write(0, (rbase + bi) as u64).write(1, (rq - qo) as u64).read(2).write(2, (af + fee) as u64).log(
                            "Raydium Swap: "@ + dec(bi as nat) + " SOL -> "@ + dec(qo as nat) + " USDC (Fee: "@ + dec(fee as nat) + " SOL)"@))
                    }
                } else {
                    Some(o)
                },
            }
        } else {
            Some(o)
        }
    } else if lm == "swap_quote_to_base"@ || lm == "swap_pc_for_coin"@ {
        let qi = arg(args, 0, 0);
        let mb = arg(args, 1, 0);
        let rbase = rd(0);
        let rq = rd(1);
        let o = VmOutcome::empty().read(0).read(1);
        if rbase > 0 && rq > 0 && qi > 0 {
            match amm_out(qi, rq, rbase, 9975, 10000) {
                None => None,
                Some(bo) => if bo >= mb && bo < rbase {
                    if rq + qi > u64::MAX {
                        None
                    } else {
                        Some(o.write(1, (rq + qi) as u64).write(0, (rbase - bo) as u64).log(
                            "Raydium Swap: "@ + dec(qi as nat) + " USDC -> "@ + dec(bo as nat) + " SOL"@))
                    }
                } else {
                    Some(o)
                },
            }
        } else {
            Some(o)
        }
    } else if lm == "add_liquidity"@ {
        let bi = arg(args, 0, 0);
        let qi = arg(args, 1, 0);
        let rbase = rd(0);
        let rq = rd(1);
        if rbase + bi > u64::MAX || rq + qi > u64::MAX {
            None
        } else {
            Some(VmOutcome::empty().read(0).read(1).write(0, (rbase + bi) as u64).write(1, (rq + qi) as u64).log(
                "Raydium Add Liquidity: +"@ + dec(bi as nat) + " Base, +"@ + dec(qi as nat) + " Quote"@))
        }
    } else {
        Some(VmOutcome::empty().log("Unknown Raydium method: "@ + m))
    }
}

fn run_raydium<F: Fn(u64) -> u64>(acc: &mut VmAcc, f: &F, lm: &str, method: &str, args: &[u64]) -> (ok: bool)
    requires
        reads_as(*f, old(acc).rd@),
        old(acc).out() == VmOutcome::empty(),
        old(acc).writes.wf(),
    ensures
        ok == (vm_raydium(lm@, method@, args@, old(acc).rd@) is Some),
        ok ==> vm_raydium(lm@, method@, args@, old(acc).rd@) == Some(final(acc).out()),
        final(acc).writes.wf(),
{
    if str_eq(lm, "swap_base_to_quote") || str_eq(lm, "swap_coin_for_pc") {
        let bi = arg_or(args, 0, 0);
        let mq = arg_or(args, 1, 0);
        let rbase = acc.rd(f, 0);
        let rq = acc.rd(f, 1);
        if rbase > 0 && rq > 0 && bi > 0 {
            let qo = match amm_try(bi, rbase, rq, 9975, 10000) {
                Some(o) => o,
                None => { return false; },
            };
            if qo >= mq && qo < rq {
                if rbase > u64::MAX - bi || bi > u64::MAX / 25 {
                    return false;
                }
                acc.write(0, rbase + bi);
                acc.write(1, rq - qo);
                let fee = (bi * 25) / 10000;
                let af = acc.rd(f, 2);
                if af > u64::MAX - fee {
                    return false;
                }
                acc.write(2, af + fee);
                let mut s = String::from_str("Raydium Swap: ");
                push_dec(&mut s, bi);
                s.append(" SOL -> ");
                push_dec(&mut s, qo);
                s.append(" USDC (Fee: ");
                push_dec(&mut s, fee);
                s.append(" SOL)");
                acc.log(s);
            }
        }
    } else if str_eq(lm, "swap_quote_to_base") || str_eq(lm, "swap_pc_for_coin") {
        let qi = arg_or(args, 0, 0);
        let mb = arg_or(args, 1, 0);
        let rbase = acc.rd(f, 0);
        let rq = acc.rd(f, 1);
        if rbase > 0 && rq > 0 && qi > 0 {
            let bo = match amm_try(qi, rq, rbase, 9975, 10000) {
                Some(o) => o,
                None => { return false; },
            };
            if bo >= mb && bo < rbase {
                if rq > u64::MAX - qi {
                    return false;
                }
                acc.write(1, rq + qi);
                acc.write(0, rbase - bo);
                let mut s = String::from_str("Raydium Swap: ");
                push_dec(&mut s, qi);
                s.append(" USDC -> ");
                push_dec(&mut s, bo);
                s.append(" SOL");
                acc.log(s);
            }
        }
    } else if str_eq(lm, "add_liquidity") {
        let bi = arg_or(args, 0, 0);
        let qi = arg_or(args, 1, 0);
        let rbase = acc.rd(f, 0);
        let rq = acc.rd(f, 1);
        if rbase > u64::MAX - bi || rq > u64::MAX - qi {
            return false;
        }
        acc.write(0, rbase + bi);
        acc.write(1, rq + qi);
        let mut s = String::from_str("Raydium Add Liquidity: +");
        push_dec(&mut s, bi);
        s.append(" Base, +");
        push_dec(&mut s, qi);
        s.append(" Quote");
        acc.log(s);
    } else {
        let mut s = String::from_str("Unknown Raydium method: ");
        s.append(method);
        acc.log(s);
    }
    true
}

pub open spec fn vm_spl(sender: Address, lm: Seq<char>, m: Seq<char>, args: Seq<u64>, rd: spec_fn(u64) -> u64) -> Option<VmOutcome> {
    let sid = address_id(sender);
    let ss = slot_of(sid);
    let gf = rd(2) == 1;
    let o = VmOutcome::empty().read(2);
    if lm == "mint_to"@ {
        let rid = arg(args, 0, sid);
        let amt = arg(args, 1, 0);
        let ts = rd(0);
        let rs = slot_of(rid);
        let rb = rd(rs);
        if ts + amt > u64::MAX || rb + amt > u64::MAX {
            None
        } else {
            Some(o.read(0).read(rs).write(0, (ts + amt) as u64).write(rs, (rb + amt) as u64).log(
                "SPL Token MintTo: +"@ + dec(amt as nat) + " tokens to account "@ + id_display(rid)))
        }
    } else if lm == "transfer_checked"@ || lm == "transfer"@ {
        let o1 = if gf { o } else { o.read(flag_slot_of(sid)) };
        let sf = gf || rd(flag_slot_of(sid)) == 1;
        if sf {
            Some(o1.log("SPL Token Error: Token account is frozen!"@))
        } else {
            let rid = arg(args, 0, 0);
            let amt = arg(args, 1, 0);
            let rs = slot_of(rid);
            let sb = rd(ss);
            let rb = rd(rs);
            let o2 = o1.read(ss).read(rs);
            if sb >= amt {
                if rb + amt > u64::MAX {
                    None
                } else {
                    Some(o2.write(ss, (sb - amt) as u64).write(rs, (rb + amt) as u64).log(
                        "SPL Token Transfer: "@ + dec(amt as nat) + " tokens from "@ + address_display(sender) + " to "@ + id_display(rid)))
                }
            } else {
                Some(o2.log("SPL Token Error: Insufficient balance"@))
            }
        }
    } else if lm == "freeze"@ || lm == "freeze_account"@ {
        let o1 = o.write(2, 1);
        let o2 = if args.len() > 0 { o1.write(flag_slot_of(args[0]), 1) } else { o1 };
        Some(o2.log("SPL Token account frozen"@))
    } else if lm == "thaw"@ || lm == "thaw_account"@ {
        let o1 = o.write(2, 0);
        let o2 = if args.len() > 0 { o1.write(flag_slot_of(args[0]), 0) } else { o1 };
        Some(o2.log("SPL Token account thawed"@))
    } else {
        Some(o.log("Unknown SPL Token method: "@ + m))
    }
}

fn run_spl<F: Fn(u64) -> u64>(acc: &mut VmAcc, f: &F, sender: Address, lm: &str, method: &str, args: &[u64]) -> (ok: bool)
    requires
        reads_as(*f, old(acc).rd@),
        old(acc).out() == VmOutcome::empty(),
        old(acc).writes.wf(),
    ensures
        ok == (vm_spl(sender, lm@, method@, args@, old(acc).rd@) is Some),
        ok ==> vm_spl(sender, lm@, method@, args@, old(acc).rd@) == Some(final(acc).out()),
        final(acc).writes.wf(),
{
    let sid = sender.id();
    let ss = 100 + sid % 1000;
    let global_frozen = acc.rd(f, 2) == 1;
    if str_eq(lm, "mint_to") {
        let rid = arg_or(args, 0, sid);
        let amt = arg_or(args, 1, 0);
        let ts = acc.rd(f, 0);
        let rs = 100 + rid % 1000;
        let rb = acc.rd(f, rs);
        if ts > u64::MAX - amt || rb > u64::MAX - amt {
            return false;
        }
        acc.write(0, ts + amt);
        acc.write(rs, rb + amt);
        let mut s = String::from_str("SPL Token MintTo: +");
        push_dec(&mut s, amt);
        s.append(" tokens to account ");
        push_address_display(&mut s, &Address::new(rid));
        acc.log(s);
    } else if str_eq(lm, "transfer_checked") || str_eq(lm, "transfer") {
        let sender_frozen = global_frozen || acc.rd(f, 200 + sid % 1000) == 1;
        if sender_frozen {
            acc.log(String::from_str("SPL Token Error: Token account is frozen!"));
        } else {
            let rid = arg_or(args, 0, 0);
            let amt = arg_or(args, 1, 0);
            let rs = 100 + rid % 1000;
            let sb = acc.rd(f, ss);
            let rb = acc.rd(f, rs);
            if sb >= amt {
                if rb > u64::MAX - amt {
                    return false;
                }
                acc.write(ss, sb - amt);
                acc.write(rs, rb + amt);
                let mut s = String::from_str("SPL Token Transfer: ");
                push_dec(&mut s, amt);
                s.append(" tokens from ");
                push_address_display(&mut s, &sender);
                s.append(" to ");
                push_address_display(&mut s, &Address::new(rid));
                acc.log(s);
            } else {
                acc.log(String::from_str("SPL Token Error: Insufficient balance"));
            }
        }
    } else if str_eq(lm, "freeze") || str_eq(lm, "freeze_account") {
        acc.write(2, 1);
        if args.len() > 0 {
            acc.write(200 + args[0] % 1000, 1);
        }
        acc.log(String::from_str("SPL Token account frozen"));
    } else if str_eq(lm, "thaw") || str_eq(lm, "thaw_account") {
        acc.write(2, 0);
        if args.len() > 0 {
            acc.write(200 + args[0] % 1000, 0);
        }
        acc.log(String::from_str("SPL Token account thawed"));
    } else {
        let mut s = String::from_str("Unknown SPL Token method: ");
        s.append(method);
        acc.log(s);
    }
    true
}

/// The writes and log lines of a custom contract after its first `k` argument
/// pairs: each pair `(slot, value)` sets that slot.
pub open spec fn vm_custom(args: Seq<u64>, k: nat) -> VmOutcome
    decreases k,
{
    if k == 0 {
        VmOutcome::empty()
    } else {
        let slot = args[2 * (k - 1)];
        let val = args[2 * (k - 1) + 1];
        vm_custom(args, (k - 1) as nat).write(slot, val).log(
            "Custom contract: Slot["@ + dec(slot as nat) + "] = "@ + dec(val as nat))
    }
}

fn run_custom(acc: &mut VmAcc, args: &[u64])
    requires
        old(acc).out() == VmOutcome::empty(),
        old(acc).writes.wf(),
    ensures
        final(acc).out() == vm_custom(args@, (args@.len() / 2) as nat),
        final(acc).writes.wf(),
{
    let n = args.len();
    let pairs = n / 2;
    let mut k: usize = 0;
    while k < pairs
        invariant
            n == args@.len(),
            pairs == n / 2,
            k <= pairs,
            acc.out() == vm_custom(args@, k as nat),
            acc.writes.wf(),
        decreases pairs - k,
    {
        assert(2 * k + 1 < n);
        let slot = args[2 * k];
        let val = args[2 * k + 1];
        acc.write(slot, val);
        let mut s = String::from_str("Custom contract: Slot[");
        push_dec(&mut s, slot);
        s.append("] = ");
        push_dec(&mut s, val);
        acc.log(s);
        k = k + 1;
    }
}

/// What `str::to_lowercase` returns for a string.
pub uninterp spec fn lowercase(s: Seq<char>) -> Seq<char>;

/// Every character is ASCII.
pub open spec fn is_ascii_text(s: Seq<char>) -> bool {
    forall|i: int| 0 <= i < s.len() ==> (s[i] as u32) < 128
}

/// `c`, with an ASCII capital letter replaced by its small letter.
pub open spec fn ascii_lower_char(c: char) -> char {
    if 65 <= (c as u32) && (c as u32) <= 90 { ((c as u32) + 32) as char } else { c }
}

/// `s` with each ASCII capital letter replaced by its small letter.
pub open spec fn ascii_lower(s: Seq<char>) -> Seq<char> {
    s.map_values(|c: char| ascii_lower_char(c))
}

/// Lower-casing ASCII text keeps it ASCII, and doing it twice is doing it once;
/// so a template and its lower-cased form deploy alike.
pub proof fn lemma_ascii_lower_idempotent(s: Seq<char>)
    requires
        is_ascii_text(s),
    ensures
        is_ascii_text(ascii_lower(s)),
        ascii_lower(ascii_lower(s)) == ascii_lower(s),
{
    assert forall|i: int| 0 <= i < s.len() implies ((ascii_lower(s)[i] as u32) < 128 && ascii_lower_char(ascii_lower(s)[i]) == ascii_lower(s)[i]) by {
        let c = s[i];
        if 65 <= (c as u32) && (c as u32) <= 90 {
            let d = ((c as u32) + 32) as char;
            assert(d as u32 == (c as u32) + 32);
        }
    }
    assert(ascii_lower(ascii_lower(s)) =~= ascii_lower(s));
}

/// Calls `str::to_lowercase`. Claimed: the result is `lowercase(s)`, a function
/// of the characters alone; for ASCII text it is the text with each capital
/// letter `A`..`Z` replaced by `a`..`z`, as std documents for ASCII.
#[verifier::external_body]
pub(crate) fn str_to_lowercase(s: &str) -> (r: String)
    ensures
        r@ == lowercase(s@),
        is_ascii_text(s@) ==> r@ == ascii_lower(s@),
{
    s.to_lowercase()
}

/// The outcome of calling `method` (lower-cased: `lm`; as given: `m`) with `args`
/// on a contract of the given template, reading slots through `rd`; `None` where
/// the arithmetic of the call overflows or divides by zero.
#[verifier::opaque]
pub open spec fn vm_call(sender: Address, template: Seq<char>, lm: Seq<char>, m: Seq<char>, args: Seq<u64>, rd: spec_fn(u64) -> u64) -> Option<VmOutcome> {
    if template == "counter"@ {
        vm_counter(lm, m, args, rd)
    } else if template == "token"@ {
        vm_token(sender, lm, m, args, rd)
    } else if template == "vault"@ {
        vm_vault(sender, lm, m, args, rd)
    } else if template == "uniswap_v2"@ || template == "uniswap"@ {
        vm_uniswap(sender, lm, m, args, rd)
    } else if template == "maker_cdp"@ || template == "maker"@ {
        vm_maker(sender, lm, m, args, rd)
    } else if template == "raydium"@ || template == "orca"@ {
        vm_raydium(lm, m, args, rd)
    } else if template == "spl_token"@ {
        vm_spl(sender, lm, m, args, rd)
    } else {
        Some(vm_custom(args, (args.len() / 2) as nat))
    }
}

/// The gas a call with `n` arguments is charged.
pub open spec fn call_gas(n: nat) -> int {
    21000 + (n as int) * 500
}

/// The initial storage entries of a contract deployed from `lt` (the lower-cased
/// template) with `params` by `creator`, in the order they are set.
pub open spec fn deploy_entries(creator: Address, lt: Seq<char>, params: Seq<u64>) -> Seq<(u64, u64)> {
    let cslot = slot_of(address_id(creator));
    let e = Seq::<(u64, u64)>::empty();
    if lt == "counter"@ {
        upsert(e, 0, arg(params, 0, 0))
    } else if lt == "token"@ {
        let ts = arg(params, 0, 1_000_000);
        upsert(upsert(e, 0, ts), cslot, ts)
    } else if lt == "vault"@ {
        upsert(upsert(upsert(e, 0, 0), 1, 0), 2, 5)
    } else if lt == "uniswap_v2"@ || lt == "uniswap"@ {
        let ra = arg(params, 0, 10_000);
        let rb = arg(params, 1, 20_000_000);
        let lp = isqrt(sat_mul(ra, rb) as nat) as u64;
        upsert(upsert(upsert(upsert(e, 0, ra), 1, rb), 2, lp), cslot, lp)
    } else if lt == "maker_cdp"@ || lt == "maker"@ {
        upsert(upsert(upsert(upsert(e, 0, 0), 1, 0), 2, arg(params, 0, 2000)), 3, arg(params, 1, 150))
    } else if lt == "raydium"@ || lt == "orca"@ {
        upsert(upsert(upsert(e, 0, arg(params, 0, 50_000)), 1, arg(params, 1, 7_500_000)), 2, 0)
    } else if lt == "spl_token"@ {
        let ts = arg(params, 0, 100_000_000);
        upsert(upsert(upsert(upsert(e, 0, ts), 1, arg(params, 1, 6)), 2, 0), cslot, ts)
    } else {
        Seq::new(params.len(), |i: int| (i as u64, params[i]))
    }
}

/// The initial storage of a contract deployed from `lt` with `params` by `creator`.
pub open spec fn deploy_slots(creator: Address, lt: Seq<char>, params: Seq<u64>) -> Map<u64, u64> {
    entries_map(deploy_entries(creator, lt, params))
}

/// The address a contract named `name` gets when `creator` deploys it at `nonce`:
/// the last twenty bytes of SHA-256 over creator, nonce (big-endian) and the
/// name's UTF-8 bytes.
pub open spec fn contract_address_bytes(creator: Address, nonce: u64, name: Seq<char>) -> Seq<u8> {
    sha256(creator.0@ + u64_be(nonce) + vstd::utf8::encode_utf8(name)).subrange(12, 32)
}

/// The same map as a `HashMap`.
fn to_hashmap(m: AssocMap<u64, u64>) -> (h: HashMap<u64, u64>)
    requires
        m.wf(),
    ensures
        h@ == entries_map(m.entries()),
{
    proof { m.lemma_entries(); }
    let ghost src = m.entries();
    let n = m.len();
    let mut h: HashMap<u64, u64> = HashMap::new();
    for i in 0..n
        invariant
            n == src.len(),
            src == m.entries(),
            keys_distinct(src),
            h@ == entries_map(src.subrange(0, i as int)),
    {
        let e = *m.entry(i);
        proof {
            let pre = src.subrange(0, i as int);
            assert(keys_distinct(pre)) by {
                assert forall|a: int, b: int| 0 <= a < pre.len() && 0 <= b < pre.len() && a != b implies pre[a].0 != pre[b].0 by {
                    assert(pre[a] == src[a] && pre[b] == src[b]);
                }
            }
            assert(!entries_map(pre).contains_key(e.0)) by {
                if entries_map(pre).contains_key(e.0) {
                    let x = choose|x: int| 0 <= x < pre.len() && pre[x].0 == e.0;
                    assert(src[x].0 == src[i as int].0);
                }
            }
            crate::assoc::lemma_entries_map_push(pre, e.0, e.1);
            assert(src.subrange(0, i + 1) =~= pre.push((e.0, e.1)));
        }
        h.insert(e.0, e.1);
    }
    proof { assert(src.subrange(0, n as int) =~= src); }
    h
}

/// The contract engine.
pub struct SmartContractEngine;


/// The slot writes, balance deltas, log lines and gas of one contract call.
pub struct VmExecutionResult {
    pub contract_slot_writes: HashMap<u64, u64>,
    pub account_balance_deltas: Vec<(Address, i64)>,
    pub logs: Vec<String>,
    pub gas_used: u64,
}

impl SmartContractEngine {
    /// The address of the contract `creator` deploys as `name` at `nonce`.
    pub fn derive_contract_address(creator: &Address, nonce: u64, name: &str) -> (a: Address)
        ensures
            a.0@ == contract_address_bytes(*creator, nonce, name@),
    {
        let mut bytes: Vec<u8> = Vec::new();
        push_bytes(&mut bytes, creator.0.as_slice());
        push_u64_be(&mut bytes, nonce);
        push_bytes(&mut bytes, name.as_bytes());
        let h = sha256_digest(bytes.as_slice());
        let mut out = [0u8; 20];
        let mut i: usize = 0;
        while i < 20
            invariant
                i <= 20,
                h@.len() == 32,
                forall|j: int| 0 <= j < i ==> out@[j] == h@[12 + j],
            decreases 20 - i,
        {
            out[i] = h[12 + i];
            i = i + 1;
        }
        proof { assert(out@ =~= h@.subrange(12, 32)); }
        Address(out)
    }

    /// Deploys a contract from a template: its metadata (address derived from
    /// creator, nonce and name; template lower-cased) and its initial storage.
    pub fn deploy(creator: Address, nonce: u64, round: u64, name: &str, template: &str, params: &[u64]) -> (r: (ContractInfo, HashMap<u64, u64>))
        ensures
            r.0.address.0@ == contract_address_bytes(creator, nonce, name@),
            r.0.name@ == name@,
            r.0.template@ == lowercase(template@),
            is_ascii_text(template@) ==> r.0.template@ == ascii_lower(template@),
            r.0.creator == creator,
            r.0.created_at_round == round,
            r.1@ == deploy_slots(creator, lowercase(template@), params@),
    {
        let (info, slots) = Self::deploy_entries(creator, nonce, round, name, template, params);
        (info, to_hashmap(slots))
    }

    /// `deploy`, with the initial storage as entries in the order they are set.
    pub fn deploy_entries(creator: Address, nonce: u64, round: u64, name: &str, template: &str, params: &[u64]) -> (r: (ContractInfo, AssocMap<u64, u64>))
        ensures
            r.0.address.0@ == contract_address_bytes(creator, nonce, name@),
            r.0.name@ == name@,
            r.0.template@ == lowercase(template@),
            is_ascii_text(template@) ==> r.0.template@ == ascii_lower(template@),
            r.0.creator == creator,
            r.0.created_at_round == round,
            r.1.wf(),
            r.1.entries() == deploy_entries(creator, lowercase(template@), params@),
            r.1.view() == deploy_slots(creator, lowercase(template@), params@),
    {
        let address = Self::derive_contract_address(&creator, nonce, name);
        let lt = str_to_lowercase(template);
        let t = lt.as_str();
        let mut slots: AssocMap<u64, u64> = AssocMap::new();
        let cslot = 100 + creator.id() % 1000;
        if str_eq(t, "counter") {
            slots.insert(0, arg_or(params, 0, 0));
        } else if str_eq(t, "token") {
            let ts = arg_or(params, 0, 1_000_000);
            slots.insert(0, ts);
            slots.insert(cslot, ts);
        } else if str_eq(t, "vault") {
            slots.insert(0, 0);
            slots.insert(1, 0);
            slots.insert(2, 5);
        } else if str_eq(t, "uniswap_v2") || str_eq(t, "uniswap") {
            let ra = arg_or(params, 0, 10_000);
            let rb = arg_or(params, 1, 20_000_000);
            let lp = integer_sqrt(saturating_mul(ra, rb));
            slots.insert(0, ra);
            slots.insert(1, rb);
            slots.insert(2, lp);
            slots.insert(cslot, lp);
        } else if str_eq(t, "maker_cdp") || str_eq(t, "maker") {
            let price = arg_or(params, 0, 2000);
            let ratio = arg_or(params, 1, 150);
            slots.insert(0, 0);
            slots.insert(1, 0);
            slots.insert(2, price);
            slots.insert(3, ratio);
        } else if str_eq(t, "raydium") || str_eq(t, "orca") {
            let base = arg_or(params, 0, 50_000);
            let quote = arg_or(params, 1, 7_500_000);
            slots.insert(0, base);
            slots.insert(1, quote);
            slots.insert(2, 0);
        } else if str_eq(t, "spl_token") {
            let ts = arg_or(params, 0, 100_000_000);
            let decimals = arg_or(params, 1, 6);
            slots.insert(0, ts);
            slots.insert(1, decimals);
            slots.insert(2, 0);
            slots.insert(cslot, ts);
        } else {
            let n = params.len();
            let mut i: usize = 0;
            while i < n
                invariant
                    n == params@.len(),
                    i <= n,
                    slots.wf(),
                    slots.entries() == Seq::new(i as nat, |j: int| (j as u64, params@[j])),
                decreases n - i,
            {
                proof {
                    let e = slots.entries();
                    assert(!(exists|j: int| 0 <= j < e.len() && e[j].0 == i as u64));
                }
                slots.insert(i as u64, params[i]);
                proof {
                    assert(slots.entries() =~= Seq::new((i + 1) as nat, |j: int| (j as u64, params@[j])));
                }
                i = i + 1;
            }
        }
        proof { slots.lemma_entries(); }
        let info = ContractInfo {
            address,
            name: String::from_str(name),
            template: lt,
            creator,
            created_at_round: round,
        };
        (info, slots)
    }

    /// Runs `method` of `contract` with `args`, reading storage through
    /// `read_slot`; returns the slot writes, balance deltas, log lines and gas.
    /// A swap through a constant-product pool never lowers the product of the
    /// reserves it writes (`lemma_swap_keeps_product`).
    pub fn execute_call<F: Fn(u64) -> u64>(sender: Address, contract: &ContractInfo, method: &str, args: &[u64], read_slot: F) -> (res: VmExecutionResult)
        requires
            reader_ok(read_slot),
            vm_call(sender, contract.template@, lowercase(method@), method@, args@, reader_fn(read_slot)) is Some,
            call_gas(args@.len()) <= u64::MAX,
        ensures
            ({
                let out = vm_call(sender, contract.template@, lowercase(method@), method@, args@, reader_fn(read_slot)).unwrap();
                &&& res.contract_slot_writes@ == entries_map(out.writes)
                &&& res.account_balance_deltas@ == out.deltas
                &&& texts(res.logs@) == out.logs
            }),
            res.gas_used == call_gas(args@.len()),
            is_ascii_text(method@) ==> lowercase(method@) == ascii_lower(method@),
    {
        proof { lemma_reader_ok_reads_as(read_slot); }
        Self::execute_call_as(sender, contract, method, args, &read_slot, Ghost(reader_fn(read_slot)))
    }

    /// `execute_call`, also returning the slots the call read, in order.
    pub fn execute_call_traced<F: Fn(u64) -> u64>(sender: Address, contract: &ContractInfo, method: &str, args: &[u64], read_slot: &F, Ghost(rd): Ghost<spec_fn(u64) -> u64>) -> (r: (VmExecutionResult, Vec<u64>, AssocMap<u64, u64>))
        requires
            reads_as(*read_slot, rd),
            vm_call(sender, contract.template@, lowercase(method@), method@, args@, rd) is Some,
            call_gas(args@.len()) <= u64::MAX,
        ensures
            ({
                let out = vm_call(sender, contract.template@, lowercase(method@), method@, args@, rd).unwrap();
                &&& r.0.contract_slot_writes@ == entries_map(out.writes)
                &&& r.2.wf()
                &&& r.2.entries() == out.writes
                &&& r.0.account_balance_deltas@ == out.deltas
                &&& texts(r.0.logs@) == out.logs
                &&& r.1@ == out.reads
            }),
            r.0.gas_used == call_gas(args@.len()),
            is_ascii_text(method@) ==> lowercase(method@) == ascii_lower(method@),
    {
        Self::run_call(sender, contract, method, args, read_slot, Ghost(rd)).unwrap()
    }

    /// Runs the call, or gives `None` where its arithmetic overflows (or an
    /// empty pool would be divided by).
    pub(crate) fn run_call<F: Fn(u64) -> u64>(sender: Address, contract: &ContractInfo, method: &str, args: &[u64], read_slot: &F, Ghost(rd): Ghost<spec_fn(u64) -> u64>) -> (r: Option<(VmExecutionResult, Vec<u64>, AssocMap<u64, u64>)>)
        requires
            reads_as(*read_slot, rd),
            call_gas(args@.len()) <= u64::MAX,
        ensures
            r is Some <==> vm_call(sender, contract.template@, lowercase(method@), method@, args@, rd) is Some,
            is_ascii_text(method@) ==> lowercase(method@) == ascii_lower(method@),
            r matches Some(t) ==> ({
                let out = vm_call(sender, contract.template@, lowercase(method@), method@, args@, rd).unwrap();
                &&& t.0.contract_slot_writes@ == entries_map(out.writes)
                &&& t.2.wf()
                &&& t.2.entries() == out.writes
                &&& t.0.account_balance_deltas@ == out.deltas
                &&& texts(t.0.logs@) == out.logs
                &&& t.1@ == out.reads
                &&& t.0.gas_used == call_gas(args@.len())
            }),
    {
        proof { reveal(vm_call); }
        let gas_used = 21000 + (args.len() as u64 * 500);
        let mut acc = VmAcc::new(Ghost(rd));
        let t = contract.template.as_str();
        let lm = str_to_lowercase(method);
        let l = lm.as_str();
        let ok = if str_eq(t, "counter") {
            run_counter(&mut acc, read_slot, l, method, args);
            true
        } else if str_eq(t, "token") {
            run_token(&mut acc, read_slot, sender, l, method, args)
        } else if str_eq(t, "vault") {
            run_vault(&mut acc, read_slot, sender, l, method, args)
        } else if str_eq(t, "uniswap_v2") || str_eq(t, "uniswap") {
            run_uniswap(&mut acc, read_slot, sender, l, method, args)
        } else if str_eq(t, "maker_cdp") || str_eq(t, "maker") {
            run_maker(&mut acc, read_slot, sender, l, method, args)
        } else if str_eq(t, "raydium") || str_eq(t, "orca") {
            run_raydium(&mut acc, read_slot, l, method, args)
        } else if str_eq(t, "spl_token") {
            run_spl(&mut acc, read_slot, sender, l, method, args)
        } else {
            run_custom(&mut acc, args);
            true
        };
        if !ok {
            return None;
        }
        let VmAcc { writes, deltas, logs, reads, .. } = acc;
        let w = writes.copy();
        Some((VmExecutionResult { contract_slot_writes: to_hashmap(writes), account_balance_deltas: deltas, logs, gas_used }, reads, w))
    }

    /// Whether calling `method` of `contract` with `args` against the storage
    /// `read_slot` reads completes: its arithmetic does not overflow (and no
    /// empty pool is divided by).
    pub fn call_succeeds<F: Fn(u64) -> u64>(sender: Address, contract: &ContractInfo, method: &str, args: &[u64], read_slot: &F) -> (b: bool)
        requires
            reader_ok(*read_slot),
            call_gas(args@.len()) <= u64::MAX,
        ensures
            b == vm_call(sender, contract.template@, lowercase(method@), method@, args@, reader_fn(*read_slot)) is Some,
            is_ascii_text(method@) ==> lowercase(method@) == ascii_lower(method@),
    {
        proof { lemma_reader_ok_reads_as(*read_slot); }
        Self::call_succeeds_as(sender, contract, method, args, read_slot, Ghost(reader_fn(*read_slot)))
    }

    /// `execute_call` where the call completes; `None` where its arithmetic
    /// would overflow.
    pub fn try_execute_call<F: Fn(u64) -> u64>(sender: Address, contract: &ContractInfo, method: &str, args: &[u64], read_slot: F) -> (r: Option<VmExecutionResult>)
        requires
            reader_ok(read_slot),
            call_gas(args@.len()) <= u64::MAX,
        ensures
            r is Some <==> vm_call(sender, contract.template@, lowercase(method@), method@, args@, reader_fn(read_slot)) is Some,
            r matches Some(res) ==> ({
                let out = vm_call(sender, contract.template@, lowercase(method@), method@, args@, reader_fn(read_slot)).unwrap();
                &&& res.contract_slot_writes@ == entries_map(out.writes)
                &&& res.account_balance_deltas@ == out.deltas
                &&& texts(res.logs@) == out.logs
                &&& res.gas_used == call_gas(args@.len())
            }),
            is_ascii_text(method@) ==> lowercase(method@) == ascii_lower(method@),
    {
        if Self::call_succeeds(sender, contract, method, args, &read_slot) {
            Some(Self::execute_call(sender, contract, method, args, read_slot))
        } else {
            None
        }
    }

    /// `execute_call` with the slot values stated by the caller: `read_slot`
    /// gives `rd(s)` for every slot `s`.
    pub fn execute_call_as<F: Fn(u64) -> u64>(sender: Address, contract: &ContractInfo, method: &str, args: &[u64], read_slot: &F, Ghost(rd): Ghost<spec_fn(u64) -> u64>) -> (res: VmExecutionResult)
        requires
            reads_as(*read_slot, rd),
            vm_call(sender, contract.template@, lowercase(method@), method@, args@, rd) is Some,
            call_gas(args@.len()) <= u64::MAX,
        ensures
            ({
                let out = vm_call(sender, contract.template@, lowercase(method@), method@, args@, rd).unwrap();
                &&& res.contract_slot_writes@ == entries_map(out.writes)
                &&& res.account_balance_deltas@ == out.deltas
                &&& texts(res.logs@) == out.logs
            }),
            res.gas_used == call_gas(args@.len()),
            is_ascii_text(method@) ==> lowercase(method@) == ascii_lower(method@),
    {
        let (res, _reads, _writes) = Self::execute_call_traced(sender, contract, method, args, read_slot, Ghost(rd));
        res
    }

    /// `call_succeeds` with the slot values stated by the caller: `read_slot`
    /// gives `rd(s)` for every slot `s`.
    pub fn call_succeeds_as<F: Fn(u64) -> u64>(sender: Address, contract: &ContractInfo, method: &str, args: &[u64], read_slot: &F, Ghost(rd): Ghost<spec_fn(u64) -> u64>) -> (b: bool)
        requires
            reads_as(*read_slot, rd),
            call_gas(args@.len()) <= u64::MAX,
        ensures
            b == vm_call(sender, contract.template@, lowercase(method@), method@, args@, rd) is Some,
            is_ascii_text(method@) ==> lowercase(method@) == ascii_lower(method@),
    {
        Self::run_call(sender, contract, method, args, read_slot, Ghost(rd)).is_some()
    }

    /// `try_execute_call` with the slot values stated by the caller: `read_slot`
    /// gives `rd(s)` for every slot `s`.
    pub fn try_execute_call_as<F: Fn(u64) -> u64>(sender: Address, contract: &ContractInfo, method: &str, args: &[u64], read_slot: &F, Ghost(rd): Ghost<spec_fn(u64) -> u64>) -> (r: Option<VmExecutionResult>)
        requires
            reads_as(*read_slot, rd),
            call_gas(args@.len()) <= u64::MAX,
        ensures
            r is Some <==> vm_call(sender, contract.template@, lowercase(method@), method@, args@, rd) is Some,
            r matches Some(res) ==> ({
                let out = vm_call(sender, contract.template@, lowercase(method@), method@, args@, rd).unwrap();
                &&& res.contract_slot_writes@ == entries_map(out.writes)
                &&& res.account_balance_deltas@ == out.deltas
                &&& texts(res.logs@) == out.logs
                &&& res.gas_used == call_gas(args@.len())
            }),
            is_ascii_text(method@) ==> lowercase(method@) == ascii_lower(method@),
    {
        if Self::call_succeeds_as(sender, contract, method, args, read_slot, Ghost(rd)) {
            Some(Self::execute_call_as(sender, contract, method, args, read_slot, Ghost(rd)))
        } else {
            None
        }
    }
}

} // verus!
