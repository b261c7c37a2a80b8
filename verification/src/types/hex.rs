//! Lower-case hexadecimal rendering of bytes.
use vstd::prelude::*;

verus! {

/// The lower-case hexadecimal digit of `d < 16`.
pub open spec fn hex_char(d: nat) -> char {
    if d < 10 {
        crate::text::digit_char(d)
    } else if d == 10 { 'a' }
    else if d == 11 { 'b' }
    else if d == 12 { 'c' }
    else if d == 13 { 'd' }
    else if d == 14 { 'e' }
    else { 'f' }
}

/// The two hexadecimal digits of one byte, high nibble first (`{:02x}`).
pub open spec fn hex_byte(b: u8) -> Seq<char> {
    seq![hex_char((b / 16) as nat), hex_char((b % 16) as nat)]
}

/// The lower-case hexadecimal rendering of a byte sequence, two digits per byte.
pub open spec fn hex_lower(bytes: Seq<u8>) -> Seq<char>
    decreases bytes.len(),
{
    if bytes.len() == 0 {
        Seq::empty()
    } else {
        hex_lower(bytes.drop_last()) + hex_byte(bytes.last())
    }
}

fn hex_digit_str(d: u8) -> (s: &'static str)
    requires
        d < 16,
    ensures
        s@ == seq![hex_char(d as nat)],
{
    if d == 0 { proof { reveal_strlit("0"); } "0" }
    else if d == 1 { proof { reveal_strlit("1"); } "1" }
    else if d == 2 { proof { reveal_strlit("2"); } "2" }
    else if d == 3 { proof { reveal_strlit("3"); } "3" }
    else if d == 4 { proof { reveal_strlit("4"); } "4" }
    else if d == 5 { proof { reveal_strlit("5"); } "5" }
    else if d == 6 { proof { reveal_strlit("6"); } "6" }
    else if d == 7 { proof { reveal_strlit("7"); } "7" }
    else if d == 8 { proof { reveal_strlit("8"); } "8" }
    else if d == 9 { proof { reveal_strlit("9"); } "9" }
    else if d == 10 { proof { reveal_strlit("a"); } "a" }
    else if d == 11 { proof { reveal_strlit("b"); } "b" }
    else if d == 12 { proof { reveal_strlit("c"); } "c" }
    else if d == 13 { proof { reveal_strlit("d"); } "d" }
    else if d == 14 { proof { reveal_strlit("e"); } "e" }
    else { proof { reveal_strlit("f"); } "f" }
}

/// Appends the hexadecimal rendering of `bytes` to `s`.
pub fn push_hex(s: &mut String, bytes: &[u8])
    ensures
        final(s)@ == old(s)@ + hex_lower(bytes@),
{
    let n = bytes.len();
    let ghost start = s@;
    for i in 0..n
        invariant
            n == bytes@.len(),
            s@ == start + hex_lower(bytes@.subrange(0, i as int)),
    {
        let b = bytes[i];
        s.append(hex_digit_str(b / 16));
        s.append(hex_digit_str(b % 16));
        proof {
            let pre = bytes@.subrange(0, i as int);
            let next = bytes@.subrange(0, i + 1);
            assert(next.drop_last() =~= pre);
            assert(next.last() == b);
            assert(s@ =~= start + hex_lower(next));
        }
    }
    proof { assert(bytes@.subrange(0, n as int) =~= bytes@); }
}

/// Renders `bytes` as lower-case hexadecimal, two digits per byte.
pub fn encode(bytes: &[u8]) -> (s: String)
    ensures
        s@ == hex_lower(bytes@),
{
    let mut s = String::new();
    push_hex(&mut s, bytes);
    proof { assert(s@ =~= hex_lower(bytes@)); }
    s
}

/// The value of a hexadecimal digit of either case; -1 for any other character.
pub open spec fn hex_value(c: char) -> int {
    if '0' <= c <= '9' { c as int - '0' as int }
    else if 'a' <= c <= 'f' { c as int - 'a' as int + 10 }
    else if 'A' <= c <= 'F' { c as int - 'A' as int + 10 }
    else { -1 }
}

/// Every character is a hexadecimal digit.
pub open spec fn all_hex(t: Seq<char>) -> bool {
    forall|i: int| 0 <= i < t.len() ==> hex_value(#[trigger] t[i]) >= 0
}

/// The bytes that pairs of hexadecimal digits spell, high nibble first.
pub open spec fn hex_decoded(t: Seq<char>) -> Seq<u8> {
    Seq::new(t.len() / 2, |i: int| (16 * hex_value(t[2 * i]) + hex_value(t[2 * i + 1])) as u8)
}

/// The value of a hexadecimal digit, if `c` is one.
pub fn hex_digit_value(c: char) -> (v: Option<u8>)
    ensures
        v is Some <==> hex_value(c) >= 0,
        v matches Some(x) ==> x as int == hex_value(c),
{
    if '0' <= c && c <= '9' {
        Some((c as u32 - '0' as u32) as u8)
    } else if 'a' <= c && c <= 'f' {
        Some((c as u32 - 'a' as u32 + 10) as u8)
    } else if 'A' <= c && c <= 'F' {
        Some((c as u32 - 'A' as u32 + 10) as u8)
    } else {
        None
    }
}

/// A digit written by `hex_char` reads back as itself.
pub proof fn lemma_hex_char_value(d: nat)
    requires
        d < 16,
    ensures
        hex_value(hex_char(d)) == d,
{
    reveal_with_fuel(crate::text::digit_char, 1);
}

/// The two digits of `t` at positions `2 i` and `2 i + 1`.
pub open spec fn hex_pair(t: Seq<char>, i: int) -> Seq<char> {
    seq![t[2 * i], t[2 * i + 1]]
}

/// The digits of `hex_lower(b)`: two per byte, high nibble first.
pub proof fn lemma_hex_lower_at(b: Seq<u8>)
    ensures
        hex_lower(b).len() == 2 * b.len(),
        forall|i: int| 0 <= i < b.len() ==> #[trigger] hex_pair(hex_lower(b), i) == hex_byte(b[i]),
    decreases b.len(),
{
    if b.len() == 0 {
        assert(hex_lower(b).len() == 0);
    } else {
        lemma_hex_lower_at(b.drop_last());
        let a = hex_lower(b.drop_last());
        let h = hex_byte(b.last());
        assert(hex_lower(b) == a + h);
        assert(hex_lower(b).len() == 2 * b.len());
        assert forall|i: int| 0 <= i < b.len() implies #[trigger] hex_pair(hex_lower(b), i) == hex_byte(b[i]) by {
            if i < b.len() - 1 {
                assert(b.drop_last()[i] == b[i]);
                assert(hex_pair(a, i) == hex_byte(b[i]));
                assert(hex_pair(a + h, i) =~= hex_pair(a, i));
            } else {
                assert(hex_pair(a + h, i) =~= h);
            }
        }
    }
}

/// Decoding the lower-case hexadecimal of some bytes gives those bytes back.
pub proof fn lemma_hex_roundtrip(b: Seq<u8>)
    ensures
        all_hex(hex_lower(b)),
        hex_decoded(hex_lower(b)) == b,
{
    lemma_hex_lower_at(b);
    let t = hex_lower(b);
    assert forall|j: int| 0 <= j < t.len() implies hex_value(#[trigger] t[j]) >= 0 by {
        let i = j / 2;
        assert(j == 2 * i || j == 2 * i + 1);
        assert(hex_pair(t, i) == hex_byte(b[i]));
        lemma_hex_char_value((b[i] / 16) as nat);
        lemma_hex_char_value((b[i] % 16) as nat);
    }
    assert forall|i: int| 0 <= i < b.len() implies #[trigger] hex_decoded(t)[i] == b[i] by {
        assert(hex_pair(t, i) == hex_byte(b[i]));
        lemma_hex_char_value((b[i] / 16) as nat);
        lemma_hex_char_value((b[i] % 16) as nat);
        assert(16 * (b[i] / 16) + b[i] % 16 == b[i]);
    }
    assert(hex_decoded(t) =~= b);
}

} // verus!
