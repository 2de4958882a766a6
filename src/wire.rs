//! Big-endian integers as they appear on the wire.

use vstd::prelude::*;
use vstd::utf8::{decode_utf8, encode_utf8, valid_utf8};

verus! {

/// Relies on `std::str::from_utf8`: it succeeds exactly on valid UTF-8, and
/// then holds the characters that the bytes encode.
#[verifier::external_body]
pub(crate) fn string_from_utf8(b: &[u8]) -> (r: Option<String>)
    ensures
        r is Some <==> valid_utf8(b@),
        r matches Some(s) ==> s@ == decode_utf8(b@),
{
    match std::str::from_utf8(b) {
        Ok(s) => Some(s.to_string()),
        Err(_) => None,
    }
}

/// `256` raised to `n`.
pub open spec fn pow256(n: nat) -> nat
    decreases n,
{
    if n == 0 {
        1
    } else {
        256 * pow256((n - 1) as nat)
    }
}

/// The unsigned big-endian number that the bytes `s` spell.
pub open spec fn be_uint(s: Seq<u8>) -> nat
    decreases s.len(),
{
    if s.len() == 0 {
        0
    } else {
        be_uint(s.drop_last()) * 256 + s.last() as nat
    }
}

/// The two's-complement big-endian number that the bytes `s` spell.
pub open spec fn be_int(s: Seq<u8>) -> int {
    if 2 * be_uint(s) >= pow256(s.len()) {
        be_uint(s) - pow256(s.len())
    } else {
        be_uint(s) as int
    }
}

/// The `n` big-endian bytes of the unsigned number `v`.
pub open spec fn be_bytes(v: nat, n: nat) -> Seq<u8>
    decreases n,
{
    if n == 0 {
        Seq::empty()
    } else {
        be_bytes(v / 256, (n - 1) as nat).push((v % 256) as u8)
    }
}

pub proof fn lemma_pow256_pos(n: nat)
    ensures
        pow256(n) >= 1,
    decreases n,
{
    if n > 0 {
        lemma_pow256_pos((n - 1) as nat);
    }
}

pub proof fn lemma_pow256_mono(a: nat, b: nat)
    requires
        a <= b,
    ensures
        pow256(a) <= pow256(b),
    decreases b,
{
    if a < b {
        lemma_pow256_mono(a, (b - 1) as nat);
        lemma_pow256_pos((b - 1) as nat);
    }
}

pub proof fn lemma_pow256_values()
    ensures
        pow256(1) == 0x100,
        pow256(2) == 0x1_0000,
        pow256(4) == 0x1_0000_0000,
        pow256(8) == 0x1_0000_0000_0000_0000,
{
    reveal_with_fuel(pow256, 9);
}

pub proof fn lemma_be_uint_bound(s: Seq<u8>)
    ensures
        be_uint(s) < pow256(s.len()),
    decreases s.len(),
{
    if s.len() > 0 {
        let p = s.drop_last();
        lemma_be_uint_bound(p);
        let a = be_uint(p);
        let q = pow256(p.len());
        let l = s.last() as nat;
        assert(a * 256 + l < 256 * q) by (nonlinear_arith)
            requires
                a < q,
                l < 256,
        ;
    }
}

pub proof fn lemma_be_bytes_len(v: nat, n: nat)
    ensures
        #[trigger] be_bytes(v, n).len() == n,
    decreases n,
{
    if n > 0 {
        lemma_be_bytes_len(v / 256, (n - 1) as nat);
    }
}

/// Reading back the bytes of a number gives the number.
pub proof fn lemma_be_bytes_round_trip(v: nat, n: nat)
    requires
        v < pow256(n),
    ensures
        be_bytes(v, n).len() == n,
        be_uint(be_bytes(v, n)) == v,
    decreases n,
{
    if n > 0 {
        let q = pow256((n - 1) as nat);
        assert(v / 256 < q) by (nonlinear_arith)
            requires
                v < 256 * q,
        ;
        lemma_be_bytes_round_trip(v / 256, (n - 1) as nat);
        let s = be_bytes(v, n);
        assert(s.drop_last() =~= be_bytes(v / 256, (n - 1) as nat));
        assert(v == (v / 256) * 256 + v % 256) by (nonlinear_arith);
    }
}

/// Reads `n` bytes at `pos` as an unsigned big-endian number.
pub fn read_be_uint(data: &[u8], pos: usize, n: usize) -> (r: u64)
    requires
        n <= 8,
        pos + n <= data@.len(),
    ensures
        r as nat == be_uint(data@.subrange(pos as int, pos + n)),
{
    let mut acc: u64 = 0;
    let mut i: usize = 0;
    let len = data.len();
    while i < n
        invariant
            len == data@.len(),
            n <= 8,
            i <= n,
            pos + n <= data@.len(),
            acc as nat == be_uint(data@.subrange(pos as int, pos + i)),
        decreases n - i,
    {
        let ghost prev = data@.subrange(pos as int, pos + i);
        proof {
            lemma_be_uint_bound(prev);
            lemma_pow256_mono(i as nat, 7);
            reveal_with_fuel(pow256, 8);
        }
        acc = acc * 256 + data[pos + i] as u64;
        assert(data@.subrange(pos as int, pos + i + 1).drop_last() =~= prev);
        i = i + 1;
    }
    acc
}

/// Reads `n` bytes at `pos` as a two's-complement big-endian number.
pub fn read_be_int(data: &[u8], pos: usize, n: usize) -> (r: i64)
    requires
        1 <= n <= 8,
        pos + n <= data@.len(),
    ensures
        r as int == be_int(data@.subrange(pos as int, pos + n)),
{
    let u = read_be_uint(data, pos, n);
    let ghost s = data@.subrange(pos as int, pos + n);
    proof {
        lemma_be_uint_bound(s);
        lemma_pow256_mono(n as nat, 8);
        lemma_pow256_values();
        reveal_with_fuel(pow256, 9);
    }
    if n == 8 {
        if u > 0x7fff_ffff_ffff_ffff {
            let m = (0xffff_ffff_ffff_ffffu64 - u) as i64;
            -m - 1
        } else {
            u as i64
        }
    } else {
        let full: u64 = if n == 1 {
            0x100
        } else if n == 2 {
            0x1_0000
        } else if n == 3 {
            0x100_0000
        } else if n == 4 {
            0x1_0000_0000
        } else if n == 5 {
            0x100_0000_0000
        } else if n == 6 {
            0x1_0000_0000_0000
        } else {
            0x100_0000_0000_0000
        };
        assert(full as nat == pow256(n as nat));
        if 2 * u >= full {
            u as i64 - full as i64
        } else {
            u as i64
        }
    }
}

/// Appends the `n` big-endian bytes of `v` (its low `n` bytes).
pub fn write_be_uint(out: &mut Vec<u8>, v: u64, n: usize)
    ensures
        final(out)@ == old(out)@ + be_bytes(v as nat, n as nat),
    decreases n,
{
    if n > 0 {
        write_be_uint(out, v / 256, n - 1);
        out.push((v % 256) as u8);
        assert(final(out)@ =~= old(out)@ + be_bytes(v as nat, n as nat));
    } else {
        assert(final(out)@ =~= old(out)@ + be_bytes(v as nat, n as nat));
    }
}

/// Whether two byte strings are equal.
pub fn bytes_eq(a: &[u8], b: &[u8]) -> (r: bool)
    ensures
        r == (a@ == b@),
{
    if a.len() != b.len() {
        return false;
    }
    let mut i: usize = 0;
    while i < a.len()
        invariant
            a@.len() == b@.len(),
            i <= a@.len(),
            forall|j: int| 0 <= j < i ==> a@[j] == b@[j],
        decreases a@.len() - i,
    {
        if a[i] != b[i] {
            return false;
        }
        i = i + 1;
    }
    assert(a@ =~= b@);
    true
}

/// Whether two strings hold the same characters.
pub fn str_eq(a: &str, b: &str) -> (r: bool)
    ensures
        r == (a@ == b@),
{
    let r = bytes_eq(a.as_bytes(), b.as_bytes());
    proof {
        vstd::utf8::encode_utf8_decode_utf8(a@);
        vstd::utf8::encode_utf8_decode_utf8(b@);
    }
    r
}

} // verus!
