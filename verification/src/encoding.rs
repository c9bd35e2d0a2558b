//! Little-endian byte encodings of integers.

use vstd::arithmetic::div_mod::*;
use vstd::arithmetic::power::*;
use vstd::prelude::*;

verus! {

/// The `n` least significant bytes of `v`, least significant first.
pub open spec fn le_bytes(v: nat, n: nat) -> Seq<u8>
    decreases n,
{
    if n == 0 {
        Seq::empty()
    } else {
        seq![(v % 256) as u8] + le_bytes(v / 256, (n - 1) as nat)
    }
}

/// The integer whose little-endian bytes are `s`.
pub open spec fn le_value(s: Seq<u8>) -> nat
    decreases s.len(),
{
    if s.len() == 0 {
        0
    } else {
        (s[0] + 256 * le_value(s.drop_first())) as nat
    }
}

/// The eight little-endian bytes of `x`.
pub fn u64_to_le_bytes(x: u64) -> (r: Vec<u8>)
    ensures
        r@ == le_bytes(x as nat, 8),
{
    let mut out: Vec<u8> = Vec::new();
    let mut rest = x;
    let mut i: usize = 0;
    while i < 8
        invariant
            i <= 8,
            out@ + le_bytes(rest as nat, (8 - i) as nat) == le_bytes(x as nat, 8),
        decreases 8 - i,
    {
        let ghost before = out@;
        proof {
            assert(le_bytes(rest as nat, (8 - i) as nat) == seq![(rest % 256) as u8] + le_bytes(
                (rest / 256) as nat,
                (8 - i - 1) as nat,
            ));
        }
        out.push((rest % 256) as u8);
        proof {
            assert(before + (seq![(rest % 256) as u8] + le_bytes((rest / 256) as nat, (8 - i - 1) as nat))
                =~= out@ + le_bytes((rest / 256) as nat, (8 - i - 1) as nat));
        }
        rest = rest / 256;
        i = i + 1;
    }
    proof {
        assert(out@ + le_bytes(rest as nat, 0) =~= out@);
    }
    out
}

/// Reading back the `n` little-endian bytes of `v` gives `v` modulo `256^n`.
pub proof fn lemma_le_roundtrip(v: nat, n: nat)
    ensures
        le_bytes(v, n).len() == n,
        le_value(le_bytes(v, n)) == v % (pow(256, n) as nat),
    decreases n,
{
    lemma_pow_positive(256, n);
    if n == 0 {
        lemma_pow0(256);
        assert(le_bytes(v, 0).len() == 0);
    } else {
        let m = (n - 1) as nat;
        lemma_le_roundtrip(v / 256, m);
        lemma_pow_positive(256, m);
        lemma_pow_adds(256, 1, m);
        lemma_pow1(256);
        let s = le_bytes(v, n);
        assert(s.drop_first() =~= le_bytes(v / 256, m));
        assert(s[0] == (v % 256) as u8);
        lemma_breakdown(v as int, 256, pow(256, m));
    }
}

/// Different values below `2^64` have different eight-byte encodings.
pub proof fn lemma_le_bytes_injective(a: nat, b: nat)
    requires
        a < 0x1_0000_0000_0000_0000,
        b < 0x1_0000_0000_0000_0000,
        le_bytes(a, 8) == le_bytes(b, 8),
    ensures
        a == b,
{
    lemma_le_roundtrip(a, 8);
    lemma_le_roundtrip(b, 8);
    assert(pow(256, 8) == 0x1_0000_0000_0000_0000) by {
        reveal_with_fuel(pow, 9);
    }
    lemma_small_mod(a, 0x1_0000_0000_0000_0000);
    lemma_small_mod(b, 0x1_0000_0000_0000_0000);
}

} // verus!
