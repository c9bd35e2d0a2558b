//! A Fiat-Shamir transcript: messages are absorbed into a byte log and
//! challenges are derived from its SHA-256 digest.

use crate::encoding::{le_bytes, le_value, lemma_le_bytes_injective, lemma_le_roundtrip, u64_to_le_bytes};
use crate::field::{reduce, values, Fp};
use sha2::Digest;
use vstd::prelude::*;

verus! {

/// The SHA-256 digest of `data`, as computed by the `sha2` crate.
pub uninterp spec fn sha256(data: Seq<u8>) -> Seq<u8>;

/// Calls `sha2::Sha256::digest`; the contract claims only that the result is
/// the SHA-256 digest of the input, named by `sha256`.
#[verifier::external_body]
fn sha256_digest(data: &[u8]) -> (d: Vec<u8>)
    ensures
        d@ == sha256(data@),
{
    sha2::Sha256::digest(data).to_vec()
}

/// The bytes `append_scalar` absorbs for each of the field elements whose
/// representatives are `scalars`.
pub open spec fn scalars_bytes(label: Seq<u8>, scalars: Seq<int>) -> Seq<u8>
    decreases scalars.len(),
{
    if scalars.len() == 0 {
        Seq::empty()
    } else {
        scalars_bytes(label, scalars.drop_last()) + label + le_bytes(scalars.last() as nat, 8)
    }
}

/// The digest a challenge is derived from: the hash of the log followed by the label.
pub open spec fn challenge_digest(log: Seq<u8>, label: Seq<u8>) -> Seq<u8> {
    sha256(log + label)
}

/// The challenge derived from a log and a label.
pub open spec fn challenge_value(log: Seq<u8>, label: Seq<u8>) -> nat {
    reduce(le_value(challenge_digest(log, label)) as int)
}

/// The log after deriving a challenge: the label and the digest are absorbed.
pub open spec fn log_after_challenge(log: Seq<u8>, label: Seq<u8>) -> Seq<u8> {
    log + label + challenge_digest(log, label)
}

/// A transcript shared by prover and verifier. Its state is the sequence of
/// bytes absorbed so far.
pub struct Transcript {
    log: Vec<u8>,
}

impl View for Transcript {
    type V = Seq<u8>;

    /// The bytes absorbed so far.
    closed spec fn view(&self) -> Seq<u8> {
        self.log@
    }
}

/// Appends all of `data` to `v`.
fn extend(v: &mut Vec<u8>, data: &[u8])
    ensures
        final(v)@ == old(v)@ + data@,
{
    let mut i: usize = 0;
    while i < data.len()
        invariant
            i <= data.len(),
            v@ == old(v)@ + data@.subrange(0, i as int),
        decreases data.len() - i,
    {
        v.push(data[i]);
        i = i + 1;
        proof {
            assert(data@.subrange(0, i as int) =~= data@.subrange(0, (i - 1) as int).push(data@[i - 1]));
        }
    }
    proof {
        assert(data@.subrange(0, data.len() as int) =~= data@);
    }
}

impl Transcript {
    /// A transcript that has absorbed `label`.
    pub fn new(label: &[u8]) -> (r: Transcript)
        ensures
            r@ == label@,
    {
        let mut log: Vec<u8> = Vec::new();
        extend(&mut log, label);
        proof {
            assert(Seq::<u8>::empty() + label@ =~= label@);
        }
        Transcript { log }
    }

    fn append_message(&mut self, label: &[u8], data: &[u8])
        ensures
            final(self)@ == old(self)@ + label@ + data@,
    {
        extend(&mut self.log, label);
        extend(&mut self.log, data);
    }

    /// Absorbs `label` and the eight little-endian bytes of `scalar`.
    pub fn append_scalar(&mut self, label: &[u8], scalar: Fp)
        ensures
            final(self)@ == old(self)@ + label@ + le_bytes(scalar@, 8),
    {
        let bytes = scalar.to_bytes();
        self.append_message(label, bytes.as_slice());
    }

    /// Absorbs `label` with the number of scalars, then each scalar as
    /// `append_scalar` does.
    pub fn append_scalars(&mut self, label: &[u8], scalars: &[Fp])
        ensures
            final(self)@ == old(self)@ + label@ + le_bytes(scalars@.len(), 8) + scalars_bytes(
                label@,
                values(scalars@),
            ),
    {
        let len_bytes = u64_to_le_bytes(scalars.len() as u64);
        self.append_message(label, len_bytes.as_slice());
        let ghost start = self@;
        let mut i: usize = 0;
        proof {
            assert(scalars@.subrange(0, 0) =~= Seq::<Fp>::empty());
            assert(values(Seq::<Fp>::empty()) =~= Seq::<int>::empty());
            assert(start + scalars_bytes(label@, Seq::<int>::empty()) =~= start);
        }
        while i < scalars.len()
            invariant
                i <= scalars.len(),
                self@ == start + scalars_bytes(label@, values(scalars@.subrange(0, i as int))),
            decreases scalars.len() - i,
        {
            let sc = scalars[i];
            self.append_scalar(label, sc);
            proof {
                let pre = scalars@.subrange(0, i as int);
                let post = scalars@.subrange(0, i + 1);
                assert(values(post).drop_last() =~= values(pre));
                assert(values(post).last() == sc@);
                assert(start + scalars_bytes(label@, values(post)) =~= start + scalars_bytes(label@, values(pre))
                    + label@ + le_bytes(sc@, 8));
            }
            i = i + 1;
        }
        proof {
            assert(scalars@.subrange(0, scalars.len() as int) =~= scalars@);
        }
    }

    /// Derives a challenge from everything absorbed so far and `label`,
    /// then absorbs `label` and the digest it was derived from.
    pub fn challenge_scalar(&mut self, label: &[u8]) -> (r: Fp)
        ensures
            r@ == challenge_value(old(self)@, label@),
            final(self)@ == log_after_challenge(old(self)@, label@),
    {
        let mut peek: Vec<u8> = Vec::new();
        extend(&mut peek, self.log.as_slice());
        extend(&mut peek, label);
        proof {
            assert(Seq::<u8>::empty() + self@ =~= self@);
        }
        let digest = sha256_digest(peek.as_slice());
        extend(&mut self.log, label);
        extend(&mut self.log, digest.as_slice());
        Fp::from_bytes_reduce(digest.as_slice())
    }
}

/// Absorbing different field elements under the same label, after the same
/// log, leaves different logs.
pub proof fn lemma_append_scalar_distinguishes(log: Seq<u8>, label: Seq<u8>, a: Fp, b: Fp)
    requires
        a.canonical(),
        b.canonical(),
        a@ != b@,
    ensures
        log + label + le_bytes(a@, 8) != log + label + le_bytes(b@, 8),
{
    Fp::lemma_canonical(a);
    Fp::lemma_canonical(b);
    lemma_le_roundtrip(a@, 8);
    lemma_le_roundtrip(b@, 8);
    let k = log.len() + label.len();
    let sa = log + label + le_bytes(a@, 8);
    let sb = log + label + le_bytes(b@, 8);
    if sa == sb {
        assert(sa.subrange(k as int, k + 8int) =~= le_bytes(a@, 8));
        assert(sb.subrange(k as int, k + 8int) =~= le_bytes(b@, 8));
        lemma_le_bytes_injective(a@, b@);
    }
}

/// Absorbing a vector of scalars under `label` lays out, for every index
/// `i` (the first one included), the block `label ++ le_bytes(s[i], 8)` at
/// position `i`, and nothing else.
pub proof fn lemma_scalars_bytes_blocks(label: Seq<u8>, s: Seq<int>)
    ensures
        scalars_bytes(label, s).len() == s.len() * (label.len() + 8),
        forall|i: int|
            0 <= i < s.len() ==> #[trigger] scalars_bytes(label, s).subrange(
                i * (label.len() + 8),
                (i + 1) * (label.len() + 8),
            ) == label + le_bytes(s[i] as nat, 8),
    decreases s.len(),
{
    let w = label.len() + 8;
    if s.len() > 0 {
        let init = s.drop_last();
        let n = s.len();
        lemma_scalars_bytes_blocks(label, init);
        lemma_le_roundtrip(s.last() as nat, 8);
        let b = scalars_bytes(label, s);
        let bi = scalars_bytes(label, init);
        assert(b == bi + label + le_bytes(s.last() as nat, 8));
        assert(bi.len() == (n - 1) * w);
        assert((n - 1) * w + w == n * w) by (nonlinear_arith);
        assert(b.len() == bi.len() + w);
        assert(b.len() == s.len() * w);
        assert forall|i: int| 0 <= i < s.len() implies #[trigger] b.subrange(i * w, (i + 1) * w) == label
            + le_bytes(s[i] as nat, 8) by {
            assert(i * w + w == (i + 1) * w) by (nonlinear_arith);
            if i < n - 1 {
                assert((i + 1) * w <= (n - 1) * w) by (nonlinear_arith)
                    requires
                        i + 1 <= n - 1,
                        w >= 0,
                ;
                assert(0 <= i * w) by (nonlinear_arith)
                    requires
                        i >= 0,
                        w >= 0,
                ;
                assert(b.subrange(i * w, (i + 1) * w) =~= bi.subrange(i * w, (i + 1) * w));
                assert(init[i] == s[i]);
            } else {
                assert(b.subrange(i * w, (i + 1) * w) =~= label + le_bytes(s.last() as nat, 8));
            }
        }
    } else {
        assert(s.len() * w == 0) by (nonlinear_arith)
            requires
                s.len() == 0,
        ;
    }
}

/// Absorbing two scalar vectors of the same length that differ at any index
/// leaves different bytes.
pub proof fn lemma_scalars_bytes_injective(label: Seq<u8>, s1: Seq<int>, s2: Seq<int>, i: int)
    requires
        s1.len() == s2.len(),
        0 <= i < s1.len(),
        0 <= s1[i] < 0x1_0000_0000_0000_0000,
        0 <= s2[i] < 0x1_0000_0000_0000_0000,
        s1[i] != s2[i],
    ensures
        scalars_bytes(label, s1) != scalars_bytes(label, s2),
{
    lemma_scalars_bytes_blocks(label, s1);
    lemma_scalars_bytes_blocks(label, s2);
    let w = label.len() + 8;
    if scalars_bytes(label, s1) == scalars_bytes(label, s2) {
        let b1 = label + le_bytes(s1[i] as nat, 8);
        let b2 = label + le_bytes(s2[i] as nat, 8);
        assert(scalars_bytes(label, s1).subrange(i * (label.len() + 8), (i + 1) * (label.len() + 8)) == b1);
        assert(scalars_bytes(label, s2).subrange(i * (label.len() + 8), (i + 1) * (label.len() + 8)) == b2);
        assert(b1 == b2);
        lemma_le_roundtrip(s1[i] as nat, 8);
        lemma_le_roundtrip(s2[i] as nat, 8);
        assert(b1.subrange(label.len() as int, w as int) =~= le_bytes(s1[i] as nat, 8));
        assert(b2.subrange(label.len() as int, w as int) =~= le_bytes(s2[i] as nat, 8));
        lemma_le_bytes_injective(s1[i] as nat, s2[i] as nat);
    }
}

/// After the same log, `append_scalars` under the same label with two
/// vectors of the same length that differ at index `i` leaves different logs.
pub proof fn lemma_append_scalars_distinguishes(log: Seq<u8>, label: Seq<u8>, s1: Seq<Fp>, s2: Seq<Fp>, i: int)
    requires
        s1.len() == s2.len(),
        0 <= i < s1.len(),
        s1[i].canonical(),
        s2[i].canonical(),
        s1[i]@ != s2[i]@,
    ensures
        log + label + le_bytes(s1.len(), 8) + scalars_bytes(label, values(s1)) != log + label + le_bytes(
            s2.len(),
            8,
        ) + scalars_bytes(label, values(s2)),
{
    Fp::lemma_canonical(s1[i]);
    Fp::lemma_canonical(s2[i]);
    lemma_scalars_bytes_injective(label, values(s1), values(s2), i);
    let p = log + label + le_bytes(s1.len(), 8);
    let a = p + scalars_bytes(label, values(s1));
    let b = p + scalars_bytes(label, values(s2));
    if a == b {
        assert(a.subrange(p.len() as int, a.len() as int) =~= scalars_bytes(label, values(s1)));
        assert(b.subrange(p.len() as int, b.len() as int) =~= scalars_bytes(label, values(s2)));
    }
}

} // verus!
