//! The sumcheck protocol for multilinear polynomials, made non-interactive
//! with a Fiat-Shamir transcript.

use crate::encoding::{le_bytes, le_value, lemma_le_bytes_injective, lemma_le_roundtrip};
use crate::field::{lemma_add_congruent, lemma_mod_twice_int, lemma_mul_congruent, modulus, reduce, values, Fp};
use crate::multilinear::{
    bottom_half, folded, is_power_of_two, lemma_half_is_pow2, lemma_mle_fold, mle, top_half, MultilinearExtension,
};
use crate::polynomial::univariate::{coefficient_sum, UnivariatePolynomial};
use crate::transcript::{
    challenge_value, lemma_scalars_bytes_injective, log_after_challenge, scalars_bytes, sha256, Transcript,
};
use vstd::arithmetic::div_mod::*;
use vstd::arithmetic::mul::*;
use vstd::arithmetic::power::*;
use vstd::arithmetic::power2::*;
use vstd::prelude::*;

verus! {

/// The label under which the claimed sum is absorbed: `claimed_sum`.
pub open spec fn claimed_sum_label() -> Seq<u8> {
    seq![99u8, 108u8, 97u8, 105u8, 109u8, 101u8, 100u8, 95u8, 115u8, 117u8, 109u8]
}

/// The label under which round polynomials are absorbed: `round_poly`.
pub open spec fn round_poly_label() -> Seq<u8> {
    seq![114u8, 111u8, 117u8, 110u8, 100u8, 95u8, 112u8, 111u8, 108u8, 121u8]
}

/// The label under which challenges are derived: `challenge`.
pub open spec fn challenge_label() -> Seq<u8> {
    seq![99u8, 104u8, 97u8, 108u8, 108u8, 101u8, 110u8, 103u8, 101u8]
}

/// The sum of the entries of a table.
pub open spec fn table_sum(t: Seq<int>) -> int
    decreases t.len(),
{
    if t.len() == 0 {
        0
    } else {
        table_sum(t.drop_last()) + t.last()
    }
}

/// The table left by fixing the first variable of `t` to `r`.
pub open spec fn fold_table(t: Seq<int>, r: int) -> Seq<int> {
    Seq::new(t.len() / 2, |j: int| folded(t, r, j) as int)
}

/// The entries paired with the top half when the first variable is fixed:
/// `t[len / 2 .. 2 * (len / 2)]` (the bottom half when `len` is even).
pub open spec fn paired_half(t: Seq<int>) -> Seq<int> {
    t.subrange((t.len() / 2) as int, (2 * (t.len() / 2)) as int)
}

/// The coefficients of the honest round polynomial `c0 + c1 * X` for the
/// table `t`: its values at 0 and 1 are the sums of the two halves.
pub open spec fn round_coefficients(t: Seq<int>) -> Seq<int> {
    let c0 = reduce(table_sum(top_half(t)));
    let c1 = reduce(reduce(table_sum(paired_half(t))) - c0);
    seq![c0 as int, c1 as int]
}

/// The log after a round polynomial with coefficients `c` is absorbed.
pub open spec fn absorb_round(log: Seq<u8>, c: Seq<int>) -> Seq<u8> {
    log + round_poly_label() + le_bytes(c.len(), 8) + scalars_bytes(round_poly_label(), c)
}

/// The challenge of a round whose polynomial has coefficients `c`.
pub open spec fn round_challenge(log: Seq<u8>, c: Seq<int>) -> int {
    challenge_value(absorb_round(log, c), challenge_label()) as int
}

/// The log at the end of a round whose polynomial has coefficients `c`.
pub open spec fn log_after_round(log: Seq<u8>, c: Seq<int>) -> Seq<u8> {
    log_after_challenge(absorb_round(log, c), challenge_label())
}

/// The log once the claimed sum has been absorbed.
pub open spec fn log_after_claim(log: Seq<u8>, claimed: int) -> Seq<u8> {
    log + claimed_sum_label() + le_bytes(claimed as nat, 8)
}

/// The honest prover after `k` rounds from table `t` and log `log`: the
/// remaining table, the log, the round polynomials' coefficients and the challenges.
pub open spec fn prover_rounds(t: Seq<int>, log: Seq<u8>, k: nat) -> (Seq<int>, Seq<u8>, Seq<Seq<int>>, Seq<int>)
    decreases k,
{
    if k == 0 {
        (t, log, Seq::empty(), Seq::empty())
    } else {
        let prev = prover_rounds(t, log, (k - 1) as nat);
        let c = round_coefficients(prev.0);
        let r = round_challenge(prev.1, c);
        (fold_table(prev.0, r), log_after_round(prev.1, c), prev.2.push(c), prev.3.push(r))
    }
}

/// Errors that the verifier reports.
#[derive(Debug, PartialEq, Eq, Structural)]
pub enum VerificationError {
    RoundCountMismatch,
    DegreeTooHigh { round: usize },
    InconsistentRoundSum { round: usize },
    FinalEvaluationMismatch,
}

/// The verifier after checking `k` rounds of `polys` against `claimed`,
/// from log `log`: the first failure if any, the value the next round
/// polynomial must sum to (or, after the last round, the final evaluation),
/// the log, and the challenges.
pub open spec fn verifier_rounds(polys: Seq<Seq<int>>, claimed: int, log: Seq<u8>, k: nat) -> (
    Option<VerificationError>,
    int,
    Seq<u8>,
    Seq<int>,
)
    decreases k,
{
    if k == 0 {
        (None, claimed, log, Seq::empty())
    } else {
        let prev = verifier_rounds(polys, claimed, log, (k - 1) as nat);
        if prev.0 is Some {
            prev
        } else {
            let c = polys[k - 1];
            let round_sum = reduce(
                reduce(coefficient_sum(c, 0)) + reduce(coefficient_sum(c, 1)) as int,
            );
            if round_sum != prev.1 {
                (Some(VerificationError::InconsistentRoundSum { round: (k - 1) as usize }), prev.1, prev.2, prev.3)
            } else if c.len() > 2 {
                (Some(VerificationError::DegreeTooHigh { round: (k - 1) as usize }), prev.1, prev.2, prev.3)
            } else {
                let r = round_challenge(prev.2, c);
                (None, reduce(coefficient_sum(c, r)) as int, log_after_round(prev.2, c), prev.3.push(r))
            }
        }
    }
}

/// The sum of a concatenation.
proof fn lemma_table_sum_concat(u: Seq<int>, v: Seq<int>)
    ensures
        table_sum(u + v) == table_sum(u) + table_sum(v),
    decreases v.len(),
{
    if v.len() == 0 {
        assert(u + v =~= u);
    } else {
        lemma_table_sum_concat(u, v.drop_last());
        assert((u + v).drop_last() =~= u + v.drop_last());
    }
}

/// The sum is linear, modulo the prime.
proof fn lemma_table_sum_linear(x: Seq<int>, y: Seq<int>, z: Seq<int>, a: int, b: int)
    requires
        y.len() == x.len(),
        z.len() == x.len(),
        forall|j: int| 0 <= j < x.len() ==> #[trigger] (x[j] % modulus()) == (a * y[j] + b * z[j]) % modulus(),
    ensures
        table_sum(x) % modulus() == (a * table_sum(y) + b * table_sum(z)) % modulus(),
    decreases x.len(),
{
    if x.len() > 0 {
        let n = x.len();
        lemma_table_sum_linear(x.drop_last(), y.drop_last(), z.drop_last(), a, b);
        let sx = table_sum(x.drop_last());
        let sy = table_sum(y.drop_last());
        let sz = table_sum(z.drop_last());
        assert(x.last() % modulus() == (a * y.last() + b * z.last()) % modulus());
        lemma_add_congruent(sx, x.last(), a * sy + b * sz, a * y.last() + b * z.last());
        assert(a * (sy + y.last()) + b * (sz + z.last()) == (a * sy + b * sz) + (a * y.last() + b * z.last()))
            by {
            lemma_mul_is_distributive_add(a, sy, y.last());
            lemma_mul_is_distributive_add(b, sz, z.last());
        }
    } else {
        lemma_small_mod(0, modulus() as nat);
    }
}

/// The sum of a table is the sum of its halves.
proof fn lemma_table_sum_halves(t: Seq<int>)
    ensures
        table_sum(t) == table_sum(top_half(t)) + table_sum(bottom_half(t)),
{
    assert(top_half(t) + bottom_half(t) =~= t);
    lemma_table_sum_concat(top_half(t), bottom_half(t));
}

/// The sum of a folded table is the honest round polynomial at the challenge.
proof fn lemma_fold_sum(t: Seq<int>, r: int)
    ensures
        reduce(table_sum(fold_table(t, r))) == reduce(
            coefficient_sum(round_coefficients(t), r),
        ),
{
    let y = top_half(t);
    let z = paired_half(t);
    let x = fold_table(t, r);
    let h = t.len() / 2;
    assert forall|j: int| 0 <= j < x.len() implies #[trigger] (x[j] % modulus()) == ((1 - r) * y[j] + r * z[j])
        % modulus() by {
        lemma_mod_twice_int(t[j] + r * (t[h + j] - t[j]));
        assert(t[j] + r * (t[h + j] - t[j]) == (1 - r) * t[j] + r * t[h + j]) by (nonlinear_arith);
    }
    lemma_table_sum_linear(x, y, z, 1 - r, r);
    let sy = table_sum(y);
    let sz = table_sum(z);
    let c = round_coefficients(t);
    let c0 = reduce(sy);
    let c1 = reduce(reduce(sz) - c0);
    lemma_coefficient_sum_linear(c0 as int, c1 as int, r);
    // c0 + c1 * r == sy + (sz - sy) * r modulo the prime
    lemma_mod_twice_int(sy);
    lemma_mod_twice_int(sz);
    lemma_mod_twice_int(reduce(sz) - c0);
    lemma_sub_mod_noop(reduce(sz) as int, c0 as int, modulus());
    lemma_sub_mod_noop(sz, sy, modulus());
    assert((reduce(sz) - c0) % modulus() == (sz - sy) % modulus());
    lemma_mul_congruent(c1 as int, r, sz - sy, r);
    lemma_add_congruent(c0 as int, c1 * r, sy, (sz - sy) * r);
    assert((1 - r) * sy + r * sz == sy + (sz - sy) * r) by (nonlinear_arith);
}

/// `c0 + c1 * X` at `x`.
proof fn lemma_coefficient_sum_linear(c0: int, c1: int, x: int)
    ensures
        coefficient_sum(seq![c0, c1], x) == c0 + c1 * x,
{
    let c = seq![c0, c1];
    assert(c.drop_last() =~= seq![c0]);
    assert(seq![c0].drop_last() =~= Seq::<int>::empty());
    lemma_pow0(x);
    lemma_pow1(x);
    assert(coefficient_sum(Seq::<int>::empty(), x) == 0);
    assert(seq![c0].last() == c0);
    assert(seq![c0].len() == 1);
    assert(coefficient_sum(seq![c0], x) == coefficient_sum(seq![c0].drop_last(), x) + c0 * pow(x, 0));
    assert(coefficient_sum(seq![c0], x) == c0);
    assert(c.last() == c1);
}

/// The first `k` rounds of the honest prover do not depend on later rounds.
proof fn lemma_prover_prefix(t: Seq<int>, log: Seq<u8>, k: nat, m: nat)
    requires
        k <= m,
    ensures
        prover_rounds(t, log, m).2.len() == m,
        prover_rounds(t, log, m).3.len() == m,
        prover_rounds(t, log, m).2.subrange(0, k as int) == prover_rounds(t, log, k).2,
        prover_rounds(t, log, m).3.subrange(0, k as int) == prover_rounds(t, log, k).3,
    decreases m,
{
    if m > 0 {
        if k == m {
            lemma_prover_prefix(t, log, (m - 1) as nat, (m - 1) as nat);
            assert(prover_rounds(t, log, m).2.subrange(0, k as int) =~= prover_rounds(t, log, m).2);
            assert(prover_rounds(t, log, m).3.subrange(0, k as int) =~= prover_rounds(t, log, m).3);
        } else {
            lemma_prover_prefix(t, log, k, (m - 1) as nat);
            let prev = prover_rounds(t, log, (m - 1) as nat);
            assert(prover_rounds(t, log, m).2.subrange(0, k as int) =~= prev.2.subrange(0, k as int));
            assert(prover_rounds(t, log, m).3.subrange(0, k as int) =~= prev.3.subrange(0, k as int));
        }
    } else {
        assert(prover_rounds(t, log, m).2.subrange(0, k as int) =~= Seq::<Seq<int>>::empty());
        assert(prover_rounds(t, log, m).3.subrange(0, k as int) =~= Seq::<int>::empty());
    }
}

/// In the first `k` rounds the verifier accepts the honest round
/// polynomials, and it agrees with the prover on the log and challenges.
proof fn lemma_rounds_agree(t: Seq<int>, start: Seq<u8>, claimed: int, n: nat, k: nat)
    requires
        t.len() == pow2(n),
        k <= n,
        claimed == reduce(table_sum(t)),
    ensures
        ({
            let pk = prover_rounds(t, start, k);
            let v = verifier_rounds(prover_rounds(t, start, n).2, claimed, start, k);
            &&& v.0 is None
            &&& v.1 == reduce(table_sum(pk.0))
            &&& v.2 == pk.1
            &&& v.3 == pk.3
            &&& pk.0.len() == pow2((n - k) as nat)
        }),
    decreases k,
{
    if k > 0 {
        let j = (k - 1) as nat;
        lemma_rounds_agree(t, start, claimed, n, j);
        lemma_prover_prefix(t, start, k, n);
        lemma_prover_prefix(t, start, j, k);
        let pn = prover_rounds(t, start, n);
        let pj = prover_rounds(t, start, j);
        let pk = prover_rounds(t, start, k);
        assert(pn.2[j as int] == pn.2.subrange(0, k as int)[j as int]);
        let tj = pj.0;
        let c = round_coefficients(tj);
        assert(pk.2[j as int] == c);
        assert(pn.2[k - 1] == c);
        lemma_pow2_unfold((n - j) as nat);
        assert(tj.len() % 2 == 0);
        // the round sum check passes
        let sy = table_sum(top_half(tj));
        assert(paired_half(tj) =~= bottom_half(tj));
        let sz = table_sum(bottom_half(tj));
        let c0 = reduce(sy);
        let c1 = reduce(reduce(sz) - c0);
        lemma_coefficient_sum_linear(c0 as int, c1 as int, 0);
        lemma_coefficient_sum_linear(c0 as int, c1 as int, 1);
        lemma_table_sum_halves(tj);
        lemma_small_mod(c0, modulus() as nat);
        lemma_mod_twice_int(c0 + c1 as int);
        lemma_add_congruent(c0 as int, reduce(c0 + c1 as int) as int, c0 as int, c0 + c1 as int);
        lemma_mod_twice_int(sy);
        lemma_mod_twice_int(sz);
        lemma_mod_twice_int(reduce(sz) - c0);
        lemma_sub_mod_noop(reduce(sz) as int, c0 as int, modulus());
        lemma_sub_mod_noop(sz, sy, modulus());
        assert((c1 as int) % modulus() == (sz - sy) % modulus());
        lemma_add_congruent(c0 as int, c1 as int, sy, sz - sy);
        lemma_add_congruent(c0 as int, c0 + c1 as int, sy, sy + (sz - sy));
        assert(reduce(reduce(coefficient_sum(c, 0)) + reduce(coefficient_sum(c, 1)) as int) == reduce(table_sum(tj)));
        // the next expected value is the sum of the folded table
        let r = round_challenge(pj.1, c);
        lemma_fold_sum(tj, r);
    }
}

/// Evaluating the folded tables is evaluating the original table at the
/// challenges followed by the remaining coordinates.
proof fn lemma_prover_mle(t: Seq<int>, start: Seq<u8>, n: nat, k: nat, s: Seq<int>)
    requires
        t.len() == pow2(n),
        k <= n,
        s.len() == n - k,
    ensures
        prover_rounds(t, start, k).0.len() == pow2((n - k) as nat),
        mle(prover_rounds(t, start, k).0, s) % modulus() == mle(t, prover_rounds(t, start, k).3 + s)
            % modulus(),
    decreases k,
{
    if k == 0 {
        assert(Seq::<int>::empty() + s =~= s);
    } else {
        let j = (k - 1) as nat;
        let pj = prover_rounds(t, start, j);
        let c = round_coefficients(pj.0);
        let r = round_challenge(pj.1, c);
        lemma_prover_mle(t, start, n, j, seq![r] + s);
        lemma_pow2_unfold((n - j) as nat);
        lemma_mle_fold(pj.0, fold_table(pj.0, r), r, s);
        assert(pj.3.push(r) + s =~= pj.3 + (seq![r] + s));
    }
}

/// Completeness: from any table with `2^n` entries and any log, the
/// verifier's round checks accept the honest prover's round polynomials
/// against the honest claimed sum; prover and verifier end with the same log
/// and challenges, and the final evaluation the verifier expects is the
/// multilinear extension of the table at the challenges.
pub proof fn lemma_completeness(t: Seq<int>, log: Seq<u8>, n: nat)
    requires
        t.len() == pow2(n),
    ensures
        ({
            let claimed = reduce(table_sum(t)) as int;
            let start = log_after_claim(log, claimed);
            let p = prover_rounds(t, start, n);
            let v = verifier_rounds(p.2, claimed, start, n);
            &&& v.0 is None
            &&& v.2 == p.1
            &&& v.3 == p.3
            &&& v.1 == reduce(mle(t, v.3))
        }),
{
    let claimed = reduce(table_sum(t)) as int;
    let start = log_after_claim(log, claimed);
    lemma_rounds_agree(t, start, claimed, n, n);
    lemma_prover_mle(t, start, n, n, Seq::empty());
    let p = prover_rounds(t, start, n);
    lemma2_to64();
    assert(p.0.len() == 1);
    assert(p.3 + Seq::<int>::empty() =~= p.3);
    assert(p.0.drop_last().len() == 0);
    assert(table_sum(p.0.drop_last()) == 0);
    assert(table_sum(p.0) == p.0[0]);
    lemma_mod_twice_int(p.0[0]);
}

} // verus!

verus! {

fn claimed_sum_label_bytes() -> (r: [u8; 11])
    ensures
        r@ == claimed_sum_label(),
{
    [99u8, 108u8, 97u8, 105u8, 109u8, 101u8, 100u8, 95u8, 115u8, 117u8, 109u8]
}

fn round_poly_label_bytes() -> (r: [u8; 10])
    ensures
        r@ == round_poly_label(),
{
    [114u8, 111u8, 117u8, 110u8, 100u8, 95u8, 112u8, 111u8, 108u8, 121u8]
}

fn challenge_label_bytes() -> (r: [u8; 9])
    ensures
        r@ == challenge_label(),
{
    [99u8, 104u8, 97u8, 108u8, 108u8, 101u8, 110u8, 103u8, 101u8]
}

/// The sum of the entries `lo..hi` of `evals`, in the field.
fn sum_range(evals: &Vec<Fp>, lo: usize, hi: usize) -> (r: Fp)
    requires
        lo <= hi <= evals.len(),
    ensures
        r@ == reduce(table_sum(values(evals@).subrange(lo as int, hi as int))),
{
    let ghost t = values(evals@);
    let mut acc = Fp::zero();
    let mut i = lo;
    proof {
        assert(t.subrange(lo as int, lo as int) =~= Seq::<int>::empty());
        lemma_small_mod(0, modulus() as nat);
    }
    while i < hi
        invariant
            lo <= i <= hi,
            hi <= evals.len(),
            t == values(evals@),
            acc@ == reduce(table_sum(t.subrange(lo as int, i as int))),
        decreases hi - i,
    {
        let x = evals[i];
        let ghost before = acc@;
        acc = acc + x;
        proof {
            let pre = t.subrange(lo as int, i as int);
            let post = t.subrange(lo as int, i + 1);
            assert(post.drop_last() =~= pre);
            assert(post.last() == x@);
            lemma_mod_twice_int(table_sum(pre));
            lemma_add_congruent(before as int, x@ as int, table_sum(pre), x@ as int);
        }
        i = i + 1;
    }
    acc
}

/// A sumcheck proof: one univariate round polynomial per variable.
pub struct SumcheckProof {
    pub round_polynomials: Vec<UnivariatePolynomial>,
}

impl SumcheckProof {
    /// The coefficients of the round polynomials, as integers.
    pub open spec fn coefficient_values(self) -> Seq<Seq<int>> {
        self.round_polynomials@.map_values(|p: UnivariatePolynomial| values(p.coefficients@))
    }
}

/// Proves the sum of `poly` over the boolean hypercube: returns the sum and
/// the round polynomials, absorbing both into `transcript`.
pub fn prove(poly: &MultilinearExtension, transcript: &mut Transcript) -> (r: (Fp, SumcheckProof))
    requires
        poly.evaluations.len() > 0,
        poly.evaluations.len() > 1 ==> is_power_of_two(poly.evaluations.len() as nat / 2),
    ensures
        ({
            let claimed = reduce(table_sum(poly.table()));
            let start = log_after_claim(old(transcript)@, claimed as int);
            let p = prover_rounds(poly.table(), start, poly.num_vars());
            &&& r.0@ == claimed
            &&& r.1.coefficient_values() == p.2
            &&& final(transcript)@ == p.1
        }),
{
    let ghost t = poly.table();
    let len = poly.evaluations.len();
    let claimed_sum = sum_range(&poly.evaluations, 0, len);
    proof {
        assert(t.subrange(0, len as int) =~= t);
    }
    let label = claimed_sum_label_bytes();
    transcript.append_scalar(label.as_slice(), claimed_sum);
    let ghost start = transcript@;
    let n_variables = poly.variable_count();
    let mut round_polynomials: Vec<UnivariatePolynomial> = Vec::with_capacity(n_variables);
    let mut copy: Vec<Fp> = Vec::new();
    let mut j: usize = 0;
    while j < len
        invariant
            j <= len,
            len == poly.evaluations.len(),
            copy@ == poly.evaluations@.subrange(0, j as int),
        decreases len - j,
    {
        copy.push(poly.evaluations[j]);
        j = j + 1;
    }
    proof {
        assert(poly.evaluations@.subrange(0, len as int) =~= poly.evaluations@);
    }
    let mut p = MultilinearExtension { evaluations: copy };
    let round_label = round_poly_label_bytes();
    let challenge_label = challenge_label_bytes();
    let mut k: usize = 0;
    while k < n_variables
        invariant
            k <= n_variables,
            n_variables == poly.num_vars(),
            round_label@ == round_poly_label(),
            challenge_label@ == crate::sumcheck::challenge_label(),
            pow2((n_variables - k) as nat) <= p.evaluations.len() < pow2((n_variables - k) as nat + 1),
            k < n_variables ==> is_power_of_two(p.evaluations.len() as nat / 2),
            p.table() == prover_rounds(t, start, k as nat).0,
            transcript@ == prover_rounds(t, start, k as nat).1,
            round_polynomials@.map_values(|q: UnivariatePolynomial| values(q.coefficients@))
                == prover_rounds(t, start, k as nat).2,
        decreases n_variables - k,
    {
        let ghost pk = prover_rounds(t, start, k as nat);
        proof {
            lemma_half_is_pow2(p.evaluations.len() as nat, (n_variables - k) as nat);
            lemma_pow2_unfold((n_variables - k) as nat);
            lemma_pow2_pos((n_variables - k - 1) as nat);
            if k + 1 < n_variables {
                lemma_pow2_unfold((n_variables - k - 1) as nat);
                lemma_pow2_pos((n_variables - k - 2) as nat);
            }
        }
        let mid = p.evaluations.len() / 2;
        let eval_at_0 = sum_range(&p.evaluations, 0, mid);
        let eval_at_1 = sum_range(&p.evaluations, mid, 2 * mid);
        let mut coefficients: Vec<Fp> = Vec::new();
        coefficients.push(eval_at_0);
        coefficients.push(eval_at_1 - eval_at_0);
        let round_poly = UnivariatePolynomial::new(coefficients);
        proof {
            assert(values(round_poly.coefficients@) =~= round_coefficients(pk.0));
        }
        transcript.append_scalars(round_label.as_slice(), round_poly.coefficients.as_slice());
        let r = transcript.challenge_scalar(challenge_label.as_slice());
        let ghost before = p.table();
        p = p.fix_variable(r);
        proof {
            assert(p.table() =~= fold_table(before, r@ as int));
        }
        let ghost polys_before = round_polynomials@;
        round_polynomials.push(round_poly);
        proof {
            assert(round_polynomials@.map_values(|q: UnivariatePolynomial| values(q.coefficients@))
                =~= polys_before.map_values(|q: UnivariatePolynomial| values(q.coefficients@)).push(
                values(round_poly.coefficients@),
            ));
        }
        k = k + 1;
    }
    (claimed_sum, SumcheckProof { round_polynomials })
}

/// The log only grows during the prover's rounds.
proof fn lemma_prover_log_extends(t: Seq<int>, start: Seq<u8>, k: nat)
    ensures
        prover_rounds(t, start, k).1.len() >= start.len(),
        prover_rounds(t, start, k).1.subrange(0, start.len() as int) == start,
    decreases k,
{
    if k == 0 {
        assert(start.subrange(0, start.len() as int) =~= start);
    } else {
        lemma_prover_log_extends(t, start, (k - 1) as nat);
        let prev = prover_rounds(t, start, (k - 1) as nat).1;
        let next = prover_rounds(t, start, k).1;
        assert(next.subrange(0, prev.len() as int) =~= prev);
        assert(next.subrange(0, start.len() as int) =~= prev.subrange(0, start.len() as int));
    }
}

/// The log only grows during the verifier's rounds.
proof fn lemma_verifier_log_extends(polys: Seq<Seq<int>>, claimed: int, start: Seq<u8>, k: nat)
    ensures
        verifier_rounds(polys, claimed, start, k).2.len() >= start.len(),
        verifier_rounds(polys, claimed, start, k).2.subrange(0, start.len() as int) == start,
    decreases k,
{
    if k == 0 {
        assert(start.subrange(0, start.len() as int) =~= start);
    } else {
        lemma_verifier_log_extends(polys, claimed, start, (k - 1) as nat);
        let prev = verifier_rounds(polys, claimed, start, (k - 1) as nat).2;
        let next = verifier_rounds(polys, claimed, start, k).2;
        assert(next.subrange(0, prev.len() as int) =~= prev);
        assert(next.subrange(0, start.len() as int) =~= prev.subrange(0, start.len() as int));
    }
}

/// Before any round, the prover absorbs the claimed sum: every log of its
/// rounds begins with `old ++ "claimed_sum" ++ le_bytes(claimed, 8)`.
pub proof fn lemma_prover_absorbs_claim(t: Seq<int>, old: Seq<u8>, claimed: nat, k: nat)
    ensures
        ({
            let head = old + seq![99u8, 108u8, 97u8, 105u8, 109u8, 101u8, 100u8, 95u8, 115u8, 117u8, 109u8]
                + le_bytes(claimed, 8);
            let log = prover_rounds(t, log_after_claim(old, claimed as int), k).1;
            log.len() >= head.len() && log.subrange(0, head.len() as int) == head
        }),
{
    let start = log_after_claim(old, claimed as int);
    assert(claimed_sum_label() =~= seq![99u8, 108u8, 97u8, 105u8, 109u8, 101u8, 100u8, 95u8, 115u8, 117u8, 109u8]);
    lemma_prover_log_extends(t, start, k);
}

/// Before any round, the verifier absorbs the claimed sum: every log of its
/// rounds begins with `old ++ "claimed_sum" ++ le_bytes(claimed, 8)`.
pub proof fn lemma_verifier_absorbs_claim(polys: Seq<Seq<int>>, old: Seq<u8>, claimed: nat, k: nat)
    ensures
        ({
            let head = old + seq![99u8, 108u8, 97u8, 105u8, 109u8, 101u8, 100u8, 95u8, 115u8, 117u8, 109u8]
                + le_bytes(claimed, 8);
            let log = verifier_rounds(polys, claimed as int, log_after_claim(old, claimed as int), k).2;
            log.len() >= head.len() && log.subrange(0, head.len() as int) == head
        }),
{
    let start = log_after_claim(old, claimed as int);
    assert(claimed_sum_label() =~= seq![99u8, 108u8, 97u8, 105u8, 109u8, 101u8, 100u8, 95u8, 115u8, 117u8, 109u8]);
    lemma_verifier_log_extends(polys, claimed as int, start, k);
}

/// Two different claimed sums, checked against the same proof from the same
/// log, leave the verifier with different logs.
pub proof fn lemma_verifier_binds_claim(polys: Seq<Seq<int>>, old: Seq<u8>, c1: nat, c2: nat, k: nat)
    requires
        c1 < 0x1_0000_0000_0000_0000,
        c2 < 0x1_0000_0000_0000_0000,
        c1 != c2,
    ensures
        verifier_rounds(polys, c1 as int, log_after_claim(old, c1 as int), k).2 != verifier_rounds(
            polys,
            c2 as int,
            log_after_claim(old, c2 as int),
            k,
        ).2,
{
    lemma_verifier_absorbs_claim(polys, old, c1, k);
    lemma_verifier_absorbs_claim(polys, old, c2, k);
    let lbl = seq![99u8, 108u8, 97u8, 105u8, 109u8, 101u8, 100u8, 95u8, 115u8, 117u8, 109u8];
    let h1 = old + lbl + le_bytes(c1, 8);
    let h2 = old + lbl + le_bytes(c2, 8);
    lemma_le_roundtrip(c1, 8);
    lemma_le_roundtrip(c2, 8);
    let l1 = verifier_rounds(polys, c1 as int, log_after_claim(old, c1 as int), k).2;
    let l2 = verifier_rounds(polys, c2 as int, log_after_claim(old, c2 as int), k).2;
    if l1 == l2 {
        assert(h1 == h2);
        let o = (old.len() + 11) as int;
        assert(h1.subrange(o, o + 8) =~= le_bytes(c1, 8));
        assert(h2.subrange(o, o + 8) =~= le_bytes(c2, 8));
        lemma_le_bytes_injective(c1, c2);
    }
}

/// The round-`k` challenge of the honest prover is the SHA-256 digest,
/// read little-endian modulo the prime, of the log so far followed by the
/// round polynomial (`"round_poly" ++ le_bytes(2, 8)`, then
/// `"round_poly" ++ le_bytes(c_i, 8)` for each coefficient) and the label
/// `"challenge"`; the log then also holds the label and that digest.
pub proof fn lemma_prover_round_schedule(t: Seq<int>, start: Seq<u8>, k: nat)
    ensures
        ({
            let pk = prover_rounds(t, start, k);
            let c = round_coefficients(pk.0);
            let rp = seq![114u8, 111u8, 117u8, 110u8, 100u8, 95u8, 112u8, 111u8, 108u8, 121u8];
            let ch = seq![99u8, 104u8, 97u8, 108u8, 108u8, 101u8, 110u8, 103u8, 101u8];
            let h = pk.1 + rp + le_bytes(2, 8) + rp + le_bytes(c[0] as nat, 8) + rp + le_bytes(c[1] as nat, 8);
            let next = prover_rounds(t, start, k + 1);
            &&& next.2 == pk.2.push(c)
            &&& next.3 == pk.3.push((le_value(sha256(h + ch)) as int) % modulus())
            &&& next.1 == h + ch + sha256(h + ch)
        }),
{
    let pk = prover_rounds(t, start, k);
    let c = round_coefficients(pk.0);
    let rp = seq![114u8, 111u8, 117u8, 110u8, 100u8, 95u8, 112u8, 111u8, 108u8, 121u8];
    assert(round_poly_label() =~= rp);
    assert(challenge_label() =~= seq![99u8, 104u8, 97u8, 108u8, 108u8, 101u8, 110u8, 103u8, 101u8]);
    assert(c.drop_last() =~= seq![c[0]]);
    assert(seq![c[0]].drop_last() =~= Seq::<int>::empty());
    assert(scalars_bytes(rp, Seq::<int>::empty()) == Seq::<u8>::empty());
    assert(seq![c[0]].last() == c[0]);
    assert(scalars_bytes(rp, seq![c[0]]) =~= rp + le_bytes(c[0] as nat, 8));
    assert(c.last() == c[1]);
    assert(scalars_bytes(rp, c) == scalars_bytes(rp, seq![c[0]]) + rp + le_bytes(c[1] as nat, 8));
    assert(scalars_bytes(rp, c) =~= rp + le_bytes(c[0] as nat, 8) + rp + le_bytes(c[1] as nat, 8));
    let h = pk.1 + rp + le_bytes(2, 8) + rp + le_bytes(c[0] as nat, 8) + rp + le_bytes(c[1] as nat, 8);
    assert(absorb_round(pk.1, c) =~= h);
}

/// The round-`k` challenge the verifier derives is the SHA-256 digest, read
/// little-endian modulo the prime, of its log so far followed by the round-`k`
/// polynomial as `append_scalars` absorbs it and the label `"challenge"`;
/// its log then also holds the label and that digest.
pub proof fn lemma_verifier_round_schedule(polys: Seq<Seq<int>>, claimed: int, start: Seq<u8>, k: nat)
    requires
        verifier_rounds(polys, claimed, start, k + 1).0 is None,
    ensures
        ({
            let v = verifier_rounds(polys, claimed, start, k);
            let c = polys[k as int];
            let rp = seq![114u8, 111u8, 117u8, 110u8, 100u8, 95u8, 112u8, 111u8, 108u8, 121u8];
            let ch = seq![99u8, 104u8, 97u8, 108u8, 108u8, 101u8, 110u8, 103u8, 101u8];
            let h = v.2 + rp + le_bytes(c.len(), 8) + scalars_bytes(rp, c);
            let next = verifier_rounds(polys, claimed, start, k + 1);
            &&& v.0 is None
            &&& c.len() <= 2
            &&& next.3 == v.3.push((le_value(sha256(h + ch)) as int) % modulus())
            &&& next.2 == h + ch + sha256(h + ch)
        }),
{
    assert(round_poly_label() =~= seq![114u8, 111u8, 117u8, 110u8, 100u8, 95u8, 112u8, 111u8, 108u8, 121u8]);
    assert(challenge_label() =~= seq![99u8, 104u8, 97u8, 108u8, 108u8, 101u8, 110u8, 103u8, 101u8]);
}

/// After the same log, two round polynomials of the same length that differ
/// in a coefficient are hashed as different inputs for their challenges.
pub proof fn lemma_round_input_binds_polynomial(log: Seq<u8>, c1: Seq<int>, c2: Seq<int>, i: int)
    requires
        c1.len() == c2.len(),
        0 <= i < c1.len(),
        0 <= c1[i] < 0x1_0000_0000_0000_0000,
        0 <= c2[i] < 0x1_0000_0000_0000_0000,
        c1[i] != c2[i],
    ensures
        ({
            let rp = seq![114u8, 111u8, 117u8, 110u8, 100u8, 95u8, 112u8, 111u8, 108u8, 121u8];
            log + rp + le_bytes(c1.len(), 8) + scalars_bytes(rp, c1) != log + rp + le_bytes(c2.len(), 8)
                + scalars_bytes(rp, c2)
        }),
{
    let rp = seq![114u8, 111u8, 117u8, 110u8, 100u8, 95u8, 112u8, 111u8, 108u8, 121u8];
    lemma_scalars_bytes_injective(rp, c1, c2, i);
    let p = log + rp + le_bytes(c1.len(), 8);
    let a = p + scalars_bytes(rp, c1);
    let b = p + scalars_bytes(rp, c2);
    if a == b {
        assert(a.subrange(p.len() as int, a.len() as int) =~= scalars_bytes(rp, c1));
        assert(b.subrange(p.len() as int, b.len() as int) =~= scalars_bytes(rp, c2));
    }
}

/// Once the verifier has failed, later rounds change nothing.
proof fn lemma_failure_persists(polys: Seq<Seq<int>>, claimed: int, log: Seq<u8>, k: nat, m: nat)
    requires
        k <= m,
        verifier_rounds(polys, claimed, log, k).0 is Some,
    ensures
        verifier_rounds(polys, claimed, log, m) == verifier_rounds(polys, claimed, log, k),
    decreases m,
{
    if m > k {
        lemma_failure_persists(polys, claimed, log, k, (m - 1) as nat);
    }
}

/// Checks a sumcheck proof of `claimed_sum` for a polynomial in
/// `n_variables` variables, asking `oracle` for the polynomial's value at
/// the challenges in the final step.
pub fn verify(
    claimed_sum: Fp,
    n_variables: usize,
    proof: &SumcheckProof,
    transcript: &mut Transcript,
    oracle: impl Fn(&[Fp]) -> Fp,
) -> (r: Result<(), VerificationError>)
    requires
        forall|s: &[Fp]| oracle.requires((s,)),
    ensures
        proof.round_polynomials.len() != n_variables ==> r == Err::<(), VerificationError>(
            VerificationError::RoundCountMismatch,
        ) && final(transcript)@ == old(transcript)@,
        proof.round_polynomials.len() == n_variables ==> ({
            let start = log_after_claim(old(transcript)@, claimed_sum@ as int);
            let v = verifier_rounds(proof.coefficient_values(), claimed_sum@ as int, start, n_variables as nat);
            &&& final(transcript)@ == v.2
            &&& v.0 matches Some(e) ==> r == Err::<(), VerificationError>(e)
            &&& v.0 is None ==> (r is Ok || r == Err::<(), VerificationError>(
                VerificationError::FinalEvaluationMismatch,
            ))
            &&& (v.0 is None && r is Ok) ==> exists|s: &[Fp], o: Fp|
                values(s@) == v.3 && oracle.ensures((s,), o) && o@ == v.1
            &&& (v.0 is None && r is Err) ==> exists|s: &[Fp], o: Fp|
                values(s@) == v.3 && oracle.ensures((s,), o) && o@ != v.1
        }),
{
    if proof.round_polynomials.len() != n_variables {
        return Err(VerificationError::RoundCountMismatch);
    }
    let label = claimed_sum_label_bytes();
    transcript.append_scalar(label.as_slice(), claimed_sum);
    let ghost start = transcript@;
    let ghost polys = proof.coefficient_values();
    let round_label = round_poly_label_bytes();
    let challenge_label = challenge_label_bytes();
    let mut expected = claimed_sum;
    let mut challenges: Vec<Fp> = Vec::with_capacity(n_variables);
    let mut round: usize = 0;
    while round < n_variables
        invariant
            round <= n_variables,
            n_variables == proof.round_polynomials.len(),
            polys == proof.coefficient_values(),
            start == log_after_claim(old(transcript)@, claimed_sum@ as int),
            forall|s: &[Fp]| oracle.requires((s,)),
            round_label@ == round_poly_label(),
            challenge_label@ == crate::sumcheck::challenge_label(),
            verifier_rounds(polys, claimed_sum@ as int, start, round as nat).0 is None,
            expected@ == verifier_rounds(polys, claimed_sum@ as int, start, round as nat).1,
            transcript@ == verifier_rounds(polys, claimed_sum@ as int, start, round as nat).2,
            values(challenges@) == verifier_rounds(polys, claimed_sum@ as int, start, round as nat).3,
        decreases n_variables - round,
    {
        let poly = &proof.round_polynomials[round];
        let ghost c = polys[round as int];
        proof {
            assert(c == values(poly.coefficients@));
        }
        let round_sum = poly.evaluate(Fp::zero()) + poly.evaluate(Fp::one());
        if round_sum != expected {
            proof {
                Fp::lemma_view_injective(round_sum, expected);
                lemma_failure_persists(polys, claimed_sum@ as int, start, (round + 1) as nat, n_variables as nat);
            }
            return Err(VerificationError::InconsistentRoundSum { round });
        }
        proof {
            Fp::lemma_view_injective(round_sum, expected);
        }
        if poly.coefficients.len() > 2 {
            proof {
                lemma_failure_persists(polys, claimed_sum@ as int, start, (round + 1) as nat, n_variables as nat);
            }
            return Err(VerificationError::DegreeTooHigh { round });
        }
        transcript.append_scalars(round_label.as_slice(), poly.coefficients.as_slice());
        let r = transcript.challenge_scalar(challenge_label.as_slice());
        let ghost ch_before = challenges@;
        challenges.push(r);
        proof {
            assert(values(challenges@) =~= values(ch_before).push(r@ as int));
        }
        expected = poly.evaluate(r);
        round = round + 1;
    }
    let value = oracle(challenges.as_slice());
    if value != expected {
        proof {
            Fp::lemma_view_injective(value, expected);
        }
        return Err(VerificationError::FinalEvaluationMismatch);
    }
    Ok(())
}

} // verus!
