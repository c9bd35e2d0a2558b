//! Univariate polynomials in coefficient form.

use crate::field::{
    lemma_add_congruent, lemma_mod_twice_int, lemma_mul_congruent, reduce, values, Fp, MODULUS,
};
use vstd::arithmetic::div_mod::*;
use vstd::arithmetic::mul::*;
use vstd::arithmetic::power::*;
use vstd::prelude::*;

verus! {

/// `sum_i c[i] * x^i` over the integers.
pub open spec fn coefficient_sum(c: Seq<int>, x: int) -> int
    decreases c.len(),
{
    if c.len() == 0 {
        0
    } else {
        coefficient_sum(c.drop_last(), x) + c.last() * pow(x, (c.len() - 1) as nat)
    }
}

/// Horner's rule: `c[0] + x * (c[1] + x * (...))`.
pub open spec fn horner(c: Seq<int>, x: int) -> int
    decreases c.len(),
{
    if c.len() == 0 {
        0
    } else {
        c[0] + x * horner(c.drop_first(), x)
    }
}

/// Horner's rule computes the coefficient sum.
pub proof fn lemma_horner_is_coefficient_sum(c: Seq<int>, x: int)
    ensures
        horner(c, x) == coefficient_sum(c, x),
    decreases c.len(),
{
    if c.len() > 0 {
        let rest = c.drop_first();
        lemma_horner_is_coefficient_sum(rest, x);
        lemma_coefficient_sum_shift(c, x);
        assert(horner(c, x) == c[0] + x * horner(rest, x));
    }
}

/// Splitting off the constant term of a coefficient sum.
proof fn lemma_coefficient_sum_shift(c: Seq<int>, x: int)
    requires
        c.len() > 0,
    ensures
        coefficient_sum(c, x) == c[0] + x * coefficient_sum(c.drop_first(), x),
    decreases c.len(),
{
    let n = c.len();
    let rest = c.drop_first();
    if n == 1 {
        lemma_pow0(x);
        assert(c.drop_last().len() == 0);
        assert(rest.len() == 0);
        assert(coefficient_sum(c.drop_last(), x) == 0);
        assert(coefficient_sum(rest, x) == 0);
        assert(coefficient_sum(c, x) == coefficient_sum(c.drop_last(), x) + c.last() * pow(x, 0));
        assert(c.last() == c[0]);
        assert(coefficient_sum(c, x) == c[0]);
    } else {
        let init = c.drop_last();
        lemma_coefficient_sum_shift(init, x);
        assert(init.drop_first() =~= rest.drop_last());
        assert(rest.last() == c.last());
        lemma_pow_adds(x, 1, (n - 2) as nat);
        lemma_pow1(x);
        let a = coefficient_sum(rest.drop_last(), x);
        let q = pow(x, (n - 2) as nat);
        assert(coefficient_sum(c, x) == coefficient_sum(init, x) + c.last() * pow(x, (n - 1) as nat));
        assert(coefficient_sum(rest, x) == a + c.last() * q);
        assert(coefficient_sum(init, x) == c[0] + x * a);
        assert(pow(x, (n - 1) as nat) == x * q);
        assert(coefficient_sum(c, x) == c[0] + x * coefficient_sum(rest, x)) by (nonlinear_arith)
            requires
                coefficient_sum(c, x) == coefficient_sum(init, x) + c.last() * pow(x, (n - 1) as nat),
                coefficient_sum(rest, x) == a + c.last() * q,
                coefficient_sum(init, x) == c[0] + x * a,
                pow(x, (n - 1) as nat) == x * q,
        ;
    }
}

/// A polynomial `sum_i coefficients[i] * X^i`.
pub struct UnivariatePolynomial {
    pub coefficients: Vec<Fp>,
}

impl UnivariatePolynomial {
    /// The value of the polynomial at `x`, reduced into the field.
    pub open spec fn value_at(self, x: nat) -> nat {
        reduce(coefficient_sum(values(self.coefficients@), x as int))
    }

    /// Builds a polynomial from a nonempty list of coefficients.
    pub fn new(coefficients: Vec<Fp>) -> (r: UnivariatePolynomial)
        requires
            coefficients.len() > 0,
        ensures
            r.coefficients@ == coefficients@,
    {
        UnivariatePolynomial { coefficients }
    }

    /// Evaluates the polynomial at `x` by Horner's rule.
    pub fn evaluate(&self, x: Fp) -> (r: Fp)
        ensures
            r@ == self.value_at(x@),
    {
        let c = &self.coefficients;
        let n = c.len();
        let ghost cs = values(c@);
        let mut output = Fp::zero();
        let mut i = n;
        proof {
            assert(cs.subrange(n as int, n as int) =~= Seq::<int>::empty());
            lemma_small_mod(0, MODULUS as nat);
        }
        while i > 0
            invariant
                i <= n,
                n == c@.len(),
                cs == values(c@),
                output@ == reduce(horner(cs.subrange(i as int, n as int), x@ as int)),
            decreases i,
        {
            let ghost tail = cs.subrange(i as int, n as int);
            i = i - 1;
            let coeff = c[i];
            let ghost before = output@;
            output = output * x + coeff;
            proof {
                let s = cs.subrange(i as int, n as int);
                assert(s.drop_first() =~= tail);
                assert(s[0] == coeff@);
                let h = horner(tail, x@ as int);
                lemma_mod_twice_int(h);
                lemma_mul_congruent(before as int, x@ as int, h, x@ as int);
                lemma_mul_is_commutative(h, x@ as int);
                lemma_mod_twice_int(before * x@ as int);
                lemma_add_congruent(
                    reduce(before * x@ as int) as int,
                    coeff@ as int,
                    x@ * h,
                    coeff@ as int,
                );
                assert(horner(s, x@ as int) == coeff@ + x@ * h);
            }
        }
        proof {
            assert(cs.subrange(0, n as int) =~= cs);
            lemma_horner_is_coefficient_sum(cs, x@ as int);
        }
        output
    }

    /// The degree bound `coefficients.len() - 1`.
    pub fn degree(&self) -> (r: usize)
        requires
            self.coefficients.len() > 0,
        ensures
            r == self.coefficients.len() - 1,
    {
        self.coefficients.len() - 1
    }
}

} // verus!
