use sumcheck::field::Fp;
use sumcheck::polynomial::UnivariatePolynomial;

#[test]
fn evaluate_at_zero_gives_constant_term() {
    let p = UnivariatePolynomial::new(vec![Fp::new(7), Fp::new(11), Fp::new(13)]);
    assert_eq!(p.evaluate(Fp::zero()), Fp::new(7));
}

#[test]
fn evaluate_at_field_element_correct() {
    let p = UnivariatePolynomial::new(vec![Fp::new(3), Fp::new(5), Fp::new(2)]);
    // 3 + 5(2) + 2(2²) = 21
    assert_eq!(p.evaluate(Fp::new(2)), Fp::new(21));
}

#[test]
fn degree_is_correct() {
    let p = UnivariatePolynomial::new(vec![Fp::new(7), Fp::new(11), Fp::new(13)]);
    assert_eq!(p.degree(), 2);
}

#[test]
fn evaluate_at_one_sums_coefficients() {
    let p = UnivariatePolynomial::new(vec![Fp::new(7), Fp::new(11), Fp::new(13)]);
    assert_eq!(p.evaluate(Fp::one()), Fp::new(31));
}

#[test]
fn evaluate_wraps_modulo_the_prime() {
    let m = Fp::new(sumcheck::field::MODULUS - 1);
    let p = UnivariatePolynomial::new(vec![Fp::one(), Fp::one()]);
    // 1 + (p - 1) == 0
    assert_eq!(p.evaluate(m), Fp::zero());
}

#[test]
fn constant_polynomial_has_degree_zero() {
    let p = UnivariatePolynomial::new(vec![Fp::new(9)]);
    assert_eq!(p.degree(), 0);
    assert_eq!(p.evaluate(Fp::new(12345)), Fp::new(9));
}

#[test]
fn empty_coefficient_list_evaluates_to_zero() {
    let p = UnivariatePolynomial { coefficients: vec![] };
    assert_eq!(p.evaluate(Fp::new(5)), Fp::zero());
}
