use sumcheck::field::Fp;
use sumcheck::multilinear::MultilinearExtension;

/// Sum over the hypercube of table[b] * prod_j (b_j ? r_j : 1 - r_j), the
/// first coordinate being the most significant bit of b.
fn brute_force_evaluate(evals: &[Fp], point: &[Fp]) -> Fp {
    let n = point.len();
    let mut total = Fp::zero();
    for (b, &v) in evals.iter().enumerate() {
        let mut weight = Fp::one();
        for (j, &r) in point.iter().enumerate() {
            let bit = (b >> (n - 1 - j)) & 1;
            weight = weight * if bit == 1 { r } else { Fp::one() - r };
        }
        total = total + v * weight;
    }
    total
}

#[test]
fn fix_variable_halves_the_table() {
    let evaluations = vec![Fp::new(10), Fp::new(20), Fp::new(30), Fp::new(40)];
    let mle = MultilinearExtension::new(evaluations);
    let folded = mle.fix_variable(Fp::new(2));

    assert_eq!(folded.evaluations.len(), 2);
    assert_eq!(folded.evaluations, vec![Fp::new(50), Fp::new(60)]); // (10 + 2*(30-10), 20 + 2*(40-20)) = (50, 60)
}

#[test]
fn evaluate_matches_table_at_boolean_points() {
    let evaluations = vec![Fp::new(10), Fp::new(20), Fp::new(30), Fp::new(40)];
    let mle = MultilinearExtension::new(evaluations);

    let zero = Fp::zero();
    let one = Fp::one();
    assert_eq!(mle.evaluate(&[zero, zero]), Fp::new(10));
    assert_eq!(mle.evaluate(&[zero, one]), Fp::new(20));
    assert_eq!(mle.evaluate(&[one, zero]), Fp::new(30));
    assert_eq!(mle.evaluate(&[one, one]), Fp::new(40));
}

#[test]
fn evaluate_matches_brute_force_at_non_boolean_point() {
    let evals = vec![Fp::new(10), Fp::new(20), Fp::new(30), Fp::new(40)];
    let mle = MultilinearExtension::new(evals.clone());
    let point = [Fp::new(3), Fp::new(5)];

    assert_eq!(mle.evaluate(&point), brute_force_evaluate(&evals, &point));
}

#[test]
fn zero_variable_extension_is_a_constant() {
    let mle = MultilinearExtension::new(vec![Fp::new(7)]);
    assert_eq!(mle.evaluate(&[]), Fp::new(7));
}

#[test]
fn variable_count_is_log_of_table_size() {
    assert_eq!(MultilinearExtension::new(vec![Fp::new(7)]).variable_count(), 0);
    assert_eq!(MultilinearExtension::new(vec![Fp::zero(); 2]).variable_count(), 1);
    assert_eq!(MultilinearExtension::new(vec![Fp::zero(); 16]).variable_count(), 4);
}

#[test]
fn fix_variable_at_boolean_values_selects_a_half() {
    let mle = MultilinearExtension::new(vec![Fp::new(1), Fp::new(2), Fp::new(3), Fp::new(4)]);
    assert_eq!(mle.fix_variable(Fp::zero()).evaluations, vec![Fp::new(1), Fp::new(2)]);
    assert_eq!(mle.fix_variable(Fp::one()).evaluations, vec![Fp::new(3), Fp::new(4)]);
}

#[test]
fn evaluate_three_variables_matches_brute_force() {
    let evals: Vec<Fp> = (1..=8).map(|i| Fp::new(i * i)).collect();
    let mle = MultilinearExtension::new(evals.clone());
    let point = [Fp::new(7), Fp::new(123456789), Fp::new(sumcheck::field::MODULUS - 2)];
    assert_eq!(mle.evaluate(&point), brute_force_evaluate(&evals, &point));
    // boolean point (1, 0, 1) is index 5
    assert_eq!(mle.evaluate(&[Fp::one(), Fp::zero(), Fp::one()]), Fp::new(36));
}
