use sumcheck::field::Fp;
use sumcheck::multilinear::MultilinearExtension;
use sumcheck::sumcheck::{prove, verify, VerificationError};
use sumcheck::transcript::Transcript;

fn test_mle() -> MultilinearExtension {
    // evaluations over {0,1}^2 in order: (0,0),(0,1),(1,0),(1,1)
    MultilinearExtension::new(vec![Fp::new(1), Fp::new(2), Fp::new(3), Fp::new(4)])
}

fn oracle_for(poly: &MultilinearExtension) -> impl Fn(&[Fp]) -> Fp + '_ {
    move |point: &[Fp]| poly.evaluate(point)
}

#[test]
fn honest_proof_verifies() {
    let poly = test_mle();

    let mut prover_transcript = Transcript::new(b"sumcheck-test");
    let (claimed_sum, proof) = prove(&poly, &mut prover_transcript);

    let mut verifier_transcript = Transcript::new(b"sumcheck-test");
    let result = verify(
        claimed_sum,
        poly.variable_count(),
        &proof,
        &mut verifier_transcript,
        oracle_for(&poly),
    );

    assert_eq!(result, Ok(()));
}

#[test]
fn incorrect_sum_is_rejected() {
    let poly = test_mle();

    let mut prover_transcript = Transcript::new(b"sumcheck-test");
    let (claimed_sum, proof) = prove(&poly, &mut prover_transcript);

    let mut verifier_transcript = Transcript::new(b"sumcheck-test");
    let result = verify(
        claimed_sum + Fp::one(), // incorrect sum
        poly.variable_count(),
        &proof,
        &mut verifier_transcript,
        oracle_for(&poly),
    );

    assert_eq!(result, Err(VerificationError::InconsistentRoundSum { round: 0 }));
}

#[test]
fn round_count_mismatch_is_rejected() {
    let poly = test_mle();

    let mut prover_transcript = Transcript::new(b"sumcheck-test");
    let (claimed_sum, mut proof) = prove(&poly, &mut prover_transcript);

    // drop a round polynomial
    proof.round_polynomials.pop();

    let mut verifier_transcript = Transcript::new(b"sumcheck-test");
    let result = verify(
        claimed_sum,
        poly.variable_count(),
        &proof,
        &mut verifier_transcript,
        oracle_for(&poly),
    );

    assert_eq!(result, Err(VerificationError::RoundCountMismatch));
}

#[test]
fn tampered_round_polynomial_is_rejected() {
    let poly = test_mle();

    let mut prover_transcript = Transcript::new(b"sumcheck-test");
    let (claimed_sum, mut proof) = prove(&poly, &mut prover_transcript);

    // tamper with coefficient in round polynomial
    proof.round_polynomials[0].coefficients[0] = proof.round_polynomials[0].coefficients[0] + Fp::one();

    let mut verifier_transcript = Transcript::new(b"sumcheck-test");
    let result = verify(
        claimed_sum,
        poly.variable_count(),
        &proof,
        &mut verifier_transcript,
        oracle_for(&poly),
    );

    assert_eq!(result, Err(VerificationError::InconsistentRoundSum { round: 0 }));
}

#[test]
fn over_degree_round_polynomial_is_rejected() {
    let poly = test_mle();

    let mut prover_transcript = Transcript::new(b"sumcheck-test");
    let (claimed_sum, mut proof) = prove(&poly, &mut prover_transcript);

    // note X * (X-1) = 0 vanishes at both X=0 and X=1 so:
    // adding c * X * (X - 1) = c*X^2 - c*X to the polynomial changes the degree
    // without changing the value at the two boundary points X=0 and X=1
    let c = Fp::new(7);
    proof.round_polynomials[0].coefficients[1] = proof.round_polynomials[0].coefficients[1] - c; // adjust the X coefficient
    proof.round_polynomials[0].coefficients.push(c); // add the X^2 coefficient

    let mut verifier_transcript = Transcript::new(b"sumcheck-test");
    let result = verify(
        claimed_sum,
        poly.variable_count(),
        &proof,
        &mut verifier_transcript,
        oracle_for(&poly),
    );

    assert_eq!(result, Err(VerificationError::DegreeTooHigh { round: 0 }));
}

#[test]
fn final_evaluation_mismatch_is_rejected() {
    let poly = test_mle();

    let mut prover_transcript = Transcript::new(b"sumcheck-test");
    let (claimed_sum, proof) = prove(&poly, &mut prover_transcript);

    let mut verifier_transcript = Transcript::new(b"sumcheck-test");

    let result = verify(
        claimed_sum,
        poly.variable_count(),
        &proof,
        &mut verifier_transcript,
        |_point| Fp::new(999), // deliberately incorrect oracle
    );

    assert_eq!(result, Err(VerificationError::FinalEvaluationMismatch));
}

#[test]
fn mismatched_transcript_label_is_rejected() {
    let poly = test_mle();

    let mut prover_transcript = Transcript::new(b"sumcheck-test");
    let (claimed_sum, proof) = prove(&poly, &mut prover_transcript);

    let mut verifier_transcript = Transcript::new(b"different-label");
    let result = verify(
        claimed_sum,
        poly.variable_count(),
        &proof,
        &mut verifier_transcript,
        oracle_for(&poly),
    );

    assert!(result.is_err());
}

#[test]
fn claimed_sum_is_sum_of_table() {
    let poly = test_mle();
    let mut transcript = Transcript::new(b"t");
    let (claimed_sum, proof) = prove(&poly, &mut transcript);
    assert_eq!(claimed_sum, Fp::new(10));
    assert_eq!(proof.round_polynomials.len(), 2);
    // first round: sums of the halves are 3 and 7, so p(X) = 3 + 4X
    assert_eq!(proof.round_polynomials[0].coefficients, vec![Fp::new(3), Fp::new(4)]);
}

#[test]
fn prover_and_verifier_transcripts_agree() {
    let poly = test_mle();
    let mut prover_transcript = Transcript::new(b"sumcheck-test");
    let (claimed_sum, proof) = prove(&poly, &mut prover_transcript);
    let mut verifier_transcript = Transcript::new(b"sumcheck-test");
    let result = verify(claimed_sum, 2, &proof, &mut verifier_transcript, oracle_for(&poly));
    assert_eq!(result, Ok(()));
    assert_eq!(
        prover_transcript.challenge_scalar(b"next"),
        verifier_transcript.challenge_scalar(b"next")
    );
}

#[test]
fn zero_variable_polynomial_verifies() {
    let poly = MultilinearExtension::new(vec![Fp::new(42)]);
    let mut pt = Transcript::new(b"z");
    let (claimed_sum, proof) = prove(&poly, &mut pt);
    assert_eq!(claimed_sum, Fp::new(42));
    assert!(proof.round_polynomials.is_empty());
    let mut vt = Transcript::new(b"z");
    assert_eq!(verify(claimed_sum, 0, &proof, &mut vt, oracle_for(&poly)), Ok(()));
    let mut vt2 = Transcript::new(b"z");
    assert_eq!(
        verify(Fp::new(41), 0, &proof, &mut vt2, oracle_for(&poly)),
        Err(VerificationError::FinalEvaluationMismatch)
    );
}

#[test]
fn larger_honest_proof_verifies() {
    let evals: Vec<Fp> = (0..32).map(|i| Fp::new(i * 7919 + 3)).collect();
    let poly = MultilinearExtension::new(evals);
    let mut pt = Transcript::new(b"big");
    let (claimed_sum, proof) = prove(&poly, &mut pt);
    let mut vt = Transcript::new(b"big");
    assert_eq!(verify(claimed_sum, 5, &proof, &mut vt, oracle_for(&poly)), Ok(()));
}

#[test]
fn later_round_tampering_is_rejected_at_that_round() {
    let evals: Vec<Fp> = (0..8).map(|i| Fp::new(i + 1)).collect();
    let poly = MultilinearExtension::new(evals);
    let mut pt = Transcript::new(b"t");
    let (claimed_sum, mut proof) = prove(&poly, &mut pt);
    proof.round_polynomials[2].coefficients[0] = proof.round_polynomials[2].coefficients[0] + Fp::one();
    let mut vt = Transcript::new(b"t");
    assert_eq!(
        verify(claimed_sum, 3, &proof, &mut vt, oracle_for(&poly)),
        Err(VerificationError::InconsistentRoundSum { round: 2 })
    );
}
