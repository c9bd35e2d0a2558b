# sumcheck

A verified sumcheck prover and verifier over the BabyBear prime field
(`2^31 - 2^27 + 1`), made non-interactive with a SHA-256 Fiat-Shamir
transcript.

- `src/field.rs` — the field `Fp`; every operation is specified modulo the
  prime, and `inverse` is proved correct from Fermat's little theorem.
- `src/number_theory.rs` — Euclid's lemma, the binomial theorem, Fermat's
  little theorem, and a Pocklington-style criterion used to prove that the
  modulus is prime.
- `src/encoding.rs` — little-endian byte encodings.
- `src/polynomial.rs`, `src/polynomial/univariate.rs` — univariate
  polynomials; Horner evaluation is proved to compute `sum c_i x^i`.
- `src/multilinear.rs` — multilinear extensions of tables over the boolean
  hypercube: folding one variable, evaluation, agreement with the table at
  boolean points and with the weighted-sum formula.
- `src/circuit.rs` — layered arithmetic circuits and their evaluation.
- `src/transcript.rs` — the transcript; challenges are derived from the
  SHA-256 digest (the `sha2` crate) of the bytes absorbed so far.
- `src/sumcheck.rs` — `prove` and `verify`, specified round by round, and the
  completeness theorem: the verifier accepts the honest prover's proof.

Verify with Verus; the tests under `tests/` run the compiled library.
