//! A sumcheck prover and verifier over the BabyBear prime field, together
//! with the field arithmetic, polynomials and Fiat-Shamir transcript it uses.

pub mod circuit;
pub mod encoding;
pub mod field;
pub mod multilinear;
pub mod number_theory;
pub mod polynomial;
pub mod sumcheck;
pub mod transcript;
