//! Polynomials over the field: univariate ones in coefficient form and
//! multilinear extensions of tables over the boolean hypercube.

pub mod univariate;

pub use crate::multilinear::MultilinearExtension;
pub use univariate::UnivariatePolynomial;
