//! Randomised verification protocols with machine-checked contracts:
//! the sum-check protocol over the BN254 scalar field, a probabilistic
//! matrix-product check, and polynomial fingerprinting of data vectors.

pub mod entropy;
pub mod error;
pub mod field;
pub mod freivalds;
pub mod hypercube;
pub mod multivariate;
pub mod reed_solomon;
pub mod sumcheck;
pub mod univariate;
