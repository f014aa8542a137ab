//! Exact polynomial arithmetic over signed integer coefficients, with a
//! number-theoretic transform (NTT) multiplication path: modulus and
//! root-of-unity selection, forward and inverse transforms over a prime
//! modulus, and a `Polynomial` type whose operators orchestrate them.

pub mod ntt;
pub mod polynomial;
