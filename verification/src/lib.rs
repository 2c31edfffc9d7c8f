//! Arithmetic over the degree-2 extension of the 31-bit Mersenne prime field
//! GF(p), p = 2^31 - 1, extended by an element i with i^2 = -1.
//!
//! The extension field supplies a multiplicative group whose order is
//! divisible by a large power of two, which transform-style callers need;
//! the tower of 2^k-th roots of unity is derived here by repeated square
//! roots starting from -1.

pub mod cm31;
pub mod laws;
pub mod rm31;
