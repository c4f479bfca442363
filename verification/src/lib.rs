//! Number-theoretic engine for a cryptographic accumulator: a staged
//! probabilistic primality test over arbitrary-precision integers, the
//! Jacobi symbol and Lucas discriminant selection it relies on, and the
//! modular-arithmetic utilities (Shamir's trick, linear congruence solving)
//! used when membership witnesses are aggregated.

pub mod arith;
pub mod primality;
pub mod util;
