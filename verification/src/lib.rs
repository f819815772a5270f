//! Arbitrary-precision modular arithmetic and probabilistic prime
//! generation: the extended Euclidean algorithm with sign-normalized
//! Bezout and reduced outputs, modular inverse and division built on
//! it, Miller-Rabin primality testing, and rejection-sampling
//! generators for random primes and safe primes.
//!
//! The arbitrary-precision integer itself is `num_bigint::BigInt`,
//! treated as a numeric primitive: every operation the library relies
//! on is declared in `bigint` with a contract over the mathematical
//! value it carries, and all the logic above that layer is verified.

pub mod arith;
pub mod bigint;
pub mod consts;
pub mod euclid;
pub mod prime;
pub mod rand;

pub use consts::small_primes;
pub use euclid::ext_euclid;
pub use euclid::moddiv;
pub use euclid::modinv;
