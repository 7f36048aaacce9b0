//! An RSA accumulator over a group of unknown order: a constant-size digest
//! of a set of primes, membership and non-membership witnesses, batched
//! updates certified by a non-interactive proof of exponentiation, and a
//! proof of knowledge of exponent for universal non-membership.

pub mod bigint;
pub mod encode;
pub mod math;
pub mod nt;
pub mod proofs;
pub mod rsa;
