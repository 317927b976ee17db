//! A minimal zero-knowledge proof pipeline: exact arithmetic over the prime
//! field of modulus 2^64 - 59, dense polynomial arithmetic, rank-1 constraint
//! systems, their reduction to a quadratic arithmetic program, a trusted
//! setup producing a structured reference string, and the prover/verifier
//! pair that checks a satisfiability claim against it.

pub mod errors;
pub mod field;
pub mod poly;
pub mod qap;
pub mod r1cs;
pub mod trustedsetup;
pub mod vector;

use vstd::prelude::*;

verus! {

} // verus!
