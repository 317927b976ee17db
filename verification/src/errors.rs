//! The error taxonomy of the pipeline. Every failure surfaces as one of
//! these values; no operation panics or retries.

use vstd::prelude::*;

verus! {

/// Why an operation of the pipeline failed.
#[derive(Clone, Copy, Debug, PartialEq, Eq, Structural)]
pub enum ZkError {
    /// A witness length disagrees with a matrix's row width, or two vectors
    /// fed to an inner product differ in length.
    DimensionMismatch,
    /// A field inverse was requested on an element with no inverse
    /// (the additive identity).
    NotInvertible,
    /// A witness fails the Hadamard identity of its constraint system.
    ConstraintViolation,
    /// A proof does not satisfy the verifier's field identity.
    VerificationFailure,
    /// The generator scan exhausted the field without finding a curve point.
    NoGenerator,
}

} // verus!
