//! Error taxonomy of the proving core.

use vstd::prelude::*;

verus! {

/// Errors reported by the constraint compiler, the sparse-matrix API and the
/// proving scheme.
#[derive(Clone, Copy, Debug, PartialEq, Eq, Structural)]
pub enum Error {
    /// A circuit opcode that the compiler does not implement.
    UnsupportedOpcode,
    /// A witness or matrix shape inconsistency.
    DimensionMismatch,
    /// Sparse-matrix access outside the declared dimensions.
    IndexOutOfBounds,
    /// Witness or constraint count exceeds the power-of-two bound baked into
    /// the scheme setup.
    SchemeCapacityExceeded,
    /// A sumcheck round message that does not match the running claim, or a
    /// failed closing identity: verification failure.
    SumcheckEqualityViolation,
    /// Malformed bytes in a serialized proof transcript.
    SerializationError,
}

impl Error {
    /// A short diagnostic name for the error.
    pub fn message(&self) -> (r: String)
        ensures
            r@.len() > 0,
    {
        let s = match self {
            Error::UnsupportedOpcode => "unsupported opcode",
            Error::DimensionMismatch => "dimension mismatch",
            Error::IndexOutOfBounds => "index out of bounds",
            Error::SchemeCapacityExceeded => "scheme capacity exceeded",
            Error::SumcheckEqualityViolation => "sumcheck equality violation",
            Error::SerializationError => "serialization error",
        };
        proof {
            reveal_strlit("unsupported opcode");
            reveal_strlit("dimension mismatch");
            reveal_strlit("index out of bounds");
            reveal_strlit("scheme capacity exceeded");
            reveal_strlit("sumcheck equality violation");
            reveal_strlit("serialization error");
        }
        s.to_owned()
    }
}

} // verus!
