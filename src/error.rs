use vstd::prelude::*;

verus! {

/// Why a computation or a verification could not give an answer.
#[derive(Debug, Clone, Copy, PartialEq, Eq, Structural)]
pub enum VdfError {
    /// The iteration count lies outside the accepted range.
    InvalidIterationCount,
    /// No prime was found within the allowed number of draws.
    PrimeGenerationExhausted,
    /// A proof field is not valid base64, or decodes to no bytes.
    DecodeError,
    /// The proof's challenge prime is too short or fails the primality test.
    InvalidProofPrime,
}

impl VdfError {
    /// A short description of the error.
    pub fn message(&self) -> (r: String) {
        match self {
            VdfError::InvalidIterationCount => "invalid iteration count".to_string(),
            VdfError::PrimeGenerationExhausted => "failed to generate prime".to_string(),
            VdfError::DecodeError => "malformed proof encoding".to_string(),
            VdfError::InvalidProofPrime => "invalid proof prime l".to_string(),
        }
    }
}

} // verus!
