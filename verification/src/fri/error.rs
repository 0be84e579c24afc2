//! The reasons for which a proof is rejected.
use vstd::prelude::*;

verus! {

/// Where a Merkle opening failed: in the initial tree of an oracle, or in the
/// tree of a folding layer.
#[derive(Clone, Copy, Debug, PartialEq, Eq, Structural)]
pub enum MerklePlace {
    Oracle(usize),
    Layer(usize),
}

/// Why the verifier rejects. Every rejection is final.
#[derive(Clone, Copy, Debug, PartialEq, Eq, Structural)]
pub enum FriError {
    /// The proof does not have the shape that the parameters ask for.
    ShapeMismatch,
    /// The proof-of-work response has too few leading zeros.
    ProofOfWorkFailure,
    /// An opening does not authenticate against its cap.
    MerkleAuthenticationFailure { round: usize, place: MerklePlace },
    /// The evaluations of a layer do not hold the value folded so far.
    FoldingConsistencyFailure { round: usize, layer: usize },
    /// The final polynomial does not take the last folded value.
    FinalPolynomialMismatch { round: usize },
}

impl FriError {
    /// A line of text that names the rejection.
    pub fn message(&self) -> (r: &'static str)
        ensures
            r@ == error_text(*self),
    {
        match self {
            FriError::ShapeMismatch => "Proof shape does not match the parameters.",
            FriError::ProofOfWorkFailure => "Invalid proof of work witness.",
            FriError::MerkleAuthenticationFailure { .. } => "Invalid Merkle proof.",
            FriError::FoldingConsistencyFailure { .. } => "Folded evaluation is inconsistent.",
            FriError::FinalPolynomialMismatch { .. } => "Final polynomial evaluation is invalid.",
        }
    }
}

/// The text that names a rejection.
pub open spec fn error_text(e: FriError) -> Seq<char> {
    match e {
        FriError::ShapeMismatch => "Proof shape does not match the parameters."@,
        FriError::ProofOfWorkFailure => "Invalid proof of work witness."@,
        FriError::MerkleAuthenticationFailure { .. } => "Invalid Merkle proof."@,
        FriError::FoldingConsistencyFailure { .. } => "Folded evaluation is inconsistent."@,
        FriError::FinalPolynomialMismatch { .. } => "Final polynomial evaluation is invalid."@,
    }
}

} // verus!
