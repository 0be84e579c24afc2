//! The proof that the verifier checks, and the challenges it is checked with.
use crate::field::field_types::{all_wf, Field};
use crate::fri::structure::{salt_size, salt_size_spec};
use crate::hash::merkle_proofs::{all_hash_wf, Hasher, MerkleCap, MerkleProof};
use crate::polynomial::polynomial::PolynomialCoeffs;
use vstd::prelude::*;

verus! {

/// Evaluations and Merkle proof produced by the prover in one folding step of
/// a query: the evaluations on the coset that is folded, and their opening.
#[derive(Clone, Debug)]
pub struct FriQueryStep<E: Field, D> {
    pub evals: Vec<E>,
    pub merkle_proof: MerkleProof<D>,
}

/// Evaluations and Merkle proofs of the committed polynomials, before
/// they are combined into a composition polynomial: one leaf and one opening
/// per oracle.
#[derive(Clone, Debug)]
pub struct FriInitialTreeProof<F: Field, D> {
    pub evals_proofs: Vec<(Vec<F>, MerkleProof<D>)>,
}

/// Proof for one query round.
#[derive(Clone, Debug)]
pub struct FriQueryRound<F: Field, E: Field, D> {
    pub initial_trees_proof: FriInitialTreeProof<F, D>,
    pub steps: Vec<FriQueryStep<E, D>>,
}

/// The whole proof.
#[derive(Clone, Debug)]
pub struct FriProof<F: Field, E: Field, D> {
    /// A Merkle cap for each reduced polynomial in the commit phase.
    pub commit_phase_merkle_caps: Vec<MerkleCap<D>>,
    /// Query rounds proofs.
    pub query_round_proofs: Vec<FriQueryRound<F, E, D>>,
    /// The final polynomial in coefficient form.
    pub final_poly: PolynomialCoeffs<E>,
    /// Witness showing that the prover did proof of work.
    pub pow_witness: F,
}

/// The challenges that the transcript gave for a proof.
#[derive(Clone, Debug)]
pub struct FriChallenges<F: Field, E: Field> {
    /// Scaling factor to combine polynomials.
    pub fri_alpha: E,
    /// Betas used in the folding steps.
    pub fri_betas: Vec<E>,
    /// The transcript's answer to the proof-of-work witness.
    pub fri_pow_response: F,
    /// Indices at which the oracle is queried.
    pub fri_query_indices: Vec<usize>,
}

impl<F: Field, D> FriInitialTreeProof<F, D> {
    /// The evaluation of a polynomial of an oracle, from the leaf without its
    /// salt.
    pub open spec fn unsalted_eval_spec(self, oracle_index: int, poly_index: int) -> F {
        self.evals_proofs@[oracle_index].0@[poly_index]
    }

    /// The evaluations of an oracle's polynomials: the leaf without its salt.
    pub fn unsalted_evals(&self, oracle_index: usize, salted: bool) -> (r: &[F])
        requires
            oracle_index < self.evals_proofs@.len(),
            salt_size_spec(salted) <= self.evals_proofs@[oracle_index as int].0@.len(),
        ensures
            r@ == self.evals_proofs@[oracle_index as int].0@.take(
                self.evals_proofs@[oracle_index as int].0@.len() - salt_size_spec(salted),
            ),
    {
        let evals = &self.evals_proofs[oracle_index].0;
        let end = evals.len() - salt_size(salted);
        vstd::slice::slice_subrange(evals.as_slice(), 0, end)
    }

    /// The evaluation of one polynomial of an oracle.
    pub fn unsalted_eval(&self, oracle_index: usize, poly_index: usize, salted: bool) -> (r: F)
        requires
            oracle_index < self.evals_proofs@.len(),
            poly_index + salt_size_spec(salted) < self.evals_proofs@[oracle_index as int].0@.len(),
        ensures
            r == self.unsalted_eval_spec(oracle_index as int, poly_index as int),
    {
        self.unsalted_evals(oracle_index, salted)[poly_index]
    }
}

/// The field elements and digests of an initial tree proof are well formed.
pub open spec fn initial_tree_proof_wf<F: Field, H: Hasher<F>>(
    p: FriInitialTreeProof<F, H::Hash>,
) -> bool {
    forall|o: int|
        0 <= o < p.evals_proofs@.len() ==> all_wf((#[trigger] p.evals_proofs@[o]).0@)
            && all_hash_wf::<F, H>(p.evals_proofs@[o].1.siblings@)
}

/// The field elements and digests of a query round are well formed.
pub open spec fn query_round_wf<F: Field, E: Field, H: Hasher<F>>(
    q: FriQueryRound<F, E, H::Hash>,
) -> bool {
    &&& initial_tree_proof_wf::<F, H>(q.initial_trees_proof)
    &&& forall|i: int|
        0 <= i < q.steps@.len() ==> all_wf((#[trigger] q.steps@[i]).evals@) && all_hash_wf::<F, H>(
            q.steps@[i].merkle_proof.siblings@,
        )
}

/// The digests of the caps are well formed.
pub open spec fn caps_wf<F: Field, H: Hasher<F>>(caps: Seq<MerkleCap<H::Hash>>) -> bool {
    forall|i: int| 0 <= i < caps.len() ==> all_hash_wf::<F, H>((#[trigger] caps[i]).0@)
}

/// The field elements and digests of a proof are well formed.
pub open spec fn proof_wf<F: Field, E: Field, H: Hasher<F>>(p: FriProof<F, E, H::Hash>) -> bool {
    &&& caps_wf::<F, H>(p.commit_phase_merkle_caps@)
    &&& forall|r: int|
        0 <= r < p.query_round_proofs@.len() ==> query_round_wf::<F, E, H>(
            #[trigger] p.query_round_proofs@[r],
        )
    &&& all_wf(p.final_poly.coeffs@)
    &&& p.pow_witness.wf()
}

impl<F: Field, E: Field> FriChallenges<F, E> {
    /// The challenges are well formed, and there is a beta for every entry of
    /// `arity_bits`.
    pub open spec fn wf(self, arity_bits: Seq<usize>) -> bool {
        &&& self.fri_alpha.wf()
        &&& all_wf(self.fri_betas@)
        &&& self.fri_betas@.len() >= arity_bits.len()
        &&& self.fri_pow_response.wf()
    }
}

} // verus!
