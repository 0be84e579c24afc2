//! The mathematical content of the proof, the instance and the challenges: as
//! sequences of field elements and digests, whichever way they are held.
use crate::field::field_types::Field;
use crate::fri::fri_proof::{FriChallenges, FriInitialTreeProof, FriProof, FriQueryRound};
use crate::fri::structure::{FriInstanceInfo, FriOpenings, FriOracleInfo, FriPolynomialInfo};
use crate::hash::merkle_proofs::MerkleCap;
use vstd::prelude::*;

verus! {

/// An instance: the oracles, and for each batch its polynomials and its point.
pub struct InstanceView<E> {
    pub oracles: Seq<FriOracleInfo>,
    pub polynomials: Seq<Seq<FriPolynomialInfo>>,
    pub points: Seq<E>,
}

/// The initial openings of a query: for each oracle its leaf and its path.
pub struct InitialTreeView<F, D> {
    pub leaves: Seq<Seq<F>>,
    pub siblings: Seq<Seq<D>>,
}

/// A query round: the initial openings, and for each folding step its
/// evaluations and its path.
pub struct QueryRoundView<F, E, D> {
    pub initial: InitialTreeView<F, D>,
    pub step_evals: Seq<Seq<E>>,
    pub step_siblings: Seq<Seq<D>>,
}

/// A proof.
pub struct FriProofView<F, E, D> {
    pub commit_caps: Seq<Seq<D>>,
    pub rounds: Seq<QueryRoundView<F, E, D>>,
    pub final_poly: Seq<E>,
    pub pow_witness: F,
}

/// The challenges of a proof.
pub struct ChallengesView<F, E> {
    pub alpha: E,
    pub betas: Seq<E>,
    pub pow_response: F,
    pub query_indices: Seq<nat>,
}

impl<E: Field> View for FriInstanceInfo<E> {
    type V = InstanceView<E>;

    open spec fn view(&self) -> InstanceView<E> {
        InstanceView {
            oracles: self.oracles@,
            polynomials: Seq::new(self.batches@.len(), |b: int| self.batches@[b].polynomials@),
            points: Seq::new(self.batches@.len(), |b: int| self.batches@[b].point),
        }
    }
}

impl<E: Field> View for FriOpenings<E> {
    type V = Seq<Seq<E>>;

    open spec fn view(&self) -> Seq<Seq<E>> {
        Seq::new(self.batches@.len(), |b: int| self.batches@[b].values@)
    }
}

impl<F: Field, D> View for FriInitialTreeProof<F, D> {
    type V = InitialTreeView<F, D>;

    open spec fn view(&self) -> InitialTreeView<F, D> {
        InitialTreeView {
            leaves: Seq::new(self.evals_proofs@.len(), |o: int| self.evals_proofs@[o].0@),
            siblings: Seq::new(self.evals_proofs@.len(), |o: int| self.evals_proofs@[o].1.siblings@),
        }
    }
}

impl<F: Field, E: Field, D> View for FriQueryRound<F, E, D> {
    type V = QueryRoundView<F, E, D>;

    open spec fn view(&self) -> QueryRoundView<F, E, D> {
        QueryRoundView {
            initial: self.initial_trees_proof@,
            step_evals: Seq::new(self.steps@.len(), |i: int| self.steps@[i].evals@),
            step_siblings: Seq::new(self.steps@.len(), |i: int| self.steps@[i].merkle_proof.siblings@),
        }
    }
}

/// The digests of the caps.
pub open spec fn caps_view<D>(caps: Seq<MerkleCap<D>>) -> Seq<Seq<D>> {
    Seq::new(caps.len(), |i: int| caps[i].0@)
}

impl<F: Field, E: Field, D> View for FriProof<F, E, D> {
    type V = FriProofView<F, E, D>;

    open spec fn view(&self) -> FriProofView<F, E, D> {
        FriProofView {
            commit_caps: caps_view(self.commit_phase_merkle_caps@),
            rounds: Seq::new(self.query_round_proofs@.len(), |r: int| self.query_round_proofs@[r]@),
            final_poly: self.final_poly.coeffs@,
            pow_witness: self.pow_witness,
        }
    }
}

impl<F: Field, E: Field> View for FriChallenges<F, E> {
    type V = ChallengesView<F, E>;

    open spec fn view(&self) -> ChallengesView<F, E> {
        ChallengesView {
            alpha: self.fri_alpha,
            betas: self.fri_betas@,
            pow_response: self.fri_pow_response,
            query_indices: Seq::new(
                self.fri_query_indices@.len(),
                |r: int| self.fri_query_indices@[r] as nat,
            ),
        }
    }
}

} // verus!
