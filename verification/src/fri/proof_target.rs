//! The proof, the challenges and the instance as targets of a constraint
//! system, and what it means for targets to hold given values.
use crate::field::extension_field::FieldExtension;
use crate::field::field_types::{Field, PrimeField};
use crate::fri::FriParams;
use crate::fri::structure::{salt_size_spec, FriOracleInfo, FriPolynomialInfo};
use crate::fri::views::{
    ChallengesView, FriProofView, InitialTreeView, InstanceView, QueryRoundView,
};
use crate::iop::target::{
    extensions_below, hashes_below, targets_below, ExtensionTarget, HashOutTarget, MerkleCapTarget,
    MerkleProofTarget, Target,
};
use crate::plonk::gates::{base_at, bases_at, digests_at, ext_at, exts_at, Value};
use vstd::arithmetic::power2::pow2;
use vstd::prelude::*;

verus! {

/// The targets of one folding step of a query: the evaluations on the coset
/// and the opening.
#[derive(Clone, Debug)]
pub struct FriQueryStepTarget {
    pub evals: Vec<ExtensionTarget>,
    pub merkle_proof: MerkleProofTarget,
}

/// The targets of the initial openings of a query: one leaf and one opening
/// per oracle.
#[derive(Clone, Debug)]
pub struct FriInitialTreeProofTarget {
    pub evals_proofs: Vec<(Vec<Target>, MerkleProofTarget)>,
}

/// The targets of one query round.
#[derive(Clone, Debug)]
pub struct FriQueryRoundTarget {
    pub initial_trees_proof: FriInitialTreeProofTarget,
    pub steps: Vec<FriQueryStepTarget>,
}

/// The targets of a proof.
#[derive(Clone, Debug)]
pub struct FriProofTarget {
    pub commit_phase_merkle_caps: Vec<MerkleCapTarget>,
    pub query_round_proofs: Vec<FriQueryRoundTarget>,
    pub final_poly: Vec<ExtensionTarget>,
    pub pow_witness: Target,
}

/// The targets of the challenges.
#[derive(Clone, Debug)]
pub struct FriChallengesTarget {
    pub fri_alpha: ExtensionTarget,
    pub fri_betas: Vec<ExtensionTarget>,
    pub fri_pow_response: Target,
    pub fri_query_indices: Vec<Target>,
}

/// A batch of openings at a point held by a target.
#[derive(Clone, Debug)]
pub struct FriBatchInfoTarget {
    pub point: ExtensionTarget,
    pub polynomials: Vec<FriPolynomialInfo>,
}

/// An instance whose points are held by targets.
#[derive(Clone, Debug)]
pub struct FriInstanceInfoTarget {
    pub oracles: Vec<FriOracleInfo>,
    pub batches: Vec<FriBatchInfoTarget>,
}

/// The targets of the claimed values of one batch.
#[derive(Clone, Debug)]
pub struct FriOpeningBatchTarget {
    pub values: Vec<ExtensionTarget>,
}

/// The targets of the claimed openings.
#[derive(Clone, Debug)]
pub struct FriOpeningsTarget {
    pub batches: Vec<FriOpeningBatchTarget>,
}

impl FriInitialTreeProofTarget {
    /// The target of the evaluation of a polynomial of an oracle: the entry of
    /// the oracle's leaf.
    pub fn unsalted_eval(&self, oracle_index: usize, poly_index: usize, salted: bool) -> (r: Target)
        requires
            oracle_index < self.evals_proofs@.len(),
            poly_index + salt_size_spec(salted) < self.evals_proofs@[oracle_index as int].0@.len(),
        ensures
            r == self@.leaves[oracle_index as int][poly_index as int],
    {
        self.evals_proofs[oracle_index].0[poly_index]
    }
}

/// The targets of a chosen set of challenges.
pub struct ChallengesTargetView {
    pub alpha: ExtensionTarget,
    pub betas: Seq<ExtensionTarget>,
    pub pow_response: Target,
    pub query_indices: Seq<Target>,
}

impl View for FriInitialTreeProofTarget {
    type V = InitialTreeView<Target, HashOutTarget>;

    open spec fn view(&self) -> InitialTreeView<Target, HashOutTarget> {
        InitialTreeView {
            leaves: Seq::new(self.evals_proofs@.len(), |o: int| self.evals_proofs@[o].0@),
            siblings: Seq::new(self.evals_proofs@.len(), |o: int| self.evals_proofs@[o].1.siblings@),
        }
    }
}

impl View for FriQueryRoundTarget {
    type V = QueryRoundView<Target, ExtensionTarget, HashOutTarget>;

    open spec fn view(&self) -> QueryRoundView<Target, ExtensionTarget, HashOutTarget> {
        QueryRoundView {
            initial: self.initial_trees_proof@,
            step_evals: Seq::new(self.steps@.len(), |i: int| self.steps@[i].evals@),
            step_siblings: Seq::new(self.steps@.len(), |i: int| self.steps@[i].merkle_proof.siblings@),
        }
    }
}

/// The targets of the caps.
pub open spec fn caps_target_view(caps: Seq<MerkleCapTarget>) -> Seq<Seq<HashOutTarget>> {
    Seq::new(caps.len(), |i: int| caps[i].0@)
}

impl View for FriProofTarget {
    type V = FriProofView<Target, ExtensionTarget, HashOutTarget>;

    open spec fn view(&self) -> FriProofView<Target, ExtensionTarget, HashOutTarget> {
        FriProofView {
            commit_caps: caps_target_view(self.commit_phase_merkle_caps@),
            rounds: Seq::new(self.query_round_proofs@.len(), |r: int| self.query_round_proofs@[r]@),
            final_poly: self.final_poly@,
            pow_witness: self.pow_witness,
        }
    }
}

impl View for FriChallengesTarget {
    type V = ChallengesTargetView;

    open spec fn view(&self) -> ChallengesTargetView {
        ChallengesTargetView {
            alpha: self.fri_alpha,
            betas: self.fri_betas@,
            pow_response: self.fri_pow_response,
            query_indices: self.fri_query_indices@,
        }
    }
}

impl View for FriInstanceInfoTarget {
    type V = InstanceView<ExtensionTarget>;

    open spec fn view(&self) -> InstanceView<ExtensionTarget> {
        InstanceView {
            oracles: self.oracles@,
            polynomials: Seq::new(self.batches@.len(), |b: int| self.batches@[b].polynomials@),
            points: Seq::new(self.batches@.len(), |b: int| self.batches@[b].point),
        }
    }
}

impl View for FriOpeningsTarget {
    type V = Seq<Seq<ExtensionTarget>>;

    open spec fn view(&self) -> Seq<Seq<ExtensionTarget>> {
        Seq::new(self.batches@.len(), |b: int| self.batches@[b].values@)
    }
}

/// The values of rows of base-field targets.
pub open spec fn rows_bases_at<F: Field, E, D>(vals: Seq<Value<F, E, D>>, rows: Seq<Seq<Target>>) -> Seq<
    Seq<F>,
> {
    Seq::new(rows.len(), |i: int| bases_at(vals, rows[i]))
}

/// The values of rows of extension-field targets.
pub open spec fn rows_exts_at<F: Field, E: Field, D>(
    vals: Seq<Value<F, E, D>>,
    rows: Seq<Seq<ExtensionTarget>>,
) -> Seq<Seq<E>> {
    Seq::new(rows.len(), |i: int| exts_at(vals, rows[i]))
}

/// The values of rows of digest targets.
pub open spec fn rows_digests_at<F: Field, E, D>(
    vals: Seq<Value<F, E, D>>,
    rows: Seq<Seq<HashOutTarget>>,
) -> Seq<Seq<D>> {
    Seq::new(rows.len(), |i: int| digests_at(vals, rows[i]))
}

/// The initial openings that the targets hold.
pub open spec fn initial_tree_at<F: Field, E, D>(
    vals: Seq<Value<F, E, D>>,
    t: InitialTreeView<Target, HashOutTarget>,
) -> InitialTreeView<F, D> {
    InitialTreeView {
        leaves: rows_bases_at(vals, t.leaves),
        siblings: rows_digests_at(vals, t.siblings),
    }
}

/// The query round that the targets hold.
pub open spec fn query_round_at<F: Field, E: Field, D>(
    vals: Seq<Value<F, E, D>>,
    t: QueryRoundView<Target, ExtensionTarget, HashOutTarget>,
) -> QueryRoundView<F, E, D> {
    QueryRoundView {
        initial: initial_tree_at(vals, t.initial),
        step_evals: rows_exts_at(vals, t.step_evals),
        step_siblings: rows_digests_at(vals, t.step_siblings),
    }
}

/// The proof that the targets hold.
pub open spec fn proof_at<F: Field, E: Field, D>(
    vals: Seq<Value<F, E, D>>,
    t: FriProofView<Target, ExtensionTarget, HashOutTarget>,
) -> FriProofView<F, E, D> {
    FriProofView {
        commit_caps: rows_digests_at(vals, t.commit_caps),
        rounds: Seq::new(t.rounds.len(), |r: int| query_round_at(vals, t.rounds[r])),
        final_poly: exts_at(vals, t.final_poly),
        pow_witness: base_at(vals, t.pow_witness),
    }
}

/// The query index that a target holds: the number that the low `lde_bits`
/// bits of its value give, which is how the gates read it.
pub open spec fn query_index_at<F: PrimeField, E, D>(
    vals: Seq<Value<F, E, D>>,
    x_index: Target,
    params: FriParams,
) -> nat {
    (base_at(vals, x_index).to_canonical_u64_spec() as nat) % pow2(params.lde_bits_spec())
}

/// A query index is within the domain.
pub proof fn lemma_query_index_at<F: PrimeField, E, D>(
    vals: Seq<Value<F, E, D>>,
    x_index: Target,
    params: FriParams,
)
    ensures
        query_index_at(vals, x_index, params) < pow2(params.lde_bits_spec()),
{
    vstd::arithmetic::power2::lemma_pow2_pos(params.lde_bits_spec());
    vstd::arithmetic::div_mod::lemma_mod_bound(
        base_at(vals, x_index).to_canonical_u64_spec() as int,
        pow2(params.lde_bits_spec()) as int,
    );
}

/// The challenges that the targets hold; a query index is read by its low
/// bits.
pub open spec fn challenges_at<F: PrimeField, E: Field, D>(
    vals: Seq<Value<F, E, D>>,
    t: ChallengesTargetView,
    params: FriParams,
) -> ChallengesView<F, E> {
    ChallengesView {
        alpha: ext_at(vals, t.alpha),
        betas: exts_at(vals, t.betas),
        pow_response: base_at(vals, t.pow_response),
        query_indices: Seq::new(
            t.query_indices.len(),
            |r: int| query_index_at(vals, t.query_indices[r], params),
        ),
    }
}

/// The instance that the targets hold: the same oracles and polynomials, and
/// the points that the targets hold.
pub open spec fn instance_at<F: Field, E: Field, D>(
    vals: Seq<Value<F, E, D>>,
    t: InstanceView<ExtensionTarget>,
) -> InstanceView<E> {
    InstanceView {
        oracles: t.oracles,
        polynomials: t.polynomials,
        points: exts_at(vals, t.points),
    }
}

/// All targets of the rows are outputs of the first `n` gates.
pub open spec fn rows_targets_below(rows: Seq<Seq<Target>>, n: nat) -> bool {
    forall|i: int| 0 <= i < rows.len() ==> targets_below(#[trigger] rows[i], n)
}

/// All extension targets of the rows are outputs of the first `n` gates.
pub open spec fn rows_extensions_below(rows: Seq<Seq<ExtensionTarget>>, n: nat) -> bool {
    forall|i: int| 0 <= i < rows.len() ==> extensions_below(#[trigger] rows[i], n)
}

/// All digest targets of the rows are outputs of the first `n` gates.
pub open spec fn rows_hashes_below(rows: Seq<Seq<HashOutTarget>>, n: nat) -> bool {
    forall|i: int| 0 <= i < rows.len() ==> hashes_below(#[trigger] rows[i], n)
}

/// All targets of the initial openings are outputs of the first `n` gates.
pub open spec fn initial_tree_scoped(t: InitialTreeView<Target, HashOutTarget>, n: nat) -> bool {
    rows_targets_below(t.leaves, n) && rows_hashes_below(t.siblings, n)
}

/// All targets of the query round are outputs of the first `n` gates.
pub open spec fn query_round_scoped(
    t: QueryRoundView<Target, ExtensionTarget, HashOutTarget>,
    n: nat,
) -> bool {
    &&& initial_tree_scoped(t.initial, n)
    &&& rows_extensions_below(t.step_evals, n)
    &&& rows_hashes_below(t.step_siblings, n)
}

/// All targets of the proof are outputs of the first `n` gates.
pub open spec fn proof_scoped(
    t: FriProofView<Target, ExtensionTarget, HashOutTarget>,
    n: nat,
) -> bool {
    &&& rows_hashes_below(t.commit_caps, n)
    &&& forall|r: int| 0 <= r < t.rounds.len() ==> query_round_scoped(#[trigger] t.rounds[r], n)
    &&& extensions_below(t.final_poly, n)
    &&& t.pow_witness.0 < n
}

/// All targets of the challenges are outputs of the first `n` gates.
pub open spec fn challenges_scoped(t: ChallengesTargetView, n: nat) -> bool {
    &&& t.alpha.0 < n
    &&& extensions_below(t.betas, n)
    &&& t.pow_response.0 < n
    &&& targets_below(t.query_indices, n)
}

} // verus!
