//! The check of a proof's shape against the parameters, made before anything
//! else is looked at.
use crate::field::field_types::Field;
use crate::fri::{lemma_shift_is_pow2, lemma_sum_prefix_monotonic, sum_prefix, FriParams};
use crate::fri::error::FriError;
use crate::fri::fri_proof::{FriProof, FriQueryRound};
use crate::fri::structure::{salt_size, salt_size_spec, FriInstanceInfo, FriOracleInfo};
use crate::fri::views::{FriProofView, QueryRoundView};
use vstd::arithmetic::power2::pow2;
use vstd::prelude::*;

verus! {

/// The leaf of an oracle has one value per polynomial, and salt where the
/// oracle is blinded in hiding mode; its path leads from the domain to the cap.
pub open spec fn leaf_shape_ok<F, D>(
    leaf: Seq<F>,
    siblings: Seq<D>,
    oracle: FriOracleInfo,
    params: FriParams,
) -> bool {
    &&& leaf.len() == oracle.num_polys + salt_size_spec(oracle.blinding && params.hiding)
    &&& siblings.len() + params.config.cap_height == params.lde_bits_spec()
}

/// Step `i` of a query round carries `2^arity_bits` evaluations, and its path
/// leads from the folded domain to the cap.
pub open spec fn step_shape_ok<E, D>(
    evals: Seq<E>,
    siblings: Seq<D>,
    params: FriParams,
    i: int,
) -> bool {
    &&& evals.len() == pow2(params.reduction_arity_bits@[i] as nat)
    &&& siblings.len() + params.config.cap_height == params.lde_bits_spec() - sum_prefix(
        params.reduction_arity_bits@,
        (i + 1) as nat,
    )
}

/// A query round has one leaf per oracle and one step per reduction, each of
/// the right shape.
pub open spec fn round_shape_ok<F, E, D>(
    round: QueryRoundView<F, E, D>,
    oracles: Seq<FriOracleInfo>,
    params: FriParams,
) -> bool {
    &&& round.initial.leaves.len() == oracles.len()
    &&& round.initial.siblings.len() == oracles.len()
    &&& forall|o: int|
        0 <= o < oracles.len() ==> leaf_shape_ok(
            #[trigger] round.initial.leaves[o],
            round.initial.siblings[o],
            oracles[o],
            params,
        )
    &&& round.step_evals.len() == params.reduction_arity_bits@.len()
    &&& round.step_siblings.len() == params.reduction_arity_bits@.len()
    &&& forall|i: int|
        0 <= i < params.reduction_arity_bits@.len() ==> step_shape_ok(
            #[trigger] round.step_evals[i],
            round.step_siblings[i],
            params,
            i,
        )
}

/// The proof has the shape that the parameters ask for: as many query rounds
/// as configured, each of the right shape; one cap of the configured height
/// per reduction; a final polynomial of the length left by the reductions.
pub open spec fn proof_shape_ok<F, E, D>(
    proof: FriProofView<F, E, D>,
    oracles: Seq<FriOracleInfo>,
    params: FriParams,
) -> bool {
    &&& proof.rounds.len() == params.config.num_query_rounds
    &&& proof.commit_caps.len() == params.reduction_arity_bits@.len()
    &&& forall|i: int|
        0 <= i < proof.commit_caps.len() ==> (#[trigger] proof.commit_caps[i]).len() == pow2(
            params.config.cap_height as nat,
        )
    &&& forall|r: int|
        0 <= r < proof.rounds.len() ==> round_shape_ok(#[trigger] proof.rounds[r], oracles, params)
    &&& proof.final_poly.len() == pow2((params.degree_bits - params.total_arities_spec()) as nat)
}

/// Whether one query round has the shape that the parameters ask for.
pub fn validate_query_round_shape<F: Field, E: Field, D>(
    round: &FriQueryRound<F, E, D>,
    oracles: &[FriOracleInfo],
    params: &FriParams,
) -> (r: bool)
    requires
        params.wf(),
    ensures
        r == round_shape_ok(round@, oracles@, *params),
{
    let cap_height = params.config.cap_height;
    let lde_bits = params.lde_bits();
    let oracle_count = round.initial_trees_proof.evals_proofs.len();
    if oracle_count != oracles.len() {
        return false;
    }
    let mut o: usize = 0;
    while o < oracle_count
        invariant
            o <= oracle_count,
            oracle_count == oracles@.len(),
            oracle_count == round.initial_trees_proof.evals_proofs@.len(),
            cap_height == params.config.cap_height,
            lde_bits == params.lde_bits_spec(),
            cap_height <= lde_bits,
            forall|k: int|
                0 <= k < o ==> leaf_shape_ok(
                    #[trigger] round@.initial.leaves[k],
                    round@.initial.siblings[k],
                    oracles@[k],
                    *params,
                ),
        decreases oracle_count - o,
    {
        let oracle = &oracles[o];
        let salt = salt_size(oracle.blinding && params.hiding);
        let leaf_len = round.initial_trees_proof.evals_proofs[o].0.len();
        let path_len = round.initial_trees_proof.evals_proofs[o].1.len();
        proof {
            assert(round@.initial.leaves[o as int] == round.initial_trees_proof.evals_proofs@[o as int].0@);
            assert(round@.initial.siblings[o as int]
                == round.initial_trees_proof.evals_proofs@[o as int].1.siblings@);
        }
        if leaf_len < salt || leaf_len - salt != oracle.num_polys || path_len != lde_bits
            - cap_height {
            assert(!leaf_shape_ok(
                round@.initial.leaves[o as int],
                round@.initial.siblings[o as int],
                oracles@[o as int],
                *params,
            ));
            return false;
        }
        o = o + 1;
    }
    let steps = round.steps.len();
    if steps != params.reduction_arity_bits.len() {
        return false;
    }
    let mut codeword_len_bits = lde_bits;
    let mut i: usize = 0;
    while i < steps
        invariant
            i <= steps,
            params.wf(),
            steps == round.steps@.len(),
            steps == params.reduction_arity_bits@.len(),
            cap_height == params.config.cap_height,
            lde_bits == params.lde_bits_spec(),
            codeword_len_bits == lde_bits - sum_prefix(params.reduction_arity_bits@, i as nat),
            forall|k: int|
                0 <= k < i ==> step_shape_ok(
                    #[trigger] round@.step_evals[k],
                    round@.step_siblings[k],
                    *params,
                    k,
                ),
        decreases steps - i,
    {
        let arity_bits = params.reduction_arity_bits[i];
        proof {
            lemma_sum_prefix_monotonic(params.reduction_arity_bits@, (i + 1) as nat, steps as nat);
            lemma_shift_is_pow2(arity_bits);
            assert(round@.step_evals[i as int] == round.steps@[i as int].evals@);
            assert(round@.step_siblings[i as int] == round.steps@[i as int].merkle_proof.siblings@);
        }
        let arity = 1usize << arity_bits;
        codeword_len_bits = codeword_len_bits - arity_bits;
        let evals_len = round.steps[i].evals.len();
        let path_len = round.steps[i].merkle_proof.len();
        if evals_len != arity || codeword_len_bits < cap_height || path_len != codeword_len_bits
            - cap_height {
            assert(!step_shape_ok(
                round@.step_evals[i as int],
                round@.step_siblings[i as int],
                *params,
                i as int,
            ));
            return false;
        }
        i = i + 1;
    }
    true
}

/// Checks that the proof has the shape that the instance and the parameters
/// ask for.
pub fn validate_fri_proof_shape<F: Field, E: Field, D>(
    proof: &FriProof<F, E, D>,
    instance: &FriInstanceInfo<E>,
    params: &FriParams,
) -> (r: Result<(), FriError>)
    requires
        params.wf(),
    ensures
        r == if proof_shape_ok(proof@, instance.oracles@, *params) {
            Ok::<(), FriError>(())
        } else {
            Err::<(), FriError>(FriError::ShapeMismatch)
        },
{
    let rounds = proof.query_round_proofs.len();
    if rounds != params.config.num_query_rounds {
        return Err(FriError::ShapeMismatch);
    }
    let caps = proof.commit_phase_merkle_caps.len();
    if caps != params.reduction_arity_bits.len() {
        return Err(FriError::ShapeMismatch);
    }
    proof {
        lemma_shift_is_pow2(params.config.cap_height);
    }
    let cap_len = 1usize << params.config.cap_height;
    let mut i: usize = 0;
    while i < caps
        invariant
            i <= caps,
            caps == proof.commit_phase_merkle_caps@.len(),
            cap_len == pow2(params.config.cap_height as nat),
            forall|k: int| 0 <= k < i ==> (#[trigger] proof@.commit_caps[k]).len() == cap_len,
        decreases caps - i,
    {
        proof {
            assert(proof@.commit_caps[i as int] == proof.commit_phase_merkle_caps@[i as int].0@);
        }
        if proof.commit_phase_merkle_caps[i].len() != cap_len {
            return Err(FriError::ShapeMismatch);
        }
        i = i + 1;
    }
    let mut r: usize = 0;
    while r < rounds
        invariant
            r <= rounds,
            params.wf(),
            rounds == proof.query_round_proofs@.len(),
            forall|k: int|
                0 <= k < r ==> round_shape_ok(#[trigger] proof@.rounds[k], instance.oracles@, *params),
        decreases rounds - r,
    {
        proof {
            assert(proof@.rounds[r as int] == proof.query_round_proofs@[r as int]@);
        }
        if !validate_query_round_shape(
            &proof.query_round_proofs[r],
            instance.oracles.as_slice(),
            params,
        ) {
            return Err(FriError::ShapeMismatch);
        }
        r = r + 1;
    }
    if proof.final_poly.len() != params.final_poly_len() {
        return Err(FriError::ShapeMismatch);
    }
    Ok(())
}

} // verus!
