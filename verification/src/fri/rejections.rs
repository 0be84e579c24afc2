//! What becomes of an accepted proof when one of its values is replaced: which
//! check catches the change. And what an accepted proof divides by.
use crate::field::extension_field::{flatten_spec, FieldExtension};
use crate::field::field_types::{Field, PrimeField};
use crate::fri::FriParams;
use crate::fri::error::{FriError, MerklePlace};
use crate::fri::native_verifier::{
    checked_oracles, checked_rounds, combined_batches, final_check_ok, first_layer_failure,
    first_round_failure, folding_well_posed, fri_reaches_units, fri_verifier_query_round_spec,
    fri_well_posed, initial_opening_ok, layer_authentic, layer_consistent, layer_failure,
    lemma_first_bad_oracle_none, lemma_first_bad_oracle_stays, lemma_first_layer_failure_stays,
    lemma_first_round_failure_stays, query_reaches_units, query_well_posed, reduced_openings_spec,
    round_inputs, verify_fri_proof_spec, walk_eval, walk_index, walk_index_within_coset, walk_x,
    QueryInputs,
};
use crate::fri::validate_shape::{leaf_shape_ok, proof_shape_ok, round_shape_ok, step_shape_ok};
use crate::fri::views::{
    ChallengesView, FriProofView, InitialTreeView, InstanceView, QueryRoundView,
};
use crate::hash::merkle_proofs::{merkle_climb, Hasher};
use crate::polynomial::polynomial::poly_eval_spec;
use vstd::arithmetic::power2::lemma_pow2_pos;
use vstd::prelude::*;

verus! {

/// The query round with the evaluation at place `j` of step `i` replaced.
pub open spec fn round_with_eval<F, E, D>(
    round: QueryRoundView<F, E, D>,
    i: int,
    j: int,
    v: E,
) -> QueryRoundView<F, E, D> {
    QueryRoundView {
        initial: round.initial,
        step_evals: round.step_evals.update(i, round.step_evals[i].update(j, v)),
        step_siblings: round.step_siblings,
    }
}

/// The proof with the evaluation at place `j` of step `i` of query round `r`
/// replaced.
pub open spec fn proof_with_eval<F, E, D>(
    proof: FriProofView<F, E, D>,
    r: int,
    i: int,
    j: int,
    v: E,
) -> FriProofView<F, E, D> {
    FriProofView {
        commit_caps: proof.commit_caps,
        rounds: proof.rounds.update(r, round_with_eval(proof.rounds[r], i, j, v)),
        final_poly: proof.final_poly,
        pow_witness: proof.pow_witness,
    }
}

/// The proof with another final polynomial.
pub open spec fn proof_with_final_poly<F, E, D>(
    proof: FriProofView<F, E, D>,
    final_poly: Seq<E>,
) -> FriProofView<F, E, D> {
    FriProofView {
        commit_caps: proof.commit_caps,
        rounds: proof.rounds,
        final_poly,
        pow_witness: proof.pow_witness,
    }
}

/// Where no step below `n` fails, none of them does.
pub proof fn lemma_layers_pass<F: Field, E: FieldExtension<F>, H: Hasher<F>>(
    q: QueryInputs<F, E, H::Hash>,
    n: nat,
    k: int,
)
    requires
        first_layer_failure::<F, E, H>(q, n) is None,
        0 <= k < n,
    ensures
        layer_failure::<F, E, H>(q, k) is None,
        first_layer_failure::<F, E, H>(q, k as nat) is None,
    decreases n,
{
    if k < n - 1 {
        lemma_layers_pass::<F, E, H>(q, (n - 1) as nat, k);
    }
}

/// Where none of the steps below `n` fails, there is no first failure below
/// `n`.
pub proof fn lemma_no_layer_fails<F: Field, E: FieldExtension<F>, H: Hasher<F>>(
    q: QueryInputs<F, E, H::Hash>,
    n: nat,
)
    requires
        forall|k: int| 0 <= k < n ==> (#[trigger] layer_failure::<F, E, H>(q, k)) is None,
    ensures
        first_layer_failure::<F, E, H>(q, n) is None,
    decreases n,
{
    if n > 0 {
        lemma_no_layer_fails::<F, E, H>(q, (n - 1) as nat);
    }
}

/// Where no query round below `n` fails, none of them does.
pub proof fn lemma_rounds_pass<F: Field, E: FieldExtension<F>, H: Hasher<F>>(
    instance: InstanceView<E>,
    openings: Seq<Seq<E>>,
    challenges: ChallengesView<F, E>,
    initial_caps: Seq<Seq<H::Hash>>,
    proof: FriProofView<F, E, H::Hash>,
    params: FriParams,
    n: nat,
    k: int,
)
    requires
        first_round_failure::<F, E, H>(instance, openings, challenges, initial_caps, proof, params, n)
            is None,
        0 <= k < n,
    ensures
        fri_verifier_query_round_spec::<F, E, H>(
            round_inputs(instance, openings, challenges, initial_caps, proof, params, k),
        ) is Ok,
    decreases n,
{
    if k < n - 1 {
        lemma_rounds_pass::<F, E, H>(
            instance,
            openings,
            challenges,
            initial_caps,
            proof,
            params,
            (n - 1) as nat,
            k,
        );
    }
}

/// Where every query round below `n` passes, there is no first failure below
/// `n`.
pub proof fn lemma_no_round_fails<F: Field, E: FieldExtension<F>, H: Hasher<F>>(
    instance: InstanceView<E>,
    openings: Seq<Seq<E>>,
    challenges: ChallengesView<F, E>,
    initial_caps: Seq<Seq<H::Hash>>,
    proof: FriProofView<F, E, H::Hash>,
    params: FriParams,
    n: nat,
)
    requires
        forall|k: int|
            0 <= k < n ==> fri_verifier_query_round_spec::<F, E, H>(
                #[trigger] round_inputs(instance, openings, challenges, initial_caps, proof, params, k),
            ) is Ok,
    ensures
        first_round_failure::<F, E, H>(instance, openings, challenges, initial_caps, proof, params, n)
            is None,
    decreases n,
{
    if n > 0 {
        lemma_no_round_fails::<F, E, H>(
            instance,
            openings,
            challenges,
            initial_caps,
            proof,
            params,
            (n - 1) as nat,
        );
        assert(fri_verifier_query_round_spec::<F, E, H>(
            round_inputs(instance, openings, challenges, initial_caps, proof, params, n - 1),
        ) is Ok);
    }
}

/// Where no query round below `n` fails, no shorter prefix has a failure.
pub proof fn lemma_rounds_prefix_pass<F: Field, E: FieldExtension<F>, H: Hasher<F>>(
    instance: InstanceView<E>,
    openings: Seq<Seq<E>>,
    challenges: ChallengesView<F, E>,
    initial_caps: Seq<Seq<H::Hash>>,
    proof: FriProofView<F, E, H::Hash>,
    params: FriParams,
    n: nat,
    k: nat,
)
    requires
        first_round_failure::<F, E, H>(instance, openings, challenges, initial_caps, proof, params, n)
            is None,
        k <= n,
    ensures
        first_round_failure::<F, E, H>(instance, openings, challenges, initial_caps, proof, params, k)
            is None,
    decreases n,
{
    if k < n {
        lemma_rounds_prefix_pass::<F, E, H>(
            instance,
            openings,
            challenges,
            initial_caps,
            proof,
            params,
            (n - 1) as nat,
            k,
        );
    }
}

/// A query round that is accepted comes to all its divisions: where those it
/// comes to are by units, the whole query divides by units only.
pub proof fn lemma_accepted_round_is_well_posed<F: Field, E: FieldExtension<F>, H: Hasher<F>>(
    q: QueryInputs<F, E, H::Hash>,
)
    requires
        fri_verifier_query_round_spec::<F, E, H>(q) is Ok,
        query_reaches_units::<F, E, H>(q),
    ensures
        query_well_posed::<F, E>(
            q.instance.points,
            combined_batches(q.instance, q.reduced_openings),
            q.betas,
            q.params,
            q.x_index,
        ),
{
    let n = q.params.reduction_arity_bits@.len();
    assert forall|i: int| 0 <= i < n implies folding_well_posed::<F, E>(
        walk_x::<F>(q.params, q.x_index, i as nat),
        #[trigger] walk_index_within_coset(q.params, q.x_index, i),
        q.params.reduction_arity_bits@[i] as nat,
        q.betas[i],
    ) by {
        lemma_layers_pass::<F, E, H>(q, n, i);
        assert(layer_consistent(q, i));
    }
}

/// A proof that is accepted has the verifier come to all divisions of all
/// query rounds: where those it comes to are by units, and there is a round
/// for every query index, every query divides by units only.
pub proof fn lemma_accepted_is_well_posed<F: PrimeField, E: FieldExtension<F>, H: Hasher<F>>(
    instance: InstanceView<E>,
    openings: Seq<Seq<E>>,
    challenges: ChallengesView<F, E>,
    initial_caps: Seq<Seq<H::Hash>>,
    proof: FriProofView<F, E, H::Hash>,
    params: FriParams,
)
    requires
        verify_fri_proof_spec::<F, E, H>(instance, openings, challenges, initial_caps, proof, params)
            is Ok,
        fri_reaches_units::<F, E, H>(instance, openings, challenges, initial_caps, proof, params),
        challenges.query_indices.len() <= proof.rounds.len(),
    ensures
        fri_well_posed::<F, E>(instance, openings, challenges, params),
{
    let n = checked_rounds(challenges, proof);
    assert forall|r: int| 0 <= r < challenges.query_indices.len() implies query_well_posed::<F, E>(
        instance.points,
        combined_batches(
            instance,
            reduced_openings_spec(openings, challenges.alpha, params.hiding),
        ),
        challenges.betas,
        params,
        #[trigger] challenges.query_indices[r],
    ) by {
        lemma_rounds_prefix_pass::<F, E, H>(
            instance,
            openings,
            challenges,
            initial_caps,
            proof,
            params,
            n,
            r as nat,
        );
        lemma_rounds_pass::<F, E, H>(
            instance,
            openings,
            challenges,
            initial_caps,
            proof,
            params,
            n,
            r,
        );
        let q = round_inputs(instance, openings, challenges, initial_caps, proof, params, r);
        assert(query_reaches_units::<F, E, H>(q));
        lemma_accepted_round_is_well_posed::<F, E, H>(q);
    }
}

/// A query round that is accepted fails the consistency check of step `i`
/// once the evaluation of that step at the place of the queried point is
/// another: the steps before it pass as before, and the running evaluation
/// that step `i` is held against is the same.
pub proof fn lemma_round_with_changed_evaluation<F: Field, E: FieldExtension<F>, H: Hasher<F>>(
    q: QueryInputs<F, E, H::Hash>,
    i: int,
    v: E,
)
    requires
        fri_verifier_query_round_spec::<F, E, H>(q) is Ok,
        0 <= i < q.params.reduction_arity_bits@.len(),
        i < q.round_proof.step_evals.len(),
        walk_index_within_coset(q.params, q.x_index, i) < q.round_proof.step_evals[i].len(),
        v != q.round_proof.step_evals[i][walk_index_within_coset(q.params, q.x_index, i) as int],
    ensures
        fri_verifier_query_round_spec::<F, E, H>(
            QueryInputs {
                round_proof: round_with_eval(
                    q.round_proof,
                    i,
                    walk_index_within_coset(q.params, q.x_index, i) as int,
                    v,
                ),
                ..q
            },
        ) == Err::<(), FriError>(
            FriError::FoldingConsistencyFailure { round: q.round, layer: i as usize },
        ),
{
    let j = walk_index_within_coset(q.params, q.x_index, i) as int;
    let n = q.params.reduction_arity_bits@.len();
    let q2 = QueryInputs { round_proof: round_with_eval(q.round_proof, i, j, v), ..q };
    assert forall|k: int| 0 <= k < i implies (#[trigger] layer_failure::<F, E, H>(q2, k)) is None by {
        lemma_layers_pass::<F, E, H>(q, n, k);
        assert(q2.round_proof.step_evals[k] == q.round_proof.step_evals[k]);
        if k > 0 {
            assert(q2.round_proof.step_evals[k - 1] == q.round_proof.step_evals[k - 1]);
        }
        assert(walk_eval(q2, k as nat) == walk_eval(q, k as nat));
        assert(layer_consistent(q2, k) == layer_consistent(q, k));
        assert(layer_authentic::<F, E, H>(q2, k) == layer_authentic::<F, E, H>(q, k));
    }
    lemma_no_layer_fails::<F, E, H>(q2, i as nat);
    lemma_layers_pass::<F, E, H>(q, n, i);
    if i > 0 {
        assert(q2.round_proof.step_evals[i - 1] == q.round_proof.step_evals[i - 1]);
    }
    assert(walk_eval(q2, i as nat) == walk_eval(q, i as nat));
    assert(layer_consistent(q, i));
    assert(q2.round_proof.step_evals[i][j] == v);
    assert(!layer_consistent(q2, i));
    lemma_first_layer_failure_stays::<F, E, H>(q2, i as nat, n);
}

/// A proof that is accepted is rejected once the evaluation of step `i` of
/// query round `r` at the place of the queried point is another: round `r`
/// fails the consistency check of step `i`, and no check before it fails.
pub proof fn lemma_changed_queried_evaluation_is_rejected<
    F: PrimeField,
    E: FieldExtension<F>,
    H: Hasher<F>,
>(
    instance: InstanceView<E>,
    openings: Seq<Seq<E>>,
    challenges: ChallengesView<F, E>,
    initial_caps: Seq<Seq<H::Hash>>,
    proof: FriProofView<F, E, H::Hash>,
    params: FriParams,
    r: int,
    i: int,
    v: E,
)
    requires
        verify_fri_proof_spec::<F, E, H>(instance, openings, challenges, initial_caps, proof, params)
            is Ok,
        0 <= r < checked_rounds(challenges, proof),
        0 <= i < params.reduction_arity_bits@.len(),
        v != proof.rounds[r].step_evals[i][walk_index_within_coset(
            params,
            challenges.query_indices[r],
            i,
        ) as int],
    ensures
        verify_fri_proof_spec::<F, E, H>(
            instance,
            openings,
            challenges,
            initial_caps,
            proof_with_eval(
                proof,
                r,
                i,
                walk_index_within_coset(params, challenges.query_indices[r], i) as int,
                v,
            ),
            params,
        ) == Err::<(), FriError>(
            FriError::FoldingConsistencyFailure { round: r as usize, layer: i as usize },
        ),
{
    let j = walk_index_within_coset(params, challenges.query_indices[r], i) as int;
    let proof2 = proof_with_eval(proof, r, i, j, v);
    let n = checked_rounds(challenges, proof);
    let round = proof.rounds[r];
    // the shape stays
    assert(round_shape_ok(round, instance.oracles, params));
    assert(step_shape_ok(round.step_evals[i], round.step_siblings[i], params, i));
    lemma_pow2_pos(params.reduction_arity_bits@[i] as nat);
    assert(0 <= j < round.step_evals[i].len());
    let round2 = round_with_eval(round, i, j, v);
    assert(round_shape_ok(round2, instance.oracles, params)) by {
        assert forall|k: int| 0 <= k < params.reduction_arity_bits@.len() implies step_shape_ok(
            #[trigger] round2.step_evals[k],
            round2.step_siblings[k],
            params,
            k,
        ) by {
            assert(step_shape_ok(round.step_evals[k], round.step_siblings[k], params, k));
        }
    }
    assert(proof_shape_ok(proof2, instance.oracles, params)) by {
        assert forall|k: int| 0 <= k < proof2.rounds.len() implies round_shape_ok(
            #[trigger] proof2.rounds[k],
            instance.oracles,
            params,
        ) by {
            assert(round_shape_ok(proof.rounds[k], instance.oracles, params));
        }
    }
    // the rounds before pass as before
    assert forall|k: int| 0 <= k < r implies fri_verifier_query_round_spec::<F, E, H>(
        #[trigger] round_inputs(instance, openings, challenges, initial_caps, proof2, params, k),
    ) is Ok by {
        lemma_rounds_pass::<F, E, H>(
            instance,
            openings,
            challenges,
            initial_caps,
            proof,
            params,
            n,
            k,
        );
        assert(round_inputs(instance, openings, challenges, initial_caps, proof2, params, k)
            == round_inputs(instance, openings, challenges, initial_caps, proof, params, k));
    }
    lemma_no_round_fails::<F, E, H>(
        instance,
        openings,
        challenges,
        initial_caps,
        proof2,
        params,
        r as nat,
    );
    // round `r` fails
    let q = round_inputs(instance, openings, challenges, initial_caps, proof, params, r);
    lemma_rounds_pass::<F, E, H>(instance, openings, challenges, initial_caps, proof, params, n, r);
    lemma_round_with_changed_evaluation::<F, E, H>(q, i, v);
    assert(round_inputs(instance, openings, challenges, initial_caps, proof2, params, r)
        == QueryInputs { round_proof: round2, ..q });
    lemma_first_round_failure_stays::<F, E, H>(
        instance,
        openings,
        challenges,
        initial_caps,
        proof2,
        params,
        r as nat,
        n,
    );
    assert(checked_rounds(challenges, proof2) == n);
}

/// The query round with the leaf of oracle `o` replaced.
pub open spec fn round_with_leaf<F, E, D>(
    round: QueryRoundView<F, E, D>,
    o: int,
    leaf: Seq<F>,
) -> QueryRoundView<F, E, D> {
    QueryRoundView {
        initial: InitialTreeView {
            leaves: round.initial.leaves.update(o, leaf),
            siblings: round.initial.siblings,
        },
        step_evals: round.step_evals,
        step_siblings: round.step_siblings,
    }
}

/// The proof with the leaf of oracle `o` of query round `r` replaced.
pub open spec fn proof_with_leaf<F, E, D>(
    proof: FriProofView<F, E, D>,
    r: int,
    o: int,
    leaf: Seq<F>,
) -> FriProofView<F, E, D> {
    FriProofView {
        commit_caps: proof.commit_caps,
        rounds: proof.rounds.update(r, round_with_leaf(proof.rounds[r], o, leaf)),
        final_poly: proof.final_poly,
        pow_witness: proof.pow_witness,
    }
}

/// A proof that is accepted is rejected once the leaf of oracle `o` of query
/// round `r` is another of the same length, unless the two leaves collide on
/// the way to the cap: round `r` fails to authenticate oracle `o`.
pub proof fn lemma_changed_leaf_is_rejected<F: PrimeField, E: FieldExtension<F>, H: Hasher<F>>(
    instance: InstanceView<E>,
    openings: Seq<Seq<E>>,
    challenges: ChallengesView<F, E>,
    initial_caps: Seq<Seq<H::Hash>>,
    proof: FriProofView<F, E, H::Hash>,
    params: FriParams,
    r: int,
    o: int,
    leaf: Seq<F>,
)
    requires
        verify_fri_proof_spec::<F, E, H>(instance, openings, challenges, initial_caps, proof, params)
            is Ok,
        0 <= r < checked_rounds(challenges, proof),
        0 <= o < checked_oracles(proof.rounds[r].initial, initial_caps),
        leaf.len() == proof.rounds[r].initial.leaves[o].len(),
        merkle_climb::<F, H>(
            H::hash_or_noop_spec(leaf),
            challenges.query_indices[r],
            proof.rounds[r].initial.siblings[o],
        ) != merkle_climb::<F, H>(
            H::hash_or_noop_spec(proof.rounds[r].initial.leaves[o]),
            challenges.query_indices[r],
            proof.rounds[r].initial.siblings[o],
        ),
    ensures
        verify_fri_proof_spec::<F, E, H>(
            instance,
            openings,
            challenges,
            initial_caps,
            proof_with_leaf(proof, r, o, leaf),
            params,
        ) == Err::<(), FriError>(
            FriError::MerkleAuthenticationFailure {
                round: r as usize,
                place: MerklePlace::Oracle(o as usize),
            },
        ),
{
    let proof2 = proof_with_leaf(proof, r, o, leaf);
    let n = checked_rounds(challenges, proof);
    let round = proof.rounds[r];
    let round2 = round_with_leaf(round, o, leaf);
    let x = challenges.query_indices[r];
    // the shape stays
    assert(round_shape_ok(round, instance.oracles, params));
    assert(round_shape_ok(round2, instance.oracles, params)) by {
        assert forall|k: int| 0 <= k < instance.oracles.len() implies leaf_shape_ok(
            #[trigger] round2.initial.leaves[k],
            round2.initial.siblings[k],
            instance.oracles[k],
            params,
        ) by {
            assert(leaf_shape_ok(
                round.initial.leaves[k],
                round.initial.siblings[k],
                instance.oracles[k],
                params,
            ));
        }
        assert forall|k: int| 0 <= k < params.reduction_arity_bits@.len() implies step_shape_ok(
            #[trigger] round2.step_evals[k],
            round2.step_siblings[k],
            params,
            k,
        ) by {
            assert(step_shape_ok(round.step_evals[k], round.step_siblings[k], params, k));
        }
    }
    assert(proof_shape_ok(proof2, instance.oracles, params)) by {
        assert forall|k: int| 0 <= k < proof2.rounds.len() implies round_shape_ok(
            #[trigger] proof2.rounds[k],
            instance.oracles,
            params,
        ) by {
            assert(round_shape_ok(proof.rounds[k], instance.oracles, params));
        }
    }
    // the rounds before pass as before
    assert forall|k: int| 0 <= k < r implies fri_verifier_query_round_spec::<F, E, H>(
        #[trigger] round_inputs(instance, openings, challenges, initial_caps, proof2, params, k),
    ) is Ok by {
        lemma_rounds_pass::<F, E, H>(
            instance,
            openings,
            challenges,
            initial_caps,
            proof,
            params,
            n,
            k,
        );
        assert(round_inputs(instance, openings, challenges, initial_caps, proof2, params, k)
            == round_inputs(instance, openings, challenges, initial_caps, proof, params, k));
    }
    lemma_no_round_fails::<F, E, H>(
        instance,
        openings,
        challenges,
        initial_caps,
        proof2,
        params,
        r as nat,
    );
    // round `r`: the oracles before `o` authenticate as before, oracle `o` does not
    lemma_rounds_pass::<F, E, H>(instance, openings, challenges, initial_caps, proof, params, n, r);
    let total = checked_oracles(round.initial, initial_caps);
    lemma_first_bad_oracle_none::<F, H>(x, round.initial, initial_caps, total);
    assert(initial_opening_ok::<F, H>(x, round.initial, initial_caps, o));
    assert forall|k: int| 0 <= k < o implies initial_opening_ok::<F, H>(
        x,
        round2.initial,
        initial_caps,
        k,
    ) by {
        assert(initial_opening_ok::<F, H>(x, round.initial, initial_caps, k));
        assert(round2.initial.leaves[k] == round.initial.leaves[k]);
    }
    lemma_first_bad_oracle_none::<F, H>(x, round2.initial, initial_caps, o as nat);
    assert(round2.initial.leaves[o] == leaf);
    assert(!initial_opening_ok::<F, H>(x, round2.initial, initial_caps, o));
    lemma_first_bad_oracle_stays::<F, H>(
        x,
        round2.initial,
        initial_caps,
        o as nat,
        checked_oracles(round2.initial, initial_caps),
    );
    let q2 = round_inputs(instance, openings, challenges, initial_caps, proof2, params, r);
    assert(q2.round_proof == round2);
    lemma_first_round_failure_stays::<F, E, H>(
        instance,
        openings,
        challenges,
        initial_caps,
        proof2,
        params,
        r as nat,
        n,
    );
    assert(checked_rounds(challenges, proof2) == n);
}

/// A proof that is accepted is rejected once an evaluation of step `i` of
/// query round `r` other than the one at the place of the queried point is
/// another, unless the evaluations before and after collide on the way to the
/// cap: round `r` fails to authenticate the evaluations of step `i`.
pub proof fn lemma_changed_sibling_evaluation_is_rejected<
    F: PrimeField,
    E: FieldExtension<F>,
    H: Hasher<F>,
>(
    instance: InstanceView<E>,
    openings: Seq<Seq<E>>,
    challenges: ChallengesView<F, E>,
    initial_caps: Seq<Seq<H::Hash>>,
    proof: FriProofView<F, E, H::Hash>,
    params: FriParams,
    r: int,
    i: int,
    j: int,
    v: E,
)
    requires
        verify_fri_proof_spec::<F, E, H>(instance, openings, challenges, initial_caps, proof, params)
            is Ok,
        0 <= r < checked_rounds(challenges, proof),
        0 <= i < params.reduction_arity_bits@.len(),
        0 <= j < proof.rounds[r].step_evals[i].len(),
        j != walk_index_within_coset(params, challenges.query_indices[r], i),
        merkle_climb::<F, H>(
            H::hash_or_noop_spec(flatten_spec::<F, E>(proof.rounds[r].step_evals[i].update(j, v))),
            walk_index(params, challenges.query_indices[r], (i + 1) as nat),
            proof.rounds[r].step_siblings[i],
        ) != merkle_climb::<F, H>(
            H::hash_or_noop_spec(flatten_spec::<F, E>(proof.rounds[r].step_evals[i])),
            walk_index(params, challenges.query_indices[r], (i + 1) as nat),
            proof.rounds[r].step_siblings[i],
        ),
    ensures
        verify_fri_proof_spec::<F, E, H>(
            instance,
            openings,
            challenges,
            initial_caps,
            proof_with_eval(proof, r, i, j, v),
            params,
        ) == Err::<(), FriError>(
            FriError::MerkleAuthenticationFailure {
                round: r as usize,
                place: MerklePlace::Layer(i as usize),
            },
        ),
{
    let proof2 = proof_with_eval(proof, r, i, j, v);
    let n = checked_rounds(challenges, proof);
    let layers = params.reduction_arity_bits@.len();
    let round = proof.rounds[r];
    let round2 = round_with_eval(round, i, j, v);
    assert(round_shape_ok(round, instance.oracles, params));
    assert(round_shape_ok(round2, instance.oracles, params)) by {
        assert forall|k: int| 0 <= k < params.reduction_arity_bits@.len() implies step_shape_ok(
            #[trigger] round2.step_evals[k],
            round2.step_siblings[k],
            params,
            k,
        ) by {
            assert(step_shape_ok(round.step_evals[k], round.step_siblings[k], params, k));
        }
    }
    assert(proof_shape_ok(proof2, instance.oracles, params)) by {
        assert forall|k: int| 0 <= k < proof2.rounds.len() implies round_shape_ok(
            #[trigger] proof2.rounds[k],
            instance.oracles,
            params,
        ) by {
            assert(round_shape_ok(proof.rounds[k], instance.oracles, params));
        }
    }
    assert forall|k: int| 0 <= k < r implies fri_verifier_query_round_spec::<F, E, H>(
        #[trigger] round_inputs(instance, openings, challenges, initial_caps, proof2, params, k),
    ) is Ok by {
        lemma_rounds_pass::<F, E, H>(
            instance,
            openings,
            challenges,
            initial_caps,
            proof,
            params,
            n,
            k,
        );
        assert(round_inputs(instance, openings, challenges, initial_caps, proof2, params, k)
            == round_inputs(instance, openings, challenges, initial_caps, proof, params, k));
    }
    lemma_no_round_fails::<F, E, H>(
        instance,
        openings,
        challenges,
        initial_caps,
        proof2,
        params,
        r as nat,
    );
    let q = round_inputs(instance, openings, challenges, initial_caps, proof, params, r);
    let q2 = round_inputs(instance, openings, challenges, initial_caps, proof2, params, r);
    lemma_rounds_pass::<F, E, H>(instance, openings, challenges, initial_caps, proof, params, n, r);
    assert(q2 == QueryInputs { round_proof: round2, ..q });
    // the steps before pass as before
    assert forall|k: int| 0 <= k < i implies (#[trigger] layer_failure::<F, E, H>(q2, k)) is None by {
        lemma_layers_pass::<F, E, H>(q, layers, k);
        assert(q2.round_proof.step_evals[k] == q.round_proof.step_evals[k]);
        if k > 0 {
            assert(q2.round_proof.step_evals[k - 1] == q.round_proof.step_evals[k - 1]);
        }
        assert(walk_eval(q2, k as nat) == walk_eval(q, k as nat));
        assert(layer_consistent(q2, k) == layer_consistent(q, k));
        assert(layer_authentic::<F, E, H>(q2, k) == layer_authentic::<F, E, H>(q, k));
    }
    lemma_no_layer_fails::<F, E, H>(q2, i as nat);
    // step `i` holds the running evaluation as before, and does not authenticate
    lemma_layers_pass::<F, E, H>(q, layers, i);
    if i > 0 {
        assert(q2.round_proof.step_evals[i - 1] == q.round_proof.step_evals[i - 1]);
    }
    assert(walk_eval(q2, i as nat) == walk_eval(q, i as nat));
    assert(layer_consistent(q, i));
    assert(layer_authentic::<F, E, H>(q, i));
    let at = walk_index_within_coset(params, challenges.query_indices[r], i) as int;
    assert(q2.round_proof.step_evals[i] == q.round_proof.step_evals[i].update(j, v));
    assert(q2.round_proof.step_evals[i][at] == q.round_proof.step_evals[i][at]);
    assert(layer_consistent(q2, i));
    assert(!layer_authentic::<F, E, H>(q2, i));
    lemma_first_layer_failure_stays::<F, E, H>(q2, i as nat, layers);
    lemma_first_round_failure_stays::<F, E, H>(
        instance,
        openings,
        challenges,
        initial_caps,
        proof2,
        params,
        r as nat,
        n,
    );
    assert(checked_rounds(challenges, proof2) == n);
}

/// A proof that is accepted, and has a query round, is rejected once its
/// final polynomial is another of the same length that takes another value at
/// the last point of the first query: the first round fails the final check.
pub proof fn lemma_changed_final_polynomial_is_rejected<
    F: PrimeField,
    E: FieldExtension<F>,
    H: Hasher<F>,
>(
    instance: InstanceView<E>,
    openings: Seq<Seq<E>>,
    challenges: ChallengesView<F, E>,
    initial_caps: Seq<Seq<H::Hash>>,
    proof: FriProofView<F, E, H::Hash>,
    params: FriParams,
    final_poly: Seq<E>,
)
    requires
        verify_fri_proof_spec::<F, E, H>(instance, openings, challenges, initial_caps, proof, params)
            is Ok,
        checked_rounds(challenges, proof) > 0,
        final_poly.len() == proof.final_poly.len(),
        poly_eval_spec(
            final_poly,
            E::from_basefield_spec(
                walk_x::<F>(
                    params,
                    challenges.query_indices[0],
                    params.reduction_arity_bits@.len(),
                ),
            ),
        ) != poly_eval_spec(
            proof.final_poly,
            E::from_basefield_spec(
                walk_x::<F>(
                    params,
                    challenges.query_indices[0],
                    params.reduction_arity_bits@.len(),
                ),
            ),
        ),
    ensures
        verify_fri_proof_spec::<F, E, H>(
            instance,
            openings,
            challenges,
            initial_caps,
            proof_with_final_poly(proof, final_poly),
            params,
        ) == Err::<(), FriError>(FriError::FinalPolynomialMismatch { round: 0 }),
{
    let proof2 = proof_with_final_poly(proof, final_poly);
    let n = checked_rounds(challenges, proof);
    let layers = params.reduction_arity_bits@.len();
    assert(proof_shape_ok(proof2, instance.oracles, params)) by {
        assert forall|k: int| 0 <= k < proof2.rounds.len() implies round_shape_ok(
            #[trigger] proof2.rounds[k],
            instance.oracles,
            params,
        ) by {
            assert(round_shape_ok(proof.rounds[k], instance.oracles, params));
        }
    }
    let q = round_inputs(instance, openings, challenges, initial_caps, proof, params, 0);
    let q2 = round_inputs(instance, openings, challenges, initial_caps, proof2, params, 0);
    lemma_rounds_pass::<F, E, H>(instance, openings, challenges, initial_caps, proof, params, n, 0);
    assert(q2 == QueryInputs { final_poly, ..q });
    assert forall|k: int| 0 <= k < layers implies (#[trigger] layer_failure::<F, E, H>(q2, k)) is None by {
        lemma_layers_pass::<F, E, H>(q, layers, k);
        assert(walk_eval(q2, k as nat) == walk_eval(q, k as nat));
        assert(layer_consistent(q2, k) == layer_consistent(q, k));
        assert(layer_authentic::<F, E, H>(q2, k) == layer_authentic::<F, E, H>(q, k));
    }
    lemma_no_layer_fails::<F, E, H>(q2, layers);
    assert(walk_eval(q2, layers) == walk_eval(q, layers));
    assert(final_check_ok(q));
    assert(!final_check_ok(q2));
    assert(fri_verifier_query_round_spec::<F, E, H>(q2) == Err::<(), FriError>(
        FriError::FinalPolynomialMismatch { round: 0 },
    ));
    lemma_first_round_failure_stays::<F, E, H>(
        instance,
        openings,
        challenges,
        initial_caps,
        proof2,
        params,
        0,
        n,
    );
    assert(checked_rounds(challenges, proof2) == n);
}

} // verus!
