//! Tests of what the verifier asks of its inputs before it runs: that the
//! values are well formed and fit the machine and the field, and that the
//! verifier comes to no division by an element without inverse.
use crate::field::extension_field::{flatten, FieldExtension};
use crate::field::field_types::{
    all_canonical, all_wf, is_inverse, is_unit, pow_spec, sub_spec, Field, FieldOps, RichField,
};
use crate::fri::{lemma_shift_is_pow2, lemma_sum_prefix_monotonic, sum_prefix, FriParams};
use crate::fri::error::FriError;
use crate::fri::fri_proof::{
    caps_wf, initial_tree_proof_wf, proof_wf, query_round_wf, FriChallenges, FriInitialTreeProof,
    FriProof, FriQueryRound,
};
use crate::fri::native_verifier::{
    blinding_fits, checked_rounds, combined_batches, compute_evaluation, first_layer_failure,
    first_round_failure, folding_is_well_posed, folding_well_posed, fri_combine_initial,
    fri_inputs_wf, fri_reaches_units, fri_verifier_query_round, fri_verify_initial_proof,
    fri_verify_initial_proof_spec, fri_verify_proof_of_work, fri_well_posed, indices_within_domain,
    layer_authentic, layer_consistent, layer_failure, layers_well_posed, lemma_arity_bits_bound,
    lemma_first_layer_failure_stays, lemma_first_round_failure_stays, lemma_instance_view,
    openings_fit, proof_of_work_ok, query_inputs, query_reaches_units, query_well_posed,
    quotients_well_posed, reduced_openings_spec, round_inputs, verify_fri_proof,
    verify_fri_proof_spec, walk_eval, walk_index, walk_index_within_coset, walk_x,
    PrecomputedReducedOpenings, QueryInputs,
};
use crate::fri::structure::{
    salt_size_spec, FriBatchInfo, FriInstanceInfo, FriOpenings, FriOracleInfo,
};
use crate::fri::validate_shape::{
    leaf_shape_ok, proof_shape_ok, round_shape_ok, step_shape_ok, validate_fri_proof_shape,
};
use crate::fri::views::caps_view;
use crate::hash::merkle_proofs::{
    all_hash_wf, all_hashes_wf, verify_merkle_proof_to_cap, Hasher, MerkleCap,
};
use crate::util::{lemma_log2_floor_pow2, lemma_reverse_low_bits_bound, log2_strict, reverse_bits};
use vstd::arithmetic::power2::{lemma_pow2_pos, lemma_pow2_strictly_increases, pow2};
use vstd::prelude::*;

verus! {

/// Whether the parameters fit together, fit the machine, and ask for a domain
/// within the two-adic subgroup of the field.
pub fn params_fit<F: Field>(params: &FriParams) -> (r: bool)
    ensures
        r == (params.wf() && params.lde_bits_spec() <= F::two_adicity_spec()),
{
    proof {
        vstd::layout::unsigned_int_max_values();
    }
    let lde_bits = match params.degree_bits.checked_add(params.config.rate_bits) {
        Some(bits) => bits,
        None => {
            return false;
        },
    };
    if lde_bits >= usize::BITS as usize || params.config.cap_height > lde_bits || lde_bits
        > F::two_adicity() {
        return false;
    }
    let n = params.reduction_arity_bits.len();
    let mut total: usize = 0;
    let mut i: usize = 0;
    while i < n
        invariant
            i <= n,
            n == params.reduction_arity_bits@.len(),
            total == sum_prefix(params.reduction_arity_bits@, i as nat),
            total <= params.degree_bits,
        decreases n - i,
    {
        let arity_bits = params.reduction_arity_bits[i];
        if arity_bits > params.degree_bits - total {
            proof {
                lemma_sum_prefix_monotonic(params.reduction_arity_bits@, i as nat, n as nat);
            }
            return false;
        }
        total = total + arity_bits;
        i = i + 1;
    }
    true
}

/// Whether the point of the batch is canonical and every polynomial names a
/// place in one of the oracles.
pub fn batch_is_wf<E: Field>(batch: &FriBatchInfo<E>, oracles: &[FriOracleInfo]) -> (r: bool)
    ensures
        r == batch.wf(oracles@),
{
    if !batch.point.is_canonical() {
        return false;
    }
    let n = batch.polynomials.len();
    let mut i: usize = 0;
    while i < n
        invariant
            i <= n,
            n == batch.polynomials@.len(),
            forall|k: int|
                0 <= k < i ==> {
                    let p = #[trigger] batch.polynomials@[k];
                    p.oracle_index < oracles@.len() && p.polynomial_index
                        < oracles@[p.oracle_index as int].num_polys
                },
        decreases n - i,
    {
        let p = batch.polynomials[i];
        if p.oracle_index >= oracles.len() {
            return false;
        }
        if p.polynomial_index >= oracles[p.oracle_index].num_polys {
            return false;
        }
        i = i + 1;
    }
    true
}

/// Whether every batch of the instance is well formed.
pub fn instance_is_wf<E: Field>(instance: &FriInstanceInfo<E>) -> (r: bool)
    ensures
        r == instance.wf(),
{
    let n = instance.batches.len();
    let mut k: usize = 0;
    while k < n
        invariant
            k <= n,
            n == instance.batches@.len(),
            forall|b: int| 0 <= b < k ==> (#[trigger] instance.batches@[b]).wf(instance.oracles@),
        decreases n - k,
    {
        if !batch_is_wf(&instance.batches[k], instance.oracles.as_slice()) {
            return false;
        }
        k = k + 1;
    }
    true
}

/// Whether the numbers of the blinding polynomials fit the machine and the
/// field.
pub fn blinding_fit<E: Field>(instance: &FriInstanceInfo<E>, params: &FriParams) -> (r: bool)
    ensures
        r == blinding_fits(instance@, *params),
{
    if params.hiding && instance.batches.len() > 0 {
        let count = instance.batches[0].polynomials.len();
        proof {
            assert(instance@.polynomials[0] == instance.batches@[0].polynomials@);
            vstd::layout::unsigned_int_max_values();
        }
        count.checked_mul(params.degree_bits).is_some() && count as u64 <= E::characteristic()
    } else {
        true
    }
}

/// Whether every claimed value is canonical and, in zero-knowledge mode, the
/// first batch holds the values of the blinding polynomials.
pub fn openings_are_wf<E: Field>(openings: &FriOpenings<E>, is_zk: bool) -> (r: bool)
    ensures
        r == (openings.wf() && openings_fit(openings@, is_zk)),
{
    let n = openings.batches.len();
    proof {
        if n > 0 {
            assert(openings@[0] == openings.batches@[0].values@);
        }
    }
    if is_zk && n > 0 && openings.batches[0].values.len() < 2 {
        return false;
    }
    let mut k: usize = 0;
    while k < n
        invariant
            k <= n,
            n == openings.batches@.len(),
            forall|b: int| 0 <= b < k ==> all_wf((#[trigger] openings.batches@[b]).values@),
        decreases n - k,
    {
        if !all_canonical(openings.batches[k].values.as_slice()) {
            return false;
        }
        k = k + 1;
    }
    true
}

/// Whether the challenges are canonical and there is a folding challenge for
/// every reduction.
pub fn challenges_are_wf<F: Field, E: Field>(
    challenges: &FriChallenges<F, E>,
    arity_bits: &[usize],
) -> (r: bool)
    ensures
        r == challenges.wf(arity_bits@),
{
    challenges.fri_alpha.is_canonical() && all_canonical(challenges.fri_betas.as_slice())
        && challenges.fri_betas.len() >= arity_bits.len()
        && challenges.fri_pow_response.is_canonical()
}

/// Whether every query index numbers a point of the evaluation domain.
pub fn indices_are_within_domain(indices: &[usize], params: &FriParams) -> (r: bool)
    requires
        params.wf(),
    ensures
        r == indices_within_domain(indices@, *params),
{
    let n = params.lde_size();
    let mut i: usize = 0;
    while i < indices.len()
        invariant
            i <= indices@.len(),
            n == pow2(params.lde_bits_spec()),
            forall|k: int| 0 <= k < i ==> #[trigger] indices@[k] < pow2(params.lde_bits_spec()),
        decreases indices@.len() - i,
    {
        if indices[i] >= n {
            return false;
        }
        i = i + 1;
    }
    true
}

/// Whether the digests of all caps are in canonical form.
pub fn caps_are_wf<F: Field, H: Hasher<F>>(caps: &[MerkleCap<H::Hash>]) -> (r: bool)
    ensures
        r == caps_wf::<F, H>(caps@),
{
    let mut i: usize = 0;
    while i < caps.len()
        invariant
            i <= caps@.len(),
            forall|k: int| 0 <= k < i ==> all_hash_wf::<F, H>((#[trigger] caps@[k]).0@),
        decreases caps@.len() - i,
    {
        if !all_hashes_wf::<F, H>(caps[i].0.as_slice()) {
            return false;
        }
        i = i + 1;
    }
    true
}

/// Whether the leaves and paths of the initial openings are canonical.
pub fn initial_tree_proof_is_wf<F: Field, H: Hasher<F>>(
    p: &FriInitialTreeProof<F, H::Hash>,
) -> (r: bool)
    ensures
        r == initial_tree_proof_wf::<F, H>(*p),
{
    let n = p.evals_proofs.len();
    let mut o: usize = 0;
    while o < n
        invariant
            o <= n,
            n == p.evals_proofs@.len(),
            forall|k: int|
                0 <= k < o ==> all_wf((#[trigger] p.evals_proofs@[k]).0@) && all_hash_wf::<F, H>(
                    p.evals_proofs@[k].1.siblings@,
                ),
        decreases n - o,
    {
        let entry = &p.evals_proofs[o];
        if !all_canonical(entry.0.as_slice()) {
            return false;
        }
        if !all_hashes_wf::<F, H>(entry.1.siblings.as_slice()) {
            return false;
        }
        o = o + 1;
    }
    true
}

/// Whether the field elements and digests of a query round are canonical.
pub fn query_round_is_wf<F: Field, E: Field, H: Hasher<F>>(
    q: &FriQueryRound<F, E, H::Hash>,
) -> (r: bool)
    ensures
        r == query_round_wf::<F, E, H>(*q),
{
    if !initial_tree_proof_is_wf::<F, H>(&q.initial_trees_proof) {
        return false;
    }
    let n = q.steps.len();
    let mut i: usize = 0;
    while i < n
        invariant
            i <= n,
            n == q.steps@.len(),
            forall|k: int|
                0 <= k < i ==> all_wf((#[trigger] q.steps@[k]).evals@) && all_hash_wf::<F, H>(
                    q.steps@[k].merkle_proof.siblings@,
                ),
        decreases n - i,
    {
        let step = &q.steps[i];
        if !all_canonical(step.evals.as_slice()) {
            return false;
        }
        if !all_hashes_wf::<F, H>(step.merkle_proof.siblings.as_slice()) {
            return false;
        }
        i = i + 1;
    }
    true
}

/// Whether the field elements and digests of a proof are canonical.
pub fn proof_is_wf<F: Field, E: Field, H: Hasher<F>>(p: &FriProof<F, E, H::Hash>) -> (r: bool)
    ensures
        r == proof_wf::<F, E, H>(*p),
{
    if !caps_are_wf::<F, H>(p.commit_phase_merkle_caps.as_slice()) {
        return false;
    }
    let n = p.query_round_proofs.len();
    let mut i: usize = 0;
    while i < n
        invariant
            i <= n,
            n == p.query_round_proofs@.len(),
            forall|k: int|
                0 <= k < i ==> query_round_wf::<F, E, H>(#[trigger] p.query_round_proofs@[k]),
        decreases n - i,
    {
        if !query_round_is_wf::<F, E, H>(&p.query_round_proofs[i]) {
            return false;
        }
        i = i + 1;
    }
    all_canonical(p.final_poly.coeffs.as_slice()) && p.pow_witness.is_canonical()
}

/// Whether the values handed to the verifier are well formed and fit the
/// machine and the field.
pub fn fri_inputs_are_wf<F: Field, E: FieldExtension<F>, H: Hasher<F>>(
    instance: &FriInstanceInfo<E>,
    openings: &FriOpenings<E>,
    challenges: &FriChallenges<F, E>,
    initial_merkle_caps: &[MerkleCap<H::Hash>],
    proof: &FriProof<F, E, H::Hash>,
    params: &FriParams,
) -> (r: bool)
    ensures
        r == fri_inputs_wf::<F, E, H>(
            *instance,
            *openings,
            *challenges,
            initial_merkle_caps@,
            *proof,
            *params,
        ),
{
    params_fit::<F>(params) && instance_is_wf(instance) && blinding_fit(instance, params)
        && openings_are_wf(openings, params.hiding) && challenges_are_wf(
        challenges,
        params.reduction_arity_bits.as_slice(),
    ) && indices_are_within_domain(challenges.fri_query_indices.as_slice(), params)
        && caps_are_wf::<F, H>(initial_merkle_caps) && proof_is_wf::<F, E, H>(proof)
}

/// Whether the query at `x_index` divides only by units: the domain point is
/// at a distance with an inverse from the point of each of the first
/// `batches` batches, and every folding step interpolates through distinct
/// points at a challenge away from them.
pub fn query_is_well_posed<F: RichField, E: FieldExtension<F>>(
    instance: &FriInstanceInfo<E>,
    batches: usize,
    betas: &[E],
    params: &FriParams,
    x_index: usize,
) -> (r: bool)
    requires
        params.wf(),
        params.lde_bits_spec() <= F::two_adicity_spec(),
        instance.wf(),
        batches <= instance.batches@.len(),
        all_wf(betas@),
        betas@.len() >= params.reduction_arity_bits@.len(),
    ensures
        r == query_well_posed::<F, E>(
            instance@.points,
            batches as nat,
            betas@,
            *params,
            x_index as nat,
        ),
{
    let ghost x0 = x_index as nat;
    let log_n = params.lde_bits();
    proof {
        lemma_reverse_low_bits_bound(x0, log_n as nat);
    }
    let mut subgroup_x = F::multiplicative_group_generator().mul(
        F::primitive_root_of_unity(log_n).exp_u64(reverse_bits(x_index, log_n) as u64),
    );
    if !quotients_are_well_posed::<F, E>(instance, batches, subgroup_x) {
        return false;
    }
    let mut index = x_index;
    let layers = params.reduction_arity_bits.len();
    let mut i: usize = 0;
    while i < layers
        invariant
            i <= layers,
            layers == params.reduction_arity_bits@.len(),
            x0 == x_index as nat,
            params.wf(),
            params.lde_bits_spec() <= F::two_adicity_spec(),
            all_wf(betas@),
            betas@.len() >= layers,
            subgroup_x.wf(),
            subgroup_x == walk_x::<F>(*params, x0, i as nat),
            index == walk_index(*params, x0, i as nat),
            quotients_well_posed::<F, E>(
                instance@.points,
                walk_x::<F>(*params, x0, 0),
                batches as nat,
            ),
            layers_well_posed::<F, E>(betas@, *params, x0, i as nat),
        decreases layers - i,
    {
        let arity_bits = params.reduction_arity_bits[i];
        proof {
            lemma_arity_bits_bound(*params, i as int);
            lemma_shift_is_pow2(arity_bits);
            lemma_pow2_pos(arity_bits as nat);
            assert(walk_index_within_coset(*params, x0, i as int) == index as nat % pow2(
                arity_bits as nat,
            ));
            assert(walk_index(*params, x0, (i + 1) as nat) == index as nat / pow2(
                arity_bits as nat,
            ));
            assert(walk_x::<F>(*params, x0, (i + 1) as nat) == crate::field::field_types::pow_spec(
                subgroup_x,
                pow2(arity_bits as nat),
            ));
        }
        let arity = 1usize << arity_bits;
        let x_index_within_coset = index % arity;
        if !folding_is_well_posed::<F, E>(subgroup_x, x_index_within_coset, arity_bits, betas[i]) {
            proof {
                assert(!folding_well_posed::<F, E>(
                    walk_x::<F>(*params, x0, i as nat),
                    walk_index_within_coset(*params, x0, i as int),
                    params.reduction_arity_bits@[i as int] as nat,
                    betas@[i as int],
                ));
            }
            return false;
        }
        subgroup_x = subgroup_x.exp_power_of_2(arity_bits);
        index = index / arity;
        i = i + 1;
    }
    true
}

/// Whether the domain point `subgroup_x` is at a distance with an inverse from
/// the point of each of the first `batches` batches.
pub fn quotients_are_well_posed<F: Field, E: FieldExtension<F>>(
    instance: &FriInstanceInfo<E>,
    batches: usize,
    subgroup_x: F,
) -> (r: bool)
    requires
        instance.wf(),
        batches <= instance.batches@.len(),
        subgroup_x.wf(),
    ensures
        r == quotients_well_posed::<F, E>(instance@.points, subgroup_x, batches as nat),
{
    let at = E::from_basefield(subgroup_x);
    let mut b: usize = 0;
    while b < batches
        invariant
            b <= batches,
            batches <= instance.batches@.len(),
            instance.wf(),
            at.wf(),
            at == E::from_basefield_spec(subgroup_x),
            quotients_well_posed::<F, E>(instance@.points, subgroup_x, b as nat),
        decreases batches - b,
    {
        proof {
            assert(instance.batches@[b as int].wf(instance.oracles@));
            assert(instance@.points[b as int] == instance.batches@[b as int].point);
        }
        let distance = at.sub(instance.batches[b].point);
        match distance.try_inverse() {
            Some(i) => {
                proof {
                    assert(is_inverse(distance, i));
                }
            },
            None => {
                proof {
                    assert(!is_unit(distance));
                    assert(!is_unit(
                        sub_spec(E::from_basefield_spec(subgroup_x), instance@.points[b as int]),
                    ));
                }
                return false;
            },
        }
        b = b + 1;
    }
    true
}

/// After a step that fails no later step is the first to fail.
pub proof fn lemma_no_step_after_failure<F: Field, E: FieldExtension<F>, H: Hasher<F>>(
    q: QueryInputs<F, E, H::Hash>,
    i: nat,
)
    requires
        first_layer_failure::<F, E, H>(q, i) is None,
        layer_failure::<F, E, H>(q, i as int) is Some,
    ensures
        forall|k: int| k > i ==> (#[trigger] first_layer_failure::<F, E, H>(q, k as nat)) is Some,
{
    assert forall|k: int| k > i implies (#[trigger] first_layer_failure::<F, E, H>(
        q,
        k as nat,
    )) is Some by {
        lemma_first_layer_failure_stays::<F, E, H>(q, i, k as nat);
    }
}

/// Whether the divisions that the query round comes to are by units: the
/// round is walked as the verifier walks it, and every division is tested
/// where the verifier would make it.
#[verifier::rlimit(100)]
pub fn query_comes_to_units<F: RichField, E: FieldExtension<F>, H: Hasher<F>>(
    instance: &FriInstanceInfo<E>,
    challenges: &FriChallenges<F, E>,
    precomputed_reduced_evals: &PrecomputedReducedOpenings<E>,
    initial_merkle_caps: &[MerkleCap<H::Hash>],
    proof: &FriProof<F, E, H::Hash>,
    x_index: usize,
    n: usize,
    round_proof: &FriQueryRound<F, E, H::Hash>,
    params: &FriParams,
    round: usize,
) -> (r: bool)
    requires
        n == pow2(params.lde_bits_spec()),
        params.wf(),
        params.lde_bits_spec() <= F::two_adicity_spec(),
        instance.wf(),
        blinding_fits(instance@, *params),
        challenges.wf(params.reduction_arity_bits@),
        all_wf(precomputed_reduced_evals.reduced_openings_at_point@),
        caps_wf::<F, H>(initial_merkle_caps@),
        proof_wf::<F, E, H>(*proof),
        query_round_wf::<F, E, H>(*round_proof),
        proof.commit_phase_merkle_caps@.len() == params.reduction_arity_bits@.len(),
        round_shape_ok(round_proof@, instance.oracles@, *params),
    ensures
        r == query_reaches_units::<F, E, H>(
            query_inputs(
                *instance,
                *challenges,
                precomputed_reduced_evals.reduced_openings_at_point@,
                initial_merkle_caps@,
                *proof,
                x_index as nat,
                *round_proof,
                *params,
                round,
            ),
        ),
{
    let ghost q = query_inputs(
        *instance,
        *challenges,
        precomputed_reduced_evals.reduced_openings_at_point@,
        initial_merkle_caps@,
        *proof,
        x_index as nat,
        *round_proof,
        *params,
        round,
    );
    let ghost x0 = x_index as nat;
    match fri_verify_initial_proof::<F, H>(
        x_index,
        &round_proof.initial_trees_proof,
        initial_merkle_caps,
        round,
    ) {
        Err(_) => {
            // nothing is divided where the initial openings fail
            return true;
        },
        Ok(_) => {},
    }
    // `subgroup_x` is `subgroup[x_index]`, i.e., the actual field element in the domain.
    proof {
        assert(crate::util::is_power_of_two(n as nat));
        lemma_log2_floor_pow2(params.lde_bits_spec());
        lemma_shift_is_pow2(params.lde_bits_spec() as usize);
        lemma_reverse_low_bits_bound(x_index as nat, params.lde_bits_spec());
    }
    let log_n = log2_strict(n);
    proof {
        if log_n as nat != params.lde_bits_spec() {
            if (log_n as nat) < params.lde_bits_spec() {
                lemma_pow2_strictly_increases(log_n as nat, params.lde_bits_spec());
            } else {
                lemma_pow2_strictly_increases(params.lde_bits_spec(), log_n as nat);
            }
        }
    }
    let mut subgroup_x = F::multiplicative_group_generator().mul(
        F::primitive_root_of_unity(log_n).exp_u64(reverse_bits(x_index, log_n) as u64),
    );
    proof {
        let leaves = round_proof.initial_trees_proof@.leaves;
        assert(leaves == round_proof@.initial.leaves);
        assert forall|o: int| 0 <= o < instance.oracles@.len() implies (#[trigger] leaves[o]).len()
            == instance.oracles@[o].num_polys + salt_size_spec(
            instance.oracles@[o].blinding && params.hiding,
        ) by {
            assert(leaf_shape_ok(
                round_proof@.initial.leaves[o],
                round_proof@.initial.siblings[o],
                instance.oracles@[o],
                *params,
            ));
        }
        assert forall|o: int| 0 <= o < leaves.len() implies all_wf(#[trigger] leaves[o]) by {
            assert(all_wf(round_proof.initial_trees_proof.evals_proofs@[o].0@));
        }
    }
    let batches = if instance.batches.len()
        <= precomputed_reduced_evals.reduced_openings_at_point.len() {
        instance.batches.len()
    } else {
        precomputed_reduced_evals.reduced_openings_at_point.len()
    };
    proof {
        lemma_instance_view(*instance);
    }
    if !quotients_are_well_posed::<F, E>(instance, batches, subgroup_x) {
        return false;
    }
    let mut old_eval = fri_combine_initial::<F, E, H::Hash>(
        instance,
        &round_proof.initial_trees_proof,
        challenges.fri_alpha,
        subgroup_x,
        precomputed_reduced_evals,
        params,
    );
    let mut index = x_index;
    let layers = params.reduction_arity_bits.len();
    let mut i: usize = 0;
    while i < layers
        invariant
            i <= layers,
            layers == params.reduction_arity_bits@.len(),
            x0 == x_index as nat,
            q == query_inputs(
                *instance,
                *challenges,
                precomputed_reduced_evals.reduced_openings_at_point@,
                initial_merkle_caps@,
                *proof,
                x0,
                *round_proof,
                *params,
                round,
            ),
            params.wf(),
            params.lde_bits_spec() <= F::two_adicity_spec(),
            challenges.wf(params.reduction_arity_bits@),
            proof_wf::<F, E, H>(*proof),
            query_round_wf::<F, E, H>(*round_proof),
            proof.commit_phase_merkle_caps@.len() == params.reduction_arity_bits@.len(),
            round_shape_ok(round_proof@, instance.oracles@, *params),
            quotients_well_posed::<F, E>(
                q.instance.points,
                walk_x::<F>(q.params, q.x_index, 0),
                combined_batches(q.instance, q.reduced_openings),
            ),
            forall|k: int|
                0 <= k < i && first_layer_failure::<F, E, H>(q, k as nat) is None
                    && layer_consistent(q, k) ==> folding_well_posed::<F, E>(
                    walk_x::<F>(q.params, q.x_index, k as nat),
                    #[trigger] walk_index_within_coset(q.params, q.x_index, k),
                    q.params.reduction_arity_bits@[k] as nat,
                    q.betas[k],
                ),
            fri_verify_initial_proof_spec::<F, H>(
                x0,
                round_proof@.initial,
                caps_view(initial_merkle_caps@),
                round,
            ) is Ok,
            subgroup_x.wf(),
            old_eval.wf(),
            subgroup_x == walk_x::<F>(*params, x0, i as nat),
            index == walk_index(*params, x0, i as nat),
            old_eval == walk_eval(q, i as nat),
            first_layer_failure::<F, E, H>(q, i as nat) is None,
        decreases layers - i,
    {
        let arity_bits = params.reduction_arity_bits[i];
        proof {
            lemma_arity_bits_bound(*params, i as int);
            lemma_shift_is_pow2(arity_bits);
            lemma_pow2_pos(arity_bits as nat);
            assert(round_proof@.step_evals[i as int] == round_proof.steps@[i as int].evals@);
            assert(round_proof@.step_siblings[i as int]
                == round_proof.steps@[i as int].merkle_proof.siblings@);
            assert(proof@.commit_caps[i as int] == proof.commit_phase_merkle_caps@[i as int].0@);
            assert(step_shape_ok(
                round_proof@.step_evals[i as int],
                round_proof@.step_siblings[i as int],
                *params,
                i as int,
            ));
            assert(all_wf(round_proof.steps@[i as int].evals@));
            assert(all_hash_wf::<F, H>(round_proof.steps@[i as int].merkle_proof.siblings@));
            assert(all_hash_wf::<F, H>(proof.commit_phase_merkle_caps@[i as int].0@));
            assert(walk_index_within_coset(*params, x0, i as int) == index as nat % pow2(
                arity_bits as nat,
            ));
            assert(walk_index(*params, x0, (i + 1) as nat) == index as nat / pow2(
                arity_bits as nat,
            ));
            assert(walk_x::<F>(*params, x0, (i + 1) as nat) == pow_spec(
                subgroup_x,
                pow2(arity_bits as nat),
            ));
        }
        let arity = 1usize << arity_bits;
        let evals = &round_proof.steps[i].evals;
        // Split x_index into the index of the coset x is in, and the index of x
        // within that coset.
        let coset_index = index / arity;
        let x_index_within_coset = index % arity;
        // Check consistency with our old evaluation from the previous round.
        if !evals[x_index_within_coset].equals(&old_eval) {
            proof {
                assert(!layer_consistent(q, i as int));
                lemma_no_step_after_failure::<F, E, H>(q, i as nat);
            }
            return true;
        }
        if !folding_is_well_posed::<F, E>(
            subgroup_x,
            x_index_within_coset,
            arity_bits,
            challenges.fri_betas[i],
        ) {
            proof {
                assert(layer_consistent(q, i as int));
                assert(!folding_well_posed::<F, E>(
                    walk_x::<F>(q.params, q.x_index, i as nat),
                    walk_index_within_coset(q.params, q.x_index, i as int),
                    q.params.reduction_arity_bits@[i as int] as nat,
                    q.betas[i as int],
                ));
            }
            return false;
        }
        old_eval = compute_evaluation::<F, E>(
            subgroup_x,
            x_index_within_coset,
            arity_bits,
            evals.as_slice(),
            challenges.fri_betas[i],
        );
        let flat = flatten::<F, E>(evals.as_slice());
        if !verify_merkle_proof_to_cap::<F, H>(
            flat.as_slice(),
            coset_index,
            &proof.commit_phase_merkle_caps[i],
            &round_proof.steps[i].merkle_proof,
        ) {
            proof {
                assert(layer_consistent(q, i as int));
                assert(!layer_authentic::<F, E, H>(q, i as int));
                lemma_no_step_after_failure::<F, E, H>(q, i as nat);
            }
            return true;
        }
        proof {
            assert(layer_failure::<F, E, H>(q, i as int) is None);
        }
        // Update the point x to x^arity.
        subgroup_x = subgroup_x.exp_power_of_2(arity_bits);
        index = coset_index;
        i = i + 1;
    }
    true
}

/// Whether every query divides only by units.
pub fn fri_is_well_posed<F: RichField, E: FieldExtension<F>>(
    instance: &FriInstanceInfo<E>,
    openings: &FriOpenings<E>,
    challenges: &FriChallenges<F, E>,
    params: &FriParams,
) -> (r: bool)
    requires
        params.wf(),
        params.lde_bits_spec() <= F::two_adicity_spec(),
        instance.wf(),
        challenges.wf(params.reduction_arity_bits@),
    ensures
        r == fri_well_posed::<F, E>(instance@, openings@, challenges@, *params),
{
    let batches = if instance.batches.len() <= openings.batches.len() {
        instance.batches.len()
    } else {
        openings.batches.len()
    };
    let n = challenges.fri_query_indices.len();
    let mut round: usize = 0;
    while round < n
        invariant
            round <= n,
            n == challenges.fri_query_indices@.len(),
            n == challenges@.query_indices.len(),
            params.wf(),
            params.lde_bits_spec() <= F::two_adicity_spec(),
            instance.wf(),
            challenges.wf(params.reduction_arity_bits@),
            batches <= instance.batches@.len(),
            batches == combined_batches(
                instance@,
                reduced_openings_spec(openings@, challenges@.alpha, params.hiding),
            ),
            challenges@.betas == challenges.fri_betas@,
            forall|r: int|
                0 <= r < round ==> query_well_posed::<F, E>(
                    instance@.points,
                    batches as nat,
                    challenges@.betas,
                    *params,
                    #[trigger] challenges@.query_indices[r],
                ),
        decreases n - round,
    {
        proof {
            assert(challenges@.query_indices[round as int]
                == challenges.fri_query_indices@[round as int] as nat);
        }
        if !query_is_well_posed::<F, E>(
            instance,
            batches,
            challenges.fri_betas.as_slice(),
            params,
            challenges.fri_query_indices[round],
        ) {
            return false;
        }
        round = round + 1;
    }
    true
}

/// Whether the divisions that the verifier comes to are by units: the
/// rounds are gone through as the verifier goes through them, up to the first
/// that fails.
#[verifier::rlimit(100)]
pub fn fri_comes_to_units<F: RichField, E: FieldExtension<F>, H: Hasher<F>>(
    instance: &FriInstanceInfo<E>,
    openings: &FriOpenings<E>,
    challenges: &FriChallenges<F, E>,
    initial_merkle_caps: &[MerkleCap<H::Hash>],
    proof: &FriProof<F, E, H::Hash>,
    params: &FriParams,
) -> (r: bool)
    requires
        fri_inputs_wf::<F, E, H>(
            *instance,
            *openings,
            *challenges,
            initial_merkle_caps@,
            *proof,
            *params,
        ),
    ensures
        r == fri_reaches_units::<F, E, H>(
            instance@,
            openings@,
            challenges@,
            caps_view(initial_merkle_caps@),
            proof@,
            *params,
        ),
{
    match validate_fri_proof_shape::<F, E, H::Hash>(proof, instance, params) {
        Err(_) => {
            return true;
        },
        Ok(_) => {},
    }
    let n = params.lde_size();
    match fri_verify_proof_of_work::<F>(challenges.fri_pow_response, &params.config) {
        Err(_) => {
            return true;
        },
        Ok(_) => {},
    }
    let precomputed_reduced_evals = PrecomputedReducedOpenings::from_os_and_alpha(
        openings,
        challenges.fri_alpha,
        params.hiding,
    );
    let rounds = if challenges.fri_query_indices.len() <= proof.query_round_proofs.len() {
        challenges.fri_query_indices.len()
    } else {
        proof.query_round_proofs.len()
    };
    let ghost cv = caps_view(initial_merkle_caps@);
    let mut round: usize = 0;
    while round < rounds
        invariant
            round <= rounds,
            rounds == checked_rounds(challenges@, proof@),
            rounds <= challenges.fri_query_indices@.len(),
            rounds <= proof.query_round_proofs@.len(),
            cv == caps_view(initial_merkle_caps@),
            n == pow2(params.lde_bits_spec()),
            fri_inputs_wf::<F, E, H>(
                *instance,
                *openings,
                *challenges,
                initial_merkle_caps@,
                *proof,
                *params,
            ),
            proof_shape_ok(proof@, instance.oracles@, *params),
            proof_of_work_ok(challenges.fri_pow_response, params.config),
            precomputed_reduced_evals.reduced_openings_at_point@ == reduced_openings_spec(
                openings@,
                challenges.fri_alpha,
                params.hiding,
            ),
            all_wf(precomputed_reduced_evals.reduced_openings_at_point@),
            first_round_failure::<F, E, H>(
                instance@,
                openings@,
                challenges@,
                cv,
                proof@,
                *params,
                round as nat,
            ) is None,
            forall|k: int|
                0 <= k < round ==> query_reaches_units::<F, E, H>(
                    #[trigger] round_inputs(instance@, openings@, challenges@, cv, proof@, *params, k),
                ),
        decreases rounds - round,
    {
        let x_index = challenges.fri_query_indices[round];
        let round_proof = &proof.query_round_proofs[round];
        proof {
            assert(query_round_wf::<F, E, H>(proof.query_round_proofs@[round as int]));
            assert(proof@.rounds[round as int] == proof.query_round_proofs@[round as int]@);
            assert(round_shape_ok(proof@.rounds[round as int], instance.oracles@, *params));
            assert(challenges@.query_indices[round as int]
                == challenges.fri_query_indices@[round as int] as nat);
            assert(proof@.commit_caps.len() == proof.commit_phase_merkle_caps@.len());
            assert(query_inputs(
                *instance,
                *challenges,
                precomputed_reduced_evals.reduced_openings_at_point@,
                initial_merkle_caps@,
                *proof,
                x_index as nat,
                *round_proof,
                *params,
                round,
            ) == round_inputs(instance@, openings@, challenges@, cv, proof@, *params, round as int));
        }
        if !query_comes_to_units::<F, E, H>(
            instance,
            challenges,
            &precomputed_reduced_evals,
            initial_merkle_caps,
            proof,
            x_index,
            n,
            round_proof,
            params,
            round,
        ) {
            return false;
        }
        match fri_verifier_query_round::<F, E, H>(
            instance,
            challenges,
            &precomputed_reduced_evals,
            initial_merkle_caps,
            proof,
            x_index,
            n,
            round_proof,
            params,
            round,
        ) {
            Err(_) => {
                proof {
                    // no later round is reached
                    assert forall|k: int|
                        round < k < rounds implies (#[trigger] first_round_failure::<F, E, H>(
                        instance@,
                        openings@,
                        challenges@,
                        cv,
                        proof@,
                        *params,
                        k as nat,
                    )) is Some by {
                        lemma_first_round_failure_stays::<F, E, H>(
                            instance@,
                            openings@,
                            challenges@,
                            cv,
                            proof@,
                            *params,
                            round as nat,
                            k as nat,
                        );
                    }
                }
                return true;
            },
            Ok(_) => {},
        }
        round = round + 1;
    }
    true
}

/// Verifies a proof where the verifier's demands on its inputs are met, and
/// says so where they are not: `None` for inputs that are not well formed, or
/// on which the verifier would come to divide by an element without inverse.
pub fn try_verify_fri_proof<F: RichField, E: FieldExtension<F>, H: Hasher<F>>(
    instance: &FriInstanceInfo<E>,
    openings: &FriOpenings<E>,
    challenges: &FriChallenges<F, E>,
    initial_merkle_caps: &[MerkleCap<H::Hash>],
    proof: &FriProof<F, E, H::Hash>,
    params: &FriParams,
) -> (r: Option<Result<(), FriError>>)
    ensures
        r == if fri_inputs_wf::<F, E, H>(
            *instance,
            *openings,
            *challenges,
            initial_merkle_caps@,
            *proof,
            *params,
        ) && fri_reaches_units::<F, E, H>(
            instance@,
            openings@,
            challenges@,
            caps_view(initial_merkle_caps@),
            proof@,
            *params,
        ) {
            Some(
                verify_fri_proof_spec::<F, E, H>(
                    instance@,
                    openings@,
                    challenges@,
                    caps_view(initial_merkle_caps@),
                    proof@,
                    *params,
                ),
            )
        } else {
            None
        },
{
    if !fri_inputs_are_wf::<F, E, H>(
        instance,
        openings,
        challenges,
        initial_merkle_caps,
        proof,
        params,
    ) {
        return None;
    }
    if !fri_comes_to_units::<F, E, H>(
        instance,
        openings,
        challenges,
        initial_merkle_caps,
        proof,
        params,
    ) {
        return None;
    }
    Some(
        verify_fri_proof::<F, E, H>(
            instance,
            openings,
            challenges,
            initial_merkle_caps,
            proof,
            params,
        ),
    )
}

} // verus!
