//! The verifier as gates of a constraint system: the same checks as the
//! verifier over field values, appended to a circuit whose inputs hold the
//! proof, the openings and the challenges.
use crate::field::biguint::biguint_bits;
use crate::field::extension_field::{flatten_spec, FieldExtension};
use crate::field::field_types::{
    div_spec, is_unit, lemma_one_mul, lemma_pow_add, lemma_pow_mul, lemma_pow_wf,
    lemma_root_of_unity_order, pow_spec, primitive_root_of_unity_spec, sub_spec, Field, FieldOps,
    PrimeField, RichField,
};
use crate::field::interpolation::nodes_of;
use crate::fri::{lemma_shift_is_pow2, lemma_sum_prefix_monotonic, sum_prefix, FriConfig, FriParams};
use crate::fri::native_verifier::{
    batch_evals, blinding_fits, blinding_shift, blinding_sum, checked_oracles,
    combine_initial_prefix, combined_batches, compute_evaluation_spec, coset_start_spec,
    first_bad_oracle, first_layer_failure, first_round_failure, folding_nodes, folding_points,
    folding_well_posed, fri_combine_initial_spec, fri_well_posed, initial_x_spec, layers_well_posed,
    leaves_fit, lemma_arity_bits_bound, lemma_bit_length_u64, lemma_query_round_accepts,
    lemma_walk_index, openings_fit, polynomials_in_range, proof_of_work_ok, query_round_accepts,
    query_well_posed, quotiented_count, quotients_well_posed, reduced_openings_spec,
    reduced_values_count, round_inputs, verify_fri_proof_spec, walk_eval, walk_index_within_coset,
    walk_x, QueryInputs,
};
use crate::fri::proof_target::{
    caps_target_view, challenges_at, challenges_scoped, initial_tree_at, initial_tree_scoped,
    instance_at, lemma_query_index_at, proof_at, proof_scoped, query_index_at, query_round_at,
    query_round_scoped, rows_bases_at, rows_digests_at, rows_extensions_below, rows_exts_at,
    rows_hashes_below, rows_targets_below, ChallengesTargetView, FriBatchInfoTarget,
    FriChallengesTarget, FriInitialTreeProofTarget, FriInstanceInfoTarget, FriOpeningsTarget,
    FriProofTarget, FriQueryRoundTarget,
};
use crate::fri::structure::{count_r_polys, FriOracleInfo, FriPolynomialInfo, R_ORACLE_INDEX};
use crate::fri::validate_shape::{leaf_shape_ok, proof_shape_ok, round_shape_ok, step_shape_ok};
use crate::fri::views::{
    ChallengesView, FriProofView, InitialTreeView, InstanceView, QueryRoundView,
};
use crate::gates::wire_counts::{InterpolationGate, RandomAccessGate};
use crate::hash::merkle_proofs::{merkle_climb, merkle_proof_valid, Hasher};
use crate::iop::target::{
    bools_below, extensions_below, hashes_below, points_below, targets_below, BoolTarget,
    ExtensionTarget, HashOutTarget, MerkleCapTarget, MerkleProofTarget, Target,
};
use crate::plonk::bits::{
    lemma_bits_of_le_value, lemma_bits_of_remainder, lemma_bits_of_skip, lemma_div_pow2_twice,
    lemma_le_value_bound, lemma_le_value_of_bits, lemma_le_value_reversed, lemma_le_value_same_bits,
    lemma_remainder_div_pow2, lemma_small_number,
};
use crate::plonk::circuit_builder::{CircuitBuilder, CircuitConfig};
use crate::plonk::gates::{
    base_at, bases_at, bit_at, bits_of, digests_at, ext_at, exts_at, le_value, merkle_gate_holds,
    points_at, Gate, Value,
};
use crate::polynomial::polynomial::PolynomialCoeffsExtTarget;
use crate::util::{
    lemma_log2_floor_pow2, lemma_reverse_low_bits_bound, reverse_index_bits, reverse_index_bits_seq,
    reverse_low_bits,
};
use crate::util::reducing::{embedded_bases_at, reduce_spec, ReducingFactorTarget};
use vstd::arithmetic::power2::{lemma_pow2_pos, pow2};
use vstd::prelude::*;
use vstd::slice::slice_to_vec;

verus! {

/// The bits in opposite order.
pub fn reversed_bits(bits: &[BoolTarget]) -> (r: Vec<BoolTarget>)
    ensures
        r@.len() == bits@.len(),
        forall|j: int| 0 <= j < bits@.len() ==> r@[j] == bits@[bits@.len() - 1 - j],
{
    let n = bits.len();
    let mut out: Vec<BoolTarget> = Vec::with_capacity(n);
    let mut i: usize = 0;
    while i < n
        invariant
            i <= n,
            n == bits@.len(),
            out@.len() == i,
            forall|j: int| 0 <= j < i ==> out@[j] == bits@[n - 1 - j],
        decreases n - i,
    {
        out.push(bits[n - 1 - i]);
        i = i + 1;
    }
    out
}

/// A Merkle gate whose targets are targets of `old` holds in a later state of
/// the builder where it holds in `old`.
pub proof fn lemma_merkle_gate_frame<F: RichField, E: FieldExtension<F>, H: Hasher<F>>(
    new: CircuitBuilder<F, E, H>,
    old: CircuitBuilder<F, E, H>,
    inp: Seq<Value<F, E, H::Hash>>,
    leaf: Seq<F>,
    index_bits: Seq<BoolTarget>,
    cap_index: Target,
    cap: Seq<HashOutTarget>,
    siblings: Seq<HashOutTarget>,
)
    requires
        new.frames(old),
        bools_below(index_bits, old.num_gates()),
        cap_index.0 < old.num_gates(),
        hashes_below(cap, old.num_gates()),
        hashes_below(siblings, old.num_gates()),
    ensures
        merkle_gate_holds::<F, E, H>(new.wires(inp), leaf, index_bits, cap_index, cap, siblings)
            == merkle_gate_holds::<F, E, H>(
            old.wires(inp),
            leaf,
            index_bits,
            cap_index,
            cap,
            siblings,
        ),
{
    new.lemma_frame_value(old, inp, cap_index.0);
    new.lemma_frame_digests(old, inp, siblings);
    if siblings.len() <= index_bits.len() {
        new.lemma_frame_le_value(old, inp, index_bits, siblings.len());
    }
    let entry = base_at(old.wires(inp), cap_index).to_canonical_u64_spec();
    if entry < cap.len() {
        new.lemma_frame_value(old, inp, cap[entry as int].0);
    }
}

/// The leaves of the first `n` oracles authenticate, each against its cap, at
/// the index given by the bits.
pub open spec fn initial_gates_hold<F: RichField, E: FieldExtension<F>, H: Hasher<F>>(
    vals: Seq<Value<F, E, H::Hash>>,
    x_index_bits: Seq<BoolTarget>,
    proof: InitialTreeView<Target, HashOutTarget>,
    caps: Seq<Seq<HashOutTarget>>,
    cap_index: Target,
    n: nat,
) -> bool
    decreases n,
{
    n == 0 || (initial_gates_hold::<F, E, H>(
        vals,
        x_index_bits,
        proof,
        caps,
        cap_index,
        (n - 1) as nat,
    ) && merkle_gate_holds::<F, E, H>(
        vals,
        bases_at(vals, proof.leaves[n - 1]),
        x_index_bits,
        cap_index,
        caps[n - 1],
        proof.siblings[n - 1],
    ))
}

/// Number of oracles whose leaves are constrained: those that have both a leaf
/// and a cap.

/// `start` and the first `n` blinding polynomials of the first batch, each with
/// its factor, for a point given in the extension field.
pub open spec fn blinding_sum_at<F: Field, E: FieldExtension<F>>(
    polynomials: Seq<Seq<FriPolynomialInfo>>,
    leaves: Seq<Seq<F>>,
    x: E,
    degree_bits: nat,
    start: E,
    n: nat,
) -> E
    decreases n,
{
    if n == 0 {
        start
    } else {
        let at = (polynomials[0].len() - count_r_polys(polynomials[0], polynomials[0].len()) + n
            - 1) as int;
        let p = polynomials[0][at];
        blinding_sum_at::<F, E>(polynomials, leaves, x, degree_bits, start, (n - 1) as nat).add_spec(
            E::from_basefield_spec(leaves[p.oracle_index as int][p.polynomial_index as int])
                .mul_spec(blinding_shift(x, (n - 1) as nat, degree_bits)),
        )
    }
}

/// The sum of the blinding polynomials is that of the verifier over field
/// values, where the point is the embedded base-field point.
pub proof fn lemma_blinding_sum_at<F: Field, E: FieldExtension<F>>(
    instance: InstanceView<E>,
    leaves: Seq<Seq<F>>,
    subgroup_x: F,
    degree_bits: nat,
    start: E,
    n: nat,
)
    requires
        instance.polynomials.len() > 0,
        n <= count_r_polys(instance.polynomials[0], instance.polynomials[0].len()),
    ensures
        blinding_sum_at::<F, E>(
            instance.polynomials,
            leaves,
            E::from_basefield_spec(subgroup_x),
            degree_bits,
            start,
            n,
        ) == blinding_sum::<F, E>(instance, leaves, subgroup_x, degree_bits, start, n),
    decreases n,
{
    if n > 0 {
        lemma_blinding_sum_at::<F, E>(instance, leaves, subgroup_x, degree_bits, start, (n - 1) as nat);
        crate::fri::structure::lemma_count_r_polys_bound(
            instance.polynomials[0],
            instance.polynomials[0].len(),
        );
    }
}

/// For each opening point, holds the targets of the reduced (by `alpha`)
/// evaluations of each polynomial that's opened at that point.
#[derive(Clone, Debug)]
pub struct PrecomputedReducedEvalsTarget {
    pub reduced_openings_at_point: Vec<ExtensionTarget>,
}

impl PrecomputedReducedEvalsTarget {
    /// Appends the gates that combine the claimed openings of each batch with
    /// the powers of `alpha`.
    pub fn from_os_and_alpha<F: RichField, E: FieldExtension<F>, H: Hasher<F>>(
        openings: &FriOpeningsTarget,
        alpha: ExtensionTarget,
        is_zk: bool,
        builder: &mut CircuitBuilder<F, E, H>,
    ) -> (r: Self)
        requires
            alpha.0 < old(builder).num_gates(),
            rows_extensions_below(openings@, old(builder).num_gates()),
            openings_fit(openings@, is_zk),
        ensures
            final(builder).frames(*old(builder)),
            final(builder).num_inputs == old(builder).num_inputs,
            old(builder).wf() ==> final(builder).wf(),
            r.reduced_openings_at_point@.len() == openings@.len(),
            extensions_below(r.reduced_openings_at_point@, final(builder).num_gates()),
            forall|inp: Seq<Value<F, E, H::Hash>>|
                exts_at(#[trigger] final(builder).wires(inp), r.reduced_openings_at_point@)
                    == reduced_openings_spec(
                    rows_exts_at(old(builder).wires(inp), openings@),
                    ext_at(old(builder).wires(inp), alpha),
                    is_zk,
                ),
            forall|inp: Seq<Value<F, E, H::Hash>>|
                #[trigger] final(builder).satisfied(inp) == old(builder).satisfied(inp),
    {
        // We commit to two extra polynomials in the case of zk: the lower and
        // higher coefficients of the random `R` polynomial. Those should not be
        // taken into account when computing the reduced openings.
        let nb_r_polys: usize = if is_zk {
            2
        } else {
            0
        };
        let n = openings.batches.len();
        let mut reduced: Vec<ExtensionTarget> = Vec::with_capacity(n);
        let mut i: usize = 0;
        proof {
            builder.lemma_frames_reflexive();
        }
        while i < n
            invariant
                i <= n,
                n == openings.batches@.len(),
                n == openings@.len(),
                alpha.0 < old(builder).num_gates(),
                rows_extensions_below(openings@, old(builder).num_gates()),
                openings_fit(openings@, is_zk),
                nb_r_polys == if is_zk {
                    2int
                } else {
                    0int
                },
                builder.frames(*old(builder)),
                builder.num_inputs == old(builder).num_inputs,
                old(builder).wf() ==> builder.wf(),
                reduced@.len() == i,
                extensions_below(reduced@, builder.num_gates()),
                forall|inp: Seq<Value<F, E, H::Hash>>|
                    exts_at(#[trigger] builder.wires(inp), reduced@) == reduced_openings_spec(
                        rows_exts_at(old(builder).wires(inp), openings@),
                        ext_at(old(builder).wires(inp), alpha),
                        is_zk,
                    ).take(i as int),
                forall|inp: Seq<Value<F, E, H::Hash>>|
                    #[trigger] builder.satisfied(inp) == old(builder).satisfied(inp),
            decreases n - i,
        {
            let batch = &openings.batches[i];
            proof {
                assert(openings@[i as int] == batch.values@);
                assert(openings@[0] == openings.batches@[0].values@);
                assert(extensions_below(openings@[i as int], old(builder).num_gates()));
            }
            let last_values = batch.values.len() - if i == 0 {
                nb_r_polys
            } else {
                0
            };
            let values = vstd::slice::slice_subrange(batch.values.as_slice(), 0, last_values);
            let ghost before = *builder;
            let ghost had = reduced@;
            let mut factor = ReducingFactorTarget::new(alpha);
            let value = factor.reduce(values, builder);
            reduced.push(value);
            proof {
                builder.lemma_frames_transitive(before, *old(builder));
                assert forall|inp: Seq<Value<F, E, H::Hash>>|
                    exts_at(#[trigger] builder.wires(inp), reduced@) == reduced_openings_spec(
                        rows_exts_at(old(builder).wires(inp), openings@),
                        ext_at(old(builder).wires(inp), alpha),
                        is_zk,
                    ).take(i + 1) by {
                    let v0 = old(builder).wires(inp);
                    let want = reduced_openings_spec(
                        rows_exts_at(v0, openings@),
                        ext_at(v0, alpha),
                        is_zk,
                    );
                    builder.lemma_frame_exts(before, inp, had);
                    before.lemma_frame_value(*old(builder), inp, alpha.0);
                    before.lemma_frame_exts(*old(builder), inp, values@);
                    assert(exts_at(before.wires(inp), had) == want.take(i as int));
                    let rows = rows_exts_at(v0, openings@);
                    assert(rows[i as int] == exts_at(v0, batch.values@));
                    assert(exts_at(v0, values@) =~= rows[i as int].take(last_values as int));
                    assert(reduced_values_count(rows, is_zk, i as int) == last_values);
                    let got = exts_at(builder.wires(inp), reduced@);
                    assert forall|k: int| 0 <= k < i + 1 implies got[k] == want.take(i + 1)[k] by {
                        if k < i {
                            assert(exts_at(builder.wires(inp), had)[k] == want.take(i as int)[k]);
                        }
                    }
                    assert(got =~= want.take(i + 1));
                }
            }
            i = i + 1;
        }
        proof {
            assert forall|inp: Seq<Value<F, E, H::Hash>>|
                exts_at(#[trigger] builder.wires(inp), reduced@) == reduced_openings_spec(
                    rows_exts_at(old(builder).wires(inp), openings@),
                    ext_at(old(builder).wires(inp), alpha),
                    is_zk,
                ) by {
                let want = reduced_openings_spec(
                    rows_exts_at(old(builder).wires(inp), openings@),
                    ext_at(old(builder).wires(inp), alpha),
                    is_zk,
                );
                assert(want.take(n as int) =~= want);
                assert(exts_at(builder.wires(inp), reduced@) == want.take(i as int));
            }
        }
        PrecomputedReducedEvalsTarget { reduced_openings_at_point: reduced }
    }
}

/// Rows of targets below `m` are below every `n` from `m` on.
pub proof fn lemma_rows_targets_below(rows: Seq<Seq<Target>>, m: nat, n: nat)
    requires
        rows_targets_below(rows, m),
        m <= n,
    ensures
        rows_targets_below(rows, n),
{
    assert forall|i: int| 0 <= i < rows.len() implies targets_below(#[trigger] rows[i], n) by {
        assert(targets_below(rows[i], m));
    }
}

/// The instance and the leaves that targets of `old` hold are in a later state
/// of the builder what they are in `old`.
pub proof fn lemma_frame_combine_inputs<F: RichField, E: FieldExtension<F>, H: Hasher<F>>(
    new: CircuitBuilder<F, E, H>,
    old: CircuitBuilder<F, E, H>,
    inp: Seq<Value<F, E, H::Hash>>,
    instance: InstanceView<ExtensionTarget>,
    leaves: Seq<Seq<Target>>,
)
    requires
        new.frames(old),
        extensions_below(instance.points, old.num_gates()),
        rows_targets_below(leaves, old.num_gates()),
    ensures
        instance_at(new.wires(inp), instance) == instance_at(old.wires(inp), instance),
        rows_bases_at(new.wires(inp), leaves) == rows_bases_at(old.wires(inp), leaves),
{
    new.lemma_frame_exts(old, inp, instance.points);
    assert forall|o: int| 0 <= o < leaves.len() implies bases_at(new.wires(inp), leaves[o])
        == bases_at(old.wires(inp), leaves[o]) by {
        assert(targets_below(leaves[o], old.num_gates()));
        new.lemma_frame_bases(old, inp, leaves[o]);
    }
    assert(rows_bases_at(new.wires(inp), leaves) =~= rows_bases_at(old.wires(inp), leaves));
}

/// The climb from a node depends on the low bits of its index only: as many as
/// there are levels to climb.
pub proof fn lemma_climb_low_bits<F: Field, H: Hasher<F>>(
    current: H::Hash,
    index: nat,
    siblings: Seq<H::Hash>,
)
    ensures
        merkle_climb::<F, H>(current, index % pow2(siblings.len()), siblings) == merkle_climb::<
            F,
            H,
        >(current, index, siblings),
    decreases siblings.len(),
{
    let k = siblings.len();
    lemma_pow2_pos(k);
    if k > 0 {
        let k1 = (k - 1) as nat;
        lemma_pow2_pos(k1);
        vstd::arithmetic::power2::lemma_pow2_unfold(k);
        vstd::arithmetic::div_mod::lemma_mod_breakdown(index as int, 2, pow2(k1) as int);
        let low = index % pow2(k);
        assert(low == 2 * ((index / 2) % pow2(k1)) + index % 2);
        assert(low % 2 == index % 2);
        assert(low / 2 == (index / 2) % pow2(k1));
        let next_low = if low % 2 == 1 {
            H::two_to_one_spec(siblings[0], current)
        } else {
            H::two_to_one_spec(current, siblings[0])
        };
        lemma_climb_low_bits::<F, H>(next_low, index / 2, siblings.skip(1));
    }
}

/// A Merkle gate on the bits of `x` from bit `offset` on, with the remaining
/// bits of `x` as index into the cap, holds where the opening at index
/// `x / 2^offset` authenticates.
pub proof fn lemma_merkle_gate_parity<F: RichField, E: FieldExtension<F>, H: Hasher<F>>(
    vals: Seq<Value<F, E, H::Hash>>,
    leaf: Seq<F>,
    index_bits: Seq<BoolTarget>,
    cap_index: Target,
    cap: Seq<HashOutTarget>,
    siblings: Seq<HashOutTarget>,
    x: nat,
    offset: nat,
)
    requires
        bits_of(vals, index_bits, x, offset),
        siblings.len() <= index_bits.len(),
        base_at(vals, cap_index).to_canonical_u64_spec() == x / pow2(offset + siblings.len()),
    ensures
        merkle_gate_holds::<F, E, H>(vals, leaf, index_bits, cap_index, cap, siblings)
            == merkle_proof_valid::<F, H>(
            leaf,
            x / pow2(offset),
            digests_at(vals, cap),
            digests_at(vals, siblings),
        ),
{
    let idx = x / pow2(offset);
    lemma_pow2_pos(offset);
    lemma_le_value_of_bits(vals, index_bits, x, offset, siblings.len());
    lemma_div_pow2_twice(x, offset, siblings.len());
    lemma_climb_low_bits::<F, H>(
        H::hash_or_noop_spec(leaf),
        idx,
        digests_at(vals, siblings),
    );
}

/// What the gates of one folding step ask for: the evaluations hold the running
/// evaluation at the place that the low bits of the index give; the folding
/// divides by units only; the evaluations authenticate against the cap at the
/// index that the remaining bits give.
pub open spec fn fold_gates_hold<F: RichField, E: FieldExtension<F>, H: Hasher<F>>(
    vals: Seq<Value<F, E, H::Hash>>,
    x_index_bits: Seq<BoolTarget>,
    cap_index: Target,
    subgroup_x: Target,
    old_eval: ExtensionTarget,
    arity_bits: nat,
    evals: Seq<ExtensionTarget>,
    beta: ExtensionTarget,
    cap: Seq<HashOutTarget>,
    siblings: Seq<HashOutTarget>,
) -> bool {
    let within = le_value(vals, x_index_bits, arity_bits);
    &&& exts_at(vals, evals)[within as int] == ext_at(vals, old_eval)
    &&& folding_well_posed::<F, E>(
        base_at(vals, subgroup_x),
        within,
        arity_bits,
        ext_at(vals, beta),
    )
    &&& merkle_gate_holds::<F, E, H>(
        vals,
        flatten_spec::<F, E>(exts_at(vals, evals)),
        x_index_bits.skip(arity_bits as int),
        cap_index,
        cap,
        siblings,
    )
}

/// Bits that targets of `old` hold are in a later state of the builder the bits
/// they are in `old`.
pub proof fn lemma_bits_of_frame<F: RichField, E: FieldExtension<F>, H: Hasher<F>>(
    new: CircuitBuilder<F, E, H>,
    old: CircuitBuilder<F, E, H>,
    inp: Seq<Value<F, E, H::Hash>>,
    bits: Seq<BoolTarget>,
    x: nat,
    offset: nat,
)
    requires
        new.frames(old),
        bools_below(bits, old.num_gates()),
        bits_of(old.wires(inp), bits, x, offset),
    ensures
        bits_of(new.wires(inp), bits, x, offset),
{
    assert forall|j: int| 0 <= j < bits.len() implies bit_at(new.wires(inp), #[trigger] bits[j])
        == (x / pow2((offset + j) as nat)) % 2 by {
        new.lemma_frame_value(old, inp, bits[j].target.0);
        assert(bit_at(old.wires(inp), bits[j]) == (x / pow2((offset + j) as nat)) % 2);
    }
}

/// The state of a query after its opening: the bits are those of the index, the
/// index into the caps is the number of the high bits, the point is the point
/// of the domain with that index, and the running evaluation is the
/// combination of the opened evaluations.
pub open spec fn query_opened<F: RichField, E: FieldExtension<F>, H: Hasher<F>>(
    vals: Seq<Value<F, E, H::Hash>>,
    before: Seq<Value<F, E, H::Hash>>,
    bits: Seq<BoolTarget>,
    cap_index: Target,
    subgroup_x: Target,
    old_eval: ExtensionTarget,
    instance: InstanceView<ExtensionTarget>,
    alpha: ExtensionTarget,
    reduced: Seq<ExtensionTarget>,
    x_index: Target,
    round_proof: QueryRoundView<Target, ExtensionTarget, HashOutTarget>,
    params: FriParams,
) -> bool {
    let x = query_index_at(before, x_index, params);
    &&& bits_of(vals, bits, x, 0)
    &&& base_at(vals, cap_index).to_canonical_u64_spec() == (x / pow2(
        (params.lde_bits_spec() - params.config.cap_height) as nat,
    )) % pow2(params.config.cap_height as nat)
    &&& base_at(vals, subgroup_x) == initial_x_spec::<F>(x, params.lde_bits_spec())
    &&& ext_at(vals, old_eval) == fri_combine_initial_spec::<F, E>(
        instance_at(before, instance),
        rows_bases_at(before, round_proof.initial.leaves),
        ext_at(before, alpha),
        initial_x_spec::<F>(x, params.lde_bits_spec()),
        exts_at(before, reduced),
        params,
    )
}

/// Rows of digest targets below `m` are below every `n` from `m` on.
pub proof fn lemma_rows_hashes_below(rows: Seq<Seq<HashOutTarget>>, m: nat, n: nat)
    requires
        rows_hashes_below(rows, m),
        m <= n,
    ensures
        rows_hashes_below(rows, n),
{
    assert forall|i: int| 0 <= i < rows.len() implies hashes_below(#[trigger] rows[i], n) by {
        assert(hashes_below(rows[i], m));
    }
}

/// Targets among the outputs of the first `m` gates are among those of the
/// first `n`, for `m <= n`.
pub proof fn lemma_rows_extensions_below(rows: Seq<Seq<ExtensionTarget>>, m: nat, n: nat)
    requires
        rows_extensions_below(rows, m),
        m <= n,
    ensures
        rows_extensions_below(rows, n),
{
    assert forall|i: int| 0 <= i < rows.len() implies extensions_below(#[trigger] rows[i], n) by {
        assert(extensions_below(rows[i], m));
    }
}

/// The targets of a query round below `m` are below every `n` from `m` on.
pub proof fn lemma_query_round_scoped(
    t: QueryRoundView<Target, ExtensionTarget, HashOutTarget>,
    m: nat,
    n: nat,
)
    requires
        query_round_scoped(t, m),
        m <= n,
    ensures
        query_round_scoped(t, n),
        initial_tree_scoped(t.initial, n),
{
    lemma_rows_targets_below(t.initial.leaves, m, n);
    lemma_rows_hashes_below(t.initial.siblings, m, n);
    lemma_rows_hashes_below(t.step_siblings, m, n);
    lemma_rows_extensions_below(t.step_evals, m, n);
}

/// The gates on the initial openings hold where no oracle fails to
/// authenticate, for an index within the domain and paths that lead from the
/// domain to the caps.
pub proof fn lemma_initial_gates_parity<F: RichField, E: FieldExtension<F>, H: Hasher<F>>(
    new: CircuitBuilder<F, E, H>,
    old: CircuitBuilder<F, E, H>,
    inp: Seq<Value<F, E, H::Hash>>,
    bits: Seq<BoolTarget>,
    proof: InitialTreeView<Target, HashOutTarget>,
    caps: Seq<Seq<HashOutTarget>>,
    cap_index: Target,
    x: nat,
    params: FriParams,
    oracles: Seq<FriOracleInfo>,
    n: nat,
)
    requires
        new.frames(old),
        initial_tree_scoped(proof, old.num_gates()),
        rows_hashes_below(caps, old.num_gates()),
        bits_of(new.wires(inp), bits, x, 0),
        bits.len() == params.lde_bits_spec(),
        params.config.cap_height <= params.lde_bits_spec(),
        x < pow2(params.lde_bits_spec()),
        base_at(new.wires(inp), cap_index).to_canonical_u64_spec() == (x / pow2(
            (params.lde_bits_spec() - params.config.cap_height) as nat,
        )) % pow2(params.config.cap_height as nat),
        n <= checked_oracles(proof, caps),
        proof.leaves.len() == oracles.len(),
        proof.siblings.len() == oracles.len(),
        forall|o: int|
            0 <= o < oracles.len() ==> leaf_shape_ok(
                #[trigger] proof.leaves[o],
                proof.siblings[o],
                oracles[o],
                params,
            ),
    ensures
        initial_gates_hold::<F, E, H>(new.wires(inp), bits, proof, caps, cap_index, n)
            == first_bad_oracle::<F, H>(
            x,
            initial_tree_at(old.wires(inp), proof),
            rows_digests_at(old.wires(inp), caps),
            n,
        ) is None,
    decreases n,
{
    if n > 0 {
        let o = (n - 1) as int;
        lemma_initial_gates_parity::<F, E, H>(
            new,
            old,
            inp,
            bits,
            proof,
            caps,
            cap_index,
            x,
            params,
            oracles,
            (n - 1) as nat,
        );
        let l = params.lde_bits_spec();
        let ch = params.config.cap_height as nat;
        assert(leaf_shape_ok(proof.leaves[o], proof.siblings[o], oracles[o], params));
        let k = proof.siblings[o].len();
        assert(k + ch == l);
        // the high bits of the index number the cap's entry
        lemma_cap_entry(x, l, ch);
        crate::plonk::bits::lemma_div_pow2_zero(x);
        assert(targets_below(proof.leaves[o], old.num_gates()));
        assert(hashes_below(proof.siblings[o], old.num_gates()));
        assert(hashes_below(caps[o], old.num_gates()));
        new.lemma_frame_bases(old, inp, proof.leaves[o]);
        new.lemma_frame_digests(old, inp, proof.siblings[o]);
        new.lemma_frame_digests(old, inp, caps[o]);
        lemma_merkle_gate_parity::<F, E, H>(
            new.wires(inp),
            bases_at(new.wires(inp), proof.leaves[o]),
            bits,
            cap_index,
            caps[o],
            proof.siblings[o],
            x,
            0,
        );
    }
}

/// The number of the `ch` bits below bit `l` of a number below `2^l` is the
/// number without its `l - ch` low bits.
pub proof fn lemma_cap_entry(x: nat, l: nat, ch: nat)
    requires
        ch <= l,
        x < pow2(l),
    ensures
        (x / pow2((l - ch) as nat)) % pow2(ch) == x / pow2((l - ch) as nat),
{
    let low = (l - ch) as nat;
    lemma_pow2_pos(low);
    lemma_pow2_pos(ch);
    vstd::arithmetic::power2::lemma_pow2_adds(low, ch);
    let q = x / pow2(low);
    vstd::arithmetic::div_mod::lemma_fundamental_div_mod(x as int, pow2(low) as int);
    assert(q < pow2(ch)) by (nonlinear_arith)
        requires
            x == pow2(low) * q + x % pow2(low),
            x % pow2(low) >= 0,
            x < pow2(low) * pow2(ch),
            pow2(low) > 0,
    ;
    lemma_small_number(q, ch);
}

/// What one query round is checked against, from the values that targets hold.
pub open spec fn target_query_inputs<F: PrimeField, E: Field, D>(
    vals: Seq<Value<F, E, D>>,
    instance: InstanceView<ExtensionTarget>,
    challenges: ChallengesTargetView,
    reduced: Seq<ExtensionTarget>,
    initial_caps: Seq<Seq<HashOutTarget>>,
    proof: FriProofView<Target, ExtensionTarget, HashOutTarget>,
    x_index: Target,
    round_proof: QueryRoundView<Target, ExtensionTarget, HashOutTarget>,
    params: FriParams,
    round: usize,
) -> QueryInputs<F, E, D> {
    QueryInputs {
        instance: instance_at(vals, instance),
        alpha: ext_at(vals, challenges.alpha),
        betas: exts_at(vals, challenges.betas),
        reduced_openings: exts_at(vals, reduced),
        initial_caps: rows_digests_at(vals, initial_caps),
        commit_caps: rows_digests_at(vals, proof.commit_caps),
        final_poly: exts_at(vals, proof.final_poly),
        x_index: query_index_at(vals, x_index, params),
        round_proof: query_round_at(vals, round_proof),
        params,
        round,
    }
}

/// The state of the folding walk after `i` steps: the remaining bits are the
/// bits of the index from those that the steps took up on, and the point and
/// the running evaluation are those of the verifier over field values.
pub open spec fn walk_state<F: RichField, E: FieldExtension<F>, H: Hasher<F>>(
    vals: Seq<Value<F, E, H::Hash>>,
    q: QueryInputs<F, E, H::Hash>,
    bits: Seq<BoolTarget>,
    cap_index: Target,
    subgroup_x: Target,
    old_eval: ExtensionTarget,
    i: nat,
) -> bool {
    &&& bits_of(vals, bits, q.x_index, sum_prefix(q.params.reduction_arity_bits@, i))
    &&& base_at(vals, cap_index).to_canonical_u64_spec() == (q.x_index / pow2(
        (q.params.lde_bits_spec() - q.params.config.cap_height) as nat,
    )) % pow2(q.params.config.cap_height as nat)
    &&& base_at(vals, subgroup_x) == walk_x::<F>(q.params, q.x_index, i)
    &&& ext_at(vals, old_eval) == walk_eval(q, i)
}

/// What the gates of a query ask for up to step `i` of the walk: the initial
/// openings authenticate, the quotients and the first `i` foldings divide by
/// units, and none of the first `i` steps fails.
pub open spec fn walk_holds<F: RichField, E: FieldExtension<F>, H: Hasher<F>>(
    q: QueryInputs<F, E, H::Hash>,
    i: nat,
) -> bool {
    &&& first_bad_oracle::<F, H>(
        q.x_index,
        q.round_proof.initial,
        q.initial_caps,
        checked_oracles(q.round_proof.initial, q.initial_caps),
    ) is None
    &&& quotients_well_posed::<F, E>(
        q.instance.points,
        walk_x::<F>(q.params, q.x_index, 0),
        combined_batches(q.instance, q.reduced_openings),
    )
    &&& layers_well_posed::<F, E>(q.betas, q.params, q.x_index, i)
    &&& first_layer_failure::<F, E, H>(q, i) is None
}

/// What the gates of a query round ask for: the query divides by units only,
/// and the verifier over field values accepts the round.
pub open spec fn round_holds<F: RichField, E: FieldExtension<F>, H: Hasher<F>>(
    q: QueryInputs<F, E, H::Hash>,
) -> bool {
    &&& query_well_posed::<F, E>(
        q.instance.points,
        combined_batches(q.instance, q.reduced_openings),
        q.betas,
        q.params,
        q.x_index,
    )
    &&& query_round_accepts::<F, E, H>(q)
}

/// The values after a folding step are those of the verifier over field
/// values after that step.
pub proof fn lemma_fold_layer_values<F: RichField, E: FieldExtension<F>, H: Hasher<F>>(
    vb: Seq<Value<F, E, H::Hash>>,
    q: QueryInputs<F, E, H::Hash>,
    i: nat,
    bits: Seq<BoolTarget>,
    cap_index: Target,
    subgroup_x: Target,
    old_eval: ExtensionTarget,
    evals: Seq<ExtensionTarget>,
    beta: ExtensionTarget,
)
    requires
        i < q.params.reduction_arity_bits@.len(),
        walk_state::<F, E, H>(vb, q, bits, cap_index, subgroup_x, old_eval, i),
        q.params.reduction_arity_bits@[i as int] <= bits.len(),
        exts_at(vb, evals) == q.round_proof.step_evals[i as int],
        ext_at(vb, beta) == q.betas[i as int],
    ensures
        le_value(vb, bits, q.params.reduction_arity_bits@[i as int] as nat)
            == walk_index_within_coset(q.params, q.x_index, i as int),
        compute_evaluation_spec::<F, E>(
            base_at(vb, subgroup_x),
            le_value(vb, bits, q.params.reduction_arity_bits@[i as int] as nat),
            q.params.reduction_arity_bits@[i as int] as nat,
            exts_at(vb, evals),
            ext_at(vb, beta),
        ) == walk_eval(q, i + 1),
        pow_spec(base_at(vb, subgroup_x), pow2(q.params.reduction_arity_bits@[i as int] as nat))
            == walk_x::<F>(q.params, q.x_index, i + 1),
{
    let a = q.params.reduction_arity_bits@[i as int] as nat;
    lemma_le_value_of_bits(vb, bits, q.x_index, sum_prefix(q.params.reduction_arity_bits@, i), a);
    lemma_walk_index(q.params, q.x_index, i);
}

/// The gates of a folding step hold where the step of the verifier over field
/// values does not fail and its folding divides by units only.
pub proof fn lemma_fold_layer_parity<F: RichField, E: FieldExtension<F>, H: Hasher<F>>(
    vb: Seq<Value<F, E, H::Hash>>,
    q: QueryInputs<F, E, H::Hash>,
    i: nat,
    bits: Seq<BoolTarget>,
    cap_index: Target,
    subgroup_x: Target,
    old_eval: ExtensionTarget,
    evals: Seq<ExtensionTarget>,
    beta: ExtensionTarget,
    cap: Seq<HashOutTarget>,
    siblings: Seq<HashOutTarget>,
)
    requires
        i < q.params.reduction_arity_bits@.len(),
        q.params.wf(),
        q.x_index < pow2(q.params.lde_bits_spec()),
        walk_state::<F, E, H>(vb, q, bits, cap_index, subgroup_x, old_eval, i),
        bits.len() == q.params.lde_bits_spec() - sum_prefix(q.params.reduction_arity_bits@, i),
        exts_at(vb, evals) == q.round_proof.step_evals[i as int],
        ext_at(vb, beta) == q.betas[i as int],
        digests_at(vb, cap) == q.commit_caps[i as int],
        digests_at(vb, siblings) == q.round_proof.step_siblings[i as int],
        step_shape_ok(
            q.round_proof.step_evals[i as int],
            q.round_proof.step_siblings[i as int],
            q.params,
            i as int,
        ),
    ensures
        walk_holds::<F, E, H>(q, i) ==> (fold_gates_hold::<F, E, H>(
            vb,
            bits,
            cap_index,
            subgroup_x,
            old_eval,
            q.params.reduction_arity_bits@[i as int] as nat,
            evals,
            beta,
            cap,
            siblings,
        ) <==> walk_holds::<F, E, H>(q, i + 1)),
        !walk_holds::<F, E, H>(q, i) ==> !walk_holds::<F, E, H>(q, i + 1),
{
    let params = q.params;
    let a = params.reduction_arity_bits@[i as int] as nat;
    let l = params.lde_bits_spec();
    let ch = params.config.cap_height as nat;
    let s0 = sum_prefix(params.reduction_arity_bits@, i);
    let s1 = sum_prefix(params.reduction_arity_bits@, i + 1);
    lemma_sum_prefix_monotonic(
        params.reduction_arity_bits@,
        i + 1,
        params.reduction_arity_bits@.len(),
    );
    lemma_fold_layer_values::<F, E, H>(
        vb,
        q,
        i,
        bits,
        cap_index,
        subgroup_x,
        old_eval,
        evals,
        beta,
    );
    // the opening
    let rest = bits.skip(a as int);
    lemma_bits_of_skip(vb, bits, q.x_index, s0, a);
    lemma_cap_entry(q.x_index, l, ch);
    lemma_walk_index(params, q.x_index, i + 1);
    assert(s0 + a == s1);
    assert(siblings.len() == digests_at(vb, siblings).len());
    assert(s1 + siblings.len() == l - ch);
    lemma_merkle_gate_parity::<F, E, H>(
        vb,
        flatten_spec::<F, E>(exts_at(vb, evals)),
        rest,
        cap_index,
        cap,
        siblings,
        q.x_index,
        s1,
    );
    // the well-posedness of the foldings
    if layers_well_posed::<F, E>(q.betas, params, q.x_index, i) && folding_well_posed::<F, E>(
        walk_x::<F>(params, q.x_index, i),
        walk_index_within_coset(params, q.x_index, i as int),
        a,
        q.betas[i as int],
    ) {
        assert(layers_well_posed::<F, E>(q.betas, params, q.x_index, i + 1));
    }
    if layers_well_posed::<F, E>(q.betas, params, q.x_index, i + 1) {
        assert(layers_well_posed::<F, E>(q.betas, params, q.x_index, i));
        assert(folding_well_posed::<F, E>(
            walk_x::<F>(params, q.x_index, i),
            walk_index_within_coset(params, q.x_index, i as int),
            a,
            q.betas[i as int],
        ));
    }
}

/// What the gates of the first `n` query rounds ask for.
pub open spec fn rounds_hold<F: RichField, E: FieldExtension<F>, H: Hasher<F>>(
    instance: InstanceView<E>,
    openings: Seq<Seq<E>>,
    challenges: ChallengesView<F, E>,
    initial_caps: Seq<Seq<H::Hash>>,
    proof: FriProofView<F, E, H::Hash>,
    params: FriParams,
    n: nat,
) -> bool
    decreases n,
{
    n == 0 || (rounds_hold::<F, E, H>(
        instance,
        openings,
        challenges,
        initial_caps,
        proof,
        params,
        (n - 1) as nat,
    ) && round_holds::<F, E, H>(
        round_inputs(instance, openings, challenges, initial_caps, proof, params, n - 1),
    ))
}

/// The gates of the first `n` query rounds hold where the first `n` queries
/// divide by units only and none of the first `n` rounds fails.
pub proof fn lemma_rounds_hold<F: RichField, E: FieldExtension<F>, H: Hasher<F>>(
    instance: InstanceView<E>,
    openings: Seq<Seq<E>>,
    challenges: ChallengesView<F, E>,
    initial_caps: Seq<Seq<H::Hash>>,
    proof: FriProofView<F, E, H::Hash>,
    params: FriParams,
    n: nat,
)
    requires
        n <= challenges.query_indices.len(),
    ensures
        rounds_hold::<F, E, H>(instance, openings, challenges, initial_caps, proof, params, n) <==> (
        first_round_failure::<F, E, H>(
            instance,
            openings,
            challenges,
            initial_caps,
            proof,
            params,
            n,
        ) is None && forall|r: int|
            0 <= r < n ==> query_well_posed::<F, E>(
                instance.points,
                combined_batches(
                    instance,
                    reduced_openings_spec(openings, challenges.alpha, params.hiding),
                ),
                challenges.betas,
                params,
                #[trigger] challenges.query_indices[r],
            )),
    decreases n,
{
    if n > 0 {
        lemma_rounds_hold::<F, E, H>(
            instance,
            openings,
            challenges,
            initial_caps,
            proof,
            params,
            (n - 1) as nat,
        );
        let q = round_inputs(instance, openings, challenges, initial_caps, proof, params, n - 1);
        lemma_query_round_accepts::<F, E, H>(q);
        assert(q.x_index == challenges.query_indices[n - 1]);
    }
}

/// The values that targets hold have the shape of the targets.
pub proof fn lemma_shape_of_values<F: Field, E: Field, D>(
    vals: Seq<Value<F, E, D>>,
    proof: FriProofView<Target, ExtensionTarget, HashOutTarget>,
    oracles: Seq<FriOracleInfo>,
    params: FriParams,
)
    requires
        proof_shape_ok(proof, oracles, params),
    ensures
        proof_shape_ok(proof_at(vals, proof), oracles, params),
{
    let pv = proof_at(vals, proof);
    assert forall|i: int| 0 <= i < pv.commit_caps.len() implies (#[trigger] pv.commit_caps[i]).len()
        == pow2(params.config.cap_height as nat) by {
        assert(proof.commit_caps[i].len() == pow2(params.config.cap_height as nat));
    }
    assert forall|r: int| 0 <= r < pv.rounds.len() implies round_shape_ok(
        #[trigger] pv.rounds[r],
        oracles,
        params,
    ) by {
        let t = proof.rounds[r];
        let v = pv.rounds[r];
        assert(round_shape_ok(t, oracles, params));
        assert forall|o: int| 0 <= o < oracles.len() implies leaf_shape_ok(
            #[trigger] v.initial.leaves[o],
            v.initial.siblings[o],
            oracles[o],
            params,
        ) by {
            assert(leaf_shape_ok(t.initial.leaves[o], t.initial.siblings[o], oracles[o], params));
        }
        assert forall|i: int| 0 <= i < params.reduction_arity_bits@.len() implies step_shape_ok(
            #[trigger] v.step_evals[i],
            v.step_siblings[i],
            params,
            i,
        ) by {
            assert(step_shape_ok(t.step_evals[i], t.step_siblings[i], params, i));
        }
    }
}

/// Rows of extension targets of `old` hold in a later state of the builder what
/// they hold in `old`.
pub proof fn lemma_frame_rows_exts<F: RichField, E: FieldExtension<F>, H: Hasher<F>>(
    new: CircuitBuilder<F, E, H>,
    old: CircuitBuilder<F, E, H>,
    inp: Seq<Value<F, E, H::Hash>>,
    rows: Seq<Seq<ExtensionTarget>>,
)
    requires
        new.frames(old),
        rows_extensions_below(rows, old.num_gates()),
    ensures
        rows_exts_at(new.wires(inp), rows) == rows_exts_at(old.wires(inp), rows),
{
    assert forall|i: int| 0 <= i < rows.len() implies exts_at(new.wires(inp), rows[i]) == exts_at(
        old.wires(inp),
        rows[i],
    ) by {
        assert(extensions_below(rows[i], old.num_gates()));
        new.lemma_frame_exts(old, inp, rows[i]);
    }
    assert(rows_exts_at(new.wires(inp), rows) =~= rows_exts_at(old.wires(inp), rows));
}

/// Rows of digest targets hold the same values after more gates were
/// appended.
pub proof fn lemma_frame_rows_digests<F: RichField, E: FieldExtension<F>, H: Hasher<F>>(
    new: CircuitBuilder<F, E, H>,
    old: CircuitBuilder<F, E, H>,
    inp: Seq<Value<F, E, H::Hash>>,
    rows: Seq<Seq<HashOutTarget>>,
)
    requires
        new.frames(old),
        rows_hashes_below(rows, old.num_gates()),
    ensures
        rows_digests_at(new.wires(inp), rows) == rows_digests_at(old.wires(inp), rows),
{
    assert forall|i: int| 0 <= i < rows.len() implies digests_at(new.wires(inp), rows[i])
        == digests_at(old.wires(inp), rows[i]) by {
        assert(hashes_below(rows[i], old.num_gates()));
        new.lemma_frame_digests(old, inp, rows[i]);
    }
    assert(rows_digests_at(new.wires(inp), rows) =~= rows_digests_at(old.wires(inp), rows));
}

/// Rows of base-field targets hold the same values after more gates were
/// appended.
pub proof fn lemma_frame_rows_bases<F: RichField, E: FieldExtension<F>, H: Hasher<F>>(
    new: CircuitBuilder<F, E, H>,
    old: CircuitBuilder<F, E, H>,
    inp: Seq<Value<F, E, H::Hash>>,
    rows: Seq<Seq<Target>>,
)
    requires
        new.frames(old),
        rows_targets_below(rows, old.num_gates()),
    ensures
        rows_bases_at(new.wires(inp), rows) == rows_bases_at(old.wires(inp), rows),
{
    assert forall|i: int| 0 <= i < rows.len() implies bases_at(new.wires(inp), rows[i]) == bases_at(
        old.wires(inp),
        rows[i],
    ) by {
        assert(targets_below(rows[i], old.num_gates()));
        new.lemma_frame_bases(old, inp, rows[i]);
    }
    assert(rows_bases_at(new.wires(inp), rows) =~= rows_bases_at(old.wires(inp), rows));
}

/// What a query round is checked against in a later state of the builder is
/// what round `r` of the verifier over field values is checked against, for
/// targets of `old` and reduced openings that hold the combined openings.
pub proof fn lemma_round_inputs_frame<F: RichField, E: FieldExtension<F>, H: Hasher<F>>(
    new: CircuitBuilder<F, E, H>,
    old: CircuitBuilder<F, E, H>,
    inp: Seq<Value<F, E, H::Hash>>,
    instance: InstanceView<ExtensionTarget>,
    openings: Seq<Seq<ExtensionTarget>>,
    challenges: ChallengesTargetView,
    reduced: Seq<ExtensionTarget>,
    initial_caps: Seq<Seq<HashOutTarget>>,
    proof: FriProofView<Target, ExtensionTarget, HashOutTarget>,
    params: FriParams,
    r: int,
)
    requires
        new.frames(old),
        extensions_below(instance.points, old.num_gates()),
        challenges_scoped(challenges, old.num_gates()),
        rows_hashes_below(initial_caps, old.num_gates()),
        proof_scoped(proof, old.num_gates()),
        0 <= r < proof.rounds.len(),
        proof.rounds.len() == challenges.query_indices.len(),
        exts_at(new.wires(inp), reduced) == reduced_openings_spec(
            rows_exts_at(old.wires(inp), openings),
            ext_at(old.wires(inp), challenges.alpha),
            params.hiding,
        ),
    ensures
        target_query_inputs::<F, E, H::Hash>(
            new.wires(inp),
            instance,
            challenges,
            reduced,
            initial_caps,
            proof,
            challenges.query_indices[r],
            proof.rounds[r],
            params,
            r as usize,
        ) == round_inputs(
            instance_at(old.wires(inp), instance),
            rows_exts_at(old.wires(inp), openings),
            challenges_at(old.wires(inp), challenges, params),
            rows_digests_at(old.wires(inp), initial_caps),
            proof_at(old.wires(inp), proof),
            params,
            r,
        ),
{
    let vn = new.wires(inp);
    let v0 = old.wires(inp);
    new.lemma_frame_exts(old, inp, instance.points);
    new.lemma_frame_value(old, inp, challenges.alpha.0);
    new.lemma_frame_exts(old, inp, challenges.betas);
    lemma_frame_rows_digests(new, old, inp, initial_caps);
    lemma_frame_rows_digests(new, old, inp, proof.commit_caps);
    new.lemma_frame_exts(old, inp, proof.final_poly);
    new.lemma_frame_value(old, inp, challenges.query_indices[r].0);
    let t = proof.rounds[r];
    assert(query_round_scoped(t, old.num_gates()));
    lemma_frame_rows_bases(new, old, inp, t.initial.leaves);
    lemma_frame_rows_digests(new, old, inp, t.initial.siblings);
    lemma_frame_rows_exts(new, old, inp, t.step_evals);
    lemma_frame_rows_digests(new, old, inp, t.step_siblings);
}

/// Number of entries of the lists that are looked up: the largest arity, or
/// the number of digests of a cap where that is larger.
pub open spec fn list_size(config: CircuitConfig, max_fri_arity: usize) -> int {
    if max_fri_arity >= pow2(config.cap_height as nat) {
        max_fri_arity as int
    } else {
        pow2(config.cap_height as nat) as int
    }
}

/// The configuration has the wires and the routed wires that the gates of the
/// verifier need for extension elements of dimension `d`.
pub open spec fn recursion_config_ok(config: CircuitConfig, max_fri_arity: usize, d: nat) -> bool {
    let v = list_size(config, max_fri_arity);
    let n = max_fri_arity as int;
    let random_access_routed = (v + 1) * d + 1;
    let random_access_wires = random_access_routed + 2 * v;
    let interpolation_routed = n * (1 + d) + 2 * d;
    let interpolation_wires = interpolation_routed + n * d;
    &&& config.num_wires >= random_access_wires
    &&& config.num_wires >= interpolation_wires
    &&& config.num_routed_wires >= random_access_routed
    &&& config.num_routed_wires >= interpolation_routed
}

/// The configuration has the wires and the routed wires for the lists and the
/// interpolations of every reduction.
pub open spec fn recursion_config_fits(config: CircuitConfig, arity_bits: Seq<usize>, d: nat) -> bool {
    forall|i: int|
        0 <= i < arity_bits.len() ==> recursion_config_ok(
            config,
            pow2(#[trigger] arity_bits[i] as nat) as usize,
            d,
        )
}

/// A configuration with the wires for one arity has them for every smaller
/// one.
pub proof fn lemma_recursion_config_smaller(config: CircuitConfig, a: usize, b: usize, d: nat)
    requires
        a <= b,
        recursion_config_ok(config, b, d),
    ensures
        recursion_config_ok(config, a, d),
{
    let va = list_size(config, a);
    let vb = list_size(config, b);
    assert(0 <= va <= vb);
    assert((va + 1) * d <= (vb + 1) * d) by (nonlinear_arith)
        requires
            0 <= va <= vb,
    ;
    assert(a * (1 + d) <= b * (1 + d)) by (nonlinear_arith)
        requires
            a <= b,
    ;
    assert(a * d <= b * d) by (nonlinear_arith)
        requires
            a <= b,
    ;
}

/// Number of polynomials of the batch in the oracle of blinding polynomials.
pub fn count_r_targets(batch: &FriBatchInfoTarget) -> (r: usize)
    ensures
        r == count_r_polys(batch.polynomials@, batch.polynomials@.len()),
        r <= batch.polynomials@.len(),
{
    let n = batch.polynomials.len();
    let mut count: usize = 0;
    let mut i: usize = 0;
    while i < n
        invariant
            i <= n,
            n == batch.polynomials@.len(),
            count == count_r_polys(batch.polynomials@, i as nat),
            count <= i,
        decreases n - i,
    {
        if batch.polynomials[i].oracle_index == R_ORACLE_INDEX {
            count = count + 1;
        }
        i = i + 1;
    }
    count
}

/// The inverse of the root of unity of order `2^a`, to a power below that
/// order, is the root to the complementary power.
pub proof fn lemma_inverse_root_power<F: Field>(a: nat, r: nat)
    requires
        a <= F::two_adicity_spec(),
        r < pow2(a),
    ensures
        pow_spec(
            pow_spec(primitive_root_of_unity_spec::<F>(a), (pow2(a) - 1) as nat),
            r,
        ) == pow_spec(primitive_root_of_unity_spec::<F>(a), (pow2(a) - r) as nat),
{
    let g = primitive_root_of_unity_spec::<F>(a);
    let m = pow2(a);
    lemma_root_of_unity_order::<F>(a);
    lemma_pow2_pos(a);
    if r > 0 {
        let r1 = (r - 1) as nat;
        lemma_pow_mul(g, (m - 1) as nat, r);
        assert((m - 1) * r == m * r1 + (m - r)) by (nonlinear_arith)
            requires
                r1 == r - 1,
        ;
        lemma_pow_add(g, m * r1, (m - r) as nat);
        lemma_pow_mul(g, m, r1);
        lemma_pow_of_one::<F>(r1);
        lemma_pow_wf(g, (m - r) as nat);
        lemma_one_mul(pow_spec(g, (m - r) as nat));
    }
}

/// Every power of one is one.
pub proof fn lemma_pow_of_one<F: Field>(n: nat)
    ensures
        pow_spec(F::one_spec(), n) == F::one_spec(),
    decreases n,
{
    F::lemma_constants();
    if n > 0 {
        lemma_pow_of_one::<F>((n - 1) as nat);
        F::lemma_mul_one(F::one_spec());
    }
}

impl<F: RichField, E: FieldExtension<F>, H: Hasher<F>> CircuitBuilder<F, E, H> {
    /// Whether the configuration has enough wires and routed wires to do the
    /// checks of the verifier with gates for lists and interpolations of
    /// `max_fri_arity` entries.
    pub fn check_recursion_config(&self, max_fri_arity: usize) -> (r: bool)
        ensures
            r == recursion_config_ok(self.config, max_fri_arity, E::dimension_spec()),
    {
        proof {
            F::lemma_constants();
            E::lemma_constants();
            E::lemma_extension_wf(F::zero_spec(), E::zero_spec());
            vstd::layout::unsigned_int_max_values();
            if self.config.cap_height >= usize::BITS {
                if self.config.cap_height > usize::BITS {
                    vstd::arithmetic::power2::lemma_pow2_strictly_increases(
                        usize::BITS as nat,
                        self.config.cap_height as nat,
                    );
                }
            }
            let v = list_size(self.config, max_fri_arity);
            let d = E::dimension_spec() as int;
            assert((v + 1) * d >= v + 1) by (nonlinear_arith)
                requires
                    d >= 1,
                    v >= 0,
            ;
        }
        let d = E::dimension();
        if self.config.cap_height >= usize::BITS as usize {
            return false;
        }
        proof {
            lemma_shift_is_pow2(self.config.cap_height);
        }
        let cap_size = 1usize << self.config.cap_height;
        let vec_size = if max_fri_arity >= cap_size {
            max_fri_arity
        } else {
            cap_size
        };
        let random_access = RandomAccessGate { vec_size, d };
        let interpolation_gate = InterpolationGate { num_points: max_fri_arity, d };
        let wires = (random_access.num_wires(), interpolation_gate.num_wires());
        let routed = (random_access.num_routed_wires(), interpolation_gate.num_routed_wires());
        match (wires, routed) {
            ((Some(a), Some(b)), (Some(c), Some(e))) => {
                let min_wires = if a >= b {
                    a
                } else {
                    b
                };
                let min_routed_wires = if c >= e {
                    c
                } else {
                    e
                };
                self.config.num_wires >= min_wires && self.config.num_routed_wires
                    >= min_routed_wires
            },
            _ => false,
        }
    }

    /// Whether the configuration has the wires and the routed wires for the
    /// lists and the interpolations of every reduction of the parameters.
    pub fn check_recursion_fits(&self, params: &FriParams) -> (r: bool)
        requires
            params.wf(),
        ensures
            r == recursion_config_fits(
                self.config,
                params.reduction_arity_bits@,
                E::dimension_spec(),
            ),
    {
        match params.max_arity_bits() {
            None => true,
            Some(max_arity_bits) => {
                let ghost arities = params.reduction_arity_bits@;
                let ghost at = choose|i: int| 0 <= i < arities.len() && arities[i] == max_arity_bits;
                proof {
                    lemma_arity_bits_bound(*params, at);
                    lemma_shift_is_pow2(max_arity_bits);
                }
                let fits = self.check_recursion_config(1usize << max_arity_bits);
                proof {
                    if fits {
                        assert forall|i: int| 0 <= i < arities.len() implies recursion_config_ok(
                            self.config,
                            pow2(#[trigger] arities[i] as nat) as usize,
                            E::dimension_spec(),
                        ) by {
                            lemma_arity_bits_bound(*params, i);
                            lemma_shift_is_pow2(arities[i]);
                            if arities[i] < max_arity_bits {
                                vstd::arithmetic::power2::lemma_pow2_strictly_increases(
                                    arities[i] as nat,
                                    max_arity_bits as nat,
                                );
                            }
                            lemma_recursion_config_smaller(
                                self.config,
                                pow2(arities[i] as nat) as usize,
                                pow2(max_arity_bits as nat) as usize,
                                E::dimension_spec(),
                            );
                        }
                    } else {
                        assert(!recursion_config_ok(
                            self.config,
                            pow2(arities[at] as nat) as usize,
                            E::dimension_spec(),
                        ));
                    }
                }
                fits
            },
        }
    }

    /// Constrains the proof-of-work response to have the leading zeros that the
    /// configuration asks for.
    pub fn fri_verify_proof_of_work(&mut self, fri_pow_response: Target, config: &FriConfig)
        ensures
            final(self).frames(*old(self)),
            final(self).num_inputs == old(self).num_inputs,
            old(self).wf() ==> final(self).wf(),
            forall|inp: Seq<Value<F, E, H::Hash>>|
                #[trigger] final(self).satisfied(inp) == (old(self).satisfied(inp)
                    && proof_of_work_ok(
                    base_at(old(self).wires(inp), fri_pow_response),
                    *config,
                )),
    {
        let order = F::order();
        let order_bits = biguint_bits(&order);
        proof {
            F::lemma_order();
            lemma_bit_length_u64(F::order_spec());
        }
        self.assert_leading_zeros(
            fri_pow_response,
            config.proof_of_work_bits as u64 + (64 - order_bits),
        );
    }

    /// Constrains the leaves of all oracles to authenticate against their caps
    /// at the index given by the bits.
    #[verifier::rlimit(100)]
    pub fn fri_verify_initial_proof(
        &mut self,
        x_index_bits: &[BoolTarget],
        proof: &FriInitialTreeProofTarget,
        initial_merkle_caps: &[MerkleCapTarget],
        cap_index: Target,
    )
        requires
            bools_below(x_index_bits@, old(self).num_gates()),
            initial_tree_scoped(proof@, old(self).num_gates()),
            rows_hashes_below(caps_target_view(initial_merkle_caps@), old(self).num_gates()),
            cap_index.0 < old(self).num_gates(),
        ensures
            final(self).frames(*old(self)),
            final(self).num_inputs == old(self).num_inputs,
            old(self).wf() ==> final(self).wf(),
            forall|inp: Seq<Value<F, E, H::Hash>>|
                #[trigger] final(self).satisfied(inp) == (old(self).satisfied(inp)
                    && initial_gates_hold::<F, E, H>(
                    old(self).wires(inp),
                    x_index_bits@,
                    proof@,
                    caps_target_view(initial_merkle_caps@),
                    cap_index,
                    checked_oracles(proof@, caps_target_view(initial_merkle_caps@)),
                )),
    {
        let n = if proof.evals_proofs.len() <= initial_merkle_caps.len() {
            proof.evals_proofs.len()
        } else {
            initial_merkle_caps.len()
        };
        let mut i: usize = 0;
        proof {
            self.lemma_frames_reflexive();
        }
        while i < n
            invariant
                i <= n,
                n == checked_oracles(proof@, caps_target_view(initial_merkle_caps@)),
                n <= proof.evals_proofs@.len(),
                n <= initial_merkle_caps@.len(),
                bools_below(x_index_bits@, old(self).num_gates()),
                initial_tree_scoped(proof@, old(self).num_gates()),
                rows_hashes_below(caps_target_view(initial_merkle_caps@), old(self).num_gates()),
                cap_index.0 < old(self).num_gates(),
                self.frames(*old(self)),
                self.num_inputs == old(self).num_inputs,
                old(self).wf() ==> self.wf(),
                forall|inp: Seq<Value<F, E, H::Hash>>|
                    #[trigger] self.satisfied(inp) == (old(self).satisfied(inp)
                        && initial_gates_hold::<F, E, H>(
                        old(self).wires(inp),
                        x_index_bits@,
                        proof@,
                        caps_target_view(initial_merkle_caps@),
                        cap_index,
                        i as nat,
                    )),
            decreases n - i,
        {
            let ghost before = *self;
            let evals = &proof.evals_proofs[i].0;
            let merkle_proof = &proof.evals_proofs[i].1;
            let cap = &initial_merkle_caps[i];
            self.verify_merkle_proof_with_cap_index(
                evals.as_slice(),
                x_index_bits,
                cap_index,
                cap,
                merkle_proof,
            );
            proof {
                self.lemma_frames_transitive(before, *old(self));
                assert forall|inp: Seq<Value<F, E, H::Hash>>|
                    #[trigger] self.satisfied(inp) == (old(self).satisfied(inp)
                        && initial_gates_hold::<F, E, H>(
                        old(self).wires(inp),
                        x_index_bits@,
                        proof@,
                        caps_target_view(initial_merkle_caps@),
                        cap_index,
                        (i + 1) as nat,
                    )) by {
                    assert(proof@.leaves[i as int] == proof.evals_proofs@[i as int].0@);
                    assert(proof@.siblings[i as int] == proof.evals_proofs@[i as int].1.siblings@);
                    assert(caps_target_view(initial_merkle_caps@)[i as int]
                        == initial_merkle_caps@[i as int].0@);
                    assert(targets_below(proof@.leaves[i as int], old(self).num_gates()));
                    assert(hashes_below(proof@.siblings[i as int], old(self).num_gates()));
                    assert(hashes_below(
                        caps_target_view(initial_merkle_caps@)[i as int],
                        old(self).num_gates(),
                    ));
                    before.lemma_frame_bases(*old(self), inp, evals@);
                    lemma_merkle_gate_frame::<F, E, H>(
                        before,
                        *old(self),
                        inp,
                        bases_at(old(self).wires(inp), evals@),
                        x_index_bits@,
                        cap_index,
                        cap.0@,
                        merkle_proof.siblings@,
                    );
                }
            }
            i = i + 1;
        }
    }

    /// Appends the gates of one batch of the combination: the evaluations of
    /// the batch's quotiented polynomials are combined, the combined claimed
    /// openings subtracted, the difference divided by the distance of `x` from
    /// the batch's point, and the quotient added to the shifted sum.
    #[verifier::rlimit(100)]
    pub fn fri_combine_batch(
        &mut self,
        instance: &FriInstanceInfoTarget,
        proof: &FriInitialTreeProofTarget,
        alpha: &mut ReducingFactorTarget,
        subgroup_x_ext: ExtensionTarget,
        reduced_opening: ExtensionTarget,
        idx: usize,
        sum: ExtensionTarget,
        params: &FriParams,
    ) -> (r: ExtensionTarget)
        requires
            idx < instance.batches@.len(),
            old(alpha).count == 0,
            old(alpha).base.0 < old(self).num_gates(),
            subgroup_x_ext.0 < old(self).num_gates(),
            reduced_opening.0 < old(self).num_gates(),
            sum.0 < old(self).num_gates(),
            rows_targets_below(proof@.leaves, old(self).num_gates()),
            extensions_below(instance@.points, old(self).num_gates()),
            polynomials_in_range(instance@),
            leaves_fit(proof@.leaves, instance.oracles@, *params),
        ensures
            final(alpha).base == old(alpha).base,
            final(alpha).count == 0,
            final(self).frames(*old(self)),
            final(self).num_inputs == old(self).num_inputs,
            old(self).wf() ==> final(self).wf(),
            r.0 < final(self).num_gates(),
            forall|inp: Seq<Value<F, E, H::Hash>>|
                ext_at(#[trigger] final(self).wires(inp), r) == pow_spec(
                    ext_at(old(self).wires(inp), old(alpha).base),
                    quotiented_count(instance@, idx as int, params.hiding),
                ).mul_spec(ext_at(old(self).wires(inp), sum)).add_spec(
                    div_spec(
                        sub_spec(
                            reduce_spec(
                                ext_at(old(self).wires(inp), old(alpha).base),
                                batch_evals::<F, E>(
                                    instance_at(old(self).wires(inp), instance@),
                                    rows_bases_at(old(self).wires(inp), proof@.leaves),
                                    idx as int,
                                    params.hiding,
                                ),
                            ),
                            ext_at(old(self).wires(inp), reduced_opening),
                        ),
                        sub_spec(
                            ext_at(old(self).wires(inp), subgroup_x_ext),
                            ext_at(old(self).wires(inp), instance@.points[idx as int]),
                        ),
                    ),
                ),
            forall|inp: Seq<Value<F, E, H::Hash>>|
                #[trigger] final(self).satisfied(inp) == (old(self).satisfied(inp) && is_unit(
                    sub_spec(
                        ext_at(old(self).wires(inp), subgroup_x_ext),
                        ext_at(old(self).wires(inp), instance@.points[idx as int]),
                    ),
                )),
    {
        let batch = &instance.batches[idx];
        let nb_r_polys = count_r_targets(batch);
        let last_poly = batch.polynomials.len() - if params.hiding && idx == 0 {
            nb_r_polys
        } else {
            0
        };
        proof {
            assert(instance@.polynomials[idx as int] == batch.polynomials@);
            assert(instance@.points[idx as int] == batch.point);
        }
        let mut evals: Vec<Target> = Vec::with_capacity(last_poly);
        let mut i: usize = 0;
        while i < last_poly
            invariant
                i <= last_poly,
                idx < instance.batches@.len(),
                last_poly == quotiented_count(instance@, idx as int, params.hiding),
                last_poly <= batch.polynomials@.len(),
                *batch == instance.batches@[idx as int],
                instance@.polynomials[idx as int] == batch.polynomials@,
                polynomials_in_range(instance@),
                leaves_fit(proof@.leaves, instance.oracles@, *params),
                rows_targets_below(proof@.leaves, old(self).num_gates()),
                evals@.len() == i,
                forall|k: int|
                    0 <= k < i ==> #[trigger] evals@[k] == proof@.leaves[batch.polynomials@[k]
                        .oracle_index as int][batch.polynomials@[k].polynomial_index as int],
                targets_below(evals@, old(self).num_gates()),
            decreases last_poly - i,
        {
            let p = &batch.polynomials[i];
            proof {
                let q = instance@.polynomials[idx as int][i as int];
                assert(q == *p);
                assert(proof@.leaves[p.oracle_index as int] == proof.evals_proofs@[p.oracle_index as int].0@);
                assert(targets_below(proof@.leaves[p.oracle_index as int], old(self).num_gates()));
            }
            let poly_blinding = instance.oracles[p.oracle_index].blinding;
            let salted = params.hiding && poly_blinding;
            let eval = proof.unsalted_eval(p.oracle_index, p.polynomial_index, salted);
            evals.push(eval);
            i = i + 1;
        }
        let reduced_evals = alpha.reduce_base(evals.as_slice(), self);
        let ghost s1 = *self;
        let numerator = self.sub_extension(reduced_evals, reduced_opening);
        let ghost s2 = *self;
        let denominator = self.sub_extension(subgroup_x_ext, batch.point);
        let ghost s3 = *self;
        proof {
            s3.lemma_frames_transitive(s2, s1);
            s3.lemma_frames_transitive(s1, *old(self));
            s2.lemma_frames_transitive(s1, *old(self));
        }
        let shifted = alpha.shift(sum, self);
        let ghost s4 = *self;
        let quotient = self.div_extension(numerator, denominator);
        let ghost s5 = *self;
        let r = self.add_extension(shifted, quotient);
        proof {
            s4.lemma_frames_transitive(s3, *old(self));
            s5.lemma_frames_transitive(s4, *old(self));
            self.lemma_frames_transitive(s5, *old(self));
            s5.lemma_frames_transitive(s4, s3);
            assert forall|inp: Seq<Value<F, E, H::Hash>>|
                ext_at(#[trigger] s4.wires(inp), numerator) == sub_spec(
                    reduce_spec(
                        ext_at(old(self).wires(inp), old(alpha).base),
                        batch_evals::<F, E>(
                            instance_at(old(self).wires(inp), instance@),
                            rows_bases_at(old(self).wires(inp), proof@.leaves),
                            idx as int,
                            params.hiding,
                        ),
                    ),
                    ext_at(old(self).wires(inp), reduced_opening),
                ) && ext_at(s4.wires(inp), denominator) == sub_spec(
                    ext_at(old(self).wires(inp), subgroup_x_ext),
                    ext_at(old(self).wires(inp), instance@.points[idx as int]),
                ) && ext_at(s4.wires(inp), shifted) == pow_spec(
                    ext_at(old(self).wires(inp), old(alpha).base),
                    quotiented_count(instance@, idx as int, params.hiding),
                ).mul_spec(ext_at(old(self).wires(inp), sum)) by {
                let v0 = old(self).wires(inp);
                let want = batch_evals::<F, E>(
                    instance_at(v0, instance@),
                    rows_bases_at(v0, proof@.leaves),
                    idx as int,
                    params.hiding,
                );
                let got = embedded_bases_at::<F, E, H::Hash>(v0, evals@);
                assert forall|k: int| 0 <= k < got.len() implies got[k] == want[k] by {
                    let q = instance@.polynomials[idx as int][k];
                    assert(q == batch.polynomials@[k]);
                }
                assert(got =~= want);
                s1.lemma_frame_value(*old(self), inp, reduced_opening.0);
                s2.lemma_frame_value(*old(self), inp, subgroup_x_ext.0);
                s2.lemma_frame_value(*old(self), inp, batch.point.0);
                s3.lemma_frame_value(*old(self), inp, sum.0);
                s3.lemma_frame_value(*old(self), inp, old(alpha).base.0);
                s3.lemma_frame_value(s2, inp, numerator.0);
                s4.lemma_frame_value(s3, inp, numerator.0);
                s4.lemma_frame_value(s3, inp, denominator.0);
                assert(ext_at(s2.wires(inp), numerator) == sub_spec(
                    ext_at(s1.wires(inp), reduced_evals),
                    ext_at(s1.wires(inp), reduced_opening),
                ));
                assert(ext_at(s3.wires(inp), denominator) == sub_spec(
                    ext_at(s2.wires(inp), subgroup_x_ext),
                    ext_at(s2.wires(inp), batch.point),
                ));
            }
            assert forall|inp: Seq<Value<F, E, H::Hash>>|
                ext_at(#[trigger] self.wires(inp), r) == pow_spec(
                    ext_at(old(self).wires(inp), old(alpha).base),
                    quotiented_count(instance@, idx as int, params.hiding),
                ).mul_spec(ext_at(old(self).wires(inp), sum)).add_spec(
                    div_spec(
                        sub_spec(
                            reduce_spec(
                                ext_at(old(self).wires(inp), old(alpha).base),
                                batch_evals::<F, E>(
                                    instance_at(old(self).wires(inp), instance@),
                                    rows_bases_at(old(self).wires(inp), proof@.leaves),
                                    idx as int,
                                    params.hiding,
                                ),
                            ),
                            ext_at(old(self).wires(inp), reduced_opening),
                        ),
                        sub_spec(
                            ext_at(old(self).wires(inp), subgroup_x_ext),
                            ext_at(old(self).wires(inp), instance@.points[idx as int]),
                        ),
                    ),
                ) by {
                let w4 = s4.wires(inp);
                s5.lemma_frame_value(s4, inp, shifted.0);
                assert(ext_at(s5.wires(inp), quotient) == div_spec(
                    ext_at(w4, numerator),
                    ext_at(w4, denominator),
                ));
            }
            assert forall|inp: Seq<Value<F, E, H::Hash>>|
                #[trigger] self.satisfied(inp) == (old(self).satisfied(inp) && is_unit(
                    sub_spec(
                        ext_at(old(self).wires(inp), subgroup_x_ext),
                        ext_at(old(self).wires(inp), instance@.points[idx as int]),
                    ),
                )) by {
                let w4 = s4.wires(inp);
                assert(self.satisfied(inp) == s5.satisfied(inp));
                assert(s5.satisfied(inp) == (s4.satisfied(inp) && is_unit(ext_at(w4, denominator))));
                assert(s4.satisfied(inp) == s3.satisfied(inp));
                assert(s3.satisfied(inp) == s2.satisfied(inp));
                assert(s2.satisfied(inp) == s1.satisfied(inp));
                assert(s1.satisfied(inp) == old(self).satisfied(inp));
            }
        }
        r
    }

    /// Appends the gates of the factor of blinding polynomial `i`: one for the
    /// first, `x^(2^(i * degree_bits)) * i` for the others.
    #[verifier::rlimit(100)]
    pub fn blinding_shift(&mut self, x: ExtensionTarget, i: usize, degree_bits: usize) -> (r:
        ExtensionTarget)
        requires
            x.0 < old(self).num_gates(),
            i * degree_bits <= usize::MAX,
            i < E::characteristic_spec(),
        ensures
            final(self).frames(*old(self)),
            final(self).num_inputs == old(self).num_inputs,
            old(self).wf() ==> final(self).wf(),
            r.0 < final(self).num_gates(),
            forall|inp: Seq<Value<F, E, H::Hash>>|
                ext_at(#[trigger] final(self).wires(inp), r) == blinding_shift(
                    ext_at(old(self).wires(inp), x),
                    i as nat,
                    degree_bits as nat,
                ),
            forall|inp: Seq<Value<F, E, H::Hash>>|
                #[trigger] final(self).satisfied(inp) == old(self).satisfied(inp),
    {
        proof {
            E::lemma_constants();
        }
        let first = self.constant_extension(
            E::from_canonical_usize(
                if i == 0 {
                    1
                } else {
                    0
                },
            ),
        );
        let ghost s1 = *self;
        let power = self.exp_power_of_2_extension(x, i * degree_bits);
        let ghost s2 = *self;
        let factor = self.constant_extension(E::from_canonical_usize(i));
        let ghost s3 = *self;
        let scaled = self.mul_extension(power, factor);
        let ghost s4 = *self;
        let r = self.add_extension(first, scaled);
        proof {
            s2.lemma_frames_transitive(s1, *old(self));
            s3.lemma_frames_transitive(s2, *old(self));
            s4.lemma_frames_transitive(s3, *old(self));
            self.lemma_frames_transitive(s4, *old(self));
            s3.lemma_frames_transitive(s2, s1);
            s4.lemma_frames_transitive(s3, s1);
            assert forall|inp: Seq<Value<F, E, H::Hash>>|
                ext_at(#[trigger] self.wires(inp), r) == blinding_shift(
                    ext_at(old(self).wires(inp), x),
                    i as nat,
                    degree_bits as nat,
                ) by {
                s1.lemma_frame_value(*old(self), inp, x.0);
                s3.lemma_frame_value(s2, inp, power.0);
                s4.lemma_frame_value(s1, inp, first.0);
                assert(ext_at(s2.wires(inp), power) == pow_spec(
                    ext_at(s1.wires(inp), x),
                    pow2((i * degree_bits) as nat),
                ));
                assert(ext_at(s4.wires(inp), scaled) == ext_at(s3.wires(inp), power).mul_spec(
                    ext_at(s3.wires(inp), factor),
                ));
            }
            assert forall|inp: Seq<Value<F, E, H::Hash>>|
                #[trigger] self.satisfied(inp) == old(self).satisfied(inp) by {
                assert(self.satisfied(inp) == s4.satisfied(inp));
                assert(s4.satisfied(inp) == s3.satisfied(inp));
                assert(s3.satisfied(inp) == s2.satisfied(inp));
                assert(s2.satisfied(inp) == s1.satisfied(inp));
            }
        }
        r
    }

    /// Appends the gates that add one blinding polynomial, with its factor, to
    /// the sum.
    #[verifier::rlimit(100)]
    pub fn blinding_term(
        &mut self,
        eval: Target,
        x: ExtensionTarget,
        i: usize,
        degree_bits: usize,
        sum: ExtensionTarget,
    ) -> (r: ExtensionTarget)
        requires
            eval.0 < old(self).num_gates(),
            x.0 < old(self).num_gates(),
            sum.0 < old(self).num_gates(),
            i * degree_bits <= usize::MAX,
            i < E::characteristic_spec(),
        ensures
            final(self).frames(*old(self)),
            final(self).num_inputs == old(self).num_inputs,
            old(self).wf() ==> final(self).wf(),
            r.0 < final(self).num_gates(),
            forall|inp: Seq<Value<F, E, H::Hash>>|
                ext_at(#[trigger] final(self).wires(inp), r) == ext_at(old(self).wires(inp), sum)
                    .add_spec(
                    E::from_basefield_spec(base_at(old(self).wires(inp), eval)).mul_spec(
                        blinding_shift(
                            ext_at(old(self).wires(inp), x),
                            i as nat,
                            degree_bits as nat,
                        ),
                    ),
                ),
            forall|inp: Seq<Value<F, E, H::Hash>>|
                #[trigger] final(self).satisfied(inp) == old(self).satisfied(inp),
    {
        let shift_val = self.blinding_shift(x, i, degree_bits);
        let ghost s1 = *self;
        let embedded = self.convert_to_ext(eval);
        let ghost s2 = *self;
        let term = self.mul_extension(embedded, shift_val);
        let ghost s3 = *self;
        let r = self.add_extension(sum, term);
        proof {
            s2.lemma_frames_transitive(s1, *old(self));
            s3.lemma_frames_transitive(s2, *old(self));
            self.lemma_frames_transitive(s3, *old(self));
            assert forall|inp: Seq<Value<F, E, H::Hash>>|
                ext_at(#[trigger] self.wires(inp), r) == ext_at(old(self).wires(inp), sum).add_spec(
                    E::from_basefield_spec(base_at(old(self).wires(inp), eval)).mul_spec(
                        blinding_shift(
                            ext_at(old(self).wires(inp), x),
                            i as nat,
                            degree_bits as nat,
                        ),
                    ),
                ) by {
                s1.lemma_frame_value(*old(self), inp, eval.0);
                s2.lemma_frame_value(s1, inp, shift_val.0);
                s3.lemma_frame_value(*old(self), inp, sum.0);
                assert(ext_at(s3.wires(inp), term) == ext_at(s2.wires(inp), embedded).mul_spec(
                    ext_at(s2.wires(inp), shift_val),
                ));
            }
            assert forall|inp: Seq<Value<F, E, H::Hash>>|
                #[trigger] self.satisfied(inp) == old(self).satisfied(inp) by {
                assert(self.satisfied(inp) == s3.satisfied(inp));
                assert(s3.satisfied(inp) == s2.satisfied(inp));
                assert(s2.satisfied(inp) == s1.satisfied(inp));
            }
        }
        r
    }

    /// Appends the gates that add the blinding polynomials at the end of the
    /// first batch, unquotiented, to the sum.
    #[verifier::rlimit(100)]
    pub fn fri_combine_blinding(
        &mut self,
        instance: &FriInstanceInfoTarget,
        proof: &FriInitialTreeProofTarget,
        subgroup_x_ext: ExtensionTarget,
        sum: ExtensionTarget,
        params: &FriParams,
    ) -> (r: ExtensionTarget)
        requires
            0 < instance.batches@.len(),
            subgroup_x_ext.0 < old(self).num_gates(),
            sum.0 < old(self).num_gates(),
            rows_targets_below(proof@.leaves, old(self).num_gates()),
            polynomials_in_range(instance@),
            leaves_fit(proof@.leaves, instance.oracles@, *params),
            instance@.polynomials[0].len() * params.degree_bits <= usize::MAX,
            instance@.polynomials[0].len() <= E::characteristic_spec(),
        ensures
            final(self).frames(*old(self)),
            final(self).num_inputs == old(self).num_inputs,
            old(self).wf() ==> final(self).wf(),
            r.0 < final(self).num_gates(),
            forall|inp: Seq<Value<F, E, H::Hash>>|
                ext_at(#[trigger] final(self).wires(inp), r) == blinding_sum_at::<F, E>(
                    instance@.polynomials,
                    rows_bases_at(old(self).wires(inp), proof@.leaves),
                    ext_at(old(self).wires(inp), subgroup_x_ext),
                    params.degree_bits as nat,
                    ext_at(old(self).wires(inp), sum),
                    count_r_polys(instance@.polynomials[0], instance@.polynomials[0].len()),
                ),
            forall|inp: Seq<Value<F, E, H::Hash>>|
                #[trigger] final(self).satisfied(inp) == old(self).satisfied(inp),
    {
        let batch = &instance.batches[0];
        let nb_r_polys = count_r_targets(batch);
        let last_poly = batch.polynomials.len() - nb_r_polys;
        proof {
            assert(instance@.polynomials[0] == batch.polynomials@);
            self.lemma_frames_reflexive();
        }
        let mut acc = sum;
        let mut i: usize = 0;
        while i < nb_r_polys
            invariant
                i <= nb_r_polys,
                0 < instance.batches@.len(),
                *batch == instance.batches@[0],
                instance@.polynomials[0] == batch.polynomials@,
                nb_r_polys == count_r_polys(batch.polynomials@, batch.polynomials@.len()),
                last_poly + nb_r_polys == batch.polynomials@.len(),
                batch.polynomials@.len() <= usize::MAX,
                subgroup_x_ext.0 < old(self).num_gates(),
                sum.0 < old(self).num_gates(),
                rows_targets_below(proof@.leaves, old(self).num_gates()),
                polynomials_in_range(instance@),
                leaves_fit(proof@.leaves, instance.oracles@, *params),
                instance@.polynomials[0].len() * params.degree_bits <= usize::MAX,
                instance@.polynomials[0].len() <= E::characteristic_spec(),
                self.frames(*old(self)),
                self.num_inputs == old(self).num_inputs,
                old(self).wf() ==> self.wf(),
                acc.0 < self.num_gates(),
                forall|inp: Seq<Value<F, E, H::Hash>>|
                    ext_at(#[trigger] self.wires(inp), acc) == blinding_sum_at::<F, E>(
                        instance@.polynomials,
                        rows_bases_at(old(self).wires(inp), proof@.leaves),
                        ext_at(old(self).wires(inp), subgroup_x_ext),
                        params.degree_bits as nat,
                        ext_at(old(self).wires(inp), sum),
                        i as nat,
                    ),
                forall|inp: Seq<Value<F, E, H::Hash>>|
                    #[trigger] self.satisfied(inp) == old(self).satisfied(inp),
            decreases nb_r_polys - i,
        {
            let p = &batch.polynomials[last_poly + i];
            proof {
                let q = instance@.polynomials[0][last_poly + i];
                assert(q == *p);
                assert(proof@.leaves[p.oracle_index as int] == proof.evals_proofs@[p.oracle_index as int].0@);
                assert(targets_below(proof@.leaves[p.oracle_index as int], old(self).num_gates()));
                assert(i * params.degree_bits <= batch.polynomials@.len() * params.degree_bits)
                    by (nonlinear_arith)
                    requires
                        i <= batch.polynomials@.len(),
                ;
            }
            let poly_blinding = instance.oracles[p.oracle_index].blinding;
            let salted = params.hiding && poly_blinding;
            let eval = proof.unsalted_eval(p.oracle_index, p.polynomial_index, salted);
            let ghost before = *self;
            let prev = acc;
            acc = self.blinding_term(eval, subgroup_x_ext, i, params.degree_bits, prev);
            proof {
                self.lemma_frames_transitive(before, *old(self));
                assert forall|inp: Seq<Value<F, E, H::Hash>>|
                    ext_at(#[trigger] self.wires(inp), acc) == blinding_sum_at::<F, E>(
                        instance@.polynomials,
                        rows_bases_at(old(self).wires(inp), proof@.leaves),
                        ext_at(old(self).wires(inp), subgroup_x_ext),
                        params.degree_bits as nat,
                        ext_at(old(self).wires(inp), sum),
                        (i + 1) as nat,
                    ) by {
                    before.lemma_frame_value(*old(self), inp, eval.0);
                    before.lemma_frame_value(*old(self), inp, subgroup_x_ext.0);
                    let leaves = rows_bases_at(old(self).wires(inp), proof@.leaves);
                    assert(leaves[p.oracle_index as int][p.polynomial_index as int] == base_at(
                        old(self).wires(inp),
                        eval,
                    ));
                }
            }
            i = i + 1;
        }
        acc
    }

    /// Appends the gates that combine the evaluations of all opened
    /// polynomials at the queried point into the value of the batch
    /// polynomial there.
    #[verifier::rlimit(100)]
    pub fn fri_combine_initial(
        &mut self,
        instance: &FriInstanceInfoTarget,
        proof: &FriInitialTreeProofTarget,
        alpha: ExtensionTarget,
        subgroup_x: Target,
        precomputed_reduced_evals: &PrecomputedReducedEvalsTarget,
        params: &FriParams,
    ) -> (r: ExtensionTarget)
        requires
            alpha.0 < old(self).num_gates(),
            subgroup_x.0 < old(self).num_gates(),
            extensions_below(
                precomputed_reduced_evals.reduced_openings_at_point@,
                old(self).num_gates(),
            ),
            rows_targets_below(proof@.leaves, old(self).num_gates()),
            extensions_below(instance@.points, old(self).num_gates()),
            polynomials_in_range(instance@),
            leaves_fit(proof@.leaves, instance.oracles@, *params),
            blinding_fits::<E>(instance_at::<F, E, H::Hash>(Seq::empty(), instance@), *params),
        ensures
            final(self).frames(*old(self)),
            final(self).num_inputs == old(self).num_inputs,
            old(self).wf() ==> final(self).wf(),
            r.0 < final(self).num_gates(),
            forall|inp: Seq<Value<F, E, H::Hash>>|
                ext_at(#[trigger] final(self).wires(inp), r) == fri_combine_initial_spec::<F, E>(
                    instance_at(old(self).wires(inp), instance@),
                    rows_bases_at(old(self).wires(inp), proof@.leaves),
                    ext_at(old(self).wires(inp), alpha),
                    base_at(old(self).wires(inp), subgroup_x),
                    exts_at(
                        old(self).wires(inp),
                        precomputed_reduced_evals.reduced_openings_at_point@,
                    ),
                    *params,
                ),
            forall|inp: Seq<Value<F, E, H::Hash>>|
                #[trigger] final(self).satisfied(inp) == (old(self).satisfied(inp)
                    && quotients_well_posed::<F, E>(
                    exts_at(old(self).wires(inp), instance@.points),
                    base_at(old(self).wires(inp), subgroup_x),
                    combined_batches(
                        instance@,
                        precomputed_reduced_evals.reduced_openings_at_point@,
                    ),
                )),
    {
        let ghost reduced_t = precomputed_reduced_evals.reduced_openings_at_point@;
        let subgroup_x_ext = self.convert_to_ext(subgroup_x);
        let ghost s1 = *self;
        let mut alpha_factor = ReducingFactorTarget::new(alpha);
        let mut sum = self.zero_extension();
        let batches = if instance.batches.len() <= precomputed_reduced_evals.reduced_openings_at_point.len() {
            instance.batches.len()
        } else {
            precomputed_reduced_evals.reduced_openings_at_point.len()
        };
        proof {
            self.lemma_frames_transitive(s1, *old(self));
        }
        // If we are in the zk case, the `R` polynomial (the last polynomials in
        // the first batch) is added to the batch polynomial independently,
        // without being quotiented.
        let mut idx: usize = 0;
        while idx < batches
            invariant
                idx <= batches,
                batches == combined_batches(instance@, reduced_t),
                batches <= instance.batches@.len(),
                reduced_t == precomputed_reduced_evals.reduced_openings_at_point@,
                batches <= reduced_t.len(),
                alpha.0 < old(self).num_gates(),
                subgroup_x.0 < old(self).num_gates(),
                extensions_below(reduced_t, old(self).num_gates()),
                rows_targets_below(proof@.leaves, old(self).num_gates()),
                extensions_below(instance@.points, old(self).num_gates()),
                polynomials_in_range(instance@),
                leaves_fit(proof@.leaves, instance.oracles@, *params),
                blinding_fits::<E>(instance_at::<F, E, H::Hash>(Seq::empty(), instance@), *params),
                s1.defines(*old(self), Gate::ConvertToExt(subgroup_x)),
                subgroup_x_ext.0 == old(self).num_gates(),
                self.frames(s1),
                self.frames(*old(self)),
                self.num_inputs == old(self).num_inputs,
                old(self).wf() ==> self.wf(),
                alpha_factor.base == alpha,
                alpha_factor.count == 0,
                sum.0 < self.num_gates(),
                forall|inp: Seq<Value<F, E, H::Hash>>|
                    ext_at(#[trigger] self.wires(inp), sum) == combine_initial_prefix::<F, E>(
                        instance_at(old(self).wires(inp), instance@),
                        rows_bases_at(old(self).wires(inp), proof@.leaves),
                        ext_at(old(self).wires(inp), alpha),
                        base_at(old(self).wires(inp), subgroup_x),
                        exts_at(old(self).wires(inp), reduced_t),
                        *params,
                        idx as nat,
                    ),
                forall|inp: Seq<Value<F, E, H::Hash>>|
                    #[trigger] self.satisfied(inp) == (old(self).satisfied(inp)
                        && quotients_well_posed::<F, E>(
                        exts_at(old(self).wires(inp), instance@.points),
                        base_at(old(self).wires(inp), subgroup_x),
                        idx as nat,
                    )),
            decreases batches - idx,
        {
            let ghost before = *self;
            let prev = sum;
            let reduced_opening = precomputed_reduced_evals.reduced_openings_at_point[idx];
            proof {
                lemma_rows_targets_below(proof@.leaves, old(self).num_gates(), self.num_gates());
                assert(instance@.points.len() == instance.batches@.len());
            }
            let after_batch = self.fri_combine_batch(
                instance,
                proof,
                &mut alpha_factor,
                subgroup_x_ext,
                reduced_opening,
                idx,
                prev,
                params,
            );
            let ghost middle = *self;
            proof {
                middle.lemma_frames_transitive(before, *old(self));
                middle.lemma_frames_transitive(before, s1);
                assert(instance@.polynomials[0] == instance.batches@[0].polynomials@);
                assert(instance_at::<F, E, H::Hash>(Seq::empty(), instance@).polynomials[0]
                    == instance@.polynomials[0]);
            }
            if params.hiding && idx == 0 {
                proof {
                    lemma_rows_targets_below(proof@.leaves, old(self).num_gates(), self.num_gates());
                }
                sum = self.fri_combine_blinding(instance, proof, subgroup_x_ext, after_batch, params);
            } else {
                sum = after_batch;
                proof {
                    self.lemma_frames_reflexive();
                }
            }
            proof {
                self.lemma_frames_transitive(middle, *old(self));
                self.lemma_frames_transitive(middle, s1);
                assert forall|inp: Seq<Value<F, E, H::Hash>>|
                    ext_at(#[trigger] self.wires(inp), sum) == combine_initial_prefix::<F, E>(
                        instance_at(old(self).wires(inp), instance@),
                        rows_bases_at(old(self).wires(inp), proof@.leaves),
                        ext_at(old(self).wires(inp), alpha),
                        base_at(old(self).wires(inp), subgroup_x),
                        exts_at(old(self).wires(inp), reduced_t),
                        *params,
                        (idx + 1) as nat,
                    ) by {
                    let v0 = old(self).wires(inp);
                    let vb = before.wires(inp);
                    let vm = middle.wires(inp);
                    let iv = instance_at(v0, instance@);
                    let leaves = rows_bases_at(v0, proof@.leaves);
                    lemma_frame_combine_inputs(before, *old(self), inp, instance@, proof@.leaves);
                    lemma_frame_combine_inputs(middle, *old(self), inp, instance@, proof@.leaves);
                    before.lemma_frame_value(*old(self), inp, alpha.0);
                    before.lemma_frame_value(*old(self), inp, reduced_opening.0);
                    before.lemma_frame_value(*old(self), inp, instance@.points[idx as int].0);
                    before.lemma_frame_value(s1, inp, subgroup_x_ext.0);
                    middle.lemma_frame_value(s1, inp, subgroup_x_ext.0);
                    assert(ext_at(s1.wires(inp), subgroup_x_ext) == E::from_basefield_spec(
                        base_at(v0, subgroup_x),
                    ));
                    assert(batch_evals::<F, E>(
                        instance_at(vb, instance@),
                        leaves,
                        idx as int,
                        params.hiding,
                    ) =~= batch_evals::<F, E>(iv, leaves, idx as int, params.hiding));
                    assert(exts_at(v0, reduced_t)[idx as int] == ext_at(v0, reduced_opening));
                    assert(iv.points[idx as int] == ext_at(v0, instance@.points[idx as int]));
                    assert(quotiented_count(iv, idx as int, params.hiding) == quotiented_count(
                        instance@,
                        idx as int,
                        params.hiding,
                    ));
                    if params.hiding && idx == 0 {
                        lemma_blinding_sum_at::<F, E>(
                            iv,
                            leaves,
                            base_at(v0, subgroup_x),
                            params.degree_bits as nat,
                            ext_at(vm, after_batch),
                            count_r_polys(iv.polynomials[0], iv.polynomials[0].len()),
                        );
                    }
                }
                assert forall|inp: Seq<Value<F, E, H::Hash>>|
                    #[trigger] self.satisfied(inp) == (old(self).satisfied(inp)
                        && quotients_well_posed::<F, E>(
                        exts_at(old(self).wires(inp), instance@.points),
                        base_at(old(self).wires(inp), subgroup_x),
                        (idx + 1) as nat,
                    )) by {
                    let v0 = old(self).wires(inp);
                    before.lemma_frame_value(*old(self), inp, instance@.points[idx as int].0);
                    before.lemma_frame_value(s1, inp, subgroup_x_ext.0);
                    assert(ext_at(s1.wires(inp), subgroup_x_ext) == E::from_basefield_spec(
                        base_at(v0, subgroup_x),
                    ));
                    assert(self.satisfied(inp) == middle.satisfied(inp));
                    let points = exts_at(v0, instance@.points);
                    assert(points[idx as int] == ext_at(v0, instance@.points[idx as int]));
                }
            }
            idx = idx + 1;
        }
        sum
    }

    /// Appends the gates that start a query: the bits of the index, the index
    /// into the caps from the high bits, and the point of the domain with that
    /// index.
    #[verifier::rlimit(100)]
    pub fn fri_query_start(&mut self, x_index: Target, n_log: usize, cap_height: usize) -> (r: (
        Vec<BoolTarget>,
        Target,
        Target,
    ))
        requires
            x_index.0 < old(self).num_gates(),
            cap_height <= n_log,
            n_log <= F::two_adicity_spec(),
            n_log < usize::BITS,
        ensures
            final(self).frames(*old(self)),
            final(self).num_inputs == old(self).num_inputs,
            old(self).wf() ==> final(self).wf(),
            r.0@.len() == n_log,
            bools_below(r.0@, final(self).num_gates()),
            r.1.0 < final(self).num_gates(),
            r.2.0 < final(self).num_gates(),
            forall|inp: Seq<Value<F, E, H::Hash>>|
                bits_of(
                    #[trigger] final(self).wires(inp),
                    r.0@,
                    base_at(old(self).wires(inp), x_index).to_canonical_u64_spec() as nat % pow2(
                        n_log as nat,
                    ),
                    0,
                ) && base_at(final(self).wires(inp), r.1).to_canonical_u64_spec() == (base_at(
                    old(self).wires(inp),
                    x_index,
                ).to_canonical_u64_spec() as nat % pow2(n_log as nat) / pow2(
                    (n_log - cap_height) as nat,
                )) % pow2(
                    cap_height as nat,
                ) && base_at(final(self).wires(inp), r.2) == initial_x_spec::<F>(
                    base_at(old(self).wires(inp), x_index).to_canonical_u64_spec() as nat % pow2(
                        n_log as nat,
                    ),
                    n_log as nat,
                ),
            forall|inp: Seq<Value<F, E, H::Hash>>|
                #[trigger] final(self).satisfied(inp) == old(self).satisfied(inp),
    {
        let bits = self.low_bits(x_index, n_log);
        let ghost s1 = *self;
        let top = slice_to_vec(
            vstd::slice::slice_subrange(bits.as_slice(), n_log - cap_height, n_log),
        );
        proof {
            assert(top@ =~= bits@.skip((n_log - cap_height) as int));
        }
        let cap_index = self.le_sum(top.as_slice());
        let ghost s2 = *self;
        // `subgroup_x` is `subgroup[x_index]`, i.e., the actual field element in the domain.
        let g = self.constant(F::coset_shift());
        let ghost s3 = *self;
        let phi = F::primitive_root_of_unity(n_log);
        let rev = reversed_bits(bits.as_slice());
        let phi_t = self.exp_from_bits_const_base(phi, rev.as_slice());
        let ghost s4 = *self;
        let subgroup_x = self.mul(g, phi_t);
        proof {
            s2.lemma_frames_transitive(s1, *old(self));
            s3.lemma_frames_transitive(s2, *old(self));
            s3.lemma_frames_transitive(s2, s1);
            s4.lemma_frames_transitive(s3, *old(self));
            s4.lemma_frames_transitive(s3, s1);
            s4.lemma_frames_transitive(s3, s2);
            self.lemma_frames_transitive(s4, *old(self));
            self.lemma_frames_transitive(s4, s1);
            self.lemma_frames_transitive(s4, s2);
            self.lemma_frames_transitive(s4, s3);
            assert forall|inp: Seq<Value<F, E, H::Hash>>|
                bits_of(
                    #[trigger] self.wires(inp),
                    bits@,
                    base_at(old(self).wires(inp), x_index).to_canonical_u64_spec() as nat % pow2(
                        n_log as nat,
                    ),
                    0,
                ) && base_at(self.wires(inp), cap_index).to_canonical_u64_spec() == (base_at(
                    old(self).wires(inp),
                    x_index,
                ).to_canonical_u64_spec() as nat % pow2(n_log as nat) / pow2(
                    (n_log - cap_height) as nat,
                )) % pow2(
                    cap_height as nat,
                ) && base_at(self.wires(inp), subgroup_x) == initial_x_spec::<F>(
                    base_at(old(self).wires(inp), x_index).to_canonical_u64_spec() as nat % pow2(
                        n_log as nat,
                    ),
                    n_log as nat,
                ) by {
                let x = base_at(old(self).wires(inp), x_index).to_canonical_u64_spec() as nat;
                let v1 = s1.wires(inp);
                assert(bits_of(v1, bits@, x, 0));
                lemma_bits_of_frame(*self, s1, inp, bits@, x, 0);
                lemma_bits_of_frame(s3, s1, inp, bits@, x, 0);
                // the index into the caps
                lemma_bits_of_skip(v1, bits@, x, 0, (n_log - cap_height) as nat);
                lemma_le_value_of_bits(
                    v1,
                    top@,
                    x,
                    (n_log - cap_height) as nat,
                    cap_height as nat,
                );
                let entry = le_value(v1, top@, cap_height as nat);
                lemma_le_value_bound(v1, top@, cap_height as nat);
                F::lemma_distinct_constants();
                F::lemma_order();
                if cap_height < F::two_adicity_spec() {
                    vstd::arithmetic::power2::lemma_pow2_strictly_increases(
                        cap_height as nat,
                        F::two_adicity_spec(),
                    );
                }
                F::lemma_from_canonical(entry as u64);
                self.lemma_frame_value(s2, inp, cap_index.0);
                // the point
                lemma_le_value_reversed(s3.wires(inp), bits@, rev@, x, 0);
                crate::plonk::bits::lemma_div_pow2_zero(x);
                s4.lemma_frame_value(s3, inp, g.0);
                assert(base_at(s4.wires(inp), phi_t) == pow_spec(
                    phi,
                    le_value(s3.wires(inp), rev@, n_log as nat),
                ));
                // all of these read the index by its low bits
                assert(bits_of(self.wires(inp), bits@, x, 0));
                assert(base_at(self.wires(inp), cap_index).to_canonical_u64_spec() == (x / pow2(
                    (n_log - cap_height) as nat,
                )) % pow2(cap_height as nat));
                assert(base_at(self.wires(inp), subgroup_x) == initial_x_spec::<F>(x, n_log as nat));
                lemma_bits_of_remainder(self.wires(inp), bits@, x, n_log as nat);
                lemma_remainder_div_pow2(x, n_log as nat, (n_log - cap_height) as nat);
                vstd::arithmetic::div_mod::lemma_mod_twice(
                    (x / pow2((n_log - cap_height) as nat)) as int,
                    pow2(cap_height as nat) as int,
                );
                lemma_pow2_pos(cap_height as nat);
                crate::util::lemma_reverse_low_bits_of_remainder(x, n_log as nat);
            }
            assert forall|inp: Seq<Value<F, E, H::Hash>>|
                #[trigger] self.satisfied(inp) == old(self).satisfied(inp) by {
                assert(self.satisfied(inp) == s4.satisfied(inp));
                assert(s4.satisfied(inp) == s3.satisfied(inp));
                assert(s3.satisfied(inp) == s2.satisfied(inp));
                assert(s2.satisfied(inp) == s1.satisfied(inp));
            }
        }
        (bits, cap_index, subgroup_x)
    }

    /// Appends the gates that open a query: the bits of the index and the point
    /// of the domain, the constraints on the initial openings, and the
    /// combination of the opened evaluations.
    #[verifier::rlimit(100)]
    pub fn fri_query_open(
        &mut self,
        instance: &FriInstanceInfoTarget,
        alpha: ExtensionTarget,
        precomputed_reduced_evals: &PrecomputedReducedEvalsTarget,
        initial_merkle_caps: &[MerkleCapTarget],
        x_index: Target,
        round_proof: &FriQueryRoundTarget,
        params: &FriParams,
    ) -> (r: (Vec<BoolTarget>, Target, Target, ExtensionTarget))
        requires
            params.wf(),
            params.lde_bits_spec() <= F::two_adicity_spec(),
            extensions_below(instance@.points, old(self).num_gates()),
            alpha.0 < old(self).num_gates(),
            extensions_below(
                precomputed_reduced_evals.reduced_openings_at_point@,
                old(self).num_gates(),
            ),
            rows_hashes_below(caps_target_view(initial_merkle_caps@), old(self).num_gates()),
            x_index.0 < old(self).num_gates(),
            query_round_scoped(round_proof@, old(self).num_gates()),
            round_shape_ok(round_proof@, instance.oracles@, *params),
            polynomials_in_range(instance@),
            blinding_fits::<E>(instance_at::<F, E, H::Hash>(Seq::empty(), instance@), *params),
        ensures
            final(self).frames(*old(self)),
            final(self).num_inputs == old(self).num_inputs,
            old(self).wf() ==> final(self).wf(),
            r.0@.len() == params.lde_bits_spec(),
            bools_below(r.0@, final(self).num_gates()),
            r.1.0 < final(self).num_gates(),
            r.2.0 < final(self).num_gates(),
            r.3.0 < final(self).num_gates(),
            forall|inp: Seq<Value<F, E, H::Hash>>|
                query_opened::<F, E, H>(
                    #[trigger] final(self).wires(inp),
                    old(self).wires(inp),
                    r.0@,
                    r.1,
                    r.2,
                    r.3,
                    instance@,
                    alpha,
                    precomputed_reduced_evals.reduced_openings_at_point@,
                    x_index,
                    round_proof@,
                    *params,
                ),
            forall|inp: Seq<Value<F, E, H::Hash>>|
                #[trigger] final(self).satisfied(inp) == (old(self).satisfied(inp)
                    && first_bad_oracle::<F, H>(
                    query_index_at(old(self).wires(inp), x_index, *params),
                    initial_tree_at(old(self).wires(inp), round_proof@.initial),
                    rows_digests_at(old(self).wires(inp), caps_target_view(initial_merkle_caps@)),
                    checked_oracles(round_proof@.initial, caps_target_view(initial_merkle_caps@)),
                ) is None && quotients_well_posed::<F, E>(
                    exts_at(old(self).wires(inp), instance@.points),
                    initial_x_spec::<F>(
                        query_index_at(old(self).wires(inp), x_index, *params),
                        params.lde_bits_spec(),
                    ),
                    combined_batches(
                        instance@,
                        precomputed_reduced_evals.reduced_openings_at_point@,
                    ),
                )),
    {
        let n_log = params.lde_bits();
        let (bits, cap_index, subgroup_x) = self.fri_query_start(
            x_index,
            n_log,
            params.config.cap_height,
        );
        let ghost s1 = *self;
        proof {
            lemma_query_round_scoped(round_proof@, old(self).num_gates(), s1.num_gates());
            lemma_rows_hashes_below(
                caps_target_view(initial_merkle_caps@),
                old(self).num_gates(),
                s1.num_gates(),
            );
            assert(round_proof.initial_trees_proof@ == round_proof@.initial);
        }
        self.fri_verify_initial_proof(
            bits.as_slice(),
            &round_proof.initial_trees_proof,
            initial_merkle_caps,
            cap_index,
        );
        let ghost s2 = *self;
        proof {
            s2.lemma_frames_transitive(s1, *old(self));
            lemma_rows_targets_below(
                round_proof@.initial.leaves,
                old(self).num_gates(),
                s2.num_gates(),
            );
            assert(leaves_fit(round_proof@.initial.leaves, instance.oracles@, *params)) by {
                assert forall|o: int| 0 <= o < instance.oracles@.len() implies (
                #[trigger] round_proof@.initial.leaves[o]).len() == instance.oracles@[o].num_polys
                    + crate::fri::structure::salt_size_spec(
                    instance.oracles@[o].blinding && params.hiding,
                ) by {
                    assert(leaf_shape_ok(
                        round_proof@.initial.leaves[o],
                        round_proof@.initial.siblings[o],
                        instance.oracles@[o],
                        *params,
                    ));
                }
            }
        }
        // old_eval is the last derived evaluation; it will be checked for
        // consistency with its committed "parent" value in the next iteration.
        let old_eval = self.fri_combine_initial(
            instance,
            &round_proof.initial_trees_proof,
            alpha,
            subgroup_x,
            precomputed_reduced_evals,
            params,
        );
        proof {
            self.lemma_frames_transitive(s2, *old(self));
            self.lemma_frames_transitive(s2, s1);
            assert forall|inp: Seq<Value<F, E, H::Hash>>|
                query_opened::<F, E, H>(
                    #[trigger] self.wires(inp),
                    old(self).wires(inp),
                    bits@,
                    cap_index,
                    subgroup_x,
                    old_eval,
                    instance@,
                    alpha,
                    precomputed_reduced_evals.reduced_openings_at_point@,
                    x_index,
                    round_proof@,
                    *params,
                ) by {
                let v0 = old(self).wires(inp);
                let x = query_index_at(v0, x_index, *params);
                lemma_bits_of_frame(*self, s1, inp, bits@, x, 0);
                self.lemma_frame_value(s1, inp, cap_index.0);
                self.lemma_frame_value(s1, inp, subgroup_x.0);
                s2.lemma_frame_value(s1, inp, subgroup_x.0);
                s2.lemma_frame_value(*old(self), inp, alpha.0);
                s2.lemma_frame_exts(
                    *old(self),
                    inp,
                    precomputed_reduced_evals.reduced_openings_at_point@,
                );
                lemma_frame_combine_inputs(
                    s2,
                    *old(self),
                    inp,
                    instance@,
                    round_proof@.initial.leaves,
                );
            }
            assert forall|inp: Seq<Value<F, E, H::Hash>>|
                #[trigger] self.satisfied(inp) == (old(self).satisfied(inp)
                    && first_bad_oracle::<F, H>(
                    query_index_at(old(self).wires(inp), x_index, *params),
                    initial_tree_at(old(self).wires(inp), round_proof@.initial),
                    rows_digests_at(old(self).wires(inp), caps_target_view(initial_merkle_caps@)),
                    checked_oracles(round_proof@.initial, caps_target_view(initial_merkle_caps@)),
                ) is None && quotients_well_posed::<F, E>(
                    exts_at(old(self).wires(inp), instance@.points),
                    initial_x_spec::<F>(
                        query_index_at(old(self).wires(inp), x_index, *params),
                        params.lde_bits_spec(),
                    ),
                    combined_batches(
                        instance@,
                        precomputed_reduced_evals.reduced_openings_at_point@,
                    ),
                )) by {
                lemma_query_index_at::<F, E, H::Hash>(old(self).wires(inp), x_index, *params);
                let v0 = old(self).wires(inp);
                let x = query_index_at(v0, x_index, *params);
                let caps = caps_target_view(initial_merkle_caps@);
                let n = checked_oracles(round_proof@.initial, caps);
                lemma_initial_gates_parity::<F, E, H>(
                    s1,
                    *old(self),
                    inp,
                    bits@,
                    round_proof@.initial,
                    caps,
                    cap_index,
                    x,
                    *params,
                    instance.oracles@,
                    n,
                );
                s2.lemma_frame_value(s1, inp, subgroup_x.0);
                s2.lemma_frame_exts(*old(self), inp, instance@.points);
                assert(s1.satisfied(inp) == old(self).satisfied(inp));
            }
        }
        (bits, cap_index, subgroup_x, old_eval)
    }

    /// Appends the gates of one query round: the initial openings, the folding
    /// walk and the final check. The gates read the query index by its low
    /// bits: they can be satisfied where, at the index that these bits give,
    /// the query divides by units only and the verifier over field values
    /// accepts the round.
    #[verifier::rlimit(100)]
    pub fn fri_verifier_query_round(
        &mut self,
        instance: &FriInstanceInfoTarget,
        challenges: &FriChallengesTarget,
        precomputed_reduced_evals: &PrecomputedReducedEvalsTarget,
        initial_merkle_caps: &[MerkleCapTarget],
        proof: &FriProofTarget,
        x_index: Target,
        n: usize,
        round_proof: &FriQueryRoundTarget,
        params: &FriParams,
        round: usize,
    )
        requires
            n == pow2(params.lde_bits_spec()),
            params.wf(),
            params.lde_bits_spec() <= F::two_adicity_spec(),
            extensions_below(instance@.points, old(self).num_gates()),
            challenges_scoped(challenges@, old(self).num_gates()),
            extensions_below(
                precomputed_reduced_evals.reduced_openings_at_point@,
                old(self).num_gates(),
            ),
            rows_hashes_below(caps_target_view(initial_merkle_caps@), old(self).num_gates()),
            rows_hashes_below(proof@.commit_caps, old(self).num_gates()),
            extensions_below(proof@.final_poly, old(self).num_gates()),
            x_index.0 < old(self).num_gates(),
            query_round_scoped(round_proof@, old(self).num_gates()),
            round_shape_ok(round_proof@, instance.oracles@, *params),
            proof@.commit_caps.len() == params.reduction_arity_bits@.len(),
            challenges@.betas.len() >= params.reduction_arity_bits@.len(),
            polynomials_in_range(instance@),
            blinding_fits::<E>(instance_at::<F, E, H::Hash>(Seq::empty(), instance@), *params),
        ensures
            final(self).frames(*old(self)),
            final(self).num_inputs == old(self).num_inputs,
            old(self).wf() ==> final(self).wf(),
            forall|inp: Seq<Value<F, E, H::Hash>>|
                #[trigger] final(self).satisfied(inp) == (old(self).satisfied(inp)
                    && round_holds::<F, E, H>(
                    target_query_inputs(
                        old(self).wires(inp),
                        instance@,
                        challenges@,
                        precomputed_reduced_evals.reduced_openings_at_point@,
                        caps_target_view(initial_merkle_caps@),
                        proof@,
                        x_index,
                        round_proof@,
                        *params,
                        round,
                    ),
                )),
    {
        let ghost reduced_t = precomputed_reduced_evals.reduced_openings_at_point@;
        let ghost caps_t = caps_target_view(initial_merkle_caps@);
        let opened = self.fri_query_open(
            instance,
            challenges.fri_alpha,
            precomputed_reduced_evals,
            initial_merkle_caps,
            x_index,
            round_proof,
            params,
        );
        let mut x_index_bits = opened.0;
        let cap_index = opened.1;
        let mut subgroup_x = opened.2;
        let mut old_eval = opened.3;
        let ghost opened_state = *self;
        let layers = params.reduction_arity_bits.len();
        let mut i: usize = 0;
        proof {
            self.lemma_frames_reflexive();
            assert forall|inp: Seq<Value<F, E, H::Hash>>|
                walk_state::<F, E, H>(
                    #[trigger] self.wires(inp),
                    target_query_inputs(
                        old(self).wires(inp),
                        instance@,
                        challenges@,
                        reduced_t,
                        caps_t,
                        proof@,
                        x_index,
                        round_proof@,
                        *params,
                        round,
                    ),
                    x_index_bits@,
                    cap_index,
                    subgroup_x,
                    old_eval,
                    0,
                ) by {
                let v0 = old(self).wires(inp);
                let q = target_query_inputs::<F, E, H::Hash>(
                    v0,
                    instance@,
                    challenges@,
                    reduced_t,
                    caps_t,
                    proof@,
                    x_index,
                    round_proof@,
                    *params,
                    round,
                );
                assert(q.round_proof.initial.leaves == rows_bases_at(
                    v0,
                    round_proof@.initial.leaves,
                ));
            }
        }
        while i < layers
            invariant
                i <= layers,
                layers == params.reduction_arity_bits@.len(),
                reduced_t == precomputed_reduced_evals.reduced_openings_at_point@,
                caps_t == caps_target_view(initial_merkle_caps@),
                params.wf(),
                params.lde_bits_spec() <= F::two_adicity_spec(),
                challenges_scoped(challenges@, old(self).num_gates()),
                rows_hashes_below(proof@.commit_caps, old(self).num_gates()),
                query_round_scoped(round_proof@, old(self).num_gates()),
                round_shape_ok(round_proof@, instance.oracles@, *params),
                proof@.commit_caps.len() == params.reduction_arity_bits@.len(),
                challenges@.betas.len() >= params.reduction_arity_bits@.len(),
                self.frames(*old(self)),
                self.frames(opened_state),
                opened_state.frames(*old(self)),
                self.num_inputs == old(self).num_inputs,
                old(self).wf() ==> self.wf(),
                x_index_bits@.len() == params.lde_bits_spec() - sum_prefix(
                    params.reduction_arity_bits@,
                    i as nat,
                ),
                bools_below(x_index_bits@, self.num_gates()),
                cap_index.0 < opened_state.num_gates(),
                subgroup_x.0 < self.num_gates(),
                old_eval.0 < self.num_gates(),
                forall|inp: Seq<Value<F, E, H::Hash>>|
                    walk_state::<F, E, H>(
                        #[trigger] self.wires(inp),
                        target_query_inputs(
                            old(self).wires(inp),
                            instance@,
                            challenges@,
                            reduced_t,
                            caps_t,
                            proof@,
                            x_index,
                            round_proof@,
                            *params,
                            round,
                        ),
                        x_index_bits@,
                        cap_index,
                        subgroup_x,
                        old_eval,
                        i as nat,
                    ),
                forall|inp: Seq<Value<F, E, H::Hash>>|
                    #[trigger] self.satisfied(inp) == (old(self).satisfied(inp)
                        && walk_holds::<F, E, H>(
                        target_query_inputs(
                            old(self).wires(inp),
                            instance@,
                            challenges@,
                            reduced_t,
                            caps_t,
                            proof@,
                            x_index,
                            round_proof@,
                            *params,
                            round,
                        ),
                        i as nat,
                    )),
            decreases layers - i,
        {
            let arity_bits = params.reduction_arity_bits[i];
            let evals = &round_proof.steps[i].evals;
            let ghost before = *self;
            let ghost bits_before = x_index_bits@;
            let ghost x_before = subgroup_x;
            let ghost eval_before = old_eval;
            proof {
                lemma_arity_bits_bound(*params, i as int);
                lemma_sum_prefix_monotonic(params.reduction_arity_bits@, (i + 1) as nat, layers as nat);
                assert(round_proof@.step_evals[i as int] == evals@);
                assert(round_proof@.step_siblings[i as int]
                    == round_proof.steps@[i as int].merkle_proof.siblings@);
                assert(proof@.commit_caps[i as int] == proof.commit_phase_merkle_caps@[i as int].0@);
                assert(challenges@.betas[i as int] == challenges.fri_betas@[i as int]);
                assert(step_shape_ok(
                    round_proof@.step_evals[i as int],
                    round_proof@.step_siblings[i as int],
                    *params,
                    i as int,
                ));
                assert(extensions_below(round_proof@.step_evals[i as int], old(self).num_gates()));
                assert(hashes_below(round_proof@.step_siblings[i as int], old(self).num_gates()));
                assert(hashes_below(proof@.commit_caps[i as int], old(self).num_gates()));
            }
            let folded = self.fri_fold_layer(
                x_index_bits.as_slice(),
                cap_index,
                subgroup_x,
                old_eval,
                arity_bits,
                evals.as_slice(),
                challenges.fri_betas[i],
                &proof.commit_phase_merkle_caps[i],
                &round_proof.steps[i].merkle_proof,
            );
            subgroup_x = folded.0;
            old_eval = folded.1;
            x_index_bits = folded.2;
            proof {
                self.lemma_frames_transitive(before, *old(self));
                self.lemma_frames_transitive(before, opened_state);
                assert forall|inp: Seq<Value<F, E, H::Hash>>|
                    walk_state::<F, E, H>(
                        #[trigger] self.wires(inp),
                        target_query_inputs(
                            old(self).wires(inp),
                            instance@,
                            challenges@,
                            reduced_t,
                            caps_t,
                            proof@,
                            x_index,
                            round_proof@,
                            *params,
                            round,
                        ),
                        x_index_bits@,
                        cap_index,
                        subgroup_x,
                        old_eval,
                        (i + 1) as nat,
                    ) by {
                    let v0 = old(self).wires(inp);
                    let vb = before.wires(inp);
                    let q = target_query_inputs::<F, E, H::Hash>(
                        v0,
                        instance@,
                        challenges@,
                        reduced_t,
                        caps_t,
                        proof@,
                        x_index,
                        round_proof@,
                        *params,
                        round,
                    );
                    before.lemma_frame_exts(*old(self), inp, evals@);
                    before.lemma_frame_value(*old(self), inp, challenges.fri_betas@[i as int].0);
                    lemma_fold_layer_values::<F, E, H>(
                        vb,
                        q,
                        i as nat,
                        bits_before,
                        cap_index,
                        x_before,
                        eval_before,
                        evals@,
                        challenges.fri_betas@[i as int],
                    );
                    lemma_bits_of_skip(
                        vb,
                        bits_before,
                        q.x_index,
                        sum_prefix(params.reduction_arity_bits@, i as nat),
                        arity_bits as nat,
                    );
                    lemma_bits_of_frame(
                        *self,
                        before,
                        inp,
                        x_index_bits@,
                        q.x_index,
                        sum_prefix(params.reduction_arity_bits@, (i + 1) as nat),
                    );
                    self.lemma_frame_value(opened_state, inp, cap_index.0);
                    before.lemma_frame_value(opened_state, inp, cap_index.0);
                }
                assert forall|inp: Seq<Value<F, E, H::Hash>>|
                    #[trigger] self.satisfied(inp) == (old(self).satisfied(inp)
                        && walk_holds::<F, E, H>(
                        target_query_inputs(
                            old(self).wires(inp),
                            instance@,
                            challenges@,
                            reduced_t,
                            caps_t,
                            proof@,
                            x_index,
                            round_proof@,
                            *params,
                            round,
                        ),
                        (i + 1) as nat,
                    )) by {
                lemma_query_index_at::<F, E, H::Hash>(old(self).wires(inp), x_index, *params);
                    let v0 = old(self).wires(inp);
                    let vb = before.wires(inp);
                    let q = target_query_inputs::<F, E, H::Hash>(
                        v0,
                        instance@,
                        challenges@,
                        reduced_t,
                        caps_t,
                        proof@,
                        x_index,
                        round_proof@,
                        *params,
                        round,
                    );
                    before.lemma_frame_exts(*old(self), inp, evals@);
                    before.lemma_frame_value(*old(self), inp, challenges.fri_betas@[i as int].0);
                    before.lemma_frame_digests(*old(self), inp, proof@.commit_caps[i as int]);
                    before.lemma_frame_digests(
                        *old(self),
                        inp,
                        round_proof@.step_siblings[i as int],
                    );
                    assert(walk_state::<F, E, H>(
                        vb,
                        q,
                        bits_before,
                        cap_index,
                        x_before,
                        eval_before,
                        i as nat,
                    ));
                    lemma_fold_layer_parity::<F, E, H>(
                        vb,
                        q,
                        i as nat,
                        bits_before,
                        cap_index,
                        x_before,
                        eval_before,
                        evals@,
                        challenges.fri_betas@[i as int],
                        proof@.commit_caps[i as int],
                        round_proof@.step_siblings[i as int],
                    );
                }
            }
            i = i + 1;
        }
        // Final check. After all the reductions, we check that the final
        // polynomial is equal to the one sent by the prover.
        let ghost walked = *self;
        let final_poly = PolynomialCoeffsExtTarget(slice_to_vec(proof.final_poly.as_slice()));
        proof {
            assert(extensions_below(final_poly.0@, self.num_gates()));
        }
        let eval = final_poly.eval_scalar(self, subgroup_x);
        let ghost evaluated = *self;
        self.connect_extension(eval, old_eval);
        proof {
            evaluated.lemma_frames_transitive(walked, *old(self));
            self.lemma_frames_transitive(evaluated, *old(self));
            assert forall|inp: Seq<Value<F, E, H::Hash>>|
                #[trigger] self.satisfied(inp) == (old(self).satisfied(inp)
                    && round_holds::<F, E, H>(
                    target_query_inputs(
                        old(self).wires(inp),
                        instance@,
                        challenges@,
                        reduced_t,
                        caps_t,
                        proof@,
                        x_index,
                        round_proof@,
                        *params,
                        round,
                    ),
                )) by {
                lemma_query_index_at::<F, E, H::Hash>(old(self).wires(inp), x_index, *params);
                let v0 = old(self).wires(inp);
                let vw = walked.wires(inp);
                let q = target_query_inputs::<F, E, H::Hash>(
                    v0,
                    instance@,
                    challenges@,
                    reduced_t,
                    caps_t,
                    proof@,
                    x_index,
                    round_proof@,
                    *params,
                    round,
                );
                walked.lemma_frame_exts(*old(self), inp, proof@.final_poly);
                evaluated.lemma_frame_value(walked, inp, old_eval.0);
                assert(walk_state::<F, E, H>(
                    vw,
                    q,
                    x_index_bits@,
                    cap_index,
                    subgroup_x,
                    old_eval,
                    layers as nat,
                ));
                assert(evaluated.satisfied(inp) == walked.satisfied(inp));
                assert(self.satisfied(inp) == (evaluated.satisfied(inp) && ext_at(
                    evaluated.wires(inp),
                    eval,
                ) == ext_at(evaluated.wires(inp), old_eval)));
            }
        }
    }

    /// Appends the gates that verify a proof against the instance, the claimed
    /// openings, the challenges and the caps of the initial oracles, all held
    /// by targets. The gates read every query index by its low bits: the
    /// inputs satisfy the gates where, at the indices that these bits give,
    /// every query divides by units only and the verifier over field values
    /// accepts what the targets hold.
    #[verifier::rlimit(100)]
    pub fn verify_fri_proof(
        &mut self,
        instance: &FriInstanceInfoTarget,
        openings: &FriOpeningsTarget,
        challenges: &FriChallengesTarget,
        initial_merkle_caps: &[MerkleCapTarget],
        proof: &FriProofTarget,
        params: &FriParams,
    )
        requires
            params.wf(),
            params.lde_bits_spec() <= F::two_adicity_spec(),
            recursion_config_fits(
                old(self).config,
                params.reduction_arity_bits@,
                E::dimension_spec(),
            ),
            extensions_below(instance@.points, old(self).num_gates()),
            rows_extensions_below(openings@, old(self).num_gates()),
            challenges_scoped(challenges@, old(self).num_gates()),
            rows_hashes_below(caps_target_view(initial_merkle_caps@), old(self).num_gates()),
            proof_scoped(proof@, old(self).num_gates()),
            proof_shape_ok(proof@, instance.oracles@, *params),
            challenges@.betas.len() >= params.reduction_arity_bits@.len(),
            challenges@.query_indices.len() == proof@.rounds.len(),
            polynomials_in_range(instance@),
            blinding_fits::<E>(instance_at::<F, E, H::Hash>(Seq::empty(), instance@), *params),
            openings_fit(openings@, params.hiding),
        ensures
            final(self).frames(*old(self)),
            final(self).num_inputs == old(self).num_inputs,
            old(self).wf() ==> final(self).wf(),
            forall|inp: Seq<Value<F, E, H::Hash>>|
                #[trigger] final(self).satisfied(inp) == (old(self).satisfied(inp)
                    && fri_well_posed::<F, E>(
                    instance_at(old(self).wires(inp), instance@),
                    rows_exts_at(old(self).wires(inp), openings@),
                    challenges_at(old(self).wires(inp), challenges@, *params),
                    *params,
                ) && verify_fri_proof_spec::<F, E, H>(
                    instance_at(old(self).wires(inp), instance@),
                    rows_exts_at(old(self).wires(inp), openings@),
                    challenges_at(old(self).wires(inp), challenges@, *params),
                    rows_digests_at(old(self).wires(inp), caps_target_view(initial_merkle_caps@)),
                    proof_at(old(self).wires(inp), proof@),
                    *params,
                ) is Ok),
    {
        let ghost caps_t = caps_target_view(initial_merkle_caps@);
        // Size of the LDE domain.
        let n = params.lde_size();
        self.fri_verify_proof_of_work(challenges.fri_pow_response, &params.config);
        let ghost s1 = *self;
        let precomputed_reduced_evals = PrecomputedReducedEvalsTarget::from_os_and_alpha(
            openings,
            challenges.fri_alpha,
            params.hiding,
            self,
        );
        let ghost s2 = *self;
        let ghost reduced_t = precomputed_reduced_evals.reduced_openings_at_point@;
        let rounds = proof.query_round_proofs.len();
        let mut i: usize = 0;
        proof {
            s2.lemma_frames_transitive(s1, *old(self));
            self.lemma_frames_reflexive();
            lemma_rows_extensions_below(openings@, old(self).num_gates(), s1.num_gates());
            assert forall|inp: Seq<Value<F, E, H::Hash>>| #[trigger]
                s2.satisfied(inp) == (old(self).satisfied(inp) && proof_of_work_ok(
                    base_at(old(self).wires(inp), challenges.fri_pow_response),
                    params.config,
                )) by {
                assert(s2.satisfied(inp) == s1.satisfied(inp));
            }
            assert forall|inp: Seq<Value<F, E, H::Hash>>|
                exts_at(#[trigger] s2.wires(inp), reduced_t) == reduced_openings_spec(
                    rows_exts_at(old(self).wires(inp), openings@),
                    ext_at(old(self).wires(inp), challenges.fri_alpha),
                    params.hiding,
                ) by {
                s1.lemma_frame_value(*old(self), inp, challenges.fri_alpha.0);
                lemma_frame_rows_exts(s1, *old(self), inp, openings@);
            }
        }
        while i < rounds
            invariant
                i <= rounds,
                rounds == proof.query_round_proofs@.len(),
                rounds == proof@.rounds.len(),
                caps_t == caps_target_view(initial_merkle_caps@),
                reduced_t == precomputed_reduced_evals.reduced_openings_at_point@,
                n == pow2(params.lde_bits_spec()),
                params.wf(),
                params.lde_bits_spec() <= F::two_adicity_spec(),
                extensions_below(instance@.points, old(self).num_gates()),
                rows_extensions_below(openings@, old(self).num_gates()),
                challenges_scoped(challenges@, old(self).num_gates()),
                rows_hashes_below(caps_t, old(self).num_gates()),
                proof_scoped(proof@, old(self).num_gates()),
                extensions_below(reduced_t, s2.num_gates()),
                proof_shape_ok(proof@, instance.oracles@, *params),
                challenges@.betas.len() >= params.reduction_arity_bits@.len(),
                challenges@.query_indices.len() == proof@.rounds.len(),
                polynomials_in_range(instance@),
                blinding_fits::<E>(instance_at::<F, E, H::Hash>(Seq::empty(), instance@), *params),
                s2.frames(*old(self)),
                self.frames(s2),
                self.frames(*old(self)),
                self.num_inputs == old(self).num_inputs,
                old(self).wf() ==> self.wf(),
                forall|inp: Seq<Value<F, E, H::Hash>>|
                    exts_at(#[trigger] s2.wires(inp), reduced_t) == reduced_openings_spec(
                        rows_exts_at(old(self).wires(inp), openings@),
                        ext_at(old(self).wires(inp), challenges.fri_alpha),
                        params.hiding,
                    ),
                forall|inp: Seq<Value<F, E, H::Hash>>|
                    #[trigger] self.satisfied(inp) == (old(self).satisfied(inp)
                        && proof_of_work_ok(
                        base_at(old(self).wires(inp), challenges.fri_pow_response),
                        params.config,
                    ) && rounds_hold::<F, E, H>(
                        instance_at(old(self).wires(inp), instance@),
                        rows_exts_at(old(self).wires(inp), openings@),
                        challenges_at(old(self).wires(inp), challenges@, *params),
                        rows_digests_at(old(self).wires(inp), caps_t),
                        proof_at(old(self).wires(inp), proof@),
                        *params,
                        i as nat,
                    )),
            decreases rounds - i,
        {
            let ghost before = *self;
            let x_index = challenges.fri_query_indices[i];
            let round_proof = &proof.query_round_proofs[i];
            proof {
                let m = self.num_gates();
                let n0 = old(self).num_gates();
                assert(proof@.rounds[i as int] == round_proof@);
                assert(query_round_scoped(proof@.rounds[i as int], n0));
                lemma_query_round_scoped(round_proof@, n0, m);
                lemma_rows_hashes_below(caps_t, n0, m);
                lemma_rows_hashes_below(proof@.commit_caps, n0, m);
                assert(round_shape_ok(proof@.rounds[i as int], instance.oracles@, *params));
                assert(challenges@.query_indices[i as int] == x_index);
            }
            self.fri_verifier_query_round(
                instance,
                challenges,
                &precomputed_reduced_evals,
                initial_merkle_caps,
                proof,
                x_index,
                n,
                round_proof,
                params,
                i,
            );
            proof {
                self.lemma_frames_transitive(before, s2);
                self.lemma_frames_transitive(before, *old(self));
                assert forall|inp: Seq<Value<F, E, H::Hash>>|
                    #[trigger] self.satisfied(inp) == (old(self).satisfied(inp)
                        && proof_of_work_ok(
                        base_at(old(self).wires(inp), challenges.fri_pow_response),
                        params.config,
                    ) && rounds_hold::<F, E, H>(
                        instance_at(old(self).wires(inp), instance@),
                        rows_exts_at(old(self).wires(inp), openings@),
                        challenges_at(old(self).wires(inp), challenges@, *params),
                        rows_digests_at(old(self).wires(inp), caps_t),
                        proof_at(old(self).wires(inp), proof@),
                        *params,
                        (i + 1) as nat,
                    )) by {
                    let v0 = old(self).wires(inp);
                    before.lemma_frame_value(*old(self), inp, x_index.0);
                    lemma_query_index_at::<F, E, H::Hash>(
                        v0,
                        challenges@.query_indices[i as int],
                        *params,
                    );
                    before.lemma_frame_exts(s2, inp, reduced_t);
                    lemma_round_inputs_frame::<F, E, H>(
                        before,
                        *old(self),
                        inp,
                        instance@,
                        openings@,
                        challenges@,
                        reduced_t,
                        caps_t,
                        proof@,
                        *params,
                        i as int,
                    );
                }
            }
            i = i + 1;
        }
        proof {
            assert forall|inp: Seq<Value<F, E, H::Hash>>|
                #[trigger] self.satisfied(inp) == (old(self).satisfied(inp)
                    && fri_well_posed::<F, E>(
                    instance_at(old(self).wires(inp), instance@),
                    rows_exts_at(old(self).wires(inp), openings@),
                    challenges_at(old(self).wires(inp), challenges@, *params),
                    *params,
                ) && verify_fri_proof_spec::<F, E, H>(
                    instance_at(old(self).wires(inp), instance@),
                    rows_exts_at(old(self).wires(inp), openings@),
                    challenges_at(old(self).wires(inp), challenges@, *params),
                    rows_digests_at(old(self).wires(inp), caps_t),
                    proof_at(old(self).wires(inp), proof@),
                    *params,
                ) is Ok) by {
                let v0 = old(self).wires(inp);
                lemma_shape_of_values::<F, E, H::Hash>(v0, proof@, instance.oracles@, *params);
                lemma_rounds_hold::<F, E, H>(
                    instance_at(v0, instance@),
                    rows_exts_at(v0, openings@),
                    challenges_at(v0, challenges@, *params),
                    rows_digests_at(v0, caps_t),
                    proof_at(v0, proof@),
                    *params,
                    rounds as nat,
                );
            }
        }
    }

    /// Appends the gates of one folding step: the evaluations of the step are
    /// constrained to hold the running evaluation at the place of the point
    /// within its coset and to authenticate against the cap of the layer; the
    /// running evaluation is folded, the point raised to the arity, and the
    /// low bits of the index dropped.
    #[verifier::rlimit(100)]
    pub fn fri_fold_layer(
        &mut self,
        x_index_bits: &[BoolTarget],
        cap_index: Target,
        subgroup_x: Target,
        old_eval: ExtensionTarget,
        arity_bits: usize,
        evals: &[ExtensionTarget],
        beta: ExtensionTarget,
        cap: &MerkleCapTarget,
        merkle_proof: &MerkleProofTarget,
    ) -> (r: (Target, ExtensionTarget, Vec<BoolTarget>))
        requires
            bools_below(x_index_bits@, old(self).num_gates()),
            cap_index.0 < old(self).num_gates(),
            subgroup_x.0 < old(self).num_gates(),
            old_eval.0 < old(self).num_gates(),
            extensions_below(evals@, old(self).num_gates()),
            beta.0 < old(self).num_gates(),
            hashes_below(cap.0@, old(self).num_gates()),
            hashes_below(merkle_proof.siblings@, old(self).num_gates()),
            arity_bits <= x_index_bits@.len(),
            arity_bits < usize::BITS,
            arity_bits <= F::two_adicity_spec(),
            evals@.len() == pow2(arity_bits as nat),
        ensures
            final(self).frames(*old(self)),
            final(self).num_inputs == old(self).num_inputs,
            old(self).wf() ==> final(self).wf(),
            r.0.0 < final(self).num_gates(),
            r.1.0 < final(self).num_gates(),
            r.2@ == x_index_bits@.skip(arity_bits as int),
            forall|inp: Seq<Value<F, E, H::Hash>>|
                base_at(#[trigger] final(self).wires(inp), r.0) == pow_spec(
                    base_at(old(self).wires(inp), subgroup_x),
                    pow2(arity_bits as nat),
                ) && ext_at(final(self).wires(inp), r.1) == compute_evaluation_spec::<F, E>(
                    base_at(old(self).wires(inp), subgroup_x),
                    le_value(old(self).wires(inp), x_index_bits@, arity_bits as nat),
                    arity_bits as nat,
                    exts_at(old(self).wires(inp), evals@),
                    ext_at(old(self).wires(inp), beta),
                ),
            forall|inp: Seq<Value<F, E, H::Hash>>|
                #[trigger] final(self).satisfied(inp) == (old(self).satisfied(inp) && fold_gates_hold::<
                    F,
                    E,
                    H,
                >(
                    old(self).wires(inp),
                    x_index_bits@,
                    cap_index,
                    subgroup_x,
                    old_eval,
                    arity_bits as nat,
                    evals@,
                    beta,
                    cap.0@,
                    merkle_proof.siblings@,
                )),
    {
        let within_bits = slice_to_vec(
            vstd::slice::slice_subrange(x_index_bits, 0, arity_bits),
        );
        let coset_bits = slice_to_vec(
            vstd::slice::slice_subrange(x_index_bits, arity_bits, x_index_bits.len()),
        );
        proof {
            assert(coset_bits@ =~= x_index_bits@.skip(arity_bits as int));
            assert(within_bits@ =~= x_index_bits@.take(arity_bits as int));
            lemma_shift_is_pow2(arity_bits);
        }
        let x_index_within_coset = self.le_sum(within_bits.as_slice());
        let ghost s1 = *self;
        // Check consistency with our old evaluation from the previous round.
        self.random_access_extension(x_index_within_coset, old_eval, evals);
        let ghost s2 = *self;
        proof {
            s2.lemma_frames_transitive(s1, *old(self));
        }
        // Infer P(y) from {P(x)}_{x^arity=y}.
        let new_eval = self.compute_evaluation(
            subgroup_x,
            within_bits.as_slice(),
            arity_bits,
            evals,
            beta,
        );
        let ghost s3 = *self;
        proof {
            s3.lemma_frames_transitive(s2, *old(self));
        }
        self.verify_flattened_merkle_proof_with_cap_index(
            evals,
            coset_bits.as_slice(),
            cap_index,
            cap,
            merkle_proof,
        );
        let ghost s4 = *self;
        proof {
            s4.lemma_frames_transitive(s3, *old(self));
        }
        // Update the point x to x^arity.
        let new_x = self.exp_power_of_2(subgroup_x, arity_bits);
        proof {
            self.lemma_frames_transitive(s4, *old(self));
            self.lemma_frames_transitive(s4, s3);
            assert forall|inp: Seq<Value<F, E, H::Hash>>|
                base_at(#[trigger] self.wires(inp), new_x) == pow_spec(
                    base_at(old(self).wires(inp), subgroup_x),
                    pow2(arity_bits as nat),
                ) && ext_at(self.wires(inp), new_eval) == compute_evaluation_spec::<F, E>(
                    base_at(old(self).wires(inp), subgroup_x),
                    le_value(old(self).wires(inp), x_index_bits@, arity_bits as nat),
                    arity_bits as nat,
                    exts_at(old(self).wires(inp), evals@),
                    ext_at(old(self).wires(inp), beta),
                ) by {
                let v0 = old(self).wires(inp);
                s4.lemma_frame_value(*old(self), inp, subgroup_x.0);
                s2.lemma_frame_value(*old(self), inp, subgroup_x.0);
                s2.lemma_frame_value(*old(self), inp, beta.0);
                s2.lemma_frame_exts(*old(self), inp, evals@);
                s2.lemma_frame_le_value(*old(self), inp, within_bits@, arity_bits as nat);
                lemma_le_value_same_bits(v0, within_bits@, x_index_bits@, arity_bits as nat);
                self.lemma_frame_value(s3, inp, new_eval.0);
            }
            assert forall|inp: Seq<Value<F, E, H::Hash>>|
                #[trigger] self.satisfied(inp) == (old(self).satisfied(inp) && fold_gates_hold::<
                    F,
                    E,
                    H,
                >(
                    old(self).wires(inp),
                    x_index_bits@,
                    cap_index,
                    subgroup_x,
                    old_eval,
                    arity_bits as nat,
                    evals@,
                    beta,
                    cap.0@,
                    merkle_proof.siblings@,
                )) by {
                let v0 = old(self).wires(inp);
                let a = arity_bits as nat;
                let within = le_value(v0, x_index_bits@, a);
                lemma_le_value_same_bits(v0, within_bits@, x_index_bits@, a);
                lemma_le_value_bound(v0, x_index_bits@, a);
                // the index of the random access is the number of the low bits
                F::lemma_distinct_constants();
                F::lemma_order();
                if a < F::two_adicity_spec() {
                    vstd::arithmetic::power2::lemma_pow2_strictly_increases(
                        a,
                        F::two_adicity_spec(),
                    );
                }
                F::lemma_from_canonical(within as u64);
                assert(base_at(s1.wires(inp), x_index_within_coset) == F::from_canonical_u64_spec(
                    within as u64,
                ));
                s1.lemma_frame_value(*old(self), inp, old_eval.0);
                s1.lemma_frame_value(*old(self), inp, evals@[within as int].0);
                // the folding
                s2.lemma_frame_value(*old(self), inp, subgroup_x.0);
                s2.lemma_frame_value(*old(self), inp, beta.0);
                s2.lemma_frame_le_value(*old(self), inp, within_bits@, a);
                // the opening
                s3.lemma_frame_exts(*old(self), inp, evals@);
                lemma_merkle_gate_frame::<F, E, H>(
                    s3,
                    *old(self),
                    inp,
                    flatten_spec::<F, E>(exts_at(v0, evals@)),
                    coset_bits@,
                    cap_index,
                    cap.0@,
                    merkle_proof.siblings@,
                );
                assert(self.satisfied(inp) == s4.satisfied(inp));
                assert(exts_at(v0, evals@)[within as int] == ext_at(v0, evals@[within as int]));
            }
        }
        (new_x, new_eval, coset_bits)
    }

    /// Computes P'(x^arity) from {P(x*g^i)}_(i=0..arity), where g is a
    /// `arity`-th root of unity and P' is the reduced polynomial: appends the
    /// gates that interpolate through the points of the coset and evaluate at
    /// `beta`.
    #[verifier::rlimit(100)]
    pub fn compute_evaluation(
        &mut self,
        x: Target,
        x_index_within_coset_bits: &[BoolTarget],
        arity_bits: usize,
        evals: &[ExtensionTarget],
        beta: ExtensionTarget,
    ) -> (r: ExtensionTarget)
        requires
            x.0 < old(self).num_gates(),
            bools_below(x_index_within_coset_bits@, old(self).num_gates()),
            extensions_below(evals@, old(self).num_gates()),
            beta.0 < old(self).num_gates(),
            x_index_within_coset_bits@.len() == arity_bits,
            arity_bits < usize::BITS,
            arity_bits <= F::two_adicity_spec(),
            evals@.len() == pow2(arity_bits as nat),
        ensures
            final(self).frames(*old(self)),
            final(self).num_inputs == old(self).num_inputs,
            old(self).wf() ==> final(self).wf(),
            r.0 < final(self).num_gates(),
            forall|inp: Seq<Value<F, E, H::Hash>>|
                ext_at(#[trigger] final(self).wires(inp), r) == compute_evaluation_spec::<F, E>(
                    base_at(old(self).wires(inp), x),
                    le_value(old(self).wires(inp), x_index_within_coset_bits@, arity_bits as nat),
                    arity_bits as nat,
                    exts_at(old(self).wires(inp), evals@),
                    ext_at(old(self).wires(inp), beta),
                ),
            forall|inp: Seq<Value<F, E, H::Hash>>|
                #[trigger] final(self).satisfied(inp) == (old(self).satisfied(inp)
                    && folding_well_posed::<F, E>(
                    base_at(old(self).wires(inp), x),
                    le_value(old(self).wires(inp), x_index_within_coset_bits@, arity_bits as nat),
                    arity_bits as nat,
                    ext_at(old(self).wires(inp), beta),
                )),
    {
        proof {
            lemma_shift_is_pow2(arity_bits);
            lemma_log2_floor_pow2(arity_bits as nat);
            lemma_pow2_pos(arity_bits as nat);
        }
        let arity = 1usize << arity_bits;
        let g = F::primitive_root_of_unity(arity_bits);
        let g_inv = g.exp_u64((arity as u64) - 1);
        // The evaluation vector needs to be reordered first.
        let reordered = reverse_index_bits(evals);
        // Want `g^(arity - rev_x_index_within_coset)` as in the verifier over
        // field values. Compute it as `(g^-1)^rev_x_index_within_coset`.
        let rev_bits = reversed_bits(x_index_within_coset_bits);
        let start = self.exp_from_bits_const_base(g_inv, rev_bits.as_slice());
        let ghost after_start = *self;
        let coset_start = self.mul(x, start);
        let ghost after_coset = *self;
        proof {
            self.lemma_frames_transitive(after_start, *old(self));
            self.lemma_frames_reflexive();
        }
        // The answer is gotten by interpolating {(x*g^i, P(x*g^i))} and
        // evaluating at beta.
        let mut powers = g.powers();
        let mut points: Vec<(Target, ExtensionTarget)> = Vec::with_capacity(arity);
        let mut i: usize = 0;
        while i < arity
            invariant
                i <= arity,
                arity == pow2(arity_bits as nat),
                evals@.len() == arity,
                reordered@ == reverse_index_bits_seq(evals@),
                crate::util::log2_floor(evals@.len()) == arity_bits,
                extensions_below(evals@, old(self).num_gates()),
                g == primitive_root_of_unity_spec::<F>(arity_bits as nat),
                g.wf(),
                powers.base == g,
                powers.current == pow_spec(g, i as nat),
                powers.wf(),
                coset_start.0 < after_coset.num_gates(),
                self.frames(after_coset),
                after_coset.frames(*old(self)),
                self.frames(*old(self)),
                self.num_inputs == old(self).num_inputs,
                old(self).wf() ==> self.wf(),
                points@.len() == i,
                points_below(points@, self.num_gates()),
                forall|k: int| 0 <= k < i ==> (#[trigger] points@[k]).1 == evals@[reverse_low_bits(
                    k as nat,
                    arity_bits as nat,
                ) as int],
                forall|inp: Seq<Value<F, E, H::Hash>>, k: int|
                    0 <= k < i ==> base_at(#[trigger] self.wires(inp), (#[trigger] points@[k]).0)
                        == base_at(after_coset.wires(inp), coset_start).mul_spec(
                        pow_spec(g, k as nat),
                    ),
                forall|inp: Seq<Value<F, E, H::Hash>>|
                    #[trigger] self.satisfied(inp) == after_coset.satisfied(inp),
            decreases arity - i,
        {
            proof {
                lemma_pow_wf(g, i as nat);
                F::lemma_mul_commutative(pow_spec(g, i as nat), g);
                lemma_reverse_low_bits_bound(i as nat, arity_bits as nat);
            }
            let y = match powers.next() {
                Some(v) => v,
                None => g,
            };
            let ghost before = *self;
            let ghost had = points@;
            let yc = self.constant(y);
            let ghost middle = *self;
            let node = self.mul(coset_start, yc);
            points.push((node, reordered[i]));
            proof {
                self.lemma_frames_transitive(middle, before);
                self.lemma_frames_transitive(before, after_coset);
                self.lemma_frames_transitive(before, *old(self));
                middle.lemma_frames_transitive(before, after_coset);
                assert forall|inp: Seq<Value<F, E, H::Hash>>, k: int| 0 <= k < i + 1 implies base_at(
                    #[trigger] self.wires(inp),
                    (#[trigger] points@[k]).0,
                ) == base_at(after_coset.wires(inp), coset_start).mul_spec(pow_spec(g, k as nat)) by {
                    if k < i {
                        assert(points@[k] == had[k]);
                        self.lemma_frame_value(before, inp, had[k].0.0);
                        assert(base_at(before.wires(inp), had[k].0) == base_at(
                            after_coset.wires(inp),
                            coset_start,
                        ).mul_spec(pow_spec(g, k as nat)));
                    } else {
                        middle.lemma_frame_value(after_coset, inp, coset_start.0);
                    }
                }
            }
            i = i + 1;
        }
        let ghost before = *self;
        let r = self.interpolate(points.as_slice(), beta);
        proof {
            self.lemma_frames_transitive(before, *old(self));
            assert forall|inp: Seq<Value<F, E, H::Hash>>|
                points_at::<F, E, H::Hash>(#[trigger] before.wires(inp), points@) == folding_points::<
                    F,
                    E,
                >(
                    base_at(old(self).wires(inp), x),
                    le_value(old(self).wires(inp), x_index_within_coset_bits@, arity_bits as nat),
                    arity_bits as nat,
                    exts_at(old(self).wires(inp), evals@),
                ) && ext_at(before.wires(inp), beta) == ext_at(old(self).wires(inp), beta) by {
                let v0 = old(self).wires(inp);
                let v = before.wires(inp);
                let xv = base_at(v0, x);
                let bits = x_index_within_coset_bits@;
                let a = arity_bits as nat;
                let within = le_value(v0, bits, a);
                // the start of the coset
                lemma_bits_of_le_value(v0, bits, a);
                assert(bits.take(a as int) =~= bits);
                lemma_le_value_reversed(v0, bits, rev_bits@, within, 0);
                crate::plonk::bits::lemma_div_pow2_zero(within);
                lemma_reverse_low_bits_bound(within, a);
                lemma_inverse_root_power::<F>(a, reverse_low_bits(within, a));
                after_start.lemma_frame_value(*old(self), inp, x.0);
                assert(base_at(after_start.wires(inp), start) == pow_spec(
                    g_inv,
                    le_value(v0, rev_bits@, a),
                ));
                let cs = base_at(after_coset.wires(inp), coset_start);
                assert(cs == coset_start_spec(xv, within, a));
                before.lemma_frame_value(*old(self), inp, beta.0);
                let want = folding_points::<F, E>(xv, within, a, exts_at(v0, evals@));
                let got = points_at::<F, E, H::Hash>(v, points@);
                assert forall|k: int| 0 <= k < got.len() implies got[k] == want[k] by {
                    lemma_reverse_low_bits_bound(k as nat, a);
                    let src = reverse_low_bits(k as nat, a);
                    assert(points@[k].1 == evals@[src as int]);
                    before.lemma_frame_value(*old(self), inp, evals@[src as int].0);
                    assert(base_at(v, points@[k].0) == cs.mul_spec(pow_spec(g, k as nat)));
                }
                assert(got =~= want);
            }
            assert forall|inp: Seq<Value<F, E, H::Hash>>|
                ext_at(#[trigger] self.wires(inp), r) == compute_evaluation_spec::<F, E>(
                    base_at(old(self).wires(inp), x),
                    le_value(old(self).wires(inp), x_index_within_coset_bits@, arity_bits as nat),
                    arity_bits as nat,
                    exts_at(old(self).wires(inp), evals@),
                    ext_at(old(self).wires(inp), beta),
                ) by {
                let v = before.wires(inp);
                assert(self.wires(inp) == v.push(
                    crate::plonk::gates::gate_value::<F, E, H>(self.gates@.last(), v, inp),
                ));
            }
            assert forall|inp: Seq<Value<F, E, H::Hash>>|
                #[trigger] self.satisfied(inp) == (old(self).satisfied(inp)
                    && folding_well_posed::<F, E>(
                    base_at(old(self).wires(inp), x),
                    le_value(old(self).wires(inp), x_index_within_coset_bits@, arity_bits as nat),
                    arity_bits as nat,
                    ext_at(old(self).wires(inp), beta),
                )) by {
                let v = before.wires(inp);
                let v0 = old(self).wires(inp);
                let pts = points_at::<F, E, H::Hash>(v, points@);
                assert(nodes_of(pts) =~= folding_nodes::<F, E>(
                    base_at(v0, x),
                    le_value(v0, x_index_within_coset_bits@, arity_bits as nat),
                    arity_bits as nat,
                ));
                assert(before.satisfied(inp) == after_coset.satisfied(inp));
                assert(after_coset.satisfied(inp) == after_start.satisfied(inp));
                assert(after_start.satisfied(inp) == old(self).satisfied(inp));
            }
        }
        r
    }
}

} // verus!
