//! The verifier over field values: the combination of the batched openings,
//! the folding walk of each query round, and the final check.
use crate::field::biguint::biguint_bits;
use crate::field::extension_field::{flatten, flatten_spec, FieldExtension};
use crate::field::field_types::{
    all_units, all_wf, div_spec, inverse_spec, is_unit, lemma_inverse_is, lemma_mul_zero,
    lemma_pow_wf, pow_spec, primitive_root_of_unity_spec, sub_spec, Field, FieldOps, PrimeField,
    RichField,
};
use crate::field::interpolation::{
    barycentric_weights, barycentric_weights_spec, evaluation_point_ok, interpolate,
    interpolate_spec, node_products, nodes_of, points_wf, try_interpolate,
};
use crate::fri::{lemma_shift_is_pow2, lemma_sum_prefix_monotonic, sum_prefix, FriConfig, FriParams};
use crate::fri::error::{FriError, MerklePlace};
use crate::fri::fri_proof::{
    caps_wf, initial_tree_proof_wf, proof_wf, query_round_wf, FriChallenges, FriInitialTreeProof,
    FriProof, FriQueryRound,
};
use crate::fri::structure::{
    count_r_polys, salt_size_spec, FriInstanceInfo, FriOpenings, FriOracleInfo,
};
use crate::fri::validate_shape::{
    leaf_shape_ok, proof_shape_ok, round_shape_ok, step_shape_ok, validate_fri_proof_shape,
};
use crate::fri::views::{
    caps_view, ChallengesView, FriProofView, InitialTreeView, InstanceView, QueryRoundView,
};
use crate::hash::merkle_proofs::{
    all_hash_wf, merkle_proof_valid, verify_merkle_proof_to_cap, Hasher, MerkleCap,
};
use crate::polynomial::polynomial::poly_eval_spec;
use crate::util::{
    bit_length, lemma_bit_length_leading_zeros, lemma_log2_floor_pow2, lemma_reverse_low_bits_bound,
    log2_strict, reverse_bits, reverse_index_bits, reverse_index_bits_seq, reverse_low_bits,
};
use crate::util::reducing::{lemma_reduce_wf, reduce_spec, ReducingFactor};
use vstd::arithmetic::power2::{lemma_pow2_pos, lemma_pow2_strictly_increases, pow2};
use vstd::prelude::*;
use vstd::std_specs::bits::axiom_u64_leading_zeros;

verus! {

/// The proof-of-work response, as an integer, has at least as many leading
/// zeros among 64 bits as the configuration asks for beyond those that every
/// field element has.
pub open spec fn proof_of_work_ok<F: PrimeField>(response: F, config: FriConfig) -> bool {
    64 - bit_length(response.to_canonical_u64_spec() as nat) >= config.proof_of_work_bits + (64
        - bit_length(F::order_spec()))
}

/// A number below `2^64` has at most 64 binary digits.
pub proof fn lemma_bit_length_u64(n: nat)
    requires
        n <= u64::MAX,
    ensures
        bit_length(n) <= 64,
{
    lemma_bit_length_leading_zeros(n as u64);
    axiom_u64_leading_zeros(n as u64);
}

/// Checks the proof-of-work response against the configured difficulty.
pub fn fri_verify_proof_of_work<F: RichField>(fri_pow_response: F, config: &FriConfig) -> (r:
    Result<(), FriError>)
    requires
        fri_pow_response.wf(),
    ensures
        r == if proof_of_work_ok(fri_pow_response, *config) {
            Ok::<(), FriError>(())
        } else {
            Err::<(), FriError>(FriError::ProofOfWorkFailure)
        },
{
    let order = F::order();
    let order_bits = biguint_bits(&order);
    let canonical = fri_pow_response.to_canonical_u64();
    proof {
        F::lemma_order();
        lemma_bit_length_u64(F::order_spec());
        lemma_bit_length_leading_zeros(canonical);
        axiom_u64_leading_zeros(canonical);
    }
    let zeros = canonical.leading_zeros();
    if zeros as u64 >= config.proof_of_work_bits as u64 + (64 - order_bits) {
        Ok(())
    } else {
        Err(FriError::ProofOfWorkFailure)
    }
}

/// The first point of the coset that is folded: `x * g^(arity - rev)`, where
/// `rev` is the bit-reversed index of `x` within its coset.
pub open spec fn coset_start_spec<F: Field>(x: F, x_index_within_coset: nat, arity_bits: nat) -> F {
    x.mul_spec(
        pow_spec(
            primitive_root_of_unity_spec::<F>(arity_bits),
            (pow2(arity_bits) - reverse_low_bits(x_index_within_coset, arity_bits)) as nat,
        ),
    )
}

/// The points of the coset that is folded, in the extension field.
pub open spec fn folding_nodes<F: Field, E: FieldExtension<F>>(
    x: F,
    x_index_within_coset: nat,
    arity_bits: nat,
) -> Seq<E> {
    Seq::new(
        pow2(arity_bits),
        |i: int|
            E::from_basefield_spec(
                coset_start_spec(x, x_index_within_coset, arity_bits).mul_spec(
                    pow_spec(primitive_root_of_unity_spec::<F>(arity_bits), i as nat),
                ),
            ),
    )
}

/// The points through which a folding step interpolates: the points of the
/// coset with the evaluations in bit-reversed order.
pub open spec fn folding_points<F: Field, E: FieldExtension<F>>(
    x: F,
    x_index_within_coset: nat,
    arity_bits: nat,
    evals: Seq<E>,
) -> Seq<(E, E)> {
    Seq::new(
        pow2(arity_bits),
        |i: int|
            (
                folding_nodes::<F, E>(x, x_index_within_coset, arity_bits)[i],
                evals[reverse_low_bits(i as nat, arity_bits) as int],
            ),
    )
}

/// The value at `beta` of the interpolant through the folding points: the
/// evaluation of the folded polynomial.
pub open spec fn compute_evaluation_spec<F: Field, E: FieldExtension<F>>(
    x: F,
    x_index_within_coset: nat,
    arity_bits: nat,
    evals: Seq<E>,
    beta: E,
) -> E {
    let points = folding_points::<F, E>(x, x_index_within_coset, arity_bits, evals);
    interpolate_spec(points, beta, barycentric_weights_spec(nodes_of(points)))
}

/// The interpolation of a folding step divides only by units.
pub open spec fn folding_well_posed<F: Field, E: FieldExtension<F>>(
    x: F,
    x_index_within_coset: nat,
    arity_bits: nat,
    beta: E,
) -> bool {
    let nodes = folding_nodes::<F, E>(x, x_index_within_coset, arity_bits);
    all_units(node_products(nodes)) && evaluation_point_ok(nodes, beta)
}

/// The points through which a folding step interpolates: the points of the
/// coset that `x` lies in, each with its evaluation.
pub fn coset_points<F: Field, E: FieldExtension<F>>(
    x: F,
    x_index_within_coset: usize,
    arity_bits: usize,
    evals: &[E],
) -> (points: Vec<(E, E)>)
    requires
        x.wf(),
        all_wf(evals@),
        arity_bits < usize::BITS,
        arity_bits <= F::two_adicity_spec(),
        evals@.len() == pow2(arity_bits as nat),
    ensures
        points@ == folding_points::<F, E>(
            x,
            x_index_within_coset as nat,
            arity_bits as nat,
            evals@,
        ),
        nodes_of(points@) == folding_nodes::<F, E>(
            x,
            x_index_within_coset as nat,
            arity_bits as nat,
        ),
        points_wf(points@),
{
    proof {
        lemma_shift_is_pow2(arity_bits);
        lemma_log2_floor_pow2(arity_bits as nat);
        lemma_reverse_low_bits_bound(x_index_within_coset as nat, arity_bits as nat);
    }
    let arity = 1usize << arity_bits;
    let g = F::primitive_root_of_unity(arity_bits);
    // The evaluation vector needs to be reordered first.
    let reordered = reverse_index_bits(evals);
    let rev_x_index_within_coset = reverse_bits(x_index_within_coset, arity_bits);
    let coset_start = x.mul(g.exp_u64((arity - rev_x_index_within_coset) as u64));
    // The answer is gotten by interpolating {(x*g^i, P(x*g^i))} and evaluating at beta.
    let ghost want = folding_points::<F, E>(
        x,
        x_index_within_coset as nat,
        arity_bits as nat,
        evals@,
    );
    let mut powers = g.powers();
    let mut points: Vec<(E, E)> = Vec::with_capacity(arity);
    let mut i: usize = 0;
    while i < arity
        invariant
            i <= arity,
            arity == pow2(arity_bits as nat),
            reordered@ == reverse_index_bits_seq(evals@),
            evals@.len() == arity,
            crate::util::log2_floor(evals@.len()) == arity_bits,
            all_wf(evals@),
            g == primitive_root_of_unity_spec::<F>(arity_bits as nat),
            g.wf(),
            coset_start == coset_start_spec(x, x_index_within_coset as nat, arity_bits as nat),
            coset_start.wf(),
            powers.base == g,
            powers.current == pow_spec(g, i as nat),
            powers.wf(),
            want == folding_points::<F, E>(
                x,
                x_index_within_coset as nat,
                arity_bits as nat,
                evals@,
            ),
            points@.len() == i,
            forall|k: int| 0 <= k < i ==> #[trigger] points@[k] == want[k],
            forall|k: int| 0 <= k < i ==> (#[trigger] points@[k]).0.wf() && points@[k].1.wf(),
        decreases arity - i,
    {
        proof {
            lemma_pow_wf(g, i as nat);
            F::lemma_mul_commutative(pow_spec(g, i as nat), g);
            lemma_reverse_low_bits_bound(i as nat, arity_bits as nat);
        }
        let y = match powers.next() {
            Some(v) => v,
            None => g,
        };
        let node = E::from_basefield(coset_start.mul(y));
        points.push((node, reordered[i]));
        i = i + 1;
    }
    proof {
        assert(points@ =~= want);
        assert(nodes_of(want) =~= folding_nodes::<F, E>(
            x,
            x_index_within_coset as nat,
            arity_bits as nat,
        ));
    }
    points
}

/// Computes P'(x^arity) from {P(x*g^i)}_(i=0..arity), where g is a `arity`-th
/// root of unity and P' is the reduced polynomial.
pub fn compute_evaluation<F: Field, E: FieldExtension<F>>(
    x: F,
    x_index_within_coset: usize,
    arity_bits: usize,
    evals: &[E],
    beta: E,
) -> (r: E)
    requires
        x.wf(),
        beta.wf(),
        all_wf(evals@),
        arity_bits < usize::BITS,
        arity_bits <= F::two_adicity_spec(),
        evals@.len() == pow2(arity_bits as nat),
        folding_well_posed::<F, E>(x, x_index_within_coset as nat, arity_bits as nat, beta),
    ensures
        r == compute_evaluation_spec::<F, E>(
            x,
            x_index_within_coset as nat,
            arity_bits as nat,
            evals@,
            beta,
        ),
        r.wf(),
{
    let points = coset_points::<F, E>(x, x_index_within_coset, arity_bits, evals);
    let weights = barycentric_weights(points.as_slice());
    interpolate(points.as_slice(), beta, weights.as_slice())
}

/// Whether the interpolation of a folding step divides only by units.
pub fn folding_is_well_posed<F: Field, E: FieldExtension<F>>(
    x: F,
    x_index_within_coset: usize,
    arity_bits: usize,
    beta: E,
) -> (r: bool)
    requires
        x.wf(),
        beta.wf(),
        arity_bits < usize::BITS,
        arity_bits <= F::two_adicity_spec(),
    ensures
        r == folding_well_posed::<F, E>(x, x_index_within_coset as nat, arity_bits as nat, beta),
{
    proof {
        lemma_shift_is_pow2(arity_bits);
    }
    let arity = 1usize << arity_bits;
    // the values that are interpolated do not matter
    let mut evals: Vec<E> = Vec::with_capacity(arity);
    let mut i: usize = 0;
    while i < arity
        invariant
            i <= arity,
            evals@.len() == i,
            all_wf(evals@),
        decreases arity - i,
    {
        evals.push(E::zero());
        i = i + 1;
    }
    let points = coset_points::<F, E>(x, x_index_within_coset, arity_bits, evals.as_slice());
    try_interpolate(points.as_slice(), beta).is_some()
}

/// For each opening point, holds the reduced (by `alpha`) evaluations of each
/// polynomial that's opened at that point.
#[derive(Clone, Debug)]
pub struct PrecomputedReducedOpenings<E: Field> {
    pub reduced_openings_at_point: Vec<E>,
}

/// Number of claimed values of batch `i` that enter the reduction: all but the
/// two of the blinding polynomials in the first batch in zero-knowledge mode.
pub open spec fn reduced_values_count<E>(openings: Seq<Seq<E>>, is_zk: bool, i: int) -> nat {
    (openings[i].len() - if is_zk && i == 0 {
        2int
    } else {
        0int
    }) as nat
}

/// The claimed openings of each batch combined with the powers of `alpha`.
pub open spec fn reduced_openings_spec<E: Field>(
    openings: Seq<Seq<E>>,
    alpha: E,
    is_zk: bool,
) -> Seq<E> {
    Seq::new(
        openings.len(),
        |i: int| reduce_spec(alpha, openings[i].take(reduced_values_count(openings, is_zk, i) as int)),
    )
}

/// In zero-knowledge mode the first batch holds at least the two values of the
/// blinding polynomials.
pub open spec fn openings_fit<E>(openings: Seq<Seq<E>>, is_zk: bool) -> bool {
    is_zk && openings.len() > 0 ==> openings[0].len() >= 2
}

impl<E: Field> PrecomputedReducedOpenings<E> {
    /// Combines the claimed values of each batch with the powers of `alpha`.
    pub fn from_os_and_alpha(openings: &FriOpenings<E>, alpha: E, is_zk: bool) -> (r: Self)
        requires
            openings.wf(),
            alpha.wf(),
            openings_fit(openings@, is_zk),
        ensures
            r.reduced_openings_at_point@ == reduced_openings_spec(openings@, alpha, is_zk),
            all_wf(r.reduced_openings_at_point@),
    {
        // We commit to two extra polynomials in the case of zk: the lower and
        // higher coefficients of the random `R` polynomial. Those should not be
        // taken into account when computing the reduced openings.
        let nb_r_polys: usize = if is_zk {
            2
        } else {
            0
        };
        let n = openings.batches.len();
        let mut reduced: Vec<E> = Vec::with_capacity(n);
        let mut i: usize = 0;
        while i < n
            invariant
                i <= n,
                n == openings.batches@.len(),
                openings.wf(),
                alpha.wf(),
                openings_fit(openings@, is_zk),
                nb_r_polys == if is_zk {
                    2int
                } else {
                    0int
                },
                reduced@.len() == i,
                forall|k: int|
                    0 <= k < i ==> #[trigger] reduced@[k] == reduced_openings_spec(
                        openings@,
                        alpha,
                        is_zk,
                    )[k],
                forall|k: int| 0 <= k < i ==> (#[trigger] reduced@[k]).wf(),
            decreases n - i,
        {
            let batch = &openings.batches[i];
            let last_values = batch.values.len() - if i == 0 {
                nb_r_polys
            } else {
                0
            };
            let values = vstd::slice::slice_subrange(batch.values.as_slice(), 0, last_values);
            proof {
                assert(all_wf(openings.batches@[i as int].values@));
                assert(all_wf(values@));
                assert(openings@[i as int] == openings.batches@[i as int].values@);
                assert(openings@[0] == openings.batches@[0].values@);
            }
            let mut factor = ReducingFactor::new(alpha);
            let value = factor.reduce(values);
            reduced.push(value);
            i = i + 1;
        }
        proof {
            assert(reduced@ =~= reduced_openings_spec(openings@, alpha, is_zk));
        }
        PrecomputedReducedOpenings { reduced_openings_at_point: reduced }
    }
}

/// Number of polynomials of batch `b` that are quotiented: all of them; in
/// hiding mode all but the blinding polynomials at the end of the first batch.
pub open spec fn quotiented_count<E>(instance: InstanceView<E>, b: int, is_zk: bool) -> nat {
    let polynomials = instance.polynomials[b];
    (polynomials.len() - if is_zk && b == 0 {
        count_r_polys(polynomials, polynomials.len())
    } else {
        0nat
    }) as nat
}

/// The evaluation of polynomial `i` of batch `b` at the queried point, in the
/// extension field: the entry of the leaf of the polynomial's oracle.
pub open spec fn batch_eval<F: Field, E: FieldExtension<F>>(
    instance: InstanceView<E>,
    leaves: Seq<Seq<F>>,
    b: int,
    i: int,
) -> E {
    let p = instance.polynomials[b][i];
    E::from_basefield_spec(leaves[p.oracle_index as int][p.polynomial_index as int])
}

/// The evaluations of the quotiented polynomials of batch `b`.
pub open spec fn batch_evals<F: Field, E: FieldExtension<F>>(
    instance: InstanceView<E>,
    leaves: Seq<Seq<F>>,
    b: int,
    is_zk: bool,
) -> Seq<E> {
    Seq::new(
        quotiented_count(instance, b, is_zk),
        |i: int| batch_eval::<F, E>(instance, leaves, b, i),
    )
}

/// The quotient of batch `b`: the combined evaluations less the combined
/// claimed openings, divided by the distance of `x` from the batch's point.
pub open spec fn batch_quotient<F: Field, E: FieldExtension<F>>(
    instance: InstanceView<E>,
    leaves: Seq<Seq<F>>,
    alpha: E,
    subgroup_x: F,
    reduced_opening: E,
    b: int,
    is_zk: bool,
) -> E {
    div_spec(
        sub_spec(
            reduce_spec(alpha, batch_evals::<F, E>(instance, leaves, b, is_zk)),
            reduced_opening,
        ),
        sub_spec(E::from_basefield_spec(subgroup_x), instance.points[b]),
    )
}

/// The factor with which blinding polynomial `i` enters: one for the first,
/// `x^(2^(i * degree_bits)) * i` for the others.
pub open spec fn blinding_shift<E: Field>(x: E, i: nat, degree_bits: nat) -> E {
    E::from_canonical_u64_spec(
        if i == 0 {
            1u64
        } else {
            0u64
        },
    ).add_spec(pow_spec(x, pow2(i * degree_bits)).mul_spec(E::from_canonical_u64_spec(i as u64)))
}

/// `start` and the first `n` blinding polynomials of the first batch, each with
/// its factor.
pub open spec fn blinding_sum<F: Field, E: FieldExtension<F>>(
    instance: InstanceView<E>,
    leaves: Seq<Seq<F>>,
    subgroup_x: F,
    degree_bits: nat,
    start: E,
    n: nat,
) -> E
    decreases n,
{
    if n == 0 {
        start
    } else {
        blinding_sum::<F, E>(instance, leaves, subgroup_x, degree_bits, start, (n - 1) as nat)
            .add_spec(
            batch_eval::<F, E>(instance, leaves, 0, quotiented_count(instance, 0, true) + n - 1).mul_spec(
                blinding_shift(E::from_basefield_spec(subgroup_x), (n - 1) as nat, degree_bits),
            ),
        )
    }
}

/// The combination of the first `k` batches: each batch shifts what came before
/// by the power of `alpha` that its polynomials take up and adds its quotient;
/// in hiding mode the first batch adds its blinding polynomials unquotiented.
pub open spec fn combine_initial_prefix<F: Field, E: FieldExtension<F>>(
    instance: InstanceView<E>,
    leaves: Seq<Seq<F>>,
    alpha: E,
    subgroup_x: F,
    reduced_openings: Seq<E>,
    params: FriParams,
    k: nat,
) -> E
    decreases k,
{
    if k == 0 {
        E::zero_spec()
    } else {
        let b = (k - 1) as int;
        let before = combine_initial_prefix::<F, E>(
            instance,
            leaves,
            alpha,
            subgroup_x,
            reduced_openings,
            params,
            (k - 1) as nat,
        );
        let sum = pow_spec(alpha, quotiented_count(instance, b, params.hiding)).mul_spec(
            before,
        ).add_spec(
            batch_quotient::<F, E>(
                instance,
                leaves,
                alpha,
                subgroup_x,
                reduced_openings[b],
                b,
                params.hiding,
            ),
        );
        if params.hiding && b == 0 {
            blinding_sum::<F, E>(
                instance,
                leaves,
                subgroup_x,
                params.degree_bits as nat,
                sum,
                count_r_polys(instance.polynomials[0], instance.polynomials[0].len()),
            )
        } else {
            sum
        }
    }
}

/// Number of batches that are combined: those that have both a description
/// and reduced openings.
pub open spec fn combined_batches<E>(instance: InstanceView<E>, reduced: Seq<E>) -> nat {
    if instance.polynomials.len() <= reduced.len() {
        instance.polynomials.len()
    } else {
        reduced.len()
    }
}

/// The starting value of the folding walk: the combination of all batches.
pub open spec fn fri_combine_initial_spec<F: Field, E: FieldExtension<F>>(
    instance: InstanceView<E>,
    leaves: Seq<Seq<F>>,
    alpha: E,
    subgroup_x: F,
    reduced_openings: Seq<E>,
    params: FriParams,
) -> E {
    combine_initial_prefix::<F, E>(
        instance,
        leaves,
        alpha,
        subgroup_x,
        reduced_openings,
        params,
        combined_batches(instance, reduced_openings),
    )
}

/// The combination of two values with the powers of `alpha`: the first, and
/// `alpha` times the second.
pub proof fn lemma_reduce_two<E: Field>(alpha: E, values: Seq<E>)
    requires
        alpha.wf(),
        all_wf(values),
        values.len() == 2,
    ensures
        reduce_spec(alpha, values) == values[0].add_spec(alpha.mul_spec(values[1])),
{
    let tail = values.skip(1);
    assert(tail.len() == 1);
    assert(tail[0] == values[1]);
    assert(tail.skip(1).len() == 0);
    assert(reduce_spec(alpha, tail.skip(1)) == E::zero_spec());
    assert(reduce_spec(alpha, tail) == alpha.mul_spec(E::zero_spec()).add_spec(values[1]));
    E::lemma_constants();
    lemma_mul_zero(alpha);
    E::lemma_add_commutative(E::zero_spec(), values[1]);
    E::lemma_add_zero(values[1]);
    E::lemma_closed(alpha, values[1]);
    E::lemma_add_commutative(alpha.mul_spec(values[1]), values[0]);
}

/// With hiding off, two batches of two polynomials each combine to
/// `alpha^2 * (v00 + alpha * v01 - o0) / (x - p0) + (v10 + alpha * v11 - o1) / (x - p1)`,
/// with `v` the evaluations at the queried point `x`, `o` the combined claimed
/// openings and `p` the points of the batches.
pub proof fn lemma_two_batches_combined<F: Field, E: FieldExtension<F>>(
    instance: InstanceView<E>,
    leaves: Seq<Seq<F>>,
    alpha: E,
    subgroup_x: F,
    reduced_openings: Seq<E>,
    params: FriParams,
)
    requires
        !params.hiding,
        instance.polynomials.len() == 2,
        instance.polynomials[0].len() == 2,
        instance.polynomials[1].len() == 2,
        reduced_openings.len() == 2,
        alpha.wf(),
        subgroup_x.wf(),
        all_wf(reduced_openings),
        all_wf(instance.points),
        instance.points.len() == 2,
        forall|b: int, j: int|
            0 <= b < 2 && 0 <= j < 2 ==> (#[trigger] batch_eval::<F, E>(instance, leaves, b, j)).wf(),
        quotients_well_posed::<F, E>(instance.points, subgroup_x, 2),
    ensures
        fri_combine_initial_spec::<F, E>(
            instance,
            leaves,
            alpha,
            subgroup_x,
            reduced_openings,
            params,
        ) == pow_spec(alpha, 2).mul_spec(
            div_spec(
                sub_spec(
                    batch_eval::<F, E>(instance, leaves, 0, 0).add_spec(
                        alpha.mul_spec(batch_eval::<F, E>(instance, leaves, 0, 1)),
                    ),
                    reduced_openings[0],
                ),
                sub_spec(E::from_basefield_spec(subgroup_x), instance.points[0]),
            ),
        ).add_spec(
            div_spec(
                sub_spec(
                    batch_eval::<F, E>(instance, leaves, 1, 0).add_spec(
                        alpha.mul_spec(batch_eval::<F, E>(instance, leaves, 1, 1)),
                    ),
                    reduced_openings[1],
                ),
                sub_spec(E::from_basefield_spec(subgroup_x), instance.points[1]),
            ),
        ),
{
    let x = E::from_basefield_spec(subgroup_x);
    E::lemma_constants();
    E::lemma_extension_wf(subgroup_x, E::zero_spec());
    let square = pow_spec(alpha, 2);
    lemma_pow_wf(alpha, 2);
    // the quotient of the first batch
    let evals0 = batch_evals::<F, E>(instance, leaves, 0, false);
    assert(evals0.len() == 2);
    assert(evals0[0] == batch_eval::<F, E>(instance, leaves, 0, 0));
    assert(evals0[1] == batch_eval::<F, E>(instance, leaves, 0, 1));
    lemma_reduce_two(alpha, evals0);
    let q0 = batch_quotient::<F, E>(
        instance,
        leaves,
        alpha,
        subgroup_x,
        reduced_openings[0],
        0,
        false,
    );
    let p0 = instance.points[0];
    let d0 = sub_spec(x, p0);
    assert(is_unit(d0));
    E::lemma_closed(p0, p0);
    E::lemma_closed(x, p0.neg_spec());
    lemma_inverse_is(d0, inverse_spec(d0));
    lemma_reduce_wf(alpha, evals0);
    E::lemma_closed(reduced_openings[0], reduced_openings[0]);
    E::lemma_closed(reduce_spec(alpha, evals0), reduced_openings[0].neg_spec());
    E::lemma_closed(
        sub_spec(reduce_spec(alpha, evals0), reduced_openings[0]),
        inverse_spec(d0),
    );
    assert(q0.wf());
    // the quotient of the second batch
    let evals1 = batch_evals::<F, E>(instance, leaves, 1, false);
    assert(evals1.len() == 2);
    assert(evals1[0] == batch_eval::<F, E>(instance, leaves, 1, 0));
    assert(evals1[1] == batch_eval::<F, E>(instance, leaves, 1, 1));
    lemma_reduce_two(alpha, evals1);
    // nothing comes before the first batch
    let none = combine_initial_prefix::<F, E>(
        instance,
        leaves,
        alpha,
        subgroup_x,
        reduced_openings,
        params,
        0,
    );
    assert(none == E::zero_spec());
    let first = combine_initial_prefix::<F, E>(
        instance,
        leaves,
        alpha,
        subgroup_x,
        reduced_openings,
        params,
        1,
    );
    assert(quotiented_count(instance, 0, false) == 2);
    assert(quotiented_count(instance, 1, false) == 2);
    assert(first == square.mul_spec(none).add_spec(q0));
    lemma_mul_zero(square);
    E::lemma_add_commutative(E::zero_spec(), q0);
    E::lemma_add_zero(q0);
    assert(first == q0);
    assert(combined_batches(instance, reduced_openings) == 2);
}

/// The leaves of the initial trees hold what the instance's oracles promise.
pub open spec fn leaves_fit<F>(leaves: Seq<Seq<F>>, oracles: Seq<FriOracleInfo>, params: FriParams) -> bool {
    &&& leaves.len() == oracles.len()
    &&& forall|o: int|
        0 <= o < oracles.len() ==> (#[trigger] leaves[o]).len() == oracles[o].num_polys
            + salt_size_spec(oracles[o].blinding && params.hiding)
}

/// Every entry of every leaf is well formed.
pub open spec fn leaves_wf<F: Field>(leaves: Seq<Seq<F>>) -> bool {
    forall|o: int| 0 <= o < leaves.len() ==> all_wf(#[trigger] leaves[o])
}

/// The distance of `x` from the point of each of the first `n` batches has an
/// inverse.
pub open spec fn quotients_well_posed<F: Field, E: FieldExtension<F>>(
    points: Seq<E>,
    subgroup_x: F,
    n: nat,
) -> bool {
    forall|b: int|
        0 <= b < n ==> is_unit(sub_spec(E::from_basefield_spec(subgroup_x), #[trigger] points[b]))
}

/// The numbers of the blinding polynomials fit the machine and the field.
pub open spec fn blinding_fits<E: Field>(instance: InstanceView<E>, params: FriParams) -> bool {
    params.hiding && instance.polynomials.len() > 0 ==> {
        let polynomials = instance.polynomials[0];
        &&& polynomials.len() * params.degree_bits <= usize::MAX
        &&& polynomials.len() <= E::characteristic_spec()
    }
}

/// Every polynomial of every batch names a place in the leaf of one of the
/// oracles.
pub open spec fn polynomials_in_range<E>(instance: InstanceView<E>) -> bool {
    forall|b: int, i: int|
        0 <= b < instance.polynomials.len() && 0 <= i < instance.polynomials[b].len() ==> {
            let p = #[trigger] instance.polynomials[b][i];
            p.oracle_index < instance.oracles.len() && p.polynomial_index
                < instance.oracles[p.oracle_index as int].num_polys
        }
}

/// The evaluations of a batch are well formed where the leaves are.
pub proof fn lemma_batch_evals_wf<F: Field, E: FieldExtension<F>>(
    instance: InstanceView<E>,
    leaves: Seq<Seq<F>>,
    params: FriParams,
    b: int,
    i: int,
)
    requires
        polynomials_in_range(instance),
        leaves_fit(leaves, instance.oracles, params),
        leaves_wf(leaves),
        0 <= b < instance.polynomials.len(),
        0 <= i < instance.polynomials[b].len(),
    ensures
        batch_eval::<F, E>(instance, leaves, b, i).wf(),
        instance.polynomials[b][i].oracle_index < leaves.len(),
        instance.polynomials[b][i].polynomial_index + salt_size_spec(
            instance.oracles[instance.polynomials[b][i].oracle_index as int].blinding
                && params.hiding,
        ) < leaves[instance.polynomials[b][i].oracle_index as int].len(),
{
    let p = instance.polynomials[b][i];
    let o = p.oracle_index as int;
    assert(all_wf(leaves[o]));
    let v = leaves[o][p.polynomial_index as int];
    E::lemma_constants();
    E::lemma_extension_wf(v, E::zero_spec());
}

/// The view of an instance holds the instance's batches.
pub proof fn lemma_instance_view<E: Field>(instance: FriInstanceInfo<E>)
    requires
        instance.wf(),
    ensures
        polynomials_in_range(instance@),
        instance@.polynomials.len() == instance.batches@.len(),
        instance@.points.len() == instance.batches@.len(),
        all_wf(instance@.points),
        forall|b: int|
            0 <= b < instance.batches@.len() ==> #[trigger] instance@.polynomials[b]
                == instance.batches@[b].polynomials@ && instance@.points[b]
                == instance.batches@[b].point,
{
    assert forall|b: int, i: int|
        0 <= b < instance@.polynomials.len() && 0 <= i < instance@.polynomials[b].len() implies {
        let p = #[trigger] instance@.polynomials[b][i];
        p.oracle_index < instance@.oracles.len() && p.polynomial_index
            < instance@.oracles[p.oracle_index as int].num_polys
    } by {
        assert(instance.batches@[b].wf(instance.oracles@));
        assert(instance@.polynomials[b][i] == instance.batches@[b].polynomials@[i]);
    }
    assert forall|b: int| 0 <= b < instance@.points.len() implies (#[trigger] instance@.points[b]).wf() by {
        assert(instance.batches@[b].wf(instance.oracles@));
    }
}

/// Combines the evaluations of all opened polynomials at the queried point
/// into the value of the batch polynomial there.
pub fn fri_combine_initial<F: RichField, E: FieldExtension<F>, D>(
    instance: &FriInstanceInfo<E>,
    proof: &FriInitialTreeProof<F, D>,
    alpha: E,
    subgroup_x: F,
    precomputed_reduced_evals: &PrecomputedReducedOpenings<E>,
    params: &FriParams,
) -> (r: E)
    requires
        instance.wf(),
        leaves_fit(proof@.leaves, instance.oracles@, *params),
        leaves_wf(proof@.leaves),
        alpha.wf(),
        subgroup_x.wf(),
        all_wf(precomputed_reduced_evals.reduced_openings_at_point@),
        quotients_well_posed::<F, E>(
            instance@.points,
            subgroup_x,
            combined_batches(instance@, precomputed_reduced_evals.reduced_openings_at_point@),
        ),
        blinding_fits(instance@, *params),
    ensures
        r == fri_combine_initial_spec::<F, E>(
            instance@,
            proof@.leaves,
            alpha,
            subgroup_x,
            precomputed_reduced_evals.reduced_openings_at_point@,
            *params,
        ),
        r.wf(),
{
    let ghost reduced = precomputed_reduced_evals.reduced_openings_at_point@;
    let ghost iv = instance@;
    let ghost leaves = proof@.leaves;
    proof {
        lemma_instance_view(*instance);
    }
    let subgroup_x_ext = E::from_basefield(subgroup_x);
    let mut alpha_factor = ReducingFactor::new(alpha);
    let mut sum = E::zero();
    let batches = if instance.batches.len() <= precomputed_reduced_evals.reduced_openings_at_point.len() {
        instance.batches.len()
    } else {
        precomputed_reduced_evals.reduced_openings_at_point.len()
    };
    // If we are in the zk case, the `R` polynomial (the last polynomials in the
    // first batch) is added to the batch polynomial independently, without
    // being quotiented.
    let mut idx: usize = 0;
    while idx < batches
        invariant
            idx <= batches,
            batches == combined_batches(iv, reduced),
            reduced == precomputed_reduced_evals.reduced_openings_at_point@,
            iv == instance@,
            leaves == proof@.leaves,
            polynomials_in_range(iv),
            iv.polynomials.len() == instance.batches@.len(),
            iv.points.len() == instance.batches@.len(),
            all_wf(iv.points),
            forall|b: int|
                0 <= b < instance.batches@.len() ==> #[trigger] iv.polynomials[b]
                    == instance.batches@[b].polynomials@ && iv.points[b]
                    == instance.batches@[b].point,
            leaves_fit(leaves, instance.oracles@, *params),
            leaves_wf(leaves),
            alpha.wf(),
            subgroup_x.wf(),
            all_wf(reduced),
            quotients_well_posed::<F, E>(iv.points, subgroup_x, batches as nat),
            blinding_fits(iv, *params),
            subgroup_x_ext == E::from_basefield_spec(subgroup_x),
            subgroup_x_ext.wf(),
            alpha_factor.base == alpha,
            alpha_factor.count == 0,
            sum.wf(),
            sum == combine_initial_prefix::<F, E>(
                iv,
                leaves,
                alpha,
                subgroup_x,
                reduced,
                *params,
                idx as nat,
            ),
        decreases batches - idx,
    {
        let batch = &instance.batches[idx];
        let reduced_openings = precomputed_reduced_evals.reduced_openings_at_point[idx];
        let is_zk = params.hiding;
        let nb_r_polys = batch.num_r_polys();
        let last_poly = batch.polynomials.len() - if is_zk && idx == 0 {
            nb_r_polys
        } else {
            0
        };
        proof {
            assert(iv.polynomials[idx as int] == batch.polynomials@);
            assert(iv.points[idx as int] == batch.point);
        }
        let mut evals: Vec<E> = Vec::with_capacity(last_poly);
        let mut i: usize = 0;
        while i < last_poly
            invariant
                i <= last_poly,
                idx < instance.batches@.len(),
                last_poly == quotiented_count(iv, idx as int, params.hiding),
                last_poly <= batch.polynomials@.len(),
                *batch == instance.batches@[idx as int],
                iv == instance@,
                leaves == proof@.leaves,
                iv.polynomials.len() == instance.batches@.len(),
                iv.polynomials[idx as int] == batch.polynomials@,
                polynomials_in_range(iv),
                leaves_fit(leaves, instance.oracles@, *params),
                leaves_wf(leaves),
                evals@.len() == i,
                forall|k: int|
                    0 <= k < i ==> #[trigger] evals@[k] == batch_eval::<F, E>(
                        iv,
                        leaves,
                        idx as int,
                        k,
                    ),
                forall|k: int| 0 <= k < i ==> (#[trigger] evals@[k]).wf(),
            decreases last_poly - i,
        {
            let p = &batch.polynomials[i];
            proof {
                lemma_batch_evals_wf::<F, E>(iv, leaves, *params, idx as int, i as int);
                assert(leaves[p.oracle_index as int] == proof.evals_proofs@[p.oracle_index as int].0@);
            }
            let poly_blinding = instance.oracles[p.oracle_index].blinding;
            let salted = params.hiding && poly_blinding;
            let eval = proof.unsalted_eval(p.oracle_index, p.polynomial_index, salted);
            evals.push(E::from_basefield(eval));
            i = i + 1;
        }
        proof {
            assert(evals@ =~= batch_evals::<F, E>(iv, leaves, idx as int, params.hiding));
            E::lemma_closed(batch.point, batch.point);
            E::lemma_closed(subgroup_x_ext, batch.point.neg_spec());
            E::lemma_closed(reduced_openings, reduced_openings);
        }
        let reduced_evals = alpha_factor.reduce(evals.as_slice());
        let numerator = reduced_evals.sub(reduced_openings);
        let denominator = subgroup_x_ext.sub(batch.point);
        sum = alpha_factor.shift(sum);
        sum = sum.add(numerator.div(denominator));
        // If we are in the zk case, we still have to add `R(X)` to the batch.
        if is_zk && idx == 0 {
            let ghost start = sum;
            let count = batch.polynomials.len() - last_poly;
            let mut i: usize = 0;
            while i < count
                invariant
                    i <= count,
                    idx == 0,
                    0 < instance.batches@.len(),
                    params.hiding,
                    *batch == instance.batches@[0],
                    iv == instance@,
                    leaves == proof@.leaves,
                    iv.polynomials.len() == instance.batches@.len(),
                    iv.polynomials[0] == batch.polynomials@,
                    polynomials_in_range(iv),
                    last_poly == quotiented_count(iv, 0, true),
                    count == count_r_polys(batch.polynomials@, batch.polynomials@.len()),
                    last_poly + count == batch.polynomials@.len(),
                    batch.polynomials@.len() <= usize::MAX,
                    leaves_fit(leaves, instance.oracles@, *params),
                    leaves_wf(leaves),
                    blinding_fits(iv, *params),
                    subgroup_x_ext == E::from_basefield_spec(subgroup_x),
                    subgroup_x_ext.wf(),
                    start.wf(),
                    sum.wf(),
                    sum == blinding_sum::<F, E>(
                        iv,
                        leaves,
                        subgroup_x,
                        params.degree_bits as nat,
                        start,
                        i as nat,
                    ),
                decreases count - i,
            {
                let p = &batch.polynomials[last_poly + i];
                proof {
                    lemma_batch_evals_wf::<F, E>(iv, leaves, *params, 0, last_poly + i);
                    assert(leaves[p.oracle_index as int] == proof.evals_proofs@[p.oracle_index as int].0@);
                    E::lemma_constants();
                    assert(i * params.degree_bits <= batch.polynomials@.len() * params.degree_bits)
                        by (nonlinear_arith)
                        requires
                            i <= batch.polynomials@.len(),
                    ;
                }
                let poly_blinding = instance.oracles[p.oracle_index].blinding;
                let salted = params.hiding && poly_blinding;
                let eval = proof.unsalted_eval(p.oracle_index, p.polynomial_index, salted);
                let first = E::from_canonical_usize(
                    if i == 0 {
                        1
                    } else {
                        0
                    },
                );
                let shift_val = first.add(
                    subgroup_x_ext.exp_power_of_2(i * params.degree_bits).mul(
                        E::from_canonical_usize(i),
                    ),
                );
                sum = sum.add(E::from_basefield(eval).mul(shift_val));
                i = i + 1;
            }
        }
        idx = idx + 1;
    }
    sum
}

/// The leaf of oracle `o` authenticates against the oracle's cap at `x_index`.
pub open spec fn initial_opening_ok<F: Field, H: Hasher<F>>(
    x_index: nat,
    proof: InitialTreeView<F, H::Hash>,
    caps: Seq<Seq<H::Hash>>,
    o: int,
) -> bool {
    merkle_proof_valid::<F, H>(proof.leaves[o], x_index, caps[o], proof.siblings[o])
}

/// The least oracle below `n` whose leaf does not authenticate.
pub open spec fn first_bad_oracle<F: Field, H: Hasher<F>>(
    x_index: nat,
    proof: InitialTreeView<F, H::Hash>,
    caps: Seq<Seq<H::Hash>>,
    n: nat,
) -> Option<nat>
    decreases n,
{
    if n == 0 {
        None
    } else {
        match first_bad_oracle::<F, H>(x_index, proof, caps, (n - 1) as nat) {
            Some(o) => Some(o),
            None => if initial_opening_ok::<F, H>(x_index, proof, caps, n - 1) {
                None
            } else {
                Some((n - 1) as nat)
            },
        }
    }
}

/// Number of oracles whose leaves are checked: those that have both a leaf and
/// a cap.
pub open spec fn checked_oracles<F, D>(proof: InitialTreeView<F, D>, caps: Seq<Seq<D>>) -> nat {
    if proof.leaves.len() <= caps.len() {
        proof.leaves.len()
    } else {
        caps.len()
    }
}

/// What the check of the initial openings of a round returns: the failure at
/// the first oracle that does not authenticate.
pub open spec fn fri_verify_initial_proof_spec<F: Field, H: Hasher<F>>(
    x_index: nat,
    proof: InitialTreeView<F, H::Hash>,
    caps: Seq<Seq<H::Hash>>,
    round: usize,
) -> Result<(), FriError> {
    match first_bad_oracle::<F, H>(x_index, proof, caps, checked_oracles(proof, caps)) {
        Some(o) => Err(
            FriError::MerkleAuthenticationFailure {
                round,
                place: MerklePlace::Oracle(o as usize),
            },
        ),
        None => Ok(()),
    }
}

/// Checks the leaves of all oracles at the queried index against their caps.
pub fn fri_verify_initial_proof<F: RichField, H: Hasher<F>>(
    x_index: usize,
    proof: &FriInitialTreeProof<F, H::Hash>,
    initial_merkle_caps: &[MerkleCap<H::Hash>],
    round: usize,
) -> (r: Result<(), FriError>)
    requires
        initial_tree_proof_wf::<F, H>(*proof),
        caps_wf::<F, H>(initial_merkle_caps@),
    ensures
        r == fri_verify_initial_proof_spec::<F, H>(
            x_index as nat,
            proof@,
            caps_view(initial_merkle_caps@),
            round,
        ),
{
    let n = if proof.evals_proofs.len() <= initial_merkle_caps.len() {
        proof.evals_proofs.len()
    } else {
        initial_merkle_caps.len()
    };
    let ghost pv = proof@;
    let ghost cv = caps_view(initial_merkle_caps@);
    let mut o: usize = 0;
    while o < n
        invariant
            o <= n,
            pv == proof@,
            cv == caps_view(initial_merkle_caps@),
            n == checked_oracles(pv, cv),
            n <= proof.evals_proofs@.len(),
            n <= initial_merkle_caps@.len(),
            initial_tree_proof_wf::<F, H>(*proof),
            caps_wf::<F, H>(initial_merkle_caps@),
            first_bad_oracle::<F, H>(x_index as nat, pv, cv, o as nat) is None,
        decreases n - o,
    {
        let evals = &proof.evals_proofs[o].0;
        let merkle_proof = &proof.evals_proofs[o].1;
        let cap = &initial_merkle_caps[o];
        proof {
            assert(all_wf(proof.evals_proofs@[o as int].0@));
            assert(all_hash_wf::<F, H>(initial_merkle_caps@[o as int].0@));
            assert(pv.leaves[o as int] == evals@);
            assert(pv.siblings[o as int] == merkle_proof.siblings@);
            assert(cv[o as int] == cap.0@);
        }
        if !verify_merkle_proof_to_cap::<F, H>(evals.as_slice(), x_index, cap, merkle_proof) {
            proof {
                lemma_first_bad_oracle_stays::<F, H>(x_index as nat, pv, cv, o as nat, n as nat);
            }
            return Err(
                FriError::MerkleAuthenticationFailure { round, place: MerklePlace::Oracle(o) },
            );
        }
        o = o + 1;
    }
    Ok(())
}

/// A first failure stays the first one in every longer prefix.
pub proof fn lemma_first_bad_oracle_stays<F: Field, H: Hasher<F>>(
    x_index: nat,
    proof: InitialTreeView<F, H::Hash>,
    caps: Seq<Seq<H::Hash>>,
    o: nat,
    n: nat,
)
    requires
        o < n,
        first_bad_oracle::<F, H>(x_index, proof, caps, o) is None,
        !initial_opening_ok::<F, H>(x_index, proof, caps, o as int),
    ensures
        first_bad_oracle::<F, H>(x_index, proof, caps, n) == Some(o),
    decreases n,
{
    if n > o + 1 {
        lemma_first_bad_oracle_stays::<F, H>(x_index, proof, caps, o, (n - 1) as nat);
    }
}

/// The point of the evaluation domain with the given index: the coset shift
/// times the root of unity to the bit-reversed index.
pub open spec fn initial_x_spec<F: Field>(x_index: nat, log_n: nat) -> F {
    F::multiplicative_group_generator_spec().mul_spec(
        pow_spec(primitive_root_of_unity_spec::<F>(log_n), reverse_low_bits(x_index, log_n)),
    )
}

/// The point reached after `i` folding steps: each step raises it to the
/// step's arity.
pub open spec fn walk_x<F: Field>(params: FriParams, x_index: nat, i: nat) -> F
    decreases i,
{
    if i == 0 {
        initial_x_spec::<F>(x_index, params.lde_bits_spec())
    } else {
        pow_spec(
            walk_x::<F>(params, x_index, (i - 1) as nat),
            pow2(params.reduction_arity_bits@[i - 1] as nat),
        )
    }
}

/// The index reached after `i` folding steps: each step drops the low
/// `arity_bits` bits, which number the point within its coset.
pub open spec fn walk_index(params: FriParams, x_index: nat, i: nat) -> nat
    decreases i,
{
    if i == 0 {
        x_index
    } else {
        walk_index(params, x_index, (i - 1) as nat) / pow2(
            params.reduction_arity_bits@[i - 1] as nat,
        )
    }
}

/// The index within its coset of the point that step `i` starts from.
pub open spec fn walk_index_within_coset(params: FriParams, x_index: nat, i: int) -> nat {
    walk_index(params, x_index, i as nat) % pow2(params.reduction_arity_bits@[i] as nat)
}

/// Everything that one query round is checked against.
pub struct QueryInputs<F, E, D> {
    pub instance: InstanceView<E>,
    pub alpha: E,
    pub betas: Seq<E>,
    pub reduced_openings: Seq<E>,
    pub initial_caps: Seq<Seq<D>>,
    pub commit_caps: Seq<Seq<D>>,
    pub final_poly: Seq<E>,
    pub x_index: nat,
    pub round_proof: QueryRoundView<F, E, D>,
    pub params: FriParams,
    pub round: usize,
}

/// The running evaluation after `i` folding steps: the combination of the
/// initial openings, folded once per step.
pub open spec fn walk_eval<F: Field, E: FieldExtension<F>, D>(q: QueryInputs<F, E, D>, i: nat) -> E
    decreases i,
{
    if i == 0 {
        fri_combine_initial_spec::<F, E>(
            q.instance,
            q.round_proof.initial.leaves,
            q.alpha,
            walk_x::<F>(q.params, q.x_index, 0),
            q.reduced_openings,
            q.params,
        )
    } else {
        let j = (i - 1) as int;
        compute_evaluation_spec::<F, E>(
            walk_x::<F>(q.params, q.x_index, j as nat),
            walk_index_within_coset(q.params, q.x_index, j),
            q.params.reduction_arity_bits@[j] as nat,
            q.round_proof.step_evals[j],
            q.betas[j],
        )
    }
}

/// The evaluations of step `i` hold the running evaluation at the place of the
/// point within its coset.
pub open spec fn layer_consistent<F: Field, E: FieldExtension<F>, D>(
    q: QueryInputs<F, E, D>,
    i: int,
) -> bool {
    q.round_proof.step_evals[i][walk_index_within_coset(q.params, q.x_index, i) as int]
        == walk_eval(q, i as nat)
}

/// The evaluations of step `i` authenticate against the cap of layer `i` at the
/// index of the coset.
pub open spec fn layer_authentic<F: Field, E: FieldExtension<F>, H: Hasher<F>>(
    q: QueryInputs<F, E, H::Hash>,
    i: int,
) -> bool {
    merkle_proof_valid::<F, H>(
        flatten_spec::<F, E>(q.round_proof.step_evals[i]),
        walk_index(q.params, q.x_index, (i + 1) as nat),
        q.commit_caps[i],
        q.round_proof.step_siblings[i],
    )
}

/// The failure of step `i`, if it fails: the consistency with the running
/// evaluation is checked before the opening.
pub open spec fn layer_failure<F: Field, E: FieldExtension<F>, H: Hasher<F>>(
    q: QueryInputs<F, E, H::Hash>,
    i: int,
) -> Option<FriError> {
    if !layer_consistent(q, i) {
        Some(FriError::FoldingConsistencyFailure { round: q.round, layer: i as usize })
    } else if !layer_authentic::<F, E, H>(q, i) {
        Some(
            FriError::MerkleAuthenticationFailure {
                round: q.round,
                place: MerklePlace::Layer(i as usize),
            },
        )
    } else {
        None
    }
}

/// The failure of the first step below `n` that fails.
pub open spec fn first_layer_failure<F: Field, E: FieldExtension<F>, H: Hasher<F>>(
    q: QueryInputs<F, E, H::Hash>,
    n: nat,
) -> Option<FriError>
    decreases n,
{
    if n == 0 {
        None
    } else {
        match first_layer_failure::<F, E, H>(q, (n - 1) as nat) {
            Some(e) => Some(e),
            None => layer_failure::<F, E, H>(q, n - 1),
        }
    }
}

/// The final polynomial takes the last running evaluation at the last point.
pub open spec fn final_check_ok<F: Field, E: FieldExtension<F>, D>(q: QueryInputs<F, E, D>) -> bool {
    let n = q.params.reduction_arity_bits@.len();
    poly_eval_spec(q.final_poly, E::from_basefield_spec(walk_x::<F>(q.params, q.x_index, n)))
        == walk_eval(q, n)
}

/// What a query round returns: the first failure among the initial openings,
/// the folding steps in order, and the final check.
pub open spec fn fri_verifier_query_round_spec<F: Field, E: FieldExtension<F>, H: Hasher<F>>(
    q: QueryInputs<F, E, H::Hash>,
) -> Result<(), FriError> {
    match fri_verify_initial_proof_spec::<F, H>(
        q.x_index,
        q.round_proof.initial,
        q.initial_caps,
        q.round,
    ) {
        Err(e) => Err(e),
        Ok(_) => match first_layer_failure::<F, E, H>(q, q.params.reduction_arity_bits@.len()) {
            Some(e) => Err(e),
            None => if final_check_ok(q) {
                Ok(())
            } else {
                Err(FriError::FinalPolynomialMismatch { round: q.round })
            },
        },
    }
}

/// Each of the first `n` folding steps interpolates through distinct points at
/// a challenge away from them.
pub open spec fn layers_well_posed<F: Field, E: FieldExtension<F>>(
    betas: Seq<E>,
    params: FriParams,
    x_index: nat,
    n: nat,
) -> bool {
    forall|i: int|
        0 <= i < n ==> folding_well_posed::<F, E>(
            walk_x::<F>(params, x_index, i as nat),
            #[trigger] walk_index_within_coset(params, x_index, i),
            params.reduction_arity_bits@[i] as nat,
            betas[i],
        )
}

/// The query at `x_index` divides only by units: the domain point is at a
/// distance with an inverse from the point of every batch that is combined,
/// and every folding step interpolates through distinct points at a challenge
/// away from them.
pub open spec fn query_well_posed<F: Field, E: FieldExtension<F>>(
    points: Seq<E>,
    batches: nat,
    betas: Seq<E>,
    params: FriParams,
    x_index: nat,
) -> bool {
    &&& quotients_well_posed::<F, E>(points, walk_x::<F>(params, x_index, 0), batches)
    &&& layers_well_posed::<F, E>(betas, params, x_index, params.reduction_arity_bits@.len())
}

/// The divisions that the query round comes to are by units. The batches are
/// combined only where the initial openings authenticate, so only there the
/// domain point must be at a distance with an inverse from the batches'
/// points; a step interpolates only where no step before it failed and its
/// own evaluations hold the running evaluation, so only there its points must
/// be distinct and its challenge away from them.
pub open spec fn query_reaches_units<F: Field, E: FieldExtension<F>, H: Hasher<F>>(
    q: QueryInputs<F, E, H::Hash>,
) -> bool {
    fri_verify_initial_proof_spec::<F, H>(q.x_index, q.round_proof.initial, q.initial_caps, q.round)
        is Ok ==> {
        &&& quotients_well_posed::<F, E>(
            q.instance.points,
            walk_x::<F>(q.params, q.x_index, 0),
            combined_batches(q.instance, q.reduced_openings),
        )
        &&& forall|i: int|
            0 <= i < q.params.reduction_arity_bits@.len() && first_layer_failure::<F, E, H>(
                q,
                i as nat,
            ) is None && layer_consistent(q, i) ==> folding_well_posed::<F, E>(
                walk_x::<F>(q.params, q.x_index, i as nat),
                #[trigger] walk_index_within_coset(q.params, q.x_index, i),
                q.params.reduction_arity_bits@[i] as nat,
                q.betas[i],
            )
    }
}

/// A query that divides by units only does so in what it comes to.
pub proof fn lemma_well_posed_reaches_units<F: Field, E: FieldExtension<F>, H: Hasher<F>>(
    q: QueryInputs<F, E, H::Hash>,
)
    requires
        query_well_posed::<F, E>(
            q.instance.points,
            combined_batches(q.instance, q.reduced_openings),
            q.betas,
            q.params,
            q.x_index,
        ),
    ensures
        query_reaches_units::<F, E, H>(q),
{
}

/// The index reached after `i` folding steps is the queried index without its
/// low bits: as many as the steps took up.
pub proof fn lemma_walk_index(params: FriParams, x_index: nat, i: nat)
    requires
        i <= params.reduction_arity_bits@.len(),
    ensures
        walk_index(params, x_index, i) == x_index / pow2(sum_prefix(params.reduction_arity_bits@, i)),
    decreases i,
{
    if i == 0 {
        vstd::arithmetic::power2::lemma2_to64();
    } else {
        let i1 = (i - 1) as nat;
        lemma_walk_index(params, x_index, i1);
        crate::plonk::bits::lemma_div_pow2_twice(
            x_index,
            sum_prefix(params.reduction_arity_bits@, i1),
            params.reduction_arity_bits@[i1 as int] as nat,
        );
    }
}

/// No oracle below `n` fails where each of them authenticates.
pub proof fn lemma_first_bad_oracle_none<F: Field, H: Hasher<F>>(
    x_index: nat,
    proof: InitialTreeView<F, H::Hash>,
    caps: Seq<Seq<H::Hash>>,
    n: nat,
)
    ensures
        first_bad_oracle::<F, H>(x_index, proof, caps, n) is None <==> forall|o: int|
            0 <= o < n ==> initial_opening_ok::<F, H>(x_index, proof, caps, o),
    decreases n,
{
    if n > 0 {
        lemma_first_bad_oracle_none::<F, H>(x_index, proof, caps, (n - 1) as nat);
        if first_bad_oracle::<F, H>(x_index, proof, caps, n) is None {
            assert forall|o: int| 0 <= o < n implies initial_opening_ok::<F, H>(
                x_index,
                proof,
                caps,
                o,
            ) by {}
        }
    }
}

/// A query round is accepted where its initial openings authenticate, none of
/// its folding steps fails and the final check passes.
pub open spec fn query_round_accepts<F: Field, E: FieldExtension<F>, H: Hasher<F>>(
    q: QueryInputs<F, E, H::Hash>,
) -> bool {
    &&& first_bad_oracle::<F, H>(
        q.x_index,
        q.round_proof.initial,
        q.initial_caps,
        checked_oracles(q.round_proof.initial, q.initial_caps),
    ) is None
    &&& first_layer_failure::<F, E, H>(q, q.params.reduction_arity_bits@.len()) is None
    &&& final_check_ok(q)
}

/// A query round returns `Ok` exactly where all its checks pass.
pub proof fn lemma_query_round_accepts<F: Field, E: FieldExtension<F>, H: Hasher<F>>(
    q: QueryInputs<F, E, H::Hash>,
)
    ensures
        fri_verifier_query_round_spec::<F, E, H>(q) is Ok <==> query_round_accepts::<F, E, H>(q),
{
}

/// What one query round is checked against, from the values as they are held.
pub open spec fn query_inputs<F: Field, E: Field, D>(
    instance: FriInstanceInfo<E>,
    challenges: FriChallenges<F, E>,
    reduced_openings: Seq<E>,
    initial_merkle_caps: Seq<MerkleCap<D>>,
    proof: FriProof<F, E, D>,
    x_index: nat,
    round_proof: FriQueryRound<F, E, D>,
    params: FriParams,
    round: usize,
) -> QueryInputs<F, E, D> {
    QueryInputs {
        instance: instance@,
        alpha: challenges.fri_alpha,
        betas: challenges.fri_betas@,
        reduced_openings,
        initial_caps: caps_view(initial_merkle_caps),
        commit_caps: proof@.commit_caps,
        final_poly: proof@.final_poly,
        x_index,
        round_proof: round_proof@,
        params,
        round,
    }
}

/// No reduction takes up more bits than the domain has.
pub proof fn lemma_arity_bits_bound(params: FriParams, i: int)
    requires
        params.wf(),
        0 <= i < params.reduction_arity_bits@.len(),
    ensures
        params.reduction_arity_bits@[i] <= params.lde_bits_spec(),
        params.reduction_arity_bits@[i] < usize::BITS,
{
    lemma_sum_prefix_monotonic(
        params.reduction_arity_bits@,
        (i + 1) as nat,
        params.reduction_arity_bits@.len(),
    );
    lemma_sum_prefix_monotonic(params.reduction_arity_bits@, i as nat, (i + 1) as nat);
}

/// One query round: the initial openings, the folding walk, the final check.
pub fn fri_verifier_query_round<F: RichField, E: FieldExtension<F>, H: Hasher<F>>(
    instance: &FriInstanceInfo<E>,
    challenges: &FriChallenges<F, E>,
    precomputed_reduced_evals: &PrecomputedReducedOpenings<E>,
    initial_merkle_caps: &[MerkleCap<H::Hash>],
    proof: &FriProof<F, E, H::Hash>,
    x_index: usize,
    n: usize,
    round_proof: &FriQueryRound<F, E, H::Hash>,
    params: &FriParams,
    round: usize,
) -> (r: Result<(), FriError>)
    requires
        n == pow2(params.lde_bits_spec()),
        params.wf(),
        params.lde_bits_spec() <= F::two_adicity_spec(),
        instance.wf(),
        blinding_fits(instance@, *params),
        challenges.wf(params.reduction_arity_bits@),
        all_wf(precomputed_reduced_evals.reduced_openings_at_point@),
        caps_wf::<F, H>(initial_merkle_caps@),
        proof_wf::<F, E, H>(*proof),
        query_round_wf::<F, E, H>(*round_proof),
        proof.commit_phase_merkle_caps@.len() == params.reduction_arity_bits@.len(),
        round_shape_ok(round_proof@, instance.oracles@, *params),
        query_reaches_units::<F, E, H>(
            query_inputs(
                *instance,
                *challenges,
                precomputed_reduced_evals.reduced_openings_at_point@,
                initial_merkle_caps@,
                *proof,
                x_index as nat,
                *round_proof,
                *params,
                round,
            ),
        ),
    ensures
        r == fri_verifier_query_round_spec::<F, E, H>(
            query_inputs(
                *instance,
                *challenges,
                precomputed_reduced_evals.reduced_openings_at_point@,
                initial_merkle_caps@,
                *proof,
                x_index as nat,
                *round_proof,
                *params,
                round,
            ),
        ),
{
    let ghost q = query_inputs(
        *instance,
        *challenges,
        precomputed_reduced_evals.reduced_openings_at_point@,
        initial_merkle_caps@,
        *proof,
        x_index as nat,
        *round_proof,
        *params,
        round,
    );
    let ghost x0 = x_index as nat;
    match fri_verify_initial_proof::<F, H>(
        x_index,
        &round_proof.initial_trees_proof,
        initial_merkle_caps,
        round,
    ) {
        Err(e) => {
            return Err(e);
        },
        Ok(_) => {},
    }
    // `subgroup_x` is `subgroup[x_index]`, i.e., the actual field element in the domain.
    proof {
        assert(crate::util::is_power_of_two(n as nat));
        lemma_log2_floor_pow2(params.lde_bits_spec());
        lemma_shift_is_pow2(params.lde_bits_spec() as usize);
        lemma_reverse_low_bits_bound(x_index as nat, params.lde_bits_spec());
    }
    let log_n = log2_strict(n);
    proof {
        if log_n as nat != params.lde_bits_spec() {
            if (log_n as nat) < params.lde_bits_spec() {
                lemma_pow2_strictly_increases(log_n as nat, params.lde_bits_spec());
            } else {
                lemma_pow2_strictly_increases(params.lde_bits_spec(), log_n as nat);
            }
        }
    }
    let mut subgroup_x = F::multiplicative_group_generator().mul(
        F::primitive_root_of_unity(log_n).exp_u64(reverse_bits(x_index, log_n) as u64),
    );
    proof {
        let leaves = round_proof.initial_trees_proof@.leaves;
        assert(leaves == round_proof@.initial.leaves);
        assert forall|o: int| 0 <= o < instance.oracles@.len() implies (#[trigger] leaves[o]).len()
            == instance.oracles@[o].num_polys + salt_size_spec(
            instance.oracles@[o].blinding && params.hiding,
        ) by {
            assert(leaf_shape_ok(
                round_proof@.initial.leaves[o],
                round_proof@.initial.siblings[o],
                instance.oracles@[o],
                *params,
            ));
        }
        assert forall|o: int| 0 <= o < leaves.len() implies all_wf(#[trigger] leaves[o]) by {
            assert(all_wf(round_proof.initial_trees_proof.evals_proofs@[o].0@));
        }
    }
    // old_eval is the last derived evaluation; it will be checked for
    // consistency with its committed "parent" value in the next iteration.
    let mut old_eval = fri_combine_initial::<F, E, H::Hash>(
        instance,
        &round_proof.initial_trees_proof,
        challenges.fri_alpha,
        subgroup_x,
        precomputed_reduced_evals,
        params,
    );
    let mut index = x_index;
    let layers = params.reduction_arity_bits.len();
    let mut i: usize = 0;
    while i < layers
        invariant
            i <= layers,
            layers == params.reduction_arity_bits@.len(),
            x0 == x_index as nat,
            q == query_inputs(
                *instance,
                *challenges,
                precomputed_reduced_evals.reduced_openings_at_point@,
                initial_merkle_caps@,
                *proof,
                x0,
                *round_proof,
                *params,
                round,
            ),
            params.wf(),
            params.lde_bits_spec() <= F::two_adicity_spec(),
            challenges.wf(params.reduction_arity_bits@),
            proof_wf::<F, E, H>(*proof),
            query_round_wf::<F, E, H>(*round_proof),
            proof.commit_phase_merkle_caps@.len() == params.reduction_arity_bits@.len(),
            round_shape_ok(round_proof@, instance.oracles@, *params),
            query_reaches_units::<F, E, H>(q),
            fri_verify_initial_proof_spec::<F, H>(
                x0,
                round_proof@.initial,
                caps_view(initial_merkle_caps@),
                round,
            ) is Ok,
            subgroup_x.wf(),
            old_eval.wf(),
            subgroup_x == walk_x::<F>(*params, x0, i as nat),
            index == walk_index(*params, x0, i as nat),
            old_eval == walk_eval(q, i as nat),
            first_layer_failure::<F, E, H>(q, i as nat) is None,
        decreases layers - i,
    {
        let arity_bits = params.reduction_arity_bits[i];
        proof {
            lemma_arity_bits_bound(*params, i as int);
            lemma_shift_is_pow2(arity_bits);
            lemma_pow2_pos(arity_bits as nat);
            assert(round_proof@.step_evals[i as int] == round_proof.steps@[i as int].evals@);
            assert(round_proof@.step_siblings[i as int]
                == round_proof.steps@[i as int].merkle_proof.siblings@);
            assert(proof@.commit_caps[i as int] == proof.commit_phase_merkle_caps@[i as int].0@);
            assert(step_shape_ok(
                round_proof@.step_evals[i as int],
                round_proof@.step_siblings[i as int],
                *params,
                i as int,
            ));
            assert(all_wf(round_proof.steps@[i as int].evals@));
            assert(all_hash_wf::<F, H>(round_proof.steps@[i as int].merkle_proof.siblings@));
            assert(all_hash_wf::<F, H>(proof.commit_phase_merkle_caps@[i as int].0@));
            assert(walk_index_within_coset(*params, x0, i as int) == index as nat % pow2(
                arity_bits as nat,
            ));
            assert(walk_index(*params, x0, (i + 1) as nat) == index as nat / pow2(
                arity_bits as nat,
            ));
            assert(walk_x::<F>(*params, x0, (i + 1) as nat) == pow_spec(
                subgroup_x,
                pow2(arity_bits as nat),
            ));
        }
        let arity = 1usize << arity_bits;
        let evals = &round_proof.steps[i].evals;
        // Split x_index into the index of the coset x is in, and the index of x
        // within that coset.
        let coset_index = index / arity;
        let x_index_within_coset = index % arity;
        // Check consistency with our old evaluation from the previous round.
        if !evals[x_index_within_coset].equals(&old_eval) {
            proof {
                assert(!layer_consistent(q, i as int));
                lemma_first_layer_failure_stays::<F, E, H>(q, i as nat, layers as nat);
            }
            return Err(FriError::FoldingConsistencyFailure { round, layer: i });
        }
        // Infer P(y) from {P(x)}_{x^arity=y}.
        old_eval = compute_evaluation::<F, E>(
            subgroup_x,
            x_index_within_coset,
            arity_bits,
            evals.as_slice(),
            challenges.fri_betas[i],
        );
        let flat = flatten::<F, E>(evals.as_slice());
        if !verify_merkle_proof_to_cap::<F, H>(
            flat.as_slice(),
            coset_index,
            &proof.commit_phase_merkle_caps[i],
            &round_proof.steps[i].merkle_proof,
        ) {
            proof {
                assert(layer_consistent(q, i as int));
                assert(!layer_authentic::<F, E, H>(q, i as int));
                lemma_first_layer_failure_stays::<F, E, H>(q, i as nat, layers as nat);
            }
            return Err(
                FriError::MerkleAuthenticationFailure { round, place: MerklePlace::Layer(i) },
            );
        }
        proof {
            assert(layer_failure::<F, E, H>(q, i as int) is None);
        }
        // Update the point x to x^arity.
        subgroup_x = subgroup_x.exp_power_of_2(arity_bits);
        index = coset_index;
        i = i + 1;
    }
    // Final check. After all the reductions, we check that the final
    // polynomial is equal to the one sent by the prover.
    let at = E::from_basefield(subgroup_x);
    if proof.final_poly.eval(at).equals(&old_eval) {
        Ok(())
    } else {
        Err(FriError::FinalPolynomialMismatch { round })
    }
}

/// A first failing step stays the first one in every longer prefix.
pub proof fn lemma_first_layer_failure_stays<F: Field, E: FieldExtension<F>, H: Hasher<F>>(
    q: QueryInputs<F, E, H::Hash>,
    i: nat,
    n: nat,
)
    requires
        i < n,
        first_layer_failure::<F, E, H>(q, i) is None,
        layer_failure::<F, E, H>(q, i as int) is Some,
    ensures
        first_layer_failure::<F, E, H>(q, n) == layer_failure::<F, E, H>(q, i as int),
    decreases n,
{
    if n > i + 1 {
        lemma_first_layer_failure_stays::<F, E, H>(q, i, (n - 1) as nat);
    }
}

/// What query round `r` is checked against.
pub open spec fn round_inputs<F: Field, E: FieldExtension<F>, D>(
    instance: InstanceView<E>,
    openings: Seq<Seq<E>>,
    challenges: ChallengesView<F, E>,
    initial_caps: Seq<Seq<D>>,
    proof: FriProofView<F, E, D>,
    params: FriParams,
    r: int,
) -> QueryInputs<F, E, D> {
    QueryInputs {
        instance,
        alpha: challenges.alpha,
        betas: challenges.betas,
        reduced_openings: reduced_openings_spec(openings, challenges.alpha, params.hiding),
        initial_caps,
        commit_caps: proof.commit_caps,
        final_poly: proof.final_poly,
        x_index: challenges.query_indices[r],
        round_proof: proof.rounds[r],
        params,
        round: r as usize,
    }
}

/// Number of query rounds that are verified: those that have both an index and
/// a proof.
pub open spec fn checked_rounds<F, E, D>(
    challenges: ChallengesView<F, E>,
    proof: FriProofView<F, E, D>,
) -> nat {
    if challenges.query_indices.len() <= proof.rounds.len() {
        challenges.query_indices.len()
    } else {
        proof.rounds.len()
    }
}

/// The failure of the first query round below `n` that fails.
pub open spec fn first_round_failure<F: Field, E: FieldExtension<F>, H: Hasher<F>>(
    instance: InstanceView<E>,
    openings: Seq<Seq<E>>,
    challenges: ChallengesView<F, E>,
    initial_caps: Seq<Seq<H::Hash>>,
    proof: FriProofView<F, E, H::Hash>,
    params: FriParams,
    n: nat,
) -> Option<FriError>
    decreases n,
{
    if n == 0 {
        None
    } else {
        match first_round_failure::<F, E, H>(
            instance,
            openings,
            challenges,
            initial_caps,
            proof,
            params,
            (n - 1) as nat,
        ) {
            Some(e) => Some(e),
            None => match fri_verifier_query_round_spec::<F, E, H>(
                round_inputs(instance, openings, challenges, initial_caps, proof, params, n - 1),
            ) {
                Err(e) => Some(e),
                Ok(_) => None,
            },
        }
    }
}

/// The verdict on a proof: a shape that does not match is rejected first, then
/// a failed proof of work, then the first query round that fails; a proof that
/// passes all of these is accepted.
pub open spec fn verify_fri_proof_spec<F: PrimeField, E: FieldExtension<F>, H: Hasher<F>>(
    instance: InstanceView<E>,
    openings: Seq<Seq<E>>,
    challenges: ChallengesView<F, E>,
    initial_caps: Seq<Seq<H::Hash>>,
    proof: FriProofView<F, E, H::Hash>,
    params: FriParams,
) -> Result<(), FriError> {
    if !proof_shape_ok(proof, instance.oracles, params) {
        Err(FriError::ShapeMismatch)
    } else if !proof_of_work_ok(challenges.pow_response, params.config) {
        Err(FriError::ProofOfWorkFailure)
    } else {
        match first_round_failure::<F, E, H>(
            instance,
            openings,
            challenges,
            initial_caps,
            proof,
            params,
            checked_rounds(challenges, proof),
        ) {
            Some(e) => Err(e),
            None => Ok(()),
        }
    }
}

/// Every query index numbers a point of the evaluation domain.
pub open spec fn indices_within_domain(indices: Seq<usize>, params: FriParams) -> bool {
    forall|r: int| 0 <= r < indices.len() ==> #[trigger] indices[r] < pow2(params.lde_bits_spec())
}

/// The values handed to the verifier are well formed and fit the machine and
/// the field: the domain is within the field's two-adic subgroup, and the
/// query indices are within the domain.
pub open spec fn fri_inputs_wf<F: Field, E: FieldExtension<F>, H: Hasher<F>>(
    instance: FriInstanceInfo<E>,
    openings: FriOpenings<E>,
    challenges: FriChallenges<F, E>,
    initial_merkle_caps: Seq<MerkleCap<H::Hash>>,
    proof: FriProof<F, E, H::Hash>,
    params: FriParams,
) -> bool {
    &&& params.wf()
    &&& params.lde_bits_spec() <= F::two_adicity_spec()
    &&& instance.wf()
    &&& blinding_fits(instance@, params)
    &&& openings.wf()
    &&& openings_fit(openings@, params.hiding)
    &&& challenges.wf(params.reduction_arity_bits@)
    &&& indices_within_domain(challenges.fri_query_indices@, params)
    &&& caps_wf::<F, H>(initial_merkle_caps)
    &&& proof_wf::<F, E, H>(proof)
}

/// Every query divides only by units: the batches' points lie off the
/// evaluation domain, and the folding challenges off the cosets that are
/// folded (or on one of their points).
pub open spec fn fri_well_posed<F: Field, E: FieldExtension<F>>(
    instance: InstanceView<E>,
    openings: Seq<Seq<E>>,
    challenges: ChallengesView<F, E>,
    params: FriParams,
) -> bool {
    forall|r: int|
        0 <= r < challenges.query_indices.len() ==> query_well_posed::<F, E>(
            instance.points,
            combined_batches(
                instance,
                reduced_openings_spec(openings, challenges.alpha, params.hiding),
            ),
            challenges.betas,
            params,
            #[trigger] challenges.query_indices[r],
        )
}

/// The divisions that the verifier comes to are by units: where the shape and
/// the proof of work pass, those of every query round before which no round
/// failed.
pub open spec fn fri_reaches_units<F: PrimeField, E: FieldExtension<F>, H: Hasher<F>>(
    instance: InstanceView<E>,
    openings: Seq<Seq<E>>,
    challenges: ChallengesView<F, E>,
    initial_caps: Seq<Seq<H::Hash>>,
    proof: FriProofView<F, E, H::Hash>,
    params: FriParams,
) -> bool {
    proof_shape_ok(proof, instance.oracles, params) && proof_of_work_ok(
        challenges.pow_response,
        params.config,
    ) ==> forall|r: int|
        0 <= r < checked_rounds(challenges, proof) && first_round_failure::<F, E, H>(
            instance,
            openings,
            challenges,
            initial_caps,
            proof,
            params,
            r as nat,
        ) is None ==> query_reaches_units::<F, E, H>(
            #[trigger] round_inputs(instance, openings, challenges, initial_caps, proof, params, r),
        )
}

/// Inputs on which every query divides by units only do so in what the
/// verifier comes to.
pub proof fn lemma_fri_well_posed_reaches_units<
    F: PrimeField,
    E: FieldExtension<F>,
    H: Hasher<F>,
>(
    instance: InstanceView<E>,
    openings: Seq<Seq<E>>,
    challenges: ChallengesView<F, E>,
    initial_caps: Seq<Seq<H::Hash>>,
    proof: FriProofView<F, E, H::Hash>,
    params: FriParams,
)
    requires
        fri_well_posed::<F, E>(instance, openings, challenges, params),
    ensures
        fri_reaches_units::<F, E, H>(instance, openings, challenges, initial_caps, proof, params),
{
    assert forall|r: int| 0 <= r < checked_rounds(challenges, proof) implies query_reaches_units::<
        F,
        E,
        H,
    >(#[trigger] round_inputs(instance, openings, challenges, initial_caps, proof, params, r)) by {
        let q = round_inputs(instance, openings, challenges, initial_caps, proof, params, r);
        assert(query_well_posed::<F, E>(
            instance.points,
            combined_batches(
                instance,
                reduced_openings_spec(openings, challenges.alpha, params.hiding),
            ),
            challenges.betas,
            params,
            challenges.query_indices[r],
        ));
        lemma_well_posed_reaches_units::<F, E, H>(q);
    }
}

/// The verdict is a function of the inputs: two runs on the same inputs agree.
pub proof fn lemma_verify_fri_proof_repeatable<F: PrimeField, E: FieldExtension<F>, H: Hasher<F>>(
    instance: InstanceView<E>,
    openings: Seq<Seq<E>>,
    challenges: ChallengesView<F, E>,
    initial_caps: Seq<Seq<H::Hash>>,
    proof: FriProofView<F, E, H::Hash>,
    params: FriParams,
    first: Result<(), FriError>,
    second: Result<(), FriError>,
)
    requires
        first == verify_fri_proof_spec::<F, E, H>(
            instance,
            openings,
            challenges,
            initial_caps,
            proof,
            params,
        ),
        second == verify_fri_proof_spec::<F, E, H>(
            instance,
            openings,
            challenges,
            initial_caps,
            proof,
            params,
        ),
    ensures
        first == second,
{
}

/// A proof whose number of query rounds is not the configured one is rejected
/// for its shape, whatever the proof of work and the openings are.
pub proof fn lemma_shape_is_checked_first<F: PrimeField, E: FieldExtension<F>, H: Hasher<F>>(
    instance: InstanceView<E>,
    openings: Seq<Seq<E>>,
    challenges: ChallengesView<F, E>,
    initial_caps: Seq<Seq<H::Hash>>,
    proof: FriProofView<F, E, H::Hash>,
    params: FriParams,
)
    requires
        proof.rounds.len() != params.config.num_query_rounds,
    ensures
        verify_fri_proof_spec::<F, E, H>(
            instance,
            openings,
            challenges,
            initial_caps,
            proof,
            params,
        ) == Err::<(), FriError>(FriError::ShapeMismatch),
{
}

/// Verifies a proof against the instance, the claimed openings, the challenges
/// of the transcript and the caps of the initial oracles.
pub fn verify_fri_proof<F: RichField, E: FieldExtension<F>, H: Hasher<F>>(
    instance: &FriInstanceInfo<E>,
    openings: &FriOpenings<E>,
    challenges: &FriChallenges<F, E>,
    initial_merkle_caps: &[MerkleCap<H::Hash>],
    proof: &FriProof<F, E, H::Hash>,
    params: &FriParams,
) -> (r: Result<(), FriError>)
    requires
        fri_inputs_wf::<F, E, H>(
            *instance,
            *openings,
            *challenges,
            initial_merkle_caps@,
            *proof,
            *params,
        ),
        fri_reaches_units::<F, E, H>(
            instance@,
            openings@,
            challenges@,
            caps_view(initial_merkle_caps@),
            proof@,
            *params,
        ),
    ensures
        r == verify_fri_proof_spec::<F, E, H>(
            instance@,
            openings@,
            challenges@,
            caps_view(initial_merkle_caps@),
            proof@,
            *params,
        ),
{
    match validate_fri_proof_shape::<F, E, H::Hash>(proof, instance, params) {
        Err(e) => {
            return Err(e);
        },
        Ok(_) => {},
    }
    // Size of the LDE domain.
    let n = params.lde_size();
    // Check PoW.
    match fri_verify_proof_of_work::<F>(challenges.fri_pow_response, &params.config) {
        Err(e) => {
            return Err(e);
        },
        Ok(_) => {},
    }
    let precomputed_reduced_evals = PrecomputedReducedOpenings::from_os_and_alpha(
        openings,
        challenges.fri_alpha,
        params.hiding,
    );
    let rounds = if challenges.fri_query_indices.len() <= proof.query_round_proofs.len() {
        challenges.fri_query_indices.len()
    } else {
        proof.query_round_proofs.len()
    };
    let ghost cv = caps_view(initial_merkle_caps@);
    let mut round: usize = 0;
    while round < rounds
        invariant
            round <= rounds,
            rounds == checked_rounds(challenges@, proof@),
            rounds <= challenges.fri_query_indices@.len(),
            rounds <= proof.query_round_proofs@.len(),
            cv == caps_view(initial_merkle_caps@),
            n == pow2(params.lde_bits_spec()),
            fri_inputs_wf::<F, E, H>(
                *instance,
                *openings,
                *challenges,
                initial_merkle_caps@,
                *proof,
                *params,
            ),
            fri_reaches_units::<F, E, H>(instance@, openings@, challenges@, cv, proof@, *params),
            proof_shape_ok(proof@, instance.oracles@, *params),
            proof_of_work_ok(challenges.fri_pow_response, params.config),
            precomputed_reduced_evals.reduced_openings_at_point@ == reduced_openings_spec(
                openings@,
                challenges.fri_alpha,
                params.hiding,
            ),
            all_wf(precomputed_reduced_evals.reduced_openings_at_point@),
            first_round_failure::<F, E, H>(
                instance@,
                openings@,
                challenges@,
                cv,
                proof@,
                *params,
                round as nat,
            ) is None,
        decreases rounds - round,
    {
        let x_index = challenges.fri_query_indices[round];
        let round_proof = &proof.query_round_proofs[round];
        proof {
            assert(query_round_wf::<F, E, H>(proof.query_round_proofs@[round as int]));
            assert(proof@.rounds[round as int] == proof.query_round_proofs@[round as int]@);
            assert(round_shape_ok(proof@.rounds[round as int], instance.oracles@, *params));
            assert(challenges@.query_indices[round as int]
                == challenges.fri_query_indices@[round as int] as nat);
            assert(query_reaches_units::<F, E, H>(
                round_inputs(instance@, openings@, challenges@, cv, proof@, *params, round as int),
            ));
            assert(proof@.commit_caps.len() == proof.commit_phase_merkle_caps@.len());
            assert(query_inputs(
                *instance,
                *challenges,
                precomputed_reduced_evals.reduced_openings_at_point@,
                initial_merkle_caps@,
                *proof,
                x_index as nat,
                *round_proof,
                *params,
                round,
            ) == round_inputs(instance@, openings@, challenges@, cv, proof@, *params, round as int));
        }
        match fri_verifier_query_round::<F, E, H>(
            instance,
            challenges,
            &precomputed_reduced_evals,
            initial_merkle_caps,
            proof,
            x_index,
            n,
            round_proof,
            params,
            round,
        ) {
            Err(e) => {
                proof {
                    lemma_first_round_failure_stays::<F, E, H>(
                        instance@,
                        openings@,
                        challenges@,
                        cv,
                        proof@,
                        *params,
                        round as nat,
                        rounds as nat,
                    );
                }
                return Err(e);
            },
            Ok(_) => {},
        }
        round = round + 1;
    }
    Ok(())
}

/// A first failing round stays the first one in every longer prefix.
pub proof fn lemma_first_round_failure_stays<F: Field, E: FieldExtension<F>, H: Hasher<F>>(
    instance: InstanceView<E>,
    openings: Seq<Seq<E>>,
    challenges: ChallengesView<F, E>,
    initial_caps: Seq<Seq<H::Hash>>,
    proof: FriProofView<F, E, H::Hash>,
    params: FriParams,
    r: nat,
    n: nat,
)
    requires
        r < n,
        first_round_failure::<F, E, H>(instance, openings, challenges, initial_caps, proof, params, r)
            is None,
        fri_verifier_query_round_spec::<F, E, H>(
            round_inputs(instance, openings, challenges, initial_caps, proof, params, r as int),
        ) is Err,
    ensures
        first_round_failure::<F, E, H>(instance, openings, challenges, initial_caps, proof, params, n)
            == Some(
            fri_verifier_query_round_spec::<F, E, H>(
                round_inputs(instance, openings, challenges, initial_caps, proof, params, r as int),
            )->Err_0,
        ),
    decreases n,
{
    if n > r + 1 {
        lemma_first_round_failure_stays::<F, E, H>(
            instance,
            openings,
            challenges,
            initial_caps,
            proof,
            params,
            r,
            (n - 1) as nat,
        );
    }
}

} // verus!
