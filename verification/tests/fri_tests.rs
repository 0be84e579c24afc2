use fri_verifier::field::crandall_field::CrandallField;
use fri_verifier::field::field_types::{Field, FieldOps};
use fri_verifier::fri::error::{FriError, MerklePlace};
use fri_verifier::fri::fri_proof::{
    FriChallenges, FriInitialTreeProof, FriProof, FriQueryRound, FriQueryStep,
};
use fri_verifier::fri::native_verifier::{
    compute_evaluation, coset_points, folding_is_well_posed, fri_combine_initial,
    fri_verify_proof_of_work, verify_fri_proof, PrecomputedReducedOpenings,
};
use fri_verifier::fri::well_posed::{
    batch_is_wf, blinding_fit, caps_are_wf, challenges_are_wf, fri_inputs_are_wf,
    fri_comes_to_units, indices_are_within_domain, query_comes_to_units,
    quotients_are_well_posed,
    fri_is_well_posed, initial_tree_proof_is_wf, instance_is_wf, openings_are_wf, params_fit,
    proof_is_wf, query_is_well_posed, query_round_is_wf, try_verify_fri_proof,
};
use fri_verifier::fri::structure::{
    FriBatchInfo, FriInstanceInfo, FriOpeningBatch, FriOpenings, FriOracleInfo, FriPolynomialInfo,
};
use fri_verifier::fri::validate_shape::validate_fri_proof_shape;
use fri_verifier::fri::{FriConfig, FriParams};
use fri_verifier::hash::merkle_proofs::{
    verify_merkle_proof_to_cap, Hasher, MerkleCap, MerkleProof,
};
use fri_verifier::hash::rescue_hash::{HashOut, RescueHash};
use fri_verifier::polynomial::polynomial::PolynomialCoeffs;
use fri_verifier::fri::proof_target::{
    FriBatchInfoTarget, FriChallengesTarget, FriInitialTreeProofTarget, FriInstanceInfoTarget,
    FriOpeningBatchTarget, FriOpeningsTarget, FriProofTarget, FriQueryRoundTarget,
    FriQueryStepTarget,
};
use fri_verifier::iop::target::{MerkleCapTarget, MerkleProofTarget};
use fri_verifier::plonk::circuit_builder::{CircuitBuilder, CircuitConfig};
use fri_verifier::plonk::gates::{Gate, Value};
use fri_verifier::plonk::witness::WitnessError;
use fri_verifier::util::reverse_bits;

type F = CrandallField;
type Digest = HashOut<CrandallField>;

fn f(n: u64) -> F {
    F::from_canonical_u64(n)
}

struct Tree {
    layers: Vec<Vec<Digest>>,
}

fn build_tree(leaves: &[Vec<F>], cap_height: usize) -> Tree {
    let mut layers = vec![leaves
        .iter()
        .map(|l| RescueHash::hash_or_noop(l))
        .collect::<Vec<_>>()];
    while layers.last().unwrap().len() > (1 << cap_height) {
        let below = layers.last().unwrap();
        let above = (0..below.len() / 2)
            .map(|i| RescueHash::two_to_one(below[2 * i], below[2 * i + 1]))
            .collect::<Vec<_>>();
        layers.push(above);
    }
    Tree { layers }
}

fn cap_of(tree: &Tree) -> MerkleCap<Digest> {
    MerkleCap(tree.layers.last().unwrap().clone())
}

fn open(tree: &Tree, index: usize) -> MerkleProof<Digest> {
    let mut index = index;
    let mut siblings = Vec::new();
    for layer in &tree.layers[..tree.layers.len() - 1] {
        siblings.push(layer[index ^ 1]);
        index >>= 1;
    }
    MerkleProof { siblings }
}

fn domain_point(lde_bits: usize, index: usize) -> F {
    F::multiplicative_group_generator().mul(
        F::primitive_root_of_unity(lde_bits).exp_u64(reverse_bits(index, lde_bits) as u64),
    )
}

/// Coefficients of the polynomial of degree below the number of points that
/// takes the given values at the given points.
fn interpolate_coeffs(points: &[(F, F)]) -> Vec<F> {
    let n = points.len();
    let mut result = vec![f(0); n];
    for i in 0..n {
        // numerator polynomial prod_{j != i} (X - x_j)
        let mut numerator = vec![f(1)];
        let mut denominator = f(1);
        for j in 0..n {
            if j != i {
                let mut next = vec![f(0); numerator.len() + 1];
                for (k, &c) in numerator.iter().enumerate() {
                    next[k + 1] = next[k + 1].add(c);
                    next[k] = next[k].sub(c.mul(points[j].0));
                }
                numerator = next;
                denominator = denominator.mul(points[i].0.sub(points[j].0));
            }
        }
        let scale = points[i].1.div(denominator);
        for k in 0..n {
            result[k] = result[k].add(numerator[k].mul(scale));
        }
    }
    result
}

struct Setup {
    instance: FriInstanceInfo<F>,
    openings: FriOpenings<F>,
    challenges: FriChallenges<F, F>,
    caps: Vec<MerkleCap<Digest>>,
    proof: FriProof<F, F, Digest>,
    params: FriParams,
}

fn params_with(arities: &[usize], num_query_rounds: usize, pow_bits: u32) -> FriParams {
    FriParams {
        config: FriConfig {
            rate_bits: 1,
            cap_height: 1,
            proof_of_work_bits: pow_bits,
            num_query_rounds,
        },
        hiding: false,
        degree_bits: 4,
        reduction_arity_bits: arities.to_vec(),
    }
}

/// A faithful proof for two committed polynomials of degree below 16, opened
/// in two batches at two points.
fn honest(arities: &[usize], query_indices: &[usize]) -> Setup {
    let params = params_with(arities, query_indices.len(), 0);
    let lde_bits = params.lde_bits();
    let n = 1usize << lde_bits;
    let cap_height = params.config.cap_height;
    let polys: Vec<Vec<F>> = (0..2u64)
        .map(|k| (0..16u64).map(|i| f(1000 * k + 17 * i * i + 3 * i + 1)).collect())
        .collect();
    let instance = FriInstanceInfo {
        oracles: vec![FriOracleInfo { num_polys: 2, blinding: false }],
        batches: vec![
            FriBatchInfo {
                point: f(1234567),
                polynomials: vec![
                    FriPolynomialInfo { oracle_index: 0, polynomial_index: 0 },
                    FriPolynomialInfo { oracle_index: 0, polynomial_index: 1 },
                ],
            },
            FriBatchInfo {
                point: f(7654321),
                polynomials: vec![FriPolynomialInfo { oracle_index: 0, polynomial_index: 0 }],
            },
        ],
    };
    let alpha = f(3);
    let betas: Vec<F> = (0..arities.len() as u64).map(|i| f(1_000_003 + 7 * i)).collect();

    // Commit to the polynomials on the evaluation domain.
    let xs: Vec<F> = (0..n).map(|j| domain_point(lde_bits, j)).collect();
    let leaves: Vec<Vec<F>> = xs
        .iter()
        .map(|&x| {
            polys
                .iter()
                .map(|p| PolynomialCoeffs::new(p.clone()).eval(x))
                .collect()
        })
        .collect();
    let initial_tree = build_tree(&leaves, cap_height);

    // The claimed openings.
    let openings = FriOpenings {
        batches: instance
            .batches
            .iter()
            .map(|b| FriOpeningBatch {
                values: b
                    .polynomials
                    .iter()
                    .map(|p| PolynomialCoeffs::new(polys[p.polynomial_index].clone()).eval(b.point))
                    .collect(),
            })
            .collect(),
    };
    let precomputed = PrecomputedReducedOpenings::from_os_and_alpha(&openings, alpha, false);

    // The batch polynomial on the domain.
    let mut values: Vec<F> = (0..n)
        .map(|j| {
            let leaf = FriInitialTreeProof {
                evals_proofs: vec![(leaves[j].clone(), MerkleProof { siblings: vec![] })],
            };
            fri_combine_initial::<F, F, Digest>(
                &instance,
                &leaf,
                alpha,
                xs[j],
                &precomputed,
                &params,
            )
        })
        .collect();

    // The commit phase: fold once per arity.
    let mut points = xs.clone();
    let mut layer_leaves: Vec<Vec<Vec<F>>> = Vec::new();
    let mut layer_trees: Vec<Tree> = Vec::new();
    for (l, &a) in arities.iter().enumerate() {
        let arity = 1usize << a;
        let cosets: Vec<Vec<F>> = values.chunks(arity).map(|c| c.to_vec()).collect();
        let tree = build_tree(&cosets, cap_height);
        let next_values: Vec<F> = cosets
            .iter()
            .enumerate()
            .map(|(c, evals)| compute_evaluation::<F, F>(points[c * arity], 0, a, evals, betas[l]))
            .collect();
        let next_points: Vec<F> = (0..cosets.len())
            .map(|c| points[c * arity].exp_power_of_2(a))
            .collect();
        layer_leaves.push(cosets);
        layer_trees.push(tree);
        values = next_values;
        points = next_points;
    }
    let final_len = params.final_poly_len();
    let final_points: Vec<(F, F)> = (0..final_len).map(|i| (points[i], values[i])).collect();
    let final_poly = PolynomialCoeffs::new(interpolate_coeffs(&final_points));

    // The query phase.
    let query_round_proofs = query_indices
        .iter()
        .map(|&x_index| {
            let initial_trees_proof = FriInitialTreeProof {
                evals_proofs: vec![(leaves[x_index].clone(), open(&initial_tree, x_index))],
            };
            let mut index = x_index;
            let mut steps = Vec::new();
            for (l, &a) in arities.iter().enumerate() {
                let coset = index >> a;
                steps.push(FriQueryStep {
                    evals: layer_leaves[l][coset].clone(),
                    merkle_proof: open(&layer_trees[l], coset),
                });
                index = coset;
            }
            FriQueryRound { initial_trees_proof, steps }
        })
        .collect();

    let proof = FriProof {
        commit_phase_merkle_caps: layer_trees.iter().map(cap_of).collect(),
        query_round_proofs,
        final_poly,
        pow_witness: f(0),
    };
    let challenges = FriChallenges {
        fri_alpha: alpha,
        fri_betas: betas,
        fri_pow_response: f(0),
        fri_query_indices: query_indices.to_vec(),
    };
    Setup { instance, openings, challenges, caps: vec![cap_of(&initial_tree)], proof, params }
}

fn verify(s: &Setup) -> Result<(), FriError> {
    verify_fri_proof::<F, F, RescueHash>(
        &s.instance,
        &s.openings,
        &s.challenges,
        &s.caps,
        &s.proof,
        &s.params,
    )
}

fn bump(x: F) -> F {
    x.add(f(1))
}

#[test]
fn faithful_proof_is_accepted() {
    for arities in [vec![1, 1, 2], vec![3, 1], vec![2], vec![]] {
        let s = honest(&arities, &[0, 5, 19, 31]);
        assert_eq!(verify(&s), Ok(()));
    }
}

#[test]
fn verification_is_repeatable() {
    let s = honest(&[1, 1, 2], &[7, 22]);
    assert_eq!(verify(&s), verify(&s));
    let mut bad = honest(&[1, 1, 2], &[7, 22]);
    bad.proof.final_poly.coeffs[0] = bump(bad.proof.final_poly.coeffs[0]);
    let first = verify(&bad);
    assert!(first.is_err());
    assert_eq!(first, verify(&bad));
}

#[test]
fn flipped_queried_evaluation_fails_folding_consistency() {
    for arities in [vec![1, 1, 2], vec![3, 1]] {
        let indices = [9usize, 30];
        for round in 0..indices.len() {
            let mut index = indices[round];
            for layer in 0..arities.len() {
                let a = arities[layer];
                let within = index & ((1 << a) - 1);
                let mut s = honest(&arities, &indices);
                let evals = &mut s.proof.query_round_proofs[round].steps[layer].evals;
                evals[within] = bump(evals[within]);
                assert_eq!(
                    verify(&s),
                    Err(FriError::FoldingConsistencyFailure { round, layer })
                );
                index >>= a;
            }
        }
    }
}

#[test]
fn flipped_sibling_evaluation_fails_layer_authentication() {
    for arities in [vec![1, 1, 2], vec![3, 1]] {
        let indices = [9usize, 30];
        let round = 1;
        let mut index = indices[round];
        for layer in 0..arities.len() {
            let a = arities[layer];
            let within = index & ((1 << a) - 1);
            let other = within ^ 1;
            let mut s = honest(&arities, &indices);
            let evals = &mut s.proof.query_round_proofs[round].steps[layer].evals;
            evals[other] = bump(evals[other]);
            assert_eq!(
                verify(&s),
                Err(FriError::MerkleAuthenticationFailure {
                    round,
                    place: MerklePlace::Layer(layer)
                })
            );
            index >>= a;
        }
    }
}

#[test]
fn flipped_initial_evaluation_fails_authentication() {
    for arities in [vec![1, 1, 2], vec![3, 1]] {
        for round in 0..2 {
            for k in 0..2 {
                let mut s = honest(&arities, &[4, 27]);
                let leaf = &mut s.proof.query_round_proofs[round].initial_trees_proof.evals_proofs[0].0;
                leaf[k] = bump(leaf[k]);
                assert_eq!(
                    verify(&s),
                    Err(FriError::MerkleAuthenticationFailure {
                        round,
                        place: MerklePlace::Oracle(0)
                    })
                );
            }
        }
    }
}

#[test]
fn flipped_final_coefficient_fails_final_check() {
    let arities = vec![1, 2];
    let s = honest(&arities, &[4, 27]);
    assert_eq!(s.proof.final_poly.coeffs.len(), 2);
    for k in 0..2 {
        let mut s = honest(&arities, &[4, 27]);
        s.proof.final_poly.coeffs[k] = bump(s.proof.final_poly.coeffs[k]);
        assert_eq!(verify(&s), Err(FriError::FinalPolynomialMismatch { round: 0 }));
    }
    let mut one = honest(&[1, 1, 2], &[4, 27]);
    one.proof.final_poly.coeffs[0] = bump(one.proof.final_poly.coeffs[0]);
    assert_eq!(verify(&one), Err(FriError::FinalPolynomialMismatch { round: 0 }));
}

#[test]
fn first_failing_round_is_reported() {
    let mut s = honest(&[3, 1], &[1, 2, 3]);
    s.proof.final_poly.coeffs[0] = bump(s.proof.final_poly.coeffs[0]);
    let leaf = &mut s.proof.query_round_proofs[2].initial_trees_proof.evals_proofs[0].0;
    leaf[0] = bump(leaf[0]);
    assert_eq!(verify(&s), Err(FriError::FinalPolynomialMismatch { round: 0 }));
}

#[test]
fn proof_of_work_boundary() {
    let config = FriConfig { rate_bits: 1, cap_height: 1, proof_of_work_bits: 5, num_query_rounds: 1 };
    // exactly five leading zeros among 64 bits
    assert_eq!(fri_verify_proof_of_work(f(1 << 58), &config), Ok(()));
    assert_eq!(fri_verify_proof_of_work(f((1 << 59) - 1), &config), Ok(()));
    // exactly four
    assert_eq!(
        fri_verify_proof_of_work(f(1 << 59), &config),
        Err(FriError::ProofOfWorkFailure)
    );
    assert_eq!(fri_verify_proof_of_work(f(0), &config), Ok(()));
    let none = FriConfig { proof_of_work_bits: 0, ..config };
    assert_eq!(fri_verify_proof_of_work(f(18446744071293632512), &none), Ok(()));
    let one = FriConfig { proof_of_work_bits: 1, ..config };
    assert_eq!(
        fri_verify_proof_of_work(f(18446744071293632512), &one),
        Err(FriError::ProofOfWorkFailure)
    );
}

#[test]
fn failed_proof_of_work_rejects_proof() {
    let mut s = honest(&[3, 1], &[1, 2]);
    s.params.config.proof_of_work_bits = 8;
    s.challenges.fri_pow_response = f(1 << 56);
    assert_eq!(verify(&s), Err(FriError::ProofOfWorkFailure));
    s.challenges.fri_pow_response = f(1 << 55);
    assert_eq!(verify(&s), Ok(()));
}

#[test]
fn missing_query_round_is_a_shape_error() {
    let mut s = honest(&[1, 1, 2], &[3, 8, 21]);
    s.proof.query_round_proofs.pop();
    // the proof of work is wrong too: the shape is checked first
    s.params.config.proof_of_work_bits = 8;
    s.challenges.fri_pow_response = f(1 << 60);
    assert_eq!(verify(&s), Err(FriError::ShapeMismatch));
    assert_eq!(
        validate_fri_proof_shape(&s.proof, &s.instance, &s.params),
        Err(FriError::ShapeMismatch)
    );
}

#[test]
fn shape_mismatches_are_rejected() {
    let good = honest(&[1, 1, 2], &[3, 8]);
    assert_eq!(validate_fri_proof_shape(&good.proof, &good.instance, &good.params), Ok(()));

    let mut s = honest(&[1, 1, 2], &[3, 8]);
    s.proof.final_poly.coeffs.push(f(0));
    assert_eq!(verify(&s), Err(FriError::ShapeMismatch));

    let mut s = honest(&[1, 1, 2], &[3, 8]);
    s.proof.query_round_proofs[1].steps[2].evals.pop();
    assert_eq!(verify(&s), Err(FriError::ShapeMismatch));

    let mut s = honest(&[1, 1, 2], &[3, 8]);
    s.proof.query_round_proofs[0].steps.pop();
    assert_eq!(verify(&s), Err(FriError::ShapeMismatch));

    let mut s = honest(&[1, 1, 2], &[3, 8]);
    s.proof.query_round_proofs[0].steps[0].merkle_proof.siblings.pop();
    assert_eq!(verify(&s), Err(FriError::ShapeMismatch));

    let mut s = honest(&[1, 1, 2], &[3, 8]);
    s.proof.query_round_proofs[0].initial_trees_proof.evals_proofs[0].0.push(f(1));
    assert_eq!(verify(&s), Err(FriError::ShapeMismatch));

    let mut s = honest(&[1, 1, 2], &[3, 8]);
    s.proof.commit_phase_merkle_caps[1].0.pop();
    assert_eq!(verify(&s), Err(FriError::ShapeMismatch));

    let mut s = honest(&[1, 1, 2], &[3, 8]);
    s.proof.commit_phase_merkle_caps.pop();
    assert_eq!(verify(&s), Err(FriError::ShapeMismatch));
}

#[test]
fn error_messages_name_the_rejection() {
    assert_eq!(FriError::ProofOfWorkFailure.message(), "Invalid proof of work witness.");
    assert_eq!(
        FriError::FinalPolynomialMismatch { round: 3 }.message(),
        "Final polynomial evaluation is invalid."
    );
    assert_eq!(
        FriError::MerkleAuthenticationFailure { round: 0, place: MerklePlace::Oracle(1) }.message(),
        "Invalid Merkle proof."
    );
    assert_ne!(
        FriError::ShapeMismatch.message(),
        FriError::FoldingConsistencyFailure { round: 0, layer: 0 }.message()
    );
}

#[test]
fn batched_combination_by_hand() {
    // Two batches opened at 5 and 11, two polynomials each, alpha = 3, at x = 7.
    let instance = FriInstanceInfo {
        oracles: vec![FriOracleInfo { num_polys: 4, blinding: false }],
        batches: vec![
            FriBatchInfo {
                point: f(5),
                polynomials: vec![
                    FriPolynomialInfo { oracle_index: 0, polynomial_index: 0 },
                    FriPolynomialInfo { oracle_index: 0, polynomial_index: 1 },
                ],
            },
            FriBatchInfo {
                point: f(11),
                polynomials: vec![
                    FriPolynomialInfo { oracle_index: 0, polynomial_index: 2 },
                    FriPolynomialInfo { oracle_index: 0, polynomial_index: 3 },
                ],
            },
        ],
    };
    let openings = FriOpenings {
        batches: vec![
            FriOpeningBatch { values: vec![f(1), f(2)] },
            FriOpeningBatch { values: vec![f(3), f(4)] },
        ],
    };
    let alpha = f(3);
    let precomputed = PrecomputedReducedOpenings::from_os_and_alpha(&openings, alpha, false);
    assert_eq!(precomputed.reduced_openings_at_point, vec![f(7), f(15)]);
    let leaf = FriInitialTreeProof {
        evals_proofs: vec![(
            vec![f(10), f(20), f(30), f(40)],
            MerkleProof::<Digest> { siblings: vec![] },
        )],
    };
    let params = params_with(&[1], 1, 0);
    let combined =
        fri_combine_initial::<F, F, Digest>(&instance, &leaf, alpha, f(7), &precomputed, &params);
    // ((10 + 3*20) - 7) / (7 - 5) = 63 / 2, ((30 + 3*40) - 15) / (7 - 11) = -135 / 4,
    // combined = 9 * 63/2 - 135/4 = 999/4
    let first = f(63).div(f(2));
    let second = f(135).div(f(4)).neg();
    assert_eq!(first, f(9223372035646816288));
    assert_eq!(second, f(13835058053470224351));
    assert_eq!(combined, f(9).mul(first).add(second));
    assert_eq!(combined, f(4611686017823408378));
    assert_eq!(combined.mul(f(4)), f(999));
}

#[test]
fn blinding_polynomials_are_added_unquotiented() {
    // In hiding mode the two polynomials of the blinding oracle at the end of
    // the first batch are not quotiented.
    let instance = FriInstanceInfo {
        oracles: vec![
            FriOracleInfo { num_polys: 1, blinding: false },
            FriOracleInfo { num_polys: 0, blinding: false },
            FriOracleInfo { num_polys: 0, blinding: false },
            FriOracleInfo { num_polys: 0, blinding: false },
            FriOracleInfo { num_polys: 2, blinding: false },
        ],
        batches: vec![FriBatchInfo {
            point: f(5),
            polynomials: vec![
                FriPolynomialInfo { oracle_index: 0, polynomial_index: 0 },
                FriPolynomialInfo { oracle_index: 4, polynomial_index: 0 },
                FriPolynomialInfo { oracle_index: 4, polynomial_index: 1 },
            ],
        }],
    };
    let openings = FriOpenings {
        batches: vec![FriOpeningBatch { values: vec![f(2), f(100), f(200)] }],
    };
    let alpha = f(3);
    let precomputed = PrecomputedReducedOpenings::from_os_and_alpha(&openings, alpha, true);
    assert_eq!(precomputed.reduced_openings_at_point, vec![f(2)]);
    let empty = || (vec![], MerkleProof::<Digest> { siblings: vec![] });
    let leaf = FriInitialTreeProof {
        evals_proofs: vec![
            (vec![f(12)], MerkleProof::<Digest> { siblings: vec![] }),
            empty(),
            empty(),
            empty(),
            (vec![f(1000), f(1)], MerkleProof::<Digest> { siblings: vec![] }),
        ],
    };
    let mut params = params_with(&[1], 1, 0);
    params.hiding = true;
    params.degree_bits = 2;
    let x = f(7);
    let combined =
        fri_combine_initial::<F, F, Digest>(&instance, &leaf, alpha, x, &precomputed, &params);
    // (12 - 2) / (7 - 5) + 1000 * 1 + 1 * 7^(2^2)
    assert_eq!(combined, f(5 + 1000 + 2401));
}

#[test]
fn merkle_opening_against_cap() {
    let leaves: Vec<Vec<F>> = (0..8u64).map(|i| (0..6).map(|k| f(10 * i + k)).collect()).collect();
    for cap_height in 0..4 {
        let tree = build_tree(&leaves, cap_height);
        let cap = cap_of(&tree);
        assert_eq!(cap.0.len(), 1 << cap_height);
        for index in 0..8 {
            let proof = open(&tree, index);
            assert_eq!(proof.siblings.len(), 3 - cap_height);
            assert!(verify_merkle_proof_to_cap::<F, RescueHash>(&leaves[index], index, &cap, &proof));
            assert!(!verify_merkle_proof_to_cap::<F, RescueHash>(
                &leaves[index ^ 1],
                index,
                &cap,
                &proof
            ));
            // an index beyond the tree leads past the end of the cap
            assert!(!verify_merkle_proof_to_cap::<F, RescueHash>(
                &leaves[index],
                index + 8,
                &cap,
                &proof
            ));
        }
    }
}

#[test]
fn folding_evaluates_the_interpolant() {
    // P(X) = 3 + 5 X + 7 X^2 + 11 X^3 on a coset of order four folds to
    // 3 + 5 b + 7 b^2 + 11 b^3 at any challenge b.
    let poly = PolynomialCoeffs::new(vec![f(3), f(5), f(7), f(11)]);
    let x = domain_point(5, 12);
    let g = F::primitive_root_of_unity(2);
    // evaluations in bit-reversed order of the exponent of g
    let evals: Vec<F> = (0..4usize)
        .map(|j| poly.eval(x.mul(g.exp_u64(reverse_bits(j, 2) as u64))))
        .collect();
    for beta in [f(2), f(123456789), x] {
        assert_eq!(compute_evaluation::<F, F>(x, 0, 2, &evals, beta), poly.eval(beta));
    }
    // seen from another point of the coset the evaluations are the same
    let second = x.mul(g.exp_u64(reverse_bits(1, 2) as u64));
    assert_eq!(compute_evaluation::<F, F>(second, 1, 2, &evals, f(2)), poly.eval(f(2)));
}

type Builder = CircuitBuilder<F, F, RescueHash>;
type Val = Value<F, F, Digest>;

struct Circuit {
    builder: Builder,
    inputs: Vec<Val>,
}

impl Circuit {
    fn new() -> Self {
        let config = CircuitConfig {
            num_wires: 200,
            num_routed_wires: 100,
            cap_height: 1,
            rate_bits: 1,
            zero_knowledge: false,
        };
        Circuit { builder: Builder::new(config), inputs: Vec::new() }
    }

    fn base(&mut self, x: F) -> fri_verifier::iop::target::Target {
        self.inputs.push(Value::Base(x));
        self.builder.add_virtual_target()
    }

    fn ext(&mut self, x: F) -> fri_verifier::iop::target::ExtensionTarget {
        self.inputs.push(Value::Ext(x));
        self.builder.add_virtual_extension_target()
    }

    fn digest(&mut self, d: Digest) -> fri_verifier::iop::target::HashOutTarget {
        self.inputs.push(Value::Digest(d));
        self.builder.add_virtual_hash()
    }

    fn cap(&mut self, cap: &MerkleCap<Digest>) -> MerkleCapTarget {
        MerkleCapTarget(cap.0.iter().map(|&d| self.digest(d)).collect())
    }

    fn path(&mut self, proof: &MerkleProof<Digest>) -> MerkleProofTarget {
        MerkleProofTarget { siblings: proof.siblings.iter().map(|&d| self.digest(d)).collect() }
    }
}

/// Builds the constraint system that verifies the proof of the setup, with
/// inputs that hold the setup's values, and generates the witness.
fn arithmetized(s: &Setup) -> (Builder, Result<Vec<Val>, WitnessError>) {
    let mut c = Circuit::new();
    let instance = FriInstanceInfoTarget {
        oracles: s.instance.oracles.clone(),
        batches: s
            .instance
            .batches
            .iter()
            .map(|b| FriBatchInfoTarget {
                point: c.ext(b.point),
                polynomials: b.polynomials.clone(),
            })
            .collect(),
    };
    let openings = FriOpeningsTarget {
        batches: s
            .openings
            .batches
            .iter()
            .map(|b| FriOpeningBatchTarget {
                values: b.values.iter().map(|&v| c.ext(v)).collect(),
            })
            .collect(),
    };
    let challenges = FriChallengesTarget {
        fri_alpha: c.ext(s.challenges.fri_alpha),
        fri_betas: s.challenges.fri_betas.iter().map(|&b| c.ext(b)).collect(),
        fri_pow_response: c.base(s.challenges.fri_pow_response),
        fri_query_indices: s
            .challenges
            .fri_query_indices
            .iter()
            .map(|&i| c.base(f(i as u64)))
            .collect(),
    };
    let caps: Vec<MerkleCapTarget> = s.caps.iter().map(|cap| c.cap(cap)).collect();
    let proof = FriProofTarget {
        commit_phase_merkle_caps: s
            .proof
            .commit_phase_merkle_caps
            .iter()
            .map(|cap| c.cap(cap))
            .collect(),
        query_round_proofs: s
            .proof
            .query_round_proofs
            .iter()
            .map(|round| FriQueryRoundTarget {
                initial_trees_proof: FriInitialTreeProofTarget {
                    evals_proofs: round
                        .initial_trees_proof
                        .evals_proofs
                        .iter()
                        .map(|(leaf, path)| {
                            (leaf.iter().map(|&v| c.base(v)).collect(), c.path(path))
                        })
                        .collect(),
                },
                steps: round
                    .steps
                    .iter()
                    .map(|step| FriQueryStepTarget {
                        evals: step.evals.iter().map(|&v| c.ext(v)).collect(),
                        merkle_proof: c.path(&step.merkle_proof),
                    })
                    .collect(),
            })
            .collect(),
        final_poly: s.proof.final_poly.coeffs.iter().map(|&v| c.ext(v)).collect(),
        pow_witness: c.base(s.proof.pow_witness),
    };
    let Circuit { mut builder, inputs } = c;
    builder.verify_fri_proof(&instance, &openings, &challenges, &caps, &proof, &s.params);
    let witness = builder.generate_witness(&inputs);
    (builder, witness)
}

fn failing_gate(builder: &Builder, witness: &Result<Vec<Val>, WitnessError>) -> Gate<F, F> {
    match witness {
        Err(WitnessError::Unsatisfied { gate }) => builder.gates[*gate].clone(),
        other => panic!("expected an unsatisfied gate, got {:?}", other.as_ref().map(|v| v.len())),
    }
}

#[test]
fn arithmetized_verifier_accepts_faithful_proof() {
    for arities in [vec![1, 1, 2], vec![3, 1]] {
        let s = honest(&arities, &[0, 19, 31]);
        assert_eq!(verify(&s), Ok(()));
        let (builder, witness) = arithmetized(&s);
        let values = witness.expect("the faithful proof satisfies the constraint system");
        assert_eq!(values.len(), builder.gates.len());
    }
}

#[test]
fn arithmetized_verifier_fails_at_the_expected_gate() {
    let arities = vec![1, 1, 2];
    let indices = [9usize, 30];

    // a flipped queried evaluation fails the random access of its layer
    let mut s = honest(&arities, &indices);
    let within = (indices[1] >> 1) & 1;
    let evals = &mut s.proof.query_round_proofs[1].steps[1].evals;
    evals[within] = bump(evals[within]);
    assert_eq!(verify(&s), Err(FriError::FoldingConsistencyFailure { round: 1, layer: 1 }));
    let (builder, witness) = arithmetized(&s);
    assert!(matches!(failing_gate(&builder, &witness), Gate::RandomAccessExtension { .. }));

    // a flipped sibling evaluation fails the opening of its layer
    let mut s = honest(&arities, &indices);
    let within = indices[0] & 1;
    let evals = &mut s.proof.query_round_proofs[0].steps[0].evals;
    evals[within ^ 1] = bump(evals[within ^ 1]);
    assert!(matches!(verify(&s), Err(FriError::MerkleAuthenticationFailure { round: 0, .. })));
    let (builder, witness) = arithmetized(&s);
    assert!(matches!(failing_gate(&builder, &witness), Gate::MerkleVerifyExtension { .. }));

    // a flipped initial evaluation fails the opening of its oracle
    let mut s = honest(&arities, &indices);
    let leaf = &mut s.proof.query_round_proofs[0].initial_trees_proof.evals_proofs[0].0;
    leaf[1] = bump(leaf[1]);
    assert!(verify(&s).is_err());
    let (builder, witness) = arithmetized(&s);
    assert!(matches!(failing_gate(&builder, &witness), Gate::MerkleVerify { .. }));

    // a flipped final coefficient fails the final connection
    let mut s = honest(&arities, &indices);
    s.proof.final_poly.coeffs[0] = bump(s.proof.final_poly.coeffs[0]);
    assert_eq!(verify(&s), Err(FriError::FinalPolynomialMismatch { round: 0 }));
    let (builder, witness) = arithmetized(&s);
    assert!(matches!(failing_gate(&builder, &witness), Gate::ConnectExtension(..)));

    // a failed proof of work fails the assertion on its leading zeros
    let mut s = honest(&arities, &indices);
    s.params.config.proof_of_work_bits = 8;
    s.challenges.fri_pow_response = f(1 << 56);
    assert_eq!(verify(&s), Err(FriError::ProofOfWorkFailure));
    let (builder, witness) = arithmetized(&s);
    assert!(matches!(failing_gate(&builder, &witness), Gate::AssertLeadingZeros { .. }));
}

#[test]
fn arithmetized_verifier_agrees_with_native_verdict() {
    let arities = vec![3, 1];
    let indices = [6usize, 17];
    for round in 0..2 {
        for layer in 0..2 {
            for k in 0..(1usize << arities[layer]) {
                let mut s = honest(&arities, &indices);
                let evals = &mut s.proof.query_round_proofs[round].steps[layer].evals;
                evals[k] = bump(evals[k]);
                let native = verify(&s);
                let (_, witness) = arithmetized(&s);
                assert!(native.is_err());
                assert_eq!(native.is_ok(), witness.is_ok());
            }
        }
    }
}

#[test]
fn witness_generation_follows_the_gates() {
    let mut c = Circuit::new();
    let a = c.ext(f(6));
    let b = c.ext(f(7));
    let zero = c.builder.zero_extension();
    let product = c.builder.mul_extension(a, b);
    let sum = c.builder.add_extension(product, a);
    let quotient = c.builder.div_extension(sum, b);
    let difference = c.builder.sub_extension(quotient, a);
    let witness = c.builder.generate_witness(&c.inputs).unwrap();
    let value = |t: fri_verifier::iop::target::ExtensionTarget| match &witness[t.0] {
        Value::Ext(x) => *x,
        _ => panic!("not an extension value"),
    };
    assert_eq!(value(zero), f(0));
    assert_eq!(value(product), f(42));
    assert_eq!(value(sum), f(48));
    assert_eq!(value(quotient).mul(f(7)), f(48));
    assert_eq!(value(difference), value(quotient).sub(f(6)));

    // division by zero cannot be satisfied
    let bad = c.builder.div_extension(a, zero);
    assert_eq!(
        c.builder.generate_witness(&c.inputs),
        Err(WitnessError::Unsatisfied { gate: bad.0 })
    );
}

#[test]
fn bits_and_powers_in_gates() {
    let mut c = Circuit::new();
    let x = c.base(f(0b1011010));
    let bits = c.builder.low_bits(x, 7);
    let sum = c.builder.le_sum(&bits);
    let low = c.builder.le_sum(&bits[..3]);
    let power = c.builder.exp_from_bits_const_base(f(3), &bits[..4]);
    let square = c.builder.exp_power_of_2(x, 3);
    let witness = c.builder.generate_witness(&c.inputs).unwrap();
    let value = |t: fri_verifier::iop::target::Target| match &witness[t.0] {
        Value::Base(x) => *x,
        _ => panic!("not a base value"),
    };
    let expected_bits = [0u64, 1, 0, 1, 1, 0, 1];
    for (bit, expected) in bits.iter().zip(expected_bits) {
        assert_eq!(value(bit.target), f(expected));
    }
    assert_eq!(value(sum), f(0b1011010));
    assert_eq!(value(low), f(0b010));
    assert_eq!(value(power), f(3u64.pow(0b1010)));
    assert_eq!(value(square), f(90).exp_u64(8));

    // an input that holds no digest cannot be read as one
    let mut c = Circuit::new();
    c.inputs.push(Value::Base(f(1)));
    let h = c.builder.add_virtual_hash();
    assert_eq!(
        c.builder.generate_witness(&c.inputs),
        Err(WitnessError::Malformed { gate: h.0 })
    );
}

fn try_verify(s: &Setup) -> Option<Result<(), FriError>> {
    try_verify_fri_proof::<F, F, RescueHash>(
        &s.instance,
        &s.openings,
        &s.challenges,
        &s.caps,
        &s.proof,
        &s.params,
    )
}

fn comes_to_units(s: &Setup) -> bool {
    fri_comes_to_units::<F, F, RescueHash>(
        &s.instance,
        &s.openings,
        &s.challenges,
        &s.caps,
        &s.proof,
        &s.params,
    )
}

fn inputs_are_wf(s: &Setup) -> bool {
    fri_inputs_are_wf::<F, F, RescueHash>(
        &s.instance,
        &s.openings,
        &s.challenges,
        &s.caps,
        &s.proof,
        &s.params,
    )
}

/// A value that is no canonical representative.
fn stray() -> F {
    CrandallField(u64::MAX)
}

#[test]
fn checked_verifier_gives_the_verdict_on_admissible_inputs() {
    let s = honest(&[1, 2], &[5, 30]);
    assert!(inputs_are_wf(&s));
    assert!(fri_is_well_posed::<F, F>(&s.instance, &s.openings, &s.challenges, &s.params));
    assert_eq!(try_verify(&s), Some(Ok(())));
    let mut bad = honest(&[1, 2], &[5, 30]);
    bad.proof.final_poly.coeffs[0] = bump(bad.proof.final_poly.coeffs[0]);
    assert_eq!(try_verify(&bad), Some(Err(FriError::FinalPolynomialMismatch { round: 0 })));
    assert_eq!(try_verify(&bad), Some(verify(&bad)));
    let mut short = honest(&[1, 2], &[5, 30]);
    short.proof.query_round_proofs.pop();
    assert_eq!(try_verify(&short), Some(Err(FriError::ShapeMismatch)));
    // folding challenges beyond the reductions are not used
    let mut more = honest(&[1, 2], &[5, 30]);
    more.challenges.fri_betas.push(f(77));
    assert_eq!(try_verify(&more), Some(Ok(())));
    assert_eq!(verify(&more), Ok(()));
}

#[test]
fn checked_verifier_refuses_malformed_inputs() {
    let mut s = honest(&[1, 2], &[5]);
    s.proof.pow_witness = stray();
    assert!(!inputs_are_wf(&s));
    assert_eq!(try_verify(&s), None);

    let mut s = honest(&[1, 2], &[5]);
    s.challenges.fri_betas.pop();
    assert_eq!(try_verify(&s), None);

    let mut s = honest(&[1, 2], &[5]);
    s.instance.batches[1].polynomials[0].oracle_index = 1;
    assert_eq!(try_verify(&s), None);

    let mut s = honest(&[1, 2], &[5]);
    s.instance.batches[1].polynomials[0].polynomial_index = 2;
    assert_eq!(try_verify(&s), None);

    // a domain larger than the two-adic subgroup
    let mut s = honest(&[1, 2], &[5]);
    s.params.degree_bits = 28;
    assert_eq!(try_verify(&s), None);

    // reductions that take up more than the degree
    let mut s = honest(&[1, 2], &[5]);
    s.params.reduction_arity_bits = vec![3, 2];
    assert_eq!(try_verify(&s), None);

    let mut s = honest(&[1, 2], &[5]);
    s.caps[0].0[1].e2 = stray();
    assert_eq!(try_verify(&s), None);

    // in zero-knowledge mode the first batch opens the blinding polynomials
    let mut s = honest(&[1, 2], &[5]);
    s.params.hiding = true;
    s.openings.batches[0].values.truncate(1);
    assert_eq!(try_verify(&s), None);
}

#[test]
fn checked_verifier_refuses_queries_that_divide_by_zero() {
    // the point of a batch is the domain point that the first query is at
    let mut s = honest(&[1, 2], &[30, 5]);
    s.instance.batches[1].point = domain_point(5, 30);
    assert!(inputs_are_wf(&s));
    assert!(!fri_is_well_posed::<F, F>(&s.instance, &s.openings, &s.challenges, &s.params));
    assert!(!comes_to_units(&s));
    assert_eq!(try_verify(&s), None);
    let betas = s.challenges.fri_betas.clone();
    assert!(query_is_well_posed::<F, F>(&s.instance, 2, &betas, &s.params, 5));
    assert!(!query_is_well_posed::<F, F>(&s.instance, 2, &betas, &s.params, 30));
    // only the batches that are combined count
    assert!(query_is_well_posed::<F, F>(&s.instance, 1, &betas, &s.params, 30));
    // an index beyond the domain stands for the point of its low bits
    assert!(!query_is_well_posed::<F, F>(&s.instance, 2, &betas, &s.params, 32 + 30));
    let x = domain_point(5, 30);
    assert!(!quotients_are_well_posed::<F, F>(&s.instance, 2, x));
    assert!(quotients_are_well_posed::<F, F>(&s.instance, 1, x));
    assert!(quotients_are_well_posed::<F, F>(&s.instance, 2, domain_point(5, 5)));
    // where another point of the domain is queried nothing is wrong
    s.challenges.fri_query_indices = vec![5, 29];
    assert!(fri_is_well_posed::<F, F>(&s.instance, &s.openings, &s.challenges, &s.params));
}

#[test]
fn divisions_that_are_not_reached_do_not_matter() {
    // The second query would divide by zero, but the first one fails: the
    // changed point no longer fits the commitments.
    let mut s = honest(&[1, 2], &[5, 30]);
    s.instance.batches[1].point = domain_point(5, 30);
    assert!(!fri_is_well_posed::<F, F>(&s.instance, &s.openings, &s.challenges, &s.params));
    assert!(comes_to_units(&s));
    let verdict = Err(FriError::FoldingConsistencyFailure { round: 0, layer: 0 });
    assert_eq!(try_verify(&s), Some(verdict));
    assert_eq!(verify(&s), verdict);

    // a proof of the wrong shape is rejected for its shape, whatever it divides by
    let mut s = honest(&[1, 2], &[30, 5]);
    s.instance.batches[1].point = domain_point(5, 30);
    s.proof.query_round_proofs.pop();
    assert!(comes_to_units(&s));
    assert_eq!(try_verify(&s), Some(Err(FriError::ShapeMismatch)));
    assert_eq!(verify(&s), Err(FriError::ShapeMismatch));
    let mut s = honest(&[1, 2], &[30, 5]);
    s.instance.batches[1].point = domain_point(5, 30);
    s.proof.final_poly.coeffs.pop();
    assert_eq!(try_verify(&s), Some(Err(FriError::ShapeMismatch)));
    let mut s = honest(&[1, 2], &[30, 5]);
    s.instance.batches[1].point = domain_point(5, 30);
    s.proof.query_round_proofs[1].steps[0].evals.pop();
    assert_eq!(try_verify(&s), Some(Err(FriError::ShapeMismatch)));

    // so is a failed proof of work
    let mut s = honest(&[1, 2], &[30, 5]);
    s.instance.batches[1].point = domain_point(5, 30);
    s.params.config.proof_of_work_bits = 8;
    s.challenges.fri_pow_response = f(1 << 56);
    assert_eq!(try_verify(&s), Some(Err(FriError::ProofOfWorkFailure)));

    // and initial openings that do not authenticate
    let mut s = honest(&[1, 2], &[30, 5]);
    s.instance.batches[1].point = domain_point(5, 30);
    let leaf = &mut s.proof.query_round_proofs[0].initial_trees_proof.evals_proofs[0].0;
    leaf[0] = bump(leaf[0]);
    let verdict =
        Err(FriError::MerkleAuthenticationFailure { round: 0, place: MerklePlace::Oracle(0) });
    assert_eq!(try_verify(&s), Some(verdict));
    let round = &s.proof.query_round_proofs[0];
    let precomputed =
        PrecomputedReducedOpenings::from_os_and_alpha(&s.openings, s.challenges.fri_alpha, false);
    assert!(query_comes_to_units::<F, F, RescueHash>(
        &s.instance,
        &s.challenges,
        &precomputed,
        &s.caps,
        &s.proof,
        30,
        32,
        round,
        &s.params,
        0,
    ));
    // with the leaf as it was the division is reached
    let s = {
        let mut s = honest(&[1, 2], &[30, 5]);
        s.instance.batches[1].point = domain_point(5, 30);
        s
    };
    assert!(!query_comes_to_units::<F, F, RescueHash>(
        &s.instance,
        &s.challenges,
        &precomputed,
        &s.caps,
        &s.proof,
        30,
        32,
        &s.proof.query_round_proofs[0],
        &s.params,
        0,
    ));
}

#[test]
fn oracle_of_blinding_polynomials_without_hiding() {
    // With hiding off a polynomial of the oracle with number four is combined
    // like every other polynomial.
    let instance = FriInstanceInfo {
        oracles: vec![
            FriOracleInfo { num_polys: 3, blinding: false },
            FriOracleInfo { num_polys: 0, blinding: false },
            FriOracleInfo { num_polys: 0, blinding: false },
            FriOracleInfo { num_polys: 0, blinding: false },
            FriOracleInfo { num_polys: 1, blinding: false },
        ],
        batches: vec![
            FriBatchInfo {
                point: f(2),
                polynomials: vec![
                    FriPolynomialInfo { oracle_index: 0, polynomial_index: 0 },
                    FriPolynomialInfo { oracle_index: 4, polynomial_index: 0 },
                ],
            },
            FriBatchInfo {
                point: f(4),
                polynomials: vec![
                    FriPolynomialInfo { oracle_index: 0, polynomial_index: 1 },
                    FriPolynomialInfo { oracle_index: 0, polynomial_index: 2 },
                ],
            },
        ],
    };
    let empty = || (vec![], MerkleProof::<Digest> { siblings: vec![] });
    let leaf = FriInitialTreeProof {
        evals_proofs: vec![
            (vec![f(5), f(0), f(0)], MerkleProof::<Digest> { siblings: vec![] }),
            empty(),
            empty(),
            empty(),
            (vec![f(1)], MerkleProof::<Digest> { siblings: vec![] }),
        ],
    };
    let params = params_with(&[1], 1, 0);
    assert!(!params.hiding);
    let zeros = FriOpenings {
        batches: vec![
            FriOpeningBatch { values: vec![f(0), f(0)] },
            FriOpeningBatch { values: vec![f(0), f(0)] },
        ],
    };
    // alpha = 1, x = 3: ((5 + 1) - 0) / (3 - 2) + 0
    let precomputed = PrecomputedReducedOpenings::from_os_and_alpha(&zeros, f(1), false);
    assert_eq!(
        fri_combine_initial::<F, F, Digest>(&instance, &leaf, f(1), f(3), &precomputed, &params),
        f(6)
    );
    // alpha = 3, x = 7, openings 1, 2 and 3, 4; second batch with values 30, 40:
    // 3^2 * ((5 + 3 * 1) - 7) / (7 - 2) + ((30 + 3 * 40) - 15) / (7 - 4) = 9/5 + 45
    let leaf = FriInitialTreeProof {
        evals_proofs: vec![
            (vec![f(5), f(30), f(40)], MerkleProof::<Digest> { siblings: vec![] }),
            empty(),
            empty(),
            empty(),
            (vec![f(1)], MerkleProof::<Digest> { siblings: vec![] }),
        ],
    };
    let openings = FriOpenings {
        batches: vec![
            FriOpeningBatch { values: vec![f(1), f(2)] },
            FriOpeningBatch { values: vec![f(3), f(4)] },
        ],
    };
    let precomputed = PrecomputedReducedOpenings::from_os_and_alpha(&openings, f(3), false);
    assert_eq!(precomputed.reduced_openings_at_point, vec![f(7), f(15)]);
    let combined =
        fri_combine_initial::<F, F, Digest>(&instance, &leaf, f(3), f(7), &precomputed, &params);
    assert_eq!(combined, f(9).div(f(5)).add(f(45)));
    assert_eq!(combined.sub(f(45)).mul(f(5)), f(9));

    // the gates combine the same
    let mut c = Circuit::new();
    let instance_target = FriInstanceInfoTarget {
        oracles: instance.oracles.clone(),
        batches: instance
            .batches
            .iter()
            .map(|b| FriBatchInfoTarget { point: c.ext(b.point), polynomials: b.polynomials.clone() })
            .collect(),
    };
    let leaf_target = FriInitialTreeProofTarget {
        evals_proofs: leaf
            .evals_proofs
            .iter()
            .map(|(values, path)| (values.iter().map(|&v| c.base(v)).collect(), c.path(path)))
            .collect(),
    };
    let alpha = c.ext(f(3));
    let x = c.base(f(7));
    let reduced = fri_verifier::fri::recursive_verifier::PrecomputedReducedEvalsTarget {
        reduced_openings_at_point: precomputed
            .reduced_openings_at_point
            .iter()
            .map(|&v| c.ext(v))
            .collect(),
    };
    let result =
        c.builder.fri_combine_initial(&instance_target, &leaf_target, alpha, x, &reduced, &params);
    let witness = c.builder.generate_witness(&c.inputs).unwrap();
    assert_eq!(ext_value(&witness, result), combined);
}

#[test]
fn parameters_that_fit() {
    let p = params_with(&[1, 2], 2, 0);
    assert!(params_fit::<F>(&p));
    assert!(params_fit::<F>(&FriParams { reduction_arity_bits: vec![], ..p.clone() }));
    assert!(params_fit::<F>(&FriParams { reduction_arity_bits: vec![4], ..p.clone() }));
    assert!(params_fit::<F>(&FriParams { reduction_arity_bits: vec![2, 2, 0], ..p.clone() }));
    assert!(!params_fit::<F>(&FriParams { reduction_arity_bits: vec![5], ..p.clone() }));
    assert!(!params_fit::<F>(&FriParams { reduction_arity_bits: vec![2, 2, 1], ..p.clone() }));
    assert!(!params_fit::<F>(&FriParams {
        reduction_arity_bits: vec![usize::MAX, 2],
        ..p.clone()
    }));
    // the domain of 2^(degree_bits + rate_bits) points within the subgroup of order 2^28
    assert!(params_fit::<F>(&FriParams { degree_bits: 27, ..p.clone() }));
    assert!(!params_fit::<F>(&FriParams { degree_bits: 28, ..p.clone() }));
    assert!(!params_fit::<F>(&FriParams { degree_bits: usize::MAX, ..p.clone() }));
    // a cap is not larger than the domain
    let mut q = p.clone();
    q.config.cap_height = 5;
    assert!(params_fit::<F>(&q));
    q.config.cap_height = 6;
    assert!(!params_fit::<F>(&q));
}

#[test]
fn well_formed_parts() {
    let s = honest(&[1, 2], &[5]);
    let oracles = s.instance.oracles.clone();
    assert!(instance_is_wf(&s.instance));
    assert!(batch_is_wf(&s.instance.batches[0], &oracles));
    assert!(!batch_is_wf(&s.instance.batches[0], &[]));
    assert!(batch_is_wf(&FriBatchInfo { point: f(1), polynomials: vec![] }, &[]));
    assert!(!batch_is_wf(&FriBatchInfo { point: stray(), polynomials: vec![] }, &oracles));
    let mut instance = s.instance.clone();
    instance.batches[1].point = stray();
    assert!(!instance_is_wf(&instance));

    assert!(blinding_fit(&s.instance, &s.params));
    let mut hiding = s.params.clone();
    hiding.hiding = true;
    assert!(blinding_fit(&s.instance, &hiding));
    hiding.degree_bits = usize::MAX;
    assert!(!blinding_fit(&s.instance, &hiding));
    assert!(blinding_fit(&FriInstanceInfo::<F> { oracles: vec![], batches: vec![] }, &hiding));

    assert!(openings_are_wf(&s.openings, false));
    assert!(openings_are_wf(&s.openings, true));
    let mut openings = s.openings.clone();
    openings.batches[0].values.truncate(1);
    assert!(openings_are_wf(&openings, false));
    assert!(!openings_are_wf(&openings, true));
    openings.batches[1].values[0] = stray();
    assert!(!openings_are_wf(&openings, false));
    assert!(openings_are_wf(&FriOpenings::<F> { batches: vec![] }, true));

    assert!(challenges_are_wf(&s.challenges, &[1, 2]));
    // a challenge too many is ignored, one too few is missed
    assert!(challenges_are_wf(&s.challenges, &[1]));
    assert!(!challenges_are_wf(&s.challenges, &[1, 2, 1]));
    let mut challenges = s.challenges.clone();
    challenges.fri_alpha = stray();
    assert!(!challenges_are_wf(&challenges, &[1, 2]));
    let mut challenges = s.challenges.clone();
    challenges.fri_betas[1] = stray();
    assert!(!challenges_are_wf(&challenges, &[1, 2]));
    let mut challenges = s.challenges.clone();
    challenges.fri_pow_response = stray();
    assert!(!challenges_are_wf(&challenges, &[1, 2]));

    assert!(caps_are_wf::<F, RescueHash>(&s.caps));
    assert!(caps_are_wf::<F, RescueHash>(&[]));
    let mut caps = s.caps.clone();
    caps[0].0[0].e0 = stray();
    assert!(!caps_are_wf::<F, RescueHash>(&caps));

    assert!(proof_is_wf::<F, F, RescueHash>(&s.proof));
    let round = &s.proof.query_round_proofs[0];
    assert!(query_round_is_wf::<F, F, RescueHash>(round));
    assert!(initial_tree_proof_is_wf::<F, RescueHash>(&round.initial_trees_proof));
    let mut proof = s.proof.clone();
    proof.final_poly.coeffs[1] = stray();
    assert!(!proof_is_wf::<F, F, RescueHash>(&proof));
    let mut proof = s.proof.clone();
    proof.commit_phase_merkle_caps[1].0[0].e3 = stray();
    assert!(!proof_is_wf::<F, F, RescueHash>(&proof));
    let mut proof = s.proof.clone();
    proof.query_round_proofs[0].steps[1].evals[0] = stray();
    assert!(!proof_is_wf::<F, F, RescueHash>(&proof));
    assert!(!query_round_is_wf::<F, F, RescueHash>(&proof.query_round_proofs[0]));
    let mut proof = s.proof.clone();
    proof.query_round_proofs[0].steps[0].merkle_proof.siblings[0].e1 = stray();
    assert!(!proof_is_wf::<F, F, RescueHash>(&proof));
    let mut proof = s.proof.clone();
    proof.query_round_proofs[0].initial_trees_proof.evals_proofs[0].0[1] = stray();
    assert!(!proof_is_wf::<F, F, RescueHash>(&proof));
    assert!(!initial_tree_proof_is_wf::<F, RescueHash>(
        &proof.query_round_proofs[0].initial_trees_proof
    ));
    let mut proof = s.proof.clone();
    proof.query_round_proofs[0].initial_trees_proof.evals_proofs[0].1.siblings[2].e0 = stray();
    assert!(!proof_is_wf::<F, F, RescueHash>(&proof));
}

#[test]
fn points_of_a_folded_coset() {
    let x = domain_point(5, 12);
    let g = F::primitive_root_of_unity(2);
    let evals = [f(10), f(20), f(30), f(40)];
    // seen from the first point of the coset: x, x g, x g^2, x g^3 with the
    // evaluations in bit-reversed order
    let points = coset_points::<F, F>(x, 0, 2, &evals);
    assert_eq!(
        points,
        vec![
            (x, f(10)),
            (x.mul(g), f(30)),
            (x.mul(g.square()), f(20)),
            (x.mul(g.cube()), f(40)),
        ]
    );
    // seen from the point with index 1 within the coset, which is x g^2
    let second = x.mul(g.square());
    assert_eq!(coset_points::<F, F>(second, 1, 2, &evals), points);
    // no reduction: the point itself
    assert_eq!(coset_points::<F, F>(x, 0, 0, &[f(7)]), vec![(x, f(7))]);
    assert!(folding_is_well_posed::<F, F>(x, 0, 2, f(2)));
    assert!(folding_is_well_posed::<F, F>(x, 3, 2, x));
    assert!(folding_is_well_posed::<F, F>(x, 0, 0, x));
}

fn base_value(witness: &[Val], t: fri_verifier::iop::target::Target) -> F {
    match &witness[t.0] {
        Value::Base(x) => *x,
        other => panic!("not a base value: {:?}", other),
    }
}

fn ext_value(witness: &[Val], t: fri_verifier::iop::target::ExtensionTarget) -> F {
    match &witness[t.0] {
        Value::Ext(x) => *x,
        other => panic!("not an extension value: {:?}", other),
    }
}

#[test]
fn arithmetic_gates_by_hand() {
    let mut c = Circuit::new();
    let x = c.base(f(6));
    let seven = c.builder.constant(f(7));
    let product = c.builder.mul(x, seven);
    let bit0 = c.builder.low_bit(x, 0);
    let bit1 = c.builder.low_bit(x, 1);
    let bit70 = c.builder.low_bit(x, 70);
    let embedded = c.builder.convert_to_ext(product);
    let nine = c.builder.constant_extension(f(9));
    let power = c.builder.exp_u64_extension(nine, 5);
    let one = c.builder.exp_u64_extension(nine, 0);
    let squares = c.builder.exp_power_of_2_extension(nine, 3);
    c.builder.connect_extension(power, power);
    let witness = c.builder.generate_witness(&c.inputs).unwrap();
    assert_eq!(witness.len(), c.builder.gates.len());
    assert_eq!(base_value(&witness, seven), f(7));
    assert_eq!(base_value(&witness, product), f(42));
    assert_eq!(base_value(&witness, bit0.target), f(0));
    assert_eq!(base_value(&witness, bit1.target), f(1));
    assert_eq!(base_value(&witness, bit70.target), f(0));
    assert_eq!(ext_value(&witness, embedded), f(42));
    assert_eq!(ext_value(&witness, power), f(59049));
    assert_eq!(ext_value(&witness, one), f(1));
    assert_eq!(ext_value(&witness, squares), f(43046721));

    // two targets that hold different elements cannot be connected
    let gates = c.builder.gates.len();
    c.builder.connect_extension(power, squares);
    assert_eq!(
        c.builder.generate_witness(&c.inputs),
        Err(WitnessError::Unsatisfied { gate: gates })
    );
}

#[test]
fn interpolation_and_lookup_gates_by_hand() {
    // x^2 + 1 through three points, at 3 and at a node
    let mut c = Circuit::new();
    let xs: Vec<_> = [1u64, 2, 4].iter().map(|&x| c.base(f(x))).collect();
    let ys: Vec<_> = [2u64, 5, 17].iter().map(|&y| c.ext(f(y))).collect();
    let points: Vec<_> = xs.iter().copied().zip(ys.iter().copied()).collect();
    let at = c.ext(f(3));
    let node = c.ext(f(4));
    let value = c.builder.interpolate(&points, at);
    let at_node = c.builder.interpolate(&points, node);
    let index = c.base(f(2));
    let claimed = c.ext(f(17));
    c.builder.random_access_extension(index, claimed, &ys);
    let witness = c.builder.generate_witness(&c.inputs).unwrap();
    assert_eq!(ext_value(&witness, value), f(10));
    assert_eq!(ext_value(&witness, at_node), f(17));

    // the entry at the index is another one
    let mut wrong = Circuit::new();
    let ys: Vec<_> = [2u64, 5, 17].iter().map(|&y| wrong.ext(f(y))).collect();
    let index = wrong.base(f(1));
    let claimed = wrong.ext(f(17));
    let gates = wrong.builder.gates.len();
    wrong.builder.random_access_extension(index, claimed, &ys);
    assert_eq!(
        wrong.builder.generate_witness(&wrong.inputs),
        Err(WitnessError::Unsatisfied { gate: gates })
    );

    // an index beyond the list
    let mut beyond = Circuit::new();
    let ys: Vec<_> = [2u64, 5, 17].iter().map(|&y| beyond.ext(f(y))).collect();
    let index = beyond.base(f(3));
    let claimed = beyond.ext(f(17));
    let gates = beyond.builder.gates.len();
    beyond.builder.random_access_extension(index, claimed, &ys);
    assert_eq!(
        beyond.builder.generate_witness(&beyond.inputs),
        Err(WitnessError::Unsatisfied { gate: gates })
    );

    // nodes that coincide leave no interpolant
    let mut twice = Circuit::new();
    let xs: Vec<_> = [1u64, 1].iter().map(|&x| twice.base(f(x))).collect();
    let ys: Vec<_> = [2u64, 5].iter().map(|&y| twice.ext(f(y))).collect();
    let points: Vec<_> = xs.iter().copied().zip(ys.iter().copied()).collect();
    let at = twice.ext(f(3));
    let gate = twice.builder.interpolate(&points, at);
    assert_eq!(
        twice.builder.generate_witness(&twice.inputs),
        Err(WitnessError::Unsatisfied { gate: gate.0 })
    );
}

#[test]
fn leading_zeros_gate_by_hand() {
    for (value, zeros, holds) in [
        (1u64 << 58, 5u64, true),
        (1 << 59, 5, false),
        ((1 << 59) - 1, 5, true),
        (0, 64, true),
        (1, 64, false),
        (1, 63, true),
        (u64::MAX >> 1, 1, true),
        (1 << 63, 0, true),
        (1 << 63, 1, false),
    ] {
        let mut c = Circuit::new();
        let x = c.base(f(value));
        let gates = c.builder.gates.len();
        c.builder.assert_leading_zeros(x, zeros);
        let witness = c.builder.generate_witness(&c.inputs);
        if holds {
            assert!(witness.is_ok(), "{} has {} leading zeros", value, zeros);
        } else {
            assert_eq!(witness, Err(WitnessError::Unsatisfied { gate: gates }));
        }
    }
}

#[test]
fn merkle_gates_by_hand() {
    // a tree over eight leaves with a cap of two digests
    let leaves: Vec<Vec<F>> = (0..8u64).map(|i| (0..6).map(|k| f(10 * i + k)).collect()).collect();
    let tree = build_tree(&leaves, 1);
    let cap = cap_of(&tree);
    for (index, flip) in [(0usize, false), (5, false), (7, false), (5, true)] {
        let mut c = Circuit::new();
        let leaf: Vec<_> = leaves[index].iter().map(|&x| c.base(x)).collect();
        let index_target = c.base(f(index as u64));
        let cap_target = c.cap(&cap);
        let mut path = open(&tree, index);
        if flip {
            path.siblings[1].e0 = bump(path.siblings[1].e0);
        }
        assert_eq!(
            verify_merkle_proof_to_cap::<F, RescueHash>(&leaves[index], index, &cap, &path),
            !flip
        );
        let path_target = c.path(&path);
        let bits = c.builder.low_bits(index_target, 3);
        let cap_index = c.builder.le_sum(&bits[2..]);
        let gates = c.builder.gates.len();
        c.builder.verify_merkle_proof_with_cap_index(
            &leaf,
            &bits[..2],
            cap_index,
            &cap_target,
            &path_target,
        );
        let witness = c.builder.generate_witness(&c.inputs);
        if flip {
            assert_eq!(witness, Err(WitnessError::Unsatisfied { gate: gates }));
        } else {
            assert!(witness.is_ok());
        }
    }
    // leaves of extension elements are flattened
    let mut c = Circuit::new();
    let leaf: Vec<_> = leaves[3].iter().map(|&x| c.ext(x)).collect();
    let index_target = c.base(f(3));
    let cap_target = c.cap(&cap);
    let path_target = c.path(&open(&tree, 3));
    let bits = c.builder.low_bits(index_target, 3);
    let cap_index = c.builder.le_sum(&bits[2..]);
    c.builder.verify_flattened_merkle_proof_with_cap_index(
        &leaf,
        &bits[..2],
        cap_index,
        &cap_target,
        &path_target,
    );
    assert!(c.builder.generate_witness(&c.inputs).is_ok());
    // against the other entry of the cap the opening fails
    let wrong_cap = c.builder.constant(f(1));
    let gates = c.builder.gates.len();
    c.builder.verify_flattened_merkle_proof_with_cap_index(
        &leaf,
        &bits[..2],
        wrong_cap,
        &cap_target,
        &path_target,
    );
    assert_eq!(
        c.builder.generate_witness(&c.inputs),
        Err(WitnessError::Unsatisfied { gate: gates })
    );
}

#[test]
fn query_index_beyond_the_domain() {
    // An index beyond the domain numbers no point: the verifier over field
    // values has no verdict on it. The gates read an index by its low bits.
    let mut s = honest(&[1, 2], &[5, 30]);
    s.challenges.fri_query_indices[1] = 32 + 30;
    assert!(!inputs_are_wf(&s));
    assert_eq!(try_verify(&s), None);
    assert!(!indices_are_within_domain(&s.challenges.fri_query_indices, &s.params));
    assert!(indices_are_within_domain(&[0, 31], &s.params));
    assert!(!indices_are_within_domain(&[32], &s.params));
    assert!(indices_are_within_domain(&[], &s.params));
    let (_, witness) = arithmetized(&s);
    assert!(witness.is_ok());
    // the gates agree with the verdict at the index that the low bits give
    let mut changed = honest(&[1, 2], &[5, 30]);
    let evals = &mut changed.proof.query_round_proofs[1].steps[0].evals;
    evals[0] = bump(evals[0]);
    assert_eq!(verify(&changed), Err(FriError::FoldingConsistencyFailure { round: 1, layer: 0 }));
    changed.challenges.fri_query_indices[1] = 32 + 30;
    let (builder, witness) = arithmetized(&changed);
    assert!(matches!(failing_gate(&builder, &witness), Gate::RandomAccessExtension { .. }));
}
