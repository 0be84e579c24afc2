use fri_verifier::field::crandall_field::CrandallField;
use fri_verifier::field::extension_field::{flatten, FieldExtension};
use fri_verifier::field::field_types::{Field, FieldOps};
use fri_verifier::field::quadratic::QuadraticCrandallField;
use fri_verifier::fri::error::{FriError, MerklePlace};
use fri_verifier::fri::fri_proof::{
    FriChallenges, FriInitialTreeProof, FriProof, FriQueryRound, FriQueryStep,
};
use fri_verifier::fri::native_verifier::{
    compute_evaluation, fri_combine_initial, verify_fri_proof, PrecomputedReducedOpenings,
};
use fri_verifier::fri::proof_target::{
    FriBatchInfoTarget, FriChallengesTarget, FriInitialTreeProofTarget, FriInstanceInfoTarget,
    FriOpeningBatchTarget, FriOpeningsTarget, FriProofTarget, FriQueryRoundTarget,
    FriQueryStepTarget,
};
use fri_verifier::fri::structure::{
    FriBatchInfo, FriInstanceInfo, FriOpeningBatch, FriOpenings, FriOracleInfo, FriPolynomialInfo,
};
use fri_verifier::fri::well_posed::try_verify_fri_proof;
use fri_verifier::fri::{FriConfig, FriParams};
use fri_verifier::hash::merkle_proofs::{
    verify_merkle_proof_to_cap, Hasher, MerkleCap, MerkleProof,
};
use fri_verifier::hash::rescue_hash::{HashOut, RescueHash};
use fri_verifier::iop::target::{
    ExtensionTarget, HashOutTarget, MerkleCapTarget, MerkleProofTarget, Target,
};
use fri_verifier::plonk::circuit_builder::{CircuitBuilder, CircuitConfig};
use fri_verifier::plonk::gates::{Gate, Value};
use fri_verifier::plonk::witness::WitnessError;
use fri_verifier::polynomial::polynomial::PolynomialCoeffs;
use fri_verifier::util::reverse_bits;

type F = CrandallField;
type E = QuadraticCrandallField;
type Digest = HashOut<CrandallField>;

fn f(n: u64) -> F {
    F::from_canonical_u64(n)
}

fn e(c0: u64, c1: u64) -> E {
    QuadraticCrandallField(f(c0), f(c1))
}

fn embed(x: F) -> E {
    E::from_basefield(x)
}

struct Tree {
    layers: Vec<Vec<Digest>>,
}

fn build_tree(leaves: &[Vec<F>], cap_height: usize) -> Tree {
    let mut layers = vec![leaves
        .iter()
        .map(|l| RescueHash::hash_or_noop(l))
        .collect::<Vec<_>>()];
    while layers.last().unwrap().len() > (1 << cap_height) {
        let below = layers.last().unwrap();
        let above = (0..below.len() / 2)
            .map(|i| RescueHash::two_to_one(below[2 * i], below[2 * i + 1]))
            .collect::<Vec<_>>();
        layers.push(above);
    }
    Tree { layers }
}

fn cap_of(tree: &Tree) -> MerkleCap<Digest> {
    MerkleCap(tree.layers.last().unwrap().clone())
}

fn open(tree: &Tree, index: usize) -> MerkleProof<Digest> {
    let mut index = index;
    let mut siblings = Vec::new();
    for layer in &tree.layers[..tree.layers.len() - 1] {
        siblings.push(layer[index ^ 1]);
        index >>= 1;
    }
    MerkleProof { siblings }
}

fn domain_point(lde_bits: usize, index: usize) -> F {
    F::multiplicative_group_generator().mul(
        F::primitive_root_of_unity(lde_bits).exp_u64(reverse_bits(index, lde_bits) as u64),
    )
}

/// Coefficients of the polynomial of degree below the number of points that
/// takes the given values at the given points.
fn interpolate_coeffs(points: &[(E, E)]) -> Vec<E> {
    let n = points.len();
    let mut result = vec![E::zero(); n];
    for i in 0..n {
        let mut numerator = vec![E::one()];
        let mut denominator = E::one();
        for j in 0..n {
            if j != i {
                let mut next = vec![E::zero(); numerator.len() + 1];
                for (k, &c) in numerator.iter().enumerate() {
                    next[k + 1] = next[k + 1].add(c);
                    next[k] = next[k].sub(c.mul(points[j].0));
                }
                numerator = next;
                denominator = denominator.mul(points[i].0.sub(points[j].0));
            }
        }
        let scale = points[i].1.div(denominator);
        for k in 0..n {
            result[k] = result[k].add(numerator[k].mul(scale));
        }
    }
    result
}

struct Setup {
    instance: FriInstanceInfo<E>,
    openings: FriOpenings<E>,
    challenges: FriChallenges<F, E>,
    caps: Vec<MerkleCap<Digest>>,
    proof: FriProof<F, E, Digest>,
    params: FriParams,
}

/// A faithful proof for two committed polynomials of degree below 16 over the
/// base field, opened in two batches at two points of the extension, with
/// challenges from the extension.
fn honest(arities: &[usize], query_indices: &[usize]) -> Setup {
    let params = FriParams {
        config: FriConfig {
            rate_bits: 1,
            cap_height: 1,
            proof_of_work_bits: 0,
            num_query_rounds: query_indices.len(),
        },
        hiding: false,
        degree_bits: 4,
        reduction_arity_bits: arities.to_vec(),
    };
    let lde_bits = params.lde_bits();
    let n = 1usize << lde_bits;
    let cap_height = params.config.cap_height;
    let polys: Vec<Vec<F>> = (0..2u64)
        .map(|k| (0..16u64).map(|i| f(1000 * k + 17 * i * i + 3 * i + 1)).collect())
        .collect();
    let instance = FriInstanceInfo {
        oracles: vec![FriOracleInfo { num_polys: 2, blinding: false }],
        batches: vec![
            FriBatchInfo {
                point: e(1234567, 89),
                polynomials: vec![
                    FriPolynomialInfo { oracle_index: 0, polynomial_index: 0 },
                    FriPolynomialInfo { oracle_index: 0, polynomial_index: 1 },
                ],
            },
            FriBatchInfo {
                point: e(7654321, 1 << 40),
                polynomials: vec![FriPolynomialInfo { oracle_index: 0, polynomial_index: 0 }],
            },
        ],
    };
    let alpha = e(3, 5);
    let betas: Vec<E> = (0..arities.len() as u64).map(|i| e(1_000_003 + 7 * i, 11 + i)).collect();

    // Commit to the polynomials on the evaluation domain.
    let xs: Vec<F> = (0..n).map(|j| domain_point(lde_bits, j)).collect();
    let leaves: Vec<Vec<F>> = xs
        .iter()
        .map(|&x| polys.iter().map(|p| PolynomialCoeffs::new(p.clone()).eval(x)).collect())
        .collect();
    let initial_tree = build_tree(&leaves, cap_height);

    // The claimed openings: the polynomials, with their coefficients embedded,
    // at the points of the batches.
    let openings = FriOpenings {
        batches: instance
            .batches
            .iter()
            .map(|b| FriOpeningBatch {
                values: b
                    .polynomials
                    .iter()
                    .map(|p| {
                        let coeffs = polys[p.polynomial_index].iter().map(|&c| embed(c)).collect();
                        PolynomialCoeffs::new(coeffs).eval(b.point)
                    })
                    .collect(),
            })
            .collect(),
    };
    let precomputed = PrecomputedReducedOpenings::from_os_and_alpha(&openings, alpha, false);

    // The batch polynomial on the domain.
    let mut values: Vec<E> = (0..n)
        .map(|j| {
            let leaf = FriInitialTreeProof {
                evals_proofs: vec![(leaves[j].clone(), MerkleProof { siblings: vec![] })],
            };
            fri_combine_initial::<F, E, Digest>(
                &instance,
                &leaf,
                alpha,
                xs[j],
                &precomputed,
                &params,
            )
        })
        .collect();

    // The commit phase: fold once per arity. A leaf of a layer holds the
    // coordinates of the evaluations on one coset.
    let mut points = xs.clone();
    let mut layer_leaves: Vec<Vec<Vec<E>>> = Vec::new();
    let mut layer_trees: Vec<Tree> = Vec::new();
    for (l, &a) in arities.iter().enumerate() {
        let arity = 1usize << a;
        let cosets: Vec<Vec<E>> = values.chunks(arity).map(|c| c.to_vec()).collect();
        let flat: Vec<Vec<F>> = cosets.iter().map(|c| flatten::<F, E>(c)).collect();
        let tree = build_tree(&flat, cap_height);
        let next_values: Vec<E> = cosets
            .iter()
            .enumerate()
            .map(|(c, evals)| compute_evaluation::<F, E>(points[c * arity], 0, a, evals, betas[l]))
            .collect();
        let next_points: Vec<F> =
            (0..cosets.len()).map(|c| points[c * arity].exp_power_of_2(a)).collect();
        layer_leaves.push(cosets);
        layer_trees.push(tree);
        values = next_values;
        points = next_points;
    }
    let final_len = params.final_poly_len();
    let final_points: Vec<(E, E)> =
        (0..final_len).map(|i| (embed(points[i]), values[i])).collect();
    let final_poly = PolynomialCoeffs::new(interpolate_coeffs(&final_points));

    // The query phase.
    let query_round_proofs = query_indices
        .iter()
        .map(|&x_index| {
            let initial_trees_proof = FriInitialTreeProof {
                evals_proofs: vec![(leaves[x_index].clone(), open(&initial_tree, x_index))],
            };
            let mut index = x_index;
            let mut steps = Vec::new();
            for (l, &a) in arities.iter().enumerate() {
                let coset = index >> a;
                steps.push(FriQueryStep {
                    evals: layer_leaves[l][coset].clone(),
                    merkle_proof: open(&layer_trees[l], coset),
                });
                index = coset;
            }
            FriQueryRound { initial_trees_proof, steps }
        })
        .collect();

    let proof = FriProof {
        commit_phase_merkle_caps: layer_trees.iter().map(cap_of).collect(),
        query_round_proofs,
        final_poly,
        pow_witness: f(0),
    };
    let challenges = FriChallenges {
        fri_alpha: alpha,
        fri_betas: betas,
        fri_pow_response: f(0),
        fri_query_indices: query_indices.to_vec(),
    };
    Setup { instance, openings, challenges, caps: vec![cap_of(&initial_tree)], proof, params }
}

fn verify(s: &Setup) -> Result<(), FriError> {
    verify_fri_proof::<F, E, RescueHash>(
        &s.instance,
        &s.openings,
        &s.challenges,
        &s.caps,
        &s.proof,
        &s.params,
    )
}

/// Another element: both coordinates change.
fn bump(x: E) -> E {
    x.add(e(1, 1))
}

type Builder = CircuitBuilder<F, E, RescueHash>;
type Val = Value<F, E, Digest>;

struct Circuit {
    builder: Builder,
    inputs: Vec<Val>,
}

impl Circuit {
    fn new() -> Self {
        let config = CircuitConfig {
            num_wires: 200,
            num_routed_wires: 100,
            cap_height: 1,
            rate_bits: 1,
            zero_knowledge: false,
        };
        Circuit { builder: Builder::new(config), inputs: Vec::new() }
    }

    fn base(&mut self, x: F) -> Target {
        self.inputs.push(Value::Base(x));
        self.builder.add_virtual_target()
    }

    fn ext(&mut self, x: E) -> ExtensionTarget {
        self.inputs.push(Value::Ext(x));
        self.builder.add_virtual_extension_target()
    }

    fn digest(&mut self, d: Digest) -> HashOutTarget {
        self.inputs.push(Value::Digest(d));
        self.builder.add_virtual_hash()
    }

    fn cap(&mut self, cap: &MerkleCap<Digest>) -> MerkleCapTarget {
        MerkleCapTarget(cap.0.iter().map(|&d| self.digest(d)).collect())
    }

    fn path(&mut self, proof: &MerkleProof<Digest>) -> MerkleProofTarget {
        MerkleProofTarget { siblings: proof.siblings.iter().map(|&d| self.digest(d)).collect() }
    }
}

/// Builds the constraint system that verifies the proof of the setup, with
/// inputs that hold the setup's values, and generates the witness.
fn arithmetized(s: &Setup) -> (Builder, Result<Vec<Val>, WitnessError>) {
    let mut c = Circuit::new();
    let instance = FriInstanceInfoTarget {
        oracles: s.instance.oracles.clone(),
        batches: s
            .instance
            .batches
            .iter()
            .map(|b| FriBatchInfoTarget {
                point: c.ext(b.point),
                polynomials: b.polynomials.clone(),
            })
            .collect(),
    };
    let openings = FriOpeningsTarget {
        batches: s
            .openings
            .batches
            .iter()
            .map(|b| FriOpeningBatchTarget {
                values: b.values.iter().map(|&v| c.ext(v)).collect(),
            })
            .collect(),
    };
    let challenges = FriChallengesTarget {
        fri_alpha: c.ext(s.challenges.fri_alpha),
        fri_betas: s.challenges.fri_betas.iter().map(|&b| c.ext(b)).collect(),
        fri_pow_response: c.base(s.challenges.fri_pow_response),
        fri_query_indices: s
            .challenges
            .fri_query_indices
            .iter()
            .map(|&i| c.base(f(i as u64)))
            .collect(),
    };
    let caps: Vec<MerkleCapTarget> = s.caps.iter().map(|cap| c.cap(cap)).collect();
    let proof = FriProofTarget {
        commit_phase_merkle_caps: s
            .proof
            .commit_phase_merkle_caps
            .iter()
            .map(|cap| c.cap(cap))
            .collect(),
        query_round_proofs: s
            .proof
            .query_round_proofs
            .iter()
            .map(|round| FriQueryRoundTarget {
                initial_trees_proof: FriInitialTreeProofTarget {
                    evals_proofs: round
                        .initial_trees_proof
                        .evals_proofs
                        .iter()
                        .map(|(leaf, path)| {
                            (leaf.iter().map(|&v| c.base(v)).collect(), c.path(path))
                        })
                        .collect(),
                },
                steps: round
                    .steps
                    .iter()
                    .map(|step| FriQueryStepTarget {
                        evals: step.evals.iter().map(|&v| c.ext(v)).collect(),
                        merkle_proof: c.path(&step.merkle_proof),
                    })
                    .collect(),
            })
            .collect(),
        final_poly: s.proof.final_poly.coeffs.iter().map(|&v| c.ext(v)).collect(),
        pow_witness: c.base(s.proof.pow_witness),
    };
    let Circuit { mut builder, inputs } = c;
    builder.verify_fri_proof(&instance, &openings, &challenges, &caps, &proof, &s.params);
    let witness = builder.generate_witness(&inputs);
    (builder, witness)
}

fn failing_gate(builder: &Builder, witness: &Result<Vec<Val>, WitnessError>) -> Gate<F, E> {
    match witness {
        Err(WitnessError::Unsatisfied { gate }) => builder.gates[*gate].clone(),
        other => panic!("expected an unsatisfied gate, got {:?}", other.as_ref().map(|v| v.len())),
    }
}

#[test]
fn faithful_proof_over_the_extension_is_accepted() {
    for arities in [vec![1, 1, 2], vec![3, 1], vec![2], vec![]] {
        let s = honest(&arities, &[0, 5, 19, 31]);
        // the values really lie outside the base field
        assert!(s.proof.final_poly.coeffs.iter().any(|c| c.1.is_nonzero()));
        assert_eq!(verify(&s), Ok(()));
        assert_eq!(
            try_verify_fri_proof::<F, E, RescueHash>(
                &s.instance,
                &s.openings,
                &s.challenges,
                &s.caps,
                &s.proof,
                &s.params,
            ),
            Some(Ok(()))
        );
        assert_eq!(verify(&s), verify(&s));
    }
}

#[test]
fn layer_leaves_hold_the_coordinates_of_the_evaluations() {
    let s = honest(&[1, 2], &[13]);
    let step = &s.proof.query_round_proofs[0].steps[0];
    assert_eq!(step.evals.len(), 2);
    let leaf = flatten::<F, E>(&step.evals);
    assert_eq!(leaf, vec![step.evals[0].0, step.evals[0].1, step.evals[1].0, step.evals[1].1]);
    assert!(verify_merkle_proof_to_cap::<F, RescueHash>(
        &leaf,
        13 >> 1,
        &s.proof.commit_phase_merkle_caps[0],
        &step.merkle_proof,
    ));
    // the coordinates in another order are another leaf
    let swapped = vec![leaf[1], leaf[0], leaf[2], leaf[3]];
    assert!(!verify_merkle_proof_to_cap::<F, RescueHash>(
        &swapped,
        13 >> 1,
        &s.proof.commit_phase_merkle_caps[0],
        &step.merkle_proof,
    ));
}

#[test]
fn changed_values_over_the_extension_are_rejected() {
    for arities in [vec![1, 1, 2], vec![3, 1]] {
        let indices = [9usize, 30];
        for round in 0..indices.len() {
            let mut index = indices[round];
            for layer in 0..arities.len() {
                let a = arities[layer];
                let within = index & ((1 << a) - 1);
                // the queried evaluation, in either coordinate
                for change in [e(1, 0), e(0, 1)] {
                    let mut s = honest(&arities, &indices);
                    let evals = &mut s.proof.query_round_proofs[round].steps[layer].evals;
                    evals[within] = evals[within].add(change);
                    assert_eq!(
                        verify(&s),
                        Err(FriError::FoldingConsistencyFailure { round, layer })
                    );
                }
                // a sibling evaluation
                let mut s = honest(&arities, &indices);
                let evals = &mut s.proof.query_round_proofs[round].steps[layer].evals;
                evals[within ^ 1] = evals[within ^ 1].add(e(0, 1));
                assert_eq!(
                    verify(&s),
                    Err(FriError::MerkleAuthenticationFailure {
                        round,
                        place: MerklePlace::Layer(layer)
                    })
                );
                index >>= a;
            }
            // an evaluation of the initial oracle
            let mut s = honest(&arities, &indices);
            let leaf = &mut s.proof.query_round_proofs[round].initial_trees_proof.evals_proofs[0].0;
            leaf[1] = leaf[1].add(f(1));
            assert_eq!(
                verify(&s),
                Err(FriError::MerkleAuthenticationFailure { round, place: MerklePlace::Oracle(0) })
            );
        }
        // a coefficient of the final polynomial
        let mut s = honest(&arities, &indices);
        s.proof.final_poly.coeffs[0] = bump(s.proof.final_poly.coeffs[0]);
        assert_eq!(verify(&s), Err(FriError::FinalPolynomialMismatch { round: 0 }));
        // a claimed opening: the combination no longer folds to the layers
        let mut s = honest(&arities, &indices);
        s.openings.batches[1].values[0] = bump(s.openings.batches[1].values[0]);
        assert_eq!(verify(&s), Err(FriError::FoldingConsistencyFailure { round: 0, layer: 0 }));
    }
}

#[test]
fn arithmetized_verifier_over_the_extension_agrees() {
    let arities = vec![1, 2];
    let indices = [6usize, 17];
    let s = honest(&arities, &indices);
    assert_eq!(verify(&s), Ok(()));
    let (builder, witness) = arithmetized(&s);
    assert_eq!(witness.expect("a faithful proof satisfies the gates").len(), builder.gates.len());

    // every single evaluation of every step, changed in its second coordinate
    for round in 0..2 {
        for layer in 0..2 {
            for k in 0..(1usize << arities[layer]) {
                let mut s = honest(&arities, &indices);
                let evals = &mut s.proof.query_round_proofs[round].steps[layer].evals;
                evals[k] = evals[k].add(e(0, 1));
                let native = verify(&s);
                let (builder, witness) = arithmetized(&s);
                match native {
                    Err(FriError::FoldingConsistencyFailure { .. }) => assert!(matches!(
                        failing_gate(&builder, &witness),
                        Gate::RandomAccessExtension { .. }
                    )),
                    Err(FriError::MerkleAuthenticationFailure { .. }) => assert!(matches!(
                        failing_gate(&builder, &witness),
                        Gate::MerkleVerifyExtension { .. }
                    )),
                    other => panic!("the change went unnoticed: {:?}", other),
                }
            }
        }
    }

    let mut s = honest(&arities, &indices);
    s.proof.final_poly.coeffs[1] = bump(s.proof.final_poly.coeffs[1]);
    assert_eq!(verify(&s), Err(FriError::FinalPolynomialMismatch { round: 0 }));
    let (builder, witness) = arithmetized(&s);
    assert!(matches!(failing_gate(&builder, &witness), Gate::ConnectExtension(..)));

    let mut s = honest(&arities, &indices);
    s.challenges.fri_alpha = bump(s.challenges.fri_alpha);
    assert!(verify(&s).is_err());
    let (_, witness) = arithmetized(&s);
    assert!(witness.is_err());
}
