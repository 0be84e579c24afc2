use fri_verifier::field::crandall_field::CrandallField;
use fri_verifier::field::extension_field::FieldExtension;
use fri_verifier::field::quadratic::QuadraticCrandallField;
use fri_verifier::gates::insertion::InsertionGate;
use std::marker::PhantomData;

#[test]
fn wire_indices() {
    let gate = InsertionGate::<CrandallField, 4> {
        vec_size: 3,
        _phantom: PhantomData,
    };

    assert_eq!(gate.wires_insertion_index(), 0);
    assert_eq!(gate.wires_element_to_insert(), 1..5);
    assert_eq!(gate.wires_original_list_item(0), 5..9);
    assert_eq!(gate.wires_original_list_item(2), 13..17);
    assert_eq!(gate.wires_output_list_item(0), 17..21);
    assert_eq!(gate.wires_output_list_item(3), 29..33);
    assert_eq!(gate.wires_equality_dummy_for_round_r(0), 33);
    assert_eq!(gate.wires_equality_dummy_for_round_r(3), 36);
    assert_eq!(gate.wires_insert_here_for_round_r(0), 37);
    assert_eq!(gate.wires_insert_here_for_round_r(3), 40);
}

#[test]
fn insertion_gate_counts() {
    let gate = InsertionGate::<CrandallField, 4>::new(3);
    assert_eq!(gate.vec_size, 3);
    assert_eq!(gate.num_wires(), 41);
    assert_eq!(gate.num_constants(), 0);
    assert_eq!(gate.degree(), 2);
    assert_eq!(gate.num_constraints(), 24);
    assert_eq!(gate.start_of_output_wires(), 17);
    assert_eq!(gate.start_of_intermediate_wires(), 33);
    let single = InsertionGate::<CrandallField, 1>::new(0);
    assert_eq!(single.num_wires(), 5);
    assert_eq!(single.wires_output_list_item(0), 2..3);
}

use fri_verifier::field::field_types::{Field, FieldOps, Sample};
use fri_verifier::gates::insertion::InsertionGenerator;
use fri_verifier::hash::rescue_hash::{HashOut, RescueHash};
use fri_verifier::iop::wire::{PartialWitness, Wire};
use fri_verifier::plonk::circuit_builder::{CircuitBuilder, CircuitConfig};
use fri_verifier::plonk::gates::Value;
use fri_verifier::plonk::vars::{EvaluationTargets, EvaluationVars};

type F = CrandallField;

fn f(n: u64) -> F {
    F::from_canonical_u64(n)
}

/// Returns the local wires for an insertion gate given the original vector,
/// element to insert, and index.
fn get_wires(orig_vec: Vec<[F; 4]>, insertion_index: usize, element_to_insert: [F; 4]) -> Vec<F> {
    let vec_size = orig_vec.len();

    let mut v = Vec::new();
    v.push(F::from_canonical_usize(insertion_index));
    v.extend(element_to_insert);
    for j in 0..vec_size {
        v.extend(orig_vec[j]);
    }

    let mut new_vec = orig_vec.clone();
    new_vec.insert(insertion_index, element_to_insert);
    let mut equality_dummy_vals = Vec::new();
    for i in 0..=vec_size {
        equality_dummy_vals.push(if i == insertion_index {
            f(1)
        } else {
            (F::from_canonical_usize(i).sub(F::from_canonical_usize(insertion_index))).inverse()
        });
    }
    let mut insert_here_vals = vec![f(0); vec_size];
    insert_here_vals.insert(insertion_index, f(1));

    for j in 0..=vec_size {
        v.extend(new_vec[j]);
    }
    v.extend(equality_dummy_vals);
    v.extend(insert_here_vals);
    v
}

fn random_element() -> [F; 4] {
    [F::rand(), F::rand(), F::rand(), F::rand()]
}

#[test]
fn test_gate_constraint() {
    let orig_vec = vec![random_element(); 3];
    let insertion_index = 1;
    let element_to_insert = random_element();
    let gate = InsertionGate::<F, 4> {
        vec_size: 3,
        _phantom: PhantomData,
    };
    let vars = EvaluationVars {
        local_constants: vec![],
        local_wires: get_wires(orig_vec, insertion_index, element_to_insert),
    };

    assert!(
        gate.eval_unfiltered(&vars).iter().all(|x| x.is_zero()),
        "Gate constraints are not satisfied."
    );
}

#[test]
fn gate_constraints_detect_wrong_rows() {
    let gate = InsertionGate::<F, 4>::new(3);
    let orig_vec = vec![[f(1), f(2), f(3), f(4)], [f(5), f(6), f(7), f(8)], [f(9), f(10), f(11), f(12)]];
    let element = [f(100), f(200), f(300), f(400)];
    for index in 0..=3 {
        let wires = get_wires(orig_vec.clone(), index, element);
        assert_eq!(wires.len(), gate.num_wires());
        let constraints = gate.eval_unfiltered(&EvaluationVars {
            local_constants: vec![],
            local_wires: wires.clone(),
        });
        assert_eq!(constraints.len(), gate.num_constraints());
        assert!(constraints.iter().all(|x| x.is_zero()));
        // a wrong output entry, a wrong flag and a wrong helper are caught
        for wire in [
            gate.wires_output_list_item(2).start,
            gate.wires_insert_here_for_round_r(0),
            gate.wires_equality_dummy_for_round_r(3),
        ] {
            let mut bad = wires.clone();
            bad[wire] = bad[wire].add(f(1));
            let constraints = gate.eval_unfiltered(&EvaluationVars {
                local_constants: vec![],
                local_wires: bad,
            });
            if wire == gate.wires_equality_dummy_for_round_r(index) {
                // the helper of the round of the index is free
                assert!(constraints.iter().all(|x| x.is_zero()));
            } else {
                assert!(constraints.iter().any(|x| !x.is_zero()));
            }
        }
    }
}

#[test]
fn generator_fills_the_row() {
    let gate = InsertionGate::<F, 4>::new(3);
    let orig_vec = vec![[f(1), f(2), f(3), f(4)], [f(5), f(6), f(7), f(8)], [f(9), f(10), f(11), f(12)]];
    let element = [f(100), f(200), f(300), f(400)];
    for index in 0..=3usize {
        let row = get_wires(orig_vec.clone(), index, element);
        let generators = gate.generators(7, &[]);
        assert_eq!(generators.len(), 1);
        let generator: &InsertionGenerator<F, 4> = &generators[0];
        let dependencies = generator.dependencies();
        assert_eq!(dependencies.len(), 17);
        assert_eq!(dependencies[0], Wire { gate: 7, input: 0 });
        assert_eq!(dependencies[16], Wire { gate: 7, input: 16 });
        let mut witness = PartialWitness::<F>::new();
        for wire in &dependencies {
            witness.set_wire(*wire, row[wire.input]);
        }
        let generated = generator.run_once(&witness);
        assert_eq!(generated.wire_values.len(), gate.num_wires() - 17);
        for input in 17..gate.num_wires() {
            assert_eq!(generated.try_get_wire(Wire { gate: 7, input }), Some(row[input]));
        }
        assert_eq!(generated.try_get_wire(Wire { gate: 7, input: 0 }), None);
        assert_eq!(generated.try_get_wire(Wire { gate: 8, input: 20 }), None);
    }
}

#[test]
fn arithmetized_constraints_agree_with_native_ones() {
    let gate = InsertionGate::<F, 4>::new(3);
    let orig_vec = vec![[f(1), f(2), f(3), f(4)], [f(5), f(6), f(7), f(8)], [f(9), f(10), f(11), f(12)]];
    let element = [f(100), f(200), f(300), f(400)];
    let mut row = get_wires(orig_vec, 2, element);
    row[gate.wires_output_list_item(1).start] = f(77);
    let config = CircuitConfig {
        num_wires: 100,
        num_routed_wires: 50,
        cap_height: 0,
        rate_bits: 1,
        zero_knowledge: false,
    };
    let mut builder = CircuitBuilder::<F, F, RescueHash>::new(config);
    let targets: Vec<_> = row.iter().map(|_| builder.add_virtual_extension_target()).collect();
    let inputs: Vec<Value<F, F, HashOut<F>>> = row.iter().map(|&x| Value::Ext(x)).collect();
    let constraints = gate.eval_unfiltered_recursively(
        &mut builder,
        &EvaluationTargets { local_constants: vec![], local_wires: targets },
    );
    let witness = builder.generate_witness(&inputs).unwrap();
    let native = gate.eval_unfiltered(&EvaluationVars { local_constants: vec![], local_wires: row });
    assert_eq!(constraints.len(), native.len());
    assert!(native.iter().any(|x| !x.is_zero()));
    for (target, value) in constraints.iter().zip(native) {
        assert_eq!(witness[target.0], Value::Ext(value));
    }
}

/// Value at `x` of the polynomial of degree below the number of points that
/// takes the given values at the given points.
fn lagrange(points: &[(F, F)], x: F) -> F {
    let mut sum = f(0);
    for (i, &(xi, yi)) in points.iter().enumerate() {
        let mut term = yi;
        for (j, &(xj, _)) in points.iter().enumerate() {
            if i != j {
                term = term.mul(x.sub(xj)).div(xi.sub(xj));
            }
        }
        sum = sum.add(term);
    }
    sum
}

#[test]
fn low_degree() {
    // Wires that are polynomials of degree below n give constraints that are
    // polynomials of degree at most degree() * (n - 1).
    let gate = InsertionGate::<F, 4>::new(4);
    let n = 4usize;
    let bound = gate.degree() * (n - 1) + 1;
    let wire_points: Vec<F> = (0..n as u64).map(|i| f(i + 1)).collect();
    let wire_polys: Vec<Vec<(F, F)>> = (0..gate.num_wires())
        .map(|_| wire_points.iter().map(|&x| (x, F::rand())).collect())
        .collect();
    let constraints_at = |x: F| {
        let local_wires = wire_polys.iter().map(|p| lagrange(p, x)).collect();
        gate.eval_unfiltered(&EvaluationVars { local_constants: vec![], local_wires })
    };
    let sample_points: Vec<F> = (0..bound as u64).map(|i| f(1000 + i)).collect();
    let samples: Vec<Vec<F>> = sample_points.iter().map(|&x| constraints_at(x)).collect();
    for check in [f(5), f(123456), F::rand()] {
        let actual = constraints_at(check);
        for c in 0..gate.num_constraints() {
            let points: Vec<(F, F)> =
                sample_points.iter().zip(&samples).map(|(&x, s)| (x, s[c])).collect();
            assert_eq!(lagrange(&points, check), actual[c]);
        }
    }
}

#[test]
fn gate_constraints_over_the_extension() {
    // The wires of a row, taken into the quadratic extension, meet the
    // constraints there too; a wire moved off the base field does not.
    type Q = QuadraticCrandallField;
    let gate = InsertionGate::<F, 4>::new(3);
    let orig_vec = vec![random_element(); 3];
    let element = random_element();
    for index in 0..=3 {
        let row: Vec<Q> = get_wires(orig_vec.clone(), index, element)
            .into_iter()
            .map(|x| <Q as FieldExtension<F>>::from_basefield(x))
            .collect();
        let constraints = gate.eval_unfiltered(&EvaluationVars {
            local_constants: vec![],
            local_wires: row.clone(),
        });
        assert_eq!(constraints.len(), gate.num_constraints());
        assert!(constraints.iter().all(|x| x.is_zero()));
        let mut bad = row;
        let wire = gate.wires_output_list_item(1).start;
        bad[wire] = bad[wire].add(QuadraticCrandallField(f(0), f(1)));
        let constraints = gate.eval_unfiltered(&EvaluationVars {
            local_constants: vec![],
            local_wires: bad,
        });
        assert!(constraints.iter().any(|x| x.1.is_nonzero()));
    }
}
