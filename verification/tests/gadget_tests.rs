use fri_verifier::alu::add::{eval_ext_circuit, eval_packed_generic, generate};
use fri_verifier::alu::columns::{
    ADD_INPUT_0, ADD_INPUT_1, ADD_OUTPUT, IS_ADD, LIMB_BITS, NUM_ALU_COLUMNS, N_LIMBS,
};
use fri_verifier::alu::utils::eval_packed_generic_are_equal;
use fri_verifier::constraint_consumer::{ConstraintConsumer, RecursiveConstraintConsumer};
use fri_verifier::field::crandall_field::{CrandallField, FIELD_ORDER};
use fri_verifier::field::field_types::{Field, FieldOps};
use fri_verifier::fri::{FriConfig, FriParams};
use fri_verifier::gates::wire_counts::{InterpolationGate, RandomAccessGate};
use fri_verifier::hash::merkle_proofs::{all_hashes_wf, Hasher};
use fri_verifier::hash::rescue_hash::{hash_n_to_hash_no_pad, HashOut, RescueHash};
use fri_verifier::iop::target::ExtensionTarget;
use fri_verifier::iop::wire::{PartialWitness, Wire};
use fri_verifier::plonk::circuit_builder::{CircuitBuilder, CircuitConfig};
use fri_verifier::plonk::gates::Value;
use fri_verifier::polynomial::polynomial::PolynomialValues;
use fri_verifier::rescue::{
    constant, constant_layer, mds_layer, rescue, sbox_layer_a, sbox_layer_b, MDS,
    RESCUE_CONSTANTS, ROUNDS, W,
};
use fri_verifier::util::{
    reverse_index_bits, reverse_index_bits_in_place_large, reverse_index_bits_in_place_small,
    reverse_index_bits_large, reverse_index_bits_small, transpose_poly_values,
};

type G = CrandallField;

fn g(n: u64) -> G {
    G::from_canonical_u64(n)
}

fn state_from(start: u64) -> [G; W] {
    let mut state = [g(0); W];
    for (i, x) in state.iter_mut().enumerate() {
        *x = g(start + 7 * i as u64);
    }
    state
}

#[test]
fn rescue_layers() {
    let x = state_from(3);
    let cubes = sbox_layer_a(x);
    for i in 0..W {
        assert_eq!(cubes[i], x[i].cube());
    }
    assert_eq!(cubes[0], g(27));
    // the two s-boxes undo each other
    assert_eq!(sbox_layer_b(cubes), x);
    assert_eq!(sbox_layer_a(sbox_layer_b(x)), x);
    // the matrix applied to a unit vector is a column of the matrix
    for c in [0usize, 5, 11] {
        let mut unit = [g(0); W];
        unit[c] = g(1);
        let column = mds_layer(unit);
        for r in 0..W {
            assert_eq!(column[r], g(MDS[r][c]));
        }
    }
    // first row times the vector of ones: the sum of the row
    let ones = [g(1); W];
    let mut sum = g(0);
    for c in 0..W {
        sum = sum.add(g(MDS[0][c]));
    }
    assert_eq!(mds_layer(ones)[0], sum);
    let shifted = constant_layer(x, &RESCUE_CONSTANTS[3]);
    for i in 0..W {
        assert_eq!(shifted[i], x[i].add(g(RESCUE_CONSTANTS[3][i])));
    }
    assert_eq!(constant::<G>(5), g(5));
    assert_eq!(constant::<G>(FIELD_ORDER), g(0));
    assert_eq!(constant::<G>(u64::MAX), g(u64::MAX - FIELD_ORDER));
}

#[test]
fn rescue_is_the_composition_of_its_rounds() {
    assert_eq!(ROUNDS, 8);
    let x = state_from(1);
    let mut expected = x;
    for r in 0..ROUNDS {
        expected = sbox_layer_a(expected);
        expected = mds_layer(expected);
        expected = constant_layer(expected, &RESCUE_CONSTANTS[2 * r]);
        expected = sbox_layer_b(expected);
        expected = mds_layer(expected);
        expected = constant_layer(expected, &RESCUE_CONSTANTS[2 * r + 1]);
    }
    assert_eq!(rescue(x), expected);
    assert_ne!(rescue(x), x);
    assert_ne!(rescue(state_from(1)), rescue(state_from(2)));
    assert!(rescue(x).iter().all(|e| e.0 < FIELD_ORDER));
}

#[test]
fn hashing_field_elements() {
    // up to four elements are their own digest
    assert_eq!(
        RescueHash::hash_or_noop(&[]),
        HashOut { e0: g(0), e1: g(0), e2: g(0), e3: g(0) }
    );
    assert_eq!(
        RescueHash::hash_or_noop(&[g(5), g(6)]),
        HashOut { e0: g(5), e1: g(6), e2: g(0), e3: g(0) }
    );
    assert_eq!(
        RescueHash::hash_or_noop(&[g(5), g(6), g(7), g(8)]),
        HashOut { e0: g(5), e1: g(6), e2: g(7), e3: g(8) }
    );
    // more are absorbed eight at a time
    let five = [g(1), g(2), g(3), g(4), g(5)];
    let mut state = [g(0); W];
    state[..5].copy_from_slice(&five);
    let out = rescue(state);
    let expected = HashOut { e0: out[0], e1: out[1], e2: out[2], e3: out[3] };
    assert_eq!(RescueHash::hash_or_noop(&five), expected);
    assert_eq!(hash_n_to_hash_no_pad(&five), expected);
    // ten elements: two permutations, the second chunk over the first state
    let ten: Vec<G> = (1..=10).map(g).collect();
    let mut state = [g(0); W];
    state[..8].copy_from_slice(&ten[..8]);
    let mut state = rescue(state);
    state[..2].copy_from_slice(&ten[8..]);
    let out = rescue(state);
    assert_eq!(
        hash_n_to_hash_no_pad(&ten),
        HashOut { e0: out[0], e1: out[1], e2: out[2], e3: out[3] }
    );
    // the sponge without padding permutes nothing on no input
    assert_eq!(
        hash_n_to_hash_no_pad(&[]),
        HashOut { e0: g(0), e1: g(0), e2: g(0), e3: g(0) }
    );
}

#[test]
fn compressing_two_digests() {
    let left = HashOut { e0: g(1), e1: g(2), e2: g(3), e3: g(4) };
    let right = HashOut { e0: g(5), e1: g(6), e2: g(7), e3: g(8) };
    let mut state = [g(0); W];
    for i in 0..8 {
        state[i] = g(i as u64 + 1);
    }
    let out = rescue(state);
    let expected = HashOut { e0: out[0], e1: out[1], e2: out[2], e3: out[3] };
    assert_eq!(RescueHash::two_to_one(left, right), expected);
    assert_ne!(RescueHash::two_to_one(right, left), expected);
    assert!(RescueHash::hash_eq(&left, &left));
    assert!(!RescueHash::hash_eq(&left, &right));
    assert!(!RescueHash::hash_eq(&left, &HashOut { e3: g(5), ..left }));
    assert!(RescueHash::hash_is_wf(&left));
    let stray = HashOut { e2: CrandallField(FIELD_ORDER), ..left };
    assert!(!RescueHash::hash_is_wf(&stray));
    assert!(all_hashes_wf::<G, RescueHash>(&[left, right]));
    assert!(all_hashes_wf::<G, RescueHash>(&[]));
    assert!(!all_hashes_wf::<G, RescueHash>(&[left, stray, right]));
}

fn alu_row(a: [u64; 16], b: [u64; 16], is_add: u64) -> [G; NUM_ALU_COLUMNS] {
    let mut row = [g(0); NUM_ALU_COLUMNS];
    row[IS_ADD] = g(is_add);
    for i in 0..N_LIMBS {
        row[ADD_INPUT_0[i]] = g(a[i]);
        row[ADD_INPUT_1[i]] = g(b[i]);
    }
    row
}

fn output(row: &[G; NUM_ALU_COLUMNS]) -> Vec<u64> {
    ADD_OUTPUT.iter().map(|&c| row[c].0).collect()
}

fn add_accumulators(row: &[G; NUM_ALU_COLUMNS]) -> Vec<G> {
    let mut consumer = ConstraintConsumer::new(vec![g(2), g(12345)]);
    eval_packed_generic(row, &mut consumer);
    consumer.accumulators()
}

#[test]
fn column_layout() {
    assert_eq!(N_LIMBS, 16);
    assert_eq!(LIMB_BITS, 16);
    assert_eq!(NUM_ALU_COLUMNS, 49);
    assert_eq!(IS_ADD, 0);
    for i in 0..16 {
        assert_eq!(ADD_INPUT_0[i], 1 + i);
        assert_eq!(ADD_INPUT_1[i], 17 + i);
        assert_eq!(ADD_OUTPUT[i], 33 + i);
    }
}

#[test]
fn generated_limbs_of_a_sum() {
    let mut a = [0u64; 16];
    let mut b = [0u64; 16];
    for i in 0..16 {
        a[i] = 1000 + i as u64;
        b[i] = 2000 * i as u64;
    }
    let mut row = alu_row(a, b, 1);
    let before = row;
    generate(&mut row);
    let expected: Vec<u64> = (0..16).map(|i| 1000 + 2001 * i as u64).collect();
    assert_eq!(output(&row), expected);
    // flag and summands stay
    assert_eq!(row[..33], before[..33]);
    // every limb is reduced to sixteen bits by itself
    let mut row = alu_row([0xffff; 16], [1; 16], 1);
    generate(&mut row);
    assert_eq!(output(&row), vec![0u64; 16]);
    let mut a = [0u64; 16];
    a[0] = 0xffff;
    a[1] = 7;
    let mut b = [0u64; 16];
    b[0] = 0xffff;
    b[1] = 8;
    let mut row = alu_row(a, b, 1);
    generate(&mut row);
    let mut expected = vec![0u64; 16];
    expected[0] = 0xfffe;
    expected[1] = 15;
    assert_eq!(output(&row), expected);
}

#[test]
fn addition_constraints() {
    let zero = vec![g(0), g(0)];
    // a sum without carries, as generated
    let mut a = [0u64; 16];
    let mut b = [0u64; 16];
    for i in 0..16 {
        a[i] = 3 * i as u64 + 1;
        b[i] = 0xff00 - 5 * i as u64;
    }
    let mut row = alu_row(a, b, 1);
    generate(&mut row);
    assert_eq!(add_accumulators(&row), zero);
    // a wrong output limb is caught where the row is flagged
    let mut wrong = row;
    wrong[ADD_OUTPUT[4]] = wrong[ADD_OUTPUT[4]].add(g(1));
    assert_ne!(add_accumulators(&wrong), zero);
    wrong[IS_ADD] = g(0);
    assert_eq!(add_accumulators(&wrong), zero);
    // a sum with carries through all limbs, the last carry dropped
    let mut row = alu_row([0xffff; 16], [0; 16], 1);
    row[ADD_INPUT_1[0]] = g(1);
    assert_eq!(add_accumulators(&row), zero);
    // the carry must arrive in the following limb
    let mut a = [0u64; 16];
    a[0] = 0xffff;
    let mut b = [0u64; 16];
    b[0] = 0xffff;
    let mut row = alu_row(a, b, 1);
    row[ADD_OUTPUT[0]] = g(0xfffe);
    assert_ne!(add_accumulators(&row), zero);
    row[ADD_OUTPUT[1]] = g(1);
    assert_eq!(add_accumulators(&row), zero);
}

#[test]
fn equality_constraints_by_hand() {
    // one limb: flag * t * (2^16 - t) with t = larger - smaller
    let mut consumer = ConstraintConsumer::new(vec![g(10)]);
    eval_packed_generic_are_equal(&mut consumer, g(3), &[g(9)], &[g(4)]);
    assert_eq!(consumer.accumulators(), vec![g(3 * 5 * (0x10000 - 5))]);
    // two limbs: the second sees the carry t / 2^16 of the first
    let mut consumer = ConstraintConsumer::new(vec![g(0)]);
    eval_packed_generic_are_equal(&mut consumer, g(1), &[g(0x10002), g(7)], &[g(2), g(5)]);
    // first difference 2^16, carry 1; second difference 1 + 7 - 5 = 3
    assert_eq!(consumer.accumulators(), vec![g(3 * (0x10000 - 3))]);
    let mut consumer = ConstraintConsumer::new(vec![g(7)]);
    eval_packed_generic_are_equal(&mut consumer, g(1), &[], &[]);
    assert_eq!(consumer.accumulators(), vec![g(0)]);
}

#[test]
fn constraint_consumer_folds_with_challenges() {
    let mut consumer = ConstraintConsumer::new(vec![g(2), g(3)]);
    assert_eq!(consumer.constraint_accs, vec![g(0), g(0)]);
    consumer.constraint(g(5));
    assert_eq!(consumer.constraint_accs, vec![g(5), g(5)]);
    consumer.constraint(g(7));
    assert_eq!(consumer.constraint_accs, vec![g(17), g(22)]);
    consumer.constraint(g(0));
    assert_eq!(consumer.alphas, vec![g(2), g(3)]);
    assert_eq!(consumer.accumulators(), vec![g(34), g(66)]);
    let empty = ConstraintConsumer::<G>::new(vec![]);
    assert_eq!(empty.accumulators(), Vec::<G>::new());
}

fn config() -> CircuitConfig {
    CircuitConfig {
        num_wires: 100,
        num_routed_wires: 50,
        cap_height: 1,
        rate_bits: 1,
        zero_knowledge: false,
    }
}

type Builder = CircuitBuilder<G, G, RescueHash>;

#[test]
fn arithmetized_consumer_agrees_with_native_one() {
    let mut builder = Builder::new(config());
    let alphas: Vec<ExtensionTarget> = (0..2).map(|_| builder.add_virtual_extension_target()).collect();
    let accs: Vec<ExtensionTarget> = (0..2).map(|_| builder.zero_extension()).collect();
    let first = builder.add_virtual_extension_target();
    let second = builder.add_virtual_extension_target();
    let mut consumer = RecursiveConstraintConsumer { alphas: alphas.clone(), constraint_accs: accs };
    consumer.constraint(&mut builder, first);
    consumer.constraint(&mut builder, second);
    assert_eq!(consumer.alphas, alphas);
    let inputs: Vec<Value<G, G, HashOut<G>>> =
        [2u64, 3, 5, 7].iter().map(|&x| Value::Ext(g(x))).collect();
    let witness = builder.generate_witness(&inputs).unwrap();
    assert_eq!(witness[consumer.constraint_accs[0].0], Value::Ext(g(17)));
    assert_eq!(witness[consumer.constraint_accs[1].0], Value::Ext(g(22)));
}

#[test]
fn arithmetized_addition_constraints_agree_with_native_ones() {
    let mut a = [0u64; 16];
    let mut b = [0u64; 16];
    for i in 0..16 {
        a[i] = 0x8000 + 11 * i as u64;
        b[i] = 0x9000 + 13 * i as u64;
    }
    let mut row = alu_row(a, b, 1);
    generate(&mut row);
    for flip in [false, true] {
        if flip {
            row[ADD_OUTPUT[15]] = g(1);
        }
        let mut builder = Builder::new(config());
        let alphas: Vec<ExtensionTarget> =
            (0..2).map(|_| builder.add_virtual_extension_target()).collect();
        let accs: Vec<ExtensionTarget> = (0..2).map(|_| builder.zero_extension()).collect();
        let targets: Vec<ExtensionTarget> =
            (0..NUM_ALU_COLUMNS).map(|_| builder.add_virtual_extension_target()).collect();
        let lv: [ExtensionTarget; NUM_ALU_COLUMNS] = targets.try_into().unwrap();
        let mut consumer = RecursiveConstraintConsumer { alphas, constraint_accs: accs };
        eval_ext_circuit(&mut builder, &lv, &mut consumer);
        let mut inputs: Vec<Value<G, G, HashOut<G>>> = vec![Value::Ext(g(2)), Value::Ext(g(12345))];
        inputs.extend(row.iter().map(|&x| Value::Ext(x)));
        let witness = builder.generate_witness(&inputs).unwrap();
        let native = add_accumulators(&row);
        assert_eq!(native.iter().any(|x| !x.is_zero()), true);
        for (target, value) in consumer.constraint_accs.iter().zip(native) {
            assert_eq!(witness[target.0], Value::Ext(value));
        }
    }
}

#[test]
fn wire_counts_of_gates() {
    let list = RandomAccessGate { vec_size: 4, d: 2 };
    assert_eq!(list.num_routed_wires(), Some(11));
    assert_eq!(list.num_wires(), Some(19));
    let list = RandomAccessGate { vec_size: 0, d: 1 };
    assert_eq!(list.num_routed_wires(), Some(2));
    assert_eq!(list.num_wires(), Some(2));
    let list = RandomAccessGate { vec_size: usize::MAX / 2, d: 4 };
    assert_eq!(list.num_routed_wires(), None);
    assert_eq!(list.num_wires(), None);
    let list = RandomAccessGate { vec_size: usize::MAX / 3, d: 1 };
    assert_eq!(list.num_routed_wires(), Some(usize::MAX / 3 + 2));
    assert_eq!(list.num_wires(), None);
    let gate = InterpolationGate { num_points: 4, d: 2 };
    assert_eq!(gate.num_routed_wires(), Some(16));
    assert_eq!(gate.num_wires(), Some(24));
    let gate = InterpolationGate { num_points: 0, d: 0 };
    assert_eq!(gate.num_routed_wires(), Some(0));
    assert_eq!(gate.num_wires(), Some(0));
    let gate = InterpolationGate { num_points: usize::MAX, d: 1 };
    assert_eq!(gate.num_routed_wires(), None);
    assert_eq!(gate.num_wires(), None);
}

#[test]
fn recursion_needs_enough_wires() {
    // dimension one, cap of two digests, arity four: lists of four entries
    // take 6 routed wires and 14 wires, interpolation 10 and 14
    let with = |num_wires: usize, num_routed_wires: usize, cap_height: usize| {
        Builder::new(CircuitConfig { num_wires, num_routed_wires, cap_height, ..config() })
    };
    assert!(with(14, 10, 1).check_recursion_config(4));
    assert!(!with(13, 10, 1).check_recursion_config(4));
    assert!(!with(14, 9, 1).check_recursion_config(4));
    assert!(with(100, 50, 1).check_recursion_config(4));
    // a cap of eight digests asks for lists of eight entries: 10 routed, 26 wires
    assert!(with(26, 10, 3).check_recursion_config(4));
    assert!(!with(25, 10, 3).check_recursion_config(4));
    // a cap that no machine word counts
    assert!(!with(usize::MAX, usize::MAX, 64).check_recursion_config(4));
    assert!(!with(usize::MAX, usize::MAX, 200).check_recursion_config(4));
    assert!(!with(usize::MAX, usize::MAX, 1).check_recursion_config(usize::MAX));
    // the largest reduction decides
    let params = |arities: &[usize]| FriParams {
        config: FriConfig { rate_bits: 1, cap_height: 1, proof_of_work_bits: 0, num_query_rounds: 1 },
        hiding: false,
        degree_bits: 6,
        reduction_arity_bits: arities.to_vec(),
    };
    assert!(with(14, 10, 1).check_recursion_fits(&params(&[1, 2, 1])));
    assert!(with(14, 10, 1).check_recursion_fits(&params(&[2])));
    assert!(!with(14, 10, 1).check_recursion_fits(&params(&[1, 3])));
    assert!(with(26, 18, 1).check_recursion_fits(&params(&[1, 3])));
    assert!(!with(26, 17, 1).check_recursion_fits(&params(&[3, 1])));
    // without reductions nothing is looked up or interpolated
    assert!(with(0, 0, 1).check_recursion_fits(&params(&[])));
}

#[test]
fn partial_witness_keeps_what_was_set() {
    let mut witness = PartialWitness::<G>::new();
    let a = Wire { gate: 1, input: 2 };
    let b = Wire { gate: 2, input: 1 };
    assert_eq!(witness.try_get_wire(a), None);
    witness.set_wire(a, g(5));
    assert_eq!(witness.try_get_wire(a), Some(g(5)));
    assert_eq!(witness.get_wire(a), g(5));
    assert_eq!(witness.try_get_wire(b), None);
    witness.set_wire(b, g(6));
    assert_eq!(witness.get_wire(a), g(5));
    assert_eq!(witness.get_wire(b), g(6));
    assert_eq!(witness.try_get_wire(Wire { gate: 1, input: 1 }), None);
}

#[test]
fn parameters_of_a_run() {
    let params = FriParams {
        config: FriConfig { rate_bits: 3, cap_height: 2, proof_of_work_bits: 5, num_query_rounds: 7 },
        hiding: false,
        degree_bits: 10,
        reduction_arity_bits: vec![4, 2, 1],
    };
    assert_eq!(params.total_arities(), 7);
    assert_eq!(params.max_arity_bits(), Some(4));
    assert_eq!(params.lde_bits(), 13);
    assert_eq!(params.lde_size(), 8192);
    assert_eq!(params.final_poly_bits(), 3);
    assert_eq!(params.final_poly_len(), 8);
    let plain = FriParams { reduction_arity_bits: vec![], ..params.clone() };
    assert_eq!(plain.total_arities(), 0);
    assert_eq!(plain.max_arity_bits(), None);
    assert_eq!(plain.final_poly_len(), 1024);
    let late = FriParams { reduction_arity_bits: vec![1, 1, 3], ..params };
    assert_eq!(late.max_arity_bits(), Some(3));
}

#[test]
fn bit_reversal_by_size() {
    for log in 0..=6usize {
        let input: Vec<usize> = (0..(1usize << log)).map(|i| i * i + 1).collect();
        let expected = reverse_index_bits(&input);
        assert_eq!(reverse_index_bits_small(&input, log), expected);
        let mut in_place = input.clone();
        reverse_index_bits_in_place_small(&mut in_place, log);
        assert_eq!(in_place, expected);
    }
    for log in 6..=9usize {
        let input: Vec<usize> = (0..(1usize << log)).map(|i| i * i + 1).collect();
        let expected = reverse_index_bits(&input);
        assert_eq!(reverse_index_bits_large(&input, log), expected);
        let mut in_place = input.clone();
        reverse_index_bits_in_place_large(&mut in_place, log);
        assert_eq!(in_place, expected);
        assert_ne!(in_place, input);
    }
}

#[test]
fn polynomial_values_by_point() {
    let polys = vec![
        PolynomialValues { values: vec![g(1), g(2), g(3), g(4)] },
        PolynomialValues { values: vec![g(5), g(6), g(7), g(8)] },
    ];
    assert_eq!(
        transpose_poly_values(polys),
        vec![vec![g(1), g(5)], vec![g(2), g(6)], vec![g(3), g(7)], vec![g(4), g(8)]]
    );
    let single = vec![PolynomialValues::<G> { values: vec![] }];
    assert_eq!(transpose_poly_values(single), Vec::<Vec<G>>::new());
}
