use fri_verifier::field::crandall_field::{CrandallField, FIELD_ORDER};
use fri_verifier::field::field_types::{Field, FieldOps, PrimeField};
use fri_verifier::poseidon::{
    constant_layer, full_rounds, mds_layer, mds_partial_layer_fast, mds_partial_layer_init,
    mds_row_shf, partial_rounds, partial_rounds_fast, poseidon, poseidon_fast, sbox_layer,
    PoseidonConstants, WIDTH,
};

type F = CrandallField;

fn f(n: u64) -> F {
    F::from_noncanonical_u64(n)
}

const EXPS: [u64; 12] = [0, 0, 1, 0, 3, 5, 1, 8, 12, 3, 16, 10];

/// Some numbers that look arbitrary.
fn numbers(seed: u64, n: usize) -> Vec<u64> {
    let mut x = seed;
    (0..n)
        .map(|_| {
            x = x.wrapping_mul(6364136223846793005).wrapping_add(1442695040888963407);
            x % FIELD_ORDER
        })
        .collect()
}

fn rows(seed: u64, n: usize) -> Vec<[u64; 11]> {
    (0..n).map(|k| numbers(seed + k as u64, 11).try_into().unwrap()).collect()
}

fn constants(half: usize, partial: usize) -> PoseidonConstants {
    PoseidonConstants {
        half_n_full_rounds: half,
        n_partial_rounds: partial,
        mds_matrix_exps: EXPS,
        all_round_constants: numbers(1, WIDTH * (2 * half + partial)),
        fast_partial_round_constants: numbers(2, partial),
        fast_partial_round_vs: rows(100, partial),
        fast_partial_round_w_hats: rows(200, partial),
        fast_partial_round_initial_matrix: rows(300, 11).try_into().unwrap(),
    }
}

fn state_from(seed: u64) -> [F; WIDTH] {
    let v: Vec<F> = numbers(seed, WIDTH).into_iter().map(f).collect();
    v.try_into().unwrap()
}

/// Entry of the circulant matrix in row `r` and column `c`.
fn mds(r: usize, c: usize) -> F {
    f(1 << EXPS[(c + r) % WIDTH])
}

#[test]
fn layers_by_hand() {
    let c = constants(2, 3);
    let x = state_from(7);
    let mut state = x;
    constant_layer(&mut state, 4, &c);
    for i in 0..WIDTH {
        assert_eq!(state[i], x[i].add(f(c.all_round_constants[i + 4 * WIDTH])));
    }
    let mut state = x;
    sbox_layer(&mut state);
    for i in 0..WIDTH {
        assert_eq!(state[i], x[i].mul(x[i]).mul(x[i]));
    }
    // a unit vector picks one entry of the row
    let mut unit = [0u64; WIDTH];
    unit[0] = 1;
    for r in 0..WIDTH {
        assert_eq!(mds_row_shf(r, &unit, &c), 1u128 << EXPS[r]);
    }
    let mut unit = [0u64; WIDTH];
    unit[5] = 3;
    assert_eq!(mds_row_shf(0, &unit, &c), 3 << 5);
    assert_eq!(mds_row_shf(2, &unit, &c), 3 << 8);
    assert_eq!(mds_row_shf(11, &unit, &c), 3 << 3);
    // the largest entries do not overflow
    let top = [u64::MAX; WIDTH];
    let sum: u128 = EXPS.iter().map(|&e| (u64::MAX as u128) << e).sum();
    assert_eq!(mds_row_shf(3, &top, &c), sum);
    let product = mds_layer(&x, &c);
    for r in 0..WIDTH {
        let mut expected = f(0);
        for col in 0..WIDTH {
            expected = expected.add(mds(r, col).mul(x[col]));
        }
        assert_eq!(product[r], expected);
    }
}

#[test]
fn sparse_layers_by_hand() {
    let c = constants(1, 2);
    let x = state_from(9);
    let start = mds_partial_layer_init(&x, &c);
    assert_eq!(start[0], x[0]);
    for r in 1..WIDTH {
        let mut expected = f(0);
        for col in 1..WIDTH {
            expected =
                expected.add(f(c.fast_partial_round_initial_matrix[r - 1][col - 1]).mul(x[col]));
        }
        assert_eq!(start[r], expected);
    }
    for round in 0..2 {
        let out = mds_partial_layer_fast(&x, round, &c);
        let mut d = f(1 << EXPS[0]).mul(x[0]);
        for i in 1..WIDTH {
            d = d.add(f(c.fast_partial_round_w_hats[round][i - 1]).mul(x[i]));
        }
        assert_eq!(out[0], d);
        for i in 1..WIDTH {
            assert_eq!(out[i], x[0].mul(f(c.fast_partial_round_vs[round][i - 1])).add(x[i]));
        }
    }
}

#[test]
fn permutation_is_the_composition_of_its_rounds() {
    let c = constants(2, 3);
    let x = state_from(11);
    let mut expected = x;
    let mut round = 0;
    for _ in 0..2 {
        constant_layer(&mut expected, round, &c);
        sbox_layer(&mut expected);
        expected = mds_layer(&expected, &c);
        round += 1;
    }
    for _ in 0..3 {
        constant_layer(&mut expected, round, &c);
        expected[0] = expected[0].cube();
        expected = mds_layer(&expected, &c);
        round += 1;
    }
    for _ in 0..2 {
        constant_layer(&mut expected, round, &c);
        sbox_layer(&mut expected);
        expected = mds_layer(&expected, &c);
        round += 1;
    }
    assert_eq!(poseidon(x, &c), expected);
    assert_ne!(poseidon(x, &c), x);
    assert_ne!(poseidon(state_from(12), &c), expected);

    // the parts advance the round counter
    let mut state = x;
    let mut counter = 0;
    full_rounds(&mut state, &mut counter, &c);
    assert_eq!(counter, 2);
    partial_rounds(&mut state, &mut counter, &c);
    assert_eq!(counter, 5);
    full_rounds(&mut state, &mut counter, &c);
    assert_eq!(counter, 7);
    assert_eq!(state, expected);

    // without rounds nothing happens
    assert_eq!(poseidon(x, &constants(0, 0)), x);
}

#[test]
fn sparse_form_is_the_composition_of_its_rounds() {
    let c = constants(1, 3);
    let x = state_from(13);
    let mut expected = x;
    constant_layer(&mut expected, 0, &c);
    sbox_layer(&mut expected);
    expected = mds_layer(&expected, &c);
    constant_layer(&mut expected, 1, &c);
    expected = mds_partial_layer_init(&expected, &c);
    for i in 0..2 {
        expected[0] = expected[0].cube().add(f(c.fast_partial_round_constants[i]));
        expected = mds_partial_layer_fast(&expected, i, &c);
    }
    expected[0] = expected[0].cube();
    expected = mds_partial_layer_fast(&expected, 2, &c);
    constant_layer(&mut expected, 4, &c);
    sbox_layer(&mut expected);
    expected = mds_layer(&expected, &c);
    assert_eq!(poseidon_fast(x, &c), expected);

    let mut state = x;
    let mut counter = 1;
    partial_rounds_fast(&mut state, &mut counter, &c);
    assert_eq!(counter, 4);
}

/// The solution `w` of `w * m = target` for an invertible matrix `m`, by
/// elimination on the transposed system.
fn solve(m: &[Vec<F>], target: &[F]) -> Vec<F> {
    let n = target.len();
    // rows of the augmented transposed system: sum_i w_i m[i][c] = target[c]
    let mut a: Vec<Vec<F>> = (0..n)
        .map(|c| {
            let mut row: Vec<F> = (0..n).map(|i| m[i][c]).collect();
            row.push(target[c]);
            row
        })
        .collect();
    for col in 0..n {
        let pivot = (col..n).find(|&r| a[r][col].is_nonzero()).unwrap();
        a.swap(col, pivot);
        let inv = a[col][col].inverse();
        for k in 0..=n {
            a[col][k] = a[col][k].mul(inv);
        }
        for r in 0..n {
            if r != col && a[r][col].is_nonzero() {
                let factor = a[r][col];
                for k in 0..=n {
                    let delta = factor.mul(a[col][k]);
                    a[r][k] = a[r][k].sub(delta);
                }
            }
        }
    }
    (0..n).map(|r| a[r][n]).collect()
}

#[test]
fn sparse_form_agrees_with_the_plain_one() {
    // With one partial round the sparse matrices that factor the circulant
    // matrix are found by solving one linear system.
    let mut c = constants(2, 1);
    let sub: Vec<Vec<F>> =
        (1..WIDTH).map(|r| (1..WIDTH).map(|col| mds(r, col)).collect()).collect();
    let first_row: Vec<F> = (1..WIDTH).map(|col| mds(0, col)).collect();
    let w_hat = solve(&sub, &first_row);
    for r in 1..WIDTH {
        for col in 1..WIDTH {
            c.fast_partial_round_initial_matrix[r - 1][col - 1] = mds(r, col).0;
        }
        c.fast_partial_round_vs[0][r - 1] = mds(r, 0).0;
        c.fast_partial_round_w_hats[0][r - 1] = w_hat[r - 1].0;
    }
    for seed in [1u64, 2, 3] {
        let x = state_from(seed);
        assert_eq!(poseidon_fast(x, &c), poseidon(x, &c));
    }
}
