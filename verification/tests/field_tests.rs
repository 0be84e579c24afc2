use fri_verifier::field::crandall_field::{CrandallField, FIELD_ORDER};
use fri_verifier::field::extension_field::{flatten, FieldExtension, Frobenius};
use fri_verifier::field::field_types::{
    all_canonical, Field, FieldOps, Powers, PrimeField, PrimeFieldOps, Sample,
};
use fri_verifier::field::interpolation::{barycentric_weights, interpolate, try_interpolate};
use fri_verifier::field::modular::{add_mod_u64, inverse_mod_u64, mul_mod_u64, neg_mod_u64};
use fri_verifier::polynomial::polynomial::PolynomialCoeffs;
use fri_verifier::util::reducing::ReducingFactor;
use num::bigint::BigUint;

type F = CrandallField;

fn el(n: u64) -> F {
    F::from_canonical_u64(n)
}

const ROOT_OF_ORDER_FOUR: u64 = 6183774639018825925;

#[test]
fn modular_arithmetic_on_small_moduli() {
    assert_eq!(add_mod_u64(5, 7, 10), 2);
    assert_eq!(add_mod_u64(u64::MAX - 1, u64::MAX - 1, u64::MAX), u64::MAX - 2);
    assert_eq!(neg_mod_u64(0, 7), 0);
    assert_eq!(neg_mod_u64(3, 7), 4);
    assert_eq!(mul_mod_u64(6, 7, 10), 2);
    assert_eq!(mul_mod_u64(u64::MAX - 1, u64::MAX - 1, u64::MAX), 1);
    assert_eq!(inverse_mod_u64(3, 10), Some(7));
    assert_eq!(inverse_mod_u64(4, 10), None);
    assert_eq!(inverse_mod_u64(0, 10), None);
    assert_eq!(inverse_mod_u64(1, 2), Some(1));
    assert_eq!(inverse_mod_u64(2, FIELD_ORDER), Some(9223372035646816257));
}

#[test]
fn field_constants() {
    assert_eq!(FIELD_ORDER, 18446744071293632513);
    assert_eq!(F::zero(), CrandallField(0));
    assert_eq!(F::one(), CrandallField(1));
    assert_eq!(F::two(), CrandallField(2));
    assert_eq!(F::neg_one(), CrandallField(FIELD_ORDER - 1));
    assert_eq!(F::characteristic(), FIELD_ORDER);
    assert_eq!(F::order(), BigUint::from(FIELD_ORDER));
    assert_eq!(F::order_u64(), FIELD_ORDER);
    assert_eq!(F::two_adicity(), 28);
    assert_eq!(F::multiplicative_group_generator(), CrandallField(5));
    assert_eq!(F::coset_shift(), CrandallField(5));
    assert_eq!(F::power_of_two_generator(), CrandallField(10281950781551402419));
    assert_eq!(F::bits(), 64);
}

#[test]
fn ring_operations_wrap_at_the_order() {
    let top = el(FIELD_ORDER - 1);
    assert_eq!(top.add(el(1)), el(0));
    assert_eq!(top.add(top), el(FIELD_ORDER - 2));
    assert_eq!(el(0).neg(), el(0));
    assert_eq!(el(1).neg(), top);
    assert_eq!(top.mul(top), el(1));
    assert_eq!(el(3).sub(el(5)), el(FIELD_ORDER - 2));
    assert_eq!(el(1 << 32).mul(el(1 << 32)), el(2415919103));
    assert_eq!(el(7).double(), el(14));
    assert_eq!(el(7).square(), el(49));
    assert_eq!(el(7).cube(), el(343));
    assert_eq!(el(7).multiply_accumulate(el(3), el(5)), el(22));
    assert!(el(0).is_zero() && !el(1).is_zero());
    assert!(el(1).is_nonzero() && !el(0).is_nonzero());
    assert!(el(1).is_one() && !el(2).is_one());
    assert!(el(5).equals(&el(5)) && !el(5).equals(&el(6)));
    assert_eq!(el(7).add_one(), el(8));
    assert_eq!(el(0).sub_one(), top);
    assert_eq!(top.add_canonical_u64(3), el(2));
    assert_eq!(el(2).sub_canonical_u64(3), top);
}

#[test]
fn conversions_from_integers() {
    assert_eq!(F::from_canonical_u32(77), el(77));
    assert_eq!(F::from_canonical_usize(78), el(78));
    assert_eq!(F::from_bool(true), el(1));
    assert_eq!(F::from_bool(false), el(0));
    assert_eq!(F::from_noncanonical_u64(FIELD_ORDER), el(0));
    assert_eq!(F::from_noncanonical_u64(u64::MAX), el(2415919102));
    assert_eq!(F::from_noncanonical_u128(1u128 << 64), el(2415919103));
    assert_eq!(F::from_noncanonical_u96((0, 1)), el(2415919103));
    assert_eq!(F::from_noncanonical_u96((5, 2)), el(2 * 2415919103 + 5));
    assert_eq!(F::from_noncanonical_u96((FIELD_ORDER, 0)), el(0));
    assert_eq!(el(12345).to_canonical_u64(), 12345);
    assert_eq!(el(12345).to_noncanonical_u64() % FIELD_ORDER, 12345);
}

#[test]
fn inverses() {
    assert_eq!(el(0).try_inverse(), None);
    assert_eq!(el(1).try_inverse(), Some(el(1)));
    assert_eq!(el(2).try_inverse(), Some(el(9223372035646816257)));
    assert_eq!(el(2).inverse(), el(9223372035646816257));
    for x in [3u64, 5, 1 << 40, FIELD_ORDER - 1, 10281950781551402419] {
        assert_eq!(el(x).mul(el(x).inverse()), el(1));
    }
    assert_eq!(el(6).div(el(3)), el(2));
    assert_eq!(el(1).div(el(2)).mul(el(2)), el(1));
}

#[test]
fn batch_inverse_agrees_with_single_inverses() {
    assert_eq!(F::batch_multiplicative_inverse(&[]), Vec::<F>::new());
    assert_eq!(F::batch_multiplicative_inverse(&[el(2)]), vec![el(9223372035646816257)]);
    for n in [2usize, 3, 4, 5, 9] {
        let xs: Vec<F> = (0..n as u64).map(|i| el(3 * i + 2)).collect();
        let expected: Vec<F> = xs.iter().map(|x| x.inverse()).collect();
        assert_eq!(F::batch_multiplicative_inverse(&xs), expected);
    }
}

#[test]
fn inverse_of_powers_of_two() {
    assert_eq!(F::inverse_2exp(0), el(1));
    assert_eq!(F::inverse_2exp(1), el(9223372035646816257));
    assert_eq!(F::inverse_2exp(28), el(18446744002574155786));
    for exp in [0usize, 1, 5, 27, 28, 29, 56, 57, 64, 100, 123] {
        assert_eq!(F::inverse_2exp(exp).mul(el(2).exp_u64(exp as u64)), el(1));
    }
}

#[test]
fn powers_by_integers() {
    assert_eq!(el(3).exp_u64(0), el(1));
    assert_eq!(el(0).exp_u64(0), el(1));
    assert_eq!(el(3).exp_u64(1), el(3));
    assert_eq!(el(3).exp_u64(5), el(243));
    assert_eq!(el(2).exp_u64(64), el(2415919103));
    assert_eq!(el(5).exp_u64(FIELD_ORDER - 1), el(1));
    assert_eq!(el(3).exp_power_of_2(0), el(3));
    assert_eq!(el(3).exp_power_of_2(3), el(6561));
    assert_eq!(el(2).exp_power_of_2(6), el(2415919103));
}

#[test]
fn powers_by_large_integers() {
    assert_eq!(el(3).exp_biguint(&BigUint::from(0u32)), el(1));
    assert_eq!(el(3).exp_biguint(&BigUint::from(5u32)), el(243));
    assert_eq!(el(7).exp_biguint(&BigUint::from(u64::MAX)), el(7).exp_u64(u64::MAX));
    // 2^64 + 3: one digit more than a machine word
    let big = (BigUint::from(1u32) << 64usize) + BigUint::from(3u32);
    let expected = el(7).exp_power_of_2(64).mul(el(343));
    assert_eq!(el(7).exp_biguint(&big), expected);
    // the exponent may exceed the group order
    let twice = BigUint::from(FIELD_ORDER - 1) * 2u32 + BigUint::from(1u32);
    assert_eq!(el(7).exp_biguint(&twice), el(7));
}

#[test]
fn monomial_permutations_and_roots() {
    assert!(!F::is_monomial_permutation_u64(0));
    assert!(F::is_monomial_permutation_u64(1));
    assert!(!F::is_monomial_permutation_u64(2));
    assert!(F::is_monomial_permutation_u64(3));
    assert!(!F::is_monomial_permutation_u64(4));
    assert!(F::is_monomial_permutation_u64(5));
    assert!(F::is_monomial_permutation_u64(7));
    // the odd part of the group order
    assert!(!F::is_monomial_permutation_u64(68719476727));
    assert_eq!(el(8).cube_root(), el(2));
    assert_eq!(el(0).cube_root(), el(0));
    for x in [1u64, 2, 12345, FIELD_ORDER - 1] {
        assert_eq!(el(x).cube_root().cube(), el(x));
        assert_eq!(el(x).kth_root_u64(3), el(x).cube_root());
        assert_eq!(el(x).kth_root_u64(5).exp_u64(5), el(x));
        assert_eq!(el(x).kth_root_u64(7).exp_u64(7), el(x));
        assert_eq!(el(x).kth_root_u64(1), el(x));
    }
}

#[test]
fn roots_of_unity_and_subgroups() {
    assert_eq!(F::primitive_root_of_unity(0), el(1));
    assert_eq!(F::primitive_root_of_unity(1), el(FIELD_ORDER - 1));
    assert_eq!(F::primitive_root_of_unity(2), el(ROOT_OF_ORDER_FOUR));
    assert_eq!(F::primitive_root_of_unity(28), F::power_of_two_generator());
    for n_log in 0..=28usize {
        let root = F::primitive_root_of_unity(n_log);
        assert_eq!(root.exp_power_of_2(n_log), el(1));
        if n_log > 0 {
            assert_eq!(root.exp_power_of_2(n_log - 1), el(FIELD_ORDER - 1));
        }
    }
    let i = el(ROOT_OF_ORDER_FOUR);
    let four = vec![el(1), i, el(FIELD_ORDER - 1), i.neg()];
    assert_eq!(F::two_adic_subgroup(2), four);
    assert_eq!(F::two_adic_subgroup(0), vec![el(1)]);
    assert_eq!(F::cyclic_subgroup_known_order(i, 4), four);
    assert_eq!(F::cyclic_subgroup_known_order(i, 0), Vec::<F>::new());
    assert_eq!(F::cyclic_subgroup_known_order(el(2), 3), vec![el(1), el(2), el(4)]);
    assert_eq!(F::cyclic_subgroup_unknown_order(i), four);
    assert_eq!(F::cyclic_subgroup_unknown_order(el(1)), vec![el(1)]);
    assert_eq!(F::cyclic_subgroup_unknown_order(F::primitive_root_of_unity(5)).len(), 32);
    assert_eq!(F::generator_order(el(1)), 1);
    assert_eq!(F::generator_order(el(FIELD_ORDER - 1)), 2);
    assert_eq!(F::generator_order(i), 4);
    assert_eq!(F::generator_order(F::primitive_root_of_unity(10)), 1024);
    assert_eq!(
        F::cyclic_subgroup_coset_known_order(i, el(5), 4),
        vec![el(5), i.mul(el(5)), el(FIELD_ORDER - 5), i.neg().mul(el(5))]
    );
}

#[test]
fn powers_iterate_from_one() {
    let mut powers = el(3).powers();
    assert_eq!(powers.next(), Some(el(1)));
    assert_eq!(powers.next(), Some(el(3)));
    assert_eq!(powers.next(), Some(el(9)));
    assert_eq!(powers.base, el(3));
    assert_eq!(powers.current, el(27));
    let mapped = powers.repeated_frobenius::<F>(3);
    assert_eq!(mapped.base, el(3));
    assert_eq!(mapped.current, el(27));
    let mut zero = Powers { base: el(0), current: el(1) };
    assert_eq!(zero.next(), Some(el(1)));
    assert_eq!(zero.next(), Some(el(0)));
}

#[test]
fn random_elements_are_canonical() {
    let mut seen = std::collections::HashSet::new();
    for _ in 0..200 {
        let x = F::rand();
        assert!(x.0 < FIELD_ORDER);
        seen.insert(x.0);
    }
    // two hundred draws from a field of this size do not repeat
    assert!(seen.len() > 190);
    let v = F::rand_vec(50);
    assert_eq!(v.len(), 50);
    assert!(v.iter().all(|x| x.0 < FIELD_ORDER));
    assert_eq!(F::rand_vec(0), Vec::<F>::new());
    let a = F::rand_arr::<7>();
    assert!(a.iter().all(|x| x.0 < FIELD_ORDER));
    assert!(a.iter().any(|x| x.0 != a[0].0));
}

#[test]
fn field_as_its_own_extension() {
    assert_eq!(<F as FieldExtension<F>>::dimension(), 1);
    assert_eq!(<F as FieldExtension<F>>::from_basefield(el(9)), el(9));
    assert_eq!(FieldExtension::<F>::to_basefield_array(&el(9)), vec![el(9)]);
    assert_eq!(flatten::<F, F>(&[el(1), el(2), el(3)]), vec![el(1), el(2), el(3)]);
    assert_eq!(flatten::<F, F>(&[]), Vec::<F>::new());
    assert_eq!(Frobenius::<F>::repeated_frobenius(&el(9), 0), el(9));
    assert_eq!(Frobenius::<F>::repeated_frobenius(&el(9), 5), el(9));
}

#[test]
fn polynomial_evaluation() {
    // 4 + 3 x + 2 x^2
    let poly = PolynomialCoeffs::new(vec![el(4), el(3), el(2)]);
    assert_eq!(poly.len(), 3);
    assert_eq!(poly.eval(el(0)), el(4));
    assert_eq!(poly.eval(el(1)), el(9));
    assert_eq!(poly.eval(el(10)), el(234));
    assert_eq!(PolynomialCoeffs::<F>::new(vec![]).eval(el(10)), el(0));
    assert_eq!(PolynomialCoeffs::new(vec![el(7)]).eval(el(10)), el(7));
}

#[test]
fn interpolation_through_points() {
    // x^2 + 1 through three points
    let points = [(el(1), el(2)), (el(2), el(5)), (el(4), el(17))];
    let weights = barycentric_weights(&points);
    // 1 / ((1 - 2)(1 - 4)), 1 / ((2 - 1)(2 - 4)), 1 / ((4 - 1)(4 - 2))
    assert_eq!(weights, vec![el(3).inverse(), el(2).inverse().neg(), el(6).inverse()]);
    assert_eq!(interpolate(&points, el(3), &weights), el(10));
    assert_eq!(interpolate(&points, el(0), &weights), el(1));
    assert_eq!(interpolate(&points, el(100), &weights), el(10001));
    // at a node the value is handed out
    assert_eq!(interpolate(&points, el(2), &weights), el(5));
    assert_eq!(try_interpolate(&points, el(3)), Some(el(10)));
    assert_eq!(try_interpolate(&points, el(4)), Some(el(17)));
    // a node that occurs twice has no weight
    let twice = [(el(1), el(2)), (el(1), el(5))];
    assert_eq!(try_interpolate(&twice, el(3)), None);
    // one point gives the constant
    assert_eq!(try_interpolate(&[(el(9), el(4))], el(3)), Some(el(4)));
}

#[test]
fn reducing_factor_is_a_power_sum() {
    let mut alpha = ReducingFactor::new(el(3));
    // 5 + 3 * 7 + 9 * 11
    assert_eq!(alpha.reduce(&[el(5), el(7), el(11)]), el(125));
    assert_eq!(alpha.count, 3);
    // every reduction starts with power zero again: 2 + 3 * 1
    assert_eq!(alpha.reduce(&[el(2), el(1)]), el(5));
    assert_eq!(alpha.count, 5);
    // shift multiplies by the power that the values so far took up: 3^5
    assert_eq!(alpha.shift(el(2)), el(486));
    assert_eq!(alpha.count, 0);
    assert_eq!(alpha.reduce(&[el(5), el(7)]), el(26));
    alpha.reset();
    assert_eq!(alpha.count, 0);
    assert_eq!(alpha.reduce(&[]), el(0));
    assert_eq!(alpha.reduce(&[el(4)]), el(4));
}

#[test]
fn canonical_representatives() {
    assert!(el(0).is_canonical());
    assert!(el(FIELD_ORDER - 1).is_canonical());
    assert!(!CrandallField(FIELD_ORDER).is_canonical());
    assert!(!CrandallField(u64::MAX).is_canonical());
    assert!(all_canonical::<F>(&[]));
    assert!(all_canonical(&[el(1), el(2)]));
    assert!(!all_canonical(&[el(1), CrandallField(FIELD_ORDER), el(2)]));
    assert!(!all_canonical(&[el(1), el(2), CrandallField(FIELD_ORDER)]));
}
