use fri_verifier::field::crandall_field::{CrandallField, FIELD_ORDER};
use fri_verifier::field::extension_field::{flatten, FieldExtension, Frobenius};
use fri_verifier::field::field_types::{all_canonical, Field, FieldOps};
use fri_verifier::field::interpolation::try_interpolate;
use fri_verifier::field::quadratic::QuadraticCrandallField;
use fri_verifier::polynomial::polynomial::PolynomialCoeffs;
use fri_verifier::util::reducing::ReducingFactor;
use num::bigint::BigUint;

type F = CrandallField;
type Q = QuadraticCrandallField;

fn b(n: u64) -> F {
    F::from_canonical_u64(n)
}

fn q(c0: u64, c1: u64) -> Q {
    QuadraticCrandallField(b(c0), b(c1))
}

#[test]
fn quadratic_constants() {
    assert_eq!(Q::zero(), q(0, 0));
    assert_eq!(Q::one(), q(1, 0));
    assert_eq!(Q::two(), q(2, 0));
    assert_eq!(Q::neg_one(), q(FIELD_ORDER - 1, 0));
    assert_eq!(Q::characteristic(), FIELD_ORDER);
    assert_eq!(Q::order(), BigUint::from(FIELD_ORDER) * BigUint::from(FIELD_ORDER));
    assert_eq!(Q::two_adicity(), 29);
    assert_eq!(Q::multiplicative_group_generator(), q(3, 1));
    assert_eq!(Q::power_of_two_generator(), q(0, 7889429148549342301));
    assert_eq!(Q::from_canonical_u64(17), q(17, 0));
    assert_eq!(Q::from_noncanonical_u128(1u128 << 64), q(2415919103, 0));
    assert_eq!(<Q as FieldExtension<F>>::dimension(), 2);
    assert_eq!(<Q as FieldExtension<F>>::from_basefield(b(9)), q(9, 0));
    assert_eq!(q(4, 5).to_basefield_array(), vec![b(4), b(5)]);
    assert_eq!(flatten::<F, Q>(&[q(1, 2), q(3, 4)]), vec![b(1), b(2), b(3), b(4)]);
}

#[test]
fn quadratic_arithmetic_by_hand() {
    // X^2 = 3
    let x = q(0, 1);
    assert_eq!(x.mul(x), q(3, 0));
    // (1 + 2 X)(3 + 4 X) = 3 + 10 X + 8 X^2 = 27 + 10 X
    assert_eq!(q(1, 2).mul(q(3, 4)), q(27, 10));
    assert_eq!(q(1, 2).add(q(3, 4)), q(4, 6));
    assert_eq!(q(1, 2).sub(q(3, 4)), q(FIELD_ORDER - 2, FIELD_ORDER - 2));
    assert_eq!(q(1, 2).neg(), q(FIELD_ORDER - 1, FIELD_ORDER - 2));
    assert_eq!(q(0, 0).neg(), q(0, 0));
    // coordinates wrap at the order of the base field
    let top = FIELD_ORDER - 1;
    assert_eq!(q(top, top).add(q(1, 1)), q(0, 0));
    assert_eq!(q(top, top).mul(q(top, top)), q(4, 2));
    assert_eq!(q(5, 7).mul(Q::one()), q(5, 7));
    assert_eq!(q(5, 7).mul(Q::zero()), q(0, 0));
    assert_eq!(q(5, 7).square(), q(25 + 3 * 49, 70));
    assert!(q(5, 7).equals(&q(5, 7)));
    assert!(!q(5, 7).equals(&q(5, 8)));
    assert!(!q(5, 7).equals(&q(6, 7)));
    assert!(q(5, 7).is_canonical());
    assert!(!QuadraticCrandallField(CrandallField(5), CrandallField(FIELD_ORDER)).is_canonical());
    assert!(!QuadraticCrandallField(CrandallField(u64::MAX), CrandallField(0)).is_canonical());
    assert!(all_canonical(&[q(1, 2), q(3, 4)]));
}

#[test]
fn quadratic_inverses() {
    assert_eq!(Q::zero().try_inverse(), None);
    assert_eq!(Q::one().try_inverse(), Some(Q::one()));
    // 1 / X = X / 3
    let third = b(3).inverse();
    assert_eq!(q(0, 1).try_inverse(), Some(QuadraticCrandallField(b(0), third)));
    // 1 / (2 + X) = (2 - X) / (4 - 3) = 2 - X
    assert_eq!(q(2, 1).inverse(), q(2, FIELD_ORDER - 1));
    for (c0, c1) in [(1u64, 2u64), (0, 5), (7, 0), (FIELD_ORDER - 1, 12345), (1 << 40, 1 << 50)] {
        let x = q(c0, c1);
        assert_eq!(x.mul(x.inverse()), Q::one());
        assert_eq!(x.inverse().inverse(), x);
        assert_eq!(q(9, 4).div(x).mul(x), q(9, 4));
    }
    let xs = [q(1, 2), q(3, 4), q(0, 9), q(8, 0)];
    let expected: Vec<Q> = xs.iter().map(|x| x.inverse()).collect();
    assert_eq!(Q::batch_multiplicative_inverse(&xs), expected);
}

#[test]
fn quadratic_roots_of_unity() {
    let g = Q::power_of_two_generator();
    assert_eq!(g.exp_power_of_2(29), Q::one());
    assert_eq!(g.exp_power_of_2(28), Q::neg_one());
    assert_eq!(g.exp_power_of_2(1), q(10454523445950444044, 0));
    assert_eq!(Q::primitive_root_of_unity(29), g);
    assert_eq!(Q::primitive_root_of_unity(1), Q::neg_one());
    assert_eq!(Q::primitive_root_of_unity(0), Q::one());
    // from order 2^28 on the roots are those of the base field, up to the choice
    let root = Q::primitive_root_of_unity(2);
    assert_eq!(root.square(), Q::neg_one());
    assert_eq!(Q::generator_order(root), 4);
    assert_eq!(Q::two_adic_subgroup(2), vec![Q::one(), root, Q::neg_one(), root.neg()]);
    // the generator of the whole group: its order is that of the group
    let generator = Q::multiplicative_group_generator();
    let order = BigUint::from(FIELD_ORDER) * BigUint::from(FIELD_ORDER) - BigUint::from(1u32);
    assert_eq!(generator.exp_biguint(&order), Q::one());
    for prime in [2u64, 3, 7, 11, 53, 23831, 262147, 2762315674048163] {
        let cofactor = &order / BigUint::from(prime);
        assert_eq!(&cofactor * BigUint::from(prime), order);
        assert_ne!(generator.exp_biguint(&cofactor), Q::one());
    }
    assert_eq!(q(5, 7).exp_u64(3), q(5, 7).cube());
}

#[test]
fn quadratic_frobenius() {
    let x = q(5, 7);
    let conjugate = q(5, FIELD_ORDER - 7);
    assert_eq!(x.repeated_frobenius(0), x);
    assert_eq!(x.repeated_frobenius(1), conjugate);
    assert_eq!(x.repeated_frobenius(2), x);
    assert_eq!(x.repeated_frobenius(7), conjugate);
    // the automorphism is the power by the order of the base field
    assert_eq!(x.exp_u64(FIELD_ORDER), conjugate);
    // and fixes the base field
    assert_eq!(q(9, 0).repeated_frobenius(1), q(9, 0));
    // it maps the powers of an element to those of its image
    let mut powers = x.powers();
    powers.next();
    powers.next();
    let mapped = powers.repeated_frobenius::<F>(1);
    assert_eq!(mapped.base, conjugate);
    assert_eq!(mapped.current, conjugate.square());
    // the norm is the product with the conjugate
    assert_eq!(x.mul(conjugate), q(FIELD_ORDER - 122, 0));
}

#[test]
fn quadratic_polynomials() {
    // (1 + X) + (2 + 3 X) Y at Y = X: 1 + X + 2 X + 9 = 10 + 3 X
    let poly = PolynomialCoeffs::new(vec![q(1, 1), q(2, 3)]);
    assert_eq!(poly.eval(q(0, 1)), q(10, 3));
    let points = [(q(0, 1), q(10, 3)), (q(1, 0), q(3, 4)), (q(2, 2), poly.eval(q(2, 2)))];
    assert_eq!(try_interpolate(&points[..2], q(7, 7)), Some(poly.eval(q(7, 7))));
    assert_eq!(try_interpolate(&points, q(7, 7)), Some(poly.eval(q(7, 7))));
    let mut alpha = ReducingFactor::new(q(0, 1));
    // 1 + 2 X + 3 X^2 = 10 + 2 X
    assert_eq!(alpha.reduce(&[q(1, 0), q(2, 0), q(3, 0)]), q(10, 2));
}
