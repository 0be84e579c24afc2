//! The algebra the verifier computes in: a commutative ring with its units,
//! stated as a trait, and the operations derived from it.
use crate::field::biguint::{
    biguint_add, biguint_div_u64, biguint_from_u64, biguint_gcd, biguint_is_one, biguint_is_zero,
    biguint_mul_u64, biguint_rem, biguint_rem_u64, biguint_sub_u32, biguint_to_nat,
    biguint_to_u64_digits, digits_value, is_gcd, is_multiple,
};
use crate::field::random::random_below;
use crate::util::bits_u64;
use num::bigint::BigUint;
use vstd::arithmetic::power2::{lemma2_to64, lemma_pow2_pos, lemma_pow2_unfold, pow2};
use vstd::prelude::*;

verus! {

/// A finite field. The trait states the ring operations as spec functions, the
/// laws they obey as proof functions, and the executable operations against
/// both. A value is well formed (`wf`) when it is the canonical representative
/// of its element, so that equal elements are equal values.
pub trait Field: Sized + Copy {
    /// The value is the canonical representative of a field element.
    spec fn wf(self) -> bool;

    spec fn zero_spec() -> Self;

    spec fn one_spec() -> Self;

    spec fn add_spec(self, rhs: Self) -> Self;

    spec fn neg_spec(self) -> Self;

    spec fn mul_spec(self, rhs: Self) -> Self;

    /// The characteristic of the field.
    spec fn characteristic_spec() -> nat;

    /// The 2-adicity of the multiplicative group: the largest `t` for which a
    /// subgroup of order `2^t` is provided.
    spec fn two_adicity_spec() -> nat;

    /// Generator of the entire multiplicative group.
    spec fn multiplicative_group_generator_spec() -> Self;

    /// Generator of the multiplicative subgroup of order `2^two_adicity`.
    spec fn power_of_two_generator_spec() -> Self;

    /// The element that the integer `n` stands for.
    spec fn from_canonical_u64_spec(n: u64) -> Self;

    /// The number of elements of the field.
    spec fn order_spec() -> nat;

    /// The constants are well formed, and the integers 0 and 1 stand for the
    /// ring's zero and one.
    proof fn lemma_constants()
        ensures
            Self::zero_spec().wf(),
            Self::one_spec().wf(),
            Self::multiplicative_group_generator_spec().wf(),
            Self::power_of_two_generator_spec().wf(),
            Self::characteristic_spec() > 1,
            Self::order_spec() > 1,
            Self::two_adicity_spec() < 64,
            Self::from_canonical_u64_spec(0) == Self::zero_spec(),
            Self::from_canonical_u64_spec(1) == Self::one_spec(),
    ;

    /// Zero and one are distinct, and the two-adic subgroup is smaller than the
    /// characteristic.
    proof fn lemma_distinct_constants()
        ensures
            Self::zero_spec() != Self::one_spec(),
            pow2(Self::two_adicity_spec()) < Self::characteristic_spec(),
    ;

    /// The generator of the two-adic subgroup has an order that divides the
    /// subgroup's: squared `two_adicity` times it is one. The lemma hands out
    /// the successive squares.
    proof fn lemma_power_of_two_generator_order() -> (chain: Seq<Self>)
        ensures
            chain.len() == Self::two_adicity_spec() + 1,
            chain[0] == Self::power_of_two_generator_spec(),
            forall|i: int|
                0 <= i < Self::two_adicity_spec() ==> chain[i + 1] == (#[trigger] chain[i]).mul_spec(
                    chain[i],
                ),
            chain[Self::two_adicity_spec() as int] == Self::one_spec(),
    ;

    /// Every integer below the characteristic stands for a well-formed element.
    proof fn lemma_from_canonical_wf(n: u64)
        requires
            n < Self::characteristic_spec(),
        ensures
            Self::from_canonical_u64_spec(n).wf(),
    ;

    /// The operations stay within the well-formed values.
    proof fn lemma_closed(a: Self, b: Self)
        requires
            a.wf(),
            b.wf(),
        ensures
            a.add_spec(b).wf(),
            a.neg_spec().wf(),
            a.mul_spec(b).wf(),
    ;

    proof fn lemma_add_commutative(a: Self, b: Self)
        requires
            a.wf(),
            b.wf(),
        ensures
            a.add_spec(b) == b.add_spec(a),
    ;

    proof fn lemma_add_associative(a: Self, b: Self, c: Self)
        requires
            a.wf(),
            b.wf(),
            c.wf(),
        ensures
            a.add_spec(b).add_spec(c) == a.add_spec(b.add_spec(c)),
    ;

    proof fn lemma_add_zero(a: Self)
        requires
            a.wf(),
        ensures
            a.add_spec(Self::zero_spec()) == a,
    ;

    proof fn lemma_add_neg(a: Self)
        requires
            a.wf(),
        ensures
            a.add_spec(a.neg_spec()) == Self::zero_spec(),
    ;

    proof fn lemma_mul_commutative(a: Self, b: Self)
        requires
            a.wf(),
            b.wf(),
        ensures
            a.mul_spec(b) == b.mul_spec(a),
    ;

    proof fn lemma_mul_associative(a: Self, b: Self, c: Self)
        requires
            a.wf(),
            b.wf(),
            c.wf(),
        ensures
            a.mul_spec(b).mul_spec(c) == a.mul_spec(b.mul_spec(c)),
    ;

    proof fn lemma_mul_one(a: Self)
        requires
            a.wf(),
        ensures
            a.mul_spec(Self::one_spec()) == a,
    ;

    proof fn lemma_distributive(a: Self, b: Self, c: Self)
        requires
            a.wf(),
            b.wf(),
            c.wf(),
        ensures
            a.mul_spec(b.add_spec(c)) == a.mul_spec(b).add_spec(a.mul_spec(c)),
    ;

    fn zero() -> (r: Self)
        ensures
            r == Self::zero_spec(),
            r.wf(),
    ;

    fn one() -> (r: Self)
        ensures
            r == Self::one_spec(),
            r.wf(),
    ;

    fn characteristic() -> (r: u64)
        ensures
            r == Self::characteristic_spec(),
    ;

    fn order() -> (r: BigUint)
        ensures
            biguint_to_nat(r) == Self::order_spec(),
    ;

    fn two_adicity() -> (r: usize)
        ensures
            r == Self::two_adicity_spec(),
    ;

    fn multiplicative_group_generator() -> (r: Self)
        ensures
            r == Self::multiplicative_group_generator_spec(),
            r.wf(),
    ;

    fn power_of_two_generator() -> (r: Self)
        ensures
            r == Self::power_of_two_generator_spec(),
            r.wf(),
    ;

    fn add(self, rhs: Self) -> (r: Self)
        requires
            self.wf(),
            rhs.wf(),
        ensures
            r == self.add_spec(rhs),
            r.wf(),
    ;

    fn neg(self) -> (r: Self)
        requires
            self.wf(),
        ensures
            r == self.neg_spec(),
            r.wf(),
    ;

    fn mul(self, rhs: Self) -> (r: Self)
        requires
            self.wf(),
            rhs.wf(),
        ensures
            r == self.mul_spec(rhs),
            r.wf(),
    ;

    /// Whether the value is the canonical representative of an element.
    fn is_canonical(&self) -> (r: bool)
        ensures
            r == self.wf(),
    ;

    /// Whether two well-formed values are the same element.
    fn equals(&self, other: &Self) -> (r: bool)
        requires
            self.wf(),
            other.wf(),
        ensures
            r == (*self == *other),
    ;

    /// The multiplicative inverse, for the elements that have one.
    fn try_inverse(&self) -> (r: Option<Self>)
        requires
            self.wf(),
        ensures
            match r {
                Some(i) => i.wf() && self.mul_spec(i) == Self::one_spec(),
                None => forall|i: Self| i.wf() ==> #[trigger] self.mul_spec(i) != Self::one_spec(),
            },
    ;

    /// The element that an integer below the characteristic stands for.
    fn from_canonical_u64(n: u64) -> (r: Self)
        requires
            n < Self::characteristic_spec(),
        ensures
            r == Self::from_canonical_u64_spec(n),
            r.wf(),
    ;

    /// The element that `n` reduced modulo the characteristic stands for.
    fn from_noncanonical_u128(n: u128) -> (r: Self)
        ensures
            r == Self::from_canonical_u64_spec((n % (Self::characteristic_spec() as u128)) as u64),
            r.wf(),
    ;
}

/// A finite field of prime order less than 2^64, whose elements are the
/// integers below the order.
pub trait PrimeField: Field {
    /// The integer below the order that a well-formed element is.
    spec fn to_canonical_u64_spec(self) -> u64;

    /// Elements and integers below the order correspond one to one.
    proof fn lemma_canonical(a: Self)
        requires
            a.wf(),
        ensures
            a.to_canonical_u64_spec() < Self::order_spec(),
            Self::from_canonical_u64_spec(a.to_canonical_u64_spec()) == a,
    ;

    proof fn lemma_from_canonical(n: u64)
        requires
            n < Self::order_spec(),
        ensures
            Self::from_canonical_u64_spec(n).to_canonical_u64_spec() == n,
    ;

    /// The order of a prime field is its characteristic; the field has at least
    /// three elements.
    proof fn lemma_order()
        ensures
            Self::order_spec() == Self::characteristic_spec(),
            2 < Self::order_spec() <= u64::MAX,
    ;

    /// Sums and products are those of the integers, reduced modulo the order.
    proof fn lemma_arithmetic_canonical(a: Self, b: Self)
        requires
            a.wf(),
            b.wf(),
        ensures
            a.add_spec(b).to_canonical_u64_spec() == (a.to_canonical_u64_spec()
                + b.to_canonical_u64_spec()) % (Self::order_spec() as int),
            a.mul_spec(b).to_canonical_u64_spec() == (a.to_canonical_u64_spec()
                * b.to_canonical_u64_spec()) % (Self::order_spec() as int),
    ;

    /// The order of the two-adic subgroup divides that of the multiplicative
    /// group.
    proof fn lemma_two_adic_order()
        ensures
            (Self::order_spec() - 1) % (pow2(Self::two_adicity_spec()) as int) == 0,
    ;

    fn order_u64() -> (r: u64)
        ensures
            r == Self::order_spec(),
    ;

    fn to_canonical_u64(&self) -> (r: u64)
        requires
            self.wf(),
        ensures
            r == self.to_canonical_u64_spec(),
    ;

    /// Some integer that stands for the element; here the canonical one.
    fn to_noncanonical_u64(&self) -> (r: u64)
        requires
            self.wf(),
        ensures
            r as nat % Self::order_spec() == self.to_canonical_u64_spec(),
    ;

    fn from_noncanonical_u64(n: u64) -> (r: Self)
        ensures
            r == Self::from_canonical_u64_spec((n as nat % Self::order_spec()) as u64),
            r.wf(),
    ;
}

/// A prime field with the features needed of a base field of the argument
/// system.
pub trait RichField: PrimeField {

}

/// Difference of two elements.
pub open spec fn sub_spec<F: Field>(a: F, b: F) -> F {
    a.add_spec(b.neg_spec())
}

/// `a` raised to the power `n`.
pub open spec fn pow_spec<F: Field>(a: F, n: nat) -> F
    decreases n,
{
    if n == 0 {
        F::one_spec()
    } else {
        a.mul_spec(pow_spec(a, (n - 1) as nat))
    }
}

/// `i` is the multiplicative inverse of `a`.
pub open spec fn is_inverse<F: Field>(a: F, i: F) -> bool {
    i.wf() && a.mul_spec(i) == F::one_spec()
}

/// `a` has a multiplicative inverse.
pub open spec fn is_unit<F: Field>(a: F) -> bool {
    exists|i: F| is_inverse(a, i)
}

/// The multiplicative inverse of a unit.
pub open spec fn inverse_spec<F: Field>(a: F) -> F {
    choose|i: F| is_inverse(a, i)
}

/// Quotient of `a` by a unit `b`.
pub open spec fn div_spec<F: Field>(a: F, b: F) -> F {
    a.mul_spec(inverse_spec(b))
}

/// Every entry of the sequence is well formed.
pub open spec fn all_wf<F: Field>(s: Seq<F>) -> bool {
    forall|i: int| 0 <= i < s.len() ==> (#[trigger] s[i]).wf()
}

/// Every entry of the sequence is a unit.
pub open spec fn all_units<F: Field>(s: Seq<F>) -> bool {
    forall|i: int| 0 <= i < s.len() ==> is_unit(#[trigger] s[i])
}

/// The first `n` powers of `g`, each multiplied by `shift`.
pub open spec fn coset_spec<F: Field>(g: F, shift: F, n: nat) -> Seq<F> {
    Seq::new(n, |i: int| pow_spec(g, i as nat).mul_spec(shift))
}

/// The first `n` powers of `g`.
pub open spec fn powers_spec<F: Field>(g: F, n: nat) -> Seq<F> {
    Seq::new(n, |i: int| pow_spec(g, i as nat))
}

/// The root of unity of order `2^n_log` that the field provides.
pub open spec fn primitive_root_of_unity_spec<F: Field>(n_log: nat) -> F {
    pow_spec(F::power_of_two_generator_spec(), pow2((F::two_adicity_spec() - n_log) as nat))
}

/// `n` is the order of `g`: the least positive exponent that takes `g` to one.
pub open spec fn is_order_of<F: Field>(g: F, n: nat) -> bool {
    &&& n > 0
    &&& pow_spec(g, n) == F::one_spec()
    &&& forall|m: nat| 0 < m < n ==> #[trigger] pow_spec(g, m) != F::one_spec()
}

/// Some positive power of `g` is one.
pub open spec fn has_finite_order<F: Field>(g: F) -> bool {
    exists|n: nat| n > 0 && #[trigger] pow_spec(g, n) == F::one_spec()
}

/// The order of an element of finite order.
pub open spec fn element_order<F: Field>(g: F) -> nat {
    choose|n: nat| is_order_of(g, n)
}

/// An element with a positive power that is one has an order, at most that
/// exponent.
pub proof fn lemma_order_exists<F: Field>(g: F, n: nat)
    requires
        n > 0,
        pow_spec(g, n) == F::one_spec(),
    ensures
        is_order_of(g, element_order(g)),
        element_order(g) <= n,
    decreases n,
{
    if forall|m: nat| 0 < m < n ==> #[trigger] pow_spec(g, m) != F::one_spec() {
        assert(is_order_of(g, n));
    } else {
        let m = choose|m: nat| 0 < m < n && #[trigger] pow_spec(g, m) == F::one_spec();
        lemma_order_exists(g, m);
    }
    let ord = element_order(g);
    if ord > n {
        assert(pow_spec(g, n) != F::one_spec());
    }
}

/// The element two: one and one.
pub open spec fn two_spec<F: Field>() -> F {
    F::one_spec().add_spec(F::one_spec())
}

/// The integer below the order that inverts `2^e` modulo the order, where `2^e`
/// divides the order less one.
pub open spec fn small_inverse_2exp(p: nat, e: nat) -> nat {
    (p - (p - 1) / (pow2(e) as int)) as nat
}

/// In a prime field the power `2^e` is the integer `2^e` reduced modulo the
/// order.
pub proof fn lemma_pow_two_canonical<F: PrimeField>(e: nat)
    ensures
        pow_spec(two_spec::<F>(), e).wf(),
        pow_spec(two_spec::<F>(), e).to_canonical_u64_spec() == pow2(e) % F::order_spec(),
    decreases e,
{
    let p = F::order_spec();
    let two = two_spec::<F>();
    F::lemma_order();
    F::lemma_constants();
    F::lemma_closed(F::one_spec(), F::one_spec());
    lemma_pow_wf(two, e);
    F::lemma_from_canonical(1);
    F::lemma_arithmetic_canonical(F::one_spec(), F::one_spec());
    vstd::arithmetic::div_mod::lemma_small_mod(2, p);
    assert(two.to_canonical_u64_spec() == 2);
    if e == 0 {
        lemma2_to64();
        vstd::arithmetic::div_mod::lemma_small_mod(1, p);
    } else {
        let e1 = (e - 1) as nat;
        lemma_pow_two_canonical::<F>(e1);
        F::lemma_arithmetic_canonical(two, pow_spec(two, e1));
        lemma_pow2_unfold(e);
        vstd::arithmetic::div_mod::lemma_mul_mod_noop_right(2, pow2(e1) as int, p as int);
    }
}

/// Where `2^e` divides the order less one, `p - (p - 1) / 2^e` stands for the
/// inverse of `2^e`.
pub proof fn lemma_small_inverse_2exp<F: PrimeField>(e: nat)
    requires
        e <= F::two_adicity_spec(),
    ensures
        0 < (F::order_spec() - 1) / (pow2(e) as int) < F::order_spec(),
        0 < small_inverse_2exp(F::order_spec(), e) < F::order_spec(),
        is_inverse(
            pow_spec(two_spec::<F>(), e),
            F::from_canonical_u64_spec(small_inverse_2exp(F::order_spec(), e) as u64),
        ),
{
    let p = F::order_spec();
    let t = F::two_adicity_spec();
    let d = pow2(e);
    let c = small_inverse_2exp(p, e);
    F::lemma_order();
    F::lemma_constants();
    F::lemma_distinct_constants();
    F::lemma_two_adic_order();
    lemma_pow2_pos(e);
    lemma_pow2_pos(t);
    lemma_pow2_pos((t - e) as nat);
    // 2^e divides 2^t, which divides p - 1.
    vstd::arithmetic::power2::lemma_pow2_adds(e, (t - e) as nat);
    let q_t = (p - 1) / (pow2(t) as int);
    vstd::arithmetic::div_mod::lemma_fundamental_div_mod(p - 1, pow2(t) as int);
    let q = q_t * pow2((t - e) as nat);
    assert(p - 1 == d * q) by (nonlinear_arith)
        requires
            p - 1 == pow2(t) * q_t,
            pow2(t) == d * pow2((t - e) as nat),
            q == q_t * pow2((t - e) as nat),
    ;
    vstd::arithmetic::div_mod::lemma_div_multiples_vanish(q, d as int);
    assert(d * q == q * d) by (nonlinear_arith);
    assert((p - 1) / (d as int) == q);
    assert(q >= 1 && q <= p - 1) by (nonlinear_arith)
        requires
            p - 1 == d * q,
            d >= 1,
            p > 1,
            q >= 0 || q < 0,
    ;
    assert(c == p - q);
    // c * 2^e == p * (2^e - 1) + 1
    assert(c * d == p * (d - 1) + 1) by (nonlinear_arith)
        requires
            c == p - q,
            p - 1 == d * q,
    ;
    vstd::arithmetic::div_mod::lemma_mod_multiples_vanish(d - 1, 1, p as int);
    vstd::arithmetic::div_mod::lemma_small_mod(1, p);
    assert(p * (d - 1) == (d - 1) * p) by (nonlinear_arith);
    assert((c * d) as int % (p as int) == 1);
    let two_e = pow_spec(two_spec::<F>(), e);
    let inv = F::from_canonical_u64_spec(c as u64);
    lemma_pow_two_canonical::<F>(e);
    F::lemma_from_canonical_wf(c as u64);
    F::lemma_from_canonical(c as u64);
    F::lemma_arithmetic_canonical(two_e, inv);
    vstd::arithmetic::div_mod::lemma_mul_mod_noop_left(d as int, c as int, p as int);
    assert(d * c == c * d) by (nonlinear_arith);
    F::lemma_closed(two_e, inv);
    F::lemma_canonical(two_e.mul_spec(inv));
    assert(two_e.mul_spec(inv).to_canonical_u64_spec() == 1);
}

/// The product of inverses inverts the product.
pub proof fn lemma_inverse_mul<F: Field>(a: F, i: F, b: F, j: F)
    requires
        a.wf(),
        b.wf(),
        is_inverse(a, i),
        is_inverse(b, j),
    ensures
        is_inverse(a.mul_spec(b), i.mul_spec(j)),
{
    F::lemma_closed(i, j);
    lemma_mul_swap_inner(a, b, i, j);
    F::lemma_constants();
    lemma_one_mul(F::one_spec());
}

/// Product of the first `n` entries of `s`.
pub open spec fn prefix_product<F: Field>(s: Seq<F>, n: nat) -> F
    decreases n,
{
    if n == 0 {
        F::one_spec()
    } else {
        prefix_product(s, (n - 1) as nat).mul_spec(s[n - 1])
    }
}

/// The least `m` from `n` on, below `k`, for which `p + (p - 1) * m` is a
/// multiple of `k`; `k` where there is none.
pub open spec fn first_multiplier(p: nat, k: nat, n: nat) -> nat
    decreases k - n,
{
    if n >= k {
        k
    } else if (p + (p - 1) * n) % (k as int) == 0 {
        n
    } else {
        first_multiplier(p, k, n + 1)
    }
}

/// The exponent that takes `k`-th roots in a group of order `p - 1`: with `m`
/// the least multiplier that makes the division exact, `(p + (p - 1) * m) / k`,
/// reduced modulo `p - 1`.
pub open spec fn kth_root_exponent(p: nat, k: nat) -> nat {
    (((p + (p - 1) * first_multiplier(p, k, 0)) / (k as int)) % (p - 1)) as nat
}

/// The exponent that takes `k`-th roots inverts `k` modulo `p - 1`.
pub proof fn lemma_kth_root_exponent(p: nat, k: nat)
    requires
        p > 2,
        k > 0,
        first_multiplier(p, k, 0) < k,
    ensures
        ((kth_root_exponent(p, k) * k) as int) % ((p - 1) as int) == 1,
{
    let m = first_multiplier(p, k, 0);
    lemma_first_multiplier(p, k, 0);
    let numerator = (p + (p - 1) * m) as int;
    let ki = k as int;
    let q = numerator / ki;
    let modulus = (p - 1) as int;
    vstd::arithmetic::div_mod::lemma_fundamental_div_mod(numerator, ki);
    assert(q * ki == numerator) by (nonlinear_arith)
        requires
            numerator == ki * q + numerator % ki,
            numerator % ki == 0,
    ;
    // (q % modulus) * k == q * k == numerator == 1, modulo p - 1
    vstd::arithmetic::div_mod::lemma_mul_mod_noop_general(q, ki, modulus);
    assert(numerator == modulus * (m + 1) + 1) by (nonlinear_arith)
        requires
            numerator == p + (p - 1) * m,
            modulus == p - 1,
    ;
    vstd::arithmetic::div_mod::lemma_mod_multiples_vanish((m + 1) as int, 1, modulus);
    vstd::arithmetic::div_mod::lemma_small_mod(1, modulus as nat);
    assert((m + 1) * modulus == modulus * (m + 1)) by (nonlinear_arith);
}

/// The first multiplier, where there is one, makes the division exact, and
/// lies at or after the start of the search.
pub proof fn lemma_first_multiplier(p: nat, k: nat, n: nat)
    requires
        first_multiplier(p, k, n) < k,
    ensures
        n <= first_multiplier(p, k, n),
        (p + (p - 1) * first_multiplier(p, k, n)) % (k as int) == 0,
    decreases k - n,
{
    if n < k && (p + (p - 1) * n) % (k as int) != 0 {
        lemma_first_multiplier(p, k, n + 1);
    }
}

/// One times an element is the element.
pub proof fn lemma_one_mul<F: Field>(a: F)
    requires
        a.wf(),
    ensures
        F::one_spec().mul_spec(a) == a,
{
    F::lemma_constants();
    F::lemma_mul_commutative(F::one_spec(), a);
    F::lemma_mul_one(a);
}

/// Zero times an element is zero.
pub proof fn lemma_mul_zero<F: Field>(x: F)
    requires
        x.wf(),
    ensures
        x.mul_spec(F::zero_spec()) == F::zero_spec(),
        F::zero_spec().mul_spec(x) == F::zero_spec(),
{
    let z = F::zero_spec();
    let y = x.mul_spec(z);
    F::lemma_constants();
    F::lemma_closed(x, z);
    F::lemma_closed(y, y);
    // y == x * (0 + 0) == y + y, so 0 == (y + y) - y == y
    F::lemma_add_zero(z);
    F::lemma_distributive(x, z, z);
    F::lemma_add_neg(y);
    F::lemma_add_associative(y, y, y.neg_spec());
    F::lemma_add_zero(y);
    F::lemma_mul_commutative(x, z);
}

/// Powers of a well-formed element are well formed.
pub proof fn lemma_pow_wf<F: Field>(a: F, n: nat)
    requires
        a.wf(),
    ensures
        pow_spec(a, n).wf(),
    decreases n,
{
    F::lemma_constants();
    if n > 0 {
        lemma_pow_wf(a, (n - 1) as nat);
        F::lemma_closed(a, pow_spec(a, (n - 1) as nat));
    }
}

/// The first power of an element is the element.
pub proof fn lemma_pow_one<F: Field>(a: F)
    requires
        a.wf(),
    ensures
        pow_spec(a, 1) == a,
{
    assert(pow_spec(a, 1) == a.mul_spec(pow_spec(a, 0)));
    F::lemma_mul_one(a);
}

/// Exponents add under multiplication.
pub proof fn lemma_pow_add<F: Field>(a: F, m: nat, n: nat)
    requires
        a.wf(),
    ensures
        pow_spec(a, m + n) == pow_spec(a, m).mul_spec(pow_spec(a, n)),
    decreases m,
{
    lemma_pow_wf(a, n);
    if m == 0 {
        lemma_one_mul(pow_spec(a, n));
    } else {
        let m1 = (m - 1) as nat;
        lemma_pow_add(a, m1, n);
        lemma_pow_wf(a, m1);
        F::lemma_mul_associative(a, pow_spec(a, m1), pow_spec(a, n));
        assert(pow_spec(a, m + n) == a.mul_spec(pow_spec(a, (m + n - 1) as nat)));
        assert(m1 + n == m + n - 1);
    }
}

/// A power of a square is the power with twice the exponent.
pub proof fn lemma_pow_square<F: Field>(a: F, n: nat)
    requires
        a.wf(),
    ensures
        pow_spec(a.mul_spec(a), n) == pow_spec(a, 2 * n),
    decreases n,
{
    if n > 0 {
        let n1 = (n - 1) as nat;
        lemma_pow_square(a, n1);
        lemma_pow_add(a, 2, 2 * n1);
        lemma_pow_add(a, 1, 1);
        lemma_pow_one(a);
        assert(2 + 2 * n1 == 2 * n);
        assert(1 + 1 == 2);
        assert(pow_spec(a, 2) == a.mul_spec(a));
    }
}

/// A power of a power is the power with the product of the exponents.
pub proof fn lemma_pow_mul<F: Field>(a: F, m: nat, n: nat)
    requires
        a.wf(),
    ensures
        pow_spec(pow_spec(a, m), n) == pow_spec(a, m * n),
    decreases n,
{
    if n == 0 {
        assert(m * 0 == 0);
    } else {
        let n1 = (n - 1) as nat;
        lemma_pow_mul(a, m, n1);
        lemma_pow_add(a, m, m * n1);
        assert(m + m * n1 == m * n) by (nonlinear_arith)
            requires
                n1 == n - 1,
        ;
    }
}

/// The successive squares of `a` are its powers with exponents `2^i`.
pub proof fn lemma_squaring_chain<F: Field>(a: F, chain: Seq<F>, n: nat)
    requires
        a.wf(),
        n < chain.len(),
        chain[0] == a,
        forall|i: int| 0 <= i < chain.len() - 1 ==> chain[i + 1] == (#[trigger] chain[i]).mul_spec(chain[i]),
    ensures
        chain[n as int] == pow_spec(a, pow2(n)),
    decreases n,
{
    if n == 0 {
        lemma2_to64();
        lemma_pow_one(a);
    } else {
        lemma_squaring_chain(a, chain, (n - 1) as nat);
        let half = pow2((n - 1) as nat);
        lemma_pow_add(a, half, half);
        lemma_pow2_unfold(n);
        let prev = chain[n - 1];
        assert(chain[(n - 1) + 1] == prev.mul_spec(prev));
    }
}

/// The root of unity of order `2^k` that the field provides, raised to `2^k`,
/// is one.
pub proof fn lemma_root_of_unity_order<F: Field>(k: nat)
    requires
        k <= F::two_adicity_spec(),
    ensures
        pow_spec(primitive_root_of_unity_spec::<F>(k), pow2(k)) == F::one_spec(),
        primitive_root_of_unity_spec::<F>(k).wf(),
{
    let t = F::two_adicity_spec();
    let g = F::power_of_two_generator_spec();
    F::lemma_constants();
    let chain = F::lemma_power_of_two_generator_order();
    lemma_squaring_chain(g, chain, t);
    lemma_pow_mul(g, pow2((t - k) as nat), pow2(k));
    vstd::arithmetic::power2::lemma_pow2_adds((t - k) as nat, k);
    lemma_pow_wf(g, pow2((t - k) as nat));
}

/// An element has at most one inverse.
pub proof fn lemma_inverse_unique<F: Field>(a: F, i: F, j: F)
    requires
        a.wf(),
        is_inverse(a, i),
        is_inverse(a, j),
    ensures
        i == j,
{
    // i == i * (a * j) == (i * a) * j == j
    F::lemma_mul_associative(i, a, j);
    F::lemma_mul_commutative(i, a);
    F::lemma_mul_one(i);
    lemma_one_mul(j);
}

/// Whatever multiplies a unit to one is its inverse.
pub proof fn lemma_inverse_is<F: Field>(a: F, i: F)
    requires
        a.wf(),
        is_inverse(a, i),
    ensures
        is_unit(a),
        inverse_spec(a) == i,
        is_inverse(a, inverse_spec(a)),
{
    lemma_inverse_unique(a, i, inverse_spec(a));
}

/// The product of two units is a unit.
pub proof fn lemma_unit_mul<F: Field>(a: F, b: F)
    requires
        a.wf(),
        b.wf(),
        is_unit(a),
        is_unit(b),
    ensures
        is_unit(a.mul_spec(b)),
        a.mul_spec(b).wf(),
{
    let i = inverse_spec(a);
    let j = inverse_spec(b);
    F::lemma_closed(a, b);
    F::lemma_closed(i, j);
    // (a * b) * (i * j) == (a * i) * (b * j) == 1
    lemma_mul_swap_inner(a, b, i, j);
    F::lemma_constants();
    lemma_one_mul(F::one_spec());
    assert(is_inverse(a.mul_spec(b), i.mul_spec(j)));
}

/// `(a * b) * (c * d) == (a * c) * (b * d)`.
pub proof fn lemma_mul_swap_inner<F: Field>(a: F, b: F, c: F, d: F)
    requires
        a.wf(),
        b.wf(),
        c.wf(),
        d.wf(),
    ensures
        a.mul_spec(b).mul_spec(c.mul_spec(d)) == a.mul_spec(c).mul_spec(b.mul_spec(d)),
{
    F::lemma_closed(a, b);
    F::lemma_closed(c, d);
    F::lemma_closed(a, c);
    F::lemma_closed(b, d);
    F::lemma_closed(b, c);
    F::lemma_closed(c, b);
    // (a b)(c d) = a (b (c d)) = a ((b c) d) = a ((c b) d) = a (c (b d)) = (a c)(b d)
    F::lemma_mul_associative(a, b, c.mul_spec(d));
    F::lemma_mul_associative(b, c, d);
    F::lemma_mul_commutative(b, c);
    F::lemma_mul_associative(c, b, d);
    F::lemma_mul_associative(a, c, b.mul_spec(d));
}

/// A product of units is a unit.
pub proof fn lemma_prefix_product_unit<F: Field>(s: Seq<F>, n: nat)
    requires
        all_wf(s),
        all_units(s),
        n <= s.len(),
    ensures
        prefix_product(s, n).wf(),
        is_unit(prefix_product(s, n)),
    decreases n,
{
    F::lemma_constants();
    if n == 0 {
        F::lemma_mul_one(F::one_spec());
        assert(is_inverse(F::one_spec(), F::one_spec()));
    } else {
        lemma_prefix_product_unit(s, (n - 1) as nat);
        lemma_unit_mul(prefix_product(s, (n - 1) as nat), s[n - 1]);
    }
}

/// With `p * x` and its inverse `v` at hand, `p * v` inverts `x` and `x * v`
/// inverts `p`.
pub proof fn lemma_split_inverse<F: Field>(p: F, x: F, v: F)
    requires
        p.wf(),
        x.wf(),
        is_inverse(p.mul_spec(x), v),
    ensures
        is_inverse(x, p.mul_spec(v)),
        is_inverse(p, x.mul_spec(v)),
{
    F::lemma_closed(p, x);
    F::lemma_closed(p, v);
    F::lemma_closed(x, v);
    // x * (p * v) == (x * p) * v == (p * x) * v
    F::lemma_mul_associative(x, p, v);
    F::lemma_mul_commutative(x, p);
    // p * (x * v) == (p * x) * v
    F::lemma_mul_associative(p, x, v);
}

/// Whether every value is the canonical representative of an element.
pub fn all_canonical<F: Field>(values: &[F]) -> (r: bool)
    ensures
        r == all_wf(values@),
{
    let mut i: usize = 0;
    while i < values.len()
        invariant
            i <= values@.len(),
            forall|k: int| 0 <= k < i ==> (#[trigger] values@[k]).wf(),
        decreases values@.len() - i,
    {
        if !values[i].is_canonical() {
            return false;
        }
        i = i + 1;
    }
    true
}

/// An iterator over the powers of a base element `b`: `b^0, b^1, b^2, ...`.
#[derive(Debug)]
pub struct Powers<F: Field> {
    pub base: F,
    pub current: F,
}

impl<F: Field> Powers<F> {
    /// The state is well formed: both elements are.
    pub open spec fn wf(self) -> bool {
        self.base.wf() && self.current.wf()
    }

    /// Hands out the current power and moves on to the following one.
    pub fn next(&mut self) -> (r: Option<F>)
        requires
            old(self).wf(),
        ensures
            r == Some(old(self).current),
            final(self).base == old(self).base,
            final(self).current == old(self).current.mul_spec(old(self).base),
            final(self).wf(),
    {
        let result = self.current;
        self.current = self.current.mul(self.base);
        Some(result)
    }
}

/// The operations that every field has from its ring operations.
pub trait FieldOps: Field {
    fn two() -> (r: Self)
        ensures
            r == Self::one_spec().add_spec(Self::one_spec()),
            r.wf(),
    {
        Self::one().add(Self::one())
    }

    fn neg_one() -> (r: Self)
        ensures
            r == Self::one_spec().neg_spec(),
            r.wf(),
    {
        Self::one().neg()
    }

    fn sub(self, rhs: Self) -> (r: Self)
        requires
            self.wf(),
            rhs.wf(),
        ensures
            r == sub_spec(self, rhs),
            r.wf(),
    {
        self.add(rhs.neg())
    }

    fn is_zero(&self) -> (r: bool)
        requires
            self.wf(),
        ensures
            r == (*self == Self::zero_spec()),
    {
        let z = Self::zero();
        self.equals(&z)
    }

    fn is_nonzero(&self) -> (r: bool)
        requires
            self.wf(),
        ensures
            r == (*self != Self::zero_spec()),
    {
        !self.is_zero()
    }

    fn is_one(&self) -> (r: bool)
        requires
            self.wf(),
        ensures
            r == (*self == Self::one_spec()),
    {
        let o = Self::one();
        self.equals(&o)
    }

    fn double(&self) -> (r: Self)
        requires
            self.wf(),
        ensures
            r == self.add_spec(*self),
            r.wf(),
    {
        self.add(*self)
    }

    fn square(&self) -> (r: Self)
        requires
            self.wf(),
        ensures
            r == self.mul_spec(*self),
            r == pow_spec(*self, 2),
            r.wf(),
    {
        proof {
            lemma_pow_add(*self, 1, 1);
            lemma_pow_one(*self);
            assert(1 + 1 == 2);
        }
        self.mul(*self)
    }

    fn cube(&self) -> (r: Self)
        requires
            self.wf(),
        ensures
            r == pow_spec(*self, 3),
            r.wf(),
    {
        proof {
            lemma_pow_add(*self, 2, 1);
            lemma_pow_one(*self);
            assert(2 + 1 == 3);
        }
        self.square().mul(*self)
    }

    /// The multiplicative inverse of a unit.
    fn inverse(&self) -> (r: Self)
        requires
            self.wf(),
            is_unit(*self),
        ensures
            r == inverse_spec(*self),
            is_inverse(*self, r),
    {
        match self.try_inverse() {
            Some(i) => {
                proof {
                    lemma_inverse_is(*self, i);
                }
                i
            },
            None => {
                proof {
                    let w = inverse_spec(*self);
                    assert(is_inverse(*self, w));
                    assert(self.mul_spec(w) != Self::one_spec());
                }
                Self::zero()
            },
        }
    }

    /// Quotient by a unit.
    fn div(self, rhs: Self) -> (r: Self)
        requires
            self.wf(),
            rhs.wf(),
            is_unit(rhs),
        ensures
            r == div_spec(self, rhs),
            r.wf(),
    {
        let i = rhs.inverse();
        self.mul(i)
    }

    /// The inverses of the entries of `x`, with one inversion and three
    /// multiplications per entry (Montgomery's trick).
    fn batch_multiplicative_inverse(x: &[Self]) -> (r: Vec<Self>)
        requires
            all_wf(x@),
            all_units(x@),
        ensures
            r@.len() == x@.len(),
            forall|i: int| 0 <= i < r@.len() ==> #[trigger] r@[i] == inverse_spec(x@[i]),
            all_wf(r@),
    {
        let n = x.len();
        if n == 0 {
            return Vec::new();
        }
        if n == 1 {
            let i0 = x[0].inverse();
            let mut single: Vec<Self> = Vec::new();
            single.push(i0);
            return single;
        }
        // Fill buf with the cumulative products of x.
        let mut buf: Vec<Self> = Vec::with_capacity(n);
        let mut cumul_prod = x[0];
        buf.push(cumul_prod);
        proof {
            assert(prefix_product(x@, 1) == prefix_product(x@, 0).mul_spec(x@[0]));
            lemma_one_mul(x@[0]);
        }
        let mut i: usize = 1;
        while i < n
            invariant
                1 <= i <= n,
                n == x@.len(),
                all_wf(x@),
                all_units(x@),
                buf@.len() == i,
                cumul_prod == prefix_product(x@, i as nat),
                cumul_prod.wf(),
                forall|k: int| 0 <= k < i ==> #[trigger] buf@[k] == prefix_product(x@, (k + 1) as nat),
            decreases n - i,
        {
            cumul_prod = cumul_prod.mul(x[i]);
            buf.push(cumul_prod);
            i = i + 1;
        }
        proof {
            lemma_prefix_product_unit(x@, n as nat);
            lemma_prefix_product_unit(x@, (n - 1) as nat);
        }
        // a_inv inverts the product of the first i + 1 entries; below i, buf
        // still holds the cumulative products.
        let mut a_inv = cumul_prod.inverse();
        proof {
            lemma_split_inverse(prefix_product(x@, (n - 1) as nat), x@[n - 1], a_inv);
            lemma_inverse_is(x@[n - 1], prefix_product(x@, (n - 1) as nat).mul_spec(a_inv));
        }
        let last = buf[n - 2].mul(a_inv);
        buf.set(n - 1, last);
        let mut i: usize = n - 2;
        while i >= 1
            invariant
                i <= n - 2,
                n >= 2,
                n == x@.len(),
                all_wf(x@),
                all_units(x@),
                buf@.len() == n,
                a_inv.wf(),
                is_inverse(prefix_product(x@, (i + 2) as nat), a_inv),
                forall|k: int| 0 <= k <= i ==> #[trigger] buf@[k] == prefix_product(x@, (k + 1) as nat),
                forall|k: int| i < k < n ==> #[trigger] buf@[k] == inverse_spec(x@[k]),
                forall|k: int| i < k < n ==> (#[trigger] buf@[k]).wf(),
            decreases i,
        {
            proof {
                lemma_prefix_product_unit(x@, (i + 1) as nat);
                lemma_prefix_product_unit(x@, i as nat);
                lemma_split_inverse(prefix_product(x@, (i + 1) as nat), x@[i + 1], a_inv);
                assert(prefix_product(x@, (i + 2) as nat) == prefix_product(
                    x@,
                    (i + 1) as nat,
                ).mul_spec(x@[i + 1]));
            }
            a_inv = x[i + 1].mul(a_inv);
            proof {
                assert(prefix_product(x@, (i + 1) as nat) == prefix_product(x@, i as nat).mul_spec(
                    x@[i as int],
                ));
                lemma_split_inverse(prefix_product(x@, i as nat), x@[i as int], a_inv);
                lemma_inverse_is(x@[i as int], prefix_product(x@, i as nat).mul_spec(a_inv));
            }
            let entry = buf[i - 1].mul(a_inv);
            buf.set(i, entry);
            i = i - 1;
        }
        proof {
            // a_inv inverts x[0] * x[1]
            assert(prefix_product(x@, 2) == prefix_product(x@, 1).mul_spec(x@[1]));
            assert(prefix_product(x@, 1) == prefix_product(x@, 0).mul_spec(x@[0]));
            lemma_one_mul(x@[0]);
            lemma_split_inverse(x@[0], x@[1], a_inv);
            lemma_inverse_is(x@[0], x@[1].mul_spec(a_inv));
        }
        let first = x[1].mul(a_inv);
        buf.set(0, first);
        buf
    }

    /// The root of unity of order `2^n_log` that the field provides.
    fn primitive_root_of_unity(n_log: usize) -> (r: Self)
        requires
            n_log <= Self::two_adicity_spec(),
        ensures
            r == primitive_root_of_unity_spec::<Self>(n_log as nat),
            r.wf(),
    {
        let base = Self::power_of_two_generator();
        base.exp_power_of_2(Self::two_adicity() - n_log)
    }

    /// Computes a multiplicative subgroup whose order is known in advance.
    fn cyclic_subgroup_known_order(generator: Self, order: usize) -> (r: Vec<Self>)
        requires
            generator.wf(),
        ensures
            r@ == powers_spec(generator, order as nat),
            all_wf(r@),
    {
        let mut powers = generator.powers();
        let mut subgroup: Vec<Self> = Vec::with_capacity(order);
        let mut i: usize = 0;
        proof {
            Self::lemma_constants();
        }
        while i < order
            invariant
                i <= order,
                generator.wf(),
                powers.base == generator,
                powers.current == pow_spec(generator, i as nat),
                powers.wf(),
                subgroup@.len() == i,
                forall|k: int| 0 <= k < i ==> #[trigger] subgroup@[k] == pow_spec(generator, k as nat),
                forall|k: int| 0 <= k < i ==> (#[trigger] subgroup@[k]).wf(),
            decreases order - i,
        {
            proof {
                lemma_pow_wf(generator, i as nat);
                Self::lemma_mul_commutative(pow_spec(generator, i as nat), generator);
            }
            let p = powers.next();
            match p {
                Some(v) => {
                    subgroup.push(v);
                },
                None => {},
            }
            i = i + 1;
        }
        assert(subgroup@ =~= powers_spec(generator, order as nat));
        subgroup
    }

    /// The subgroup of order `2^n_log` generated by the root of unity of that
    /// order.
    fn two_adic_subgroup(n_log: usize) -> (r: Vec<Self>)
        requires
            n_log <= Self::two_adicity_spec(),
            n_log < usize::BITS,
        ensures
            r@ == powers_spec(primitive_root_of_unity_spec::<Self>(n_log as nat), pow2(n_log as nat)),
            all_wf(r@),
    {
        let generator = Self::primitive_root_of_unity(n_log);
        proof {
            vstd::layout::unsigned_int_max_values();
            vstd::arithmetic::power2::lemma_pow2_strictly_increases(
                n_log as nat,
                usize::BITS as nat,
            );
            vstd::bits::lemma_usize_shl_is_mul(1, n_log);
        }
        Self::cyclic_subgroup_known_order(generator, 1usize << n_log)
    }

    /// The subgroup that an element of finite order generates: its powers, from
    /// one up to the last before one comes again.
    fn cyclic_subgroup_unknown_order(generator: Self) -> (r: Vec<Self>)
        requires
            generator.wf(),
            has_finite_order(generator),
        ensures
            r@ == powers_spec(generator, element_order(generator)),
            all_wf(r@),
    {
        let ghost ord = element_order(generator);
        proof {
            let n = choose|n: nat| n > 0 && #[trigger] pow_spec(generator, n) == Self::one_spec();
            lemma_order_exists(generator, n);
            Self::lemma_constants();
        }
        let mut powers = generator.powers();
        let mut subgroup: Vec<Self> = Vec::new();
        let mut done = false;
        while !done
            invariant
                generator.wf(),
                is_order_of(generator, ord),
                powers.base == generator,
                powers.wf(),
                subgroup@.len() <= ord,
                done ==> subgroup@.len() == ord,
                !done ==> powers.current == pow_spec(generator, subgroup@.len()),
                forall|k: int|
                    0 <= k < subgroup@.len() ==> #[trigger] subgroup@[k] == pow_spec(
                        generator,
                        k as nat,
                    ),
                forall|k: int| 0 <= k < subgroup@.len() ==> (#[trigger] subgroup@[k]).wf(),
            decreases ord - subgroup@.len() + (if done { 0nat } else { 1nat }),
        {
            proof {
                lemma_pow_wf(generator, subgroup@.len());
                Self::lemma_mul_commutative(pow_spec(generator, subgroup@.len()), generator);
            }
            match powers.next() {
                Some(power) => {
                    if power.is_one() && subgroup.len() > 0 {
                        done = true;
                    } else {
                        subgroup.push(power);
                    }
                },
                None => {
                    done = true;
                },
            }
        }
        assert(subgroup@ =~= powers_spec(generator, ord));
        subgroup
    }

    /// The order of an element of finite order.
    fn generator_order(generator: Self) -> (r: usize)
        requires
            generator.wf(),
            has_finite_order(generator),
            element_order(generator) <= usize::MAX,
        ensures
            r == element_order(generator),
    {
        let ghost ord = element_order(generator);
        proof {
            let n = choose|n: nat| n > 0 && #[trigger] pow_spec(generator, n) == Self::one_spec();
            lemma_order_exists(generator, n);
            lemma_pow_one(generator);
        }
        let mut power = generator;
        let mut position: usize = 1;
        while !power.is_one()
            invariant
                generator.wf(),
                power.wf(),
                is_order_of(generator, ord),
                ord <= usize::MAX,
                0 < position <= ord,
                power == pow_spec(generator, position as nat),
                forall|m: nat| 0 < m < position ==> #[trigger] pow_spec(generator, m) != Self::one_spec(),
            decreases ord - position,
        {
            proof {
                Self::lemma_mul_commutative(power, generator);
            }
            power = power.mul(generator);
            position = position + 1;
        }
        position
    }

    /// Computes a coset of a multiplicative subgroup whose order is known in
    /// advance.
    fn cyclic_subgroup_coset_known_order(generator: Self, shift: Self, order: usize) -> (r: Vec<
        Self,
    >)
        requires
            generator.wf(),
            shift.wf(),
        ensures
            r@ == coset_spec(generator, shift, order as nat),
            all_wf(r@),
    {
        let subgroup = Self::cyclic_subgroup_known_order(generator, order);
        let mut coset: Vec<Self> = Vec::with_capacity(order);
        let mut i: usize = 0;
        while i < order
            invariant
                i <= order,
                shift.wf(),
                subgroup@ == powers_spec(generator, order as nat),
                all_wf(subgroup@),
                coset@.len() == i,
                forall|k: int|
                    0 <= k < i ==> #[trigger] coset@[k] == pow_spec(generator, k as nat).mul_spec(
                        shift,
                    ),
                forall|k: int| 0 <= k < i ==> (#[trigger] coset@[k]).wf(),
            decreases order - i,
        {
            coset.push(subgroup[i].mul(shift));
            i = i + 1;
        }
        assert(coset@ =~= coset_spec(generator, shift, order as nat));
        coset
    }

    fn from_canonical_u32(n: u32) -> (r: Self)
        requires
            n < Self::characteristic_spec(),
        ensures
            r == Self::from_canonical_u64_spec(n as u64),
            r.wf(),
    {
        Self::from_canonical_u64(n as u64)
    }

    fn from_canonical_usize(n: usize) -> (r: Self)
        requires
            n < Self::characteristic_spec(),
            n <= u64::MAX,
        ensures
            r == Self::from_canonical_u64_spec(n as u64),
            r.wf(),
    {
        Self::from_canonical_u64(n as u64)
    }

    fn from_bool(b: bool) -> (r: Self)
        ensures
            r == if b {
                Self::one_spec()
            } else {
                Self::zero_spec()
            },
            r.wf(),
    {
        proof {
            Self::lemma_constants();
        }
        if b {
            Self::from_canonical_u64(1)
        } else {
            Self::from_canonical_u64(0)
        }
    }

    /// `self` raised to the power `2^power_log`, by repeated squaring.
    fn exp_power_of_2(&self, power_log: usize) -> (r: Self)
        requires
            self.wf(),
        ensures
            r == pow_spec(*self, pow2(power_log as nat)),
            r.wf(),
    {
        let mut res = *self;
        let mut i: usize = 0;
        proof {
            lemma2_to64();
            lemma_pow_one(*self);
        }
        while i < power_log
            invariant
                i <= power_log,
                self.wf(),
                res.wf(),
                res == pow_spec(*self, pow2(i as nat)),
            decreases power_log - i,
        {
            proof {
                lemma_pow_add(*self, pow2(i as nat), pow2(i as nat));
                lemma_pow2_unfold((i + 1) as nat);
            }
            res = res.square();
            i = i + 1;
        }
        res
    }

    /// `self` raised to the power `power`, by square and multiply.
    fn exp_u64(&self, power: u64) -> (r: Self)
        requires
            self.wf(),
        ensures
            r == pow_spec(*self, power as nat),
            r.wf(),
    {
        let mut current = *self;
        let mut product = Self::one();
        let mut rest = power;
        proof {
            lemma_pow_wf(*self, power as nat);
            lemma_one_mul(pow_spec(*self, power as nat));
        }
        while rest != 0
            invariant
                self.wf(),
                current.wf(),
                product.wf(),
                pow_spec(*self, power as nat) == product.mul_spec(pow_spec(current, rest as nat)),
            decreases rest,
        {
            let half = rest / 2;
            proof {
                // current^rest == current^bit * (current^2)^half
                lemma_pow_square(current, half as nat);
                lemma_pow_wf(current, (2 * half) as nat);
                lemma_pow_wf(current, rest as nat);
                if rest % 2 == 1 {
                    assert(pow_spec(current, rest as nat) == current.mul_spec(
                        pow_spec(current, (rest - 1) as nat),
                    ));
                    Self::lemma_mul_associative(
                        product,
                        current,
                        pow_spec(current, (2 * half) as nat),
                    );
                }
            }
            if rest % 2 == 1 {
                product = product.mul(current);
            }
            current = current.square();
            rest = half;
        }
        proof {
            Self::lemma_mul_one(product);
        }
        product
    }

    /// `self` raised to the power that the `BigUint` holds.
    fn exp_biguint(&self, power: &BigUint) -> (r: Self)
        requires
            self.wf(),
        ensures
            r == pow_spec(*self, biguint_to_nat(*power)),
            r.wf(),
    {
        let digits = biguint_to_u64_digits(power);
        let n = digits.len();
        let mut result = Self::one();
        let mut i: usize = n;
        proof {
            assert(digits@.skip(n as int) =~= Seq::<u64>::empty());
        }
        while i > 0
            invariant
                i <= n,
                n == digits@.len(),
                self.wf(),
                result.wf(),
                result == pow_spec(*self, digits_value(digits@.skip(i as int))),
            decreases i,
        {
            i = i - 1;
            let digit = digits[i];
            proof {
                let tail = digits@.skip(i as int);
                assert(tail.skip(1) =~= digits@.skip(i + 1));
                assert(tail[0] == digit);
                let upper = digits_value(digits@.skip(i + 1));
                lemma2_to64();
                vstd::arithmetic::power2::lemma2_to64_rest();
                lemma_pow_mul(*self, upper, pow2(64));
                lemma_pow_wf(*self, upper * pow2(64));
                lemma_pow_wf(*self, digit as nat);
                lemma_pow_add(*self, upper * pow2(64), digit as nat);
                assert(upper * pow2(64) + digit == digit + 0x1_0000_0000_0000_0000 * upper)
                    by (nonlinear_arith)
                    requires
                        pow2(64) == 0x1_0000_0000_0000_0000,
                ;
            }
            result = result.exp_power_of_2(64);
            result = result.mul(self.exp_u64(digit));
        }
        proof {
            assert(digits@.skip(0) =~= digits@);
        }
        result
    }

    /// Returns whether `x^power` is a permutation of this field: whether
    /// `power` has no divisor in common with the order of the multiplicative
    /// group.
    fn is_monomial_permutation_u64(power: u64) -> (r: bool)
        ensures
            r == (power != 0 && is_gcd(1, (Self::order_spec() - 1) as nat, power as nat)),
    {
        proof {
            Self::lemma_constants();
        }
        if power == 0 {
            return false;
        }
        if power == 1 {
            proof {
                let a = (Self::order_spec() - 1) as nat;
                assert(is_multiple(a, 1)) by {
                    assert(a % 1 == 0);
                }
                assert(is_multiple(1, 1));
                assert forall|d: nat| is_multiple(a, d) && is_multiple(1, d) implies #[trigger] is_multiple(
                    1,
                    d,
                ) by {}
            }
            return true;
        }
        let order = Self::order();
        let group_order = biguint_sub_u32(&order, 1);
        let g = biguint_gcd(&group_order, &biguint_from_u64(power));
        proof {
            let a = (Self::order_spec() - 1) as nat;
            let gv = biguint_to_nat(g);
            // the greatest common divisor is unique
            if is_gcd(1, a, power as nat) {
                assert(is_multiple(a, gv) && is_multiple(power as nat, gv));
                assert(is_multiple(1, gv));
                if gv > 1 {
                    vstd::arithmetic::div_mod::lemma_small_mod(1, gv);
                }
            }
        }
        biguint_is_one(&g)
    }

    /// The `k`-th root of `self` for a `k` without divisor in common with the
    /// order of the multiplicative group: `self` to the exponent that inverts
    /// `k` modulo that order.
    fn kth_root_u64(&self, k: u64) -> (r: Self)
        requires
            self.wf(),
            k > 0,
            first_multiplier(Self::order_spec(), k as nat, 0) < k,
        ensures
            r == pow_spec(*self, kth_root_exponent(Self::order_spec(), k as nat)),
            r.wf(),
    {
        proof {
            Self::lemma_constants();
        }
        let p = Self::order();
        let p_minus_1 = biguint_sub_u32(&p, 1);
        // By Fermat's little theorem, x^p = x and x^(p - 1) = 1, so
        // x^(p + n(p - 1)) = x for any n. Once we find an n for which
        // p + n(p - 1) is a multiple of k, x^((p + n(p - 1))/k) is a k'th root
        // of x.
        let mut n: u64 = 0;
        while n < k
            invariant
                n <= k,
                k > 0,
                self.wf(),
                biguint_to_nat(p) == Self::order_spec(),
                biguint_to_nat(p_minus_1) == Self::order_spec() - 1,
                Self::order_spec() > 1,
                first_multiplier(Self::order_spec(), k as nat, 0) < k,
                first_multiplier(Self::order_spec(), k as nat, 0) == first_multiplier(
                    Self::order_spec(),
                    k as nat,
                    n as nat,
                ),
            decreases k - n,
        {
            let numerator = biguint_add(&p, &biguint_mul_u64(&p_minus_1, n));
            if biguint_is_zero(&biguint_rem_u64(&numerator, k)) {
                let power = biguint_rem(&biguint_div_u64(&numerator, k), &p_minus_1);
                return self.exp_biguint(&power);
            }
            n = n + 1;
        }
        *self
    }

    /// The cube root of `self`, where cubing permutes the field.
    fn cube_root(&self) -> (r: Self)
        requires
            self.wf(),
            first_multiplier(Self::order_spec(), 3, 0) < 3,
        ensures
            r == pow_spec(*self, kth_root_exponent(Self::order_spec(), 3)),
            r.wf(),
    {
        self.kth_root_u64(3)
    }

    /// The element that `n_lo + 2^64 * n_hi`, reduced modulo the
    /// characteristic, stands for.
    fn from_noncanonical_u96(n: (u64, u32)) -> (r: Self)
        ensures
            r == Self::from_canonical_u64_spec(
                ((n.0 + 0x1_0000_0000_0000_0000 * n.1) % (Self::characteristic_spec() as int)) as u64,
            ),
            r.wf(),
    {
        let wide: u128 = (n.1 as u128) * 0x1_0000_0000_0000_0000u128 + (n.0 as u128);
        let characteristic = Self::characteristic();
        proof {
            Self::lemma_constants();
            assert(Self::characteristic_spec() as u128 == characteristic);
            vstd::arithmetic::div_mod::lemma_mod_bound(wide as int, characteristic as int);
        }
        Self::from_noncanonical_u128(wide)
    }

    /// The powers of `self`, starting with one.
    fn powers(&self) -> (r: Powers<Self>)
        requires
            self.wf(),
        ensures
            r.base == *self,
            r.current == Self::one_spec(),
            r.wf(),
    {
        Powers { base: *self, current: Self::one() }
    }

    /// Representative `g` of the coset used in the low-degree test, so that
    /// extended evaluations are taken over `gH`.
    fn coset_shift() -> (r: Self)
        ensures
            r == Self::multiplicative_group_generator_spec(),
            r.wf(),
    {
        Self::multiplicative_group_generator()
    }

    /// `self + x * y`.
    fn multiply_accumulate(&self, x: Self, y: Self) -> (r: Self)
        requires
            self.wf(),
            x.wf(),
            y.wf(),
        ensures
            r == self.add_spec(x.mul_spec(y)),
            r.wf(),
    {
        self.add(x.mul(y))
    }
}

impl<F: Field> FieldOps for F {

}

/// The operations that every prime field has from its canonical encoding.
pub trait PrimeFieldOps: PrimeField {
    /// The number of bits required to encode any field element.
    fn bits() -> (r: usize)
        ensures
            r == crate::util::bit_length((Self::order_spec() - 1) as nat),
    {
        proof {
            Self::lemma_order();
            Self::lemma_constants();
        }
        // The largest element is the one before zero.
        let top = Self::from_canonical_u64(Self::order_u64() - 1);
        proof {
            Self::lemma_from_canonical((Self::order_spec() - 1) as u64);
        }
        bits_u64(top.to_canonical_u64())
    }

    /// The inverse of `2^exp`.
    fn inverse_2exp(exp: usize) -> (r: Self)
        requires
            exp > 0 ==> Self::two_adicity_spec() > 0,
        ensures
            is_inverse(pow_spec(two_spec::<Self>(), exp as nat), r),
    {
        // The inverse of 2^exp is p - (p - 1) / 2^exp where exp is at most the
        // two-adicity t. Where exp exceeds t, multiply by the inverse of 2^t
        // and reduce exp until it is in the right range.
        let p = Self::order_u64();
        let t = Self::two_adicity();
        let ghost two = two_spec::<Self>();
        proof {
            Self::lemma_order();
            Self::lemma_constants();
            Self::lemma_closed(Self::one_spec(), Self::one_spec());
        }
        if exp > t {
            proof {
                lemma_small_inverse_2exp::<Self>(t as nat);
                vstd::bits::lemma_u64_shr_is_div((p - 1) as u64, t as u64);
            }
            let inverse_2_pow_adicity = Self::from_canonical_u64(p - ((p - 1) >> (t as u64)));
            let mut res = inverse_2_pow_adicity;
            let mut e = exp - t;
            while e > t
                invariant
                    0 < t < 64,
                    t == Self::two_adicity_spec(),
                    0 < e <= exp - t,
                    two == two_spec::<Self>(),
                    two.wf(),
                    is_inverse(pow_spec(two, t as nat), inverse_2_pow_adicity),
                    is_inverse(pow_spec(two, (exp - e) as nat), res),
                decreases e,
            {
                proof {
                    lemma_pow_wf(two, (exp - e) as nat);
                    lemma_pow_wf(two, t as nat);
                    lemma_inverse_mul(
                        pow_spec(two, (exp - e) as nat),
                        res,
                        pow_spec(two, t as nat),
                        inverse_2_pow_adicity,
                    );
                    lemma_pow_add(two, (exp - e) as nat, t as nat);
                }
                res = res.mul(inverse_2_pow_adicity);
                e = e - t;
            }
            proof {
                lemma_small_inverse_2exp::<Self>(e as nat);
                vstd::bits::lemma_u64_shr_is_div((p - 1) as u64, e as u64);
                lemma_pow_wf(two, (exp - e) as nat);
                lemma_pow_wf(two, e as nat);
                lemma_inverse_mul(
                    pow_spec(two, (exp - e) as nat),
                    res,
                    pow_spec(two, e as nat),
                    Self::from_canonical_u64_spec(small_inverse_2exp(p as nat, e as nat) as u64),
                );
                lemma_pow_add(two, (exp - e) as nat, e as nat);
            }
            res.mul(Self::from_canonical_u64(p - ((p - 1) >> (e as u64))))
        } else {
            proof {
                lemma_small_inverse_2exp::<Self>(exp as nat);
                vstd::bits::lemma_u64_shr_is_div((p - 1) as u64, exp as u64);
            }
            Self::from_canonical_u64(p - ((p - 1) >> (exp as u64)))
        }
    }

    fn add_one(&self) -> (r: Self)
        requires
            self.wf(),
        ensures
            r == self.add_spec(Self::one_spec()),
            r.wf(),
    {
        proof {
            Self::lemma_order();
        }
        self.add_canonical_u64(1)
    }

    fn sub_one(&self) -> (r: Self)
        requires
            self.wf(),
        ensures
            r == sub_spec(*self, Self::one_spec()),
            r.wf(),
    {
        proof {
            Self::lemma_order();
        }
        self.sub_canonical_u64(1)
    }

    /// `self + rhs` for an integer below the order.
    fn add_canonical_u64(&self, rhs: u64) -> (r: Self)
        requires
            self.wf(),
            rhs < Self::order_spec(),
        ensures
            r == self.add_spec(Self::from_canonical_u64_spec(rhs)),
            r.wf(),
            rhs == 1 ==> r == self.add_spec(Self::one_spec()),
    {
        proof {
            Self::lemma_order();
            Self::lemma_constants();
        }
        self.add(Self::from_canonical_u64(rhs))
    }

    /// `self - rhs` for an integer below the order.
    fn sub_canonical_u64(&self, rhs: u64) -> (r: Self)
        requires
            self.wf(),
            rhs < Self::order_spec(),
        ensures
            r == sub_spec(*self, Self::from_canonical_u64_spec(rhs)),
            r.wf(),
            rhs == 1 ==> r == sub_spec(*self, Self::one_spec()),
    {
        proof {
            Self::lemma_order();
            Self::lemma_constants();
        }
        self.sub(Self::from_canonical_u64(rhs))
    }
}

/// The operations that draw field elements at random.
pub trait Sample: PrimeField {
    /// An element drawn uniformly from the field.
    fn rand() -> (r: Self)
        ensures
            r.wf(),
    {
        proof {
            Self::lemma_order();
            Self::lemma_constants();
        }
        Self::from_canonical_u64(random_below(Self::order_u64()))
    }

    /// An array of elements drawn uniformly from the field.
    fn rand_arr<const N: usize>() -> (r: [Self; N])
        ensures
            all_wf(r@),
    {
        let mut out = [Self::zero();N];
        let mut i: usize = 0;
        while i < N
            invariant
                i <= N,
                all_wf(out@),
            decreases N - i,
        {
            out[i] = Self::rand();
            i = i + 1;
        }
        out
    }

    /// `n` elements drawn uniformly from the field.
    fn rand_vec(n: usize) -> (r: Vec<Self>)
        ensures
            r@.len() == n,
            all_wf(r@),
    {
        let mut out: Vec<Self> = Vec::with_capacity(n);
        let mut i: usize = 0;
        while i < n
            invariant
                i <= n,
                out@.len() == i,
                all_wf(out@),
            decreases n - i,
        {
            out.push(Self::rand());
            i = i + 1;
        }
        out
    }
}

impl<F: PrimeField> Sample for F {

}

impl<F: PrimeField> PrimeFieldOps for F {

}

} // verus!
