//! The prime field of order `2^64 - 9 * 2^28 + 1`.
use crate::field::biguint::biguint_from_u64;
use crate::field::field_types::{Field, PrimeField, RichField};
use crate::field::modular::{
    add_mod, add_mod_u64, inverse_mod_u64, is_unit_mod, lemma_add_mod_associative,
    lemma_add_neg_mod, lemma_mul_mod_associative, lemma_mul_mod_distributive, mul_mod, mul_mod_u64,
    neg_mod, neg_mod_u64,
};
use num::bigint::BigUint;
use vstd::arithmetic::div_mod::{lemma_mod_bound, lemma_small_mod};
use vstd::arithmetic::mul::lemma_mul_is_commutative;
use vstd::prelude::*;

verus! {

/// The order of the field: `2^64 - 9 * 2^28 + 1`.
pub const FIELD_ORDER: u64 = 18446744071293632513;

/// An element of the field, held as the integer below the order that it is.
#[derive(Clone, Copy, Debug, PartialEq, Eq, Hash)]
pub struct CrandallField(pub u64);

impl Field for CrandallField {
    open spec fn wf(self) -> bool {
        self.0 < FIELD_ORDER
    }

    open spec fn zero_spec() -> Self {
        CrandallField(0)
    }

    open spec fn one_spec() -> Self {
        CrandallField(1)
    }

    open spec fn add_spec(self, rhs: Self) -> Self {
        CrandallField(add_mod(self.0 as nat, rhs.0 as nat, FIELD_ORDER as nat) as u64)
    }

    open spec fn neg_spec(self) -> Self {
        CrandallField(neg_mod(self.0 as nat, FIELD_ORDER as nat) as u64)
    }

    open spec fn mul_spec(self, rhs: Self) -> Self {
        CrandallField(mul_mod(self.0 as nat, rhs.0 as nat, FIELD_ORDER as nat) as u64)
    }

    open spec fn characteristic_spec() -> nat {
        FIELD_ORDER as nat
    }

    open spec fn two_adicity_spec() -> nat {
        28
    }

    open spec fn multiplicative_group_generator_spec() -> Self {
        CrandallField(5)
    }

    open spec fn power_of_two_generator_spec() -> Self {
        CrandallField(10281950781551402419)
    }

    open spec fn from_canonical_u64_spec(n: u64) -> Self {
        CrandallField(n)
    }

    open spec fn order_spec() -> nat {
        FIELD_ORDER as nat
    }

    proof fn lemma_constants() {
    }

    proof fn lemma_distinct_constants() {
        vstd::arithmetic::power2::lemma2_to64();
    }

    proof fn lemma_power_of_two_generator_order() -> (chain: Seq<Self>) {
        let chain = seq![
            CrandallField(10281950781551402419),
            CrandallField(11187958449936188211),
            CrandallField(16193717518417335590),
            CrandallField(1657111247548381807),
            CrandallField(9377247539103469776),
            CrandallField(2335374310987008519),
            CrandallField(16462018284699855186),
            CrandallField(17300044567649732801),
            CrandallField(12884355134542070612),
            CrandallField(16788373803099597280),
            CrandallField(4395094116360645224),
            CrandallField(9642492873195871693),
            CrandallField(1640085378437944310),
            CrandallField(3014625499523848392),
            CrandallField(6970168990418713622),
            CrandallField(6094903385552077338),
            CrandallField(9932980923219991257),
            CrandallField(7654180610279953506),
            CrandallField(12082156762075825393),
            CrandallField(7186627594470131912),
            CrandallField(10810114685875700126),
            CrandallField(9199914497196208594),
            CrandallField(6303199666887002993),
            CrandallField(10181794742231434236),
            CrandallField(8037087449009998716),
            CrandallField(6030890043410403347),
            CrandallField(6183774639018825925),
            CrandallField(18446744071293632512),
            CrandallField(1),
        ];
        assert(mul_mod(10281950781551402419, 10281950781551402419, FIELD_ORDER as nat) == 11187958449936188211) by (nonlinear_arith);
        assert(mul_mod(11187958449936188211, 11187958449936188211, FIELD_ORDER as nat) == 16193717518417335590) by (nonlinear_arith);
        assert(mul_mod(16193717518417335590, 16193717518417335590, FIELD_ORDER as nat) == 1657111247548381807) by (nonlinear_arith);
        assert(mul_mod(1657111247548381807, 1657111247548381807, FIELD_ORDER as nat) == 9377247539103469776) by (nonlinear_arith);
        assert(mul_mod(9377247539103469776, 9377247539103469776, FIELD_ORDER as nat) == 2335374310987008519) by (nonlinear_arith);
        assert(mul_mod(2335374310987008519, 2335374310987008519, FIELD_ORDER as nat) == 16462018284699855186) by (nonlinear_arith);
        assert(mul_mod(16462018284699855186, 16462018284699855186, FIELD_ORDER as nat) == 17300044567649732801) by (nonlinear_arith);
        assert(mul_mod(17300044567649732801, 17300044567649732801, FIELD_ORDER as nat) == 12884355134542070612) by (nonlinear_arith);
        assert(mul_mod(12884355134542070612, 12884355134542070612, FIELD_ORDER as nat) == 16788373803099597280) by (nonlinear_arith);
        assert(mul_mod(16788373803099597280, 16788373803099597280, FIELD_ORDER as nat) == 4395094116360645224) by (nonlinear_arith);
        assert(mul_mod(4395094116360645224, 4395094116360645224, FIELD_ORDER as nat) == 9642492873195871693) by (nonlinear_arith);
        assert(mul_mod(9642492873195871693, 9642492873195871693, FIELD_ORDER as nat) == 1640085378437944310) by (nonlinear_arith);
        assert(mul_mod(1640085378437944310, 1640085378437944310, FIELD_ORDER as nat) == 3014625499523848392) by (nonlinear_arith);
        assert(mul_mod(3014625499523848392, 3014625499523848392, FIELD_ORDER as nat) == 6970168990418713622) by (nonlinear_arith);
        assert(mul_mod(6970168990418713622, 6970168990418713622, FIELD_ORDER as nat) == 6094903385552077338) by (nonlinear_arith);
        assert(mul_mod(6094903385552077338, 6094903385552077338, FIELD_ORDER as nat) == 9932980923219991257) by (nonlinear_arith);
        assert(mul_mod(9932980923219991257, 9932980923219991257, FIELD_ORDER as nat) == 7654180610279953506) by (nonlinear_arith);
        assert(mul_mod(7654180610279953506, 7654180610279953506, FIELD_ORDER as nat) == 12082156762075825393) by (nonlinear_arith);
        assert(mul_mod(12082156762075825393, 12082156762075825393, FIELD_ORDER as nat) == 7186627594470131912) by (nonlinear_arith);
        assert(mul_mod(7186627594470131912, 7186627594470131912, FIELD_ORDER as nat) == 10810114685875700126) by (nonlinear_arith);
        assert(mul_mod(10810114685875700126, 10810114685875700126, FIELD_ORDER as nat) == 9199914497196208594) by (nonlinear_arith);
        assert(mul_mod(9199914497196208594, 9199914497196208594, FIELD_ORDER as nat) == 6303199666887002993) by (nonlinear_arith);
        assert(mul_mod(6303199666887002993, 6303199666887002993, FIELD_ORDER as nat) == 10181794742231434236) by (nonlinear_arith);
        assert(mul_mod(10181794742231434236, 10181794742231434236, FIELD_ORDER as nat) == 8037087449009998716) by (nonlinear_arith);
        assert(mul_mod(8037087449009998716, 8037087449009998716, FIELD_ORDER as nat) == 6030890043410403347) by (nonlinear_arith);
        assert(mul_mod(6030890043410403347, 6030890043410403347, FIELD_ORDER as nat) == 6183774639018825925) by (nonlinear_arith);
        assert(mul_mod(6183774639018825925, 6183774639018825925, FIELD_ORDER as nat) == 18446744071293632512) by (nonlinear_arith);
        assert(mul_mod(18446744071293632512, 18446744071293632512, FIELD_ORDER as nat) == 1) by (nonlinear_arith);
        chain
    }

    proof fn lemma_from_canonical_wf(n: u64) {
    }

    proof fn lemma_closed(a: Self, b: Self) {
        lemma_mod_bound(a.0 + b.0, FIELD_ORDER as int);
        lemma_mod_bound(a.0 * b.0, FIELD_ORDER as int);
        lemma_add_neg_mod(a.0 as nat, FIELD_ORDER as nat);
    }

    proof fn lemma_add_commutative(a: Self, b: Self) {
    }

    proof fn lemma_add_associative(a: Self, b: Self, c: Self) {
        lemma_add_mod_associative(a.0 as nat, b.0 as nat, c.0 as nat, FIELD_ORDER as nat);
        lemma_mod_bound(a.0 + b.0, FIELD_ORDER as int);
        lemma_mod_bound(b.0 + c.0, FIELD_ORDER as int);
    }

    proof fn lemma_add_zero(a: Self) {
        lemma_small_mod(a.0 as nat, FIELD_ORDER as nat);
    }

    proof fn lemma_add_neg(a: Self) {
        lemma_add_neg_mod(a.0 as nat, FIELD_ORDER as nat);
    }

    proof fn lemma_mul_commutative(a: Self, b: Self) {
        lemma_mul_is_commutative(a.0 as int, b.0 as int);
    }

    proof fn lemma_mul_associative(a: Self, b: Self, c: Self) {
        lemma_mul_mod_associative(a.0 as nat, b.0 as nat, c.0 as nat, FIELD_ORDER as nat);
        lemma_mod_bound(a.0 * b.0, FIELD_ORDER as int);
        lemma_mod_bound(b.0 * c.0, FIELD_ORDER as int);
    }

    proof fn lemma_mul_one(a: Self) {
        assert(a.0 * 1 == a.0);
        lemma_small_mod(a.0 as nat, FIELD_ORDER as nat);
    }

    proof fn lemma_distributive(a: Self, b: Self, c: Self) {
        lemma_mul_mod_distributive(a.0 as nat, b.0 as nat, c.0 as nat, FIELD_ORDER as nat);
        lemma_mod_bound(b.0 + c.0, FIELD_ORDER as int);
        lemma_mod_bound(a.0 * b.0, FIELD_ORDER as int);
        lemma_mod_bound(a.0 * c.0, FIELD_ORDER as int);
    }

    fn zero() -> (r: Self) {
        CrandallField(0)
    }

    fn one() -> (r: Self) {
        CrandallField(1)
    }

    fn characteristic() -> (r: u64) {
        FIELD_ORDER
    }

    fn order() -> (r: BigUint) {
        biguint_from_u64(FIELD_ORDER)
    }

    fn two_adicity() -> (r: usize) {
        28
    }

    fn multiplicative_group_generator() -> (r: Self) {
        CrandallField(5)
    }

    fn power_of_two_generator() -> (r: Self) {
        CrandallField(10281950781551402419)
    }

    fn add(self, rhs: Self) -> (r: Self) {
        CrandallField(add_mod_u64(self.0, rhs.0, FIELD_ORDER))
    }

    fn neg(self) -> (r: Self) {
        CrandallField(neg_mod_u64(self.0, FIELD_ORDER))
    }

    fn mul(self, rhs: Self) -> (r: Self) {
        CrandallField(mul_mod_u64(self.0, rhs.0, FIELD_ORDER))
    }

    fn is_canonical(&self) -> (r: bool) {
        self.0 < FIELD_ORDER
    }

    fn equals(&self, other: &Self) -> (r: bool) {
        self.0 == other.0
    }

    fn try_inverse(&self) -> (r: Option<Self>) {
        match inverse_mod_u64(self.0, FIELD_ORDER) {
            Some(i) => Some(CrandallField(i)),
            None => {
                proof {
                    assert forall|i: Self| i.wf() implies #[trigger] self.mul_spec(i)
                        != Self::one_spec() by {
                        if self.mul_spec(i) == Self::one_spec() {
                            lemma_mod_bound(self.0 * i.0, FIELD_ORDER as int);
                            assert(mul_mod(self.0 as nat, i.0 as nat, FIELD_ORDER as nat) == 1);
                            assert(is_unit_mod(self.0 as nat, FIELD_ORDER as nat));
                        }
                    }
                }
                None
            },
        }
    }

    fn from_canonical_u64(n: u64) -> (r: Self) {
        CrandallField(n)
    }

    fn from_noncanonical_u128(n: u128) -> (r: Self) {
        proof {
            lemma_mod_bound(n as int, FIELD_ORDER as int);
        }
        CrandallField((n % (FIELD_ORDER as u128)) as u64)
    }
}

impl PrimeField for CrandallField {
    open spec fn to_canonical_u64_spec(self) -> u64 {
        self.0
    }

    proof fn lemma_canonical(a: Self) {
    }

    proof fn lemma_from_canonical(n: u64) {
    }

    proof fn lemma_order() {
    }

    proof fn lemma_arithmetic_canonical(a: Self, b: Self) {
        lemma_mod_bound(a.0 + b.0, FIELD_ORDER as int);
        lemma_mod_bound(a.0 * b.0, FIELD_ORDER as int);
    }

    proof fn lemma_two_adic_order() {
        vstd::arithmetic::power2::lemma2_to64();
        assert(vstd::arithmetic::power2::pow2(28) == 0x10000000);
        assert(FIELD_ORDER - 1 == 0x10000000 * 68719476727);
        vstd::arithmetic::div_mod::lemma_mod_multiples_basic(68719476727, 0x10000000);
    }

    fn order_u64() -> (r: u64) {
        FIELD_ORDER
    }

    fn to_canonical_u64(&self) -> (r: u64) {
        self.0
    }

    fn to_noncanonical_u64(&self) -> (r: u64) {
        proof {
            lemma_small_mod(self.0 as nat, FIELD_ORDER as nat);
        }
        self.0
    }

    fn from_noncanonical_u64(n: u64) -> (r: Self) {
        proof {
            lemma_mod_bound(n as int, FIELD_ORDER as int);
        }
        CrandallField(n % FIELD_ORDER)
    }
}

impl RichField for CrandallField {

}

} // verus!
