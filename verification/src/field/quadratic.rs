//! The quadratic extension of the field of order `2^64 - 9 * 2^28 + 1`: the
//! elements `c0 + c1 X` with `X^2 = 3`.
use crate::field::biguint::{biguint_from_u64, biguint_mul_u64};
use crate::field::crandall_field::{CrandallField, FIELD_ORDER};
use crate::field::extension_field::{FieldExtension, Frobenius};
use crate::field::field_types::{sub_spec, Field, FieldOps};
use crate::field::modular::{
    congruent, lemma_congruent_add, lemma_congruent_mod, lemma_congruent_mul, lemma_congruent_neg,
};
use num::bigint::BigUint;
use vstd::arithmetic::div_mod::{lemma_add_mod_noop, lemma_mod_bound, lemma_small_mod};
use vstd::arithmetic::mul::lemma_mul_is_associative;
use vstd::prelude::*;

verus! {

/// An element `c0 + c1 X` of the extension, held by its two coordinates.
#[derive(Clone, Copy, Debug, PartialEq, Eq, Hash)]
pub struct QuadraticCrandallField(pub CrandallField, pub CrandallField);

/// The first coordinate of the product of `a0 + a1 X` and `b0 + b1 X`.
pub open spec fn product_c0(a0: int, a1: int, b0: int, b1: int) -> int {
    (a0 * b0 + 3 * (a1 * b1)) % (FIELD_ORDER as int)
}

/// The second coordinate of the product of `a0 + a1 X` and `b0 + b1 X`.
pub open spec fn product_c1(a0: int, a1: int, b0: int, b1: int) -> int {
    (a0 * b1 + a1 * b0) % (FIELD_ORDER as int)
}

/// The norm of `a0 + a1 X`, an element of the base field: `a0^2 - 3 a1^2`.
pub open spec fn norm_spec(a0: int, a1: int) -> int {
    (a0 * a0 - 3 * (a1 * a1)) % (FIELD_ORDER as int)
}

/// The coordinates of a product are those of the product of the
/// coordinates taken as integers: remainders within them do not matter.
pub proof fn lemma_product_congruent(
    a0: int,
    a1: int,
    b0: int,
    b1: int,
    x0: int,
    x1: int,
    y0: int,
    y1: int,
)
    requires
        congruent(a0, x0, FIELD_ORDER as int),
        congruent(a1, x1, FIELD_ORDER as int),
        congruent(b0, y0, FIELD_ORDER as int),
        congruent(b1, y1, FIELD_ORDER as int),
    ensures
        product_c0(a0, a1, b0, b1) == product_c0(x0, x1, y0, y1),
        product_c1(a0, a1, b0, b1) == product_c1(x0, x1, y0, y1),
{
    let p = FIELD_ORDER as int;
    lemma_congruent_mul(a0, x0, b0, y0, p);
    lemma_congruent_mul(a1, x1, b1, y1, p);
    lemma_congruent_mul(3, 3, a1 * b1, x1 * y1, p);
    lemma_congruent_add(a0 * b0, x0 * y0, 3 * (a1 * b1), 3 * (x1 * y1), p);
    lemma_congruent_mul(a0, x0, b1, y1, p);
    lemma_congruent_mul(a1, x1, b0, y0, p);
    lemma_congruent_add(a0 * b1, x0 * y1, a1 * b0, x1 * y0, p);
}

/// Over the integers the product of three elements does not depend on which
/// two are multiplied first.
pub proof fn lemma_triple_product(a0: int, a1: int, b0: int, b1: int, c0: int, c1: int)
    ensures
        (a0 * b0 + 3 * (a1 * b1)) * c0 + 3 * ((a0 * b1 + a1 * b0) * c1) == a0 * (b0 * c0 + 3 * (b1
            * c1)) + 3 * (a1 * (b0 * c1 + b1 * c0)),
        (a0 * b0 + 3 * (a1 * b1)) * c1 + (a0 * b1 + a1 * b0) * c0 == a0 * (b0 * c1 + b1 * c0) + a1
            * (b0 * c0 + 3 * (b1 * c1)),
{
    let x00 = a0 * b0;
    let x11 = a1 * b1;
    let x01 = a0 * b1;
    let x10 = a1 * b0;
    let y00 = b0 * c0;
    let y11 = b1 * c1;
    let y01 = b0 * c1;
    let y10 = b1 * c0;
    // the eight products of three coordinates, bracketed both ways
    lemma_mul_is_associative(a0, b0, c0);
    lemma_mul_is_associative(a1, b1, c0);
    lemma_mul_is_associative(a0, b1, c1);
    lemma_mul_is_associative(a1, b0, c1);
    lemma_mul_is_associative(a0, b0, c1);
    lemma_mul_is_associative(a1, b1, c1);
    lemma_mul_is_associative(a0, b1, c0);
    lemma_mul_is_associative(a1, b0, c0);
    assert((x00 + 3 * x11) * c0 == x00 * c0 + 3 * (x11 * c0)) by (nonlinear_arith);
    assert((x01 + x10) * c1 == x01 * c1 + x10 * c1) by (nonlinear_arith);
    assert(a0 * (y00 + 3 * y11) == a0 * y00 + 3 * (a0 * y11)) by (nonlinear_arith);
    assert(a1 * (y01 + y10) == a1 * y01 + a1 * y10) by (nonlinear_arith);
    assert((x00 + 3 * x11) * c1 == x00 * c1 + 3 * (x11 * c1)) by (nonlinear_arith);
    assert((x01 + x10) * c0 == x01 * c0 + x10 * c0) by (nonlinear_arith);
    assert(a0 * (y01 + y10) == a0 * y01 + a0 * y10) by (nonlinear_arith);
    assert(a1 * (y00 + 3 * y11) == a1 * y00 + 3 * (a1 * y11)) by (nonlinear_arith);
}

/// Over the integers the norm of a product is the product of the norms.
pub proof fn lemma_norm_multiplicative(a0: int, a1: int, b0: int, b1: int)
    ensures
        (a0 * a0 - 3 * (a1 * a1)) * (b0 * b0 - 3 * (b1 * b1)) == (a0 * b0 + 3 * (a1 * b1)) * (a0
            * b0 + 3 * (a1 * b1)) - 3 * ((a0 * b1 + a1 * b0) * (a0 * b1 + a1 * b0)),
{
    let x00 = a0 * b0;
    let x11 = a1 * b1;
    let x01 = a0 * b1;
    let x10 = a1 * b0;
    let s0 = a0 * a0;
    let s1 = a1 * a1;
    let t0 = b0 * b0;
    let t1 = b1 * b1;
    assert(x00 * x00 == s0 * t0) by (nonlinear_arith)
        requires
            x00 == a0 * b0,
            s0 == a0 * a0,
            t0 == b0 * b0,
    ;
    assert(x11 * x11 == s1 * t1) by (nonlinear_arith)
        requires
            x11 == a1 * b1,
            s1 == a1 * a1,
            t1 == b1 * b1,
    ;
    assert(x01 * x01 == s0 * t1) by (nonlinear_arith)
        requires
            x01 == a0 * b1,
            s0 == a0 * a0,
            t1 == b1 * b1,
    ;
    assert(x10 * x10 == s1 * t0) by (nonlinear_arith)
        requires
            x10 == a1 * b0,
            s1 == a1 * a1,
            t0 == b0 * b0,
    ;
    assert(x00 * x11 == x01 * x10) by (nonlinear_arith)
        requires
            x00 == a0 * b0,
            x11 == a1 * b1,
            x01 == a0 * b1,
            x10 == a1 * b0,
    ;
    assert((s0 - 3 * s1) * (t0 - 3 * t1) == s0 * t0 - 3 * (s0 * t1) - 3 * (s1 * t0) + 9 * (s1 * t1))
        by (nonlinear_arith);
    assert((x00 + 3 * x11) * (x00 + 3 * x11) == x00 * x00 + 6 * (x00 * x11) + 9 * (x11 * x11))
        by (nonlinear_arith);
    assert((x01 + x10) * (x01 + x10) == x01 * x01 + 2 * (x01 * x10) + x10 * x10)
        by (nonlinear_arith);
}

/// The product computed in the base field is the product of the extension.
pub proof fn lemma_product_in_base(a: QuadraticCrandallField, b: QuadraticCrandallField)
    requires
        a.wf(),
        b.wf(),
    ensures
        a.0.mul_spec(b.0).add_spec(CrandallField(3).mul_spec(a.1.mul_spec(b.1))) == a.mul_spec(b).0,
        a.0.mul_spec(b.1).add_spec(a.1.mul_spec(b.0)) == a.mul_spec(b).1,
{
    let p = FIELD_ORDER as int;
    let a0 = a.0.0 as int;
    let a1 = a.1.0 as int;
    let b0 = b.0.0 as int;
    let b1 = b.1.0 as int;
    lemma_mod_bound(a0 * b0, p);
    lemma_mod_bound(a1 * b1, p);
    lemma_mod_bound(a0 * b1, p);
    lemma_mod_bound(a1 * b0, p);
    lemma_mod_bound(3 * ((a1 * b1) % p), p);
    lemma_congruent_mod(a0 * b0, p);
    lemma_congruent_mod(a1 * b1, p);
    lemma_congruent_mul(3, 3, (a1 * b1) % p, a1 * b1, p);
    lemma_congruent_mod(3 * ((a1 * b1) % p), p);
    lemma_congruent_add((a0 * b0) % p, a0 * b0, (3 * ((a1 * b1) % p)) % p, 3 * (a1 * b1), p);
    lemma_congruent_mod(a0 * b1, p);
    lemma_congruent_mod(a1 * b0, p);
    lemma_congruent_add((a0 * b1) % p, a0 * b1, (a1 * b0) % p, a1 * b0, p);
    lemma_mod_bound(a0 * b0 + 3 * (a1 * b1), p);
    lemma_mod_bound(a0 * b1 + a1 * b0, p);
}

impl Field for QuadraticCrandallField {
    open spec fn wf(self) -> bool {
        self.0.wf() && self.1.wf()
    }

    open spec fn zero_spec() -> Self {
        QuadraticCrandallField(CrandallField(0), CrandallField(0))
    }

    open spec fn one_spec() -> Self {
        QuadraticCrandallField(CrandallField(1), CrandallField(0))
    }

    open spec fn add_spec(self, rhs: Self) -> Self {
        QuadraticCrandallField(self.0.add_spec(rhs.0), self.1.add_spec(rhs.1))
    }

    open spec fn neg_spec(self) -> Self {
        QuadraticCrandallField(self.0.neg_spec(), self.1.neg_spec())
    }

    open spec fn mul_spec(self, rhs: Self) -> Self {
        QuadraticCrandallField(
            CrandallField(
                product_c0(self.0.0 as int, self.1.0 as int, rhs.0.0 as int, rhs.1.0 as int) as u64,
            ),
            CrandallField(
                product_c1(self.0.0 as int, self.1.0 as int, rhs.0.0 as int, rhs.1.0 as int) as u64,
            ),
        )
    }

    open spec fn characteristic_spec() -> nat {
        FIELD_ORDER as nat
    }

    open spec fn two_adicity_spec() -> nat {
        29
    }

    open spec fn multiplicative_group_generator_spec() -> Self {
        QuadraticCrandallField(CrandallField(3), CrandallField(1))
    }

    open spec fn power_of_two_generator_spec() -> Self {
        QuadraticCrandallField(CrandallField(0), CrandallField(7889429148549342301))
    }

    open spec fn from_canonical_u64_spec(n: u64) -> Self {
        QuadraticCrandallField(CrandallField(n), CrandallField(0))
    }

    open spec fn order_spec() -> nat {
        (FIELD_ORDER as nat) * (FIELD_ORDER as nat)
    }

    proof fn lemma_constants() {
        assert((FIELD_ORDER as nat) * (FIELD_ORDER as nat) > 1) by (nonlinear_arith);
    }

    proof fn lemma_distinct_constants() {
        vstd::arithmetic::power2::lemma2_to64();
    }

    proof fn lemma_power_of_two_generator_order() -> (chain: Seq<Self>) {
        let chain = seq![
            QuadraticCrandallField(CrandallField(0), CrandallField(7889429148549342301)),
            QuadraticCrandallField(CrandallField(10454523445950444044), CrandallField(0)),
            QuadraticCrandallField(CrandallField(16130492503774724590), CrandallField(0)),
            QuadraticCrandallField(CrandallField(11855083304927111684), CrandallField(0)),
            QuadraticCrandallField(CrandallField(12017597325531527064), CrandallField(0)),
            QuadraticCrandallField(CrandallField(11285179876094320544), CrandallField(0)),
            QuadraticCrandallField(CrandallField(18345646034750369613), CrandallField(0)),
            QuadraticCrandallField(CrandallField(1142528823649738932), CrandallField(0)),
            QuadraticCrandallField(CrandallField(7217157857328644411), CrandallField(0)),
            QuadraticCrandallField(CrandallField(6642910392999546692), CrandallField(0)),
            QuadraticCrandallField(CrandallField(7741791146249193872), CrandallField(0)),
            QuadraticCrandallField(CrandallField(16798926060530783227), CrandallField(0)),
            QuadraticCrandallField(CrandallField(9734226059658468665), CrandallField(0)),
            QuadraticCrandallField(CrandallField(4493748936488410096), CrandallField(0)),
            QuadraticCrandallField(CrandallField(10336076011341583961), CrandallField(0)),
            QuadraticCrandallField(CrandallField(18182415913074625885), CrandallField(0)),
            QuadraticCrandallField(CrandallField(1263205237914308605), CrandallField(0)),
            QuadraticCrandallField(CrandallField(2749641306271681800), CrandallField(0)),
            QuadraticCrandallField(CrandallField(17693342457461666007), CrandallField(0)),
            QuadraticCrandallField(CrandallField(3358628452671686165), CrandallField(0)),
            QuadraticCrandallField(CrandallField(1124759475934312727), CrandallField(0)),
            QuadraticCrandallField(CrandallField(15315292374433912566), CrandallField(0)),
            QuadraticCrandallField(CrandallField(12873287948187335666), CrandallField(0)),
            QuadraticCrandallField(CrandallField(8185082927996557838), CrandallField(0)),
            QuadraticCrandallField(CrandallField(49381813573434549), CrandallField(0)),
            QuadraticCrandallField(CrandallField(10208403530486555482), CrandallField(0)),
            QuadraticCrandallField(CrandallField(12415854027883229166), CrandallField(0)),
            QuadraticCrandallField(CrandallField(6183774639018825925), CrandallField(0)),
            QuadraticCrandallField(CrandallField(18446744071293632512), CrandallField(0)),
            QuadraticCrandallField(CrandallField(1), CrandallField(0)),
        ];
        assert(product_c0(0, 7889429148549342301, 0, 7889429148549342301) == 10454523445950444044) by (nonlinear_arith);
        assert(product_c1(0, 7889429148549342301, 0, 7889429148549342301) == 0) by (nonlinear_arith);
        assert(product_c0(10454523445950444044, 0, 10454523445950444044, 0) == 16130492503774724590) by (nonlinear_arith);
        assert(product_c1(10454523445950444044, 0, 10454523445950444044, 0) == 0) by (nonlinear_arith);
        assert(product_c0(16130492503774724590, 0, 16130492503774724590, 0) == 11855083304927111684) by (nonlinear_arith);
        assert(product_c1(16130492503774724590, 0, 16130492503774724590, 0) == 0) by (nonlinear_arith);
        assert(product_c0(11855083304927111684, 0, 11855083304927111684, 0) == 12017597325531527064) by (nonlinear_arith);
        assert(product_c1(11855083304927111684, 0, 11855083304927111684, 0) == 0) by (nonlinear_arith);
        assert(product_c0(12017597325531527064, 0, 12017597325531527064, 0) == 11285179876094320544) by (nonlinear_arith);
        assert(product_c1(12017597325531527064, 0, 12017597325531527064, 0) == 0) by (nonlinear_arith);
        assert(product_c0(11285179876094320544, 0, 11285179876094320544, 0) == 18345646034750369613) by (nonlinear_arith);
        assert(product_c1(11285179876094320544, 0, 11285179876094320544, 0) == 0) by (nonlinear_arith);
        assert(product_c0(18345646034750369613, 0, 18345646034750369613, 0) == 1142528823649738932) by (nonlinear_arith);
        assert(product_c1(18345646034750369613, 0, 18345646034750369613, 0) == 0) by (nonlinear_arith);
        assert(product_c0(1142528823649738932, 0, 1142528823649738932, 0) == 7217157857328644411) by (nonlinear_arith);
        assert(product_c1(1142528823649738932, 0, 1142528823649738932, 0) == 0) by (nonlinear_arith);
        assert(product_c0(7217157857328644411, 0, 7217157857328644411, 0) == 6642910392999546692) by (nonlinear_arith);
        assert(product_c1(7217157857328644411, 0, 7217157857328644411, 0) == 0) by (nonlinear_arith);
        assert(product_c0(6642910392999546692, 0, 6642910392999546692, 0) == 7741791146249193872) by (nonlinear_arith);
        assert(product_c1(6642910392999546692, 0, 6642910392999546692, 0) == 0) by (nonlinear_arith);
        assert(product_c0(7741791146249193872, 0, 7741791146249193872, 0) == 16798926060530783227) by (nonlinear_arith);
        assert(product_c1(7741791146249193872, 0, 7741791146249193872, 0) == 0) by (nonlinear_arith);
        assert(product_c0(16798926060530783227, 0, 16798926060530783227, 0) == 9734226059658468665) by (nonlinear_arith);
        assert(product_c1(16798926060530783227, 0, 16798926060530783227, 0) == 0) by (nonlinear_arith);
        assert(product_c0(9734226059658468665, 0, 9734226059658468665, 0) == 4493748936488410096) by (nonlinear_arith);
        assert(product_c1(9734226059658468665, 0, 9734226059658468665, 0) == 0) by (nonlinear_arith);
        assert(product_c0(4493748936488410096, 0, 4493748936488410096, 0) == 10336076011341583961) by (nonlinear_arith);
        assert(product_c1(4493748936488410096, 0, 4493748936488410096, 0) == 0) by (nonlinear_arith);
        assert(product_c0(10336076011341583961, 0, 10336076011341583961, 0) == 18182415913074625885) by (nonlinear_arith);
        assert(product_c1(10336076011341583961, 0, 10336076011341583961, 0) == 0) by (nonlinear_arith);
        assert(product_c0(18182415913074625885, 0, 18182415913074625885, 0) == 1263205237914308605) by (nonlinear_arith);
        assert(product_c1(18182415913074625885, 0, 18182415913074625885, 0) == 0) by (nonlinear_arith);
        assert(product_c0(1263205237914308605, 0, 1263205237914308605, 0) == 2749641306271681800) by (nonlinear_arith);
        assert(product_c1(1263205237914308605, 0, 1263205237914308605, 0) == 0) by (nonlinear_arith);
        assert(product_c0(2749641306271681800, 0, 2749641306271681800, 0) == 17693342457461666007) by (nonlinear_arith);
        assert(product_c1(2749641306271681800, 0, 2749641306271681800, 0) == 0) by (nonlinear_arith);
        assert(product_c0(17693342457461666007, 0, 17693342457461666007, 0) == 3358628452671686165) by (nonlinear_arith);
        assert(product_c1(17693342457461666007, 0, 17693342457461666007, 0) == 0) by (nonlinear_arith);
        assert(product_c0(3358628452671686165, 0, 3358628452671686165, 0) == 1124759475934312727) by (nonlinear_arith);
        assert(product_c1(3358628452671686165, 0, 3358628452671686165, 0) == 0) by (nonlinear_arith);
        assert(product_c0(1124759475934312727, 0, 1124759475934312727, 0) == 15315292374433912566) by (nonlinear_arith);
        assert(product_c1(1124759475934312727, 0, 1124759475934312727, 0) == 0) by (nonlinear_arith);
        assert(product_c0(15315292374433912566, 0, 15315292374433912566, 0) == 12873287948187335666) by (nonlinear_arith);
        assert(product_c1(15315292374433912566, 0, 15315292374433912566, 0) == 0) by (nonlinear_arith);
        assert(product_c0(12873287948187335666, 0, 12873287948187335666, 0) == 8185082927996557838) by (nonlinear_arith);
        assert(product_c1(12873287948187335666, 0, 12873287948187335666, 0) == 0) by (nonlinear_arith);
        assert(product_c0(8185082927996557838, 0, 8185082927996557838, 0) == 49381813573434549) by (nonlinear_arith);
        assert(product_c1(8185082927996557838, 0, 8185082927996557838, 0) == 0) by (nonlinear_arith);
        assert(product_c0(49381813573434549, 0, 49381813573434549, 0) == 10208403530486555482) by (nonlinear_arith);
        assert(product_c1(49381813573434549, 0, 49381813573434549, 0) == 0) by (nonlinear_arith);
        assert(product_c0(10208403530486555482, 0, 10208403530486555482, 0) == 12415854027883229166) by (nonlinear_arith);
        assert(product_c1(10208403530486555482, 0, 10208403530486555482, 0) == 0) by (nonlinear_arith);
        assert(product_c0(12415854027883229166, 0, 12415854027883229166, 0) == 6183774639018825925) by (nonlinear_arith);
        assert(product_c1(12415854027883229166, 0, 12415854027883229166, 0) == 0) by (nonlinear_arith);
        assert(product_c0(6183774639018825925, 0, 6183774639018825925, 0) == 18446744071293632512) by (nonlinear_arith);
        assert(product_c1(6183774639018825925, 0, 6183774639018825925, 0) == 0) by (nonlinear_arith);
        assert(product_c0(18446744071293632512, 0, 18446744071293632512, 0) == 1) by (nonlinear_arith);
        assert(product_c1(18446744071293632512, 0, 18446744071293632512, 0) == 0) by (nonlinear_arith);
        chain
    }

    proof fn lemma_from_canonical_wf(n: u64) {
    }

    proof fn lemma_closed(a: Self, b: Self) {
        CrandallField::lemma_closed(a.0, b.0);
        CrandallField::lemma_closed(a.1, b.1);
        let p = FIELD_ORDER as int;
        lemma_mod_bound(a.0.0 * b.0.0 + 3 * (a.1.0 * b.1.0), p);
        lemma_mod_bound(a.0.0 * b.1.0 + a.1.0 * b.0.0, p);
    }

    proof fn lemma_add_commutative(a: Self, b: Self) {
        CrandallField::lemma_add_commutative(a.0, b.0);
        CrandallField::lemma_add_commutative(a.1, b.1);
    }

    proof fn lemma_add_associative(a: Self, b: Self, c: Self) {
        CrandallField::lemma_add_associative(a.0, b.0, c.0);
        CrandallField::lemma_add_associative(a.1, b.1, c.1);
    }

    proof fn lemma_add_zero(a: Self) {
        CrandallField::lemma_add_zero(a.0);
        CrandallField::lemma_add_zero(a.1);
    }

    proof fn lemma_add_neg(a: Self) {
        CrandallField::lemma_add_neg(a.0);
        CrandallField::lemma_add_neg(a.1);
    }

    proof fn lemma_mul_commutative(a: Self, b: Self) {
        let a0 = a.0.0 as int;
        let a1 = a.1.0 as int;
        let b0 = b.0.0 as int;
        let b1 = b.1.0 as int;
        assert(a0 * b0 + 3 * (a1 * b1) == b0 * a0 + 3 * (b1 * a1)) by (nonlinear_arith);
        assert(a0 * b1 + a1 * b0 == b0 * a1 + b1 * a0) by (nonlinear_arith);
    }

    proof fn lemma_mul_associative(a: Self, b: Self, c: Self) {
        let p = FIELD_ORDER as int;
        let a0 = a.0.0 as int;
        let a1 = a.1.0 as int;
        let b0 = b.0.0 as int;
        let b1 = b.1.0 as int;
        let c0 = c.0.0 as int;
        let c1 = c.1.0 as int;
        // the coordinates of the inner products, before their remainders
        let u0 = a0 * b0 + 3 * (a1 * b1);
        let u1 = a0 * b1 + a1 * b0;
        let v0 = b0 * c0 + 3 * (b1 * c1);
        let v1 = b0 * c1 + b1 * c0;
        Self::lemma_closed(a, b);
        Self::lemma_closed(b, c);
        lemma_congruent_mod(u0, p);
        lemma_congruent_mod(u1, p);
        lemma_congruent_mod(v0, p);
        lemma_congruent_mod(v1, p);
        lemma_product_congruent(u0 % p, u1 % p, c0, c1, u0, u1, c0, c1);
        lemma_product_congruent(a0, a1, v0 % p, v1 % p, a0, a1, v0, v1);
        lemma_triple_product(a0, a1, b0, b1, c0, c1);
    }

    proof fn lemma_mul_one(a: Self) {
        let a0 = a.0.0 as int;
        let a1 = a.1.0 as int;
        assert(a0 * 1 + 3 * (a1 * 0) == a0) by (nonlinear_arith);
        assert(a0 * 0 + a1 * 1 == a1) by (nonlinear_arith);
        lemma_small_mod(a0 as nat, FIELD_ORDER as nat);
        lemma_small_mod(a1 as nat, FIELD_ORDER as nat);
    }

    proof fn lemma_distributive(a: Self, b: Self, c: Self) {
        let p = FIELD_ORDER as int;
        let a0 = a.0.0 as int;
        let a1 = a.1.0 as int;
        let b0 = b.0.0 as int;
        let b1 = b.1.0 as int;
        let c0 = c.0.0 as int;
        let c1 = c.1.0 as int;
        Self::lemma_closed(a, b);
        Self::lemma_closed(a, c);
        Self::lemma_closed(b, c);
        // a * (b + c)
        lemma_congruent_mod(b0 + c0, p);
        lemma_congruent_mod(b1 + c1, p);
        lemma_product_congruent(a0, a1, (b0 + c0) % p, (b1 + c1) % p, a0, a1, b0 + c0, b1 + c1);
        // a * b + a * c
        let u0 = a0 * b0 + 3 * (a1 * b1);
        let u1 = a0 * b1 + a1 * b0;
        let w0 = a0 * c0 + 3 * (a1 * c1);
        let w1 = a0 * c1 + a1 * c0;
        lemma_add_mod_noop(u0, w0, p);
        lemma_add_mod_noop(u1, w1, p);
        assert(u0 + w0 == a0 * (b0 + c0) + 3 * (a1 * (b1 + c1))) by (nonlinear_arith)
            requires
                u0 == a0 * b0 + 3 * (a1 * b1),
                w0 == a0 * c0 + 3 * (a1 * c1),
        ;
        assert(u1 + w1 == a0 * (b1 + c1) + a1 * (b0 + c0)) by (nonlinear_arith)
            requires
                u1 == a0 * b1 + a1 * b0,
                w1 == a0 * c1 + a1 * c0,
        ;
        lemma_mod_bound(u0, p);
        lemma_mod_bound(u1, p);
        lemma_mod_bound(w0, p);
        lemma_mod_bound(w1, p);
    }

    fn zero() -> (r: Self) {
        QuadraticCrandallField(CrandallField(0), CrandallField(0))
    }

    fn one() -> (r: Self) {
        QuadraticCrandallField(CrandallField(1), CrandallField(0))
    }

    fn characteristic() -> (r: u64) {
        FIELD_ORDER
    }

    fn order() -> (r: BigUint) {
        biguint_mul_u64(&biguint_from_u64(FIELD_ORDER), FIELD_ORDER)
    }

    fn two_adicity() -> (r: usize) {
        29
    }

    fn multiplicative_group_generator() -> (r: Self) {
        QuadraticCrandallField(CrandallField(3), CrandallField(1))
    }

    fn power_of_two_generator() -> (r: Self) {
        QuadraticCrandallField(CrandallField(0), CrandallField(7889429148549342301))
    }

    fn add(self, rhs: Self) -> (r: Self) {
        QuadraticCrandallField(self.0.add(rhs.0), self.1.add(rhs.1))
    }

    fn neg(self) -> (r: Self) {
        QuadraticCrandallField(self.0.neg(), self.1.neg())
    }

    fn mul(self, rhs: Self) -> (r: Self) {
        proof {
            lemma_product_in_base(self, rhs);
            Self::lemma_closed(self, rhs);
        }
        let c0 = self.0.mul(rhs.0).add(CrandallField(3).mul(self.1.mul(rhs.1)));
        let c1 = self.0.mul(rhs.1).add(self.1.mul(rhs.0));
        QuadraticCrandallField(c0, c1)
    }

    fn is_canonical(&self) -> (r: bool) {
        self.0.is_canonical() && self.1.is_canonical()
    }

    fn equals(&self, other: &Self) -> (r: bool) {
        self.0.equals(&other.0) && self.1.equals(&other.1)
    }

    fn try_inverse(&self) -> (r: Option<Self>) {
        // The inverse of a0 + a1 X is (a0 - a1 X) / (a0^2 - 3 a1^2).
        let square0 = self.0.mul(self.0);
        let square1 = self.1.mul(self.1);
        let norm = square0.sub(CrandallField(3).mul(square1));
        proof {
            lemma_norm_in_base(*self);
        }
        match norm.try_inverse() {
            Some(n) => {
                let inverse = QuadraticCrandallField(self.0.mul(n), self.1.neg().mul(n));
                proof {
                    lemma_inverse_by_norm(*self, n);
                }
                Some(inverse)
            },
            None => {
                proof {
                    assert forall|i: Self| i.wf() implies #[trigger] self.mul_spec(i)
                        != Self::one_spec() by {
                        if self.mul_spec(i) == Self::one_spec() {
                            lemma_norm_of_unit(*self, i);
                        }
                    }
                }
                None
            },
        }
    }

    fn from_canonical_u64(n: u64) -> (r: Self) {
        QuadraticCrandallField(CrandallField(n), CrandallField(0))
    }

    fn from_noncanonical_u128(n: u128) -> (r: Self) {
        QuadraticCrandallField(CrandallField::from_noncanonical_u128(n), CrandallField(0))
    }
}

/// The norm computed in the base field is the norm.
pub proof fn lemma_norm_in_base(a: QuadraticCrandallField)
    requires
        a.wf(),
    ensures
        sub_spec(a.0.mul_spec(a.0), CrandallField(3).mul_spec(a.1.mul_spec(a.1))).0 == norm_spec(
            a.0.0 as int,
            a.1.0 as int,
        ),
{
    let p = FIELD_ORDER as int;
    let a0 = a.0.0 as int;
    let a1 = a.1.0 as int;
    let s0 = (a0 * a0) % p;
    let s1 = (a1 * a1) % p;
    let t = (3 * s1) % p;
    lemma_mod_bound(a0 * a0, p);
    lemma_mod_bound(a1 * a1, p);
    lemma_mod_bound(3 * s1, p);
    lemma_small_mod(t as nat, p as nat);
    // the negation of t is congruent to -3 a1^2
    lemma_congruent_neg(t, p);
    lemma_congruent_mod(p - t, p);
    lemma_congruent_mod(a1 * a1, p);
    lemma_congruent_mul(3, 3, s1, a1 * a1, p);
    lemma_congruent_mod(3 * s1, p);
    lemma_congruent_mul(-1, -1, t, 3 * (a1 * a1), p);
    assert(-1 * t == -t);
    assert(-1 * (3 * (a1 * a1)) == -(3 * (a1 * a1)));
    lemma_congruent_mod(a0 * a0, p);
    lemma_congruent_add(s0, a0 * a0, (p - t) % p, -(3 * (a1 * a1)), p);
    lemma_mod_bound(p - t, p);
    lemma_mod_bound(a0 * a0 - 3 * (a1 * a1), p);
    lemma_mod_bound(s0 + (p - t) % p, p);
}

/// With `n` the inverse of the norm of `a0 + a1 X` in the base field,
/// `(a0 - a1 X) n` is the inverse of `a0 + a1 X`.
pub proof fn lemma_inverse_by_norm(a: QuadraticCrandallField, n: CrandallField)
    requires
        a.wf(),
        n.wf(),
        (norm_spec(a.0.0 as int, a.1.0 as int) * n.0) % (FIELD_ORDER as int) == 1,
    ensures
        QuadraticCrandallField(a.0.mul_spec(n), a.1.neg_spec().mul_spec(n)).wf(),
        a.mul_spec(QuadraticCrandallField(a.0.mul_spec(n), a.1.neg_spec().mul_spec(n)))
            == QuadraticCrandallField::one_spec(),
{
    let p = FIELD_ORDER as int;
    let a0 = a.0.0 as int;
    let a1 = a.1.0 as int;
    let k = n.0 as int;
    let i0 = (a0 * k) % p;
    let m1 = (p - a1 % p) % p;
    let i1 = (m1 * k) % p;
    CrandallField::lemma_closed(a.0, n);
    CrandallField::lemma_closed(a.1, n);
    CrandallField::lemma_closed(a.1.neg_spec(), n);
    lemma_small_mod(a1 as nat, p as nat);
    lemma_mod_bound(p - a1, p);
    lemma_mod_bound(a0 * k, p);
    lemma_mod_bound(m1 * k, p);
    // i0 is congruent to a0 k, and i1 to -a1 k
    lemma_congruent_mod(a0 * k, p);
    lemma_congruent_neg(a1, p);
    lemma_congruent_mod(p - a1, p);
    lemma_congruent_mul(m1, -a1, k, k, p);
    lemma_congruent_mod(m1 * k, p);
    lemma_product_congruent(a0, a1, i0, i1, a0, a1, a0 * k, (-a1) * k);
    // the product with the integers in place of the remainders
    let norm = a0 * a0 - 3 * (a1 * a1);
    assert(a0 * (a0 * k) + 3 * (a1 * ((-a1) * k)) == norm * k) by (nonlinear_arith)
        requires
            norm == a0 * a0 - 3 * (a1 * a1),
    ;
    assert(a0 * ((-a1) * k) + a1 * (a0 * k) == 0) by (nonlinear_arith);
    lemma_congruent_mod(norm, p);
    lemma_congruent_mul(norm % p, norm, k, k, p);
    lemma_small_mod(0, p as nat);
}

/// An element with an inverse has a norm with an inverse: the norm of the
/// inverse.
pub proof fn lemma_norm_of_unit(a: QuadraticCrandallField, b: QuadraticCrandallField)
    requires
        a.wf(),
        b.wf(),
        a.mul_spec(b) == QuadraticCrandallField::one_spec(),
    ensures
        CrandallField(norm_spec(a.0.0 as int, a.1.0 as int) as u64).mul_spec(
            CrandallField(norm_spec(b.0.0 as int, b.1.0 as int) as u64),
        ) == CrandallField(1),
        CrandallField(norm_spec(b.0.0 as int, b.1.0 as int) as u64).wf(),
{
    let p = FIELD_ORDER as int;
    let a0 = a.0.0 as int;
    let a1 = a.1.0 as int;
    let b0 = b.0.0 as int;
    let b1 = b.1.0 as int;
    let na = a0 * a0 - 3 * (a1 * a1);
    let nb = b0 * b0 - 3 * (b1 * b1);
    let u0 = a0 * b0 + 3 * (a1 * b1);
    let u1 = a0 * b1 + a1 * b0;
    lemma_mod_bound(na, p);
    lemma_mod_bound(nb, p);
    lemma_mod_bound(u0, p);
    lemma_mod_bound(u1, p);
    assert(u0 % p == 1);
    assert(u1 % p == 0);
    lemma_norm_multiplicative(a0, a1, b0, b1);
    lemma_small_mod(1, p as nat);
    lemma_small_mod(0, p as nat);
    lemma_congruent_mul(u0, 1, u0, 1, p);
    lemma_congruent_mul(u1, 0, u1, 0, p);
    lemma_congruent_mul(-3, -3, u1 * u1, 0, p);
    lemma_congruent_add(u0 * u0, 1, -3 * (u1 * u1), 0, p);
    assert(u0 * u0 + -3 * (u1 * u1) == u0 * u0 - 3 * (u1 * u1)) by (nonlinear_arith);
    assert(congruent(na * nb, 1, p));
    lemma_congruent_mod(na, p);
    lemma_congruent_mod(nb, p);
    lemma_congruent_mul(na % p, na, nb % p, nb, p);
    lemma_mod_bound((na % p) * (nb % p), p);
}

impl FieldExtension<CrandallField> for QuadraticCrandallField {
    open spec fn dimension_spec() -> nat {
        2
    }

    open spec fn from_basefield_spec(x: CrandallField) -> Self {
        QuadraticCrandallField(x, CrandallField(0))
    }

    open spec fn to_basefield_seq(self) -> Seq<CrandallField> {
        seq![self.0, self.1]
    }

    proof fn lemma_extension_wf(x: CrandallField, e: Self) {
    }

    fn dimension() -> (r: usize) {
        2
    }

    fn from_basefield(x: CrandallField) -> (r: Self) {
        QuadraticCrandallField(x, CrandallField(0))
    }

    fn to_basefield_array(&self) -> (r: Vec<CrandallField>) {
        let mut v: Vec<CrandallField> = Vec::new();
        v.push(self.0);
        v.push(self.1);
        assert(v@ =~= seq![self.0, self.1]);
        v
    }
}

/// The automorphism maps `c0 + c1 X` to `c0 - c1 X`; applied twice it
/// changes nothing.
impl Frobenius<CrandallField> for QuadraticCrandallField {
    open spec fn repeated_frobenius_spec(self, count: nat) -> Self {
        if count % 2 == 0 {
            self
        } else {
            QuadraticCrandallField(self.0, self.1.neg_spec())
        }
    }

    proof fn lemma_frobenius(e: Self, x: CrandallField, count: nat) {
        CrandallField::lemma_closed(e.1, e.1);
        vstd::arithmetic::div_mod::lemma_mod_self_0(FIELD_ORDER as int);
    }

    fn repeated_frobenius(&self, count: usize) -> (r: Self) {
        if count % 2 == 0 {
            *self
        } else {
            QuadraticCrandallField(self.0, self.1.neg())
        }
    }
}

} // verus!
