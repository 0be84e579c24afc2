//! Arbitrary-precision naturals of the `num` crate, as far as the field
//! algebra uses them.
use crate::util::bit_length;
use num::{Integer, One, Zero};
use num::bigint::BigUint;
use vstd::prelude::*;

verus! {

/// `num::bigint::BigUint`, a natural number of any size, as an opaque value.
#[verifier::external_type_specification]
#[verifier::external_body]
pub struct ExBigUint(BigUint);

/// The natural number that a `BigUint` holds.
pub uninterp spec fn biguint_to_nat(b: BigUint) -> nat;

/// `n` is a multiple of `d`.
pub open spec fn is_multiple(n: nat, d: nat) -> bool {
    if d == 0 {
        n == 0
    } else {
        n % d == 0
    }
}

/// `g` is the greatest common divisor of `a` and `b`: a common divisor that
/// every common divisor divides.
pub open spec fn is_gcd(g: nat, a: nat, b: nat) -> bool {
    &&& is_multiple(a, g)
    &&& is_multiple(b, g)
    &&& forall|d: nat| is_multiple(a, d) && is_multiple(b, d) ==> #[trigger] is_multiple(g, d)
}

/// The number that digits to the base `2^64` give, least significant first.
pub open spec fn digits_value(digits: Seq<u64>) -> nat
    decreases digits.len(),
{
    if digits.len() == 0 {
        0
    } else {
        digits[0] as nat + 0x1_0000_0000_0000_0000 * digits_value(digits.skip(1))
    }
}

/// `BigUint::from` on a `u64`: the same number.
#[verifier::external_body]
pub(crate) fn biguint_from_u64(n: u64) -> (r: BigUint)
    ensures
        biguint_to_nat(r) == n,
{
    BigUint::from(n)
}

/// `BigUint::bits`: the number of bits needed to write the number, zero for
/// zero.
#[verifier::external_body]
pub(crate) fn biguint_bits(b: &BigUint) -> (r: u64)
    ensures
        r == bit_length(biguint_to_nat(*b)),
{
    b.bits()
}

/// `BigUint::to_u64_digits`: the digits of the number to the base `2^64`,
/// least significant first.
#[verifier::external_body]
pub(crate) fn biguint_to_u64_digits(b: &BigUint) -> (r: Vec<u64>)
    ensures
        digits_value(r@) == biguint_to_nat(*b),
{
    b.to_u64_digits()
}

/// The sum of two `BigUint` (`Add`).
#[verifier::external_body]
pub(crate) fn biguint_add(a: &BigUint, b: &BigUint) -> (r: BigUint)
    ensures
        biguint_to_nat(r) == biguint_to_nat(*a) + biguint_to_nat(*b),
{
    a + b
}

/// A `BigUint` less a `u32` (`Sub<u32>`), which panics where the difference
/// would be negative.
#[verifier::external_body]
pub(crate) fn biguint_sub_u32(a: &BigUint, b: u32) -> (r: BigUint)
    requires
        biguint_to_nat(*a) >= b,
    ensures
        biguint_to_nat(r) == biguint_to_nat(*a) - b,
{
    a - b
}

/// A `BigUint` times a `u64` (`Mul<u64>`).
#[verifier::external_body]
pub(crate) fn biguint_mul_u64(a: &BigUint, n: u64) -> (r: BigUint)
    ensures
        biguint_to_nat(r) == biguint_to_nat(*a) * n,
{
    a * n
}

/// The quotient of a `BigUint` by a `u64` (`Div<u64>`), rounded down; it
/// panics on a zero divisor.
#[verifier::external_body]
pub(crate) fn biguint_div_u64(a: &BigUint, k: u64) -> (r: BigUint)
    requires
        k > 0,
    ensures
        biguint_to_nat(r) == biguint_to_nat(*a) / (k as nat),
{
    a / k
}

/// The remainder of a `BigUint` by a `u64` (`Rem<u64>`); it panics on a zero
/// divisor.
#[verifier::external_body]
pub(crate) fn biguint_rem_u64(a: &BigUint, k: u64) -> (r: BigUint)
    requires
        k > 0,
    ensures
        biguint_to_nat(r) == biguint_to_nat(*a) % (k as nat),
{
    a % k
}

/// The remainder of a `BigUint` by another (`Rem`); it panics on a zero
/// divisor.
#[verifier::external_body]
pub(crate) fn biguint_rem(a: &BigUint, b: &BigUint) -> (r: BigUint)
    requires
        biguint_to_nat(*b) > 0,
    ensures
        biguint_to_nat(r) == biguint_to_nat(*a) % biguint_to_nat(*b),
{
    a % b
}

/// `Zero::is_zero` of a `BigUint`.
#[verifier::external_body]
pub(crate) fn biguint_is_zero(a: &BigUint) -> (r: bool)
    ensures
        r == (biguint_to_nat(*a) == 0),
{
    a.is_zero()
}

/// `One::is_one` of a `BigUint`.
#[verifier::external_body]
pub(crate) fn biguint_is_one(a: &BigUint) -> (r: bool)
    ensures
        r == (biguint_to_nat(*a) == 1),
{
    a.is_one()
}

/// `Integer::gcd` of two `BigUint`: their greatest common divisor.
#[verifier::external_body]
pub(crate) fn biguint_gcd(a: &BigUint, b: &BigUint) -> (r: BigUint)
    ensures
        is_gcd(biguint_to_nat(r), biguint_to_nat(*a), biguint_to_nat(*b)),
{
    a.gcd(b)
}

} // verus!
