//! How the bits that targets hold relate to the numbers they are the bits of.
use crate::field::field_types::Field;
use crate::iop::target::BoolTarget;
use crate::plonk::gates::{bit_at, bits_of, le_value, Value};
use crate::util::reverse_low_bits;
use vstd::arithmetic::div_mod::{lemma_div_denominator, lemma_mod_breakdown, lemma_small_mod};
use vstd::arithmetic::power2::{
    lemma2_to64, lemma_pow2_adds, lemma_pow2_pos, lemma_pow2_unfold, pow2,
};
use vstd::prelude::*;

verus! {

/// Dividing by two powers of two in turn divides by the power with the sum of
/// the exponents.
pub proof fn lemma_div_pow2_twice(x: nat, a: nat, b: nat)
    ensures
        (x / pow2(a)) / pow2(b) == x / pow2(a + b),
{
    lemma_pow2_pos(a);
    lemma_pow2_pos(b);
    lemma_pow2_adds(a, b);
    lemma_div_denominator(x as int, pow2(a) as int, pow2(b) as int);
}

/// Dividing the remainder modulo `2^n` by `2^i`, for `i` up to `n`, gives the
/// low `n - i` bits of the quotient by `2^i`.
pub proof fn lemma_remainder_div_pow2(x: nat, n: nat, i: nat)
    requires
        i <= n,
    ensures
        (x % pow2(n)) / pow2(i) == (x / pow2(i)) % pow2((n - i) as nat),
{
    let y = pow2(i) as int;
    let z = pow2((n - i) as nat) as int;
    lemma_pow2_pos(i);
    lemma_pow2_pos((n - i) as nat);
    lemma_pow2_adds(i, (n - i) as nat);
    vstd::arithmetic::div_mod::lemma_breakdown(x as int, y, z);
    vstd::arithmetic::div_mod::lemma_mod_bound(x as int, y);
    vstd::arithmetic::div_mod::lemma_mod_bound(x as int / y, z);
    let q = (x as int / y) % z;
    let r = x as int % y;
    assert(x as int % (y * z) == y * q + r);
    vstd::arithmetic::div_mod::lemma_fundamental_div_mod_converse(y * q + r, y, q, r);
}

/// Bit `i` of a number, for `i` below `n`, is bit `i` of its remainder modulo
/// `2^n`.
pub proof fn lemma_bit_of_remainder(x: nat, n: nat, i: nat)
    requires
        i < n,
    ensures
        ((x % pow2(n)) / pow2(i)) % 2 == (x / pow2(i)) % 2,
{
    lemma_remainder_div_pow2(x, n, i);
    let rest = (n - i - 1) as nat;
    lemma_pow2_pos(rest);
    vstd::arithmetic::power2::lemma_pow2_unfold((n - i) as nat);
    vstd::arithmetic::div_mod::lemma_mod_mod((x / pow2(i)) as int, 2, pow2(rest) as int);
}

/// Up to `n` bits of a number from bit zero on are those of its remainder
/// modulo `2^n`.
pub proof fn lemma_bits_of_remainder<F: Field, E, D>(
    vals: Seq<Value<F, E, D>>,
    bits: Seq<BoolTarget>,
    x: nat,
    n: nat,
)
    requires
        bits_of(vals, bits, x, 0),
        bits.len() <= n,
    ensures
        bits_of(vals, bits, x % pow2(n), 0),
{
    assert forall|j: int| 0 <= j < bits.len() implies bit_at(vals, #[trigger] bits[j]) == ((x
        % pow2(n)) / pow2((0 + j) as nat)) % 2 by {
        lemma_bit_of_remainder(x, n, j as nat);
    }
}

/// Dividing by `2^0` changes nothing.
pub proof fn lemma_div_pow2_zero(x: nat)
    ensures
        x / pow2(0) == x,
        pow2(0) == 1,
{
    lemma2_to64();
}

/// The number given by the first `n` bits depends on those bits only.
pub proof fn lemma_le_value_same_bits<F: Field, E, D>(
    vals: Seq<Value<F, E, D>>,
    bits: Seq<BoolTarget>,
    other: Seq<BoolTarget>,
    n: nat,
)
    requires
        n <= bits.len(),
        n <= other.len(),
        forall|j: int| 0 <= j < n ==> bits[j] == other[j],
    ensures
        le_value(vals, bits, n) == le_value(vals, other, n),
    decreases n,
{
    if n > 0 {
        lemma_le_value_same_bits(vals, bits, other, (n - 1) as nat);
    }
}

/// The first `n` of the bits of `x` from bit `offset` on give the number
/// `(x / 2^offset) % 2^n`.
pub proof fn lemma_le_value_of_bits<F: Field, E, D>(
    vals: Seq<Value<F, E, D>>,
    bits: Seq<BoolTarget>,
    x: nat,
    offset: nat,
    n: nat,
)
    requires
        bits_of(vals, bits, x, offset),
        n <= bits.len(),
    ensures
        le_value(vals, bits, n) == (x / pow2(offset)) % pow2(n),
    decreases n,
{
    lemma_pow2_pos(offset);
    let y = x / pow2(offset);
    if n == 0 {
        lemma2_to64();
    } else {
        let n1 = (n - 1) as nat;
        lemma_le_value_of_bits(vals, bits, x, offset, n1);
        lemma_div_pow2_twice(x, offset, n1);
        lemma_pow2_pos(n1);
        lemma_pow2_unfold(n);
        lemma2_to64();
        assert(y >= 0);
        lemma_mod_breakdown(y as int, pow2(n1) as int, 2);
        assert(bit_at(vals, bits[n1 as int]) == (x / pow2((offset + n1) as nat)) % 2);
        let top = (y / pow2(n1)) % 2;
        assert(pow2(n1) * top == top * pow2(n1)) by (nonlinear_arith);
        assert(pow2(n1) * 2 == pow2(n));
    }
}

/// Taken in opposite order, the bits of `x` from bit `offset` on give the
/// bit-reversal of `x / 2^offset`.
pub proof fn lemma_le_value_reversed<F: Field, E, D>(
    vals: Seq<Value<F, E, D>>,
    bits: Seq<BoolTarget>,
    reversed: Seq<BoolTarget>,
    x: nat,
    offset: nat,
)
    requires
        bits_of(vals, bits, x, offset),
        reversed.len() == bits.len(),
        forall|j: int| 0 <= j < bits.len() ==> reversed[j] == bits[bits.len() - 1 - j],
    ensures
        le_value(vals, reversed, bits.len()) == reverse_low_bits(x / pow2(offset), bits.len()),
    decreases bits.len(),
{
    let n = bits.len();
    lemma_pow2_pos(offset);
    let y = x / pow2(offset);
    if n > 0 {
        let n1 = (n - 1) as nat;
        let rest = bits.skip(1);
        let rest_reversed = reversed.take(n1 as int);
        assert forall|j: int| 0 <= j < rest.len() implies bit_at(vals, #[trigger] rest[j]) == (x
            / pow2((offset + 1 + j) as nat)) % 2 by {
            assert(rest[j] == bits[j + 1]);
            assert(bit_at(vals, bits[j + 1]) == (x / pow2((offset + (j + 1)) as nat)) % 2);
        }
        assert(bits_of(vals, rest, x, offset + 1));
        assert forall|j: int| 0 <= j < rest.len() implies rest_reversed[j] == rest[rest.len() - 1
            - j] by {
            assert(rest_reversed[j] == reversed[j]);
        }
        lemma_le_value_reversed(vals, rest, rest_reversed, x, offset + 1);
        lemma_le_value_same_bits(vals, reversed, rest_reversed, n1);
        lemma_div_pow2_twice(x, offset, 1);
        lemma2_to64();
        assert(x / pow2(offset + 1) == y / 2);
        assert(reversed[n1 as int] == bits[0]);
        assert(bit_at(vals, bits[0]) == (x / pow2((offset + 0) as nat)) % 2);
        assert(rest.len() == n1);
        assert(le_value(vals, reversed, n1) == reverse_low_bits(y / 2, n1));
        assert(le_value(vals, reversed, n) == le_value(vals, reversed, n1) + bit_at(
            vals,
            reversed[n1 as int],
        ) * pow2(n1));
        assert(reverse_low_bits(y, n) == (y % 2) * pow2(n1) + reverse_low_bits(y / 2, n1));
    } else {
        assert(le_value(vals, reversed, 0) == 0);
    }
}

/// The bits after the first `k` are the bits from `offset + k` on.
pub proof fn lemma_bits_of_skip<F: Field, E, D>(
    vals: Seq<Value<F, E, D>>,
    bits: Seq<BoolTarget>,
    x: nat,
    offset: nat,
    k: nat,
)
    requires
        bits_of(vals, bits, x, offset),
        k <= bits.len(),
    ensures
        bits_of(vals, bits.skip(k as int), x, offset + k),
        bits_of(vals, bits.take(k as int), x, offset),
{
    let rest = bits.skip(k as int);
    assert forall|j: int| 0 <= j < rest.len() implies bit_at(vals, #[trigger] rest[j]) == (x / pow2(
        (offset + k + j) as nat,
    )) % 2 by {
        assert(rest[j] == bits[j + k]);
        assert(bit_at(vals, bits[j + k]) == (x / pow2((offset + (j + k)) as nat)) % 2);
    }
    let first = bits.take(k as int);
    assert forall|j: int| 0 <= j < first.len() implies bit_at(vals, #[trigger] first[j]) == (x
        / pow2((offset + j) as nat)) % 2 by {
        assert(first[j] == bits[j]);
    }
}

/// A number below `2^n` is its own remainder modulo `2^n`, and has no bits
/// from bit `n` on.
pub proof fn lemma_small_number(x: nat, n: nat)
    requires
        x < pow2(n),
    ensures
        x % pow2(n) == x,
        x / pow2(n) == 0,
{
    lemma_small_mod(x, pow2(n));
    vstd::arithmetic::div_mod::lemma_basic_div(x as int, pow2(n) as int);
}


/// The number that `n` bits give is below `2^n`.
pub proof fn lemma_le_value_bound<F: Field, E, D>(
    vals: Seq<Value<F, E, D>>,
    bits: Seq<BoolTarget>,
    n: nat,
)
    ensures
        le_value(vals, bits, n) < pow2(n),
    decreases n,
{
    lemma_pow2_pos(n);
    if n > 0 {
        lemma_le_value_bound(vals, bits, (n - 1) as nat);
        lemma_pow2_unfold(n);
        let b = bit_at(vals, bits[n - 1]);
        let p = pow2((n - 1) as nat);
        assert(b * p <= p) by (nonlinear_arith)
            requires
                b <= 1,
                p >= 0,
        ;
    }
}

/// Adding a multiple of `2^m` leaves the bits below `m` as they are.
pub proof fn lemma_low_bit_of_sum(a: nat, b: nat, m: nat, j: nat)
    requires
        j < m,
    ensures
        ((a + b * pow2(m)) / pow2(j)) % 2 == (a / pow2(j)) % 2,
{
    let d = (m - j) as nat;
    lemma_pow2_adds(d, j);
    lemma_pow2_pos(j);
    lemma_pow2_pos(d);
    lemma_pow2_unfold(d);
    let pj = pow2(j);
    let half = pow2((d - 1) as nat);
    // b * 2^m == (b * 2 * half) * 2^j
    assert(b * pow2(m) == (b * (2 * half)) * pj) by (nonlinear_arith)
        requires
            pow2(m) == (2 * half) * pj,
    ;
    vstd::arithmetic::div_mod::lemma_div_multiples_vanish_fancy(0, 0, 1);
    vstd::arithmetic::div_mod::lemma_hoist_over_denominator(a as int, (b * (2 * half)) as int, pj);
    assert((a + (b * (2 * half)) * pj) / pj == a / pj + b * (2 * half));
    let q = a / pj;
    assert(b * (2 * half) == 2 * (b * half)) by (nonlinear_arith);
    vstd::arithmetic::div_mod::lemma_mod_multiples_vanish((b * half) as int, q as int, 2);
    assert((q + 2 * (b * half)) % 2 == q % 2) by {
        assert(2 * (b * half) + q == (b * half) * 2 + q) by (nonlinear_arith);
    }
}

/// The bits are the bits of the number they give.
pub proof fn lemma_bits_of_le_value<F: Field, E, D>(
    vals: Seq<Value<F, E, D>>,
    bits: Seq<BoolTarget>,
    n: nat,
)
    requires
        n <= bits.len(),
    ensures
        bits_of(vals, bits.take(n as int), le_value(vals, bits, n), 0),
    decreases n,
{
    let x = le_value(vals, bits, n);
    let firsts = bits.take(n as int);
    if n > 0 {
        let n1 = (n - 1) as nat;
        lemma_bits_of_le_value(vals, bits, n1);
        let lower = le_value(vals, bits, n1);
        let b = bit_at(vals, bits[n1 as int]);
        lemma_le_value_bound(vals, bits, n1);
        assert forall|j: int| 0 <= j < firsts.len() implies bit_at(vals, #[trigger] firsts[j]) == (x
            / pow2((0 + j) as nat)) % 2 by {
            assert(firsts[j] == bits[j]);
            if j < n1 {
                assert(bits.take(n1 as int)[j] == bits[j]);
                assert(bit_at(vals, bits.take(n1 as int)[j]) == (lower / pow2((0 + j) as nat)) % 2);
                lemma_low_bit_of_sum(lower, b, n1, j as nat);
            } else {
                lemma_pow2_pos(n1);
                vstd::arithmetic::div_mod::lemma_fundamental_div_mod_converse(
                    x as int,
                    pow2(n1) as int,
                    b as int,
                    lower as int,
                );
                lemma_small_mod(b, 2);
            }
        }
    }
}

} // verus!
