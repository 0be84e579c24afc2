//! Arithmetic on residues modulo a modulus that fits a machine word.
use vstd::arithmetic::div_mod::{
    lemma_add_mod_noop, lemma_fundamental_div_mod, lemma_mod_bound, lemma_mod_multiples_vanish,
    lemma_mul_mod_noop_general, lemma_small_mod, lemma_sub_mod_noop,
};
use vstd::arithmetic::mul::{
    lemma_mul_is_associative, lemma_mul_is_commutative, lemma_mul_is_distributive_add,
};
use vstd::prelude::*;

verus! {

/// Sum of two residues.
pub open spec fn add_mod(a: nat, b: nat, m: nat) -> nat {
    (a + b) % m
}

/// The residue that adds up to zero with `a`.
pub open spec fn neg_mod(a: nat, m: nat) -> nat {
    ((m - a % m) % (m as int)) as nat
}

/// Product of two residues.
pub open spec fn mul_mod(a: nat, b: nat, m: nat) -> nat {
    (a * b) % m
}

/// `d` divides `n`.
pub open spec fn divides(d: int, n: int) -> bool {
    n % d == 0
}

/// `a` has a multiplicative inverse modulo `m`.
pub open spec fn is_unit_mod(a: nat, m: nat) -> bool {
    exists|i: nat| i < m && #[trigger] mul_mod(a, i, m) == 1
}

/// Addition modulo `m` is associative.
pub proof fn lemma_add_mod_associative(a: nat, b: nat, c: nat, m: nat)
    requires
        m > 0,
    ensures
        add_mod(add_mod(a, b, m), c, m) == add_mod(a, add_mod(b, c, m), m),
{
    lemma_add_mod_noop((a + b) as int, c as int, m as int);
    lemma_add_mod_noop(a as int, (b + c) as int, m as int);
    lemma_small_mod(add_mod(a, b, m), m);
    lemma_small_mod(add_mod(b, c, m), m);
    lemma_mod_bound((a + b) as int, m as int);
    lemma_mod_bound((b + c) as int, m as int);
    lemma_add_mod_noop(add_mod(a, b, m) as int, c as int, m as int);
    lemma_add_mod_noop(a as int, add_mod(b, c, m) as int, m as int);
}

/// A residue and its negation add up to zero modulo `m`.
pub proof fn lemma_add_neg_mod(a: nat, m: nat)
    requires
        m > 0,
        a < m,
    ensures
        add_mod(a, neg_mod(a, m), m) == 0,
        neg_mod(a, m) < m,
{
    lemma_small_mod(a, m);
    if a == 0 {
        vstd::arithmetic::div_mod::lemma_mod_self_0(m as int);
        lemma_small_mod(0, m);
    } else {
        lemma_small_mod((m - a) as nat, m);
        vstd::arithmetic::div_mod::lemma_mod_self_0(m as int);
    }
}

/// Multiplication modulo `m` is associative.
pub proof fn lemma_mul_mod_associative(a: nat, b: nat, c: nat, m: nat)
    requires
        m > 0,
    ensures
        mul_mod(mul_mod(a, b, m), c, m) == mul_mod(a, mul_mod(b, c, m), m),
{
    lemma_mul_mod_noop_general((a * b) as int, c as int, m as int);
    lemma_mul_mod_noop_general(a as int, (b * c) as int, m as int);
    lemma_mul_is_associative(a as int, b as int, c as int);
}

/// Multiplication modulo `m` distributes over addition.
pub proof fn lemma_mul_mod_distributive(a: nat, b: nat, c: nat, m: nat)
    requires
        m > 0,
    ensures
        mul_mod(a, add_mod(b, c, m), m) == add_mod(mul_mod(a, b, m), mul_mod(a, c, m), m),
{
    lemma_mul_mod_noop_general(a as int, (b + c) as int, m as int);
    lemma_mul_is_distributive_add(a as int, b as int, c as int);
    lemma_add_mod_noop((a * b) as int, (a * c) as int, m as int);
}

/// An inverse modulo `m` is unique among the residues.
pub proof fn lemma_inverse_mod_unique(a: nat, i: nat, j: nat, m: nat)
    requires
        m > 0,
        i < m,
        j < m,
        mul_mod(a, i, m) == 1,
        mul_mod(a, j, m) == 1,
    ensures
        i == j,
{
    // i == i * (a * j) == (i * a) * j == j, all modulo m
    lemma_mul_mod_associative(i, a, j, m);
    lemma_mul_is_commutative(i as int, a as int);
    lemma_small_mod(i, m);
    lemma_small_mod(j, m);
    assert(mul_mod(i, 1, m) == i) by {
        assert(i * 1 == i);
    }
    assert(mul_mod(1, j, m) == j) by {
        assert(1 * j == j);
    }
}

/// `x` and `y` leave the same remainder modulo `m`.
pub open spec fn congruent(x: int, y: int, m: int) -> bool {
    x % m == y % m
}

/// A remainder is congruent to what it is the remainder of.
pub proof fn lemma_congruent_mod(x: int, m: int)
    requires
        m > 0,
    ensures
        congruent(x % m, x, m),
{
    vstd::arithmetic::div_mod::lemma_mod_twice(x, m);
}

/// Sums of congruent numbers are congruent.
pub proof fn lemma_congruent_add(x: int, x2: int, y: int, y2: int, m: int)
    requires
        m > 0,
        congruent(x, x2, m),
        congruent(y, y2, m),
    ensures
        congruent(x + y, x2 + y2, m),
{
    lemma_add_mod_noop(x, y, m);
    lemma_add_mod_noop(x2, y2, m);
}

/// Products of congruent numbers are congruent.
pub proof fn lemma_congruent_mul(x: int, x2: int, y: int, y2: int, m: int)
    requires
        m > 0,
        congruent(x, x2, m),
        congruent(y, y2, m),
    ensures
        congruent(x * y, x2 * y2, m),
{
    lemma_mul_mod_noop_general(x, y, m);
    lemma_mul_mod_noop_general(x2, y2, m);
}

/// The modulus less a number is congruent to the number negated.
pub proof fn lemma_congruent_neg(x: int, m: int)
    requires
        m > 0,
    ensures
        congruent(m - x, -x, m),
{
    vstd::arithmetic::div_mod::lemma_mod_add_multiples_vanish(-x, m);
}

/// Sum of two residues below `m`.
pub fn add_mod_u64(a: u64, b: u64, m: u64) -> (r: u64)
    requires
        a < m,
        b < m,
    ensures
        r == add_mod(a as nat, b as nat, m as nat),
        r < m,
{
    let s: u128 = a as u128 + b as u128;
    proof {
        lemma_mod_bound(s as int, m as int);
    }
    (s % (m as u128)) as u64
}

/// Negation of a residue below `m`.
pub fn neg_mod_u64(a: u64, m: u64) -> (r: u64)
    requires
        a < m,
    ensures
        r == neg_mod(a as nat, m as nat),
        r < m,
{
    proof {
        lemma_add_neg_mod(a as nat, m as nat);
        lemma_small_mod(a as nat, m as nat);
        if a != 0 {
            lemma_small_mod((m - a) as nat, m as nat);
        } else {
            vstd::arithmetic::div_mod::lemma_mod_self_0(m as int);
        }
    }
    if a == 0 {
        0
    } else {
        m - a
    }
}

/// Product of two residues below `m`.
pub fn mul_mod_u64(a: u64, b: u64, m: u64) -> (r: u64)
    requires
        a < m,
        b < m,
    ensures
        r == mul_mod(a as nat, b as nat, m as nat),
        r < m,
{
    proof {
        assert(a * b < 0x1_0000_0000_0000_0000 * 0x1_0000_0000_0000_0000) by (nonlinear_arith)
            requires
                a < 0x1_0000_0000_0000_0000,
                b < 0x1_0000_0000_0000_0000,
        ;
        lemma_mod_bound(a * b, m as int);
    }
    let p: u128 = (a as u128) * (b as u128);
    (p % (m as u128)) as u64
}

/// One step of the extended Euclidean algorithm keeps the cofactor relation:
/// if `a*s0 - r0` and `a*s1 - r1` are multiples of `m`, so is
/// `a*(s0 - q*s1) - (r0 - q*r1)`.
proof fn lemma_cofactor_step(a: int, m: int, r0: int, r1: int, s0: int, s1: int, q: int)
    requires
        m > 0,
        (a * s0 - r0) % m == 0,
        (a * s1 - r1) % m == 0,
    ensures
        (a * (s0 - q * s1) - (r0 - q * r1)) % m == 0,
{
    let u = a * s0 - r0;
    let v = a * s1 - r1;
    assert(a * (s0 - q * s1) - (r0 - q * r1) == u - q * v) by (nonlinear_arith)
        requires
            u == a * s0 - r0,
            v == a * s1 - r1,
    ;
    lemma_mul_mod_noop_general(q, v, m);
    assert((q * v) % m == 0) by {
        assert(q * 0 == 0);
        lemma_small_mod(0, m as nat);
    }
    lemma_sub_mod_noop(u, q * v, m);
    lemma_small_mod(0, m as nat);
}

/// A common divisor of `r1` and `r0 % r1` divides `r0`.
proof fn lemma_divisor_step(d: int, r0: int, r1: int)
    requires
        d > 0,
        r1 > 0,
        r0 >= 0,
        r1 % d == 0,
        (r0 % r1) % d == 0,
    ensures
        r0 % d == 0,
{
    let q = r0 / r1;
    lemma_fundamental_div_mod(r0, r1);
    lemma_mul_mod_noop_general(r1, q, d);
    assert((r1 * q) % d == 0) by {
        assert(0 * q == 0);
        lemma_small_mod(0, d as nat);
    }
    lemma_add_mod_noop(r1 * q, r0 % r1, d);
    lemma_small_mod(0, d as nat);
}

/// A residue with a common divisor greater than one with the modulus has no inverse.
proof fn lemma_common_divisor_no_inverse(a: nat, m: nat, g: nat, i: nat)
    requires
        m > 0,
        g > 1,
        a % g == 0,
        m % g == 0,
    ensures
        mul_mod(a, i, m) != 1,
{
    if mul_mod(a, i, m) == 1 {
        let x = (a * i) as int;
        let k = x / (m as int);
        lemma_fundamental_div_mod(x, m as int);
        // x == m * k + 1, and g divides both x and m * k
        lemma_mul_mod_noop_general(a as int, i as int, g as int);
        assert((0 * i) == 0);
        lemma_small_mod(0, g);
        assert(x % (g as int) == 0);
        lemma_mul_mod_noop_general(m as int, k, g as int);
        assert(0 * k == 0);
        assert((m * k) % (g as int) == 0);
        lemma_sub_mod_noop(x, m * k, g as int);
        assert((x - m * k) % (g as int) == 0);
        lemma_small_mod(1, g);
        assert(false);
    }
}

/// The inverse of `a` modulo `m` by the extended Euclidean algorithm, or `None`
/// where `a` has none.
pub fn inverse_mod_u64(a: u64, m: u64) -> (r: Option<u64>)
    requires
        m > 1,
        a < m,
    ensures
        match r {
            Some(i) => i < m && mul_mod(a as nat, i as nat, m as nat) == 1,
            None => !is_unit_mod(a as nat, m as nat),
        },
{
    let mut r0: u64 = m;
    let mut r1: u64 = a;
    let mut s0: u64 = 0;
    let mut s1: u64 = 1;
    let ghost mut c0: int = 0;
    let ghost mut c1: int = 1;
    proof {
        lemma_small_mod(0, m as nat);
        lemma_small_mod(1, m as nat);
        assert(a * 0 - m == -1 * m) by (nonlinear_arith);
        lemma_mod_multiples_vanish(-1, 0, m as int);
        assert(a * 1 - a == 0);
    }
    while r1 != 0
        invariant
            m > 1,
            a < m,
            0 < r0 <= m,
            r1 < m,
            s0 < m,
            s1 < m,
            s0 == c0 % (m as int),
            s1 == c1 % (m as int),
            (a * c0 - r0) % (m as int) == 0,
            (a * c1 - r1) % (m as int) == 0,
            forall|d: int|
                d > 0 && #[trigger] divides(d, r0 as int) && divides(d, r1 as int) ==> divides(
                    d,
                    a as int,
                ) && divides(d, m as int),
        decreases r1,
    {
        let q = r0 / r1;
        let r2 = r0 % r1;
        let qs = mul_mod_u64(q % m, s1, m);
        let nqs = neg_mod_u64(qs, m);
        let s2 = add_mod_u64(s0, nqs, m);
        proof {
            let mi = m as int;
            lemma_fundamental_div_mod(r0 as int, r1 as int);
            assert(r2 == r0 - q * r1) by (nonlinear_arith)
                requires
                    r0 == r1 * q + r2,
            ;
            lemma_cofactor_step(a as int, mi, r0 as int, r1 as int, c0, c1, q as int);
            let c2 = c0 - q * c1;
            // s2 is c2 reduced
            lemma_mul_mod_noop_general(q as int, c1, mi);
            assert(qs == (q * c1) % mi);
            lemma_small_mod(qs as nat, m as nat);
            if qs == 0 {
                vstd::arithmetic::div_mod::lemma_mod_self_0(mi);
                assert(nqs == 0);
            } else {
                lemma_small_mod((m - qs) as nat, m as nat);
                assert(nqs == m - qs);
            }
            lemma_sub_mod_noop(c0, q * c1, mi);
            assert(c2 % mi == (s0 - qs) % mi);
            lemma_mod_multiples_vanish(1, s0 - qs, mi);
            assert((s0 - qs + mi) % mi == (s0 - qs) % mi);
            assert(s2 == c2 % mi);
            assert forall|d: int|
                d > 0 && #[trigger] divides(d, r1 as int) && divides(d, r2 as int) implies divides(
                d,
                a as int,
            ) && divides(d, m as int) by {
                lemma_divisor_step(d, r0 as int, r1 as int);
                assert(divides(d, r0 as int));
            }
            lemma_mod_bound(r0 as int, r1 as int);
            c0 = c1;
            c1 = c2;
        }
        r0 = r1;
        r1 = r2;
        s0 = s1;
        s1 = s2;
    }
    if r0 == 1 {
        proof {
            let mi = m as int;
            // a * c0 == 1 modulo m, and s0 is c0 reduced
            lemma_mul_mod_noop_general(a as int, c0, mi);
            lemma_sub_mod_noop(a * c0, 1, mi);
            lemma_small_mod(1, m as nat);
            lemma_small_mod(0, m as nat);
            lemma_mod_bound(a * c0, mi);
            let t = (a * c0) % mi;
            assert((t - 1) % mi == 0);
            if t != 1 {
                if t == 0 {
                    lemma_mod_multiples_vanish(1, -1, mi);
                    lemma_small_mod((m - 1) as nat, m as nat);
                } else {
                    lemma_small_mod((t - 1) as nat, m as nat);
                }
            }
        }
        Some(s0)
    } else {
        proof {
            assert(0int % (r0 as int) == 0) by {
                lemma_small_mod(0, r0 as nat);
            }
            vstd::arithmetic::div_mod::lemma_mod_self_0(r0 as int);
            assert(divides(r0 as int, r0 as int) && divides(r0 as int, r1 as int));
            assert(divides(r0 as int, a as int) && divides(r0 as int, m as int));
            assert forall|i: nat| i < m implies #[trigger] mul_mod(a as nat, i, m as nat) != 1 by {
                lemma_common_divisor_no_inverse(a as nat, m as nat, r0 as nat, i);
            }
        }
        None
    }
}

} // verus!
