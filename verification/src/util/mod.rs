//! Bit-level helpers shared by the verifier: logarithms of powers of two and the
//! bit-reversal permutation in which committed evaluations are stored.
use crate::field::field_types::Field;
use crate::polynomial::polynomial::PolynomialValues;
use vstd::arithmetic::div_mod::{lemma_div_denominator, lemma_fundamental_div_mod};
use vstd::arithmetic::power2::{
    lemma2_to64, lemma_pow2_adds, lemma_pow2_pos, lemma_pow2_strictly_increases, lemma_pow2_unfold,
    pow2,
};
use vstd::bits::{lemma_usize_shl_is_mul, lemma_usize_shr_is_div};
use vstd::layout::unsigned_int_max_values;
use vstd::prelude::*;
use vstd::slice::slice_to_vec;
use vstd::std_specs::bits::{axiom_u64_leading_zeros, u64_leading_zeros};

pub mod reducing;

verus! {

/// Number of binary digits of `n`; zero has none.
pub open spec fn bit_length(n: nat) -> nat
    decreases n,
{
    if n == 0 {
        0
    } else {
        1 + bit_length(n / 2)
    }
}

/// `n` is `2^k` for some `k`.
pub open spec fn is_power_of_two(n: nat) -> bool {
    exists|k: nat| n == pow2(k)
}

/// The exponent `k` of the largest power of two `2^k <= n` (zero for `n <= 1`).
pub open spec fn log2_floor(n: nat) -> nat
    decreases n,
{
    if n <= 1 {
        0
    } else {
        1 + log2_floor(n / 2)
    }
}

/// The number whose `num_bits` binary digits are the low `num_bits` digits of `n`
/// in opposite order: digit `i` of `n` becomes digit `num_bits - 1 - i`.
pub open spec fn reverse_low_bits(n: nat, num_bits: nat) -> nat
    decreases num_bits,
{
    if num_bits == 0 {
        0
    } else {
        (n % 2) * pow2((num_bits - 1) as nat) + reverse_low_bits(n / 2, (num_bits - 1) as nat)
    }
}

/// The bit-reversal permutation of a sequence whose length is a power of two:
/// position `i` receives the entry at the reversed index.
pub open spec fn reverse_index_bits_seq<T>(s: Seq<T>) -> Seq<T> {
    Seq::new(s.len(), |i: int| s[reverse_low_bits(i as nat, log2_floor(s.len())) as int])
}

/// The transpose of a rectangular matrix given by its rows.
pub open spec fn transpose_seq<T>(m: Seq<Seq<T>>) -> Seq<Seq<T>>
    recommends
        m.len() > 0,
{
    Seq::new(m[0].len(), |i: int| Seq::new(m.len(), |j: int| m[j][i]))
}

/// All rows of `m` have the width of the first one.
pub open spec fn is_rectangular<T>(m: Seq<Seq<T>>) -> bool {
    forall|j: int| 0 <= j < m.len() ==> (#[trigger] m[j]).len() == m[0].len()
}

/// A word of 64 bits has as many binary digits as it has bits after its
/// leading zeros.
pub proof fn lemma_bit_length_leading_zeros(n: u64)
    ensures
        64 - u64_leading_zeros(n) == bit_length(n as nat),
    decreases n,
{
    reveal(u64_leading_zeros);
    if n != 0 {
        lemma_bit_length_leading_zeros(n / 2);
    }
}

/// The logarithm of `2^k` is `k`.
pub proof fn lemma_log2_floor_pow2(k: nat)
    ensures
        log2_floor(pow2(k)) == k,
    decreases k,
{
    lemma_pow2_pos(k);
    if k == 0 {
        lemma2_to64();
    } else {
        lemma_pow2_unfold(k);
        lemma_pow2_pos((k - 1) as nat);
        lemma_log2_floor_pow2((k - 1) as nat);
        assert(pow2(k) / 2 == pow2((k - 1) as nat));
    }
}

/// A reversed number has no digit beyond the width it was reversed in.
pub proof fn lemma_reverse_low_bits_bound(n: nat, k: nat)
    ensures
        reverse_low_bits(n, k) < pow2(k),
    decreases k,
{
    lemma_pow2_pos(k);
    if k > 0 {
        lemma_pow2_unfold(k);
        lemma_reverse_low_bits_bound(n / 2, (k - 1) as nat);
        let p = pow2((k - 1) as nat);
        assert((n % 2) * p <= p) by (nonlinear_arith)
            requires
                n % 2 <= 1,
                p >= 0,
        ;
    }
}

/// Reversing one digit more appends digit `k` of `n` at the low end.
pub proof fn lemma_reverse_low_bits_step(n: nat, k: nat)
    ensures
        reverse_low_bits(n, k + 1) == 2 * reverse_low_bits(n, k) + (n / pow2(k)) % 2,
    decreases k,
{
    lemma_pow2_pos(k);
    if k == 0 {
        lemma2_to64();
        assert(reverse_low_bits(n / 2, 0) == 0);
        assert(reverse_low_bits(n, 1) == (n % 2) * pow2(0) + reverse_low_bits(n / 2, 0));
    } else {
        let k1 = (k - 1) as nat;
        lemma_reverse_low_bits_step(n / 2, k1);
        lemma_pow2_unfold(k);
        lemma_pow2_pos(k1);
        lemma_div_denominator(n as int, 2, pow2(k1) as int);
        assert((n / 2) / pow2(k1) == n / pow2(k));
        let b = n % 2;
        let p = pow2(k1);
        assert(b * (2 * p) == 2 * (b * p)) by (nonlinear_arith);
        assert(reverse_low_bits(n, k + 1) == b * pow2(k) + reverse_low_bits(n / 2, k));
        assert(reverse_low_bits(n, k) == b * p + reverse_low_bits(n / 2, k1));
    }
}

/// Reversed in a wider field, a number that fits in `k` digits is its `k`-digit
/// reversal followed by zeros.
pub proof fn lemma_reverse_low_bits_widen(n: nat, k: nat, m: nat)
    requires
        n < pow2(k),
        k <= m,
    ensures
        reverse_low_bits(n, m) == reverse_low_bits(n, k) * pow2((m - k) as nat),
    decreases m - k,
{
    if m == k {
        lemma2_to64();
    } else {
        let m1 = (m - 1) as nat;
        lemma_reverse_low_bits_widen(n, k, m1);
        lemma_reverse_low_bits_step(n, m1);
        if k < m1 {
            lemma_pow2_strictly_increases(k, m1);
        }
        lemma_pow2_pos(m1);
        assert(n / pow2(m1) == 0) by {
            vstd::arithmetic::div_mod::lemma_basic_div(n as int, pow2(m1) as int);
        }
        lemma_pow2_unfold((m - k) as nat);
        let r = reverse_low_bits(n, k);
        let p = pow2((m1 - k) as nat);
        assert(2 * (r * p) == r * (2 * p)) by (nonlinear_arith);
        assert((m - k - 1) as nat == (m1 - k) as nat);
        assert(pow2((m - k) as nat) == 2 * p);
        assert(reverse_low_bits(n, m1) == r * p);
        assert(m1 + 1 == m);
        assert(reverse_low_bits(n, m) == 2 * reverse_low_bits(n, m1) + (n / pow2(m1)) % 2);
        assert(0nat % 2 == 0);
    }
}

/// The `a`-digit reversal of a number is that of its remainder modulo `2^a`.
pub proof fn lemma_reverse_low_bits_of_remainder(x: nat, a: nat)
    ensures
        reverse_low_bits(x % pow2(a), a) == reverse_low_bits(x, a),
{
    lemma_pow2_pos(a);
    lemma_fundamental_div_mod(x as int, pow2(a) as int);
    let hi = x / pow2(a);
    let lo = x % pow2(a);
    assert(pow2(a) * hi == hi * pow2(a)) by (nonlinear_arith);
    lemma_reverse_low_bits_ignores_high(hi, lo, a);
}

/// Only the low `a` digits of a number matter to its `a`-digit reversal.
pub proof fn lemma_reverse_low_bits_ignores_high(hi: nat, lo: nat, a: nat)
    ensures
        reverse_low_bits(hi * pow2(a) + lo, a) == reverse_low_bits(lo, a),
    decreases a,
{
    if a > 0 {
        let a1 = (a - 1) as nat;
        lemma_pow2_unfold(a);
        let p = pow2(a1);
        let x = hi * pow2(a) + lo;
        assert(hi * (2 * p) == 2 * (hi * p)) by (nonlinear_arith);
        assert(x == 2 * (hi * p + lo / 2) + lo % 2);
        assert(x % 2 == lo % 2);
        assert(x / 2 == hi * p + lo / 2);
        lemma_reverse_low_bits_ignores_high(hi, lo / 2, a1);
    }
}

/// Reversal of a number split into a low part of `a` digits and a high part of
/// `b` digits: the reversed low part moves up, the reversed high part moves down.
pub proof fn lemma_reverse_low_bits_concat(hi: nat, lo: nat, a: nat, b: nat)
    requires
        lo < pow2(a),
    ensures
        reverse_low_bits(hi * pow2(a) + lo, a + b) == reverse_low_bits(lo, a) * pow2(b)
            + reverse_low_bits(hi, b),
    decreases b,
{
    let x = hi * pow2(a) + lo;
    if b == 0 {
        lemma_reverse_low_bits_ignores_high(hi, lo, a);
        lemma2_to64();
    } else {
        let b1 = (b - 1) as nat;
        lemma_reverse_low_bits_concat(hi, lo, a, b1);
        lemma_reverse_low_bits_step(x, a + b1);
        lemma_reverse_low_bits_step(hi, b1);
        lemma_pow2_pos(a);
        lemma_pow2_pos(b1);
        lemma_pow2_adds(a, b1);
        lemma_div_denominator(x as int, pow2(a) as int, pow2(b1) as int);
        assert(x / pow2(a) == hi) by {
            vstd::arithmetic::div_mod::lemma_fundamental_div_mod_converse(
                x as int,
                pow2(a) as int,
                hi as int,
                lo as int,
            );
        }
        assert(x / pow2(a + b1) == hi / pow2(b1));
        lemma_pow2_unfold(b);
        let r = reverse_low_bits(lo, a);
        let p = pow2(b1);
        assert(2 * (r * p) == r * (2 * p)) by (nonlinear_arith);
    }
}

/// Reversing twice in the same width gives the number back.
pub proof fn lemma_reverse_low_bits_involution(n: nat, k: nat)
    requires
        n < pow2(k),
    ensures
        reverse_low_bits(reverse_low_bits(n, k), k) == n,
    decreases k,
{
    if k > 0 {
        let k1 = (k - 1) as nat;
        lemma_pow2_unfold(k);
        let h = n / 2;
        let l = n % 2;
        lemma_reverse_low_bits_involution(h, k1);
        let r = reverse_low_bits(h, k1);
        lemma_reverse_low_bits_bound(h, k1);
        lemma_reverse_low_bits_concat(l, r, k1, 1);
        lemma2_to64();
        lemma2_to64();
        assert(reverse_low_bits(l, 1) == (l % 2) * pow2(0) + reverse_low_bits(l / 2, 0));
        assert(reverse_low_bits(l, 1) == l);
        assert(reverse_low_bits(n, k) == l * pow2(k1) + r);
        assert(h < pow2(k1));
        assert(reverse_low_bits(l * pow2(k1) + r, k1 + 1) == reverse_low_bits(r, k1) * pow2(1)
            + reverse_low_bits(l, 1));
        assert(k1 + 1 == k);
    } else {
        lemma2_to64();
    }
}

/// Number of bits needed to write `n`.
pub fn bits_u64(n: u64) -> (r: usize)
    ensures
        r == bit_length(n as nat),
        r <= 64,
{
    proof {
        lemma_bit_length_leading_zeros(n);
        axiom_u64_leading_zeros(n);
    }
    (64 - n.leading_zeros()) as usize
}

/// Quotient of `a` by `b`, rounded up.
pub fn ceil_div_usize(a: usize, b: usize) -> (r: usize)
    requires
        b > 0,
        a + b <= usize::MAX,
    ensures
        r == (a + b - 1) / (b as int),
        a <= r * b < a + b,
{
    proof {
        let x = a + b - 1;
        let q = x / (b as int);
        lemma_fundamental_div_mod(x, b as int);
        vstd::arithmetic::div_mod::lemma_mod_bound(x, b as int);
        assert(q * b == b * q) by (nonlinear_arith);
    }
    (a + b - 1) / b
}

/// The least `k` with `n <= 2^k`.
pub fn log2_ceil(n: usize) -> (r: usize)
    requires
        n <= usize::MAX / 2 + 1,
    ensures
        n <= pow2(r as nat),
        r > 0 ==> pow2((r - 1) as nat) < n,
        r < usize::BITS,
{
    let mut k: usize = 0;
    let mut p: usize = 1;
    proof {
        lemma2_to64();
        unsigned_int_max_values();
        lemma_pow2_unfold(usize::BITS as nat);
    }
    while p < n
        invariant
            p == pow2(k as nat),
            k > 0 ==> pow2((k - 1) as nat) < n,
            n <= usize::MAX / 2 + 1,
            k < usize::BITS,
            usize::MAX + 1 == 2 * pow2((usize::BITS - 1) as nat),
        decreases usize::BITS - k,
    {
        proof {
            lemma_pow2_pos(k as nat);
            lemma_pow2_unfold((k + 1) as nat);
            if k + 1 >= usize::BITS {
                if k + 1 > usize::BITS {
                } else {
                    assert(p == pow2((usize::BITS - 1) as nat));
                }
            }
        }
        p = p * 2;
        k = k + 1;
    }
    k
}

/// The exponent of a power of two.
pub fn log2_strict(n: usize) -> (r: usize)
    requires
        is_power_of_two(n as nat),
    ensures
        pow2(r as nat) == n,
        r == log2_floor(n as nat),
        r < usize::BITS,
{
    proof {
        let k = choose|k: nat| n as nat == pow2(k);
        unsigned_int_max_values();
        if k >= usize::BITS {
            if k > usize::BITS {
                lemma_pow2_strictly_increases(usize::BITS as nat, k);
            }
        }
        lemma_pow2_unfold(usize::BITS as nat);
        if k < usize::BITS - 1 {
            lemma_pow2_strictly_increases(k, (usize::BITS - 1) as nat);
        }
    }
    let r = log2_ceil(n);
    proof {
        let k = choose|k: nat| n as nat == pow2(k);
        if r > k {
            if r - 1 > k {
                lemma_pow2_strictly_increases(k, (r - 1) as nat);
            }
        } else if r < k {
            lemma_pow2_strictly_increases(r as nat, k);
        }
        lemma_log2_floor_pow2(k);
    }
    r
}

/// Reverses the order of the low `num_bits` binary digits of `n`; higher digits
/// are dropped.
pub fn reverse_bits(n: usize, num_bits: usize) -> (r: usize)
    requires
        num_bits <= usize::BITS,
    ensures
        r == reverse_low_bits(n as nat, num_bits as nat),
        r < pow2(num_bits as nat),
{
    let mut r: usize = 0;
    let mut m: usize = n;
    let mut i: usize = 0;
    proof {
        unsigned_int_max_values();
        lemma2_to64();
        vstd::arithmetic::div_mod::lemma_div_basics(n as int);
    }
    while i < num_bits
        invariant
            i <= num_bits <= usize::BITS,
            r == reverse_low_bits(n as nat, i as nat),
            m == n as nat / pow2(i as nat),
            usize::MAX == pow2(usize::BITS as nat) - 1,
        decreases num_bits - i,
    {
        proof {
            lemma_reverse_low_bits_step(n as nat, i as nat);
            lemma_reverse_low_bits_bound(n as nat, (i + 1) as nat);
            if i + 1 < usize::BITS {
                lemma_pow2_strictly_increases((i + 1) as nat, usize::BITS as nat);
            }
            lemma_pow2_pos(i as nat);
            lemma_pow2_unfold((i + 1) as nat);
            lemma_div_denominator(n as int, pow2(i as nat) as int, 2);
            assert(pow2(i as nat) * 2 == pow2((i + 1) as nat));
        }
        r = r * 2 + m % 2;
        m = m / 2;
        i = i + 1;
    }
    proof {
        lemma_reverse_low_bits_bound(n as nat, num_bits as nat);
    }
    r
}

/// Index arithmetic of the short permutation: the table of six-digit reversals,
/// shifted down, gives the `k`-digit reversal.
pub proof fn lemma_small_reversed_index(i: nat, k: nat)
    requires
        i < pow2(k),
        k <= 6,
    ensures
        reverse_low_bits(i, 6) / pow2((6 - k) as nat) == reverse_low_bits(i, k),
        reverse_low_bits(i, k) < pow2(k),
{
    lemma_reverse_low_bits_widen(i, k, 6);
    lemma_reverse_low_bits_bound(i, k);
    lemma_pow2_pos((6 - k) as nat);
    vstd::arithmetic::div_mod::lemma_div_by_multiple(
        reverse_low_bits(i, k) as int,
        pow2((6 - k) as nat) as int,
    );
}

/// Index arithmetic of the long permutation: an index made of a chunk number and
/// six low digits reverses to the reversed low digits on top of the reversed
/// chunk number.
pub proof fn lemma_large_reversed_index(chunk: nat, lo: nat, k: nat)
    requires
        lo < 64,
        k >= 6,
    ensures
        reverse_low_bits(chunk * 64 + lo, k) == reverse_low_bits(lo, 6) * pow2((k - 6) as nat)
            + reverse_low_bits(chunk, (k - 6) as nat),
        reverse_low_bits(chunk * 64 + lo, k) < pow2(k),
        reverse_low_bits(lo, 6) * pow2((k - 6) as nat) < pow2(k),
{
    lemma2_to64();
    lemma_reverse_low_bits_concat(chunk, lo, 6, (k - 6) as nat);
    lemma_reverse_low_bits_bound(chunk * 64 + lo, k);
    lemma_reverse_low_bits_bound(lo, 6);
    lemma_pow2_adds(6, (k - 6) as nat);
    let r = reverse_low_bits(lo, 6);
    let p = pow2((k - 6) as nat);
    assert(r * p < 64 * p) by (nonlinear_arith)
        requires
            r < 64,
            p > 0,
    ;
    lemma_pow2_pos((k - 6) as nat);
}

/// State of the in-place permutation after the first `s` positions were visited:
/// a position holds its final entry once it or its partner was visited.
pub open spec fn partially_reversed<T>(cur: Seq<T>, orig: Seq<T>, k: nat, s: int) -> bool {
    &&& cur.len() == orig.len()
    &&& forall|i: int|
        0 <= i < cur.len() ==> #[trigger] cur[i] == if i < s || reverse_low_bits(i as nat, k) < s {
            orig[reverse_low_bits(i as nat, k) as int]
        } else {
            orig[i]
        }
}

/// Visiting position `s`, and exchanging it with its partner if that lies
/// ahead, keeps the state of the in-place permutation.
pub proof fn lemma_in_place_step<T>(cur: Seq<T>, orig: Seq<T>, k: nat, s: int)
    requires
        partially_reversed(cur, orig, k, s),
        orig.len() == pow2(k),
        0 <= s < orig.len(),
    ensures
        ({
            let d = reverse_low_bits(s as nat, k) as int;
            &&& 0 <= d < orig.len()
            &&& partially_reversed(
                if s < d {
                    cur.update(s, cur[d]).update(d, cur[s])
                } else {
                    cur
                },
                orig,
                k,
                s + 1,
            )
        }),
{
    let d = reverse_low_bits(s as nat, k) as int;
    lemma_reverse_low_bits_bound(s as nat, k);
    lemma_reverse_low_bits_involution(s as nat, k);
    let next = if s < d {
        cur.update(s, cur[d]).update(d, cur[s])
    } else {
        cur
    };
    assert forall|i: int| 0 <= i < next.len() implies #[trigger] next[i] == if i < s + 1
        || reverse_low_bits(i as nat, k) < s + 1 {
        orig[reverse_low_bits(i as nat, k) as int]
    } else {
        orig[i]
    } by {
        lemma_reverse_low_bits_involution(i as nat, k);
        lemma_reverse_low_bits_bound(i as nat, k);
        assert(cur[i] == if i < s || reverse_low_bits(i as nat, k) < s {
            orig[reverse_low_bits(i as nat, k) as int]
        } else {
            orig[i]
        });
        assert(cur[s] == if s < s || reverse_low_bits(s as nat, k) < s {
            orig[reverse_low_bits(s as nat, k) as int]
        } else {
            orig[s]
        });
        assert(cur[d] == if d < s || reverse_low_bits(d as nat, k) < s {
            orig[reverse_low_bits(d as nat, k) as int]
        } else {
            orig[d]
        });
    }
}

/// Once every position was visited the sequence is the bit-reversal permutation
/// of the one it started from.
pub proof fn lemma_in_place_done<T>(cur: Seq<T>, orig: Seq<T>, k: nat)
    requires
        partially_reversed(cur, orig, k, orig.len() as int),
        orig.len() == pow2(k),
    ensures
        cur == reverse_index_bits_seq(orig),
{
    lemma_log2_floor_pow2(k);
    assert(cur =~= reverse_index_bits_seq(orig));
}

/// A length that is `2^k` leaves `k` below the machine word's width.
pub proof fn lemma_len_power_fits(n: usize, k: nat)
    requires
        n == pow2(k),
    ensures
        k < usize::BITS,
{
    unsigned_int_max_values();
    if k >= usize::BITS {
        if k > usize::BITS {
            lemma_pow2_strictly_increases(usize::BITS as nat, k);
        }
    }
}

/// Permutes `arr` such that each index is mapped to its reverse in binary.
pub fn reverse_index_bits<T: Copy>(arr: &[T]) -> (r: Vec<T>)
    requires
        is_power_of_two(arr@.len()),
    ensures
        r@ == reverse_index_bits_seq(arr@),
{
    let n = arr.len();
    let n_power = log2_strict(n);
    if n_power <= 6 {
        reverse_index_bits_small(arr, n_power)
    } else {
        reverse_index_bits_large(arr, n_power)
    }
}

/// The permutation for at most 64 entries, one six-digit reversal per entry.
pub fn reverse_index_bits_small<T: Copy>(arr: &[T], n_power: usize) -> (r: Vec<T>)
    requires
        arr@.len() == pow2(n_power as nat),
        n_power <= 6,
    ensures
        r@ == reverse_index_bits_seq(arr@),
{
    let n = arr.len();
    let mut result: Vec<T> = Vec::with_capacity(n);
    let dst_shr_amt: usize = 6 - n_power;
    let mut i: usize = 0;
    proof {
        lemma_log2_floor_pow2(n_power as nat);
    }
    while i < n
        invariant
            i <= n,
            n == arr@.len(),
            n == pow2(n_power as nat),
            n_power <= 6,
            dst_shr_amt == 6 - n_power,
            result@.len() == i,
            forall|j: int|
                0 <= j < i ==> #[trigger] result@[j] == arr@[reverse_low_bits(
                    j as nat,
                    n_power as nat,
                ) as int],
        decreases n - i,
    {
        let six = reverse_bits(i, 6);
        proof {
            lemma_small_reversed_index(i as nat, n_power as nat);
            lemma_usize_shr_is_div(six, dst_shr_amt);
        }
        let src = six >> dst_shr_amt;
        result.push(arr[src]);
        i = i + 1;
    }
    assert(result@ =~= reverse_index_bits_seq(arr@));
    result
}

/// The permutation for more than 64 entries, in chunks of 64: the high digits of
/// the source index depend only on the position within the chunk.
pub fn reverse_index_bits_large<T: Copy>(arr: &[T], n_power: usize) -> (r: Vec<T>)
    requires
        arr@.len() == pow2(n_power as nat),
        n_power >= 6,
    ensures
        r@ == reverse_index_bits_seq(arr@),
{
    let n = arr.len();
    let src_hi_shl_amt: usize = n_power - 6;
    let mut result: Vec<T> = Vec::with_capacity(n);
    proof {
        lemma_log2_floor_pow2(n_power as nat);
        lemma_len_power_fits(n, n_power as nat);
        lemma2_to64();
        lemma_pow2_adds(6, (n_power - 6) as nat);
        lemma_usize_shr_is_div(n, 6);
        vstd::arithmetic::div_mod::lemma_div_by_multiple(pow2((n_power - 6) as nat) as int, 64);
    }
    let chunks = n >> 6;
    let mut i_chunk: usize = 0;
    while i_chunk < chunks
        invariant
            i_chunk <= chunks,
            chunks == pow2((n_power - 6) as nat),
            n == chunks * 64,
            n == arr@.len(),
            n == pow2(n_power as nat),
            6 <= n_power < usize::BITS,
            src_hi_shl_amt == n_power - 6,
            result@.len() == i_chunk * 64,
            forall|j: int|
                0 <= j < result@.len() ==> #[trigger] result@[j] == arr@[reverse_low_bits(
                    j as nat,
                    n_power as nat,
                ) as int],
        decreases chunks - i_chunk,
    {
        let src_lo = reverse_bits(i_chunk, n_power - 6);
        let mut i_lo: usize = 0;
        while i_lo < 64
            invariant
                i_lo <= 64,
                i_chunk < chunks,
                n == chunks * 64,
                n == arr@.len(),
                n == pow2(n_power as nat),
                6 <= n_power < usize::BITS,
                src_hi_shl_amt == n_power - 6,
                src_lo == reverse_low_bits(i_chunk as nat, (n_power - 6) as nat),
                result@.len() == i_chunk * 64 + i_lo,
                forall|j: int|
                    0 <= j < result@.len() ==> #[trigger] result@[j] == arr@[reverse_low_bits(
                        j as nat,
                        n_power as nat,
                    ) as int],
            decreases 64 - i_lo,
        {
            let six = reverse_bits(i_lo, 6);
            proof {
                lemma_large_reversed_index(i_chunk as nat, i_lo as nat, n_power as nat);
                lemma_usize_shl_is_mul(six, src_hi_shl_amt);
            }
            let src_hi = six << src_hi_shl_amt;
            let src = src_hi + src_lo;
            result.push(arr[src]);
            i_lo = i_lo + 1;
        }
        i_chunk = i_chunk + 1;
    }
    assert(result@ =~= reverse_index_bits_seq(arr@));
    result
}

/// `<[T]>::swap` on the slice of a vector: the entries at `i` and `j` change
/// places and every other entry stays.
#[verifier::external_body]
fn swap_entries<T>(v: &mut Vec<T>, i: usize, j: usize)
    requires
        i < old(v)@.len(),
        j < old(v)@.len(),
    ensures
        final(v)@ == old(v)@.update(i as int, old(v)@[j as int]).update(j as int, old(v)@[i as int]),
{
    v.swap(i, j);
}

/// Permutes `arr` in place such that each index is mapped to its reverse in binary.
pub fn reverse_index_bits_in_place<T>(arr: &mut Vec<T>)
    requires
        is_power_of_two(old(arr)@.len()),
    ensures
        final(arr)@ == reverse_index_bits_seq(old(arr)@),
{
    let n = arr.len();
    let n_power = log2_strict(n);
    if n_power <= 6 {
        reverse_index_bits_in_place_small(arr, n_power);
    } else {
        reverse_index_bits_in_place_large(arr, n_power);
    }
}

/// The in-place permutation for at most 64 entries.
pub fn reverse_index_bits_in_place_small<T>(arr: &mut Vec<T>, n_power: usize)
    requires
        old(arr)@.len() == pow2(n_power as nat),
        n_power <= 6,
    ensures
        final(arr)@ == reverse_index_bits_seq(old(arr)@),
{
    let n = arr.len();
    let dst_shr_amt: usize = 6 - n_power;
    let ghost orig = arr@;
    let mut src: usize = 0;
    while src < n
        invariant
            src <= n,
            n == orig.len(),
            n == pow2(n_power as nat),
            n_power <= 6,
            dst_shr_amt == 6 - n_power,
            partially_reversed(arr@, orig, n_power as nat, src as int),
        decreases n - src,
    {
        let six = reverse_bits(src, 6);
        proof {
            lemma_small_reversed_index(src as nat, n_power as nat);
            lemma_usize_shr_is_div(six, dst_shr_amt);
            lemma_in_place_step(arr@, orig, n_power as nat, src as int);
        }
        let dst = six >> dst_shr_amt;
        if src < dst {
            swap_entries(arr, src, dst);
        }
        src = src + 1;
    }
    proof {
        lemma_in_place_done(arr@, orig, n_power as nat);
    }
}

/// The in-place permutation for more than 64 entries, in chunks of 64.
pub fn reverse_index_bits_in_place_large<T>(arr: &mut Vec<T>, n_power: usize)
    requires
        old(arr)@.len() == pow2(n_power as nat),
        n_power >= 6,
    ensures
        final(arr)@ == reverse_index_bits_seq(old(arr)@),
{
    let n = arr.len();
    let dst_hi_shl_amt: usize = n_power - 6;
    let ghost orig = arr@;
    proof {
        lemma_len_power_fits(n, n_power as nat);
        lemma2_to64();
        lemma_pow2_adds(6, (n_power - 6) as nat);
        lemma_usize_shr_is_div(n, 6);
        vstd::arithmetic::div_mod::lemma_div_by_multiple(pow2((n_power - 6) as nat) as int, 64);
    }
    let chunks = n >> 6;
    let mut src_chunk: usize = 0;
    while src_chunk < chunks
        invariant
            src_chunk <= chunks,
            n == chunks * 64,
            n == orig.len(),
            n == pow2(n_power as nat),
            6 <= n_power < usize::BITS,
            dst_hi_shl_amt == n_power - 6,
            partially_reversed(arr@, orig, n_power as nat, src_chunk * 64),
        decreases chunks - src_chunk,
    {
        let src_hi = src_chunk * 64;
        let dst_lo = reverse_bits(src_chunk, n_power - 6);
        let mut src_lo: usize = 0;
        while src_lo < 64
            invariant
                src_lo <= 64,
                src_chunk < chunks,
                src_hi == src_chunk * 64,
                n == chunks * 64,
                n == orig.len(),
                n == pow2(n_power as nat),
                6 <= n_power < usize::BITS,
                dst_hi_shl_amt == n_power - 6,
                dst_lo == reverse_low_bits(src_chunk as nat, (n_power - 6) as nat),
                partially_reversed(arr@, orig, n_power as nat, src_hi + src_lo),
            decreases 64 - src_lo,
        {
            let six = reverse_bits(src_lo, 6);
            let src = src_hi + src_lo;
            proof {
                lemma_large_reversed_index(src_chunk as nat, src_lo as nat, n_power as nat);
                lemma_usize_shl_is_mul(six, dst_hi_shl_amt);
                lemma_in_place_step(arr@, orig, n_power as nat, src as int);
            }
            let dst_hi = six << dst_hi_shl_amt;
            let dst = dst_hi + dst_lo;
            if src < dst {
                swap_entries(arr, src, dst);
            }
            src_lo = src_lo + 1;
        }
        src_chunk = src_chunk + 1;
    }
    proof {
        lemma_in_place_done(arr@, orig, n_power as nat);
    }
}

/// The rows of a matrix held as vectors.
pub open spec fn rows_of<T>(m: Seq<Vec<T>>) -> Seq<Seq<T>> {
    Seq::new(m.len(), |j: int| m[j]@)
}

/// The value lists of a sequence of polynomials.
pub open spec fn values_rows<F: Field>(polys: Seq<PolynomialValues<F>>) -> Seq<Seq<F>> {
    Seq::new(polys.len(), |j: int| polys[j].values@)
}

/// The values of polynomials over one domain, regrouped by point: row `i`
/// holds the value of every polynomial at point `i`.
pub fn transpose_poly_values<F: Field>(polys: Vec<PolynomialValues<F>>) -> (r: Vec<Vec<F>>)
    requires
        polys@.len() > 0,
        is_rectangular(values_rows(polys@)),
    ensures
        rows_of(r@) == transpose_seq(values_rows(polys@)),
{
    let mut poly_values: Vec<Vec<F>> = Vec::with_capacity(polys.len());
    let mut j: usize = 0;
    while j < polys.len()
        invariant
            j <= polys@.len(),
            poly_values@.len() == j,
            forall|b: int| 0 <= b < j ==> (#[trigger] poly_values@[b])@ == polys@[b].values@,
        decreases polys@.len() - j,
    {
        let values = slice_to_vec(polys[j].values.as_slice());
        poly_values.push(values);
        j = j + 1;
    }
    assert(rows_of(poly_values@) =~= values_rows(polys@));
    transpose(poly_values.as_slice())
}

/// Transposes a rectangular matrix with at least one row.
pub fn transpose<T: Copy>(matrix: &[Vec<T>]) -> (r: Vec<Vec<T>>)
    requires
        matrix@.len() > 0,
        is_rectangular(rows_of(matrix@)),
    ensures
        rows_of(r@) == transpose_seq(rows_of(matrix@)),
{
    let l = matrix.len();
    let w = matrix[0].len();
    let mut transposed: Vec<Vec<T>> = Vec::with_capacity(w);
    let mut i: usize = 0;
    while i < w
        invariant
            i <= w,
            l == matrix@.len(),
            l > 0,
            w == matrix@[0]@.len(),
            is_rectangular(rows_of(matrix@)),
            transposed@.len() == i,
            forall|a: int|
                0 <= a < i ==> #[trigger] transposed@[a]@ == Seq::new(
                    l as nat,
                    |j: int| matrix@[j]@[a],
                ),
        decreases w - i,
    {
        let mut column: Vec<T> = Vec::with_capacity(l);
        let mut j: usize = 0;
        while j < l
            invariant
                j <= l,
                i < w,
                l == matrix@.len(),
                w == matrix@[0]@.len(),
                is_rectangular(rows_of(matrix@)),
                column@.len() == j,
                forall|b: int| 0 <= b < j ==> #[trigger] column@[b] == matrix@[b]@[i as int],
            decreases l - j,
        {
            assert(rows_of(matrix@)[j as int].len() == rows_of(matrix@)[0].len());
            column.push(matrix[j][i]);
            j = j + 1;
        }
        assert(column@ =~= Seq::new(l as nat, |j: int| matrix@[j]@[i as int]));
        transposed.push(column);
        i = i + 1;
    }
    proof {
        let got = rows_of(transposed@);
        let want = transpose_seq(rows_of(matrix@));
        assert(got.len() == want.len());
        assert forall|a: int| 0 <= a < got.len() implies got[a] == want[a] by {
            assert(got[a] =~= want[a]);
        }
        assert(got =~= want);
    }
    transposed
}

} // verus!
