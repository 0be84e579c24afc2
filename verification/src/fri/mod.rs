//! The low-degree test: its parameters, the proof it checks, and the two
//! verifiers.
use vstd::arithmetic::power2::{lemma_pow2_strictly_increases, pow2};
use vstd::prelude::*;

pub mod error;
pub mod fri_proof;
pub mod native_verifier;
pub mod proof_target;
pub mod recursive_verifier;
pub mod rejections;
pub mod structure;
pub mod validate_shape;
pub mod views;
pub mod well_posed;

verus! {

/// The choices of the protocol that do not depend on the instance.
#[derive(Clone, Copy, Debug, PartialEq, Eq)]
pub struct FriConfig {
    /// `rate = 2^{-rate_bits}`.
    pub rate_bits: usize,
    /// Height of the Merkle caps: a cap has `2^cap_height` digests.
    pub cap_height: usize,
    /// Number of leading zero bits asked of the proof-of-work response.
    pub proof_of_work_bits: u32,
    /// Number of query rounds to perform.
    pub num_query_rounds: usize,
}

/// The parameters of one run of the protocol.
#[derive(Clone, Debug)]
pub struct FriParams {
    pub config: FriConfig,
    /// Whether to use a hiding variant of Merkle trees and the blinding
    /// polynomials (zero knowledge).
    pub hiding: bool,
    /// The degree of the purported codeword, measured in bits.
    pub degree_bits: usize,
    /// The arity of each reduction step, expressed as the log2 of the actual
    /// arity: `[4, 2, 1]` describes arities `2^4, 2^2, 2^1`.
    pub reduction_arity_bits: Vec<usize>,
}

/// Sum of the first `n` entries.
pub open spec fn sum_prefix(s: Seq<usize>, n: nat) -> nat
    decreases n,
{
    if n == 0 {
        0
    } else {
        sum_prefix(s, (n - 1) as nat) + s[n - 1] as nat
    }
}

/// Sums of longer prefixes are larger.
pub proof fn lemma_sum_prefix_monotonic(s: Seq<usize>, m: nat, n: nat)
    requires
        m <= n,
    ensures
        sum_prefix(s, m) <= sum_prefix(s, n),
        m < n ==> sum_prefix(s, m) + s[m as int] <= sum_prefix(s, n),
    decreases n,
{
    if m < n {
        lemma_sum_prefix_monotonic(s, m, (n - 1) as nat);
    }
}

impl FriParams {
    /// Sum of all arity bits.
    pub open spec fn total_arities_spec(self) -> nat {
        sum_prefix(self.reduction_arity_bits@, self.reduction_arity_bits@.len())
    }

    /// Log-size of the evaluation domain.
    pub open spec fn lde_bits_spec(self) -> nat {
        (self.degree_bits + self.config.rate_bits) as nat
    }

    /// The parameters fit together and fit the machine: the domain's size is a
    /// machine word, the reductions do not consume more than the degree, and a
    /// cap is not larger than the domain.
    pub open spec fn wf(self) -> bool {
        &&& self.lde_bits_spec() < usize::BITS
        &&& self.total_arities_spec() <= self.degree_bits
        &&& self.config.cap_height <= self.lde_bits_spec()
    }

    /// Sum of all arity bits.
    pub fn total_arities(&self) -> (r: usize)
        requires
            self.total_arities_spec() <= usize::MAX,
        ensures
            r == self.total_arities_spec(),
    {
        let n = self.reduction_arity_bits.len();
        let mut total: usize = 0;
        let mut i: usize = 0;
        while i < n
            invariant
                i <= n,
                n == self.reduction_arity_bits@.len(),
                total == sum_prefix(self.reduction_arity_bits@, i as nat),
                self.total_arities_spec() <= usize::MAX,
            decreases n - i,
        {
            proof {
                lemma_sum_prefix_monotonic(self.reduction_arity_bits@, i as nat, n as nat);
            }
            total = total + self.reduction_arity_bits[i];
            i = i + 1;
        }
        total
    }

    /// The largest arity bits of any step, if there is a step.
    pub fn max_arity_bits(&self) -> (r: Option<usize>)
        ensures
            self.reduction_arity_bits@.len() == 0 <==> r is None,
            r matches Some(m) ==> self.reduction_arity_bits@.contains(m) && forall|i: int|
                0 <= i < self.reduction_arity_bits@.len() ==> self.reduction_arity_bits@[i] <= m,
    {
        let n = self.reduction_arity_bits.len();
        if n == 0 {
            return None;
        }
        let mut best = self.reduction_arity_bits[0];
        let mut i: usize = 1;
        while i < n
            invariant
                1 <= i <= n,
                n == self.reduction_arity_bits@.len(),
                self.reduction_arity_bits@.contains(best),
                forall|k: int| 0 <= k < i ==> self.reduction_arity_bits@[k] <= best,
            decreases n - i,
        {
            if self.reduction_arity_bits[i] > best {
                best = self.reduction_arity_bits[i];
            }
            i = i + 1;
        }
        Some(best)
    }

    /// Log-size of the evaluation domain.
    pub fn lde_bits(&self) -> (r: usize)
        requires
            self.lde_bits_spec() <= usize::MAX,
        ensures
            r == self.lde_bits_spec(),
    {
        self.degree_bits + self.config.rate_bits
    }

    /// Size of the evaluation domain.
    pub fn lde_size(&self) -> (r: usize)
        requires
            self.lde_bits_spec() < usize::BITS,
        ensures
            r == pow2(self.lde_bits_spec()),
    {
        let bits = self.lde_bits();
        proof {
            lemma_shift_is_pow2(bits);
        }
        1usize << bits
    }

    /// Log-size of the final polynomial.
    pub fn final_poly_bits(&self) -> (r: usize)
        requires
            self.total_arities_spec() <= self.degree_bits,
        ensures
            r == self.degree_bits - self.total_arities_spec(),
    {
        self.degree_bits - self.total_arities()
    }

    /// Number of coefficients of the final polynomial.
    pub fn final_poly_len(&self) -> (r: usize)
        requires
            self.wf(),
        ensures
            r == pow2((self.degree_bits - self.total_arities_spec()) as nat),
    {
        let bits = self.final_poly_bits();
        proof {
            lemma_shift_is_pow2(bits);
        }
        1usize << bits
    }
}

/// One shifted left by less than the word's width is that power of two.
pub proof fn lemma_shift_is_pow2(bits: usize)
    requires
        bits < usize::BITS,
    ensures
        1usize << bits == pow2(bits as nat),
        pow2(bits as nat) <= usize::MAX,
{
    vstd::layout::unsigned_int_max_values();
    lemma_pow2_strictly_increases(bits as nat, usize::BITS as nat);
    vstd::bits::lemma_usize_shl_is_mul(1, bits);
}

} // verus!
