//! What is publicly known of an instance: the oracles, and the batches of
//! polynomials opened at common points.
use crate::field::field_types::{all_wf, Field};
use vstd::prelude::*;

verus! {

/// Number of salt values at the end of a leaf of a blinded oracle.
pub const SALT_SIZE: usize = 4;

/// Index of the oracle that holds the blinding polynomials `R`.
pub const R_ORACLE_INDEX: usize = 4;

/// Number of salt values in a leaf.
pub fn salt_size(salted: bool) -> (r: usize)
    ensures
        r == salt_size_spec(salted),
{
    if salted {
        SALT_SIZE
    } else {
        0
    }
}

/// Number of salt values in a leaf.
pub open spec fn salt_size_spec(salted: bool) -> usize {
    if salted {
        SALT_SIZE
    } else {
        0
    }
}

/// A committed oracle: a group of polynomials under one Merkle tree.
#[derive(Clone, Copy, Debug, PartialEq, Eq)]
pub struct FriOracleInfo {
    pub num_polys: usize,
    /// Whether the leaves carry salt in hiding mode.
    pub blinding: bool,
}

/// A polynomial, by the oracle that holds it and its place there.
#[derive(Clone, Copy, Debug, PartialEq, Eq)]
pub struct FriPolynomialInfo {
    /// Index into the list of oracles.
    pub oracle_index: usize,
    /// Index of the polynomial within the oracle.
    pub polynomial_index: usize,
}

/// A batch of openings at a particular point.
#[derive(Clone, Debug)]
pub struct FriBatchInfo<E: Field> {
    pub point: E,
    pub polynomials: Vec<FriPolynomialInfo>,
}

/// Describes an instance of the opening protocol: the oracles that were
/// committed, and the batches of polynomials opened at common points.
#[derive(Clone, Debug)]
pub struct FriInstanceInfo<E: Field> {
    pub oracles: Vec<FriOracleInfo>,
    pub batches: Vec<FriBatchInfo<E>>,
}

/// The claimed values of the polynomials of one batch at its point.
#[derive(Clone, Debug)]
pub struct FriOpeningBatch<E: Field> {
    pub values: Vec<E>,
}

/// The claimed openings, one batch per batch of the instance.
#[derive(Clone, Debug)]
pub struct FriOpenings<E: Field> {
    pub batches: Vec<FriOpeningBatch<E>>,
}

/// Number of polynomials among the first `n` that belong to the oracle of
/// blinding polynomials.
pub open spec fn count_r_polys(polynomials: Seq<FriPolynomialInfo>, n: nat) -> nat
    decreases n,
{
    if n == 0 {
        0
    } else {
        count_r_polys(polynomials, (n - 1) as nat) + if polynomials[n - 1].oracle_index
            == R_ORACLE_INDEX {
            1nat
        } else {
            0nat
        }
    }
}

/// Among `n` polynomials at most `n` belong to the oracle of blinding
/// polynomials.
pub proof fn lemma_count_r_polys_bound(polynomials: Seq<FriPolynomialInfo>, n: nat)
    ensures
        count_r_polys(polynomials, n) <= n,
    decreases n,
{
    if n > 0 {
        lemma_count_r_polys_bound(polynomials, (n - 1) as nat);
    }
}

impl<E: Field> FriBatchInfo<E> {
    /// The point is well formed and every polynomial names a place in one of
    /// the oracles.
    pub open spec fn wf(self, oracles: Seq<FriOracleInfo>) -> bool {
        &&& self.point.wf()
        &&& forall|i: int|
            0 <= i < self.polynomials@.len() ==> {
                let p = #[trigger] self.polynomials@[i];
                p.oracle_index < oracles.len() && p.polynomial_index
                    < oracles[p.oracle_index as int].num_polys
            }
    }

    /// Number of polynomials of the batch in the oracle of blinding
    /// polynomials.
    pub fn num_r_polys(&self) -> (r: usize)
        ensures
            r == count_r_polys(self.polynomials@, self.polynomials@.len()),
            r <= self.polynomials@.len(),
    {
        let n = self.polynomials.len();
        let mut count: usize = 0;
        let mut i: usize = 0;
        while i < n
            invariant
                i <= n,
                n == self.polynomials@.len(),
                count == count_r_polys(self.polynomials@, i as nat),
                count <= i,
            decreases n - i,
        {
            if self.polynomials[i].oracle_index == R_ORACLE_INDEX {
                count = count + 1;
            }
            i = i + 1;
        }
        count
    }
}

impl<E: Field> FriInstanceInfo<E> {
    /// Every batch is well formed for the oracles of the instance.
    pub open spec fn wf(self) -> bool {
        forall|k: int| 0 <= k < self.batches@.len() ==> (#[trigger] self.batches@[k]).wf(self.oracles@)
    }
}

impl<E: Field> FriOpenings<E> {
    /// Every claimed value is well formed.
    pub open spec fn wf(self) -> bool {
        forall|k: int| 0 <= k < self.batches@.len() ==> all_wf((#[trigger] self.batches@[k]).values@)
    }
}

} // verus!
