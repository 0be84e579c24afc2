//! Merkle caps and the check of an opening against a cap.
use crate::field::field_types::{all_wf, Field};
use vstd::arithmetic::div_mod::lemma_div_denominator;
use vstd::arithmetic::power2::{lemma2_to64, lemma_pow2_pos, lemma_pow2_unfold, pow2};
use vstd::prelude::*;

verus! {

/// A hash function on field elements with a two-to-one compression, as a
/// Merkle tree needs it. The digests it is given and gives are well formed.
pub trait Hasher<F: Field>: Sized {
    /// The digest.
    type Hash: Copy;

    /// The digest is in canonical form, so that equal digests are equal values.
    spec fn hash_wf(h: Self::Hash) -> bool;

    /// The digest of a leaf.
    spec fn hash_or_noop_spec(inputs: Seq<F>) -> Self::Hash;

    /// The digest of an inner node from those of its two children.
    spec fn two_to_one_spec(left: Self::Hash, right: Self::Hash) -> Self::Hash;

    fn hash_or_noop(inputs: &[F]) -> (r: Self::Hash)
        requires
            all_wf(inputs@),
        ensures
            r == Self::hash_or_noop_spec(inputs@),
            Self::hash_wf(r),
    ;

    fn two_to_one(left: Self::Hash, right: Self::Hash) -> (r: Self::Hash)
        requires
            Self::hash_wf(left),
            Self::hash_wf(right),
        ensures
            r == Self::two_to_one_spec(left, right),
            Self::hash_wf(r),
    ;

    /// Whether the digest is in canonical form.
    fn hash_is_wf(h: &Self::Hash) -> (r: bool)
        ensures
            r == Self::hash_wf(*h),
    ;

    /// Whether two well-formed digests are the same.
    fn hash_eq(a: &Self::Hash, b: &Self::Hash) -> (r: bool)
        requires
            Self::hash_wf(*a),
            Self::hash_wf(*b),
        ensures
            r == (*a == *b),
    ;
}

/// The top of a Merkle tree: the digests of the nodes at a fixed height, in
/// order.
#[derive(Clone, Debug)]
pub struct MerkleCap<D>(pub Vec<D>);

/// The digests of the siblings along the path from a leaf up to the cap.
#[derive(Clone, Debug)]
pub struct MerkleProof<D> {
    pub siblings: Vec<D>,
}

impl<D> MerkleCap<D> {
    /// Number of digests.
    pub fn len(&self) -> (r: usize)
        ensures
            r == self.0@.len(),
    {
        self.0.len()
    }
}

impl<D> MerkleProof<D> {
    /// Number of digests.
    pub fn len(&self) -> (r: usize)
        ensures
            r == self.siblings@.len(),
    {
        self.siblings.len()
    }
}

/// Every digest of the sequence is well formed.
pub open spec fn all_hash_wf<F: Field, H: Hasher<F>>(s: Seq<H::Hash>) -> bool {
    forall|i: int| 0 <= i < s.len() ==> H::hash_wf(#[trigger] s[i])
}

/// Whether every digest is in canonical form.
pub fn all_hashes_wf<F: Field, H: Hasher<F>>(digests: &[H::Hash]) -> (r: bool)
    ensures
        r == all_hash_wf::<F, H>(digests@),
{
    let mut i: usize = 0;
    while i < digests.len()
        invariant
            i <= digests@.len(),
            forall|k: int| 0 <= k < i ==> H::hash_wf(#[trigger] digests@[k]),
        decreases digests@.len() - i,
    {
        if !H::hash_is_wf(&digests[i]) {
            return false;
        }
        i = i + 1;
    }
    true
}

/// The digest reached from `current`, the digest of the node with number
/// `index` on its level, by combining it with one sibling per level: as right
/// child where the index is odd, as left child where it is even.
pub open spec fn merkle_climb<F: Field, H: Hasher<F>>(
    current: H::Hash,
    index: nat,
    siblings: Seq<H::Hash>,
) -> H::Hash
    decreases siblings.len(),
{
    if siblings.len() == 0 {
        current
    } else {
        let next = if index % 2 == 1 {
            H::two_to_one_spec(siblings[0], current)
        } else {
            H::two_to_one_spec(current, siblings[0])
        };
        merkle_climb::<F, H>(next, index / 2, siblings.skip(1))
    }
}

/// The leaf with the given data and index authenticates against the cap: the
/// path leads to the cap's entry above the leaf.
pub open spec fn merkle_proof_valid<F: Field, H: Hasher<F>>(
    leaf_data: Seq<F>,
    leaf_index: nat,
    cap: Seq<H::Hash>,
    siblings: Seq<H::Hash>,
) -> bool {
    let cap_index = leaf_index / pow2(siblings.len());
    &&& cap_index < cap.len()
    &&& merkle_climb::<F, H>(H::hash_or_noop_spec(leaf_data), leaf_index, siblings)
        == cap[cap_index as int]
}

/// Verifies that the given leaf data is present at the given index in the
/// Merkle tree with the given cap.
pub fn verify_merkle_proof_to_cap<F: Field, H: Hasher<F>>(
    leaf_data: &[F],
    leaf_index: usize,
    merkle_cap: &MerkleCap<H::Hash>,
    proof: &MerkleProof<H::Hash>,
) -> (r: bool)
    requires
        all_wf(leaf_data@),
        all_hash_wf::<F, H>(merkle_cap.0@),
        all_hash_wf::<F, H>(proof.siblings@),
    ensures
        r == merkle_proof_valid::<F, H>(
            leaf_data@,
            leaf_index as nat,
            merkle_cap.0@,
            proof.siblings@,
        ),
{
    let mut index = leaf_index;
    let mut current_digest = H::hash_or_noop(leaf_data);
    let ghost leaf_digest = current_digest;
    let mut i: usize = 0;
    proof {
        lemma2_to64();
        assert(proof.siblings@.skip(0) =~= proof.siblings@);
    }
    while i < proof.siblings.len()
        invariant
            i <= proof.siblings@.len(),
            all_hash_wf::<F, H>(proof.siblings@),
            H::hash_wf(current_digest),
            index == leaf_index as nat / pow2(i as nat),
            merkle_climb::<F, H>(leaf_digest, leaf_index as nat, proof.siblings@) == merkle_climb::<
                F,
                H,
            >(current_digest, index as nat, proof.siblings@.skip(i as int)),
        decreases proof.siblings@.len() - i,
    {
        let sibling_digest = proof.siblings[i];
        let bit = index % 2;
        proof {
            let rest = proof.siblings@.skip(i as int);
            assert(rest[0] == sibling_digest);
            assert(rest.skip(1) =~= proof.siblings@.skip(i + 1));
            lemma_pow2_pos(i as nat);
            lemma_pow2_unfold((i + 1) as nat);
            lemma_div_denominator(leaf_index as int, pow2(i as nat) as int, 2);
            assert(pow2(i as nat) * 2 == pow2((i + 1) as nat));
        }
        index = index / 2;
        current_digest = if bit == 1 {
            H::two_to_one(sibling_digest, current_digest)
        } else {
            H::two_to_one(current_digest, sibling_digest)
        };
        i = i + 1;
    }
    if index < merkle_cap.0.len() {
        let top = merkle_cap.0[index];
        H::hash_eq(&current_digest, &top)
    } else {
        false
    }
}

} // verus!
