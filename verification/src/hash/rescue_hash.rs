//! A hash function on field elements from the Rescue permutation, as a sponge
//! that absorbs eight elements at a time and gives four.
use crate::field::crandall_field::{CrandallField, FIELD_ORDER};
use crate::field::field_types::{all_wf, first_multiplier, Field};
use crate::hash::merkle_proofs::Hasher;
use crate::rescue::{cube_root_exists, rescue, rescue_spec, W};
use vstd::prelude::*;

verus! {

/// Number of elements that the sponge absorbs with one permutation.
pub const SPONGE_RATE: usize = 8;

/// A digest: four field elements.
#[derive(Clone, Copy, Debug, PartialEq, Eq, Hash)]
pub struct HashOut<F> {
    pub e0: F,
    pub e1: F,
    pub e2: F,
    pub e3: F,
}

/// The hash function from the Rescue permutation.
#[derive(Clone, Copy, Debug)]
pub struct RescueHash;

/// The digest made of the first four entries of a state.
pub open spec fn digest_of<F>(state: Seq<F>) -> HashOut<F> {
    HashOut { e0: state[0], e1: state[1], e2: state[2], e3: state[3] }
}

/// The state with its first entries overwritten by a chunk.
pub open spec fn absorb_spec<F>(state: Seq<F>, chunk: Seq<F>) -> Seq<F> {
    Seq::new(
        state.len(),
        |i: int|
            if i < chunk.len() {
                chunk[i]
            } else {
                state[i]
            },
    )
}

/// Chunk `k` of the inputs: up to eight elements from element `8 k` on.
pub open spec fn chunk_spec<F>(inputs: Seq<F>, k: int) -> Seq<F> {
    inputs.subrange(
        SPONGE_RATE * k,
        if SPONGE_RATE * (k + 1) <= inputs.len() {
            SPONGE_RATE * (k + 1)
        } else {
            inputs.len() as int
        },
    )
}

/// The state of the sponge after absorbing the first `n` chunks of the inputs,
/// starting from zeros, with one permutation per chunk.
pub open spec fn sponge_state_spec(inputs: Seq<CrandallField>, n: nat) -> Seq<CrandallField>
    decreases n,
{
    if n == 0 {
        Seq::new(W as nat, |i: int| CrandallField(0))
    } else {
        rescue_spec::<CrandallField>(
            absorb_spec(sponge_state_spec(inputs, (n - 1) as nat), chunk_spec(inputs, n - 1)),
        )
    }
}

/// Number of chunks of the inputs.
pub open spec fn chunk_count(len: nat) -> nat {
    ((len + SPONGE_RATE - 1) / (SPONGE_RATE as int)) as nat
}

/// The digest of any number of elements: the first four entries of the sponge
/// after absorbing them.
pub open spec fn hash_no_pad_spec(inputs: Seq<CrandallField>) -> HashOut<CrandallField> {
    digest_of(sponge_state_spec(inputs, chunk_count(inputs.len())))
}

/// Up to four elements as a digest, filled up with zeros.
pub open spec fn padded_digest_spec(inputs: Seq<CrandallField>) -> HashOut<CrandallField> {
    digest_of(absorb_spec(Seq::new(4, |i: int| CrandallField(0)), inputs))
}

/// The state that compresses two digests.
pub open spec fn two_to_one_state(
    left: HashOut<CrandallField>,
    right: HashOut<CrandallField>,
) -> Seq<CrandallField> {
    seq![
        left.e0,
        left.e1,
        left.e2,
        left.e3,
        right.e0,
        right.e1,
        right.e2,
        right.e3,
        CrandallField(0),
        CrandallField(0),
        CrandallField(0),
        CrandallField(0),
    ]
}

/// Cubing permutes the field of order `2^64 - 9 * 2^28 + 1`.
pub proof fn lemma_cube_root_exists()
    ensures
        cube_root_exists::<CrandallField>(),
{
    let p = FIELD_ORDER as nat;
    assert((p + (p - 1) * 0) % 3 != 0);
    assert((p + (p - 1) * 1) % 3 == 0);
    assert(first_multiplier(p, 3, 1) == 1);
    assert(first_multiplier(p, 3, 0) == first_multiplier(p, 3, 1));
}

/// The digest of any number of elements, without padding.
pub fn hash_n_to_hash_no_pad(inputs: &[CrandallField]) -> (r: HashOut<CrandallField>)
    requires
        all_wf(inputs@),
    ensures
        r == hash_no_pad_spec(inputs@),
        r.e0.wf() && r.e1.wf() && r.e2.wf() && r.e3.wf(),
{
    let zero = CrandallField(0);
    let mut state = [zero;W];
    let n = inputs.len();
    let mut done: usize = 0;
    let ghost mut chunks: nat = 0;
    proof {
        lemma_cube_root_exists();
        assert(state@ =~= sponge_state_spec(inputs@, 0));
    }
    // Absorb all input chunks.
    while done < n
        invariant
            done <= n,
            n == inputs@.len(),
            all_wf(inputs@),
            all_wf(state@),
            cube_root_exists::<CrandallField>(),
            done == if chunks * SPONGE_RATE <= n {
                chunks * SPONGE_RATE
            } else {
                n as int
            },
            chunks <= chunk_count(n as nat),
            done < n ==> chunks < chunk_count(n as nat),
            done == n ==> chunks == chunk_count(n as nat),
            state@ == sponge_state_spec(inputs@, chunks),
        decreases n - done,
    {
        let end = if n - done >= SPONGE_RATE {
            done + SPONGE_RATE
        } else {
            n
        };
        let ghost before = state@;
        let mut i: usize = done;
        while i < end
            invariant
                done <= i <= end,
                end <= n,
                end - done <= SPONGE_RATE,
                n == inputs@.len(),
                all_wf(inputs@),
                all_wf(before),
                before.len() == W,
                forall|k: int|
                    0 <= k < W ==> #[trigger] state@[k] == if k < i - done {
                        inputs@[done + k]
                    } else {
                        before[k]
                    },
            decreases end - i,
        {
            state[i - done] = inputs[i];
            i = i + 1;
        }
        proof {
            assert(chunk_spec(inputs@, chunks as int) =~= inputs@.subrange(done as int, end as int));
            assert(state@ =~= absorb_spec(before, chunk_spec(inputs@, chunks as int)));
            assert(all_wf(state@));
            chunks = chunks + 1;
        }
        state = rescue(state);
        done = end;
    }
    HashOut { e0: state[0], e1: state[1], e2: state[2], e3: state[3] }
}

impl Hasher<CrandallField> for RescueHash {
    type Hash = HashOut<CrandallField>;

    open spec fn hash_wf(h: HashOut<CrandallField>) -> bool {
        h.e0.wf() && h.e1.wf() && h.e2.wf() && h.e3.wf()
    }

    /// Up to four elements are their own digest, filled up with zeros; more
    /// are hashed by the sponge.
    open spec fn hash_or_noop_spec(inputs: Seq<CrandallField>) -> HashOut<CrandallField> {
        if inputs.len() <= 4 {
            padded_digest_spec(inputs)
        } else {
            hash_no_pad_spec(inputs)
        }
    }

    /// The first four entries of the permutation of the two digests followed
    /// by zeros.
    open spec fn two_to_one_spec(
        left: HashOut<CrandallField>,
        right: HashOut<CrandallField>,
    ) -> HashOut<CrandallField> {
        digest_of(rescue_spec::<CrandallField>(two_to_one_state(left, right)))
    }

    fn hash_or_noop(inputs: &[CrandallField]) -> (r: HashOut<CrandallField>) {
        if inputs.len() <= 4 {
            let zero = CrandallField(0);
            let mut padded = [zero;4];
            let mut i: usize = 0;
            while i < inputs.len()
                invariant
                    i <= inputs@.len(),
                    inputs@.len() <= 4,
                    all_wf(inputs@),
                    forall|k: int|
                        0 <= k < 4 ==> #[trigger] padded@[k] == if k < i {
                            inputs@[k]
                        } else {
                            CrandallField(0)
                        },
                decreases inputs@.len() - i,
            {
                padded[i] = inputs[i];
                i = i + 1;
            }
            proof {
                assert(padded@ =~= absorb_spec(Seq::new(4, |i: int| CrandallField(0)), inputs@));
            }
            HashOut { e0: padded[0], e1: padded[1], e2: padded[2], e3: padded[3] }
        } else {
            hash_n_to_hash_no_pad(inputs)
        }
    }

    fn two_to_one(left: HashOut<CrandallField>, right: HashOut<CrandallField>) -> (r: HashOut<
        CrandallField,
    >) {
        let zero = CrandallField(0);
        let state = [
            left.e0,
            left.e1,
            left.e2,
            left.e3,
            right.e0,
            right.e1,
            right.e2,
            right.e3,
            zero,
            zero,
            zero,
            zero,
        ];
        proof {
            lemma_cube_root_exists();
            assert(state@ =~= two_to_one_state(left, right));
        }
        let out = rescue(state);
        HashOut { e0: out[0], e1: out[1], e2: out[2], e3: out[3] }
    }

    fn hash_is_wf(h: &HashOut<CrandallField>) -> (r: bool) {
        h.e0.is_canonical() && h.e1.is_canonical() && h.e2.is_canonical() && h.e3.is_canonical()
    }

    fn hash_eq(a: &HashOut<CrandallField>, b: &HashOut<CrandallField>) -> (r: bool) {
        a.e0.0 == b.e0.0 && a.e1.0 == b.e1.0 && a.e2.0 == b.e2.0 && a.e3.0 == b.e3.0
    }
}

} // verus!
