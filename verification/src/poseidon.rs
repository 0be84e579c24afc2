//! The Poseidon permutation on a state of twelve field elements, for an
//! instance given by its constants: full rounds, partial rounds and full
//! rounds again, with the partial rounds also in the form that multiplies by
//! sparse matrices.
use crate::field::field_types::{all_wf, pow_spec, Field, FieldOps, PrimeField};
use crate::rescue::{constant, constant_spec};
use vstd::arithmetic::power2::{lemma_pow2_strictly_increases, pow2};
use vstd::prelude::*;

verus! {

/// Number of elements of the state.
pub const WIDTH: usize = 12;

/// The constants of an instance of the permutation.
#[derive(Debug)]
pub struct PoseidonConstants {
    /// Number of full rounds before the partial rounds, and after them.
    pub half_n_full_rounds: usize,
    pub n_partial_rounds: usize,
    /// The first row of the circulant matrix, as exponents of two.
    pub mds_matrix_exps: [u64; 12],
    /// The constants added to the state, twelve per round.
    pub all_round_constants: Vec<u64>,
    /// The constants added to the first element in the sparse form of the
    /// partial rounds.
    pub fast_partial_round_constants: Vec<u64>,
    /// The first rows and first columns of the sparse matrices, without their
    /// first entry.
    pub fast_partial_round_vs: Vec<[u64; 11]>,
    pub fast_partial_round_w_hats: Vec<[u64; 11]>,
    /// The matrix that the sparse form of the partial rounds starts with,
    /// without its first row and column.
    pub fast_partial_round_initial_matrix: [[u64; 11]; 11],
}

impl PoseidonConstants {
    /// Number of rounds.
    pub open spec fn n_rounds(self) -> int {
        2 * self.half_n_full_rounds + self.n_partial_rounds
    }

    /// There are twelve constants for every round, and a row of the matrix
    /// times a state is a number of less than 128 bits.
    pub open spec fn wf(self) -> bool {
        &&& forall|i: int| 0 <= i < 12 ==> #[trigger] self.mds_matrix_exps[i] <= 60
        &&& self.all_round_constants@.len() == 12 * self.n_rounds()
    }

    /// There are constants and sparse matrices for every partial round.
    pub open spec fn fast_wf(self) -> bool {
        &&& self.wf()
        &&& self.n_partial_rounds >= 1
        &&& self.fast_partial_round_constants@.len() + 1 >= self.n_partial_rounds
        &&& self.fast_partial_round_vs@.len() == self.n_partial_rounds
        &&& self.fast_partial_round_w_hats@.len() == self.n_partial_rounds
    }
}

/// The state with the constants of a round added.
pub open spec fn constant_layer_spec<F: Field>(
    state: Seq<F>,
    c: PoseidonConstants,
    round_ctr: int,
) -> Seq<F> {
    Seq::new(
        state.len(),
        |i: int| state[i].add_spec(constant_spec::<F>(c.all_round_constants@[i + 12 * round_ctr])),
    )
}

/// The cube of every element.
pub open spec fn sbox_layer_spec<F: Field>(state: Seq<F>) -> Seq<F> {
    Seq::new(state.len(), |i: int| pow_spec(state[i], 3))
}

/// The integers that the elements of the state are.
pub open spec fn canonical_values<F: PrimeField>(state: Seq<F>) -> Seq<u64> {
    Seq::new(state.len(), |i: int| state[i].to_canonical_u64_spec())
}

/// The sum of the first `n` products of row `r` of the circulant matrix with
/// the state: entry `i` of the row is two to the exponent `(i + r) % 12`.
pub open spec fn mds_row_shf_spec(r: int, v: Seq<u64>, exps: Seq<u64>, n: nat) -> nat
    decreases n,
{
    if n == 0 {
        0
    } else {
        mds_row_shf_spec(r, v, exps, (n - 1) as nat) + (v[(n - 1 + 12 - r) % 12] as nat) * pow2(
            exps[n - 1] as nat,
        )
    }
}

/// The product of the circulant matrix with the state.
pub open spec fn mds_layer_spec<F: PrimeField>(state: Seq<F>, c: PoseidonConstants) -> Seq<F> {
    Seq::new(
        12,
        |r: int|
            F::from_canonical_u64_spec(
                ((mds_row_shf_spec(r, canonical_values(state), c.mds_matrix_exps@, 12) as u128) % (
                F::characteristic_spec() as u128)) as u64,
            ),
    )
}

/// The sum of the products of the first `n` entries of a row with the
/// elements of the state from the second on.
pub open spec fn sparse_row_spec<F: Field>(start: F, state: Seq<F>, row: Seq<u64>, n: nat) -> F
    decreases n,
{
    if n == 0 {
        start
    } else {
        sparse_row_spec(start, state, row, (n - 1) as nat).add_spec(
            constant_spec::<F>(row[n - 1]).mul_spec(state[n as int]),
        )
    }
}

/// The product of the matrix that the sparse form starts with and the state:
/// the first element stays, the others are multiplied by the matrix without
/// its first row and column.
pub open spec fn mds_partial_layer_init_spec<F: Field>(
    state: Seq<F>,
    c: PoseidonConstants,
) -> Seq<F> {
    Seq::new(
        12,
        |r: int|
            if r == 0 {
                state[0]
            } else {
                sparse_row_spec(
                    F::zero_spec(),
                    state,
                    c.fast_partial_round_initial_matrix@[r - 1]@,
                    11,
                )
            },
    )
}

/// The product of the state with the sparse matrix of partial round `r`: the
/// matrix with the first entry of the circulant matrix at the top left, the
/// row `vs[r]` beside it, the column `w_hats[r]` below it, and the identity
/// elsewhere.
pub open spec fn mds_partial_layer_fast_spec<F: Field>(
    state: Seq<F>,
    r: int,
    c: PoseidonConstants,
) -> Seq<F> {
    Seq::new(
        12,
        |i: int|
            if i == 0 {
                sparse_row_spec(
                    constant_spec::<F>(pow2(c.mds_matrix_exps[0] as nat) as u64).mul_spec(state[0]),
                    state,
                    c.fast_partial_round_w_hats@[r]@,
                    11,
                )
            } else {
                state[0].mul_spec(constant_spec::<F>(c.fast_partial_round_vs@[r]@[i - 1])).add_spec(
                    state[i],
                )
            },
    )
}

/// One full round: the constants are added, every element is cubed, and the
/// state is multiplied by the circulant matrix.
pub open spec fn full_round_spec<F: PrimeField>(
    state: Seq<F>,
    c: PoseidonConstants,
    round_ctr: int,
) -> Seq<F> {
    mds_layer_spec(sbox_layer_spec(constant_layer_spec(state, c, round_ctr)), c)
}

/// `n` full rounds from round `round_ctr` on.
pub open spec fn full_rounds_spec<F: PrimeField>(
    state: Seq<F>,
    c: PoseidonConstants,
    round_ctr: int,
    n: nat,
) -> Seq<F>
    decreases n,
{
    if n == 0 {
        state
    } else {
        full_round_spec(full_rounds_spec(state, c, round_ctr, (n - 1) as nat), c, round_ctr + n - 1)
    }
}

/// One partial round: the constants are added, the first element is cubed,
/// and the state is multiplied by the circulant matrix.
pub open spec fn partial_round_spec<F: PrimeField>(
    state: Seq<F>,
    c: PoseidonConstants,
    round_ctr: int,
) -> Seq<F> {
    let s = constant_layer_spec(state, c, round_ctr);
    mds_layer_spec(s.update(0, pow_spec(s[0], 3)), c)
}

/// `n` partial rounds from round `round_ctr` on.
pub open spec fn partial_rounds_spec<F: PrimeField>(
    state: Seq<F>,
    c: PoseidonConstants,
    round_ctr: int,
    n: nat,
) -> Seq<F>
    decreases n,
{
    if n == 0 {
        state
    } else {
        partial_round_spec(
            partial_rounds_spec(state, c, round_ctr, (n - 1) as nat),
            c,
            round_ctr + n - 1,
        )
    }
}

/// Partial round `i` in the sparse form: the first element is cubed, its
/// constant is added, and the state is multiplied by the sparse matrix of the
/// round.
pub open spec fn fast_partial_round_spec<F: Field>(
    state: Seq<F>,
    c: PoseidonConstants,
    i: int,
) -> Seq<F> {
    mds_partial_layer_fast_spec(
        state.update(
            0,
            pow_spec(state[0], 3).add_spec(constant_spec::<F>(c.fast_partial_round_constants@[i])),
        ),
        i,
        c,
    )
}

/// The first `n` partial rounds in the sparse form.
pub open spec fn fast_partial_rounds_spec<F: Field>(
    state: Seq<F>,
    c: PoseidonConstants,
    n: nat,
) -> Seq<F>
    decreases n,
{
    if n == 0 {
        state
    } else {
        fast_partial_round_spec(fast_partial_rounds_spec(state, c, (n - 1) as nat), c, n - 1)
    }
}

/// All partial rounds in the sparse form: the constants of the first of them
/// are added and the state is multiplied by the starting matrix; then come the
/// rounds, the last of them without a constant.
pub open spec fn partial_rounds_fast_spec<F: Field>(
    state: Seq<F>,
    c: PoseidonConstants,
    round_ctr: int,
) -> Seq<F> {
    let start = mds_partial_layer_init_spec(constant_layer_spec(state, c, round_ctr), c);
    let s = fast_partial_rounds_spec(start, c, (c.n_partial_rounds - 1) as nat);
    mds_partial_layer_fast_spec(s.update(0, pow_spec(s[0], 3)), c.n_partial_rounds - 1, c)
}

/// The permutation: full rounds, partial rounds, full rounds.
pub open spec fn poseidon_spec<F: PrimeField>(input: Seq<F>, c: PoseidonConstants) -> Seq<F> {
    let h = c.half_n_full_rounds as nat;
    let p = c.n_partial_rounds as nat;
    full_rounds_spec(
        partial_rounds_spec(full_rounds_spec(input, c, 0, h), c, h as int, p),
        c,
        (h + p) as int,
        h,
    )
}

/// The permutation with the partial rounds in the sparse form.
pub open spec fn poseidon_fast_spec<F: PrimeField>(input: Seq<F>, c: PoseidonConstants) -> Seq<F> {
    let h = c.half_n_full_rounds as nat;
    let p = c.n_partial_rounds as nat;
    full_rounds_spec(
        partial_rounds_fast_spec(full_rounds_spec(input, c, 0, h), c, h as int),
        c,
        (h + p) as int,
        h,
    )
}

/// A row of the circulant matrix times a state is below `n * 2^124`.
pub proof fn lemma_mds_row_bound(r: int, v: Seq<u64>, exps: Seq<u64>, n: nat)
    requires
        0 <= r < 12,
        v.len() == 12,
        exps.len() == 12,
        n <= 12,
        forall|i: int| 0 <= i < 12 ==> #[trigger] exps[i] <= 60,
    ensures
        mds_row_shf_spec(r, v, exps, n) <= n * 0x1000_0000_0000_0000_0000_0000_0000_0000,
    decreases n,
{
    if n > 0 {
        lemma_mds_row_bound(r, v, exps, (n - 1) as nat);
        let e = exps[n - 1];
        let x = v[(n - 1 + 12 - r) % 12];
        lemma_pow2_at_most_60(e as nat);
        assert(x * pow2(e as nat) <= 0x1000_0000_0000_0000_0000_0000_0000_0000) by (nonlinear_arith)
            requires
                x <= 0xffff_ffff_ffff_ffff,
                0 <= pow2(e as nat) <= 0x1000_0000_0000_0000,
        ;
    }
}

/// Two to an exponent of at most sixty is at most `2^60`.
pub proof fn lemma_pow2_at_most_60(e: nat)
    requires
        e <= 60,
    ensures
        0 < pow2(e) <= 0x1000_0000_0000_0000,
{
    vstd::arithmetic::power2::lemma_pow2_pos(e);
    vstd::arithmetic::power2::lemma2_to64_rest();
    if e < 60 {
        lemma_pow2_strictly_increases(e, 60);
    }
}

/// Adds the constants of round `round_ctr` to the state.
pub fn constant_layer<F: Field>(state: &mut [F; WIDTH], round_ctr: usize, c: &PoseidonConstants)
    requires
        all_wf(old(state)@),
        c.wf(),
        round_ctr < c.n_rounds(),
    ensures
        final(state)@ == constant_layer_spec(old(state)@, *c, round_ctr as int),
        all_wf(final(state)@),
{
    let total = c.all_round_constants.len();
    let mut i: usize = 0;
    while i < WIDTH
        invariant
            i <= WIDTH,
            c.wf(),
            round_ctr < c.n_rounds(),
            total == c.all_round_constants@.len(),
            all_wf(state@),
            forall|k: int|
                0 <= k < i ==> #[trigger] state@[k] == old(state)@[k].add_spec(
                    constant_spec::<F>(c.all_round_constants@[k + 12 * round_ctr]),
                ),
            forall|k: int| i <= k < 12 ==> #[trigger] state@[k] == old(state)@[k],
        decreases WIDTH - i,
    {
        proof {
            assert(12 * round_ctr + 12 <= 12 * c.n_rounds());
        }
        let x = state[i];
        state[i] = x.add(constant::<F>(c.all_round_constants[i + WIDTH * round_ctr]));
        i = i + 1;
    }
    assert(state@ =~= constant_layer_spec(old(state)@, *c, round_ctr as int));
}

/// Cubes every element of the state.
pub fn sbox_layer<F: Field>(state: &mut [F; WIDTH])
    requires
        all_wf(old(state)@),
    ensures
        final(state)@ == sbox_layer_spec(old(state)@),
        all_wf(final(state)@),
{
    let mut i: usize = 0;
    while i < WIDTH
        invariant
            i <= WIDTH,
            all_wf(state@),
            forall|k: int| 0 <= k < i ==> #[trigger] state@[k] == pow_spec(old(state)@[k], 3),
            forall|k: int| i <= k < 12 ==> #[trigger] state@[k] == old(state)@[k],
        decreases WIDTH - i,
    {
        let x = state[i];
        state[i] = x.cube();
        i = i + 1;
    }
    assert(state@ =~= sbox_layer_spec(old(state)@));
}

/// Row `r` of the circulant matrix times the state, as an integer.
pub fn mds_row_shf(r: usize, v: &[u64; WIDTH], c: &PoseidonConstants) -> (res: u128)
    requires
        r < WIDTH,
        c.wf(),
    ensures
        res == mds_row_shf_spec(r as int, v@, c.mds_matrix_exps@, 12),
{
    let mut res: u128 = 0;
    let mut i: usize = 0;
    while i < WIDTH
        invariant
            i <= WIDTH,
            r < WIDTH,
            c.wf(),
            res == mds_row_shf_spec(r as int, v@, c.mds_matrix_exps@, i as nat),
        decreases WIDTH - i,
    {
        let e = c.mds_matrix_exps[i];
        proof {
            lemma_mds_row_bound(r as int, v@, c.mds_matrix_exps@, (i + 1) as nat);
            lemma_mds_row_bound(r as int, v@, c.mds_matrix_exps@, i as nat);
            lemma_pow2_at_most_60(e as nat);
            vstd::bits::lemma_u64_shl_is_mul(1, e);
        }
        let weight: u64 = 1u64 << e;
        res = res + (v[(i + WIDTH - r) % WIDTH] as u128) * (weight as u128);
        i = i + 1;
    }
    res
}

/// The product of the circulant matrix with the state.
pub fn mds_layer<F: PrimeField>(state_: &[F; WIDTH], c: &PoseidonConstants) -> (result: [F; WIDTH])
    requires
        all_wf(state_@),
        c.wf(),
    ensures
        result@ == mds_layer_spec(state_@, *c),
        all_wf(result@),
{
    let mut result = [F::zero();WIDTH];
    let mut state = [0u64;WIDTH];
    let mut r: usize = 0;
    while r < WIDTH
        invariant
            r <= WIDTH,
            all_wf(state_@),
            forall|k: int| 0 <= k < r ==> #[trigger] state@[k] == state_@[k].to_canonical_u64_spec(),
        decreases WIDTH - r,
    {
        state[r] = state_[r].to_canonical_u64();
        r = r + 1;
    }
    assert(state@ =~= canonical_values(state_@));
    let mut r: usize = 0;
    while r < WIDTH
        invariant
            r <= WIDTH,
            c.wf(),
            state@ == canonical_values(state_@),
            all_wf(result@),
            forall|k: int| 0 <= k < r ==> #[trigger] result@[k] == mds_layer_spec(state_@, *c)[k],
        decreases WIDTH - r,
    {
        result[r] = F::from_noncanonical_u128(mds_row_shf(r, &state, c));
        r = r + 1;
    }
    assert(result@ =~= mds_layer_spec(state_@, *c));
    result
}

/// The product of the matrix that the sparse form of the partial rounds
/// starts with and the state.
pub fn mds_partial_layer_init<F: Field>(state: &[F; WIDTH], c: &PoseidonConstants) -> (result: [
    F;
    WIDTH
])
    requires
        all_wf(state@),
    ensures
        result@ == mds_partial_layer_init_spec(state@, *c),
        all_wf(result@),
{
    let mut result = [F::zero();WIDTH];
    // The matrix has the first row and column of the identity.
    result[0] = state[0];
    let mut r: usize = 1;
    while r < WIDTH
        invariant
            1 <= r <= WIDTH,
            all_wf(state@),
            all_wf(result@),
            forall|k: int|
                0 <= k < r ==> #[trigger] result@[k] == mds_partial_layer_init_spec(state@, *c)[k],
        decreases WIDTH - r,
    {
        let mut acc = F::zero();
        let mut col: usize = 1;
        while col < WIDTH
            invariant
                1 <= col <= WIDTH,
                1 <= r < WIDTH,
                all_wf(state@),
                acc.wf(),
                acc == sparse_row_spec(
                    F::zero_spec(),
                    state@,
                    c.fast_partial_round_initial_matrix@[r - 1]@,
                    (col - 1) as nat,
                ),
            decreases WIDTH - col,
        {
            let t = constant::<F>(c.fast_partial_round_initial_matrix[r - 1][col - 1]);
            acc = acc.add(t.mul(state[col]));
            col = col + 1;
        }
        result[r] = acc;
        r = r + 1;
    }
    assert(result@ =~= mds_partial_layer_init_spec(state@, *c));
    result
}

/// The product of the state with the sparse matrix of partial round `r`.
pub fn mds_partial_layer_fast<F: Field>(state: &[F; WIDTH], r: usize, c: &PoseidonConstants) -> (result:
    [F; WIDTH])
    requires
        all_wf(state@),
        c.fast_wf(),
        r < c.n_partial_rounds,
    ensures
        result@ == mds_partial_layer_fast_spec(state@, r as int, *c),
        all_wf(result@),
{
    // Set d = [M_00 | w^] dot [state]
    let e = c.mds_matrix_exps[0];
    proof {
        lemma_pow2_at_most_60(e as nat);
        vstd::bits::lemma_u64_shl_is_mul(1, e);
    }
    let mds_top_left: u64 = 1u64 << e;
    let mut d = constant::<F>(mds_top_left).mul(state[0]);
    let ghost start = d;
    let mut i: usize = 1;
    while i < WIDTH
        invariant
            1 <= i <= WIDTH,
            all_wf(state@),
            c.fast_wf(),
            r < c.n_partial_rounds,
            d.wf(),
            d == sparse_row_spec(start, state@, c.fast_partial_round_w_hats@[r as int]@, (i - 1) as nat),
        decreases WIDTH - i,
    {
        let t = constant::<F>(c.fast_partial_round_w_hats[r][i - 1]);
        d = d.add(t.mul(state[i]));
        i = i + 1;
    }
    // result = [d] concat [state[0] * v + state[shift up by 1]]
    let mut result = [F::zero();WIDTH];
    result[0] = d;
    let mut i: usize = 1;
    while i < WIDTH
        invariant
            1 <= i <= WIDTH,
            all_wf(state@),
            c.fast_wf(),
            r < c.n_partial_rounds,
            all_wf(result@),
            forall|k: int|
                0 <= k < i ==> #[trigger] result@[k] == mds_partial_layer_fast_spec(
                    state@,
                    r as int,
                    *c,
                )[k],
        decreases WIDTH - i,
    {
        let t = constant::<F>(c.fast_partial_round_vs[r][i - 1]);
        result[i] = state[0].mul(t).add(state[i]);
        i = i + 1;
    }
    assert(result@ =~= mds_partial_layer_fast_spec(state@, r as int, *c));
    result
}

/// The full rounds of one half, from round `round_ctr` on.
pub fn full_rounds<F: PrimeField>(
    state: &mut [F; WIDTH],
    round_ctr: &mut usize,
    c: &PoseidonConstants,
)
    requires
        all_wf(old(state)@),
        c.wf(),
        *old(round_ctr) + c.half_n_full_rounds <= c.n_rounds(),
    ensures
        final(state)@ == full_rounds_spec(
            old(state)@,
            *c,
            *old(round_ctr) as int,
            c.half_n_full_rounds as nat,
        ),
        all_wf(final(state)@),
        *final(round_ctr) == *old(round_ctr) + c.half_n_full_rounds,
{
    let total = c.all_round_constants.len();
    let mut k: usize = 0;
    while k < c.half_n_full_rounds
        invariant
            k <= c.half_n_full_rounds,
            c.wf(),
            total == c.all_round_constants@.len(),
            *old(round_ctr) + c.half_n_full_rounds <= c.n_rounds(),
            *round_ctr == *old(round_ctr) + k,
            all_wf(state@),
            state@ == full_rounds_spec(old(state)@, *c, *old(round_ctr) as int, k as nat),
        decreases c.half_n_full_rounds - k,
    {
        constant_layer(state, *round_ctr, c);
        sbox_layer(state);
        let next = mds_layer(state, c);
        *state = next;
        *round_ctr = *round_ctr + 1;
        k = k + 1;
    }
}

/// The partial rounds, from round `round_ctr` on.
pub fn partial_rounds<F: PrimeField>(
    state: &mut [F; WIDTH],
    round_ctr: &mut usize,
    c: &PoseidonConstants,
)
    requires
        all_wf(old(state)@),
        c.wf(),
        *old(round_ctr) + c.n_partial_rounds <= c.n_rounds(),
    ensures
        final(state)@ == partial_rounds_spec(
            old(state)@,
            *c,
            *old(round_ctr) as int,
            c.n_partial_rounds as nat,
        ),
        all_wf(final(state)@),
        *final(round_ctr) == *old(round_ctr) + c.n_partial_rounds,
{
    let total = c.all_round_constants.len();
    let mut k: usize = 0;
    while k < c.n_partial_rounds
        invariant
            k <= c.n_partial_rounds,
            c.wf(),
            total == c.all_round_constants@.len(),
            *old(round_ctr) + c.n_partial_rounds <= c.n_rounds(),
            *round_ctr == *old(round_ctr) + k,
            all_wf(state@),
            state@ == partial_rounds_spec(old(state)@, *c, *old(round_ctr) as int, k as nat),
        decreases c.n_partial_rounds - k,
    {
        constant_layer(state, *round_ctr, c);
        let first = state[0];
        state[0] = first.cube();
        let next = mds_layer(state, c);
        *state = next;
        *round_ctr = *round_ctr + 1;
        k = k + 1;
    }
}

/// The partial rounds in the sparse form, from round `round_ctr` on.
pub fn partial_rounds_fast<F: Field>(
    state: &mut [F; WIDTH],
    round_ctr: &mut usize,
    c: &PoseidonConstants,
)
    requires
        all_wf(old(state)@),
        c.fast_wf(),
        *old(round_ctr) + c.n_partial_rounds <= c.n_rounds(),
    ensures
        final(state)@ == partial_rounds_fast_spec(old(state)@, *c, *old(round_ctr) as int),
        all_wf(final(state)@),
        *final(round_ctr) == *old(round_ctr) + c.n_partial_rounds,
{
    let total = c.all_round_constants.len();
    constant_layer(state, *round_ctr, c);
    let start = mds_partial_layer_init(state, c);
    *state = start;
    // One less than the number of partial rounds because the last one is
    // done separately at the end.
    let mut i: usize = 0;
    while i < c.n_partial_rounds - 1
        invariant
            i <= c.n_partial_rounds - 1,
            c.fast_wf(),
            all_wf(state@),
            state@ == fast_partial_rounds_spec(start@, *c, i as nat),
        decreases c.n_partial_rounds - 1 - i,
    {
        let first = state[0];
        state[0] = first.cube().add(constant::<F>(c.fast_partial_round_constants[i]));
        let next = mds_partial_layer_fast(state, i, c);
        *state = next;
        i = i + 1;
    }
    let first = state[0];
    state[0] = first.cube();
    let last = mds_partial_layer_fast(state, c.n_partial_rounds - 1, c);
    *state = last;
    *round_ctr = *round_ctr + c.n_partial_rounds;
}

/// The permutation with the partial rounds in the sparse form.
pub fn poseidon_fast<F: PrimeField>(input: [F; WIDTH], c: &PoseidonConstants) -> (r: [F; WIDTH])
    requires
        all_wf(input@),
        c.fast_wf(),
    ensures
        r@ == poseidon_fast_spec(input@, *c),
        all_wf(r@),
{
    let mut state = input;
    let mut round_ctr: usize = 0;
    full_rounds(&mut state, &mut round_ctr, c);
    partial_rounds_fast(&mut state, &mut round_ctr, c);
    full_rounds(&mut state, &mut round_ctr, c);
    state
}

/// The permutation.
pub fn poseidon<F: PrimeField>(input: [F; WIDTH], c: &PoseidonConstants) -> (r: [F; WIDTH])
    requires
        all_wf(input@),
        c.wf(),
    ensures
        r@ == poseidon_spec(input@, *c),
        all_wf(r@),
{
    let mut state = input;
    let mut round_ctr: usize = 0;
    full_rounds(&mut state, &mut round_ctr, c);
    partial_rounds(&mut state, &mut round_ctr, c);
    full_rounds(&mut state, &mut round_ctr, c);
    state
}

} // verus!
