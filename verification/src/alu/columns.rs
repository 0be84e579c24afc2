//! The columns of a row of the arithmetic unit.
use vstd::prelude::*;

verus! {

/// Number of limbs of a word.
pub const N_LIMBS: usize = 16;

/// Number of bits of a limb.
pub const LIMB_BITS: usize = 16;

/// The flag that marks a row as an addition.
pub const IS_ADD: usize = 0;

/// The limbs of the first summand, least significant first.
pub const ADD_INPUT_0: [usize; 16] = [1, 2, 3, 4, 5, 6, 7, 8, 9, 10, 11, 12, 13, 14, 15, 16];

/// The limbs of the second summand.
pub const ADD_INPUT_1: [usize; 16] = [
    17,
    18,
    19,
    20,
    21,
    22,
    23,
    24,
    25,
    26,
    27,
    28,
    29,
    30,
    31,
    32,
];

/// The limbs of the sum.
pub const ADD_OUTPUT: [usize; 16] = [
    33,
    34,
    35,
    36,
    37,
    38,
    39,
    40,
    41,
    42,
    43,
    44,
    45,
    46,
    47,
    48,
];

/// Number of columns of a row.
pub const NUM_ALU_COLUMNS: usize = 49;

/// The columns of the limbs lie one after the other.
pub proof fn lemma_columns()
    ensures
        forall|i: int| 0 <= i < 16 ==> #[trigger] ADD_INPUT_0[i] == 1 + i,
        forall|i: int| 0 <= i < 16 ==> #[trigger] ADD_INPUT_1[i] == 17 + i,
        forall|i: int| 0 <= i < 16 ==> #[trigger] ADD_OUTPUT[i] == 33 + i,
{
}

} // verus!
