//! Addition of two words of sixteen limbs: the generation of the output limbs
//! of a row, and the constraints that a row holds a sum modulo `2^256`.
use crate::alu::columns::{
    lemma_columns, ADD_INPUT_0, ADD_INPUT_1, ADD_OUTPUT, IS_ADD, NUM_ALU_COLUMNS, N_LIMBS,
};
use crate::alu::utils::{
    are_equal_carry, are_equal_constraints, are_equal_difference, eval_ext_circuit_are_equal,
    eval_packed_generic_are_equal, overflow_spec,
};
use crate::constraint_consumer::{consume_all_spec, ConstraintConsumer, RecursiveConstraintConsumer};
use crate::field::extension_field::FieldExtension;
use crate::field::field_types::{
    all_wf, inverse_spec, is_unit, lemma_mul_zero, lemma_one_mul, sub_spec, Field, PrimeField,
    RichField,
};
use crate::hash::merkle_proofs::Hasher;
use crate::iop::target::{extensions_below, ExtensionTarget};
use crate::plonk::circuit_builder::CircuitBuilder;
use crate::plonk::gates::{ext_at, exts_at, Value};
use vstd::arithmetic::power2::{lemma2_to64, lemma_pow2_adds, lemma_pow2_pos, pow2};
use vstd::prelude::*;

verus! {

/// The limbs that the given columns of a row hold, as integers.
pub open spec fn limbs_of<F: PrimeField>(lv: Seq<F>, cols: Seq<usize>) -> Seq<nat> {
    Seq::new(cols.len(), |i: int| lv[cols[i] as int].to_canonical_u64_spec() as nat)
}

/// Every limb is below `2^16`.
pub open spec fn limbs_in_range(limbs: Seq<nat>) -> bool {
    forall|i: int| 0 <= i < limbs.len() ==> #[trigger] limbs[i] < 0x10000
}

/// The carry into limb `i` of the sum of two sequences of limbs.
pub open spec fn carry_into(a: Seq<nat>, b: Seq<nat>, i: nat) -> nat
    decreases i,
{
    if i == 0 {
        0
    } else {
        (a[i - 1] + b[i - 1] + carry_into(a, b, (i - 1) as nat)) / 0x10000
    }
}

/// Limb `i` of the sum of two sequences of limbs.
pub open spec fn sum_limb(a: Seq<nat>, b: Seq<nat>, i: int) -> nat {
    (a[i] + b[i] + carry_into(a, b, i as nat)) % 0x10000
}

/// The limbs of the sum.
pub open spec fn sum_limbs(a: Seq<nat>, b: Seq<nat>) -> Seq<nat> {
    Seq::new(a.len(), |i: int| sum_limb(a, b, i))
}

/// The number that the first `n` limbs give, least significant first.
pub open spec fn limbs_value(limbs: Seq<nat>, n: nat) -> nat
    decreases n,
{
    if n == 0 {
        0
    } else {
        limbs_value(limbs, (n - 1) as nat) + limbs[n - 1] * pow2(16 * ((n - 1) as nat))
    }
}

/// The first `n` limbs of the sum, with the carry out of them, give the sum of
/// the numbers that the first `n` limbs of the summands give.
pub proof fn lemma_sum_limbs(a: Seq<nat>, b: Seq<nat>, n: nat)
    requires
        n <= a.len(),
        a.len() == b.len(),
    ensures
        limbs_value(sum_limbs(a, b), n) + carry_into(a, b, n) * pow2(16 * n) == limbs_value(a, n)
            + limbs_value(b, n),
    decreases n,
{
    if n == 0 {
        lemma2_to64();
        assert(carry_into(a, b, 0) == 0);
        assert(0 * pow2(16 * 0) == 0);
        assert(limbs_value(sum_limbs(a, b), 0) == 0);
        assert(limbs_value(a, 0) == 0);
        assert(limbs_value(b, 0) == 0);
    } else {
        let n1 = (n - 1) as nat;
        lemma_sum_limbs(a, b, n1);
        let s = a[n1 as int] + b[n1 as int] + carry_into(a, b, n1);
        let p = pow2(16 * n1);
        lemma_pow2_adds(16 * n1, 16);
        lemma2_to64();
        assert(pow2(16 * n) == p * 0x10000);
        assert(s == 0x10000 * (s / 0x10000) + s % 0x10000);
        assert(sum_limbs(a, b)[n1 as int] == s % 0x10000);
        assert(carry_into(a, b, n) == s / 0x10000);
        assert((s % 0x10000) * p + (s / 0x10000) * (p * 0x10000) == s * p) by (nonlinear_arith)
            requires
                s == 0x10000 * (s / 0x10000) + s % 0x10000,
        ;
        assert(s * p == a[n1 as int] * p + b[n1 as int] * p + carry_into(a, b, n1) * p)
            by (nonlinear_arith)
            requires
                s == a[n1 as int] + b[n1 as int] + carry_into(a, b, n1),
        ;
        let out = sum_limbs(a, b);
        assert(limbs_value(out, n) == limbs_value(out, n1) + out[n1 as int] * p);
        assert(limbs_value(a, n) == limbs_value(a, n1) + a[n1 as int] * p);
        assert(limbs_value(b, n) == limbs_value(b, n1) + b[n1 as int] * p);
        assert(limbs_value(out, n1) + carry_into(a, b, n1) * p == limbs_value(a, n1) + limbs_value(
            b,
            n1,
        ));
        assert(carry_into(a, b, n) * pow2(16 * n) == (s / 0x10000) * (p * 0x10000));
        assert(out[n1 as int] * p == (s % 0x10000) * p);
        let lhs = limbs_value(out, n) + carry_into(a, b, n) * pow2(16 * n);
        assert(lhs == limbs_value(out, n1) + (s % 0x10000) * p + (s / 0x10000) * (p * 0x10000));
        assert(lhs == limbs_value(out, n1) + s * p);
        assert(lhs == limbs_value(a, n) + limbs_value(b, n));
    }
}

/// The limbs of the sum give the sum of the two numbers modulo `2^256`.
pub proof fn lemma_sum_modulo(a: Seq<nat>, b: Seq<nat>)
    requires
        a.len() == 16,
        b.len() == 16,
    ensures
        limbs_value(sum_limbs(a, b), 16) < pow2(256),
        limbs_value(sum_limbs(a, b), 16) == (limbs_value(a, 16) + limbs_value(b, 16)) % pow2(256),
{
    lemma_sum_limbs(a, b, 16);
    assert(limbs_in_range(sum_limbs(a, b))) by {
        assert forall|i: int| 0 <= i < 16 implies #[trigger] sum_limbs(a, b)[i] < 0x10000 by {
            assert(sum_limbs(a, b)[i] == sum_limb(a, b, i));
        }
    }
    lemma_limbs_value_bound(sum_limbs(a, b), 16);
    let v = limbs_value(sum_limbs(a, b), 16);
    let c = carry_into(a, b, 16);
    let m = pow2(256);
    lemma_pow2_pos(256);
    vstd::arithmetic::div_mod::lemma_mod_multiples_vanish(c as int, v as int, m as int);
    vstd::arithmetic::div_mod::lemma_small_mod(v, m);
    assert(16 * 16 == 256);
    assert(pow2(16 * 16) == m);
    assert(v + c * m == limbs_value(a, 16) + limbs_value(b, 16));
    assert((m * c + v) % m == v % m);
    assert(m * c == c * m) by (nonlinear_arith);
}

/// Limbs below `2^16` give a number below `2^(16 n)`.
pub proof fn lemma_limbs_value_bound(limbs: Seq<nat>, n: nat)
    requires
        n <= limbs.len(),
        limbs_in_range(limbs),
    ensures
        limbs_value(limbs, n) < pow2(16 * n),
    decreases n,
{
    lemma_pow2_pos(16 * n);
    if n > 0 {
        let n1 = (n - 1) as nat;
        lemma_limbs_value_bound(limbs, n1);
        lemma_pow2_adds(16 * n1, 16);
        lemma2_to64();
        let p = pow2(16 * n1);
        let l = limbs[n1 as int];
        assert(l * p <= 0xffff * p) by (nonlinear_arith)
            requires
                l <= 0xffff,
                p >= 0,
        ;
        assert(pow2(16 * n) == p * 0x10000);
    }
}

/// The sums of the limbs, each reduced to sixteen bits: no carry passes from
/// one limb to the following one.
pub open spec fn limbwise_sum(a: Seq<nat>, b: Seq<nat>) -> Seq<nat> {
    Seq::new(a.len(), |i: int| (a[i] + b[i]) % 0x10000)
}

/// Where no two limbs add up to `2^16` or more, no carry arises.
pub proof fn lemma_no_carry(a: Seq<nat>, b: Seq<nat>, n: nat)
    requires
        a.len() == b.len(),
        n <= a.len(),
        forall|i: int| 0 <= i < a.len() ==> #[trigger] a[i] + b[i] < 0x10000,
    ensures
        carry_into(a, b, n) == 0,
    decreases n,
{
    if n > 0 {
        lemma_no_carry(a, b, (n - 1) as nat);
        assert(a[n - 1] + b[n - 1] < 0x10000);
    }
}

/// Where no two limbs add up to `2^16` or more, the limb-wise sums are the
/// limbs of the sum of the two numbers.
pub proof fn lemma_carry_free_sum(a: Seq<nat>, b: Seq<nat>, n: nat)
    requires
        a.len() == b.len(),
        n <= a.len(),
        forall|i: int| 0 <= i < a.len() ==> #[trigger] a[i] + b[i] < 0x10000,
    ensures
        limbwise_sum(a, b) == sum_limbs(a, b),
        limbs_value(limbwise_sum(a, b), n) == limbs_value(a, n) + limbs_value(b, n),
{
    assert forall|i: int| 0 <= i < a.len() implies limbwise_sum(a, b)[i] == sum_limbs(a, b)[i] by {
        lemma_no_carry(a, b, i as nat);
    }
    assert(limbwise_sum(a, b) =~= sum_limbs(a, b));
    lemma_sum_limbs(a, b, n);
    lemma_no_carry(a, b, n);
    assert(0 * pow2(16 * n) == 0);
}

/// Writes to the output columns of the row, limb by limb, the sum of the limbs
/// of the two summands, reduced to sixteen bits.
pub fn generate<F: RichField>(lv: &mut [F; NUM_ALU_COLUMNS])
    requires
        all_wf(old(lv)@),
        limbs_in_range(limbs_of(old(lv)@, ADD_INPUT_0@)),
        limbs_in_range(limbs_of(old(lv)@, ADD_INPUT_1@)),
        0x10000 < F::order_spec(),
    ensures
        all_wf(final(lv)@),
        limbs_of(final(lv)@, ADD_OUTPUT@) == limbwise_sum(
            limbs_of(old(lv)@, ADD_INPUT_0@),
            limbs_of(old(lv)@, ADD_INPUT_1@),
        ),
        forall|c: int| 0 <= c < 33 ==> final(lv)@[c] == old(lv)@[c],
{
    proof {
        lemma_columns();
        F::lemma_order();
    }
    let ghost a = limbs_of(old(lv)@, ADD_INPUT_0@);
    let ghost b = limbs_of(old(lv)@, ADD_INPUT_1@);
    // Input and output have 16-bit limbs
    let mut output_limbs = [0u64;N_LIMBS];
    let mut i: usize = 0;
    while i < N_LIMBS
        invariant
            i <= N_LIMBS,
            lv@ == old(lv)@,
            all_wf(lv@),
            a == limbs_of(old(lv)@, ADD_INPUT_0@),
            b == limbs_of(old(lv)@, ADD_INPUT_1@),
            limbs_in_range(a),
            limbs_in_range(b),
            forall|k: int| 0 <= k < 16 ==> #[trigger] ADD_INPUT_0[k] == 1 + k,
            forall|k: int| 0 <= k < 16 ==> #[trigger] ADD_INPUT_1[k] == 17 + k,
            forall|k: int| 0 <= k < i ==> #[trigger] output_limbs@[k] == (a[k] + b[k]) % 0x10000,
        decreases N_LIMBS - i,
    {
        let x = lv[ADD_INPUT_0[i]].to_canonical_u64();
        let y = lv[ADD_INPUT_1[i]].to_canonical_u64();
        proof {
            assert(a[i as int] == x);
            assert(b[i as int] == y);
        }
        let s = x + y;
        output_limbs[i] = s & 0xffff;
        proof {
            assert(s & 0xffff == s % 0x10000) by (bit_vector);
        }
        i = i + 1;
    }
    let mut j: usize = 0;
    while j < N_LIMBS
        invariant
            j <= N_LIMBS,
            all_wf(lv@),
            0x10000 < F::order_spec(),
            F::order_spec() == F::characteristic_spec(),
            forall|k: int| 0 <= k < 16 ==> #[trigger] ADD_OUTPUT[k] == 33 + k,
            forall|k: int| 0 <= k < 16 ==> #[trigger] output_limbs@[k] == (a[k] + b[k]) % 0x10000,
            forall|c: int| 0 <= c < 33 ==> lv@[c] == old(lv)@[c],
            forall|k: int|
                0 <= k < j ==> (#[trigger] lv@[33 + k]).to_canonical_u64_spec() == (a[k] + b[k])
                    % 0x10000,
        decreases N_LIMBS - j,
    {
        let c = ADD_OUTPUT[j];
        let limb = output_limbs[j];
        proof {
            assert(output_limbs@[j as int] == (a[j as int] + b[j as int]) % 0x10000);
            F::lemma_from_canonical(limb);
        }
        lv[c] = F::from_canonical_u64(limb);
        j = j + 1;
    }
    proof {
        assert(limbs_of(lv@, ADD_OUTPUT@) =~= limbwise_sum(a, b)) by {
            assert forall|k: int| 0 <= k < 16 implies limbs_of(lv@, ADD_OUTPUT@)[k]
                == limbwise_sum(a, b)[k] by {
                assert(ADD_OUTPUT[k] == 33 + k);
                assert(lv@[33 + k].to_canonical_u64_spec() == (a[k] + b[k]) % 0x10000);
            }
        }
    }
}

/// The summands of the row, limb by limb unreduced.
pub open spec fn unreduced_sum<E: Field>(lv: Seq<E>) -> Seq<E> {
    Seq::new(16, |i: int| lv[ADD_INPUT_0[i] as int].add_spec(lv[ADD_INPUT_1[i] as int]))
}

/// The output limbs of the row.
pub open spec fn output_of<E>(lv: Seq<E>) -> Seq<E> {
    Seq::new(16, |i: int| lv[ADD_OUTPUT[i] as int])
}

/// The constraints of an addition: where the row is flagged as one, the
/// unreduced sum of the summands and the output hold the same number.
pub open spec fn add_constraints<E: Field>(lv: Seq<E>) -> Seq<E> {
    are_equal_constraints(lv[IS_ADD as int], unreduced_sum(lv), output_of(lv))
}

/// Two sequences of limbs that are the same leave no carry.
pub proof fn lemma_equal_limbs_carry<E: Field>(limbs: Seq<E>, i: nat)
    requires
        all_wf(limbs),
        i <= limbs.len(),
        is_unit(overflow_spec::<E>()),
    ensures
        are_equal_carry(limbs, limbs, i) == E::zero_spec(),
    decreases i,
{
    if i > 0 {
        let i1 = (i - 1) as nat;
        lemma_equal_limbs_carry(limbs, i1);
        let x = limbs[i1 as int];
        E::lemma_constants();
        lemma_one_mul(x);
        E::lemma_add_commutative(E::zero_spec(), x);
        E::lemma_add_zero(x);
        E::lemma_add_neg(x);
        lemma_mul_zero(inverse_spec(overflow_spec::<E>()));
    }
}

/// A row whose output limbs are the sums of the limbs of the summands, none of
/// them `2^16` or more, meets the constraints of an addition: every
/// constraint is zero.
pub proof fn lemma_carry_free_row_holds<F: PrimeField>(lv: Seq<F>)
    requires
        lv.len() == NUM_ALU_COLUMNS,
        all_wf(lv),
        0x10000 < F::order_spec(),
        is_unit(overflow_spec::<F>()),
        forall|i: int|
            0 <= i < 16 ==> #[trigger] limbs_of(lv, ADD_INPUT_0@)[i] + limbs_of(lv, ADD_INPUT_1@)[i]
                < 0x10000,
        limbs_of(lv, ADD_OUTPUT@) == limbwise_sum(
            limbs_of(lv, ADD_INPUT_0@),
            limbs_of(lv, ADD_INPUT_1@),
        ),
    ensures
        add_constraints(lv) == Seq::new(16, |i: int| F::zero_spec()),
{
    lemma_columns();
    F::lemma_order();
    F::lemma_constants();
    let a = limbs_of(lv, ADD_INPUT_0@);
    let b = limbs_of(lv, ADD_INPUT_1@);
    let sums = unreduced_sum(lv);
    let out = output_of(lv);
    assert(sums =~= out) by {
        assert forall|i: int| 0 <= i < 16 implies sums[i] == out[i] by {
            let x = lv[ADD_INPUT_0[i] as int];
            let y = lv[ADD_INPUT_1[i] as int];
            let o = lv[ADD_OUTPUT[i] as int];
            assert(a[i] + b[i] < 0x10000);
            assert(a[i] == x.to_canonical_u64_spec());
            assert(b[i] == y.to_canonical_u64_spec());
            assert(limbs_of(lv, ADD_OUTPUT@)[i] == limbwise_sum(a, b)[i]);
            assert(o.to_canonical_u64_spec() == a[i] + b[i]);
            F::lemma_arithmetic_canonical(x, y);
            F::lemma_closed(x, y);
            vstd::arithmetic::div_mod::lemma_small_mod(a[i] + b[i], F::order_spec());
            F::lemma_canonical(x.add_spec(y));
            F::lemma_canonical(o);
        }
    }
    assert(all_wf(out));
    let flag = lv[IS_ADD as int];
    let top = overflow_spec::<F>();
    F::lemma_from_canonical_wf(0x10000);
    assert forall|i: int| 0 <= i < 16 implies add_constraints(lv)[i] == F::zero_spec() by {
        lemma_equal_limbs_carry(out, i as nat);
        let x = out[i];
        lemma_one_mul(x);
        F::lemma_add_commutative(F::zero_spec(), x);
        F::lemma_add_zero(x);
        F::lemma_add_neg(x);
        assert(are_equal_difference(out, out, i) == F::zero_spec());
        lemma_mul_zero(flag);
        F::lemma_closed(F::zero_spec(), F::zero_spec());
        F::lemma_closed(top, F::zero_spec().neg_spec());
        lemma_mul_zero(sub_spec(top, F::zero_spec()));
    }
    assert(add_constraints(lv) =~= Seq::new(16, |i: int| F::zero_spec()));
}

/// Emits the constraints of an addition on the row.
pub fn eval_packed_generic<E: Field>(
    lv: &[E; NUM_ALU_COLUMNS],
    yield_constr: &mut ConstraintConsumer<E>,
)
    requires
        old(yield_constr).wf(),
        all_wf(lv@),
        0x10000 < E::characteristic_spec(),
        is_unit(overflow_spec::<E>()),
    ensures
        final(yield_constr).alphas == old(yield_constr).alphas,
        final(yield_constr).wf(),
        final(yield_constr).constraint_accs@ == consume_all_spec(
            old(yield_constr).constraint_accs@,
            old(yield_constr).alphas@,
            add_constraints(lv@),
            16,
        ),
{
    proof {
        lemma_columns();
    }
    let is_add = lv[IS_ADD];
    let mut output_computed: Vec<E> = Vec::with_capacity(N_LIMBS);
    let mut output_limbs: Vec<E> = Vec::with_capacity(N_LIMBS);
    let mut i: usize = 0;
    while i < N_LIMBS
        invariant
            i <= N_LIMBS,
            all_wf(lv@),
            forall|k: int| 0 <= k < 16 ==> #[trigger] ADD_INPUT_0[k] == 1 + k,
            forall|k: int| 0 <= k < 16 ==> #[trigger] ADD_INPUT_1[k] == 17 + k,
            forall|k: int| 0 <= k < 16 ==> #[trigger] ADD_OUTPUT[k] == 33 + k,
            output_computed@.len() == i,
            output_limbs@.len() == i,
            all_wf(output_computed@),
            all_wf(output_limbs@),
            forall|k: int| 0 <= k < i ==> #[trigger] output_computed@[k] == unreduced_sum(lv@)[k],
            forall|k: int| 0 <= k < i ==> #[trigger] output_limbs@[k] == output_of(lv@)[k],
        decreases N_LIMBS - i,
    {
        // This computed output is not yet reduced; i.e. some limbs may be
        // more than 16 bits.
        output_computed.push(lv[ADD_INPUT_0[i]].add(lv[ADD_INPUT_1[i]]));
        output_limbs.push(lv[ADD_OUTPUT[i]]);
        i = i + 1;
    }
    proof {
        assert(output_computed@ =~= unreduced_sum(lv@));
        assert(output_limbs@ =~= output_of(lv@));
    }
    eval_packed_generic_are_equal(
        yield_constr,
        is_add,
        output_computed.as_slice(),
        output_limbs.as_slice(),
    );
}


/// Appends the gates that emit the constraints of an addition on a row held by
/// targets: the accumulators of the consumer come to hold what the
/// constraints over field values give on the values that the targets hold.
#[verifier::rlimit(100)]
pub fn eval_ext_circuit<F: RichField, E: FieldExtension<F>, H: Hasher<F>>(
    builder: &mut CircuitBuilder<F, E, H>,
    lv: &[ExtensionTarget; NUM_ALU_COLUMNS],
    yield_constr: &mut RecursiveConstraintConsumer,
)
    requires
        old(yield_constr).scoped(old(builder).num_gates()),
        extensions_below(lv@, old(builder).num_gates()),
        0x10000 < E::characteristic_spec(),
        is_unit(overflow_spec::<E>()),
    ensures
        final(yield_constr).alphas == old(yield_constr).alphas,
        final(yield_constr).scoped(final(builder).num_gates()),
        final(builder).frames(*old(builder)),
        final(builder).num_inputs == old(builder).num_inputs,
        old(builder).wf() ==> final(builder).wf(),
        forall|inp: Seq<Value<F, E, H::Hash>>|
            exts_at(#[trigger] final(builder).wires(inp), final(yield_constr).constraint_accs@)
                == consume_all_spec(
                exts_at(old(builder).wires(inp), old(yield_constr).constraint_accs@),
                exts_at(old(builder).wires(inp), old(yield_constr).alphas@),
                add_constraints(exts_at(old(builder).wires(inp), lv@)),
                16,
            ),
        forall|inp: Seq<Value<F, E, H::Hash>>|
            #[trigger] final(builder).satisfied(inp) == old(builder).satisfied(inp),
{
    proof {
        lemma_columns();
        builder.lemma_frames_reflexive();
    }
    let is_add = lv[IS_ADD];
    let mut output_computed: Vec<ExtensionTarget> = Vec::with_capacity(N_LIMBS);
    let mut output_limbs: Vec<ExtensionTarget> = Vec::with_capacity(N_LIMBS);
    let mut i: usize = 0;
    while i < N_LIMBS
        invariant
            i <= N_LIMBS,
            extensions_below(lv@, old(builder).num_gates()),
            forall|k: int| 0 <= k < 16 ==> #[trigger] ADD_INPUT_0[k] == 1 + k,
            forall|k: int| 0 <= k < 16 ==> #[trigger] ADD_INPUT_1[k] == 17 + k,
            forall|k: int| 0 <= k < 16 ==> #[trigger] ADD_OUTPUT[k] == 33 + k,
            builder.frames(*old(builder)),
            builder.num_inputs == old(builder).num_inputs,
            old(builder).wf() ==> builder.wf(),
            output_computed@.len() == i,
            output_limbs@.len() == i,
            extensions_below(output_computed@, builder.num_gates()),
            forall|k: int| 0 <= k < i ==> #[trigger] output_limbs@[k] == lv@[33 + k],
            forall|inp: Seq<Value<F, E, H::Hash>>, k: int|
                0 <= k < i ==> ext_at(
                    #[trigger] builder.wires(inp),
                    #[trigger] output_computed@[k],
                ) == ext_at(old(builder).wires(inp), lv@[1 + k]).add_spec(
                    ext_at(old(builder).wires(inp), lv@[17 + k]),
                ),
            forall|inp: Seq<Value<F, E, H::Hash>>|
                #[trigger] builder.satisfied(inp) == old(builder).satisfied(inp),
        decreases N_LIMBS - i,
    {
        let ghost before = *builder;
        let ghost had = output_computed@;
        let sum = builder.add_extension(lv[ADD_INPUT_0[i]], lv[ADD_INPUT_1[i]]);
        output_computed.push(sum);
        output_limbs.push(lv[ADD_OUTPUT[i]]);
        proof {
            builder.lemma_frames_transitive(before, *old(builder));
            assert forall|inp: Seq<Value<F, E, H::Hash>>, k: int| 0 <= k < i + 1 implies ext_at(
                #[trigger] builder.wires(inp),
                #[trigger] output_computed@[k],
            ) == ext_at(old(builder).wires(inp), lv@[1 + k]).add_spec(
                ext_at(old(builder).wires(inp), lv@[17 + k]),
            ) by {
                if k < i {
                    assert(output_computed@[k] == had[k]);
                    builder.lemma_frame_value(before, inp, had[k].0);
                    assert(ext_at(before.wires(inp), had[k]) == ext_at(
                        old(builder).wires(inp),
                        lv@[1 + k],
                    ).add_spec(ext_at(old(builder).wires(inp), lv@[17 + k])));
                } else {
                    before.lemma_frame_value(*old(builder), inp, lv@[1 + k].0);
                    before.lemma_frame_value(*old(builder), inp, lv@[17 + k].0);
                }
            }
        }
        i = i + 1;
    }
    let ghost middle = *builder;
    let ghost accs_middle = yield_constr.constraint_accs@;
    eval_ext_circuit_are_equal(
        builder,
        yield_constr,
        is_add,
        output_computed.as_slice(),
        output_limbs.as_slice(),
    );
    proof {
        builder.lemma_frames_transitive(middle, *old(builder));
        assert forall|inp: Seq<Value<F, E, H::Hash>>|
            exts_at(#[trigger] builder.wires(inp), yield_constr.constraint_accs@)
                == consume_all_spec(
                exts_at(old(builder).wires(inp), old(yield_constr).constraint_accs@),
                exts_at(old(builder).wires(inp), old(yield_constr).alphas@),
                add_constraints(exts_at(old(builder).wires(inp), lv@)),
                16,
            ) by {
            let v0 = old(builder).wires(inp);
            let vm = middle.wires(inp);
            middle.lemma_frame_exts(*old(builder), inp, accs_middle);
            middle.lemma_frame_exts(*old(builder), inp, old(yield_constr).alphas@);
            middle.lemma_frame_value(*old(builder), inp, is_add.0);
            middle.lemma_frame_exts(*old(builder), inp, output_limbs@);
            let row = exts_at(v0, lv@);
            assert(exts_at(vm, output_computed@) =~= unreduced_sum(row)) by {
                assert forall|k: int| 0 <= k < 16 implies exts_at(vm, output_computed@)[k]
                    == unreduced_sum(row)[k] by {
                    assert(ext_at(vm, output_computed@[k]) == ext_at(v0, lv@[1 + k]).add_spec(
                        ext_at(v0, lv@[17 + k]),
                    ));
                    assert(ADD_INPUT_0[k] == 1 + k);
                    assert(ADD_INPUT_1[k] == 17 + k);
                }
            }
            assert(exts_at(v0, output_limbs@) =~= output_of(row)) by {
                assert forall|k: int| 0 <= k < 16 implies exts_at(v0, output_limbs@)[k]
                    == output_of(row)[k] by {
                    assert(output_limbs@[k] == lv@[33 + k]);
                    assert(ADD_OUTPUT[k] == 33 + k);
                }
            }
            assert(row[IS_ADD as int] == ext_at(v0, is_add));
        }
        assert forall|inp: Seq<Value<F, E, H::Hash>>| #[trigger]
            builder.satisfied(inp) == old(builder).satisfied(inp) by {
            assert(builder.satisfied(inp) == middle.satisfied(inp));
        }
    }
}

} // verus!
