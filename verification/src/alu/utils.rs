//! Constraints shared by the operations of the arithmetic unit.
use crate::constraint_consumer::{
    consume_all_spec, consume_spec, ConstraintConsumer, RecursiveConstraintConsumer,
};
use crate::field::extension_field::FieldExtension;
use crate::field::field_types::{
    all_wf, inverse_spec, is_unit, sub_spec, Field, FieldOps, RichField,
};
use crate::hash::merkle_proofs::Hasher;
use crate::iop::target::{extensions_below, ExtensionTarget};
use crate::plonk::circuit_builder::CircuitBuilder;
use crate::plonk::gates::{ext_at, exts_at, Value};
use vstd::prelude::*;

verus! {

/// The number one beyond the largest limb, `2^16`, as field element.
pub open spec fn overflow_spec<E: Field>() -> E {
    E::from_canonical_u64_spec(0x10000)
}

/// The carry into limb `i` of the comparison of two sequences of limbs: the
/// previous difference, carry included, divided by `2^16`.
pub open spec fn are_equal_carry<E: Field>(larger: Seq<E>, smaller: Seq<E>, i: nat) -> E
    decreases i,
{
    if i == 0 {
        E::zero_spec()
    } else {
        sub_spec(
            are_equal_carry(larger, smaller, (i - 1) as nat).add_spec(larger[i - 1]),
            smaller[i - 1],
        ).mul_spec(inverse_spec(overflow_spec::<E>()))
    }
}

/// The difference of limb `i`, carry included: zero or `2^16` where the
/// sequences hold the same number, the larger one unreduced.
pub open spec fn are_equal_difference<E: Field>(larger: Seq<E>, smaller: Seq<E>, i: int) -> E {
    sub_spec(are_equal_carry(larger, smaller, i as nat).add_spec(larger[i]), smaller[i])
}

/// The constraints that two sequences of limbs hold the same number where the
/// operation's flag is set: for each limb, `flag * t * (2^16 - t)` with `t` the
/// difference of the limb.
pub open spec fn are_equal_constraints<E: Field>(is_op: E, larger: Seq<E>, smaller: Seq<E>) -> Seq<E> {
    Seq::new(
        larger.len(),
        |i: int|
            is_op.mul_spec(are_equal_difference(larger, smaller, i)).mul_spec(
                sub_spec(overflow_spec::<E>(), are_equal_difference(larger, smaller, i)),
            ),
    )
}

/// Emits the constraints that `larger`, whose limbs may exceed sixteen bits,
/// and `smaller` hold the same number where `is_op` is set.
pub fn eval_packed_generic_are_equal<E: Field>(
    yield_constr: &mut ConstraintConsumer<E>,
    is_op: E,
    larger: &[E],
    smaller: &[E],
)
    requires
        old(yield_constr).wf(),
        is_op.wf(),
        all_wf(larger@),
        all_wf(smaller@),
        larger@.len() == smaller@.len(),
        0x10000 < E::characteristic_spec(),
        is_unit(overflow_spec::<E>()),
    ensures
        final(yield_constr).alphas == old(yield_constr).alphas,
        final(yield_constr).wf(),
        final(yield_constr).constraint_accs@ == consume_all_spec(
            old(yield_constr).constraint_accs@,
            old(yield_constr).alphas@,
            are_equal_constraints(is_op, larger@, smaller@),
            larger@.len(),
        ),
{
    proof {
        assert(1u64 << 16 == 0x10000u64) by (bit_vector);
    }
    let overflow = E::from_canonical_u64(1u64 << 16);
    let overflow_inv = overflow.inverse();
    let mut cy = E::zero();
    let n = larger.len();
    let mut i: usize = 0;
    while i < n
        invariant
            i <= n,
            n == larger@.len(),
            n == smaller@.len(),
            is_op.wf(),
            all_wf(larger@),
            all_wf(smaller@),
            overflow == overflow_spec::<E>(),
            overflow.wf(),
            overflow_inv == inverse_spec(overflow_spec::<E>()),
            overflow_inv.wf(),
            cy.wf(),
            cy == are_equal_carry(larger@, smaller@, i as nat),
            yield_constr.alphas == old(yield_constr).alphas,
            yield_constr.wf(),
            yield_constr.constraint_accs@ == consume_all_spec(
                old(yield_constr).constraint_accs@,
                old(yield_constr).alphas@,
                are_equal_constraints(is_op, larger@, smaller@),
                i as nat,
            ),
        decreases n - i,
    {
        // t should be either 0 or 2^LIMB_BITS
        let t = cy.add(larger[i]).sub(smaller[i]);
        yield_constr.constraint(is_op.mul(t).mul(overflow.sub(t)));
        // cy <-- 0 or 1
        cy = t.mul(overflow_inv);
        i = i + 1;
    }
}


/// Appends the gates of the comparison of one limb: the constraint
/// `is_op * t * (2^16 - t)` on the difference `t = cy + a - b` is added to the
/// consumer, and the carry into the next limb is `t / 2^16`.
#[verifier::rlimit(100)]
pub fn are_equal_step<F: RichField, E: FieldExtension<F>, H: Hasher<F>>(
    builder: &mut CircuitBuilder<F, E, H>,
    yield_constr: &mut RecursiveConstraintConsumer,
    is_op: ExtensionTarget,
    a: ExtensionTarget,
    b: ExtensionTarget,
    cy: ExtensionTarget,
    overflow: ExtensionTarget,
    overflow_inv: ExtensionTarget,
) -> (r: ExtensionTarget)
    requires
        old(yield_constr).scoped(old(builder).num_gates()),
        is_op.0 < old(builder).num_gates(),
        a.0 < old(builder).num_gates(),
        b.0 < old(builder).num_gates(),
        cy.0 < old(builder).num_gates(),
        overflow.0 < old(builder).num_gates(),
        overflow_inv.0 < old(builder).num_gates(),
    ensures
        final(yield_constr).alphas == old(yield_constr).alphas,
        final(yield_constr).scoped(final(builder).num_gates()),
        final(builder).frames(*old(builder)),
        final(builder).num_inputs == old(builder).num_inputs,
        old(builder).wf() ==> final(builder).wf(),
        r.0 < final(builder).num_gates(),
        forall|inp: Seq<Value<F, E, H::Hash>>|
            step_values::<F, E, H>(
                #[trigger] final(builder).wires(inp),
                old(builder).wires(inp),
                final(yield_constr).constraint_accs@,
                old(yield_constr).constraint_accs@,
                old(yield_constr).alphas@,
                r,
                is_op,
                a,
                b,
                cy,
                overflow,
                overflow_inv,
            ),
        forall|inp: Seq<Value<F, E, H::Hash>>|
            #[trigger] final(builder).satisfied(inp) == old(builder).satisfied(inp),
{
    let sum = builder.add_extension(cy, a);
    let ghost s1 = *builder;
    // t should be either 0 or 2^LIMB_BITS
    let t = builder.sub_extension(sum, b);
    let ghost s2 = *builder;
    let flagged = builder.mul_extension(is_op, t);
    let ghost s3 = *builder;
    let rest = builder.sub_extension(overflow, t);
    let ghost s4 = *builder;
    let constraint = builder.mul_extension(flagged, rest);
    let ghost s5 = *builder;
    proof {
        s2.lemma_frames_transitive(s1, *old(builder));
        s3.lemma_frames_transitive(s2, *old(builder));
        s4.lemma_frames_transitive(s3, *old(builder));
        s5.lemma_frames_transitive(s4, *old(builder));
        s4.lemma_frames_transitive(s3, s2);
        s5.lemma_frames_transitive(s4, s2);
        s5.lemma_frames_transitive(s4, s3);
    }
    yield_constr.constraint(builder, constraint);
    let ghost s6 = *builder;
    proof {
        s6.lemma_frames_transitive(s5, *old(builder));
        s6.lemma_frames_transitive(s5, s2);
    }
    // cy <-- 0 or 1
    let next = builder.mul_extension(t, overflow_inv);
    proof {
        builder.lemma_frames_transitive(s6, *old(builder));
        builder.lemma_frames_transitive(s6, s5);
        assert forall|inp: Seq<Value<F, E, H::Hash>>|
            step_values::<F, E, H>(
                #[trigger] builder.wires(inp),
                old(builder).wires(inp),
                yield_constr.constraint_accs@,
                old(yield_constr).constraint_accs@,
                old(yield_constr).alphas@,
                next,
                is_op,
                a,
                b,
                cy,
                overflow,
                overflow_inv,
            ) by {
            let v0 = old(builder).wires(inp);
            let tv = sub_spec(ext_at(v0, cy).add_spec(ext_at(v0, a)), ext_at(v0, b));
            s1.lemma_frame_value(*old(builder), inp, b.0);
            assert(ext_at(s2.wires(inp), t) == tv);
            s2.lemma_frame_value(*old(builder), inp, is_op.0);
            s3.lemma_frame_value(s2, inp, t.0);
            s3.lemma_frame_value(*old(builder), inp, overflow.0);
            s4.lemma_frame_value(s3, inp, flagged.0);
            assert(ext_at(s3.wires(inp), flagged) == ext_at(v0, is_op).mul_spec(tv));
            assert(ext_at(s4.wires(inp), rest) == sub_spec(ext_at(v0, overflow), tv));
            assert(ext_at(s5.wires(inp), constraint) == ext_at(v0, is_op).mul_spec(tv).mul_spec(
                sub_spec(ext_at(v0, overflow), tv),
            ));
            s5.lemma_frame_exts(*old(builder), inp, old(yield_constr).constraint_accs@);
            s5.lemma_frame_exts(*old(builder), inp, old(yield_constr).alphas@);
            s6.lemma_frame_value(s2, inp, t.0);
            s6.lemma_frame_value(*old(builder), inp, overflow_inv.0);
            builder.lemma_frame_exts(s6, inp, yield_constr.constraint_accs@);
        }
        assert forall|inp: Seq<Value<F, E, H::Hash>>| #[trigger]
            builder.satisfied(inp) == old(builder).satisfied(inp) by {
            assert(builder.satisfied(inp) == s6.satisfied(inp));
            assert(s6.satisfied(inp) == s5.satisfied(inp));
            assert(s5.satisfied(inp) == s4.satisfied(inp));
            assert(s4.satisfied(inp) == s3.satisfied(inp));
            assert(s3.satisfied(inp) == s2.satisfied(inp));
            assert(s2.satisfied(inp) == s1.satisfied(inp));
        }
    }
    next
}

/// What the gates of the comparison of one limb compute.
pub open spec fn step_values<F: RichField, E: FieldExtension<F>, H: Hasher<F>>(
    vals: Seq<Value<F, E, H::Hash>>,
    before: Seq<Value<F, E, H::Hash>>,
    accs: Seq<ExtensionTarget>,
    accs_before: Seq<ExtensionTarget>,
    alphas: Seq<ExtensionTarget>,
    next: ExtensionTarget,
    is_op: ExtensionTarget,
    a: ExtensionTarget,
    b: ExtensionTarget,
    cy: ExtensionTarget,
    overflow: ExtensionTarget,
    overflow_inv: ExtensionTarget,
) -> bool {
    let t = sub_spec(ext_at(before, cy).add_spec(ext_at(before, a)), ext_at(before, b));
    &&& ext_at(vals, next) == t.mul_spec(ext_at(before, overflow_inv))
    &&& exts_at(vals, accs) == consume_spec(
        exts_at(before, accs_before),
        exts_at(before, alphas),
        ext_at(before, is_op).mul_spec(t).mul_spec(sub_spec(ext_at(before, overflow), t)),
    )
}

/// Appends the gates that constrain `larger`, whose limbs may exceed sixteen
/// bits, and `smaller` to hold the same number where `is_op` is set.
#[verifier::rlimit(100)]
pub fn eval_ext_circuit_are_equal<F: RichField, E: FieldExtension<F>, H: Hasher<F>>(
    builder: &mut CircuitBuilder<F, E, H>,
    yield_constr: &mut RecursiveConstraintConsumer,
    is_op: ExtensionTarget,
    larger: &[ExtensionTarget],
    smaller: &[ExtensionTarget],
)
    requires
        old(yield_constr).scoped(old(builder).num_gates()),
        is_op.0 < old(builder).num_gates(),
        extensions_below(larger@, old(builder).num_gates()),
        extensions_below(smaller@, old(builder).num_gates()),
        larger@.len() == smaller@.len(),
        0x10000 < E::characteristic_spec(),
        is_unit(overflow_spec::<E>()),
    ensures
        final(yield_constr).alphas == old(yield_constr).alphas,
        final(yield_constr).scoped(final(builder).num_gates()),
        final(builder).frames(*old(builder)),
        final(builder).num_inputs == old(builder).num_inputs,
        old(builder).wf() ==> final(builder).wf(),
        forall|inp: Seq<Value<F, E, H::Hash>>|
            exts_at(#[trigger] final(builder).wires(inp), final(yield_constr).constraint_accs@)
                == consume_all_spec(
                exts_at(old(builder).wires(inp), old(yield_constr).constraint_accs@),
                exts_at(old(builder).wires(inp), old(yield_constr).alphas@),
                are_equal_constraints(
                    ext_at(old(builder).wires(inp), is_op),
                    exts_at(old(builder).wires(inp), larger@),
                    exts_at(old(builder).wires(inp), smaller@),
                ),
                larger@.len(),
            ),
        forall|inp: Seq<Value<F, E, H::Hash>>|
            #[trigger] final(builder).satisfied(inp) == old(builder).satisfied(inp),
{
    proof {
        assert(1u64 << 16 == 0x10000u64) by (bit_vector);
        E::lemma_constants();
    }
    let overflow_value = E::from_canonical_u64(1u64 << 16);
    let overflow = builder.constant_extension(overflow_value);
    let ghost s1 = *builder;
    let overflow_inv = builder.constant_extension(overflow_value.inverse());
    let ghost s2 = *builder;
    let mut cy = builder.zero_extension();
    let ghost s3 = *builder;
    let n = larger.len();
    let mut i: usize = 0;
    proof {
        s2.lemma_frames_transitive(s1, *old(builder));
        s3.lemma_frames_transitive(s2, *old(builder));
        s3.lemma_frames_transitive(s2, s1);
        builder.lemma_frames_reflexive();
        assert forall|inp: Seq<Value<F, E, H::Hash>>|
            ext_at(#[trigger] s3.wires(inp), overflow) == overflow_spec::<E>() && ext_at(
                s3.wires(inp),
                overflow_inv,
            ) == inverse_spec(overflow_spec::<E>()) by {
            s3.lemma_frame_value(s1, inp, overflow.0);
            s3.lemma_frame_value(s2, inp, overflow_inv.0);
        }
        assert forall|inp: Seq<Value<F, E, H::Hash>>|
            exts_at(#[trigger] builder.wires(inp), yield_constr.constraint_accs@)
                == consume_all_spec(
                exts_at(old(builder).wires(inp), old(yield_constr).constraint_accs@),
                exts_at(old(builder).wires(inp), old(yield_constr).alphas@),
                are_equal_constraints(
                    ext_at(old(builder).wires(inp), is_op),
                    exts_at(old(builder).wires(inp), larger@),
                    exts_at(old(builder).wires(inp), smaller@),
                ),
                0,
            ) by {
            builder.lemma_frame_exts(*old(builder), inp, yield_constr.constraint_accs@);
        }
        assert forall|inp: Seq<Value<F, E, H::Hash>>| #[trigger]
            builder.satisfied(inp) == old(builder).satisfied(inp) by {
            assert(builder.satisfied(inp) == s2.satisfied(inp));
            assert(s2.satisfied(inp) == s1.satisfied(inp));
        }
    }
    while i < n
        invariant
            i <= n,
            n == larger@.len(),
            n == smaller@.len(),
            is_op.0 < old(builder).num_gates(),
            extensions_below(larger@, old(builder).num_gates()),
            extensions_below(smaller@, old(builder).num_gates()),
            old(yield_constr).scoped(old(builder).num_gates()),
            yield_constr.alphas == old(yield_constr).alphas,
            yield_constr.scoped(builder.num_gates()),
            overflow.0 < s3.num_gates(),
            overflow_inv.0 < s3.num_gates(),
            cy.0 < builder.num_gates(),
            s3.frames(*old(builder)),
            builder.frames(s3),
            builder.frames(*old(builder)),
            builder.num_inputs == old(builder).num_inputs,
            old(builder).wf() ==> builder.wf(),
            forall|inp: Seq<Value<F, E, H::Hash>>|
                ext_at(#[trigger] s3.wires(inp), overflow) == overflow_spec::<E>() && ext_at(
                    s3.wires(inp),
                    overflow_inv,
                ) == inverse_spec(overflow_spec::<E>()),
            forall|inp: Seq<Value<F, E, H::Hash>>|
                ext_at(#[trigger] builder.wires(inp), cy) == are_equal_carry(
                    exts_at(old(builder).wires(inp), larger@),
                    exts_at(old(builder).wires(inp), smaller@),
                    i as nat,
                ) && exts_at(builder.wires(inp), yield_constr.constraint_accs@)
                    == consume_all_spec(
                    exts_at(old(builder).wires(inp), old(yield_constr).constraint_accs@),
                    exts_at(old(builder).wires(inp), old(yield_constr).alphas@),
                    are_equal_constraints(
                        ext_at(old(builder).wires(inp), is_op),
                        exts_at(old(builder).wires(inp), larger@),
                        exts_at(old(builder).wires(inp), smaller@),
                    ),
                    i as nat,
                ),
            forall|inp: Seq<Value<F, E, H::Hash>>|
                #[trigger] builder.satisfied(inp) == old(builder).satisfied(inp),
        decreases n - i,
    {
        let ghost before = *builder;
        let ghost accs_before = yield_constr.constraint_accs@;
        let prev = cy;
        cy = are_equal_step(
            builder,
            yield_constr,
            is_op,
            larger[i],
            smaller[i],
            prev,
            overflow,
            overflow_inv,
        );
        proof {
            builder.lemma_frames_transitive(before, s3);
            builder.lemma_frames_transitive(before, *old(builder));
            assert forall|inp: Seq<Value<F, E, H::Hash>>|
                ext_at(#[trigger] builder.wires(inp), cy) == are_equal_carry(
                    exts_at(old(builder).wires(inp), larger@),
                    exts_at(old(builder).wires(inp), smaller@),
                    (i + 1) as nat,
                ) && exts_at(builder.wires(inp), yield_constr.constraint_accs@)
                    == consume_all_spec(
                    exts_at(old(builder).wires(inp), old(yield_constr).constraint_accs@),
                    exts_at(old(builder).wires(inp), old(yield_constr).alphas@),
                    are_equal_constraints(
                        ext_at(old(builder).wires(inp), is_op),
                        exts_at(old(builder).wires(inp), larger@),
                        exts_at(old(builder).wires(inp), smaller@),
                    ),
                    (i + 1) as nat,
                ) by {
                let v0 = old(builder).wires(inp);
                let vb = before.wires(inp);
                before.lemma_frame_value(*old(builder), inp, is_op.0);
                before.lemma_frame_value(*old(builder), inp, larger@[i as int].0);
                before.lemma_frame_value(*old(builder), inp, smaller@[i as int].0);
                before.lemma_frame_value(s3, inp, overflow.0);
                before.lemma_frame_value(s3, inp, overflow_inv.0);
                before.lemma_frame_exts(*old(builder), inp, old(yield_constr).alphas@);
                assert(step_values::<F, E, H>(
                    builder.wires(inp),
                    vb,
                    yield_constr.constraint_accs@,
                    accs_before,
                    old(yield_constr).alphas@,
                    cy,
                    is_op,
                    larger@[i as int],
                    smaller@[i as int],
                    prev,
                    overflow,
                    overflow_inv,
                ));
                assert(exts_at(v0, larger@)[i as int] == ext_at(v0, larger@[i as int]));
                assert(exts_at(v0, smaller@)[i as int] == ext_at(v0, smaller@[i as int]));
            }
        }
        i = i + 1;
    }
}

} // verus!
