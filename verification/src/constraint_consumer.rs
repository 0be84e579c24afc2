//! Consumers of constraints: every constraint is folded into one accumulator
//! per challenge, so that all constraints vanish where the accumulators do,
//! but with small probability.
use crate::field::extension_field::FieldExtension;
use crate::field::field_types::{all_wf, Field, RichField};
use crate::hash::merkle_proofs::Hasher;
use crate::iop::target::{extensions_below, ExtensionTarget};
use crate::plonk::circuit_builder::CircuitBuilder;
use crate::plonk::gates::{ext_at, exts_at, Value};
use vstd::prelude::*;

verus! {

/// The accumulators after one more constraint: each is multiplied by its
/// challenge and the constraint added.
pub open spec fn consume_spec<E: Field>(accs: Seq<E>, alphas: Seq<E>, constraint: E) -> Seq<E> {
    Seq::new(accs.len(), |j: int| accs[j].mul_spec(alphas[j]).add_spec(constraint))
}

/// The accumulators after the first `n` of the constraints, in order.
pub open spec fn consume_all_spec<E: Field>(
    accs: Seq<E>,
    alphas: Seq<E>,
    constraints: Seq<E>,
    n: nat,
) -> Seq<E>
    decreases n,
{
    if n == 0 {
        accs
    } else {
        consume_spec(
            consume_all_spec(accs, alphas, constraints, (n - 1) as nat),
            alphas,
            constraints[n - 1],
        )
    }
}

/// Accumulates constraints over field values.
#[derive(Debug)]
pub struct ConstraintConsumer<E: Field> {
    /// Random values used to combine multiple constraints into one.
    pub alphas: Vec<E>,
    /// Running sums of constraints that have been emitted so far, scaled by
    /// powers of alpha.
    pub constraint_accs: Vec<E>,
}

impl<E: Field> ConstraintConsumer<E> {
    /// One accumulator per challenge, all well formed.
    pub open spec fn wf(self) -> bool {
        &&& self.alphas@.len() == self.constraint_accs@.len()
        &&& all_wf(self.alphas@)
        &&& all_wf(self.constraint_accs@)
    }

    /// A consumer with all accumulators at zero.
    pub fn new(alphas: Vec<E>) -> (r: Self)
        requires
            all_wf(alphas@),
        ensures
            r.alphas == alphas,
            r.constraint_accs@ == Seq::new(alphas@.len(), |j: int| E::zero_spec()),
            r.wf(),
    {
        let n = alphas.len();
        let mut accs: Vec<E> = Vec::with_capacity(n);
        let mut j: usize = 0;
        while j < n
            invariant
                j <= n,
                accs@.len() == j,
                forall|k: int| 0 <= k < j ==> #[trigger] accs@[k] == E::zero_spec(),
                all_wf(accs@),
            decreases n - j,
        {
            accs.push(E::zero());
            j = j + 1;
        }
        assert(accs@ =~= Seq::new(alphas@.len(), |j: int| E::zero_spec()));
        ConstraintConsumer { alphas, constraint_accs: accs }
    }

    /// The accumulators.
    pub fn accumulators(self) -> (r: Vec<E>)
        ensures
            r == self.constraint_accs,
    {
        self.constraint_accs
    }

    /// Add one constraint.
    pub fn constraint(&mut self, constraint: E)
        requires
            old(self).wf(),
            constraint.wf(),
        ensures
            final(self).alphas == old(self).alphas,
            final(self).constraint_accs@ == consume_spec(
                old(self).constraint_accs@,
                old(self).alphas@,
                constraint,
            ),
            final(self).wf(),
    {
        let n = self.alphas.len();
        let mut j: usize = 0;
        while j < n
            invariant
                j <= n,
                n == self.alphas@.len(),
                self.alphas == old(self).alphas,
                old(self).wf(),
                constraint.wf(),
                self.constraint_accs@.len() == n,
                all_wf(self.constraint_accs@),
                forall|k: int|
                    0 <= k < j ==> #[trigger] self.constraint_accs@[k] == old(
                        self,
                    ).constraint_accs@[k].mul_spec(self.alphas@[k]).add_spec(constraint),
                forall|k: int|
                    j <= k < n ==> #[trigger] self.constraint_accs@[k] == old(
                        self,
                    ).constraint_accs@[k],
            decreases n - j,
        {
            let acc = self.constraint_accs[j].mul(self.alphas[j]).add(constraint);
            self.constraint_accs.set(j, acc);
            j = j + 1;
        }
        assert(self.constraint_accs@ =~= consume_spec(
            old(self).constraint_accs@,
            old(self).alphas@,
            constraint,
        ));
    }
}

/// Accumulates constraints held by targets of a constraint system.
#[derive(Debug)]
pub struct RecursiveConstraintConsumer {
    /// The targets of the challenges.
    pub alphas: Vec<ExtensionTarget>,
    /// The targets of the running sums.
    pub constraint_accs: Vec<ExtensionTarget>,
}

impl RecursiveConstraintConsumer {
    /// One accumulator per challenge, all outputs of the first `n` gates.
    pub open spec fn scoped(self, n: nat) -> bool {
        &&& self.alphas@.len() == self.constraint_accs@.len()
        &&& extensions_below(self.alphas@, n)
        &&& extensions_below(self.constraint_accs@, n)
    }

    /// Appends the gates that add one constraint to every accumulator.
    pub fn constraint<F: RichField, E: FieldExtension<F>, H: Hasher<F>>(
        &mut self,
        builder: &mut CircuitBuilder<F, E, H>,
        constraint: ExtensionTarget,
    )
        requires
            old(self).scoped(old(builder).num_gates()),
            constraint.0 < old(builder).num_gates(),
        ensures
            final(self).alphas == old(self).alphas,
            final(self).scoped(final(builder).num_gates()),
            final(builder).frames(*old(builder)),
            final(builder).num_inputs == old(builder).num_inputs,
            old(builder).wf() ==> final(builder).wf(),
            forall|inp: Seq<Value<F, E, H::Hash>>|
                exts_at(#[trigger] final(builder).wires(inp), final(self).constraint_accs@)
                    == consume_spec(
                    exts_at(old(builder).wires(inp), old(self).constraint_accs@),
                    exts_at(old(builder).wires(inp), old(self).alphas@),
                    ext_at(old(builder).wires(inp), constraint),
                ),
            forall|inp: Seq<Value<F, E, H::Hash>>|
                #[trigger] final(builder).satisfied(inp) == old(builder).satisfied(inp),
    {
        let n = self.alphas.len();
        let mut j: usize = 0;
        proof {
            builder.lemma_frames_reflexive();
        }
        while j < n
            invariant
                j <= n,
                n == self.alphas@.len(),
                self.alphas == old(self).alphas,
                old(self).scoped(old(builder).num_gates()),
                constraint.0 < old(builder).num_gates(),
                self.constraint_accs@.len() == n,
                extensions_below(self.constraint_accs@, builder.num_gates()),
                builder.frames(*old(builder)),
                builder.num_inputs == old(builder).num_inputs,
                old(builder).wf() ==> builder.wf(),
                forall|k: int|
                    j <= k < n ==> #[trigger] self.constraint_accs@[k] == old(
                        self,
                    ).constraint_accs@[k],
                forall|inp: Seq<Value<F, E, H::Hash>>, k: int|
                    0 <= k < j ==> ext_at(
                        #[trigger] builder.wires(inp),
                        #[trigger] self.constraint_accs@[k],
                    ) == ext_at(old(builder).wires(inp), old(self).constraint_accs@[k]).mul_spec(
                        ext_at(old(builder).wires(inp), old(self).alphas@[k]),
                    ).add_spec(ext_at(old(builder).wires(inp), constraint)),
                forall|inp: Seq<Value<F, E, H::Hash>>|
                    #[trigger] builder.satisfied(inp) == old(builder).satisfied(inp),
            decreases n - j,
        {
            let ghost before = *builder;
            let ghost had = self.constraint_accs@;
            let acc = self.constraint_accs[j];
            let alpha = self.alphas[j];
            let scaled = builder.mul_extension(acc, alpha);
            let ghost middle = *builder;
            let next = builder.add_extension(scaled, constraint);
            self.constraint_accs.set(j, next);
            proof {
                builder.lemma_frames_transitive(middle, before);
                builder.lemma_frames_transitive(before, *old(builder));
                middle.lemma_frames_transitive(before, *old(builder));
                assert forall|inp: Seq<Value<F, E, H::Hash>>, k: int| 0 <= k < j + 1 implies ext_at(
                    #[trigger] builder.wires(inp),
                    #[trigger] self.constraint_accs@[k],
                ) == ext_at(old(builder).wires(inp), old(self).constraint_accs@[k]).mul_spec(
                    ext_at(old(builder).wires(inp), old(self).alphas@[k]),
                ).add_spec(ext_at(old(builder).wires(inp), constraint)) by {
                    if k < j {
                        assert(self.constraint_accs@[k] == had[k]);
                        builder.lemma_frame_value(before, inp, had[k].0);
                        assert(ext_at(before.wires(inp), had[k]) == ext_at(
                            old(builder).wires(inp),
                            old(self).constraint_accs@[k],
                        ).mul_spec(ext_at(old(builder).wires(inp), old(self).alphas@[k])).add_spec(
                            ext_at(old(builder).wires(inp), constraint),
                        ));
                    } else {
                        before.lemma_frame_value(*old(builder), inp, acc.0);
                        before.lemma_frame_value(*old(builder), inp, alpha.0);
                        middle.lemma_frame_value(*old(builder), inp, constraint.0);
                        assert(ext_at(middle.wires(inp), scaled) == ext_at(before.wires(inp), acc)
                            .mul_spec(ext_at(before.wires(inp), alpha)));
                    }
                }
                assert forall|inp: Seq<Value<F, E, H::Hash>>| #[trigger]
                    builder.satisfied(inp) == old(builder).satisfied(inp) by {
                    assert(builder.satisfied(inp) == middle.satisfied(inp));
                    assert(middle.satisfied(inp) == before.satisfied(inp));
                }
            }
            j = j + 1;
        }
        proof {
            assert forall|inp: Seq<Value<F, E, H::Hash>>|
                exts_at(#[trigger] builder.wires(inp), self.constraint_accs@) == consume_spec(
                    exts_at(old(builder).wires(inp), old(self).constraint_accs@),
                    exts_at(old(builder).wires(inp), old(self).alphas@),
                    ext_at(old(builder).wires(inp), constraint),
                ) by {
                let got = exts_at(builder.wires(inp), self.constraint_accs@);
                let want = consume_spec(
                    exts_at(old(builder).wires(inp), old(self).constraint_accs@),
                    exts_at(old(builder).wires(inp), old(self).alphas@),
                    ext_at(old(builder).wires(inp), constraint),
                );
                assert forall|k: int| 0 <= k < got.len() implies got[k] == want[k] by {
                    assert(ext_at(builder.wires(inp), self.constraint_accs@[k]) == ext_at(
                        old(builder).wires(inp),
                        old(self).constraint_accs@[k],
                    ).mul_spec(ext_at(old(builder).wires(inp), old(self).alphas@[k])).add_spec(
                        ext_at(old(builder).wires(inp), constraint),
                    ));
                }
                assert(got =~= want);
            }
        }
    }
}

} // verus!
