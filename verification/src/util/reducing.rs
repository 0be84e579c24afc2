//! Random linear combinations: a list of values folded into one with the
//! powers of a challenge.
use crate::field::extension_field::FieldExtension;
use crate::field::field_types::{
    all_wf, lemma_mul_zero, lemma_one_mul, lemma_pow_wf, pow_spec, Field, FieldOps, RichField,
};
use crate::hash::merkle_proofs::Hasher;
use crate::iop::target::{extensions_below, targets_below, ExtensionTarget, Target};
use crate::plonk::circuit_builder::CircuitBuilder;
use crate::plonk::gates::{base_at, ext_at, exts_at, Value};
use vstd::prelude::*;

verus! {

/// The combination `v_0 + alpha * (v_1 + alpha * (v_2 + ...))` of the values
/// with the powers of `alpha`.
pub open spec fn reduce_spec<F: Field>(alpha: F, values: Seq<F>) -> F
    decreases values.len(),
{
    if values.len() == 0 {
        F::zero_spec()
    } else {
        alpha.mul_spec(reduce_spec(alpha, values.skip(1))).add_spec(values[0])
    }
}

/// The combination of well-formed values with a well-formed challenge is well
/// formed.
pub proof fn lemma_reduce_wf<F: Field>(alpha: F, values: Seq<F>)
    requires
        alpha.wf(),
        all_wf(values),
    ensures
        reduce_spec(alpha, values).wf(),
    decreases values.len(),
{
    F::lemma_constants();
    if values.len() > 0 {
        lemma_reduce_wf(alpha, values.skip(1));
        F::lemma_closed(alpha, reduce_spec(alpha, values.skip(1)));
        F::lemma_closed(alpha.mul_spec(reduce_spec(alpha, values.skip(1))), values[0]);
    }
}

/// The sum of the first `n` values, each times the power of `alpha` with its
/// index: `v_0 + v_1 * alpha + ... + v_(n-1) * alpha^(n-1)`.
pub open spec fn power_sum<F: Field>(alpha: F, values: Seq<F>, n: nat) -> F
    decreases n,
{
    if n == 0 {
        F::zero_spec()
    } else {
        power_sum(alpha, values, (n - 1) as nat).add_spec(
            pow_spec(alpha, (n - 1) as nat).mul_spec(values[n - 1]),
        )
    }
}

/// Power sums of well-formed values with a well-formed challenge are well
/// formed.
pub proof fn lemma_power_sum_wf<F: Field>(alpha: F, values: Seq<F>, n: nat)
    requires
        alpha.wf(),
        all_wf(values),
        n <= values.len(),
    ensures
        power_sum(alpha, values, n).wf(),
    decreases n,
{
    F::lemma_constants();
    if n > 0 {
        let n1 = (n - 1) as nat;
        lemma_power_sum_wf(alpha, values, n1);
        lemma_pow_wf(alpha, n1);
        F::lemma_closed(pow_spec(alpha, n1), values[n1 as int]);
        F::lemma_closed(
            power_sum(alpha, values, n1),
            pow_spec(alpha, n1).mul_spec(values[n1 as int]),
        );
    }
}

/// A power sum with one value more in front: the sum of the others times
/// `alpha`, and the value.
pub proof fn lemma_power_sum_shift<F: Field>(alpha: F, values: Seq<F>, n: nat)
    requires
        alpha.wf(),
        all_wf(values),
        n < values.len(),
    ensures
        alpha.mul_spec(power_sum(alpha, values.skip(1), n)).add_spec(values[0]) == power_sum(
            alpha,
            values,
            n + 1,
        ),
    decreases n,
{
    let rest = values.skip(1);
    let first = values[0];
    F::lemma_constants();
    if n == 0 {
        // alpha * 0 + v_0 == 0 + 1 * v_0
        lemma_mul_zero(alpha);
        lemma_one_mul(first);
        assert(pow_spec(alpha, 0) == F::one_spec());
        assert(power_sum(alpha, values, 1) == power_sum(alpha, values, 0).add_spec(
            pow_spec(alpha, 0).mul_spec(first),
        ));
    } else {
        let n1 = (n - 1) as nat;
        lemma_power_sum_shift(alpha, values, n1);
        let inner = power_sum(alpha, rest, n1);
        let power = pow_spec(alpha, n1);
        let x = rest[n1 as int];
        assert(x == values[n as int]);
        lemma_power_sum_wf(alpha, rest, n1);
        lemma_pow_wf(alpha, n1);
        F::lemma_closed(power, x);
        F::lemma_closed(alpha, inner);
        F::lemma_closed(alpha, power.mul_spec(x));
        // alpha * (inner + power * x) + first
        //   == (alpha * inner + first) + (alpha * power) * x
        F::lemma_distributive(alpha, inner, power.mul_spec(x));
        F::lemma_mul_associative(alpha, power, x);
        let left = alpha.mul_spec(inner);
        let term = alpha.mul_spec(power).mul_spec(x);
        F::lemma_add_associative(left, term, first);
        F::lemma_add_commutative(term, first);
        F::lemma_add_associative(left, first, term);
        assert(pow_spec(alpha, n) == alpha.mul_spec(power));
        assert(power_sum(alpha, values, n + 1) == power_sum(alpha, values, n).add_spec(
            pow_spec(alpha, n).mul_spec(values[n as int]),
        ));
        assert(power_sum(alpha, rest, n) == inner.add_spec(power.mul_spec(x)));
    }
}

/// The combination of the values is their sum with the powers of the
/// challenge: `v_0 + v_1 * alpha + v_2 * alpha^2 + ...`.
pub proof fn lemma_reduce_is_power_sum<F: Field>(alpha: F, values: Seq<F>)
    requires
        alpha.wf(),
        all_wf(values),
    ensures
        reduce_spec(alpha, values) == power_sum(alpha, values, values.len()),
    decreases values.len(),
{
    if values.len() > 0 {
        lemma_reduce_is_power_sum(alpha, values.skip(1));
        lemma_power_sum_shift(alpha, values, (values.len() - 1) as nat);
    }
}

/// A challenge `base` together with the number of values that were combined
/// with its powers since the last shift.
#[derive(Debug)]
pub struct ReducingFactor<F: Field> {
    pub base: F,
    pub count: u64,
}

impl<F: Field> ReducingFactor<F> {
    /// The challenge is well formed.
    pub open spec fn wf(self) -> bool {
        self.base.wf()
    }

    /// A factor that has combined no value yet.
    pub fn new(base: F) -> (r: Self)
        ensures
            r.base == base,
            r.count == 0,
    {
        ReducingFactor { base, count: 0 }
    }

    /// Multiplies `x` by the challenge and counts one more value.
    fn mul(&mut self, x: F) -> (r: F)
        requires
            old(self).wf(),
            x.wf(),
            old(self).count < u64::MAX,
        ensures
            r == old(self).base.mul_spec(x),
            r.wf(),
            final(self).base == old(self).base,
            final(self).count == old(self).count + 1,
    {
        self.count = self.count + 1;
        self.base.mul(x)
    }

    /// Combines the values with the powers of the challenge, the first value
    /// with power zero.
    pub fn reduce(&mut self, values: &[F]) -> (r: F)
        requires
            old(self).wf(),
            all_wf(values@),
            old(self).count + values@.len() <= u64::MAX,
        ensures
            r == reduce_spec(old(self).base, values@),
            r.wf(),
            final(self).base == old(self).base,
            final(self).count == old(self).count + values@.len(),
    {
        let n = values.len();
        let mut acc = F::zero();
        let mut i: usize = n;
        proof {
            assert(values@.skip(n as int) =~= Seq::<F>::empty());
        }
        while i > 0
            invariant
                i <= n,
                n == values@.len(),
                all_wf(values@),
                self.wf(),
                self.base == old(self).base,
                self.count == old(self).count + (n - i),
                old(self).count + n <= u64::MAX,
                acc.wf(),
                acc == reduce_spec(self.base, values@.skip(i as int)),
            decreases i,
        {
            i = i - 1;
            proof {
                let tail = values@.skip(i as int);
                assert(tail.skip(1) =~= values@.skip(i + 1));
                assert(tail[0] == values@[i as int]);
            }
            let scaled = self.mul(acc);
            acc = scaled.add(values[i]);
        }
        proof {
            assert(values@.skip(0) =~= values@);
        }
        acc
    }

    /// Multiplies `x` by the power of the challenge that the values combined
    /// since the last shift took up, and starts counting anew.
    pub fn shift(&mut self, x: F) -> (r: F)
        requires
            old(self).wf(),
            x.wf(),
        ensures
            r == pow_spec(old(self).base, old(self).count as nat).mul_spec(x),
            r.wf(),
            final(self).base == old(self).base,
            final(self).count == 0,
    {
        let tmp = self.base.exp_u64(self.count).mul(x);
        self.count = 0;
        tmp
    }

    /// Starts counting anew.
    pub fn reset(&mut self)
        ensures
            final(self).base == old(self).base,
            final(self).count == 0,
    {
        self.count = 0;
    }
}

/// The values of base-field targets, embedded in the extension field.
pub open spec fn embedded_bases_at<F: Field, E: FieldExtension<F>, D>(
    vals: Seq<Value<F, E, D>>,
    terms: Seq<Target>,
) -> Seq<E> {
    Seq::new(terms.len(), |i: int| E::from_basefield_spec(base_at(vals, terms[i])))
}

/// A challenge held by a target, together with the number of values that were
/// combined with its powers since the last shift.
#[derive(Clone, Copy, Debug)]
pub struct ReducingFactorTarget {
    pub base: ExtensionTarget,
    pub count: u64,
}

impl ReducingFactorTarget {
    /// A factor that has combined no value yet.
    pub fn new(base: ExtensionTarget) -> (r: Self)
        ensures
            r.base == base,
            r.count == 0,
    {
        ReducingFactorTarget { base, count: 0 }
    }

    /// Appends the gates that combine the values of the extension-field
    /// targets with the powers of the challenge.
    pub fn reduce<F: RichField, E: FieldExtension<F>, H: Hasher<F>>(
        &mut self,
        terms: &[ExtensionTarget],
        builder: &mut CircuitBuilder<F, E, H>,
    ) -> (r: ExtensionTarget)
        requires
            old(self).base.0 < old(builder).num_gates(),
            extensions_below(terms@, old(builder).num_gates()),
            old(self).count + terms@.len() <= u64::MAX,
        ensures
            final(self).base == old(self).base,
            final(self).count == old(self).count + terms@.len(),
            final(builder).frames(*old(builder)),
            final(builder).num_inputs == old(builder).num_inputs,
            old(builder).wf() ==> final(builder).wf(),
            r.0 < final(builder).num_gates(),
            forall|inp: Seq<Value<F, E, H::Hash>>|
                ext_at(#[trigger] final(builder).wires(inp), r) == reduce_spec(
                    ext_at(old(builder).wires(inp), old(self).base),
                    exts_at(old(builder).wires(inp), terms@),
                ),
            forall|inp: Seq<Value<F, E, H::Hash>>|
                #[trigger] final(builder).satisfied(inp) == old(builder).satisfied(inp),
    {
        let n = terms.len();
        let mut acc = builder.zero_extension();
        let mut i: usize = n;
        proof {
            assert forall|inp: Seq<Value<F, E, H::Hash>>|
                exts_at(old(builder).wires(inp), terms@).skip(n as int) =~= Seq::<E>::empty() by {}
        }
        while i > 0
            invariant
                i <= n,
                n == terms@.len(),
                self.base == old(self).base,
                self.count == old(self).count + (n - i),
                old(self).count + n <= u64::MAX,
                self.base.0 < old(builder).num_gates(),
                extensions_below(terms@, old(builder).num_gates()),
                builder.frames(*old(builder)),
                builder.num_inputs == old(builder).num_inputs,
                old(builder).wf() ==> builder.wf(),
                acc.0 < builder.num_gates(),
                forall|inp: Seq<Value<F, E, H::Hash>>|
                    ext_at(#[trigger] builder.wires(inp), acc) == reduce_spec(
                        ext_at(old(builder).wires(inp), self.base),
                        exts_at(old(builder).wires(inp), terms@).skip(i as int),
                    ),
                forall|inp: Seq<Value<F, E, H::Hash>>|
                    #[trigger] builder.satisfied(inp) == old(builder).satisfied(inp),
            decreases i,
        {
            i = i - 1;
            let ghost before = *builder;
            let prev = acc;
            let scaled = builder.mul_extension(self.base, prev);
            let ghost middle = *builder;
            acc = builder.add_extension(scaled, terms[i]);
            self.count = self.count + 1;
            proof {
                builder.lemma_frames_transitive(middle, before);
                builder.lemma_frames_transitive(before, *old(builder));
                assert forall|inp: Seq<Value<F, E, H::Hash>>|
                    ext_at(#[trigger] builder.wires(inp), acc) == reduce_spec(
                        ext_at(old(builder).wires(inp), self.base),
                        exts_at(old(builder).wires(inp), terms@).skip(i as int),
                    ) by {
                    let all = exts_at(old(builder).wires(inp), terms@);
                    let tail = all.skip(i as int);
                    assert(tail.skip(1) =~= all.skip(i + 1));
                    assert(tail[0] == all[i as int]);
                    let w0 = old(builder).wires(inp);
                    let w1 = before.wires(inp);
                    let w2 = middle.wires(inp);
                    assert(w1.take(w0.len() as int) == w0);
                    assert(w1[terms@[i as int].0 as int] == w1.take(w0.len() as int)[terms@[i as int].0 as int]);
                    assert(w1[self.base.0 as int] == w1.take(w0.len() as int)[self.base.0 as int]);
                    assert(ext_at(w1, self.base) == ext_at(w0, self.base));
                    assert(ext_at(w1, terms@[i as int]) == ext_at(w0, terms@[i as int]));
                    assert(ext_at(w2, scaled) == ext_at(w1, self.base).mul_spec(ext_at(w1, prev)));
                }
            }
        }
        proof {
            assert forall|inp: Seq<Value<F, E, H::Hash>>|
                ext_at(#[trigger] builder.wires(inp), acc) == reduce_spec(
                    ext_at(old(builder).wires(inp), self.base),
                    exts_at(old(builder).wires(inp), terms@),
                ) by {
                let all = exts_at(old(builder).wires(inp), terms@);
                assert(all.skip(0) =~= all);
                assert(ext_at(builder.wires(inp), acc) == reduce_spec(
                    ext_at(old(builder).wires(inp), self.base),
                    all.skip(i as int),
                ));
            }
        }
        acc
    }

    /// Appends the gates that combine the values of the base-field targets,
    /// embedded in the extension field, with the powers of the challenge.
    pub fn reduce_base<F: RichField, E: FieldExtension<F>, H: Hasher<F>>(
        &mut self,
        terms: &[Target],
        builder: &mut CircuitBuilder<F, E, H>,
    ) -> (r: ExtensionTarget)
        requires
            old(self).base.0 < old(builder).num_gates(),
            targets_below(terms@, old(builder).num_gates()),
            old(self).count + terms@.len() <= u64::MAX,
        ensures
            final(self).base == old(self).base,
            final(self).count == old(self).count + terms@.len(),
            final(builder).frames(*old(builder)),
            final(builder).num_inputs == old(builder).num_inputs,
            old(builder).wf() ==> final(builder).wf(),
            r.0 < final(builder).num_gates(),
            forall|inp: Seq<Value<F, E, H::Hash>>|
                ext_at(#[trigger] final(builder).wires(inp), r) == reduce_spec(
                    ext_at(old(builder).wires(inp), old(self).base),
                    embedded_bases_at(old(builder).wires(inp), terms@),
                ),
            forall|inp: Seq<Value<F, E, H::Hash>>|
                #[trigger] final(builder).satisfied(inp) == old(builder).satisfied(inp),
    {
        let n = terms.len();
        let mut embedded: Vec<ExtensionTarget> = Vec::with_capacity(n);
        let mut i: usize = 0;
        proof {
            builder.lemma_frames_reflexive();
        }
        while i < n
            invariant
                i <= n,
                n == terms@.len(),
                targets_below(terms@, old(builder).num_gates()),
                builder.frames(*old(builder)),
                builder.num_inputs == old(builder).num_inputs,
                old(builder).wf() ==> builder.wf(),
                embedded@.len() == i,
                extensions_below(embedded@, builder.num_gates()),
                forall|inp: Seq<Value<F, E, H::Hash>>|
                    exts_at(#[trigger] builder.wires(inp), embedded@) == embedded_bases_at(
                        old(builder).wires(inp),
                        terms@,
                    ).take(i as int),
                forall|inp: Seq<Value<F, E, H::Hash>>|
                    #[trigger] builder.satisfied(inp) == old(builder).satisfied(inp),
            decreases n - i,
        {
            let ghost before = *builder;
            let ghost had = embedded@;
            let e = builder.convert_to_ext(terms[i]);
            embedded.push(e);
            proof {
                builder.lemma_frames_transitive(before, *old(builder));
                assert forall|inp: Seq<Value<F, E, H::Hash>>|
                    exts_at(#[trigger] builder.wires(inp), embedded@) == embedded_bases_at(
                        old(builder).wires(inp),
                        terms@,
                    ).take(i + 1) by {
                    builder.lemma_frame_exts(before, inp, had);
                    before.lemma_frame_value(*old(builder), inp, terms@[i as int].0);
                    let want = embedded_bases_at(old(builder).wires(inp), terms@);
                    assert(exts_at(before.wires(inp), had) == want.take(i as int));
                    assert forall|k: int| 0 <= k < i + 1 implies exts_at(
                        builder.wires(inp),
                        embedded@,
                    )[k] == want.take(i + 1)[k] by {
                        if k < i {
                            assert(exts_at(builder.wires(inp), had)[k] == want.take(i as int)[k]);
                        }
                    }
                    assert(exts_at(builder.wires(inp), embedded@) =~= want.take(i + 1));
                }
            }
            i = i + 1;
        }
        let ghost middle = *builder;
        proof {
            middle.lemma_frame_value(*old(builder), arbitrary(), self.base.0);
        }
        let r = self.reduce(embedded.as_slice(), builder);
        proof {
            builder.lemma_frames_transitive(middle, *old(builder));
            assert forall|inp: Seq<Value<F, E, H::Hash>>|
                ext_at(#[trigger] builder.wires(inp), r) == reduce_spec(
                    ext_at(old(builder).wires(inp), old(self).base),
                    embedded_bases_at(old(builder).wires(inp), terms@),
                ) by {
                middle.lemma_frame_value(*old(builder), inp, self.base.0);
                let want = embedded_bases_at(old(builder).wires(inp), terms@);
                assert(want.take(n as int) =~= want);
                assert(exts_at(middle.wires(inp), embedded@) == want);
            }
        }
        r
    }

    /// Appends the gates that multiply `x` by the power of the challenge that
    /// the values combined since the last shift took up; counting starts anew.
    pub fn shift<F: RichField, E: FieldExtension<F>, H: Hasher<F>>(
        &mut self,
        x: ExtensionTarget,
        builder: &mut CircuitBuilder<F, E, H>,
    ) -> (r: ExtensionTarget)
        requires
            old(self).base.0 < old(builder).num_gates(),
            x.0 < old(builder).num_gates(),
        ensures
            final(self).base == old(self).base,
            final(self).count == 0,
            final(builder).frames(*old(builder)),
            final(builder).num_inputs == old(builder).num_inputs,
            old(builder).wf() ==> final(builder).wf(),
            r.0 < final(builder).num_gates(),
            forall|inp: Seq<Value<F, E, H::Hash>>|
                ext_at(#[trigger] final(builder).wires(inp), r) == pow_spec(
                    ext_at(old(builder).wires(inp), old(self).base),
                    old(self).count as nat,
                ).mul_spec(ext_at(old(builder).wires(inp), x)),
            forall|inp: Seq<Value<F, E, H::Hash>>|
                #[trigger] final(builder).satisfied(inp) == old(builder).satisfied(inp),
    {
        let exp = builder.exp_u64_extension(self.base, self.count);
        let ghost middle = *builder;
        let r = builder.mul_extension(exp, x);
        self.count = 0;
        proof {
            builder.lemma_frames_transitive(middle, *old(builder));
            assert forall|inp: Seq<Value<F, E, H::Hash>>|
                ext_at(#[trigger] builder.wires(inp), r) == pow_spec(
                    ext_at(old(builder).wires(inp), old(self).base),
                    old(self).count as nat,
                ).mul_spec(ext_at(old(builder).wires(inp), x)) by {
                middle.lemma_frame_value(*old(builder), inp, x.0);
            }
        }
        r
    }

    /// Starts counting anew.
    pub fn reset(&mut self)
        ensures
            final(self).base == old(self).base,
            final(self).count == 0,
    {
        self.count = 0;
    }
}

} // verus!
