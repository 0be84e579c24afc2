//! Polynomials given by their coefficients.
use crate::field::extension_field::FieldExtension;
use crate::field::field_types::{all_wf, Field, RichField};
use crate::hash::merkle_proofs::Hasher;
use crate::iop::target::{extensions_below, ExtensionTarget, Target};
use crate::plonk::circuit_builder::CircuitBuilder;
use crate::plonk::gates::{base_at, ext_at, exts_at, Value};
use vstd::prelude::*;

verus! {

/// A polynomial in coefficient form, lowest degree first.
#[derive(Clone, Debug)]
pub struct PolynomialCoeffs<F: Field> {
    pub coeffs: Vec<F>,
}

/// A polynomial in point-value form: its values over a subgroup, in the
/// subgroup's order.
#[derive(Clone, Debug)]
pub struct PolynomialValues<F: Field> {
    pub values: Vec<F>,
}

/// The value at `x` of the polynomial with the given coefficients, lowest
/// degree first: `c_0 + x * (c_1 + x * (c_2 + ...))`.
pub open spec fn poly_eval_spec<F: Field>(coeffs: Seq<F>, x: F) -> F
    decreases coeffs.len(),
{
    if coeffs.len() == 0 {
        F::zero_spec()
    } else {
        poly_eval_spec(coeffs.skip(1), x).mul_spec(x).add_spec(coeffs[0])
    }
}

/// The value of a polynomial with well-formed coefficients at a well-formed
/// point is well formed.
pub proof fn lemma_poly_eval_wf<F: Field>(coeffs: Seq<F>, x: F)
    requires
        all_wf(coeffs),
        x.wf(),
    ensures
        poly_eval_spec(coeffs, x).wf(),
    decreases coeffs.len(),
{
    F::lemma_constants();
    if coeffs.len() > 0 {
        lemma_poly_eval_wf(coeffs.skip(1), x);
        F::lemma_closed(poly_eval_spec(coeffs.skip(1), x), x);
        F::lemma_closed(poly_eval_spec(coeffs.skip(1), x).mul_spec(x), coeffs[0]);
    }
}

impl<F: Field> PolynomialCoeffs<F> {
    /// The polynomial with the given coefficients, lowest degree first.
    pub fn new(coeffs: Vec<F>) -> (r: Self)
        ensures
            r.coeffs == coeffs,
    {
        PolynomialCoeffs { coeffs }
    }

    /// The number of coefficients.
    pub fn len(&self) -> (r: usize)
        ensures
            r == self.coeffs@.len(),
    {
        self.coeffs.len()
    }

    /// The value of the polynomial at `x`, by Horner's rule.
    pub fn eval(&self, x: F) -> (r: F)
        requires
            all_wf(self.coeffs@),
            x.wf(),
        ensures
            r == poly_eval_spec(self.coeffs@, x),
            r.wf(),
    {
        let n = self.coeffs.len();
        let mut acc = F::zero();
        let mut i: usize = n;
        proof {
            assert(self.coeffs@.skip(n as int) =~= Seq::<F>::empty());
        }
        while i > 0
            invariant
                i <= n,
                n == self.coeffs@.len(),
                all_wf(self.coeffs@),
                x.wf(),
                acc.wf(),
                acc == poly_eval_spec(self.coeffs@.skip(i as int), x),
            decreases i,
        {
            i = i - 1;
            proof {
                let tail = self.coeffs@.skip(i as int);
                assert(tail.skip(1) =~= self.coeffs@.skip(i + 1));
                assert(tail[0] == self.coeffs@[i as int]);
            }
            acc = acc.mul(x).add(self.coeffs[i]);
        }
        proof {
            assert(self.coeffs@.skip(0) =~= self.coeffs@);
        }
        acc
    }
}


/// A polynomial whose coefficients are held by extension-field targets, lowest
/// degree first.
#[derive(Clone, Debug)]
pub struct PolynomialCoeffsExtTarget(pub Vec<ExtensionTarget>);

impl PolynomialCoeffsExtTarget {
    /// The number of coefficients.
    pub fn len(&self) -> (r: usize)
        ensures
            r == self.0@.len(),
    {
        self.0.len()
    }

    /// Appends the gates that evaluate the polynomial at a base-field point,
    /// by Horner's rule.
    pub fn eval_scalar<F: RichField, E: FieldExtension<F>, H: Hasher<F>>(
        &self,
        builder: &mut CircuitBuilder<F, E, H>,
        point: Target,
    ) -> (r: ExtensionTarget)
        requires
            extensions_below(self.0@, old(builder).num_gates()),
            point.0 < old(builder).num_gates(),
        ensures
            final(builder).frames(*old(builder)),
            final(builder).num_inputs == old(builder).num_inputs,
            old(builder).wf() ==> final(builder).wf(),
            r.0 < final(builder).num_gates(),
            forall|inp: Seq<Value<F, E, H::Hash>>|
                ext_at(#[trigger] final(builder).wires(inp), r) == poly_eval_spec(
                    exts_at(old(builder).wires(inp), self.0@),
                    E::from_basefield_spec(base_at(old(builder).wires(inp), point)),
                ),
            forall|inp: Seq<Value<F, E, H::Hash>>|
                #[trigger] final(builder).satisfied(inp) == old(builder).satisfied(inp),
    {
        let n = self.0.len();
        let at = builder.convert_to_ext(point);
        let ghost first = *builder;
        let mut acc = builder.zero_extension();
        let mut i: usize = n;
        proof {
            builder.lemma_frames_transitive(first, *old(builder));
        }
        while i > 0
            invariant
                i <= n,
                n == self.0@.len(),
                extensions_below(self.0@, old(builder).num_gates()),
                point.0 < old(builder).num_gates(),
                builder.frames(first),
                first.frames(*old(builder)),
                builder.frames(*old(builder)),
                first.defines(*old(builder), crate::plonk::gates::Gate::ConvertToExt(point)),
                at.0 == old(builder).num_gates(),
                at.0 < first.num_gates(),
                builder.num_inputs == old(builder).num_inputs,
                old(builder).wf() ==> builder.wf(),
                acc.0 < builder.num_gates(),
                forall|inp: Seq<Value<F, E, H::Hash>>|
                    ext_at(#[trigger] builder.wires(inp), acc) == poly_eval_spec(
                        exts_at(old(builder).wires(inp), self.0@).skip(i as int),
                        E::from_basefield_spec(base_at(old(builder).wires(inp), point)),
                    ),
                forall|inp: Seq<Value<F, E, H::Hash>>|
                    #[trigger] builder.satisfied(inp) == old(builder).satisfied(inp),
            decreases i,
        {
            i = i - 1;
            let ghost before = *builder;
            let prev = acc;
            let scaled = builder.mul_extension(prev, at);
            let ghost middle = *builder;
            acc = builder.add_extension(scaled, self.0[i]);
            proof {
                builder.lemma_frames_transitive(middle, before);
                builder.lemma_frames_transitive(before, first);
                builder.lemma_frames_transitive(before, *old(builder));
                assert forall|inp: Seq<Value<F, E, H::Hash>>|
                    ext_at(#[trigger] builder.wires(inp), acc) == poly_eval_spec(
                        exts_at(old(builder).wires(inp), self.0@).skip(i as int),
                        E::from_basefield_spec(base_at(old(builder).wires(inp), point)),
                    ) by {
                    let all = exts_at(old(builder).wires(inp), self.0@);
                    let tail = all.skip(i as int);
                    assert(tail.skip(1) =~= all.skip(i + 1));
                    assert(tail[0] == all[i as int]);
                    before.lemma_frame_value(first, inp, at.0);
                    middle.lemma_frames_transitive(before, *old(builder));
                    middle.lemma_frame_value(*old(builder), inp, self.0@[i as int].0);
                    assert(ext_at(first.wires(inp), at) == E::from_basefield_spec(
                        base_at(old(builder).wires(inp), point),
                    ));
                    assert(ext_at(middle.wires(inp), scaled) == ext_at(before.wires(inp), prev)
                        .mul_spec(ext_at(before.wires(inp), at)));
                }
            }
        }
        proof {
            assert forall|inp: Seq<Value<F, E, H::Hash>>|
                ext_at(#[trigger] builder.wires(inp), acc) == poly_eval_spec(
                    exts_at(old(builder).wires(inp), self.0@),
                    E::from_basefield_spec(base_at(old(builder).wires(inp), point)),
                ) by {
                let all = exts_at(old(builder).wires(inp), self.0@);
                assert(all.skip(0) =~= all);
                assert(ext_at(builder.wires(inp), acc) == poly_eval_spec(
                    all.skip(i as int),
                    E::from_basefield_spec(base_at(old(builder).wires(inp), point)),
                ));
            }
        }
        acc
    }
}

} // verus!
