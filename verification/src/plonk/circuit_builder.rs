//! The builder of a constraint system: gates are appended one after the other,
//! and every gate's output is a target that later gates can use.
use crate::field::extension_field::FieldExtension;
use crate::field::field_types::RichField;
use crate::hash::merkle_proofs::Hasher;
use crate::iop::target::{
    BoolTarget, ExtensionTarget, HashOutTarget, MerkleCapTarget, MerkleProofTarget, Target,
};
use crate::plonk::gates::{
    all_hold, base_at, bases_at, bit_at, bits_of, digest_at, digests_at, ext_at, exts_at,
    gate_holds, gate_value, gate_wf, gates_wf, le_value, lemma_values_len, lemma_values_same_gates,
    lookup, values, Gate, Value,
};
use std::marker::PhantomData;
use vstd::arithmetic::power2::pow2;
use vstd::prelude::*;
use vstd::slice::slice_to_vec;

verus! {

/// The shape of the constraint system that gates are laid out in.
#[derive(Clone, Copy, Debug, PartialEq, Eq)]
pub struct CircuitConfig {
    pub num_wires: usize,
    pub num_routed_wires: usize,
    pub cap_height: usize,
    pub rate_bits: usize,
    pub zero_knowledge: bool,
}

/// A constraint system under construction.
pub struct CircuitBuilder<F: RichField, E: FieldExtension<F>, H: Hasher<F>> {
    pub config: CircuitConfig,
    /// The gates appended so far.
    pub gates: Vec<Gate<F, E>>,
    /// Number of input slots handed out.
    pub num_inputs: usize,
    pub _hasher: PhantomData<H>,
}

impl<F: RichField, E: FieldExtension<F>, H: Hasher<F>> CircuitBuilder<F, E, H> {
    /// No more input slots were handed out than there are gates, and the
    /// constants of all gates are well formed.
    pub open spec fn wf(self) -> bool {
        self.num_inputs <= self.gates@.len() && gates_wf(self.gates@)
    }

    /// Number of gates appended so far.
    pub open spec fn num_gates(self) -> nat {
        self.gates@.len()
    }

    /// The values of all targets on the given inputs.
    pub open spec fn wires(self, inp: Seq<Value<F, E, H::Hash>>) -> Seq<Value<F, E, H::Hash>> {
        values::<F, E, H>(self.gates@, inp, self.gates@.len())
    }

    /// Whether the inputs satisfy the constraint system: every gate can be
    /// satisfied with the values that the gates before it produce.
    pub open spec fn satisfied(self, inp: Seq<Value<F, E, H::Hash>>) -> bool {
        all_hold::<F, E, H>(self.gates@, inp, self.gates@.len())
    }

    /// The base-field value that a target holds on the given inputs.
    pub open spec fn base(self, inp: Seq<Value<F, E, H::Hash>>, t: Target) -> F {
        base_at(self.wires(inp), t)
    }

    /// The extension-field value that a target holds on the given inputs.
    pub open spec fn ext(self, inp: Seq<Value<F, E, H::Hash>>, t: ExtensionTarget) -> E {
        ext_at(self.wires(inp), t)
    }

    /// The digest that a target holds on the given inputs.
    pub open spec fn digest(self, inp: Seq<Value<F, E, H::Hash>>, t: HashOutTarget) -> H::Hash {
        digest_at(self.wires(inp), t)
    }

    /// `self` has all the gates of `old`, in the same places, and gives the
    /// targets of `old` the same values.
    pub open spec fn frames(self, old: Self) -> bool {
        &&& old.gates@.len() <= self.gates@.len()
        &&& old.num_inputs <= self.num_inputs
        &&& self.config == old.config
        &&& forall|inp: Seq<Value<F, E, H::Hash>>|
            (#[trigger] self.wires(inp)).len() == self.gates@.len() && self.wires(inp).take(
                old.gates@.len() as int,
            ) == old.wires(inp)
        &&& forall|inp: Seq<Value<F, E, H::Hash>>|
            #[trigger] self.satisfied(inp) ==> old.satisfied(inp)
    }

    /// `self` is `old` with one gate appended: its output is the
    /// last target, and the system is satisfied where `old` is and that gate
    /// holds.
    pub open spec fn defines(self, old: Self, gate: Gate<F, E>) -> bool {
        &&& self.gates@ == old.gates@.push(gate)
        &&& self.config == old.config
        &&& forall|inp: Seq<Value<F, E, H::Hash>>|
            #[trigger] self.wires(inp) == old.wires(inp).push(
                gate_value::<F, E, H>(gate, old.wires(inp), inp),
            ) && old.wires(inp).len() == old.gates@.len()
        &&& forall|inp: Seq<Value<F, E, H::Hash>>|
            #[trigger] self.satisfied(inp) == (old.satisfied(inp) && gate_holds::<F, E, H>(
                gate,
                old.wires(inp),
            ))
    }

    /// What appending a gate does to the values and to satisfaction.
    pub proof fn lemma_defines(self, old: Self, gate: Gate<F, E>)
        requires
            self.gates@ == old.gates@.push(gate),
            self.config == old.config,
            old.num_inputs <= self.num_inputs,
        ensures
            self.defines(old, gate),
            self.frames(old),
    {
        let n = old.gates@.len();
        assert(self.gates@.take(n as int) =~= old.gates@);
        assert forall|inp: Seq<Value<F, E, H::Hash>>|
            #[trigger] self.wires(inp) == old.wires(inp).push(
                gate_value::<F, E, H>(gate, old.wires(inp), inp),
            ) && old.wires(inp).len() == old.gates@.len() by {
            lemma_values_same_gates::<F, E, H>(old.gates@, self.gates@, inp, n);
            lemma_values_len::<F, E, H>(old.gates@, inp, n);
        }
        assert forall|inp: Seq<Value<F, E, H::Hash>>|
            #[trigger] self.satisfied(inp) == (old.satisfied(inp) && gate_holds::<F, E, H>(
                gate,
                old.wires(inp),
            )) by {
            lemma_values_same_gates::<F, E, H>(old.gates@, self.gates@, inp, n);
        }
        assert forall|inp: Seq<Value<F, E, H::Hash>>|
            (#[trigger] self.wires(inp)).len() == self.gates@.len() && self.wires(inp).take(
                old.gates@.len() as int,
            ) == old.wires(inp) by {
            lemma_values_same_gates::<F, E, H>(old.gates@, self.gates@, inp, n);
            lemma_values_len::<F, E, H>(old.gates@, inp, n);
            assert(self.wires(inp).take(n as int) =~= old.wires(inp));
        }
        assert forall|inp: Seq<Value<F, E, H::Hash>>| #[trigger]
            self.satisfied(inp) implies old.satisfied(inp) by {
            lemma_values_same_gates::<F, E, H>(old.gates@, self.gates@, inp, n);
        }
    }

    /// Frames compose.
    pub proof fn lemma_frames_transitive(self, middle: Self, old: Self)
        requires
            self.frames(middle),
            middle.frames(old),
        ensures
            self.frames(old),
    {
        assert forall|inp: Seq<Value<F, E, H::Hash>>|
            (#[trigger] self.wires(inp)).len() == self.gates@.len() && self.wires(inp).take(
                old.gates@.len() as int,
            ) == old.wires(inp) by {
            assert(middle.wires(inp).len() == middle.gates@.len());
            assert(self.wires(inp).take(middle.gates@.len() as int) == middle.wires(inp));
            assert(self.wires(inp).take(old.gates@.len() as int) =~= middle.wires(inp).take(
                old.gates@.len() as int,
            ));
        }
        assert forall|inp: Seq<Value<F, E, H::Hash>>| #[trigger]
            self.satisfied(inp) implies old.satisfied(inp) by {
            assert(middle.satisfied(inp));
        }
    }

    /// A target of `old` has in `self` the value it has in `old`.
    pub proof fn lemma_frame_value(self, old: Self, inp: Seq<Value<F, E, H::Hash>>, w: usize)
        requires
            self.frames(old),
            w < old.num_gates(),
        ensures
            lookup(self.wires(inp), w) == lookup(old.wires(inp), w),
            self.wires(inp).len() == self.num_gates(),
            old.wires(inp).len() == old.num_gates(),
    {
        lemma_values_len::<F, E, H>(old.gates@, inp, old.gates@.len());
        assert(self.wires(inp).take(old.gates@.len() as int)[w as int] == self.wires(inp)[w as int]);
    }

    /// Base-field targets hold the same values after more gates were appended.
    pub proof fn lemma_frame_bases(self, old: Self, inp: Seq<Value<F, E, H::Hash>>, ts: Seq<Target>)
        requires
            self.frames(old),
            crate::iop::target::targets_below(ts, old.num_gates()),
        ensures
            bases_at(self.wires(inp), ts) == bases_at(old.wires(inp), ts),
    {
        assert forall|i: int| 0 <= i < ts.len() implies base_at(self.wires(inp), ts[i]) == base_at(
            old.wires(inp),
            ts[i],
        ) by {
            self.lemma_frame_value(old, inp, ts[i].0);
        }
        assert(bases_at(self.wires(inp), ts) =~= bases_at(old.wires(inp), ts));
    }

    /// Extension targets hold the same values after more gates were appended.
    pub proof fn lemma_frame_exts(
        self,
        old: Self,
        inp: Seq<Value<F, E, H::Hash>>,
        ts: Seq<ExtensionTarget>,
    )
        requires
            self.frames(old),
            crate::iop::target::extensions_below(ts, old.num_gates()),
        ensures
            exts_at(self.wires(inp), ts) == exts_at(old.wires(inp), ts),
    {
        assert forall|i: int| 0 <= i < ts.len() implies ext_at(self.wires(inp), ts[i]) == ext_at(
            old.wires(inp),
            ts[i],
        ) by {
            self.lemma_frame_value(old, inp, ts[i].0);
        }
        assert(exts_at(self.wires(inp), ts) =~= exts_at(old.wires(inp), ts));
    }

    /// Digest targets hold the same values after more gates were appended.
    pub proof fn lemma_frame_digests(
        self,
        old: Self,
        inp: Seq<Value<F, E, H::Hash>>,
        ts: Seq<HashOutTarget>,
    )
        requires
            self.frames(old),
            crate::iop::target::hashes_below(ts, old.num_gates()),
        ensures
            digests_at(self.wires(inp), ts) == digests_at(old.wires(inp), ts),
    {
        assert forall|i: int| 0 <= i < ts.len() implies digest_at(self.wires(inp), ts[i])
            == digest_at(old.wires(inp), ts[i]) by {
            self.lemma_frame_value(old, inp, ts[i].0);
        }
        assert(digests_at(self.wires(inp), ts) =~= digests_at(old.wires(inp), ts));
    }

    /// Bits hold the same number after more gates were appended.
    pub proof fn lemma_frame_le_value(
        self,
        old: Self,
        inp: Seq<Value<F, E, H::Hash>>,
        bits: Seq<BoolTarget>,
        n: nat,
    )
        requires
            self.frames(old),
            crate::iop::target::bools_below(bits, old.num_gates()),
            n <= bits.len(),
        ensures
            le_value(self.wires(inp), bits, n) == le_value(old.wires(inp), bits, n),
        decreases n,
    {
        if n > 0 {
            self.lemma_frame_le_value(old, inp, bits, (n - 1) as nat);
            self.lemma_frame_value(old, inp, bits[n - 1].target.0);
        }
    }

    /// A constraint system extends itself.
    pub proof fn lemma_frames_reflexive(self)
        ensures
            self.frames(self),
    {
        assert forall|inp: Seq<Value<F, E, H::Hash>>|
            (#[trigger] self.wires(inp)).len() == self.gates@.len() && self.wires(inp).take(
                self.gates@.len() as int,
            ) == self.wires(inp) by {
            lemma_values_len::<F, E, H>(self.gates@, inp, self.gates@.len());
            assert(self.wires(inp).take(self.gates@.len() as int) =~= self.wires(inp));
        }
    }

    /// A builder without gates.
    pub fn new(config: CircuitConfig) -> (r: Self)
        ensures
            r.config == config,
            r.num_gates() == 0,
            r.num_inputs == 0,
            r.wf(),
            forall|inp: Seq<Value<F, E, H::Hash>>| #[trigger] r.satisfied(inp),
    {
        CircuitBuilder { config, gates: Vec::new(), num_inputs: 0, _hasher: PhantomData }
    }

    /// Appends a gate and hands out the number of its output.
    fn add_gate(&mut self, gate: Gate<F, E>) -> (w: usize)
        ensures
            final(self).defines(*old(self), gate),
            final(self).frames(*old(self)),
            final(self).num_inputs == old(self).num_inputs,
            w == old(self).gates@.len(),
            old(self).wf() && gate_wf(gate) ==> final(self).wf(),
    {
        let w = self.gates.len();
        self.gates.push(gate);
        proof {
            self.lemma_defines(*old(self), gate);
            if old(self).wf() && gate_wf(gate) {
                assert forall|i: int| 0 <= i < self.gates@.len() implies gate_wf(
                    #[trigger] self.gates@[i],
                ) by {
                    if i < old(self).gates@.len() {
                        assert(self.gates@[i] == old(self).gates@[i]);
                    }
                }
            }
        }
        w
    }

    /// A new base-field input.
    pub fn add_virtual_target(&mut self) -> (r: Target)
        requires
            old(self).wf(),
        ensures
            final(self).defines(*old(self), Gate::VirtualTarget { slot: old(self).num_inputs }),
            final(self).frames(*old(self)),
            final(self).num_inputs == old(self).num_inputs + 1,
            r.0 == old(self).gates@.len(),
            final(self).wf(),
    {
        let slot = self.num_inputs;
        let w = self.add_gate(Gate::VirtualTarget { slot });
        let gates = self.gates.len();
        self.num_inputs = slot + 1;
        proof {
            self.lemma_defines(*old(self), Gate::VirtualTarget { slot });
        }
        Target(w)
    }

    /// A new extension-field input.
    pub fn add_virtual_extension_target(&mut self) -> (r: ExtensionTarget)
        requires
            old(self).wf(),
        ensures
            final(self).defines(*old(self), Gate::VirtualExtension { slot: old(self).num_inputs }),
            final(self).frames(*old(self)),
            final(self).num_inputs == old(self).num_inputs + 1,
            r.0 == old(self).gates@.len(),
            final(self).wf(),
    {
        let slot = self.num_inputs;
        let w = self.add_gate(Gate::VirtualExtension { slot });
        let gates = self.gates.len();
        self.num_inputs = slot + 1;
        proof {
            self.lemma_defines(*old(self), Gate::VirtualExtension { slot });
        }
        ExtensionTarget(w)
    }

    /// A new digest input.
    pub fn add_virtual_hash(&mut self) -> (r: HashOutTarget)
        requires
            old(self).wf(),
        ensures
            final(self).defines(*old(self), Gate::VirtualHash { slot: old(self).num_inputs }),
            final(self).frames(*old(self)),
            final(self).num_inputs == old(self).num_inputs + 1,
            r.0 == old(self).gates@.len(),
            final(self).wf(),
    {
        let slot = self.num_inputs;
        let w = self.add_gate(Gate::VirtualHash { slot });
        let gates = self.gates.len();
        self.num_inputs = slot + 1;
        proof {
            self.lemma_defines(*old(self), Gate::VirtualHash { slot });
        }
        HashOutTarget(w)
    }

    /// A target that holds the constant `c`.
    pub fn constant(&mut self, c: F) -> (r: Target)
        ensures
            final(self).defines(*old(self), Gate::Constant(c)),
            final(self).frames(*old(self)),
            final(self).num_inputs == old(self).num_inputs,
            r.0 == old(self).gates@.len(),
            old(self).wf() && c.wf() ==> final(self).wf(),
    {
        Target(self.add_gate(Gate::Constant(c)))
    }

    /// A target that holds the constant `c` of the extension field.
    pub fn constant_extension(&mut self, c: E) -> (r: ExtensionTarget)
        ensures
            final(self).defines(*old(self), Gate::ConstantExtension(c)),
            final(self).frames(*old(self)),
            final(self).num_inputs == old(self).num_inputs,
            r.0 == old(self).gates@.len(),
            old(self).wf() && c.wf() ==> final(self).wf(),
    {
        ExtensionTarget(self.add_gate(Gate::ConstantExtension(c)))
    }

    /// A target that holds the zero of the extension field.
    pub fn zero_extension(&mut self) -> (r: ExtensionTarget)
        ensures
            final(self).defines(*old(self), Gate::ConstantExtension(E::zero_spec())),
            final(self).frames(*old(self)),
            final(self).num_inputs == old(self).num_inputs,
            r.0 == old(self).gates@.len(),
            old(self).wf() ==> final(self).wf(),
    {
        self.constant_extension(E::zero())
    }

    /// Appends a gate whose output is the product of two base-field targets.
    pub fn mul(&mut self, a: Target, b: Target) -> (r: Target)
        ensures
            final(self).defines(*old(self), Gate::Mul(a, b)),
            final(self).frames(*old(self)),
            final(self).num_inputs == old(self).num_inputs,
            r.0 == old(self).gates@.len(),
            old(self).wf() ==> final(self).wf(),
    {
        Target(self.add_gate(Gate::Mul(a, b)))
    }

    /// `x` raised to the power `2^power_log`.
    pub fn exp_power_of_2(&mut self, x: Target, power_log: usize) -> (r: Target)
        ensures
            final(self).defines(*old(self), Gate::ExpPowerOf2 { x, power_log }),
            final(self).frames(*old(self)),
            final(self).num_inputs == old(self).num_inputs,
            r.0 == old(self).gates@.len(),
            old(self).wf() ==> final(self).wf(),
    {
        Target(self.add_gate(Gate::ExpPowerOf2 { x, power_log }))
    }

    /// The constant `base` raised to the power that the bits give, lowest
    /// first.
    pub fn exp_from_bits_const_base(&mut self, base: F, bits: &[BoolTarget]) -> (r: Target)
        ensures
            final(self).defines(*old(self), final(self).gates@.last()),
            final(self).gates@.last() matches Gate::ExpFromBitsConstBase { base: b, bits: v }
                && b == base && v@ == bits@,
            final(self).frames(*old(self)),
            final(self).num_inputs == old(self).num_inputs,
            r.0 == old(self).gates@.len(),
            old(self).wf() && base.wf() ==> final(self).wf(),
    {
        Target(self.add_gate(Gate::ExpFromBitsConstBase { base, bits: slice_to_vec(bits) }))
    }

    /// The number that the bits give, lowest first.
    pub fn le_sum(&mut self, bits: &[BoolTarget]) -> (r: Target)
        ensures
            final(self).defines(*old(self), final(self).gates@.last()),
            final(self).gates@.last() matches Gate::LeSum { bits: v } && v@ == bits@,
            final(self).frames(*old(self)),
            final(self).num_inputs == old(self).num_inputs,
            r.0 == old(self).gates@.len(),
            old(self).wf() ==> final(self).wf(),
    {
        Target(self.add_gate(Gate::LeSum { bits: slice_to_vec(bits) }))
    }

    /// Bit `index` of the canonical integer of `x`.
    pub fn low_bit(&mut self, x: Target, index: usize) -> (r: BoolTarget)
        ensures
            final(self).defines(*old(self), Gate::LowBit { x, index }),
            final(self).frames(*old(self)),
            final(self).num_inputs == old(self).num_inputs,
            r.target.0 == old(self).gates@.len(),
            old(self).wf() ==> final(self).wf(),
    {
        BoolTarget { target: Target(self.add_gate(Gate::LowBit { x, index })) }
    }

    /// Appends a gate whose output is a base-field target embedded in the
    /// extension field.
    pub fn convert_to_ext(&mut self, x: Target) -> (r: ExtensionTarget)
        ensures
            final(self).defines(*old(self), Gate::ConvertToExt(x)),
            final(self).frames(*old(self)),
            final(self).num_inputs == old(self).num_inputs,
            r.0 == old(self).gates@.len(),
            old(self).wf() ==> final(self).wf(),
    {
        ExtensionTarget(self.add_gate(Gate::ConvertToExt(x)))
    }

    /// Appends a gate whose output is the sum of two extension targets.
    pub fn add_extension(&mut self, a: ExtensionTarget, b: ExtensionTarget) -> (r: ExtensionTarget)
        ensures
            final(self).defines(*old(self), Gate::AddExtension(a, b)),
            final(self).frames(*old(self)),
            final(self).num_inputs == old(self).num_inputs,
            r.0 == old(self).gates@.len(),
            old(self).wf() ==> final(self).wf(),
    {
        ExtensionTarget(self.add_gate(Gate::AddExtension(a, b)))
    }

    /// Appends a gate whose output is the difference of two extension targets.
    pub fn sub_extension(&mut self, a: ExtensionTarget, b: ExtensionTarget) -> (r: ExtensionTarget)
        ensures
            final(self).defines(*old(self), Gate::SubExtension(a, b)),
            final(self).frames(*old(self)),
            final(self).num_inputs == old(self).num_inputs,
            r.0 == old(self).gates@.len(),
            old(self).wf() ==> final(self).wf(),
    {
        ExtensionTarget(self.add_gate(Gate::SubExtension(a, b)))
    }

    /// Appends a gate whose output is the product of two extension targets.
    pub fn mul_extension(&mut self, a: ExtensionTarget, b: ExtensionTarget) -> (r: ExtensionTarget)
        ensures
            final(self).defines(*old(self), Gate::MulExtension(a, b)),
            final(self).frames(*old(self)),
            final(self).num_inputs == old(self).num_inputs,
            r.0 == old(self).gates@.len(),
            old(self).wf() ==> final(self).wf(),
    {
        ExtensionTarget(self.add_gate(Gate::MulExtension(a, b)))
    }

    /// The quotient of `a` by `b`; the system is satisfied only where `b` has
    /// an inverse.
    pub fn div_extension(&mut self, a: ExtensionTarget, b: ExtensionTarget) -> (r: ExtensionTarget)
        ensures
            final(self).defines(*old(self), Gate::DivExtension(a, b)),
            final(self).frames(*old(self)),
            final(self).num_inputs == old(self).num_inputs,
            r.0 == old(self).gates@.len(),
            old(self).wf() ==> final(self).wf(),
    {
        ExtensionTarget(self.add_gate(Gate::DivExtension(a, b)))
    }

    /// `x` raised to the power `power`.
    pub fn exp_u64_extension(&mut self, x: ExtensionTarget, power: u64) -> (r: ExtensionTarget)
        ensures
            final(self).defines(*old(self), Gate::ExpU64Extension { x, power }),
            final(self).frames(*old(self)),
            final(self).num_inputs == old(self).num_inputs,
            r.0 == old(self).gates@.len(),
            old(self).wf() ==> final(self).wf(),
    {
        ExtensionTarget(self.add_gate(Gate::ExpU64Extension { x, power }))
    }

    /// `x` raised to the power `2^power_log`.
    pub fn exp_power_of_2_extension(&mut self, x: ExtensionTarget, power_log: usize) -> (r:
        ExtensionTarget)
        ensures
            final(self).defines(*old(self), Gate::ExpPowerOf2Extension { x, power_log }),
            final(self).frames(*old(self)),
            final(self).num_inputs == old(self).num_inputs,
            r.0 == old(self).gates@.len(),
            old(self).wf() ==> final(self).wf(),
    {
        ExtensionTarget(self.add_gate(Gate::ExpPowerOf2Extension { x, power_log }))
    }

    /// The value at `at` of the interpolant through the points; the system is
    /// satisfied only where the interpolation divides by units.
    pub fn interpolate(&mut self, points: &[(Target, ExtensionTarget)], at: ExtensionTarget) -> (r:
        ExtensionTarget)
        ensures
            final(self).defines(*old(self), final(self).gates@.last()),
            final(self).gates@.last() matches Gate::Interpolate { points: p, at: a } && p@
                == points@ && a == at,
            final(self).frames(*old(self)),
            final(self).num_inputs == old(self).num_inputs,
            r.0 == old(self).gates@.len(),
            old(self).wf() ==> final(self).wf(),
    {
        ExtensionTarget(self.add_gate(Gate::Interpolate { points: slice_to_vec(points), at }))
    }

    /// Constrains `a` and `b` to hold the same element.
    pub fn connect_extension(&mut self, a: ExtensionTarget, b: ExtensionTarget)
        ensures
            final(self).defines(*old(self), Gate::ConnectExtension(a, b)),
            final(self).frames(*old(self)),
            final(self).num_inputs == old(self).num_inputs,
            old(self).wf() ==> final(self).wf(),
    {
        let _ = self.add_gate(Gate::ConnectExtension(a, b));
    }

    /// Constrains `claimed` to be the entry of `list` at `index`.
    pub fn random_access_extension(
        &mut self,
        index: Target,
        claimed: ExtensionTarget,
        list: &[ExtensionTarget],
    )
        ensures
            final(self).defines(*old(self), final(self).gates@.last()),
            final(self).gates@.last() matches Gate::RandomAccessExtension {
                index: i,
                claimed: c,
                list: l,
            } && i == index && c == claimed && l@ == list@,
            final(self).frames(*old(self)),
            final(self).num_inputs == old(self).num_inputs,
            old(self).wf() ==> final(self).wf(),
    {
        let _ = self.add_gate(
            Gate::RandomAccessExtension { index, claimed, list: slice_to_vec(list) },
        );
    }

    /// Constrains the leaf of base-field targets to authenticate against the
    /// entry of the cap at `cap_index`, along the path given by the low bits
    /// of the leaf index.
    pub fn verify_merkle_proof_with_cap_index(
        &mut self,
        leaf_data: &[Target],
        leaf_index_bits: &[BoolTarget],
        cap_index: Target,
        merkle_cap: &MerkleCapTarget,
        proof: &MerkleProofTarget,
    )
        ensures
            final(self).defines(*old(self), final(self).gates@.last()),
            final(self).gates@.last() matches Gate::MerkleVerify {
                leaf,
                index_bits,
                cap_index: c,
                cap,
                siblings,
            } && leaf@ == leaf_data@ && index_bits@ == leaf_index_bits@ && c == cap_index && cap@
                == merkle_cap.0@ && siblings@ == proof.siblings@,
            final(self).frames(*old(self)),
            final(self).num_inputs == old(self).num_inputs,
            old(self).wf() ==> final(self).wf(),
    {
        let _ = self.add_gate(
            Gate::MerkleVerify {
                leaf: slice_to_vec(leaf_data),
                index_bits: slice_to_vec(leaf_index_bits),
                cap_index,
                cap: slice_to_vec(merkle_cap.0.as_slice()),
                siblings: slice_to_vec(proof.siblings.as_slice()),
            },
        );
    }

    /// The same for a leaf of extension-field targets, flattened into their
    /// coordinates.
    pub fn verify_flattened_merkle_proof_with_cap_index(
        &mut self,
        leaf_data: &[ExtensionTarget],
        leaf_index_bits: &[BoolTarget],
        cap_index: Target,
        merkle_cap: &MerkleCapTarget,
        proof: &MerkleProofTarget,
    )
        ensures
            final(self).defines(*old(self), final(self).gates@.last()),
            final(self).gates@.last() matches Gate::MerkleVerifyExtension {
                leaf,
                index_bits,
                cap_index: c,
                cap,
                siblings,
            } && leaf@ == leaf_data@ && index_bits@ == leaf_index_bits@ && c == cap_index && cap@
                == merkle_cap.0@ && siblings@ == proof.siblings@,
            final(self).frames(*old(self)),
            final(self).num_inputs == old(self).num_inputs,
            old(self).wf() ==> final(self).wf(),
    {
        let _ = self.add_gate(
            Gate::MerkleVerifyExtension {
                leaf: slice_to_vec(leaf_data),
                index_bits: slice_to_vec(leaf_index_bits),
                cap_index,
                cap: slice_to_vec(merkle_cap.0.as_slice()),
                siblings: slice_to_vec(proof.siblings.as_slice()),
            },
        );
    }

    /// The low `n_log` bits of the canonical integer of `x`, lowest first.
    pub fn low_bits(&mut self, x: Target, n_log: usize) -> (r: Vec<BoolTarget>)
        requires
            x.0 < old(self).num_gates(),
        ensures
            final(self).frames(*old(self)),
            final(self).num_inputs == old(self).num_inputs,
            old(self).wf() ==> final(self).wf(),
            r@.len() == n_log,
            crate::iop::target::bools_below(r@, final(self).num_gates()),
            forall|inp: Seq<Value<F, E, H::Hash>>|
                bits_of(
                    #[trigger] final(self).wires(inp),
                    r@,
                    base_at(old(self).wires(inp), x).to_canonical_u64_spec() as nat,
                    0,
                ),
            forall|inp: Seq<Value<F, E, H::Hash>>|
                #[trigger] final(self).satisfied(inp) == old(self).satisfied(inp),
    {
        let mut bits: Vec<BoolTarget> = Vec::with_capacity(n_log);
        let mut i: usize = 0;
        proof {
            self.lemma_frames_reflexive();
        }
        while i < n_log
            invariant
                i <= n_log,
                x.0 < old(self).num_gates(),
                self.frames(*old(self)),
                self.num_inputs == old(self).num_inputs,
                old(self).wf() ==> self.wf(),
                bits@.len() == i,
                crate::iop::target::bools_below(bits@, self.num_gates()),
                forall|inp: Seq<Value<F, E, H::Hash>>|
                    bits_of(
                        #[trigger] self.wires(inp),
                        bits@,
                        base_at(old(self).wires(inp), x).to_canonical_u64_spec() as nat,
                        0,
                    ),
                forall|inp: Seq<Value<F, E, H::Hash>>|
                    #[trigger] self.satisfied(inp) == old(self).satisfied(inp),
            decreases n_log - i,
        {
            let ghost before = *self;
            let ghost had = bits@;
            let bit = self.low_bit(x, i);
            bits.push(bit);
            proof {
                self.lemma_frames_transitive(before, *old(self));
                assert forall|inp: Seq<Value<F, E, H::Hash>>|
                    bits_of(
                        #[trigger] self.wires(inp),
                        bits@,
                        base_at(old(self).wires(inp), x).to_canonical_u64_spec() as nat,
                        0,
                    ) by {
                    let value = base_at(old(self).wires(inp), x).to_canonical_u64_spec() as nat;
                    before.lemma_frame_value(*old(self), inp, x.0);
                    assert(bits_of(before.wires(inp), had, value, 0));
                    assert forall|j: int| 0 <= j < bits@.len() implies bit_at(
                        self.wires(inp),
                        #[trigger] bits@[j],
                    ) == (value / pow2((0 + j) as nat)) % 2 by {
                        if j < i {
                            self.lemma_frame_value(before, inp, had[j].target.0);
                            assert(bit_at(before.wires(inp), had[j]) == (value / pow2(
                                (0 + j) as nat,
                            )) % 2);
                        } else {
                            F::lemma_constants();
                            assert(F::one_spec() != F::zero_spec()) by {
                                F::lemma_distinct_constants();
                            }
                        }
                    }
                }
            }
            i = i + 1;
        }
        bits
    }

    /// Constrains the canonical integer of `x` to have at least
    /// `leading_zeros` leading zeros among 64 bits.
    pub fn assert_leading_zeros(&mut self, x: Target, leading_zeros: u64)
        ensures
            final(self).defines(*old(self), Gate::AssertLeadingZeros { x, leading_zeros }),
            final(self).frames(*old(self)),
            final(self).num_inputs == old(self).num_inputs,
            old(self).wf() ==> final(self).wf(),
    {
        let _ = self.add_gate(Gate::AssertLeadingZeros { x, leading_zeros });
    }
}

} // verus!
