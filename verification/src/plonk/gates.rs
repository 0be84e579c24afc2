//! The gates of a constraint system and what they mean: the value that each
//! gate's output takes from the outputs of earlier gates and from the inputs,
//! and the condition under which a gate can be satisfied.
use crate::field::extension_field::{flatten_spec, FieldExtension};
use crate::field::field_types::{
    all_units, div_spec, is_unit, pow_spec, sub_spec, Field, PrimeField,
};
use crate::field::interpolation::{
    barycentric_weights_spec, evaluation_point_ok, interpolate_spec, node_products, nodes_of,
};
use crate::hash::merkle_proofs::{merkle_climb, Hasher};
use crate::iop::target::{BoolTarget, ExtensionTarget, HashOutTarget, Target};
use crate::util::bit_length;
use vstd::arithmetic::power2::pow2;
use vstd::prelude::*;

verus! {

/// A gate. Every gate has one output, which later gates refer to by its
/// number; the output of a gate that only constrains is zero.
#[derive(Clone, Debug)]
pub enum Gate<F: Field, E: Field> {
    /// A base-field input: the value in the given slot of the inputs.
    VirtualTarget { slot: usize },
    /// An extension-field input.
    VirtualExtension { slot: usize },
    /// A digest input.
    VirtualHash { slot: usize },
    Constant(F),
    ConstantExtension(E),
    Mul(Target, Target),
    /// `base` to the power given by the bits, lowest first.
    ExpFromBitsConstBase { base: F, bits: Vec<BoolTarget> },
    /// `x` to the power `2^power_log`.
    ExpPowerOf2 { x: Target, power_log: usize },
    /// The number given by the bits, lowest first.
    LeSum { bits: Vec<BoolTarget> },
    /// Bit `index` of the canonical integer of `x`.
    LowBit { x: Target, index: usize },
    ConvertToExt(Target),
    AddExtension(ExtensionTarget, ExtensionTarget),
    SubExtension(ExtensionTarget, ExtensionTarget),
    MulExtension(ExtensionTarget, ExtensionTarget),
    /// The quotient; satisfiable where the divisor has an inverse.
    DivExtension(ExtensionTarget, ExtensionTarget),
    /// `x` to the power `power`.
    ExpU64Extension { x: ExtensionTarget, power: u64 },
    /// `x` to the power `2^power_log`.
    ExpPowerOf2Extension { x: ExtensionTarget, power_log: usize },
    /// The value at `at` of the interpolant through the points; satisfiable
    /// where the interpolation divides by units only.
    Interpolate { points: Vec<(Target, ExtensionTarget)>, at: ExtensionTarget },
    /// Constrains two places to hold the same element.
    ConnectExtension(ExtensionTarget, ExtensionTarget),
    /// Constrains `claimed` to be the entry of `list` at `index`.
    RandomAccessExtension { index: Target, claimed: ExtensionTarget, list: Vec<ExtensionTarget> },
    /// Constrains a leaf of base elements to authenticate against the entry of
    /// the cap at `cap_index`, along the path given by the low index bits.
    MerkleVerify {
        leaf: Vec<Target>,
        index_bits: Vec<BoolTarget>,
        cap_index: Target,
        cap: Vec<HashOutTarget>,
        siblings: Vec<HashOutTarget>,
    },
    /// The same for a leaf of extension elements, flattened.
    MerkleVerifyExtension {
        leaf: Vec<ExtensionTarget>,
        index_bits: Vec<BoolTarget>,
        cap_index: Target,
        cap: Vec<HashOutTarget>,
        siblings: Vec<HashOutTarget>,
    },
    /// Constrains the canonical integer of `x` to have at least the given
    /// number of leading zeros among 64 bits.
    AssertLeadingZeros { x: Target, leading_zeros: u64 },
}

/// The constants of a gate are well formed.
pub open spec fn gate_wf<F: Field, E: Field>(gate: Gate<F, E>) -> bool {
    match gate {
        Gate::Constant(c) => c.wf(),
        Gate::ConstantExtension(c) => c.wf(),
        Gate::ExpFromBitsConstBase { base, bits } => base.wf(),
        _ => true,
    }
}

/// The constants of all gates are well formed.
pub open spec fn gates_wf<F: Field, E: Field>(gates: Seq<Gate<F, E>>) -> bool {
    forall|i: int| 0 <= i < gates.len() ==> gate_wf(#[trigger] gates[i])
}

/// What a place holds.
#[derive(Clone, Copy, Debug, PartialEq, Eq)]
pub enum Value<F, E, D> {
    Base(F),
    Ext(E),
    Digest(D),
}

/// The value is well formed for its kind.
pub open spec fn value_wf<F: Field, E: Field, H: Hasher<F>>(v: Value<F, E, H::Hash>) -> bool {
    match v {
        Value::Base(x) => x.wf(),
        Value::Ext(e) => e.wf(),
        Value::Digest(d) => H::hash_wf(d),
    }
}

/// Every input is well formed.
pub open spec fn inputs_wf<F: Field, E: Field, H: Hasher<F>>(inp: Seq<Value<F, E, H::Hash>>) -> bool {
    forall|i: int| 0 <= i < inp.len() ==> value_wf::<F, E, H>(#[trigger] inp[i])
}

/// The base-field element that a value is; zero for a value of another kind.
pub open spec fn as_base<F: Field, E, D>(v: Value<F, E, D>) -> F {
    match v {
        Value::Base(x) => x,
        _ => F::zero_spec(),
    }
}

/// The extension-field element that a value is; zero for a value of another
/// kind.
pub open spec fn as_ext<F, E: Field, D>(v: Value<F, E, D>) -> E {
    match v {
        Value::Ext(e) => e,
        _ => E::zero_spec(),
    }
}

/// The digest that a value is; an arbitrary one for a value of another kind.
pub open spec fn as_digest<F, E, D>(v: Value<F, E, D>) -> D {
    match v {
        Value::Digest(d) => d,
        _ => arbitrary(),
    }
}

/// The value at place `w`, zero where no gate has that number.
pub open spec fn lookup<F: Field, E, D>(vals: Seq<Value<F, E, D>>, w: usize) -> Value<F, E, D> {
    if w < vals.len() {
        vals[w as int]
    } else {
        Value::Base(F::zero_spec())
    }
}

/// The base-field element at a target.
pub open spec fn base_at<F: Field, E, D>(vals: Seq<Value<F, E, D>>, t: Target) -> F {
    as_base(lookup(vals, t.0))
}

/// The extension-field element at a target.
pub open spec fn ext_at<F: Field, E: Field, D>(vals: Seq<Value<F, E, D>>, t: ExtensionTarget) -> E {
    as_ext(lookup(vals, t.0))
}

/// The digest at a target.
pub open spec fn digest_at<F: Field, E, D>(vals: Seq<Value<F, E, D>>, t: HashOutTarget) -> D {
    as_digest(lookup(vals, t.0))
}

/// The bit that a boolean place holds: one where it holds the field's one.
pub open spec fn bit_at<F: Field, E, D>(vals: Seq<Value<F, E, D>>, b: BoolTarget) -> nat {
    if base_at(vals, b.target) == F::one_spec() {
        1
    } else {
        0
    }
}

/// The base-field elements at the targets.
pub open spec fn bases_at<F: Field, E, D>(vals: Seq<Value<F, E, D>>, ts: Seq<Target>) -> Seq<F> {
    Seq::new(ts.len(), |i: int| base_at(vals, ts[i]))
}

/// The extension-field elements at the targets.
pub open spec fn exts_at<F: Field, E: Field, D>(
    vals: Seq<Value<F, E, D>>,
    ts: Seq<ExtensionTarget>,
) -> Seq<E> {
    Seq::new(ts.len(), |i: int| ext_at(vals, ts[i]))
}

/// The digests at the targets.
pub open spec fn digests_at<F: Field, E, D>(vals: Seq<Value<F, E, D>>, ts: Seq<HashOutTarget>) -> Seq<
    D,
> {
    Seq::new(ts.len(), |i: int| digest_at(vals, ts[i]))
}

/// The number that the first `n` bits give, lowest first.
pub open spec fn le_value<F: Field, E, D>(vals: Seq<Value<F, E, D>>, bits: Seq<BoolTarget>, n: nat) -> nat
    decreases n,
{
    if n == 0 {
        0
    } else {
        le_value(vals, bits, (n - 1) as nat) + bit_at(vals, bits[n - 1]) * pow2((n - 1) as nat)
    }
}

/// The bits are those of `x`, from bit `offset` on: bit `j` of the sequence is
/// bit `offset + j` of `x`.
pub open spec fn bits_of<F: Field, E, D>(
    vals: Seq<Value<F, E, D>>,
    bits: Seq<BoolTarget>,
    x: nat,
    offset: nat,
) -> bool {
    forall|j: int|
        0 <= j < bits.len() ==> bit_at(vals, #[trigger] bits[j]) == (x / pow2((offset + j) as nat))
            % 2
}

/// The points that an interpolation gate goes through, in the extension field.
pub open spec fn points_at<F: Field, E: FieldExtension<F>, D>(
    vals: Seq<Value<F, E, D>>,
    points: Seq<(Target, ExtensionTarget)>,
) -> Seq<(E, E)> {
    Seq::new(
        points.len(),
        |i: int| (E::from_basefield_spec(base_at(vals, points[i].0)), ext_at(vals, points[i].1)),
    )
}

/// The input in the given slot, zero where there is none.
pub open spec fn input_at<F: Field, E, D>(inp: Seq<Value<F, E, D>>, slot: usize) -> Value<F, E, D> {
    if slot < inp.len() {
        inp[slot as int]
    } else {
        Value::Base(F::zero_spec())
    }
}

/// The leaf authenticates: climbing from its digest along the path given by
/// the low bits of the index reaches the entry of the cap at `cap_index`.
pub open spec fn merkle_gate_holds<F: PrimeField, E, H: Hasher<F>>(
    vals: Seq<Value<F, E, H::Hash>>,
    leaf: Seq<F>,
    index_bits: Seq<BoolTarget>,
    cap_index: Target,
    cap: Seq<HashOutTarget>,
    siblings: Seq<HashOutTarget>,
) -> bool {
    let entry = base_at(vals, cap_index).to_canonical_u64_spec();
    &&& siblings.len() <= index_bits.len()
    &&& entry < cap.len()
    &&& merkle_climb::<F, H>(
        H::hash_or_noop_spec(leaf),
        le_value(vals, index_bits, siblings.len()),
        digests_at(vals, siblings),
    ) == digest_at(vals, cap[entry as int])
}

/// The value of a gate's output, given the outputs of the gates before it.
pub open spec fn gate_value<F: PrimeField, E: FieldExtension<F>, H: Hasher<F>>(
    gate: Gate<F, E>,
    vals: Seq<Value<F, E, H::Hash>>,
    inp: Seq<Value<F, E, H::Hash>>,
) -> Value<F, E, H::Hash> {
    match gate {
        Gate::VirtualTarget { slot } => Value::Base(as_base(input_at(inp, slot))),
        Gate::VirtualExtension { slot } => Value::Ext(as_ext(input_at(inp, slot))),
        Gate::VirtualHash { slot } => Value::Digest(as_digest(input_at(inp, slot))),
        Gate::Constant(c) => Value::Base(c),
        Gate::ConstantExtension(c) => Value::Ext(c),
        Gate::Mul(a, b) => Value::Base(base_at(vals, a).mul_spec(base_at(vals, b))),
        Gate::ExpFromBitsConstBase { base, bits } => Value::Base(
            pow_spec(base, le_value(vals, bits@, bits@.len())),
        ),
        Gate::ExpPowerOf2 { x, power_log } => Value::Base(
            pow_spec(base_at(vals, x), pow2(power_log as nat)),
        ),
        Gate::LeSum { bits } => Value::Base(
            F::from_canonical_u64_spec(le_value(vals, bits@, bits@.len()) as u64),
        ),
        Gate::LowBit { x, index } => Value::Base(
            if (base_at(vals, x).to_canonical_u64_spec() as nat / pow2(index as nat)) % 2 == 1 {
                F::one_spec()
            } else {
                F::zero_spec()
            },
        ),
        Gate::ConvertToExt(x) => Value::Ext(E::from_basefield_spec(base_at(vals, x))),
        Gate::AddExtension(a, b) => Value::Ext(ext_at(vals, a).add_spec(ext_at(vals, b))),
        Gate::SubExtension(a, b) => Value::Ext(sub_spec(ext_at(vals, a), ext_at(vals, b))),
        Gate::MulExtension(a, b) => Value::Ext(ext_at(vals, a).mul_spec(ext_at(vals, b))),
        Gate::DivExtension(a, b) => Value::Ext(div_spec(ext_at(vals, a), ext_at(vals, b))),
        Gate::ExpU64Extension { x, power } => Value::Ext(pow_spec(ext_at(vals, x), power as nat)),
        Gate::ExpPowerOf2Extension { x, power_log } => Value::Ext(
            pow_spec(ext_at(vals, x), pow2(power_log as nat)),
        ),
        Gate::Interpolate { points, at } => {
            let pts = points_at::<F, E, H::Hash>(vals, points@);
            Value::Ext(interpolate_spec(pts, ext_at(vals, at), barycentric_weights_spec(nodes_of(pts))))
        },
        _ => Value::Base(F::zero_spec()),
    }
}

/// Whether a gate can be satisfied, given the outputs of the gates before it.
pub open spec fn gate_holds<F: PrimeField, E: FieldExtension<F>, H: Hasher<F>>(
    gate: Gate<F, E>,
    vals: Seq<Value<F, E, H::Hash>>,
) -> bool {
    match gate {
        Gate::DivExtension(_, b) => is_unit(ext_at(vals, b)),
        Gate::Interpolate { points, at } => {
            let nodes = nodes_of(points_at::<F, E, H::Hash>(vals, points@));
            all_units(node_products(nodes)) && evaluation_point_ok(nodes, ext_at(vals, at))
        },
        Gate::ConnectExtension(a, b) => ext_at(vals, a) == ext_at(vals, b),
        Gate::RandomAccessExtension { index, claimed, list } => {
            let i = base_at(vals, index).to_canonical_u64_spec();
            i < list@.len() && ext_at(vals, list@[i as int]) == ext_at(vals, claimed)
        },
        Gate::MerkleVerify { leaf, index_bits, cap_index, cap, siblings } => merkle_gate_holds::<
            F,
            E,
            H,
        >(vals, bases_at(vals, leaf@), index_bits@, cap_index, cap@, siblings@),
        Gate::MerkleVerifyExtension {
            leaf,
            index_bits,
            cap_index,
            cap,
            siblings,
        } => merkle_gate_holds::<F, E, H>(
            vals,
            flatten_spec::<F, E>(exts_at(vals, leaf@)),
            index_bits@,
            cap_index,
            cap@,
            siblings@,
        ),
        Gate::AssertLeadingZeros { x, leading_zeros } => 64 - bit_length(
            base_at(vals, x).to_canonical_u64_spec() as nat,
        ) >= leading_zeros,
        _ => true,
    }
}

/// The outputs of the first `n` gates on the given inputs.
pub open spec fn values<F: PrimeField, E: FieldExtension<F>, H: Hasher<F>>(
    gates: Seq<Gate<F, E>>,
    inp: Seq<Value<F, E, H::Hash>>,
    n: nat,
) -> Seq<Value<F, E, H::Hash>>
    decreases n,
{
    if n == 0 {
        Seq::empty()
    } else {
        let before = values::<F, E, H>(gates, inp, (n - 1) as nat);
        before.push(gate_value::<F, E, H>(gates[n - 1], before, inp))
    }
}

/// Whether the first `n` gates can all be satisfied on the given inputs.
pub open spec fn all_hold<F: PrimeField, E: FieldExtension<F>, H: Hasher<F>>(
    gates: Seq<Gate<F, E>>,
    inp: Seq<Value<F, E, H::Hash>>,
    n: nat,
) -> bool
    decreases n,
{
    if n == 0 {
        true
    } else {
        all_hold::<F, E, H>(gates, inp, (n - 1) as nat) && gate_holds::<F, E, H>(
            gates[n - 1],
            values::<F, E, H>(gates, inp, (n - 1) as nat),
        )
    }
}

/// There is one output per gate.
pub proof fn lemma_values_len<F: PrimeField, E: FieldExtension<F>, H: Hasher<F>>(
    gates: Seq<Gate<F, E>>,
    inp: Seq<Value<F, E, H::Hash>>,
    n: nat,
)
    ensures
        values::<F, E, H>(gates, inp, n).len() == n,
    decreases n,
{
    if n > 0 {
        lemma_values_len::<F, E, H>(gates, inp, (n - 1) as nat);
    }
}

/// The outputs of the first gates do not depend on how many gates follow.
pub proof fn lemma_values_prefix<F: PrimeField, E: FieldExtension<F>, H: Hasher<F>>(
    gates: Seq<Gate<F, E>>,
    inp: Seq<Value<F, E, H::Hash>>,
    m: nat,
    n: nat,
)
    requires
        m <= n,
    ensures
        values::<F, E, H>(gates, inp, n).take(m as int) == values::<F, E, H>(gates, inp, m),
        all_hold::<F, E, H>(gates, inp, n) ==> all_hold::<F, E, H>(gates, inp, m),
    decreases n,
{
    lemma_values_len::<F, E, H>(gates, inp, n);
    lemma_values_len::<F, E, H>(gates, inp, m);
    if m < n {
        lemma_values_prefix::<F, E, H>(gates, inp, m, (n - 1) as nat);
        lemma_values_len::<F, E, H>(gates, inp, (n - 1) as nat);
        let before = values::<F, E, H>(gates, inp, (n - 1) as nat);
        assert(values::<F, E, H>(gates, inp, n).take(m as int) =~= before.take(m as int));
    } else {
        assert(values::<F, E, H>(gates, inp, n).take(m as int) =~= values::<F, E, H>(
            gates,
            inp,
            n,
        ));
    }
}

/// The outputs of the first `n` gates depend on those gates only.
pub proof fn lemma_values_same_gates<F: PrimeField, E: FieldExtension<F>, H: Hasher<F>>(
    gates: Seq<Gate<F, E>>,
    more: Seq<Gate<F, E>>,
    inp: Seq<Value<F, E, H::Hash>>,
    n: nat,
)
    requires
        n <= gates.len() <= more.len(),
        more.take(gates.len() as int) == gates,
    ensures
        values::<F, E, H>(more, inp, n) == values::<F, E, H>(gates, inp, n),
        all_hold::<F, E, H>(more, inp, n) == all_hold::<F, E, H>(gates, inp, n),
    decreases n,
{
    if n > 0 {
        lemma_values_same_gates::<F, E, H>(gates, more, inp, (n - 1) as nat);
        assert(more[n - 1] == more.take(gates.len() as int)[n - 1]);
    }
}

} // verus!
