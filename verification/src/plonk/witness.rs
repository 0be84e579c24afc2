//! Witness generation: the outputs of all gates of a constraint system on given
//! inputs, computed gate by gate, with the first gate that cannot be
//! satisfied where there is one.
use crate::field::extension_field::{flatten, FieldExtension};
use crate::field::field_types::{
    all_wf, inverse_spec, is_inverse, is_unit, lemma_inverse_is, lemma_pow_add, lemma_pow_one,
    pow_spec, Field, FieldOps, PrimeField, RichField,
};
use crate::field::interpolation::{points_wf, try_interpolate};
use crate::hash::merkle_proofs::{all_hash_wf, merkle_climb, Hasher};
use crate::iop::target::{BoolTarget, ExtensionTarget, HashOutTarget, Target};
use crate::plonk::bits::{lemma_bits_of_le_value, lemma_div_pow2_twice};
use crate::plonk::circuit_builder::CircuitBuilder;
use crate::plonk::gates::{
    all_hold, base_at, bases_at, bit_at, bits_of, digest_at, digests_at, ext_at, exts_at,
    gate_holds, gate_value, gate_wf, inputs_wf, le_value, merkle_gate_holds, points_at, value_wf,
    values, Gate, Value,
};
use crate::util::lemma_bit_length_leading_zeros;
use vstd::arithmetic::power2::{
    lemma2_to64, lemma2_to64_rest, lemma_pow2_pos, lemma_pow2_unfold, pow2,
};
use vstd::prelude::*;
use vstd::std_specs::bits::axiom_u64_leading_zeros;

verus! {

/// Why no witness could be generated.
#[derive(Clone, Copy, Debug, PartialEq, Eq, Structural)]
pub enum WitnessError {
    /// A gate with this number cannot be satisfied, while all gates before
    /// it can.
    Unsatisfied { gate: usize },
    /// A gate with this number reads a digest from a place that holds none,
    /// or sums up bits to a number that is no field element.
    Malformed { gate: usize },
}

/// The place holds a digest.
pub open spec fn holds_digest<F, E, D>(vals: Seq<Value<F, E, D>>, t: HashOutTarget) -> bool {
    t.0 < vals.len() && vals[t.0 as int] is Digest
}

/// A Merkle gate reads a digest from a place that holds none.
pub open spec fn merkle_malformed<F: PrimeField, E, D>(
    vals: Seq<Value<F, E, D>>,
    cap_index: Target,
    cap: Seq<HashOutTarget>,
    siblings: Seq<HashOutTarget>,
) -> bool {
    let entry = base_at(vals, cap_index).to_canonical_u64_spec();
    ||| exists|k: int| 0 <= k < siblings.len() && !holds_digest(vals, #[trigger] siblings[k])
    ||| entry < cap.len() && !holds_digest(vals, cap[entry as int])
}

/// A gate that cannot be evaluated: it reads a digest from a place or an input
/// that holds none, or sums up more than 63 bits or bits whose number is not
/// below the characteristic.
pub open spec fn gate_malformed<F: PrimeField, E: Field, D>(
    gate: Gate<F, E>,
    vals: Seq<Value<F, E, D>>,
    inp: Seq<Value<F, E, D>>,
) -> bool {
    match gate {
        Gate::VirtualHash { slot } => !(slot < inp.len() && inp[slot as int] is Digest),
        Gate::LeSum { bits } => bits@.len() > 63 || le_value(vals, bits@, bits@.len())
            >= F::characteristic_spec(),
        Gate::MerkleVerify { leaf, index_bits, cap_index, cap, siblings } => merkle_malformed(
            vals,
            cap_index,
            cap@,
            siblings@,
        ),
        Gate::MerkleVerifyExtension {
            leaf,
            index_bits,
            cap_index,
            cap,
            siblings,
        } => merkle_malformed(vals, cap_index, cap@, siblings@),
        _ => false,
    }
}

/// Every value is well formed.
pub open spec fn values_wf<F: Field, E: Field, H: Hasher<F>>(vals: Seq<Value<F, E, H::Hash>>) -> bool {
    forall|i: int| 0 <= i < vals.len() ==> value_wf::<F, E, H>(#[trigger] vals[i])
}

/// The base-field value at a place.
pub fn get_base<F: Field, E: Field, H: Hasher<F>>(vals: &Vec<Value<F, E, H::Hash>>, t: Target) -> (r:
    F)
    requires
        values_wf::<F, E, H>(vals@),
    ensures
        r == base_at(vals@, t),
        r.wf(),
{
    if t.0 < vals.len() {
        proof {
            assert(value_wf::<F, E, H>(vals@[t.0 as int]));
        }
        match &vals[t.0] {
            Value::Base(x) => *x,
            _ => F::zero(),
        }
    } else {
        F::zero()
    }
}

/// The extension-field value at a place.
pub fn get_ext<F: Field, E: Field, H: Hasher<F>>(
    vals: &Vec<Value<F, E, H::Hash>>,
    t: ExtensionTarget,
) -> (r: E)
    requires
        values_wf::<F, E, H>(vals@),
    ensures
        r == ext_at(vals@, t),
        r.wf(),
{
    if t.0 < vals.len() {
        proof {
            assert(value_wf::<F, E, H>(vals@[t.0 as int]));
        }
        match &vals[t.0] {
            Value::Ext(x) => *x,
            _ => E::zero(),
        }
    } else {
        E::zero()
    }
}

/// The digest at a place, if it holds one.
pub fn get_digest<F: Field, E: Field, H: Hasher<F>>(
    vals: &Vec<Value<F, E, H::Hash>>,
    t: HashOutTarget,
) -> (r: Option<H::Hash>)
    requires
        values_wf::<F, E, H>(vals@),
    ensures
        match r {
            Some(d) => holds_digest(vals@, t) && d == digest_at(vals@, t) && H::hash_wf(d),
            None => !holds_digest(vals@, t),
        },
{
    if t.0 < vals.len() {
        proof {
            assert(value_wf::<F, E, H>(vals@[t.0 as int]));
        }
        match &vals[t.0] {
            Value::Digest(d) => Some(*d),
            _ => None,
        }
    } else {
        None
    }
}

/// The bit at a boolean place.
pub fn get_bit<F: Field, E: Field, H: Hasher<F>>(vals: &Vec<Value<F, E, H::Hash>>, b: BoolTarget) -> (r:
    bool)
    requires
        values_wf::<F, E, H>(vals@),
    ensures
        r == (bit_at(vals@, b) == 1),
        bit_at(vals@, b) <= 1,
{
    let x = get_base::<F, E, H>(vals, b.target);
    x.is_one()
}

/// The base-field values at places.
pub fn get_bases<F: Field, E: Field, H: Hasher<F>>(vals: &Vec<Value<F, E, H::Hash>>, ts: &[Target]) -> (r:
    Vec<F>)
    requires
        values_wf::<F, E, H>(vals@),
    ensures
        r@ == bases_at(vals@, ts@),
        all_wf(r@),
{
    let mut out: Vec<F> = Vec::with_capacity(ts.len());
    let mut i: usize = 0;
    while i < ts.len()
        invariant
            i <= ts@.len(),
            values_wf::<F, E, H>(vals@),
            out@.len() == i,
            forall|k: int| 0 <= k < i ==> #[trigger] out@[k] == base_at(vals@, ts@[k]),
            all_wf(out@),
        decreases ts@.len() - i,
    {
        out.push(get_base::<F, E, H>(vals, ts[i]));
        i = i + 1;
    }
    assert(out@ =~= bases_at(vals@, ts@));
    out
}

/// The extension-field values at places.
pub fn get_exts<F: Field, E: Field, H: Hasher<F>>(
    vals: &Vec<Value<F, E, H::Hash>>,
    ts: &[ExtensionTarget],
) -> (r: Vec<E>)
    requires
        values_wf::<F, E, H>(vals@),
    ensures
        r@ == exts_at(vals@, ts@),
        all_wf(r@),
{
    let mut out: Vec<E> = Vec::with_capacity(ts.len());
    let mut i: usize = 0;
    while i < ts.len()
        invariant
            i <= ts@.len(),
            values_wf::<F, E, H>(vals@),
            out@.len() == i,
            forall|k: int| 0 <= k < i ==> #[trigger] out@[k] == ext_at(vals@, ts@[k]),
            all_wf(out@),
        decreases ts@.len() - i,
    {
        out.push(get_ext::<F, E, H>(vals, ts[i]));
        i = i + 1;
    }
    assert(out@ =~= exts_at(vals@, ts@));
    out
}

/// The digests at places, if all of them hold one.
pub fn get_digests<F: Field, E: Field, H: Hasher<F>>(
    vals: &Vec<Value<F, E, H::Hash>>,
    ts: &[HashOutTarget],
) -> (r: Option<Vec<H::Hash>>)
    requires
        values_wf::<F, E, H>(vals@),
    ensures
        match r {
            Some(ds) => ds@ == digests_at(vals@, ts@) && all_hash_wf::<F, H>(ds@) && forall|k: int|
                0 <= k < ts@.len() ==> holds_digest(vals@, #[trigger] ts@[k]),
            None => exists|k: int| 0 <= k < ts@.len() && !holds_digest(vals@, #[trigger] ts@[k]),
        },
{
    let mut out: Vec<H::Hash> = Vec::with_capacity(ts.len());
    let mut i: usize = 0;
    while i < ts.len()
        invariant
            i <= ts@.len(),
            values_wf::<F, E, H>(vals@),
            out@.len() == i,
            forall|k: int| 0 <= k < i ==> #[trigger] out@[k] == digest_at(vals@, ts@[k]),
            forall|k: int| 0 <= k < i ==> holds_digest(vals@, #[trigger] ts@[k]),
            all_hash_wf::<F, H>(out@),
        decreases ts@.len() - i,
    {
        match get_digest::<F, E, H>(vals, ts[i]) {
            Some(d) => {
                out.push(d);
            },
            None => {
                return None;
            },
        }
        i = i + 1;
    }
    assert(out@ =~= digests_at(vals@, ts@));
    Some(out)
}

/// The number that at most 63 bits give.
pub fn get_le_value<F: Field, E: Field, H: Hasher<F>>(
    vals: &Vec<Value<F, E, H::Hash>>,
    bits: &[BoolTarget],
) -> (r: u64)
    requires
        values_wf::<F, E, H>(vals@),
        bits@.len() <= 63,
    ensures
        r == le_value(vals@, bits@, bits@.len()),
{
    let n = bits.len();
    let mut acc: u64 = 0;
    let mut weight: u64 = 1;
    let mut j: usize = 0;
    proof {
        lemma2_to64();
        lemma2_to64_rest();
    }
    while j < n
        invariant
            j <= n,
            n == bits@.len(),
            n <= 63,
            values_wf::<F, E, H>(vals@),
            weight == pow2(j as nat),
            acc == le_value(vals@, bits@, j as nat),
            acc < pow2(j as nat),
            pow2(63) == 0x8000000000000000,
        decreases n - j,
    {
        proof {
            lemma_pow2_unfold((j + 1) as nat);
            if j + 1 < 63 {
                vstd::arithmetic::power2::lemma_pow2_strictly_increases((j + 1) as nat, 63);
            }
        }
        if get_bit::<F, E, H>(vals, bits[j]) {
            acc = acc + weight;
        }
        proof {
            let b = bit_at(vals@, bits@[j as int]);
            assert(b * pow2(j as nat) == if b == 1 {
                pow2(j as nat)
            } else {
                0
            }) by (nonlinear_arith)
                requires
                    b <= 1,
            ;
        }
        weight = weight * 2;
        j = j + 1;
    }
    acc
}

/// A constant to the power that bits give, lowest first.
pub fn get_exp_from_bits<F: Field, E: Field, H: Hasher<F>>(
    base: F,
    vals: &Vec<Value<F, E, H::Hash>>,
    bits: &[BoolTarget],
) -> (r: F)
    requires
        base.wf(),
        values_wf::<F, E, H>(vals@),
    ensures
        r == pow_spec(base, le_value(vals@, bits@, bits@.len())),
        r.wf(),
{
    let n = bits.len();
    let mut acc = F::one();
    let mut current = base;
    let mut j: usize = 0;
    proof {
        lemma2_to64();
        lemma_pow_one(base);
    }
    while j < n
        invariant
            j <= n,
            n == bits@.len(),
            base.wf(),
            values_wf::<F, E, H>(vals@),
            acc.wf(),
            current.wf(),
            acc == pow_spec(base, le_value(vals@, bits@, j as nat)),
            current == pow_spec(base, pow2(j as nat)),
        decreases n - j,
    {
        proof {
            let le = le_value(vals@, bits@, j as nat);
            let b = bit_at(vals@, bits@[j as int]);
            lemma_pow_add(base, le, pow2(j as nat));
            lemma_pow_add(base, pow2(j as nat), pow2(j as nat));
            lemma_pow2_unfold((j + 1) as nat);
            assert(b * pow2(j as nat) == if b == 1 {
                pow2(j as nat)
            } else {
                0
            }) by (nonlinear_arith)
                requires
                    b <= 1,
            ;
        }
        if get_bit::<F, E, H>(vals, bits[j]) {
            acc = acc.mul(current);
        }
        current = current.mul(current);
        j = j + 1;
    }
    acc
}

/// The digest reached from `start` along the path that the first bits give.
pub fn get_climb<F: Field, E: Field, H: Hasher<F>>(
    start: H::Hash,
    vals: &Vec<Value<F, E, H::Hash>>,
    bits: &[BoolTarget],
    siblings: &Vec<H::Hash>,
) -> (r: H::Hash)
    requires
        H::hash_wf(start),
        values_wf::<F, E, H>(vals@),
        all_hash_wf::<F, H>(siblings@),
        siblings@.len() <= bits@.len(),
    ensures
        r == merkle_climb::<F, H>(start, le_value(vals@, bits@, siblings@.len()), siblings@),
        H::hash_wf(r),
{
    let n = siblings.len();
    let ghost index = le_value(vals@, bits@, n as nat);
    let mut current = start;
    let mut k: usize = 0;
    proof {
        lemma_bits_of_le_value(vals@, bits@, n as nat);
        crate::plonk::bits::lemma_div_pow2_zero(index);
        assert(siblings@.skip(0) =~= siblings@);
    }
    while k < n
        invariant
            k <= n,
            n == siblings@.len(),
            n <= bits@.len(),
            index == le_value(vals@, bits@, n as nat),
            values_wf::<F, E, H>(vals@),
            all_hash_wf::<F, H>(siblings@),
            H::hash_wf(current),
            bits_of(vals@, bits@.take(n as int), index, 0),
            merkle_climb::<F, H>(start, index, siblings@) == merkle_climb::<F, H>(
                current,
                index / pow2(k as nat),
                siblings@.skip(k as int),
            ),
        decreases n - k,
    {
        let sibling = siblings[k];
        let bit = get_bit::<F, E, H>(vals, bits[k]);
        proof {
            let rest = siblings@.skip(k as int);
            assert(rest[0] == sibling);
            assert(rest.skip(1) =~= siblings@.skip(k + 1));
            lemma_div_pow2_twice(index, k as nat, 1);
            lemma2_to64();
            assert(bits@.take(n as int)[k as int] == bits@[k as int]);
            assert(bit_at(vals@, bits@.take(n as int)[k as int]) == (index / pow2((0 + k) as nat))
                % 2);
            lemma_pow2_pos(k as nat);
            lemma_pow2_pos((k + 1) as nat);
            let here = index / pow2(k as nat);
            assert(here >= 0);
            assert(pow2(1) == 2);
            assert(here / 2 == index / pow2((k + 1) as nat));
            assert(here % 2 == bit_at(vals@, bits@[k as int]));
            assert(rest.len() > 0);
            let next = if here % 2 == 1 {
                H::two_to_one_spec(rest[0], current)
            } else {
                H::two_to_one_spec(current, rest[0])
            };
            assert(merkle_climb::<F, H>(current, here, rest) == merkle_climb::<F, H>(
                next,
                here / 2,
                rest.skip(1),
            ));
        }
        current = if bit {
            H::two_to_one(sibling, current)
        } else {
            H::two_to_one(current, sibling)
        };
        k = k + 1;
    }
    proof {
        assert(siblings@.skip(n as int).len() == 0);
        lemma_pow2_pos(n as nat);
    }
    current
}

/// Whether a Merkle gate holds on a leaf, or `None` where it reads a digest
/// from a place that holds none.
pub fn eval_merkle_gate<F: RichField, E: FieldExtension<F>, H: Hasher<F>>(
    vals: &Vec<Value<F, E, H::Hash>>,
    leaf: &[F],
    index_bits: &[BoolTarget],
    cap_index: Target,
    cap: &[HashOutTarget],
    siblings: &[HashOutTarget],
) -> (r: Option<bool>)
    requires
        values_wf::<F, E, H>(vals@),
        all_wf(leaf@),
    ensures
        match r {
            Some(holds) => holds == merkle_gate_holds::<F, E, H>(
                vals@,
                leaf@,
                index_bits@,
                cap_index,
                cap@,
                siblings@,
            ) && !merkle_malformed(vals@, cap_index, cap@, siblings@),
            None => merkle_malformed(vals@, cap_index, cap@, siblings@),
        },
{
    let digests = match get_digests::<F, E, H>(vals, siblings) {
        Some(ds) => ds,
        None => {
            return None;
        },
    };
    let entry = get_base::<F, E, H>(vals, cap_index).to_canonical_u64();
    if entry >= cap.len() as u64 {
        return Some(false);
    }
    let top = match get_digest::<F, E, H>(vals, cap[entry as usize]) {
        Some(d) => d,
        None => {
            return None;
        },
    };
    if siblings.len() > index_bits.len() {
        return Some(false);
    }
    let start = H::hash_or_noop(leaf);
    let reached = get_climb::<F, E, H>(start, vals, index_bits, &digests);
    Some(H::hash_eq(&reached, &top))
}

/// How the evaluation of one gate ended where it gave no value.
#[derive(Clone, Copy, Debug, PartialEq, Eq, Structural)]
pub enum GateFailure {
    Unsatisfied,
    Malformed,
}

/// Bit `index` of a 64-bit number.
pub fn bit_of_u64(c: u64, index: usize) -> (r: bool)
    ensures
        r == ((c as nat / pow2(index as nat)) % 2 == 1),
{
    if index < 64 {
        let shifted = c >> (index as u64);
        proof {
            vstd::bits::lemma_u64_shr_is_div(c, index as u64);
            assert((shifted & 1) == shifted % 2) by (bit_vector);
        }
        (shifted & 1) == 1
    } else {
        proof {
            lemma2_to64_rest();
            if index > 64 {
                vstd::arithmetic::power2::lemma_pow2_strictly_increases(64, index as nat);
            }
            vstd::arithmetic::div_mod::lemma_basic_div(c as int, pow2(index as nat) as int);
        }
        false
    }
}

/// The output of one gate on the outputs of the gates before it, or how the
/// gate fails.
pub fn eval_gate<F: RichField, E: FieldExtension<F>, H: Hasher<F>>(
    gate: &Gate<F, E>,
    vals: &Vec<Value<F, E, H::Hash>>,
    inputs: &[Value<F, E, H::Hash>],
) -> (r: Result<Value<F, E, H::Hash>, GateFailure>)
    requires
        gate_wf(*gate),
        values_wf::<F, E, H>(vals@),
        inputs_wf::<F, E, H>(inputs@),
    ensures
        match r {
            Ok(v) => v == gate_value::<F, E, H>(*gate, vals@, inputs@) && gate_holds::<F, E, H>(
                *gate,
                vals@,
            ) && value_wf::<F, E, H>(v),
            Err(GateFailure::Unsatisfied) => !gate_holds::<F, E, H>(*gate, vals@),
            Err(GateFailure::Malformed) => gate_malformed(*gate, vals@, inputs@),
        },
{
    proof {
        F::lemma_constants();
        E::lemma_constants();
    }
    match gate {
        Gate::VirtualTarget { slot } => {
            if *slot < inputs.len() {
                proof {
                    assert(value_wf::<F, E, H>(inputs@[*slot as int]));
                }
                match &inputs[*slot] {
                    Value::Base(x) => Ok(Value::Base(*x)),
                    _ => Ok(Value::Base(F::zero())),
                }
            } else {
                Ok(Value::Base(F::zero()))
            }
        },
        Gate::VirtualExtension { slot } => {
            if *slot < inputs.len() {
                proof {
                    assert(value_wf::<F, E, H>(inputs@[*slot as int]));
                }
                match &inputs[*slot] {
                    Value::Ext(x) => Ok(Value::Ext(*x)),
                    _ => Ok(Value::Ext(E::zero())),
                }
            } else {
                Ok(Value::Ext(E::zero()))
            }
        },
        Gate::VirtualHash { slot } => {
            if *slot < inputs.len() {
                proof {
                    assert(value_wf::<F, E, H>(inputs@[*slot as int]));
                }
                match &inputs[*slot] {
                    Value::Digest(d) => Ok(Value::Digest(*d)),
                    _ => Err(GateFailure::Malformed),
                }
            } else {
                Err(GateFailure::Malformed)
            }
        },
        Gate::Constant(c) => Ok(Value::Base(*c)),
        Gate::ConstantExtension(c) => Ok(Value::Ext(*c)),
        Gate::Mul(a, b) => {
            let x = get_base::<F, E, H>(vals, *a);
            let y = get_base::<F, E, H>(vals, *b);
            Ok(Value::Base(x.mul(y)))
        },
        Gate::ExpFromBitsConstBase { base, bits } => Ok(
            Value::Base(get_exp_from_bits::<F, E, H>(*base, vals, bits.as_slice())),
        ),
        Gate::ExpPowerOf2 { x, power_log } => {
            let v = get_base::<F, E, H>(vals, *x);
            Ok(Value::Base(v.exp_power_of_2(*power_log)))
        },
        Gate::LeSum { bits } => {
            if bits.len() > 63 {
                return Err(GateFailure::Malformed);
            }
            let number = get_le_value::<F, E, H>(vals, bits.as_slice());
            if number >= F::characteristic() {
                return Err(GateFailure::Malformed);
            }
            Ok(Value::Base(F::from_canonical_u64(number)))
        },
        Gate::LowBit { x, index } => {
            let c = get_base::<F, E, H>(vals, *x).to_canonical_u64();
            if bit_of_u64(c, *index) {
                Ok(Value::Base(F::one()))
            } else {
                Ok(Value::Base(F::zero()))
            }
        },
        Gate::ConvertToExt(x) => {
            let v = get_base::<F, E, H>(vals, *x);
            Ok(Value::Ext(E::from_basefield(v)))
        },
        Gate::AddExtension(a, b) => {
            let x = get_ext::<F, E, H>(vals, *a);
            let y = get_ext::<F, E, H>(vals, *b);
            Ok(Value::Ext(x.add(y)))
        },
        Gate::SubExtension(a, b) => {
            let x = get_ext::<F, E, H>(vals, *a);
            let y = get_ext::<F, E, H>(vals, *b);
            Ok(Value::Ext(x.sub(y)))
        },
        Gate::MulExtension(a, b) => {
            let x = get_ext::<F, E, H>(vals, *a);
            let y = get_ext::<F, E, H>(vals, *b);
            Ok(Value::Ext(x.mul(y)))
        },
        Gate::DivExtension(a, b) => {
            let x = get_ext::<F, E, H>(vals, *a);
            let y = get_ext::<F, E, H>(vals, *b);
            match y.try_inverse() {
                Some(inverse) => {
                    proof {
                        lemma_inverse_is(y, inverse);
                    }
                    Ok(Value::Ext(x.mul(inverse)))
                },
                None => {
                    proof {
                        if is_unit(y) {
                            let w = inverse_spec(y);
                            assert(is_inverse(y, w));
                            assert(y.mul_spec(w) != E::one_spec());
                        }
                    }
                    Err(GateFailure::Unsatisfied)
                },
            }
        },
        Gate::ExpU64Extension { x, power } => {
            let v = get_ext::<F, E, H>(vals, *x);
            Ok(Value::Ext(v.exp_u64(*power)))
        },
        Gate::ExpPowerOf2Extension { x, power_log } => {
            let v = get_ext::<F, E, H>(vals, *x);
            Ok(Value::Ext(v.exp_power_of_2(*power_log)))
        },
        Gate::Interpolate { points, at } => {
            let n = points.len();
            let mut pts: Vec<(E, E)> = Vec::with_capacity(n);
            let mut i: usize = 0;
            while i < n
                invariant
                    i <= n,
                    n == points@.len(),
                    values_wf::<F, E, H>(vals@),
                    pts@.len() == i,
                    forall|k: int|
                        0 <= k < i ==> #[trigger] pts@[k] == points_at::<F, E, H::Hash>(
                            vals@,
                            points@,
                        )[k],
                    points_wf(pts@),
                decreases n - i,
            {
                let node = E::from_basefield(get_base::<F, E, H>(vals, points[i].0));
                let value = get_ext::<F, E, H>(vals, points[i].1);
                pts.push((node, value));
                i = i + 1;
            }
            proof {
                assert(pts@ =~= points_at::<F, E, H::Hash>(vals@, points@));
            }
            let x = get_ext::<F, E, H>(vals, *at);
            match try_interpolate(pts.as_slice(), x) {
                Some(v) => Ok(Value::Ext(v)),
                None => Err(GateFailure::Unsatisfied),
            }
        },
        Gate::ConnectExtension(a, b) => {
            let x = get_ext::<F, E, H>(vals, *a);
            let y = get_ext::<F, E, H>(vals, *b);
            if x.equals(&y) {
                Ok(Value::Base(F::zero()))
            } else {
                Err(GateFailure::Unsatisfied)
            }
        },
        Gate::RandomAccessExtension { index, claimed, list } => {
            let i = get_base::<F, E, H>(vals, *index).to_canonical_u64();
            if i >= list.len() as u64 {
                return Err(GateFailure::Unsatisfied);
            }
            let entry = get_ext::<F, E, H>(vals, list[i as usize]);
            let expected = get_ext::<F, E, H>(vals, *claimed);
            if entry.equals(&expected) {
                Ok(Value::Base(F::zero()))
            } else {
                Err(GateFailure::Unsatisfied)
            }
        },
        Gate::MerkleVerify { leaf, index_bits, cap_index, cap, siblings } => {
            let data = get_bases::<F, E, H>(vals, leaf.as_slice());
            match eval_merkle_gate::<F, E, H>(
                vals,
                data.as_slice(),
                index_bits.as_slice(),
                *cap_index,
                cap.as_slice(),
                siblings.as_slice(),
            ) {
                Some(true) => Ok(Value::Base(F::zero())),
                Some(false) => Err(GateFailure::Unsatisfied),
                None => Err(GateFailure::Malformed),
            }
        },
        Gate::MerkleVerifyExtension { leaf, index_bits, cap_index, cap, siblings } => {
            let data = get_exts::<F, E, H>(vals, leaf.as_slice());
            let flat = flatten::<F, E>(data.as_slice());
            match eval_merkle_gate::<F, E, H>(
                vals,
                flat.as_slice(),
                index_bits.as_slice(),
                *cap_index,
                cap.as_slice(),
                siblings.as_slice(),
            ) {
                Some(true) => Ok(Value::Base(F::zero())),
                Some(false) => Err(GateFailure::Unsatisfied),
                None => Err(GateFailure::Malformed),
            }
        },
        Gate::AssertLeadingZeros { x, leading_zeros } => {
            let c = get_base::<F, E, H>(vals, *x).to_canonical_u64();
            proof {
                lemma_bit_length_leading_zeros(c);
                axiom_u64_leading_zeros(c);
            }
            if c.leading_zeros() as u64 >= *leading_zeros {
                Ok(Value::Base(F::zero()))
            } else {
                Err(GateFailure::Unsatisfied)
            }
        },
    }
}

impl<F: RichField, E: FieldExtension<F>, H: Hasher<F>> CircuitBuilder<F, E, H> {
    /// The outputs of all gates on the given inputs, where the inputs satisfy
    /// the constraint system; else the first gate that cannot be satisfied or
    /// evaluated.
    pub fn generate_witness(&self, inputs: &[Value<F, E, H::Hash>]) -> (r: Result<
        Vec<Value<F, E, H::Hash>>,
        WitnessError,
    >)
        requires
            self.wf(),
            inputs_wf::<F, E, H>(inputs@),
        ensures
            match r {
                Ok(vals) => vals@ == self.wires(inputs@) && self.satisfied(inputs@),
                Err(WitnessError::Unsatisfied { gate }) => gate < self.num_gates() && all_hold::<
                    F,
                    E,
                    H,
                >(self.gates@, inputs@, gate as nat) && !gate_holds::<F, E, H>(
                    self.gates@[gate as int],
                    values::<F, E, H>(self.gates@, inputs@, gate as nat),
                ) && !self.satisfied(inputs@),
                Err(WitnessError::Malformed { gate }) => gate < self.num_gates() && all_hold::<
                    F,
                    E,
                    H,
                >(self.gates@, inputs@, gate as nat) && gate_malformed(
                    self.gates@[gate as int],
                    values::<F, E, H>(self.gates@, inputs@, gate as nat),
                    inputs@,
                ),
            },
    {
        let n = self.gates.len();
        let mut vals: Vec<Value<F, E, H::Hash>> = Vec::with_capacity(n);
        let mut i: usize = 0;
        while i < n
            invariant
                i <= n,
                n == self.gates@.len(),
                self.wf(),
                inputs_wf::<F, E, H>(inputs@),
                values_wf::<F, E, H>(vals@),
                vals@ == values::<F, E, H>(self.gates@, inputs@, i as nat),
                all_hold::<F, E, H>(self.gates@, inputs@, i as nat),
            decreases n - i,
        {
            proof {
                assert(gate_wf(self.gates@[i as int]));
            }
            match eval_gate::<F, E, H>(&self.gates[i], &vals, inputs) {
                Ok(v) => {
                    vals.push(v);
                },
                Err(GateFailure::Unsatisfied) => {
                    proof {
                        crate::plonk::gates::lemma_values_prefix::<F, E, H>(
                            self.gates@,
                            inputs@,
                            (i + 1) as nat,
                            n as nat,
                        );
                    }
                    return Err(WitnessError::Unsatisfied { gate: i });
                },
                Err(GateFailure::Malformed) => {
                    return Err(WitnessError::Malformed { gate: i });
                },
            }
            i = i + 1;
        }
        Ok(vals)
    }
}

} // verus!
