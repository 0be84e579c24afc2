//! A gate for inserting a value into a list at a non-deterministic location:
//! the layout of its wires.
use crate::field::extension_field::FieldExtension;
use crate::field::field_types::{
    all_wf, inverse_spec, is_unit, sub_spec, Field, FieldOps, PrimeField, RichField,
};
use crate::hash::merkle_proofs::Hasher;
use crate::iop::target::{extensions_below, ExtensionTarget};
use crate::iop::wire::{PartialWitness, Wire};
use crate::plonk::circuit_builder::CircuitBuilder;
use crate::plonk::gates::{ext_at, exts_at, Value};
use crate::plonk::vars::{EvaluationTargets, EvaluationVars};
use std::marker::PhantomData;
use std::ops::Range;
use vstd::prelude::*;

verus! {

/// A gate for inserting a value into a list of `vec_size` entries at a
/// non-deterministic location. Entries are elements of an extension of
/// dimension `D`, each on `D` wires.
#[derive(Debug)]
pub struct InsertionGate<F: Field, const D: usize> {
    pub vec_size: usize,
    pub _phantom: PhantomData<F>,
}

impl<F: Field, const D: usize> Clone for InsertionGate<F, D> {
    fn clone(&self) -> (r: Self)
        ensures
            r.vec_size == self.vec_size,
    {
        InsertionGate { vec_size: self.vec_size, _phantom: PhantomData }
    }
}

impl<F: Field, const D: usize> InsertionGate<F, D> {
    /// Number of wires of this gate: the insertion index, the element to
    /// insert, the list before and after, and two helper wires per round.
    pub open spec fn num_wires_spec(self) -> nat {
        (1 + D + self.vec_size * D + (self.vec_size + 1) * D + 2 * (self.vec_size + 1)) as nat
    }

    /// The wires can be numbered by machine words.
    pub open spec fn wf(self) -> bool {
        self.num_wires_spec() <= usize::MAX
    }

    /// A gate for lists of `vec_size` items.
    pub fn new(vec_size: usize) -> (r: Self)
        ensures
            r.vec_size == vec_size,
    {
        InsertionGate { vec_size, _phantom: PhantomData }
    }

    /// The wire of the index at which the item is inserted.
    pub fn wires_insertion_index(&self) -> (r: usize)
        ensures
            r == 0,
    {
        0
    }

    /// The wires of the item that is inserted.
    pub fn wires_element_to_insert(&self) -> (r: Range<usize>)
        requires
            self.wf(),
        ensures
            r.start == 1,
            r.end == D + 1,
    {
        1..D + 1
    }

    /// The wires of item `i` of the list before the insertion.
    pub fn wires_original_list_item(&self, i: usize) -> (r: Range<usize>)
        requires
            self.wf(),
            i < self.vec_size,
        ensures
            r.start == (i + 1) * D + 1,
            r.end == (i + 2) * D + 1,
    {
        proof {
            Self::lemma_layout(self.vec_size as nat, i as nat);
        }
        let start = (i + 1) * D + 1;
        start..start + D
    }

    /// The first wire of the list after the insertion.
    pub fn start_of_output_wires(&self) -> (r: usize)
        requires
            self.wf(),
        ensures
            r == (self.vec_size + 1) * D + 1,
    {
        proof {
            Self::lemma_layout(self.vec_size as nat, 0);
        }
        (self.vec_size + 1) * D + 1
    }

    /// The wires of item `i` of the list after the insertion.
    pub fn wires_output_list_item(&self, i: usize) -> (r: Range<usize>)
        requires
            self.wf(),
            i <= self.vec_size,
        ensures
            r.start == (self.vec_size + 1) * D + 1 + i * D,
            r.end == (self.vec_size + 1) * D + 1 + (i + 1) * D,
    {
        proof {
            Self::lemma_layout(self.vec_size as nat, i as nat);
        }
        let start = self.start_of_output_wires() + i * D;
        start..start + D
    }

    /// The first of the helper wires.
    pub fn start_of_intermediate_wires(&self) -> (r: usize)
        requires
            self.wf(),
        ensures
            r == 2 * (self.vec_size + 1) * D + 1,
    {
        proof {
            Self::lemma_layout(self.vec_size as nat, 0);
        }
        self.start_of_output_wires() + (self.vec_size + 1) * D
    }

    /// An intermediate wire for a dummy variable used to show equality. The
    /// prover sets this to 1/(x-y) if x != y, or to an arbitrary value if
    /// x == y.
    pub fn wires_equality_dummy_for_round_r(&self, r: usize) -> (w: usize)
        requires
            self.wf(),
            r <= self.vec_size,
        ensures
            w == 2 * (self.vec_size + 1) * D + 1 + r,
    {
        proof {
            Self::lemma_layout(self.vec_size as nat, 0);
        }
        self.start_of_intermediate_wires() + r
    }

    /// An intermediate wire for the "insert_here" variable (1 if the current
    /// index is the index at which to insert the new value, 0 otherwise).
    pub fn wires_insert_here_for_round_r(&self, r: usize) -> (w: usize)
        requires
            self.wf(),
            r <= self.vec_size,
        ensures
            w == 2 * (self.vec_size + 1) * D + 1 + (self.vec_size + 1) + r,
    {
        proof {
            Self::lemma_layout(self.vec_size as nat, 0);
        }
        self.start_of_intermediate_wires() + (self.vec_size + 1) + r
    }

    /// The number of wires.
    pub fn num_wires(&self) -> (r: usize)
        requires
            self.wf(),
        ensures
            r == self.num_wires_spec(),
    {
        proof {
            Self::lemma_layout(self.vec_size as nat, 0);
        }
        self.wires_insert_here_for_round_r(self.vec_size) + 1
    }

    /// There are no constants.
    pub fn num_constants(&self) -> (r: usize)
        ensures
            r == 0,
    {
        0
    }

    /// The degree of the constraints in the wires.
    pub fn degree(&self) -> (r: usize)
        ensures
            r == 2,
    {
        2
    }

    /// Two equality constraints and one output constraint of `D` coordinates
    /// per round.
    pub fn num_constraints(&self) -> (r: usize)
        requires
            (self.vec_size + 1) * (2 + D) <= usize::MAX,
        ensures
            r == (self.vec_size + 1) * (2 + D),
    {
        proof {
            let a = self.vec_size + 1;
            let b = 2 + D;
            assert(a <= a * b && b <= a * b) by (nonlinear_arith)
                requires
                    a >= 1,
                    b >= 1,
            ;
        }
        (self.vec_size + 1) * (2 + D)
    }

    /// The products that lay out the wires, spelled out.
    pub proof fn lemma_layout(vec_size: nat, i: nat)
        requires
            i <= vec_size,
        ensures
            (vec_size + 1) * D == vec_size * D + D,
            2 * (vec_size + 1) * D == (vec_size + 1) * D + (vec_size + 1) * D,
            (i + 1) * D == i * D + D,
            (i + 2) * D == (i + 1) * D + D,
            i * D <= vec_size * D,
            1 + D + vec_size * D + (vec_size + 1) * D + 2 * (vec_size + 1) == 2 * (vec_size + 1)
                * D + 1 + (vec_size + 1) + vec_size + 1,
    {
        assert((vec_size + 1) * D == vec_size * D + D) by (nonlinear_arith);
        assert(2 * (vec_size + 1) * D == (vec_size + 1) * D + (vec_size + 1) * D)
            by (nonlinear_arith);
        assert((i + 1) * D == i * D + D) by (nonlinear_arith);
        assert((i + 2) * D == (i + 1) * D + D) by (nonlinear_arith);
        assert(i * D <= vec_size * D) by (nonlinear_arith)
            requires
                i <= vec_size,
        ;
    }
}


impl<F: Field, const D: usize> InsertionGate<F, D> {
    /// Wire of coordinate `k` of the element to insert.
    pub open spec fn element_wire(self, k: int) -> int {
        1 + k
    }

    /// Wire of coordinate `k` of entry `i` of the list.
    pub open spec fn list_wire(self, i: int, k: int) -> int {
        (i + 1) * D + 1 + k
    }

    /// Wire of coordinate `k` of entry `i` of the list with the element
    /// inserted.
    pub open spec fn output_wire(self, i: int, k: int) -> int {
        (self.vec_size + 1) * D + 1 + i * D + k
    }

    /// Wire of the helper that shows whether round `r` is the round of the
    /// insertion index.
    pub open spec fn dummy_wire(self, r: int) -> int {
        2 * (self.vec_size + 1) * D + 1 + r
    }

    /// Wire of the flag that is one in the round of the insertion index.
    pub open spec fn insert_wire(self, r: int) -> int {
        2 * (self.vec_size + 1) * D + 1 + (self.vec_size + 1) + r
    }

    /// The round's number less the insertion index.
    pub open spec fn difference<E: Field>(self, w: Seq<E>, r: int) -> E {
        sub_spec(E::from_canonical_u64_spec(r as u64), w[0])
    }

    /// The sum of the flags of the rounds before round `r`.
    pub open spec fn already_inserted<E: Field>(self, w: Seq<E>, r: nat) -> E
        decreases r,
    {
        if r == 0 {
            E::zero_spec()
        } else {
            self.already_inserted(w, (r - 1) as nat).add_spec(w[self.insert_wire(r - 1)])
        }
    }

    /// Coordinate `k` of the entry that the wires give for place `r` of the
    /// list with the element inserted: the element where the flag of the round
    /// is set, the entry before where a flag was set earlier, the entry at the
    /// place where none was set yet.
    pub open spec fn new_item<E: Field>(self, w: Seq<E>, r: int, k: int) -> E {
        let inserted = w[self.element_wire(k)].mul_spec(w[self.insert_wire(r)]);
        let shifted = if r > 0 {
            inserted.add_spec(
                w[self.list_wire(r - 1, k)].mul_spec(self.already_inserted(w, r as nat)),
            )
        } else {
            inserted
        };
        if r < self.vec_size {
            shifted.add_spec(
                w[self.list_wire(r, k)].mul_spec(
                    sub_spec(E::one_spec(), self.already_inserted(w, (r + 1) as nat)),
                ),
            )
        } else {
            shifted
        }
    }

    /// The constraints of round `r`: the two that make the flag the indicator
    /// of the insertion index, and one per coordinate of the output entry.
    pub open spec fn round_constraints<E: Field>(self, w: Seq<E>, r: int) -> Seq<E> {
        seq![
            sub_spec(
                self.difference(w, r).mul_spec(w[self.dummy_wire(r)]),
                sub_spec(E::one_spec(), w[self.insert_wire(r)]),
            ),
            w[self.insert_wire(r)].mul_spec(self.difference(w, r)),
        ] + Seq::new(
            D as nat,
            |k: int| sub_spec(self.new_item(w, r, k), w[self.output_wire(r, k)]),
        )
    }

    /// The constraints of the first `n` rounds.
    pub open spec fn constraints_upto<E: Field>(self, w: Seq<E>, n: nat) -> Seq<E>
        decreases n,
    {
        if n == 0 {
            Seq::empty()
        } else {
            self.constraints_upto(w, (n - 1) as nat) + self.round_constraints(w, n - 1)
        }
    }

    /// All constraints of this gate on the wires: they vanish where the output
    /// list is the list with the element inserted at the insertion index.
    pub open spec fn constraints_spec<E: Field>(self, w: Seq<E>) -> Seq<E> {
        self.constraints_upto(w, (self.vec_size + 1) as nat)
    }

    /// The wires lie within a row of this gate's width.
    pub proof fn lemma_wires(self, i: int, k: int)
        requires
            self.wf(),
            0 <= i <= self.vec_size,
            0 <= k < D,
        ensures
            0 <= self.element_wire(k) < self.num_wires_spec(),
            i < self.vec_size ==> 0 <= self.list_wire(i, k) < self.num_wires_spec(),
            0 <= self.output_wire(i, k) < self.num_wires_spec(),
            0 <= self.dummy_wire(i) < self.num_wires_spec(),
            0 <= self.insert_wire(i) < self.num_wires_spec(),
            self.list_wire(i, k) == (i + 1) * D + 1 + k,
            self.num_wires_spec() == 2 * (self.vec_size + 1) * D + 1 + 2 * (self.vec_size + 1),
    {
        Self::lemma_layout(self.vec_size as nat, i as nat);
        let vs = self.vec_size as int;
        let d = D as int;
        assert((i + 1) * d <= (vs + 1) * d) by (nonlinear_arith)
            requires
                i <= vs,
                d >= 0,
        ;
        assert(i * d <= vs * d) by (nonlinear_arith)
            requires
                i <= vs,
                d >= 0,
        ;
        assert((vs + 1) * d == vs * d + d) by (nonlinear_arith);
        assert((i + 1) * d == i * d + d) by (nonlinear_arith);
        assert(2 * (vs + 1) * d == (vs + 1) * d + (vs + 1) * d) by (nonlinear_arith);
        assert(i * d >= 0) by (nonlinear_arith)
            requires
                i >= 0,
                d >= 0,
        ;
    }

    /// The values of the constraints of this gate on the wires of a row.
    pub fn eval_unfiltered<E: Field>(&self, vars: &EvaluationVars<E>) -> (r: Vec<E>)
        requires
            self.wf(),
            vars.local_wires@.len() >= self.num_wires_spec(),
            all_wf(vars.local_wires@),
            self.vec_size < E::characteristic_spec(),
        ensures
            r@ == self.constraints_spec(vars.local_wires@),
            all_wf(r@),
    {
        let ghost w = vars.local_wires@;
        let insertion_index = vars.local_wires[self.wires_insertion_index()];
        let elements = self.wires_element_to_insert();
        let mut constraints: Vec<E> = Vec::new();
        let mut already_inserted = E::zero();
        let mut r: usize = 0;
        while r <= self.vec_size
            invariant
                r <= self.vec_size + 1,
                self.wf(),
                w == vars.local_wires@,
                w.len() >= self.num_wires_spec(),
                all_wf(w),
                self.vec_size < E::characteristic_spec(),
                insertion_index == w[0],
                elements.start == 1,
                already_inserted.wf(),
                already_inserted == self.already_inserted(w, r as nat),
                constraints@ == self.constraints_upto(w, r as nat),
                all_wf(constraints@),
            decreases self.vec_size + 1 - r,
        {
            proof {
                if D > 0 {
                    self.lemma_wires(r as int, 0);
                } else {
                    Self::lemma_layout(self.vec_size as nat, r as nat);
                }
            }
            let cur_index = E::from_canonical_usize(r);
            let difference = cur_index.sub(insertion_index);
            let equality_dummy = vars.local_wires[self.wires_equality_dummy_for_round_r(r)];
            let insert_here = vars.local_wires[self.wires_insert_here_for_round_r(r)];
            let ghost before = constraints@;
            // The two equality constraints.
            constraints.push(difference.mul(equality_dummy).sub(E::one().sub(insert_here)));
            constraints.push(insert_here.mul(difference));
            let previously_inserted = already_inserted;
            already_inserted = already_inserted.add(insert_here);
            let outputs = self.wires_output_list_item(r);
            let mut k: usize = 0;
            while k < D
                invariant
                    k <= D,
                    r <= self.vec_size,
                    self.wf(),
                    w == vars.local_wires@,
                    w.len() >= self.num_wires_spec(),
                    all_wf(w),
                    elements.start == 1,
                    outputs.start == (self.vec_size + 1) * D + 1 + r * D,
                    insert_here == w[self.insert_wire(r as int)],
                    insert_here.wf(),
                    previously_inserted.wf(),
                    previously_inserted == self.already_inserted(w, r as nat),
                    already_inserted.wf(),
                    already_inserted == self.already_inserted(w, (r + 1) as nat),
                    constraints@.len() == before.len() + 2 + k,
                    constraints@.take((before.len() + 2) as int) == before + seq![
                        sub_spec(
                            self.difference(w, r as int).mul_spec(w[self.dummy_wire(r as int)]),
                            sub_spec(E::one_spec(), w[self.insert_wire(r as int)]),
                        ),
                        w[self.insert_wire(r as int)].mul_spec(self.difference(w, r as int)),
                    ],
                    forall|j: int|
                        0 <= j < k ==> #[trigger] constraints@[before.len() + 2 + j] == sub_spec(
                            self.new_item(w, r as int, j),
                            w[self.output_wire(r as int, j)],
                        ),
                    all_wf(constraints@),
                decreases D - k,
            {
                proof {
                    self.lemma_wires(r as int, k as int);
                    if r > 0 {
                        self.lemma_wires(r - 1, k as int);
                    }
                }
                let mut new_item = vars.local_wires[elements.start + k].mul(insert_here);
                if r > 0 {
                    let previous = self.wires_original_list_item(r - 1);
                    new_item = new_item.add(
                        vars.local_wires[previous.start + k].mul(previously_inserted),
                    );
                }
                if r < self.vec_size {
                    let here = self.wires_original_list_item(r);
                    new_item = new_item.add(
                        vars.local_wires[here.start + k].mul(E::one().sub(already_inserted)),
                    );
                }
                // Output constraint.
                let ghost had = constraints@;
                constraints.push(new_item.sub(vars.local_wires[outputs.start + k]));
                proof {
                    assert(constraints@.take((before.len() + 2) as int) =~= had.take((before.len() + 2) as int));
                    assert forall|j: int| 0 <= j < k + 1 implies #[trigger] constraints@[before.len()
                        + 2 + j] == sub_spec(
                        self.new_item(w, r as int, j),
                        w[self.output_wire(r as int, j)],
                    ) by {
                        if j < k {
                            assert(constraints@[before.len() + 2 + j] == had[before.len() + 2 + j]);
                        }
                    }
                }
                k = k + 1;
            }
            proof {
                let round = self.round_constraints(w, r as int);
                let want = before + round;
                assert(constraints@.len() == want.len());
                assert forall|j: int| 0 <= j < want.len() implies constraints@[j] == want[j] by {
                    if j < before.len() + 2 {
                        assert(constraints@.take((before.len() + 2) as int)[j] == constraints@[j]);
                    } else {
                        let c = j - before.len() - 2;
                        assert(constraints@[before.len() + 2 + c] == sub_spec(
                            self.new_item(w, r as int, c),
                            w[self.output_wire(r as int, c)],
                        ));
                    }
                }
                assert(constraints@ =~= want);
            }
            r = r + 1;
        }
        constraints
    }
}


/// Generates the outputs and the helper wires of an insertion gate in a row
/// from its inputs.
#[derive(Debug)]
pub struct InsertionGenerator<F: Field, const D: usize> {
    pub gate_index: usize,
    pub gate: InsertionGate<F, D>,
}

impl<F: Field, const D: usize> InsertionGate<F, D> {
    /// The generators of witnesses for a gate in the given row: the one that
    /// fills in the outputs and the helper wires.
    pub fn generators(&self, gate_index: usize, _local_constants: &[F]) -> (r: Vec<
        InsertionGenerator<F, D>,
    >)
        ensures
            r@.len() == 1,
            r@[0].gate_index == gate_index,
            r@[0].gate.vec_size == self.vec_size,
    {
        let gen = InsertionGenerator { gate_index, gate: self.clone() };
        let mut out = Vec::new();
        out.push(gen);
        out
    }
}

impl<F: PrimeField, const D: usize> InsertionGenerator<F, D> {
    /// Wire `input` of the generator's row.
    pub open spec fn local_wire(self, input: int) -> Wire {
        Wire { gate: self.gate_index, input: input as usize }
    }

    /// Number of wires that the generator reads: the insertion index, the
    /// element to insert and the list.
    pub open spec fn num_inputs(self) -> int {
        (self.gate.vec_size + 1) * D + 1
    }

    /// The value on wire `input` of the row.
    pub open spec fn input_value(self, witness: PartialWitness<F>, input: int) -> F {
        witness.get(self.local_wire(input))->Some_0
    }

    /// The insertion index as integer.
    pub open spec fn insertion_index(self, witness: PartialWitness<F>) -> nat {
        self.input_value(witness, 0).to_canonical_u64_spec() as nat
    }

    /// Coordinate `k` of entry `i` of the list with the element inserted at
    /// the insertion index.
    pub open spec fn inserted(self, witness: PartialWitness<F>, i: int, k: int) -> F {
        let at = self.insertion_index(witness);
        if i < at {
            self.input_value(witness, self.gate.list_wire(i, k))
        } else if i == at {
            self.input_value(witness, self.gate.element_wire(k))
        } else {
            self.input_value(witness, self.gate.list_wire(i - 1, k))
        }
    }

    /// The helper of round `i`: the inverse of the distance of the round from
    /// the insertion index, one in the round of the index.
    pub open spec fn equality_dummy(self, witness: PartialWitness<F>, i: int) -> F {
        if i == self.insertion_index(witness) {
            F::one_spec()
        } else {
            inverse_spec(sub_spec(F::from_canonical_u64_spec(i as u64), self.input_value(witness, 0)))
        }
    }

    /// The flag of round `i`: one in the round of the insertion index.
    pub open spec fn insert_here(self, witness: PartialWitness<F>, i: int) -> F {
        if i == self.insertion_index(witness) {
            F::one_spec()
        } else {
            F::zero_spec()
        }
    }

    /// What the generator gives to wire `input` of its row, for the wires of
    /// rounds below `rounds` and, of round `rounds`, the first `coords`
    /// coordinates of the output.
    pub open spec fn generated(
        self,
        witness: PartialWitness<F>,
        input: int,
        rounds: int,
        coords: int,
    ) -> Option<F> {
        let vs = self.gate.vec_size as int;
        let outputs = (vs + 1) * D + 1;
        let helpers = 2 * (vs + 1) * D + 1;
        if outputs <= input < helpers {
            let i = (input - outputs) / (D as int);
            let k = (input - outputs) % (D as int);
            if i < rounds || (i == rounds && k < coords) {
                Some(self.inserted(witness, i, k))
            } else {
                None
            }
        } else if helpers <= input < helpers + vs + 1 {
            if input - helpers < rounds {
                Some(self.equality_dummy(witness, input - helpers))
            } else {
                None
            }
        } else if helpers + vs + 1 <= input < helpers + 2 * (vs + 1) {
            if input - helpers - vs - 1 < rounds {
                Some(self.insert_here(witness, input - helpers - vs - 1))
            } else {
                None
            }
        } else {
            None
        }
    }

    /// The generator can run: its inputs have values, the insertion index is a
    /// place of the list or its end, and the distance of every other round
    /// from the index has an inverse.
    pub open spec fn ready(self, witness: PartialWitness<F>) -> bool {
        &&& forall|input: int|
            0 <= input < self.num_inputs() ==> witness.get(#[trigger] self.local_wire(input))
                is Some
        &&& self.insertion_index(witness) <= self.gate.vec_size
        &&& forall|i: int|
            0 <= i <= self.gate.vec_size && i != self.insertion_index(witness) ==> is_unit(
                sub_spec(
                    #[trigger] F::from_canonical_u64_spec(i as u64),
                    self.input_value(witness, 0),
                ),
            )
    }

    /// The wires that the generator reads.
    pub fn dependencies(&self) -> (r: Vec<Wire>)
        requires
            self.gate.wf(),
        ensures
            r@.len() == self.num_inputs(),
            forall|input: int| 0 <= input < r@.len() ==> #[trigger] r@[input] == self.local_wire(input),
    {
        proof {
            InsertionGate::<F, D>::lemma_layout(self.gate.vec_size as nat, 0);
        }
        let n = self.gate.start_of_output_wires();
        let mut deps: Vec<Wire> = Vec::with_capacity(n);
        let mut input: usize = 0;
        while input < n
            invariant
                input <= n,
                deps@.len() == input,
                forall|j: int| 0 <= j < input ==> #[trigger] deps@[j] == self.local_wire(j),
            decreases n - input,
        {
            deps.push(Wire { gate: self.gate_index, input });
            input = input + 1;
        }
        deps
    }

    /// The outputs and the helper wires of the row: the list with the element
    /// inserted at the insertion index, and for each round the flag that marks
    /// the index and the helper that proves the flag right.
    pub fn run_once(&self, witness: &PartialWitness<F>) -> (r: PartialWitness<F>)
        requires
            self.gate.wf(),
            D > 0,
            self.gate.vec_size < F::characteristic_spec(),
            witness.wf(),
            self.ready(*witness),
        ensures
            r.wf(),
            forall|w: Wire|
                #[trigger] r.get(w) == if w.gate == self.gate_index {
                    self.generated(*witness, w.input as int, self.gate.vec_size + 1, 0)
                } else {
                    None
                },
    {
        let vec_size = self.gate.vec_size;
        let ghost vs = vec_size as int;
        let ghost d = D as int;
        proof {
            InsertionGate::<F, D>::lemma_layout(vec_size as nat, 0);
            assert(self.local_wire(0) == Wire { gate: self.gate_index, input: 0 });
        }
        let insertion_index_f = witness.get_wire(Wire { gate: self.gate_index, input: 0 });
        let insertion_index = insertion_index_f.to_canonical_u64();
        let outputs = self.gate.start_of_output_wires();
        let helpers = self.gate.start_of_intermediate_wires();
        let mut result = PartialWitness::<F>::new();
        let mut i: usize = 0;
        while i <= vec_size
            invariant
                i <= vec_size + 1,
                vec_size == self.gate.vec_size,
                vs == vec_size,
                d == D,
                d > 0,
                self.gate.wf(),
                vec_size < F::characteristic_spec(),
                witness.wf(),
                self.ready(*witness),
                insertion_index_f == self.input_value(*witness, 0),
                insertion_index_f.wf(),
                insertion_index == self.insertion_index(*witness),
                outputs == (vs + 1) * d + 1,
                helpers == 2 * (vs + 1) * d + 1,
                result.wf(),
                forall|w: Wire|
                    #[trigger] result.get(w) == if w.gate == self.gate_index {
                        self.generated(*witness, w.input as int, i as int, 0)
                    } else {
                        None
                    },
            decreases vec_size + 1 - i,
        {
            let mut k: usize = 0;
            while k < D
                invariant
                    k <= D,
                    i <= vec_size,
                    vec_size == self.gate.vec_size,
                    vs == vec_size,
                    d == D,
                    d > 0,
                    self.gate.wf(),
                    witness.wf(),
                    self.ready(*witness),
                    insertion_index == self.insertion_index(*witness),
                    outputs == (vs + 1) * d + 1,
                    helpers == 2 * (vs + 1) * d + 1,
                    result.wf(),
                    forall|w: Wire|
                        #[trigger] result.get(w) == if w.gate == self.gate_index {
                            self.generated(*witness, w.input as int, i as int, k as int)
                        } else {
                            None
                        },
                decreases D - k,
            {
                proof {
                    self.gate.lemma_wires(i as int, k as int);
                    if i > 0 {
                        self.gate.lemma_wires(i - 1, k as int);
                    }
                    assert(self.local_wire(self.gate.element_wire(k as int)) == Wire {
                        gate: self.gate_index,
                        input: (1 + k) as usize,
                    });
                }
                let source: usize = if (i as u64) < insertion_index {
                    self.gate.wires_original_list_item(i).start + k
                } else if (i as u64) == insertion_index {
                    self.gate.wires_element_to_insert().start + k
                } else {
                    self.gate.wires_original_list_item(i - 1).start + k
                };
                proof {
                    assert((vs + 1) * d == vs * d + d) by (nonlinear_arith);
                    assert((i + 1) * d == i * d + d) by (nonlinear_arith);
                    assert(i * d <= vs * d) by (nonlinear_arith)
                        requires
                            i <= vs,
                            d >= 0,
                    ;
                    if (i as u64) < insertion_index {
                        assert((i + 1) * d <= vs * d) by (nonlinear_arith)
                            requires
                                i + 1 <= vs,
                                d >= 0,
                        ;
                    }
                    if (i as u64) > insertion_index {
                        assert((i - 1 + 1) * d == i * d);
                    }
                    assert(source < self.num_inputs());
                    assert(self.local_wire(source as int) == Wire {
                        gate: self.gate_index,
                        input: source,
                    });
                }
                let value = witness.get_wire(Wire { gate: self.gate_index, input: source });
                let target = self.gate.wires_output_list_item(i).start + k;
                let ghost before = result;
                proof {
                    assert(i * d <= vs * d) by (nonlinear_arith)
                        requires
                            i <= vs,
                            d >= 0,
                    ;
                    assert(2 * (vs + 1) * d == (vs + 1) * d + vs * d + d) by (nonlinear_arith);
                    assert(target == outputs + i * d + k);
                    assert(outputs <= target < helpers);
                    lemma_decode(target as int - outputs as int, d, i as int, k as int);
                    assert(self.generated(*witness, target as int, i as int, k as int) is None);
                }
                result.set_wire(Wire { gate: self.gate_index, input: target }, value);
                proof {
                    assert forall|w: Wire|
                        #[trigger] result.get(w) == if w.gate == self.gate_index {
                            self.generated(*witness, w.input as int, i as int, k + 1)
                        } else {
                            None
                        } by {
                        let set = Wire { gate: self.gate_index, input: target };
                        if w == set {
                            assert(value == self.inserted(*witness, i as int, k as int));
                        } else {
                            assert(result.get(w) == before.get(w));
                            if w.gate == self.gate_index {
                                let x = w.input as int;
                                if outputs <= x < helpers {
                                    let a = (x - outputs) / d;
                                    let b = (x - outputs) % d;
                                    vstd::arithmetic::div_mod::lemma_fundamental_div_mod(
                                        x - outputs,
                                        d,
                                    );
                                    vstd::arithmetic::div_mod::lemma_mod_bound(x - outputs, d);
                                    if a == i && b == k {
                                        assert(d * a == a * d) by (nonlinear_arith);
                                        assert(x == target);
                                    }
                                }
                            }
                        }
                    }
                }
                k = k + 1;
            }
            proof {
                self.gate.lemma_wires(i as int, 0);
                F::lemma_constants();
            }
            let dummy = if (i as u64) == insertion_index {
                F::one()
            } else {
                F::from_canonical_usize(i).sub(insertion_index_f).inverse()
            };
            let flag = if (i as u64) == insertion_index {
                F::one()
            } else {
                F::zero()
            };
            let dummy_wire = self.gate.wires_equality_dummy_for_round_r(i);
            let flag_wire = self.gate.wires_insert_here_for_round_r(i);
            let ghost before = result;
            proof {
                assert(self.generated(*witness, dummy_wire as int, i as int, d) is None);
            }
            result.set_wire(Wire { gate: self.gate_index, input: dummy_wire }, dummy);
            let ghost middle = result;
            proof {
                assert(middle.get(Wire { gate: self.gate_index, input: flag_wire }) == before.get(
                    Wire { gate: self.gate_index, input: flag_wire },
                ));
                assert(self.generated(*witness, flag_wire as int, i as int, d) is None);
            }
            result.set_wire(Wire { gate: self.gate_index, input: flag_wire }, flag);
            proof {
                assert forall|w: Wire|
                    #[trigger] result.get(w) == if w.gate == self.gate_index {
                        self.generated(*witness, w.input as int, i + 1, 0)
                    } else {
                        None
                    } by {
                    let first = Wire { gate: self.gate_index, input: dummy_wire };
                    let second = Wire { gate: self.gate_index, input: flag_wire };
                    if w == second {
                    } else if w == first {
                        assert(result.get(w) == middle.get(w));
                    } else {
                        assert(result.get(w) == middle.get(w));
                        assert(middle.get(w) == before.get(w));
                        if w.gate == self.gate_index {
                            let x = w.input as int;
                            if outputs <= x < helpers {
                                vstd::arithmetic::div_mod::lemma_mod_bound(x - outputs, d);
                            }
                        }
                    }
                }
            }
            i = i + 1;
        }
        result
    }
}

/// A number `i * d + k` with `k` below `d` has quotient `i` and remainder `k`
/// by `d`.
pub proof fn lemma_decode(x: int, d: int, i: int, k: int)
    requires
        d > 0,
        0 <= k < d,
        x == i * d + k,
    ensures
        x / d == i,
        x % d == k,
{
    assert(x == d * i + k) by (nonlinear_arith)
        requires
            x == i * d + k,
    ;
    vstd::arithmetic::div_mod::lemma_fundamental_div_mod_converse(x, d, i, k);
}


/// The two constraints that make the flag of round `r` the indicator of the
/// insertion index, on given values.
pub open spec fn equality_constraints<E: Field>(index: E, dummy: E, flag: E, r: int) -> (E, E) {
    let difference = sub_spec(E::from_canonical_u64_spec(r as u64), index);
    (
        sub_spec(difference.mul_spec(dummy), sub_spec(E::one_spec(), flag)),
        flag.mul_spec(difference),
    )
}

/// One coordinate of the output constraint of a round, on given values.
pub open spec fn output_constraint<E: Field>(
    element: E,
    flag: E,
    previous: Option<(E, E)>,
    here: Option<(E, E)>,
    output: E,
) -> E {
    let inserted = element.mul_spec(flag);
    let shifted = match previous {
        Some((item, already)) => inserted.add_spec(item.mul_spec(already)),
        None => inserted,
    };
    let full = match here {
        Some((item, already)) => shifted.add_spec(item.mul_spec(sub_spec(E::one_spec(), already))),
        None => shifted,
    };
    sub_spec(full, output)
}

/// Appends the gates of the two equality constraints of round `r`.
#[verifier::rlimit(100)]
pub fn insertion_equalities<F: RichField, E: FieldExtension<F>, H: Hasher<F>>(
    builder: &mut CircuitBuilder<F, E, H>,
    insertion_index: ExtensionTarget,
    equality_dummy: ExtensionTarget,
    insert_here: ExtensionTarget,
    r: usize,
) -> (out: (ExtensionTarget, ExtensionTarget))
    requires
        insertion_index.0 < old(builder).num_gates(),
        equality_dummy.0 < old(builder).num_gates(),
        insert_here.0 < old(builder).num_gates(),
        r < E::characteristic_spec(),
    ensures
        final(builder).frames(*old(builder)),
        final(builder).num_inputs == old(builder).num_inputs,
        old(builder).wf() ==> final(builder).wf(),
        out.0.0 < final(builder).num_gates(),
        out.1.0 < final(builder).num_gates(),
        forall|inp: Seq<Value<F, E, H::Hash>>|
            (
                ext_at(#[trigger] final(builder).wires(inp), out.0),
                ext_at(final(builder).wires(inp), out.1),
            ) == equality_constraints(
                ext_at(old(builder).wires(inp), insertion_index),
                ext_at(old(builder).wires(inp), equality_dummy),
                ext_at(old(builder).wires(inp), insert_here),
                r as int,
            ),
        forall|inp: Seq<Value<F, E, H::Hash>>|
            #[trigger] final(builder).satisfied(inp) == old(builder).satisfied(inp),
{
    proof {
        E::lemma_constants();
    }
    let cur_index = builder.constant_extension(E::from_canonical_usize(r));
    let ghost s1 = *builder;
    let difference = builder.sub_extension(cur_index, insertion_index);
    let ghost s2 = *builder;
    // The two equality constraints.
    let prod = builder.mul_extension(difference, equality_dummy);
    let ghost s3 = *builder;
    let one = builder.constant_extension(E::one());
    let ghost s4 = *builder;
    let not_insert_here = builder.sub_extension(one, insert_here);
    let ghost s5 = *builder;
    let first = builder.sub_extension(prod, not_insert_here);
    let ghost s6 = *builder;
    let second = builder.mul_extension(insert_here, difference);
    proof {
        s2.lemma_frames_transitive(s1, *old(builder));
        s3.lemma_frames_transitive(s2, *old(builder));
        s4.lemma_frames_transitive(s3, *old(builder));
        s5.lemma_frames_transitive(s4, *old(builder));
        s6.lemma_frames_transitive(s5, *old(builder));
        builder.lemma_frames_transitive(s6, *old(builder));
        s4.lemma_frames_transitive(s3, s2);
        s5.lemma_frames_transitive(s4, s2);
        s6.lemma_frames_transitive(s5, s2);
        s5.lemma_frames_transitive(s4, s3);
        builder.lemma_frames_transitive(s6, s2);
        assert forall|inp: Seq<Value<F, E, H::Hash>>|
            (ext_at(#[trigger] builder.wires(inp), first), ext_at(builder.wires(inp), second))
                == equality_constraints(
                ext_at(old(builder).wires(inp), insertion_index),
                ext_at(old(builder).wires(inp), equality_dummy),
                ext_at(old(builder).wires(inp), insert_here),
                r as int,
            ) by {
            let v0 = old(builder).wires(inp);
            let dv = sub_spec(E::from_canonical_u64_spec(r as u64), ext_at(v0, insertion_index));
            s1.lemma_frame_value(*old(builder), inp, insertion_index.0);
            assert(ext_at(s2.wires(inp), difference) == dv);
            s2.lemma_frame_value(*old(builder), inp, equality_dummy.0);
            assert(ext_at(s3.wires(inp), prod) == dv.mul_spec(ext_at(v0, equality_dummy)));
            s4.lemma_frame_value(*old(builder), inp, insert_here.0);
            assert(ext_at(s5.wires(inp), not_insert_here) == sub_spec(
                E::one_spec(),
                ext_at(v0, insert_here),
            ));
            s5.lemma_frame_value(s3, inp, prod.0);
            s6.lemma_frame_value(*old(builder), inp, insert_here.0);
            s6.lemma_frame_value(s2, inp, difference.0);
            builder.lemma_frame_value(s6, inp, first.0);
        }
        assert forall|inp: Seq<Value<F, E, H::Hash>>| #[trigger]
            builder.satisfied(inp) == old(builder).satisfied(inp) by {
            assert(builder.satisfied(inp) == s6.satisfied(inp));
            assert(s6.satisfied(inp) == s5.satisfied(inp));
            assert(s5.satisfied(inp) == s4.satisfied(inp));
            assert(s4.satisfied(inp) == s3.satisfied(inp));
            assert(s3.satisfied(inp) == s2.satisfied(inp));
            assert(s2.satisfied(inp) == s1.satisfied(inp));
        }
    }
    (first, second)
}

/// The values that the targets of an entry and of the sum of flags hold, if
/// the entry takes part.
pub open spec fn part_at<F: Field, E: Field, D>(
    vals: Seq<Value<F, E, D>>,
    part: Option<(ExtensionTarget, ExtensionTarget)>,
) -> Option<(E, E)> {
    match part {
        Some((item, already)) => Some((ext_at(vals, item), ext_at(vals, already))),
        None => None,
    }
}

/// Appends the gates of one coordinate of the output constraint of a round.
#[verifier::rlimit(100)]
pub fn insertion_output<F: RichField, E: FieldExtension<F>, H: Hasher<F>>(
    builder: &mut CircuitBuilder<F, E, H>,
    element: ExtensionTarget,
    insert_here: ExtensionTarget,
    previous: Option<(ExtensionTarget, ExtensionTarget)>,
    here: Option<(ExtensionTarget, ExtensionTarget)>,
    output: ExtensionTarget,
) -> (out: ExtensionTarget)
    requires
        element.0 < old(builder).num_gates(),
        insert_here.0 < old(builder).num_gates(),
        output.0 < old(builder).num_gates(),
        previous matches Some(p) ==> p.0.0 < old(builder).num_gates() && p.1.0 < old(
            builder,
        ).num_gates(),
        here matches Some(p) ==> p.0.0 < old(builder).num_gates() && p.1.0 < old(
            builder,
        ).num_gates(),
    ensures
        final(builder).frames(*old(builder)),
        final(builder).num_inputs == old(builder).num_inputs,
        old(builder).wf() ==> final(builder).wf(),
        out.0 < final(builder).num_gates(),
        forall|inp: Seq<Value<F, E, H::Hash>>|
            ext_at(#[trigger] final(builder).wires(inp), out) == output_constraint(
                ext_at(old(builder).wires(inp), element),
                ext_at(old(builder).wires(inp), insert_here),
                part_at(old(builder).wires(inp), previous),
                part_at(old(builder).wires(inp), here),
                ext_at(old(builder).wires(inp), output),
            ),
        forall|inp: Seq<Value<F, E, H::Hash>>|
            #[trigger] final(builder).satisfied(inp) == old(builder).satisfied(inp),
{
    let inserted = builder.mul_extension(element, insert_here);
    let ghost s1 = *builder;
    let shifted = match previous {
        Some((item, already)) => {
            let to_add = builder.mul_extension(item, already);
            let ghost m = *builder;
            let sum = builder.add_extension(inserted, to_add);
            proof {
                builder.lemma_frames_transitive(m, s1);
                assert forall|inp: Seq<Value<F, E, H::Hash>>| #[trigger]
                    builder.satisfied(inp) == s1.satisfied(inp) by {
                    assert(builder.satisfied(inp) == m.satisfied(inp));
                }
                assert forall|inp: Seq<Value<F, E, H::Hash>>|
                    ext_at(#[trigger] builder.wires(inp), sum) == ext_at(s1.wires(inp), inserted)
                        .add_spec(
                        ext_at(s1.wires(inp), item).mul_spec(ext_at(s1.wires(inp), already)),
                    ) by {
                    m.lemma_frame_value(s1, inp, inserted.0);
                }
            }
            sum
        },
        None => {
            proof {
                builder.lemma_frames_reflexive();
            }
            inserted
        },
    };
    let ghost s2 = *builder;
    let full = match here {
        Some((item, already)) => {
            proof {
                E::lemma_constants();
            }
            let one = builder.constant_extension(E::one());
            let ghost m1 = *builder;
            let not_already = builder.sub_extension(one, already);
            let ghost m2 = *builder;
            let to_add = builder.mul_extension(item, not_already);
            let ghost m3 = *builder;
            let sum = builder.add_extension(shifted, to_add);
            proof {
                m2.lemma_frames_transitive(m1, s2);
                m3.lemma_frames_transitive(m2, s2);
                builder.lemma_frames_transitive(m3, s2);
                assert forall|inp: Seq<Value<F, E, H::Hash>>| #[trigger]
                    builder.satisfied(inp) == s2.satisfied(inp) by {
                    assert(builder.satisfied(inp) == m3.satisfied(inp));
                    assert(m3.satisfied(inp) == m2.satisfied(inp));
                    assert(m2.satisfied(inp) == m1.satisfied(inp));
                }
                assert forall|inp: Seq<Value<F, E, H::Hash>>|
                    ext_at(#[trigger] builder.wires(inp), sum) == ext_at(s2.wires(inp), shifted)
                        .add_spec(
                        ext_at(s2.wires(inp), item).mul_spec(
                            sub_spec(E::one_spec(), ext_at(s2.wires(inp), already)),
                        ),
                    ) by {
                    m1.lemma_frame_value(s2, inp, already.0);
                    m2.lemma_frame_value(s2, inp, item.0);
                    m3.lemma_frame_value(s2, inp, shifted.0);
                    assert(ext_at(m2.wires(inp), not_already) == sub_spec(
                        E::one_spec(),
                        ext_at(s2.wires(inp), already),
                    ));
                    assert(ext_at(m3.wires(inp), to_add) == ext_at(m2.wires(inp), item).mul_spec(
                        ext_at(m2.wires(inp), not_already),
                    ));
                }
            }
            sum
        },
        None => {
            proof {
                builder.lemma_frames_reflexive();
            }
            shifted
        },
    };
    let ghost s3 = *builder;
    // Output constraint.
    let diff = builder.sub_extension(full, output);
    proof {
        s2.lemma_frames_transitive(s1, *old(builder));
        s3.lemma_frames_transitive(s2, *old(builder));
        builder.lemma_frames_transitive(s3, *old(builder));
        assert forall|inp: Seq<Value<F, E, H::Hash>>|
            ext_at(#[trigger] builder.wires(inp), diff) == output_constraint(
                ext_at(old(builder).wires(inp), element),
                ext_at(old(builder).wires(inp), insert_here),
                part_at(old(builder).wires(inp), previous),
                part_at(old(builder).wires(inp), here),
                ext_at(old(builder).wires(inp), output),
            ) by {
            let v0 = old(builder).wires(inp);
            s3.lemma_frame_value(*old(builder), inp, output.0);
            match previous {
                Some((item, already)) => {
                    s1.lemma_frame_value(*old(builder), inp, item.0);
                    s1.lemma_frame_value(*old(builder), inp, already.0);
                },
                None => {},
            }
            match here {
                Some((item, already)) => {
                    s2.lemma_frame_value(*old(builder), inp, item.0);
                    s2.lemma_frame_value(*old(builder), inp, already.0);
                },
                None => {},
            }
            assert(ext_at(s1.wires(inp), inserted) == ext_at(v0, element).mul_spec(
                ext_at(v0, insert_here),
            ));
        }
        assert forall|inp: Seq<Value<F, E, H::Hash>>| #[trigger]
            builder.satisfied(inp) == old(builder).satisfied(inp) by {
            assert(builder.satisfied(inp) == s3.satisfied(inp));
            assert(s3.satisfied(inp) == s2.satisfied(inp));
            assert(s2.satisfied(inp) == s1.satisfied(inp));
        }
    }
    diff
}


impl<F: RichField, const D: usize> InsertionGate<F, D> {
    /// The constraints of round `r` without the last coordinates of the output
    /// constraint: the two equality constraints and the first `k` coordinates.
    pub open spec fn round_prefix<E: Field>(self, w: Seq<E>, r: int, k: nat) -> Seq<E> {
        seq![
            sub_spec(
                self.difference(w, r).mul_spec(w[self.dummy_wire(r)]),
                sub_spec(E::one_spec(), w[self.insert_wire(r)]),
            ),
            w[self.insert_wire(r)].mul_spec(self.difference(w, r)),
        ] + Seq::new(k, |j: int| sub_spec(self.new_item(w, r, j), w[self.output_wire(r, j)]))
    }

    /// Appends the gates that compute the constraints of this gate on a row
    /// held by targets: the targets handed out hold what the constraints over
    /// field values give on the values that the row's targets hold.
    #[verifier::rlimit(100)]
    pub fn eval_unfiltered_recursively<E: FieldExtension<F>, H: Hasher<F>>(
        &self,
        builder: &mut CircuitBuilder<F, E, H>,
        vars: &EvaluationTargets,
    ) -> (r: Vec<ExtensionTarget>)
        requires
            self.wf(),
            vars.local_wires@.len() >= self.num_wires_spec(),
            extensions_below(vars.local_wires@, old(builder).num_gates()),
            self.vec_size < E::characteristic_spec(),
        ensures
            final(builder).frames(*old(builder)),
            final(builder).num_inputs == old(builder).num_inputs,
            old(builder).wf() ==> final(builder).wf(),
            extensions_below(r@, final(builder).num_gates()),
            forall|inp: Seq<Value<F, E, H::Hash>>|
                exts_at(#[trigger] final(builder).wires(inp), r@) == self.constraints_spec(
                    exts_at(old(builder).wires(inp), vars.local_wires@),
                ),
            forall|inp: Seq<Value<F, E, H::Hash>>|
                #[trigger] final(builder).satisfied(inp) == old(builder).satisfied(inp),
    {
        let ghost t = vars.local_wires@;
        let insertion_index = vars.local_wires[self.wires_insertion_index()];
        let elements = self.wires_element_to_insert();
        let mut constraints: Vec<ExtensionTarget> = Vec::new();
        let mut already_inserted = builder.zero_extension();
        let mut r: usize = 0;
        proof {
            assert forall|inp: Seq<Value<F, E, H::Hash>>|
                exts_at(#[trigger] builder.wires(inp), constraints@) == self.constraints_upto(
                    exts_at(old(builder).wires(inp), t),
                    0,
                ) by {
                assert(exts_at(builder.wires(inp), constraints@) =~= Seq::<E>::empty());
            }
        }
        while r <= self.vec_size
            invariant
                r <= self.vec_size + 1,
                self.wf(),
                t == vars.local_wires@,
                t.len() >= self.num_wires_spec(),
                extensions_below(t, old(builder).num_gates()),
                self.vec_size < E::characteristic_spec(),
                insertion_index == t[0],
                elements.start == 1,
                builder.frames(*old(builder)),
                builder.num_inputs == old(builder).num_inputs,
                old(builder).wf() ==> builder.wf(),
                already_inserted.0 < builder.num_gates(),
                extensions_below(constraints@, builder.num_gates()),
                forall|inp: Seq<Value<F, E, H::Hash>>|
                    ext_at(#[trigger] builder.wires(inp), already_inserted)
                        == self.already_inserted(exts_at(old(builder).wires(inp), t), r as nat)
                        && exts_at(builder.wires(inp), constraints@) == self.constraints_upto(
                        exts_at(old(builder).wires(inp), t),
                        r as nat,
                    ),
                forall|inp: Seq<Value<F, E, H::Hash>>|
                    #[trigger] builder.satisfied(inp) == old(builder).satisfied(inp),
            decreases self.vec_size + 1 - r,
        {
            proof {
                if D > 0 {
                    self.lemma_wires(r as int, 0);
                } else {
                    Self::lemma_layout(self.vec_size as nat, r as nat);
                }
            }
            let ghost round_start = *builder;
            let ghost before = constraints@;
            let equality_dummy = vars.local_wires[self.wires_equality_dummy_for_round_r(r)];
            let insert_here = vars.local_wires[self.wires_insert_here_for_round_r(r)];
            let equalities = insertion_equalities(
                builder,
                insertion_index,
                equality_dummy,
                insert_here,
                r,
            );
            constraints.push(equalities.0);
            constraints.push(equalities.1);
            let ghost s1 = *builder;
            let previously_inserted = already_inserted;
            already_inserted = builder.add_extension(previously_inserted, insert_here);
            let ghost s2 = *builder;
            let outputs = self.wires_output_list_item(r);
            let mut k: usize = 0;
            proof {
                s1.lemma_frames_transitive(round_start, *old(builder));
                s2.lemma_frames_transitive(s1, *old(builder));
                s2.lemma_frames_transitive(s1, round_start);
                builder.lemma_frames_reflexive();
                assert forall|inp: Seq<Value<F, E, H::Hash>>|
                    ext_at(#[trigger] s2.wires(inp), previously_inserted) == self.already_inserted(
                        exts_at(old(builder).wires(inp), t),
                        r as nat,
                    ) && ext_at(s2.wires(inp), already_inserted) == self.already_inserted(
                        exts_at(old(builder).wires(inp), t),
                        (r + 1) as nat,
                    ) && exts_at(s2.wires(inp), constraints@) == self.constraints_upto(
                        exts_at(old(builder).wires(inp), t),
                        r as nat,
                    ) + self.round_prefix(exts_at(old(builder).wires(inp), t), r as int, 0) by {
                    let v0 = old(builder).wires(inp);
                    let w = exts_at(v0, t);
                    round_start.lemma_frame_value(*old(builder), inp, insertion_index.0);
                    round_start.lemma_frame_value(*old(builder), inp, equality_dummy.0);
                    round_start.lemma_frame_value(*old(builder), inp, insert_here.0);
                    s1.lemma_frame_value(*old(builder), inp, insert_here.0);
                    s1.lemma_frame_value(round_start, inp, previously_inserted.0);
                    s2.lemma_frame_value(round_start, inp, previously_inserted.0);
                    s2.lemma_frame_exts(round_start, inp, before);
                    s2.lemma_frame_value(s1, inp, equalities.0.0);
                    s2.lemma_frame_value(s1, inp, equalities.1.0);
                    let got = exts_at(s2.wires(inp), constraints@);
                    let want = self.constraints_upto(w, r as nat) + self.round_prefix(
                        w,
                        r as int,
                        0,
                    );
                    assert(exts_at(round_start.wires(inp), before) == self.constraints_upto(
                        w,
                        r as nat,
                    ));
                    assert(got.len() == want.len());
                    assert forall|j: int| 0 <= j < got.len() implies got[j] == want[j] by {
                        if j < before.len() {
                            assert(constraints@[j] == before[j]);
                            assert(exts_at(s2.wires(inp), before)[j] == ext_at(
                                s2.wires(inp),
                                before[j],
                            ));
                        }
                    }
                    assert(got =~= want);
                }
                assert forall|inp: Seq<Value<F, E, H::Hash>>| #[trigger]
                    s2.satisfied(inp) == old(builder).satisfied(inp) by {
                    assert(s2.satisfied(inp) == s1.satisfied(inp));
                    assert(s1.satisfied(inp) == round_start.satisfied(inp));
                }
            }
            while k < D
                invariant
                    k <= D,
                    r <= self.vec_size,
                    self.wf(),
                    t == vars.local_wires@,
                    t.len() >= self.num_wires_spec(),
                    extensions_below(t, old(builder).num_gates()),
                    elements.start == 1,
                    outputs.start == (self.vec_size + 1) * D + 1 + r * D,
                    insert_here == t[self.insert_wire(r as int)],
                    s2.frames(*old(builder)),
                    builder.frames(s2),
                    builder.frames(*old(builder)),
                    builder.num_inputs == old(builder).num_inputs,
                    old(builder).wf() ==> builder.wf(),
                    previously_inserted.0 < s2.num_gates(),
                    already_inserted.0 < s2.num_gates(),
                    extensions_below(constraints@, builder.num_gates()),
                    forall|inp: Seq<Value<F, E, H::Hash>>|
                        ext_at(#[trigger] s2.wires(inp), previously_inserted)
                            == self.already_inserted(exts_at(old(builder).wires(inp), t), r as nat)
                            && ext_at(s2.wires(inp), already_inserted) == self.already_inserted(
                            exts_at(old(builder).wires(inp), t),
                            (r + 1) as nat,
                        ),
                    forall|inp: Seq<Value<F, E, H::Hash>>|
                        exts_at(#[trigger] builder.wires(inp), constraints@)
                            == self.constraints_upto(
                            exts_at(old(builder).wires(inp), t),
                            r as nat,
                        ) + self.round_prefix(
                            exts_at(old(builder).wires(inp), t),
                            r as int,
                            k as nat,
                        ),
                    forall|inp: Seq<Value<F, E, H::Hash>>|
                        #[trigger] builder.satisfied(inp) == old(builder).satisfied(inp),
                decreases D - k,
            {
                proof {
                    self.lemma_wires(r as int, k as int);
                    if r > 0 {
                        self.lemma_wires(r - 1, k as int);
                    }
                }
                let element = vars.local_wires[elements.start + k];
                let previous = if r > 0 {
                    let items = self.wires_original_list_item(r - 1);
                    Some((vars.local_wires[items.start + k], previously_inserted))
                } else {
                    None
                };
                let here = if r < self.vec_size {
                    let items = self.wires_original_list_item(r);
                    Some((vars.local_wires[items.start + k], already_inserted))
                } else {
                    None
                };
                let output = vars.local_wires[outputs.start + k];
                let ghost step_start = *builder;
                let ghost had = constraints@;
                let diff = insertion_output(builder, element, insert_here, previous, here, output);
                constraints.push(diff);
                proof {
                    builder.lemma_frames_transitive(step_start, s2);
                    builder.lemma_frames_transitive(step_start, *old(builder));
                    assert forall|inp: Seq<Value<F, E, H::Hash>>|
                        exts_at(#[trigger] builder.wires(inp), constraints@)
                            == self.constraints_upto(
                            exts_at(old(builder).wires(inp), t),
                            r as nat,
                        ) + self.round_prefix(
                            exts_at(old(builder).wires(inp), t),
                            r as int,
                            (k + 1) as nat,
                        ) by {
                        let v0 = old(builder).wires(inp);
                        let vs = step_start.wires(inp);
                        let w = exts_at(v0, t);
                        step_start.lemma_frame_value(*old(builder), inp, element.0);
                        step_start.lemma_frame_value(*old(builder), inp, insert_here.0);
                        step_start.lemma_frame_value(*old(builder), inp, output.0);
                        step_start.lemma_frame_value(s2, inp, previously_inserted.0);
                        step_start.lemma_frame_value(s2, inp, already_inserted.0);
                        match previous {
                            Some((item, already)) => {
                                step_start.lemma_frame_value(*old(builder), inp, item.0);
                            },
                            None => {},
                        }
                        match here {
                            Some((item, already)) => {
                                step_start.lemma_frame_value(*old(builder), inp, item.0);
                            },
                            None => {},
                        }
                        builder.lemma_frame_exts(step_start, inp, had);
                        let got = exts_at(builder.wires(inp), constraints@);
                        let old_want = self.constraints_upto(w, r as nat) + self.round_prefix(
                            w,
                            r as int,
                            k as nat,
                        );
                        let want = self.constraints_upto(w, r as nat) + self.round_prefix(
                            w,
                            r as int,
                            (k + 1) as nat,
                        );
                        assert(exts_at(vs, had) == old_want);
                        assert(ext_at(builder.wires(inp), diff) == sub_spec(
                            self.new_item(w, r as int, k as int),
                            w[self.output_wire(r as int, k as int)],
                        ));
                        assert(got.len() == want.len());
                        assert forall|j: int| 0 <= j < got.len() implies got[j] == want[j] by {
                            if j < had.len() {
                                assert(constraints@[j] == had[j]);
                                assert(exts_at(builder.wires(inp), had)[j] == old_want[j]);
                            }
                        }
                        assert(got =~= want);
                    }
                }
                k = k + 1;
            }
            proof {
                assert forall|inp: Seq<Value<F, E, H::Hash>>|
                    ext_at(#[trigger] builder.wires(inp), already_inserted)
                        == self.already_inserted(
                        exts_at(old(builder).wires(inp), t),
                        (r + 1) as nat,
                    ) && exts_at(builder.wires(inp), constraints@) == self.constraints_upto(
                        exts_at(old(builder).wires(inp), t),
                        (r + 1) as nat,
                    ) by {
                    let w = exts_at(old(builder).wires(inp), t);
                    builder.lemma_frame_value(s2, inp, already_inserted.0);
                    assert(self.round_prefix(w, r as int, D as nat) =~= self.round_constraints(
                        w,
                        r as int,
                    ));
                }
            }
            r = r + 1;
        }
        constraints
    }
}

} // verus!
