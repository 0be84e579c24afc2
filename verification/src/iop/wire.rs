//! Wires of the gates of a constraint system laid out in rows, and partial
//! assignments of values to wires.
use crate::field::field_types::Field;
use vstd::prelude::*;

verus! {

/// A wire: input number `input` of a gate, in row `gate`.
#[derive(Clone, Copy, Debug, PartialEq, Eq, Hash, Structural)]
pub struct Wire {
    pub gate: usize,
    pub input: usize,
}

/// Values for some wires: each wire at most once.
#[derive(Debug)]
pub struct PartialWitness<F: Field> {
    pub wire_values: Vec<(Wire, F)>,
}

/// The value that the first `n` entries give to a wire, if any.
pub open spec fn lookup_wire<F>(entries: Seq<(Wire, F)>, wire: Wire, n: nat) -> Option<F>
    decreases n,
{
    if n == 0 {
        None
    } else if entries[n - 1].0 == wire {
        Some(entries[n - 1].1)
    } else {
        lookup_wire(entries, wire, (n - 1) as nat)
    }
}

impl<F: Field> PartialWitness<F> {
    /// The value of a wire, if it has one.
    pub open spec fn get(self, wire: Wire) -> Option<F> {
        lookup_wire(self.wire_values@, wire, self.wire_values@.len())
    }

    /// All values are well formed.
    pub open spec fn wf(self) -> bool {
        forall|i: int| 0 <= i < self.wire_values@.len() ==> (#[trigger] self.wire_values@[i]).1.wf()
    }

    /// A witness that gives no wire a value.
    pub fn new() -> (r: Self)
        ensures
            forall|w: Wire| r.get(w) is None,
            r.wf(),
    {
        PartialWitness { wire_values: Vec::new() }
    }

    /// Looks a wire up.
    pub fn try_get_wire(&self, wire: Wire) -> (r: Option<F>)
        requires
            self.wf(),
        ensures
            r == self.get(wire),
            r matches Some(v) ==> v.wf(),
    {
        let mut i: usize = self.wire_values.len();
        while i > 0
            invariant
                i <= self.wire_values@.len(),
                self.wf(),
                self.get(wire) == lookup_wire(self.wire_values@, wire, i as nat),
            decreases i,
        {
            i = i - 1;
            let entry = &self.wire_values[i];
            if entry.0.gate == wire.gate && entry.0.input == wire.input {
                return Some(entry.1);
            }
        }
        None
    }

    /// The value of a wire that has one.
    pub fn get_wire(&self, wire: Wire) -> (r: F)
        requires
            self.wf(),
            self.get(wire) is Some,
        ensures
            self.get(wire) == Some(r),
            r.wf(),
    {
        match self.try_get_wire(wire) {
            Some(v) => v,
            None => F::zero(),
        }
    }

    /// Gives a wire that has no value yet a value.
    pub fn set_wire(&mut self, wire: Wire, value: F)
        requires
            old(self).wf(),
            value.wf(),
            old(self).get(wire) is None,
        ensures
            final(self).wf(),
            final(self).get(wire) == Some(value),
            forall|w: Wire| w != wire ==> final(self).get(w) == old(self).get(w),
    {
        self.wire_values.push((wire, value));
        proof {
            let n = old(self).wire_values@.len();
            assert forall|w: Wire| w != wire implies self.get(w) == old(self).get(w) by {
                lemma_lookup_same(self.wire_values@, old(self).wire_values@, w, n);
            }
        }
    }
}

/// The first `n` entries decide what they give to a wire.
pub proof fn lemma_lookup_same<F>(a: Seq<(Wire, F)>, b: Seq<(Wire, F)>, wire: Wire, n: nat)
    requires
        n <= a.len(),
        n <= b.len(),
        forall|i: int| 0 <= i < n ==> a[i] == b[i],
    ensures
        lookup_wire(a, wire, n) == lookup_wire(b, wire, n),
    decreases n,
{
    if n > 0 {
        lemma_lookup_same(a, b, wire, (n - 1) as nat);
    }
}

} // verus!
