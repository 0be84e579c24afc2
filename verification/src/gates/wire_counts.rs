//! The numbers of wires of the gates that the arithmetized verifier uses: the
//! one that looks up a list at an index and one that interpolates.
use vstd::prelude::*;

verus! {

/// A gate that checks an entry of a list of `vec_size` extension elements of
/// dimension `d` against a claimed element: one wire for the index, `d` for
/// the claimed element, `d` for each entry, and two helper wires per entry.
#[derive(Clone, Copy, Debug, PartialEq, Eq)]
pub struct RandomAccessGate {
    pub vec_size: usize,
    pub d: usize,
}

/// A gate that interpolates through `num_points` points with base-field first
/// coordinates and evaluates at a point: one wire per first coordinate, `d`
/// per value, `d` each for the evaluation point and the value there, and `d`
/// per coefficient of the interpolant.
#[derive(Clone, Copy, Debug, PartialEq, Eq)]
pub struct InterpolationGate {
    pub num_points: usize,
    pub d: usize,
}

impl RandomAccessGate {
    /// The wires that other gates connect to.
    pub open spec fn num_routed_wires_spec(self) -> int {
        (self.vec_size + 1) * self.d + 1
    }

    /// All wires: the routed ones and the helpers.
    pub open spec fn num_wires_spec(self) -> int {
        self.num_routed_wires_spec() + 2 * self.vec_size
    }

    /// The number of routed wires, where a machine word holds it.
    pub fn num_routed_wires(&self) -> (r: Option<usize>)
        requires
            self.d > 0,
        ensures
            r matches Some(n) ==> n == self.num_routed_wires_spec(),
            r is None ==> self.num_routed_wires_spec() > usize::MAX,
    {
        proof {
            assert((self.vec_size + 1) * self.d >= self.vec_size + 1) by (nonlinear_arith)
                requires
                    self.d >= 1,
            ;
        }
        let entries = self.vec_size.checked_add(1)?;
        let wires = entries.checked_mul(self.d)?;
        wires.checked_add(1)
    }

    /// The number of wires, where a machine word holds it.
    pub fn num_wires(&self) -> (r: Option<usize>)
        requires
            self.d > 0,
        ensures
            r matches Some(n) ==> n == self.num_wires_spec(),
            r is None ==> self.num_wires_spec() > usize::MAX,
    {
        proof {
            assert((self.vec_size + 1) * self.d >= 0) by (nonlinear_arith);
        }
        let routed = self.num_routed_wires()?;
        let helpers = self.vec_size.checked_mul(2)?;
        routed.checked_add(helpers)
    }
}

impl InterpolationGate {
    /// The wires that other gates connect to.
    pub open spec fn num_routed_wires_spec(self) -> int {
        self.num_points * (1 + self.d) + 2 * self.d
    }

    /// All wires: the routed ones and the helpers.
    pub open spec fn num_wires_spec(self) -> int {
        self.num_routed_wires_spec() + self.num_points * self.d
    }

    /// The number of routed wires, where a machine word holds it.
    pub fn num_routed_wires(&self) -> (r: Option<usize>)
        ensures
            r matches Some(n) ==> n == self.num_routed_wires_spec(),
            r is None ==> self.num_routed_wires_spec() > usize::MAX,
    {
        proof {
            assert(self.num_points * (1 + self.d) >= 0) by (nonlinear_arith);
        }
        let per_point = self.d.checked_add(1)?;
        let points = self.num_points.checked_mul(per_point)?;
        let ends = self.d.checked_mul(2)?;
        points.checked_add(ends)
    }

    /// The number of wires, where a machine word holds it.
    pub fn num_wires(&self) -> (r: Option<usize>)
        ensures
            r matches Some(n) ==> n == self.num_wires_spec(),
            r is None ==> self.num_wires_spec() > usize::MAX,
    {
        proof {
            assert(self.num_points * (1 + self.d) >= 0) by (nonlinear_arith);
            assert(self.num_points * self.d >= 0) by (nonlinear_arith);
        }
        let routed = self.num_routed_wires()?;
        let coefficients = self.num_points.checked_mul(self.d)?;
        routed.checked_add(coefficients)
    }
}

} // verus!
