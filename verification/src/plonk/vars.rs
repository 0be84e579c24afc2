//! The values that a gate's constraints are evaluated on.
use crate::field::field_types::Field;
use crate::iop::target::ExtensionTarget;
use vstd::prelude::*;

verus! {

/// The constants and the wires of one row.
#[derive(Debug)]
pub struct EvaluationVars<E: Field> {
    pub local_constants: Vec<E>,
    pub local_wires: Vec<E>,
}

/// The targets of the constants and the wires of one row.
#[derive(Debug)]
pub struct EvaluationTargets {
    pub local_constants: Vec<ExtensionTarget>,
    pub local_wires: Vec<ExtensionTarget>,
}

} // verus!
