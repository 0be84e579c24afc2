//! Targets: the places of a constraint system that hold values. A target is
//! the number of that gate whose output it is.
use vstd::prelude::*;

verus! {

/// A place that holds an element of the base field.
#[derive(Clone, Copy, Debug, PartialEq, Eq, Hash)]
pub struct Target(pub usize);

/// A place that holds zero or one.
#[derive(Clone, Copy, Debug, PartialEq, Eq, Hash)]
pub struct BoolTarget {
    pub target: Target,
}

/// A place that holds an element of the extension field.
#[derive(Clone, Copy, Debug, PartialEq, Eq, Hash)]
pub struct ExtensionTarget(pub usize);

/// A place that holds a digest.
#[derive(Clone, Copy, Debug, PartialEq, Eq, Hash)]
pub struct HashOutTarget(pub usize);

/// The places that hold a Merkle cap.
#[derive(Clone, Debug)]
pub struct MerkleCapTarget(pub Vec<HashOutTarget>);

/// The places that hold the siblings of a Merkle path.
#[derive(Clone, Debug)]
pub struct MerkleProofTarget {
    pub siblings: Vec<HashOutTarget>,
}

/// All targets of the sequence are outputs of the first `n` gates.
pub open spec fn targets_below(ts: Seq<Target>, n: nat) -> bool {
    forall|i: int| 0 <= i < ts.len() ==> (#[trigger] ts[i]).0 < n
}

/// All boolean targets of the sequence are outputs of the first `n` gates.
pub open spec fn bools_below(ts: Seq<BoolTarget>, n: nat) -> bool {
    forall|i: int| 0 <= i < ts.len() ==> (#[trigger] ts[i]).target.0 < n
}

/// All extension targets of the sequence are outputs of the first `n` gates.
pub open spec fn extensions_below(ts: Seq<ExtensionTarget>, n: nat) -> bool {
    forall|i: int| 0 <= i < ts.len() ==> (#[trigger] ts[i]).0 < n
}

/// All digest targets of the sequence are outputs of the first `n` gates.
pub open spec fn hashes_below(ts: Seq<HashOutTarget>, n: nat) -> bool {
    forall|i: int| 0 <= i < ts.len() ==> (#[trigger] ts[i]).0 < n
}

/// Both targets of every pair are outputs of the first `n` gates.
pub open spec fn points_below(ts: Seq<(Target, ExtensionTarget)>, n: nat) -> bool {
    forall|i: int| 0 <= i < ts.len() ==> (#[trigger] ts[i]).0.0 < n && ts[i].1.0 < n
}

} // verus!
