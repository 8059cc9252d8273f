//! A merged directed graph of generalized Collatz trajectories.
//!
//! Every observed integer is a node; repeated application of a deterministic
//! reduction step links nodes until they converge onto the root chain at
//! value 1. The graph supports descending construction (toward the root),
//! bounded ascending construction (enumerating predecessors), membership and
//! depth queries, lowest-common-ancestor queries, and deterministic
//! whole-graph traversal.

use vstd::prelude::*;

pub mod construct;
pub mod graph;
pub mod kind;
pub mod node;
pub mod query;
pub mod step;
pub mod traverse;
pub mod viz;

verus! {

/// Failure conditions surfaced by construction and query operations.
///
/// All failures are deterministic functions of the input and of the graph
/// state; no operation retries.
#[derive(Clone, Copy, PartialEq, Eq, Structural, Debug)]
pub enum CollatzError {
    /// A query referenced a value whose node has not been constructed yet.
    /// The caller must run a construction operation first.
    NotGenerated,
    /// A value outside the active variant's valid residue class was passed
    /// to a construction operation.
    InvalidDomain,
    /// Following the reduction step from the requested value would leave the
    /// 64-bit working domain before reaching the existing tree.
    Overflow,
    /// Extending the graph from the requested value would visit the same
    /// value twice without reaching the existing tree, so a node would have
    /// to be created for a value that the new chain already holds.
    DuplicateCreate,
}

} // verus!
