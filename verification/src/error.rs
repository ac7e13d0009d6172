//! The closed set of failures that fallible graph operations report.

use crate::keys::{EdgeIdx, NodeIdx};
use vstd::prelude::*;

verus! {

/// Everything that can go wrong in a fallible graph operation.
///
/// All variants are locally recoverable; no checked operation of this crate
/// panics.  Integrators match on the variant, never on a message string.
#[derive(Clone, Copy, PartialEq, Eq, Structural, Debug)]
pub enum GraphError {
    /// The operation referenced a node handle that is not live (it never
    /// existed, or it was removed).
    NodeNotFound(NodeIdx),
    /// The operation referenced an edge handle that is not live.
    EdgeNotFound(EdgeIdx),
    /// A self-loop was requested on a graph variant that disallows them.
    /// Carries the node that was both endpoints.
    Loop(NodeIdx),
    /// A second edge between an already connected pair was requested on a
    /// graph variant that disallows parallel edges.  Carries the pair.
    DuplicateEdge(NodeIdx, NodeIdx),
}

} // verus!
