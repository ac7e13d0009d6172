//! Generation-stamped handles for nodes and edges.

use vstd::prelude::*;

verus! {

/// An opaque handle to a node slot in a graph's node arena.
///
/// The handle pairs the slot position with the generation the slot carried
/// when the node was created; a handle whose slot has since been freed (and
/// possibly reused under a higher generation) never satisfies a lookup again.
/// Equality is by raw encoded value.
#[derive(Clone, Copy, PartialEq, Eq, Structural, Hash, Debug)]
pub struct NodeIdx {
    /// position of the slot in the node arena
    pub index: usize,
    /// generation the slot carried when this handle was issued
    pub generation: u64,
}

/// An opaque handle to an edge slot in a graph's edge arena.
///
/// Works exactly like [`NodeIdx`], but addresses the edge arena.
#[derive(Clone, Copy, PartialEq, Eq, Structural, Hash, Debug)]
pub struct EdgeIdx {
    /// position of the slot in the edge arena
    pub index: usize,
    /// generation the slot carried when this handle was issued
    pub generation: u64,
}

} // verus!
