//! A generic, in-memory graph storage engine.
//!
//! Nodes and edges live in generational slot arenas and are addressed through
//! opaque, generation-stamped handles, so a handle to a removed entry can
//! never alias a later entry that reuses the same slot.  Four structural
//! variants are provided (directed or undirected, simple or multi, with a
//! list-shaped or a map-shaped adjacency index), all behind one [`graphs::Graph`]
//! contract, together with a breadth-first traversal driven purely by that
//! contract.

mod arena;
pub mod bfs;
pub mod error;
pub mod graphs;
pub mod iters;
pub mod keys;

pub use error::GraphError;
pub use keys::{EdgeIdx, NodeIdx};
