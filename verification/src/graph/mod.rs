//! The computation graph: the arena (`Graph`) that owns all nodes, the `Node`
//! and `OpType` data model, structural node keys, the topological invariant
//! with the term each node denotes, and rendering back to a formula.

pub mod arena;
pub mod display;
pub mod key;
pub mod node;
pub mod topo;
