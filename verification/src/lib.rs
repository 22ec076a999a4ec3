//! A manager for reduced ordered binary decision diagrams (ROBDDs).
//!
//! A BDD manager owns an append-only arena of nodes, a unique table that
//! guarantees at most one node per `(variable, low, high)` triple, and an
//! ordered registry of variable labels.  Boolean functions are built by
//! registering variables and combining handles through the Shannon-expansion
//! `apply` engine; they can be queried for their satisfying-assignment count
//! and their reachable-node count, and exported as a TikZ drawing.

pub mod bdd;
pub mod counting;
pub mod laws;
pub mod render;
pub mod semantics;
