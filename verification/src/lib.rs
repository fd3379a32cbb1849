//! Leaf-first ordering of a resolved dependency graph.
//!
//! Given the resolved dependency graph of a project (its nodes, its package
//! records and its workspace members), this library computes a deduplicated,
//! leaf-first ordering of the package identifiers: every dependency appears
//! before everything that depends on it.  Development-only dependencies are
//! excluded as traversal roots, and the traversal can be restricted to the
//! local workspace members.  The ordered identifiers are resolved back into
//! records of name, version and manifest directory, and a command template
//! can be rendered against each record.

pub mod graph;
pub mod order;
pub mod render;
