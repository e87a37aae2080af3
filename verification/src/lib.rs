//! A personal task list kept as a directed acyclic graph of work items.
//!
//! A node depends on other nodes (its `deps`); the inverse edges are kept in
//! `parents`. The graph owns all nodes in one dense, index-addressed vector,
//! enforces the structural invariants (dense ids, referential closure, edge
//! symmetry, acyclicity), and implements the mutations and the listing
//! traversal. Loading, saving and terminal output live outside the library.

pub mod add;
pub mod command;
pub mod config;
pub mod edges;
pub mod graph;
pub mod listing;
pub mod messages;
pub mod node;
pub mod remove;
pub mod topo;
pub mod validate;
