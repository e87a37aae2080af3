//! The commands the graph engine serves, with their already-parsed
//! arguments. Reading and parsing the command line is the caller's
//! business; each variant maps onto one engine operation.

use vstd::prelude::*;

use crate::node::NodeType;

verus! {

/// One user command, type-checked and ready to run against the graph.
pub enum Command {
    /// Append a new node, optionally under an existing one.
    New { description: String, node_type: NodeType, to: Option<usize> },
    /// Splice a new node between an existing node and its parents.
    NewAbove { description: String, node_type: NodeType, above: usize },
    /// Remove the named nodes and their dependency subtrees.
    Complete { node_ids: Vec<usize> },
    /// Record a dependency edge.
    Link { parent: usize, child: usize },
    /// Erase a dependency edge.
    Unlink { parent: usize, child: usize },
    /// List from the default anchor.
    Show { overwhelm: bool },
    /// List the subtree below one node.
    Under { id: usize, overwhelm: bool },
    /// Set or clear the default listing anchor.
    Use { effective_root: Option<usize> },
    /// Replace a node's description.
    Edit { id: usize, new_description: String },
    /// Enter the interactive loop.
    Shell,
}

} // verus!
