//! A single work item: its label, its kind, and its two edge lists.

use vstd::prelude::*;

verus! {

/// The closed classification of a work item.
#[derive(Clone, Copy, Debug, PartialEq, Eq, Structural)]
pub enum NodeType {
    Task,
    Condition,
    Goal,
}

impl NodeType {
    /// Parses the lower-case kind names used on the command line.
    pub fn from_string(s: &String) -> (r: Option<NodeType>)
        ensures
            r == (if s@ == "task"@ {
                Some(NodeType::Task)
            } else if s@ == "condition"@ {
                Some(NodeType::Condition)
            } else if s@ == "goal"@ {
                Some(NodeType::Goal)
            } else {
                None::<NodeType>
            }),
    {
        let task = String::from_str("task");
        let condition = String::from_str("condition");
        let goal = String::from_str("goal");
        if *s == task {
            Some(NodeType::Task)
        } else if *s == condition {
            Some(NodeType::Condition)
        } else if *s == goal {
            Some(NodeType::Goal)
        } else {
            None
        }
    }
}

/// The mathematical value of a [`Node`].
#[verifier::ext_equal]
pub struct NodeView {
    pub id: usize,
    pub description: Seq<char>,
    pub node_type: NodeType,
    pub due_date: Option<Seq<char>>,
    pub deps: Seq<usize>,
    pub parents: Seq<usize>,
}

/// A work item. `id` always equals the node's position in the owning graph;
/// `deps` lists the nodes this one depends on, `parents` the inverse edges.
pub struct Node {
    pub id: usize,
    pub description: String,
    pub node_type: NodeType,
    pub due_date: Option<String>,
    pub deps: Vec<usize>,
    pub parents: Vec<usize>,
}

impl View for Node {
    type V = NodeView;

    open spec fn view(&self) -> NodeView {
        NodeView {
            id: self.id,
            description: self.description@,
            node_type: self.node_type,
            due_date: match self.due_date {
                Some(d) => Some(d@),
                None => None,
            },
            deps: self.deps@,
            parents: self.parents@,
        }
    }
}

impl Clone for Node {
    /// Clones the node; the copy has the same mathematical value.
    fn clone(&self) -> (r: Self)
        ensures
            r@ == self@,
    {
        Node {
            id: self.id,
            description: self.description.clone(),
            node_type: self.node_type,
            due_date: match &self.due_date {
                Some(d) => Some(d.clone()),
                None => None,
            },
            deps: copy_ids(&self.deps),
            parents: copy_ids(&self.parents),
        }
    }
}

/// An empty node, used to swap a real node out of the collection while it
/// is edited in place.
pub(crate) fn placeholder_node() -> Node {
    Node {
        id: 0,
        description: String::new(),
        node_type: NodeType::Task,
        due_date: None,
        deps: Vec::new(),
        parents: Vec::new(),
    }
}

/// Copies a list of node ids.
pub fn copy_ids(v: &Vec<usize>) -> (r: Vec<usize>)
    ensures
        r@ == v@,
{
    let mut r: Vec<usize> = Vec::new();
    let mut i: usize = 0;
    while i < v.len()
        invariant
            i <= v.len(),
            r@ == v@.take(i as int),
        decreases v.len() - i,
    {
        r.push(v[i]);
        assert(v@.take(i + 1 as int) == v@.take(i as int).push(v@[i as int]));
        i = i + 1;
    }
    assert(v@.take(v@.len() as int) == v@);
    r
}

} // verus!
