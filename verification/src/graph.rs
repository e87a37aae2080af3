//! The graph engine: owns every node, enforces the structural invariants,
//! and carries the display configuration.
//!
//! The invariants that every public mutation preserves:
//! 1. dense ids: `nodes[i].id == i`;
//! 2. referential closure: every listed id refers to an existing node;
//! 3. edge symmetry: `p` lists `c` as a dependency exactly when `c` lists
//!    `p` as a parent; edge lists carry no duplicates;
//! 4. acyclicity: some rank function decreases along every dependency edge.

use vstd::prelude::*;

use crate::config::{Config, ConfigView};
use crate::node::{Node, NodeView};

verus! {

/// The mathematical value of a [`Graph`].
#[verifier::ext_equal]
pub struct GraphView {
    pub effective_root: Option<usize>,
    pub nodes: Seq<NodeView>,
    pub config: ConfigView,
}

impl GraphView {
    /// How many nodes the graph holds.
    pub open spec fn node_count(self) -> nat {
        self.nodes.len()
    }

    /// Whether `i` names an existing node.
    pub open spec fn in_range(self, i: usize) -> bool {
        i < self.nodes.len()
    }

    /// The node stored at position `i`.
    pub open spec fn node_at(self, i: usize) -> NodeView {
        self.nodes[i as int]
    }

    /// The dependency list of node `i`.
    pub open spec fn deps_of(self, i: usize) -> Seq<usize> {
        self.node_at(i).deps
    }

    /// The parent list of node `i`.
    pub open spec fn parents_of(self, i: usize) -> Seq<usize> {
        self.node_at(i).parents
    }

    /// Invariant 1: every node's id equals its position.
    pub open spec fn ids_dense(self) -> bool {
        forall|i: int| 0 <= i < self.nodes.len() ==> (#[trigger] self.nodes[i]).id == i
    }

    /// Every id in `l` names an existing node.
    pub open spec fn list_closed(self, l: Seq<usize>) -> bool {
        forall|k: int| 0 <= k < l.len() ==> (#[trigger] l[k]) < self.nodes.len()
    }

    /// Invariant 2: every listed id names an existing node.
    pub open spec fn refs_closed(self) -> bool {
        forall|i: int| 0 <= i < self.nodes.len() ==> {
            &&& self.list_closed((#[trigger] self.nodes[i]).deps)
            &&& self.list_closed(self.nodes[i].parents)
        }
    }

    /// Invariant 3a: an edge is recorded on both of its endpoints.
    pub open spec fn links_symmetric(self) -> bool {
        forall|p: usize, c: usize|
            #![trigger self.deps_of(p).contains(c)]
            #![trigger self.parents_of(c).contains(p)]
            self.in_range(p) && self.in_range(c) ==> (self.deps_of(p).contains(c)
                <==> self.parents_of(c).contains(p))
    }

    /// Invariant 3b: edge lists are de-duplicated.
    pub open spec fn lists_no_dup(self) -> bool {
        forall|i: int| 0 <= i < self.nodes.len() ==> {
            &&& (#[trigger] self.nodes[i]).deps.no_duplicates()
            &&& self.nodes[i].parents.no_duplicates()
        }
    }

    /// Invariants 1-3 together.
    pub open spec fn wf_links(self) -> bool {
        &&& self.ids_dense()
        &&& self.refs_closed()
        &&& self.links_symmetric()
        &&& self.lists_no_dup()
    }

    /// Node `p` depends on node `c`.
    pub open spec fn edge(self, p: usize, c: usize) -> bool {
        self.in_range(p) && self.deps_of(p).contains(c)
    }

    /// `r` witnesses acyclicity: it decreases along every dependency edge.
    pub open spec fn rank_ok(self, r: Map<usize, nat>) -> bool {
        forall|p: usize, c: usize| #[trigger] self.edge(p, c) ==> r[c] < r[p]
    }

    /// Invariant 4: the dependency relation admits a rank function, so it
    /// has no cycle.
    pub open spec fn acyclic(self) -> bool {
        exists|r: Map<usize, nat>| self.rank_ok(r)
    }

    /// `r` still decreases on every edge once `p -> c` is added.
    pub open spec fn rank_ok_with(self, r: Map<usize, nat>, p: usize, c: usize) -> bool {
        self.rank_ok(r) && r[c] < r[p]
    }

    /// The graph would stay acyclic if the edge `p -> c` were added.
    pub open spec fn acyclic_with_edge(self, p: usize, c: usize) -> bool {
        exists|r: Map<usize, nat>| self.rank_ok_with(r, p, c)
    }

    /// All four structural invariants.
    pub open spec fn valid(self) -> bool {
        self.wf_links() && self.acyclic()
    }

    /// `p` steps from node to dependency at every position.
    pub open spec fn dep_path(self, p: Seq<usize>) -> bool {
        p.len() > 0 && forall|k: int| 0 <= k < p.len() - 1 ==> self.edge(#[trigger] p[k], p[k + 1])
    }

    /// `b` lies on some dependency chain starting at `a` (including `a`
    /// itself).
    pub open spec fn reaches(self, a: usize, b: usize) -> bool {
        exists|p: Seq<usize>| self.dep_path(p) && p.first() == a && p.last() == b
    }
}

/// What holds after every operation that leaves the graph valid — and
/// every mutation of this library does: ids match positions, every listed
/// id resolves, every edge is recorded two-sided without duplicates, and
/// the dependency relation is acyclic. `validate` re-checks exactly this.
pub proof fn lemma_valid_invariants(g: GraphView)
    requires
        g.valid(),
    ensures
        g.ids_dense(),
        g.refs_closed(),
        g.links_symmetric(),
        g.lists_no_dup(),
        g.acyclic(),
{
}

/// `l` with every occurrence of `x` removed, order kept.
pub open spec fn keep_without(l: Seq<usize>, x: usize) -> Seq<usize>
    decreases l.len(),
{
    if l.len() == 0 {
        Seq::empty()
    } else if l.last() == x {
        keep_without(l.drop_last(), x)
    } else {
        keep_without(l.drop_last(), x).push(l.last())
    }
}

/// What `keep_without` keeps: everything but `x`, without introducing
/// duplicates, and untouched lists stay as they were.
pub proof fn lemma_keep_without(l: Seq<usize>, x: usize)
    ensures
        forall|y: usize| #[trigger] keep_without(l, x).contains(y) <==> (l.contains(y) && y != x),
        l.no_duplicates() ==> keep_without(l, x).no_duplicates(),
        keep_without(l, x).len() <= l.len(),
        !l.contains(x) ==> keep_without(l, x) == l,
    decreases l.len(),
{
    broadcast use vstd::seq_lib::group_seq_properties;

    if l.len() == 0 {
        assert(forall|y: usize| !keep_without(l, x).contains(y) && !l.contains(y));
    } else {
        let rest = l.drop_last();
        lemma_keep_without(rest, x);
        assert(l == rest.push(l.last()));
        assert forall|y: usize| #[trigger] keep_without(l, x).contains(y) implies (l.contains(y)
            && y != x) by {
            if l.last() != x && keep_without(l, x).contains(y) {
                if y != l.last() {
                    let k = choose|k: int|
                        0 <= k < keep_without(l, x).len() && keep_without(l, x)[k] == y;
                    if k < keep_without(rest, x).len() {
                        assert(keep_without(rest, x).contains(y));
                    }
                }
            }
        }
        assert forall|y: usize| l.contains(y) && y != x implies keep_without(l, x).contains(
            y,
        ) by {
            if y == l.last() {
                assert(keep_without(l, x).last() == y);
            } else {
                let k = choose|k: int| 0 <= k < l.len() && l[k] == y;
                assert(rest[k] == y);
                assert(keep_without(rest, x).contains(y));
                if l.last() != x {
                    let k2 = choose|k2: int|
                        0 <= k2 < keep_without(rest, x).len() && keep_without(rest, x)[k2] == y;
                    assert(keep_without(l, x)[k2] == y);
                }
            }
        }
        if l.no_duplicates() && l.last() != x {
            assert(!rest.contains(l.last()));
            assert(!keep_without(rest, x).contains(l.last()));
        }
        if !l.contains(x) {
            assert(l.last() != x);
            assert(!rest.contains(x)) by {
                if rest.contains(x) {
                    let k = choose|k: int| 0 <= k < rest.len() && rest[k] == x;
                    assert(l[k] == x);
                }
            }
            assert(keep_without(l, x) == rest.push(l.last()));
        }
    }
}

/// Appending `x` adds exactly `x` to what a list holds.
pub proof fn lemma_push_contains(l: Seq<usize>, x: usize, y: usize)
    ensures
        l.push(x).contains(y) <==> (l.contains(y) || y == x),
{
    assert(l.push(x)[l.len() as int] == x);
    if l.push(x).contains(y) && y != x {
        let k = choose|k: int| 0 <= k < l.push(x).len() && l.push(x)[k] == y;
        assert(l[k] == y);
    }
    if l.contains(y) {
        let k = choose|k: int| 0 <= k < l.len() && l[k] == y;
        assert(l.push(x)[k] == y);
    }
}

/// Whether the id list `v` holds `x`.
pub fn contains_id(v: &Vec<usize>, x: usize) -> (b: bool)
    ensures
        b == v@.contains(x),
{
    let mut i: usize = 0;
    while i < v.len()
        invariant
            i <= v@.len(),
            forall|k: int| 0 <= k < i ==> v@[k] != x,
        decreases v@.len() - i,
    {
        if v[i] == x {
            return true;
        }
        i = i + 1;
    }
    false
}

/// Removes every occurrence of `x` from `v`, keeping the order.
pub(crate) fn remove_val(v: &mut Vec<usize>, x: usize)
    ensures
        final(v)@ == keep_without(old(v)@, x),
{
    let mut r: Vec<usize> = Vec::new();
    let mut i: usize = 0;
    while i < v.len()
        invariant
            i <= v@.len(),
            v@ == old(v)@,
            r@ == keep_without(v@.take(i as int), x),
        decreases v@.len() - i,
    {
        proof {
            assert(v@.take(i + 1 as int) == v@.take(i as int).push(v@[i as int]));
            assert(v@.take(i + 1 as int).drop_last() == v@.take(i as int));
        }
        if v[i] != x {
            r.push(v[i]);
        }
        i = i + 1;
    }
    proof {
        assert(v@.take(v@.len() as int) == v@);
    }
    *v = r;
}

/// A task list kept as a directed acyclic graph. An edge from `p` to `c`
/// means `c` must complete before `p` can.
pub struct Graph {
    pub effective_root: Option<usize>,
    pub nodes: Vec<Node>,
    pub config: Config,
}

impl View for Graph {
    type V = GraphView;

    open spec fn view(&self) -> GraphView {
        GraphView {
            effective_root: self.effective_root,
            nodes: Seq::new(self.nodes@.len(), |i: int| self.nodes@[i]@),
            config: self.config@,
        }
    }
}

impl Graph {
    /// Assembles a graph from plain parts, as read back from storage.
    /// The parts are taken as they are: callers check `validate` before
    /// trusting the result.
    pub fn from_parts(effective_root: Option<usize>, nodes: Vec<Node>, config: Config) -> (g:
        Graph)
        ensures
            g@.effective_root == effective_root,
            g@.nodes.len() == nodes@.len(),
            forall|i: int| 0 <= i < nodes@.len() ==> g@.nodes[i] == #[trigger] nodes@[i]@,
            g@.config == config@,
    {
        Graph { effective_root, nodes, config }
    }

    /// The node collection, for persistence.
    pub fn nodes(&self) -> (r: &Vec<Node>)
        ensures
            r@.len() == self@.nodes.len(),
            forall|i: int| 0 <= i < r@.len() ==> (#[trigger] r@[i])@ == self@.nodes[i],
    {
        &self.nodes
    }

    /// The configured default listing anchor, if any.
    pub fn effective_root(&self) -> (r: Option<usize>)
        ensures
            r == self@.effective_root,
    {
        self.effective_root
    }

    /// Stores `node_id` as the default listing anchor; `None` returns the
    /// listing to the natural roots. Fails when the id names no node, and
    /// then changes nothing.
    pub fn set_effective_root(&mut self, node_id: Option<usize>) -> (r: Result<(), String>)
        ensures
            match node_id {
                Some(id) => {
                    &&& r is Ok <==> id < old(self)@.node_count()
                    &&& r is Err ==> final(self)@ == old(self)@
                    &&& r is Ok ==> final(self)@ == (GraphView {
                        effective_root: node_id,
                        ..old(self)@
                    })
                },
                None => r is Ok && final(self)@ == (GraphView {
                    effective_root: node_id,
                    ..old(self)@
                }),
            },
    {
        if let Some(id) = node_id {
            if id >= self.nodes.len() {
                return Err(crate::messages::node_missing(id));
            }
        }
        self.effective_root = node_id;
        assert(self@ =~= (GraphView { effective_root: node_id, ..old(self)@ }));
        Ok(())
    }

    /// Replaces the description of node `id` in place. Fails when the id
    /// names no node, and then changes nothing. No structural effect.
    pub fn relabel(&mut self, id: usize, new_description: String) -> (r: Result<(), String>)
        ensures
            r is Ok <==> id < old(self)@.node_count(),
            r is Err ==> final(self)@ == old(self)@,
            r is Ok ==> final(self)@ == (GraphView {
                nodes: old(self)@.nodes.update(
                    id as int,
                    NodeView { description: new_description@, ..old(self)@.nodes[id as int] },
                ),
                ..old(self)@
            }),
            old(self)@.valid() ==> final(self)@.valid(),
    {
        if id >= self.nodes.len() {
            return Err(crate::messages::node_missing(id));
        }
        let ghost old_view = self@;
        let mut n = crate::node::placeholder_node();
        self.nodes.set_and_swap(id, &mut n);
        n.description = new_description;
        self.nodes.set_and_swap(id, &mut n);
        assert(self@.nodes =~= old_view.nodes.update(
            id as int,
            NodeView { description: new_description@, ..old_view.nodes[id as int] },
        ));
        proof {
            lemma_same_links(old_view, self@);
        }
        Ok(())
    }
}

impl GraphView {
    /// This graph with the node at `i` replaced.
    pub open spec fn with_node(self, i: usize, nd: NodeView) -> GraphView {
        GraphView { nodes: self.nodes.update(i as int, nd), ..self }
    }

    /// This graph with the edge `p -> c` recorded on both endpoints
    /// (idempotently).
    pub open spec fn with_edge(self, p: usize, c: usize) -> GraphView {
        let g1 = if self.nodes[p as int].deps.contains(c) {
            self
        } else {
            self.with_node(p, NodeView { deps: self.nodes[p as int].deps.push(c), ..self.nodes[p as int] })
        };
        if g1.nodes[c as int].parents.contains(p) {
            g1
        } else {
            g1.with_node(c, NodeView { parents: g1.nodes[c as int].parents.push(p), ..g1.nodes[c as int] })
        }
    }

    /// This graph with the edge `p -> c` erased from both endpoints.
    pub open spec fn without_edge(self, p: usize, c: usize) -> GraphView {
        let g1 = self.with_node(
            p,
            NodeView { deps: keep_without(self.nodes[p as int].deps, c), ..self.nodes[p as int] },
        );
        g1.with_node(
            c,
            NodeView {
                parents: keep_without(g1.nodes[c as int].parents, p),
                ..g1.nodes[c as int]
            },
        )
    }
}

/// The structural invariants read nothing but the ids and the edge lists:
/// two graphs that agree on those stand or fall together.
pub proof fn lemma_same_links(a: GraphView, b: GraphView)
    requires
        a.nodes.len() == b.nodes.len(),
        forall|i: int| 0 <= i < a.nodes.len() ==> {
            &&& (#[trigger] a.nodes[i]).id == b.nodes[i].id
            &&& a.nodes[i].deps == b.nodes[i].deps
            &&& a.nodes[i].parents == b.nodes[i].parents
        },
    ensures
        a.wf_links() == b.wf_links(),
        forall|p: usize, c: usize| #[trigger] a.edge(p, c) == b.edge(p, c),
        a.acyclic() == b.acyclic(),
        a.valid() == b.valid(),
{
    assert forall|p: usize, c: usize| #[trigger] a.edge(p, c) == b.edge(p, c) by {
        if a.in_range(p) {
            assert(a.deps_of(p) == b.deps_of(p));
        }
    }
    assert forall|p: usize, c: usize|
        a.in_range(p) && a.in_range(c) implies (a.deps_of(p).contains(c) == b.deps_of(p).contains(
        c,
    ) && a.parents_of(c).contains(p) == b.parents_of(c).contains(p)) by {
        assert(a.deps_of(p) == b.deps_of(p));
        assert(a.parents_of(c) == b.parents_of(c));
    }
    assert(a.wf_links() == b.wf_links()) by {
        if a.wf_links() {
            assert forall|i: int| 0 <= i < b.nodes.len() implies (#[trigger] b.nodes[i]).id
                == i by {
                assert(a.nodes[i].id == b.nodes[i].id);
            }
            assert forall|i: int| 0 <= i < b.nodes.len() implies {
                &&& b.list_closed((#[trigger] b.nodes[i]).deps)
                &&& b.list_closed(b.nodes[i].parents)
                &&& b.nodes[i].deps.no_duplicates()
                &&& b.nodes[i].parents.no_duplicates()
            } by {
                assert(a.nodes[i].deps == b.nodes[i].deps);
                assert(a.nodes[i].parents == b.nodes[i].parents);
            }
            assert(b.wf_links());
        }
        if b.wf_links() {
            assert forall|i: int| 0 <= i < a.nodes.len() implies (#[trigger] a.nodes[i]).id
                == i by {
                assert(a.nodes[i].id == b.nodes[i].id);
            }
            assert forall|i: int| 0 <= i < a.nodes.len() implies {
                &&& a.list_closed((#[trigger] a.nodes[i]).deps)
                &&& a.list_closed(a.nodes[i].parents)
                &&& a.nodes[i].deps.no_duplicates()
                &&& a.nodes[i].parents.no_duplicates()
            } by {
                assert(a.nodes[i].deps == b.nodes[i].deps);
                assert(a.nodes[i].parents == b.nodes[i].parents);
            }
            assert(a.wf_links());
        }
    }
    assert(a.acyclic() == b.acyclic()) by {
        if a.acyclic() {
            let r = choose|r: Map<usize, nat>| a.rank_ok(r);
            assert forall|p: usize, c: usize| #[trigger] b.edge(p, c) implies r[c] < r[p] by {
                assert(a.edge(p, c));
            }
            assert(b.rank_ok(r));
        }
        if b.acyclic() {
            let r = choose|r: Map<usize, nat>| b.rank_ok(r);
            assert forall|p: usize, c: usize| #[trigger] a.edge(p, c) implies r[c] < r[p] by {
                assert(b.edge(p, c));
            }
            assert(a.rank_ok(r));
        }
    }
}

impl Graph {
    /// Appends `x` to the dependency list of node `i`.
    pub(crate) fn push_dep(&mut self, i: usize, x: usize)
        requires
            i < old(self)@.node_count(),
        ensures
            final(self)@ == old(self)@.with_node(
                i,
                (NodeView { deps: old(self)@.nodes[i as int].deps.push(x), ..old(self)@.nodes[i as int] }),
            ),
    {
        let mut n = crate::node::placeholder_node();
        self.nodes.set_and_swap(i, &mut n);
        n.deps.push(x);
        self.nodes.set_and_swap(i, &mut n);
        assert(self@.nodes =~= old(self)@.with_node(
            i,
            (NodeView { deps: old(self)@.nodes[i as int].deps.push(x), ..old(self)@.nodes[i as int] }),
        ).nodes);
    }

    /// Drops the last entry of the dependency list of node `i`.
    pub(crate) fn pop_dep(&mut self, i: usize)
        requires
            i < old(self)@.node_count(),
            old(self)@.nodes[i as int].deps.len() > 0,
        ensures
            final(self)@ == old(self)@.with_node(
                i,
                (NodeView {
                    deps: old(self)@.nodes[i as int].deps.drop_last(),
                    ..old(self)@.nodes[i as int]
                }),
            ),
    {
        let mut n = crate::node::placeholder_node();
        self.nodes.set_and_swap(i, &mut n);
        let _ = n.deps.pop();
        self.nodes.set_and_swap(i, &mut n);
        assert(self@.nodes =~= old(self)@.with_node(
            i,
            (NodeView {
                deps: old(self)@.nodes[i as int].deps.drop_last(),
                ..old(self)@.nodes[i as int]
            }),
        ).nodes);
    }

    /// Appends `x` to the parent list of node `i`.
    pub(crate) fn push_parent(&mut self, i: usize, x: usize)
        requires
            i < old(self)@.node_count(),
        ensures
            final(self)@ == old(self)@.with_node(
                i,
                (NodeView {
                    parents: old(self)@.nodes[i as int].parents.push(x),
                    ..old(self)@.nodes[i as int]
                }),
            ),
    {
        let mut n = crate::node::placeholder_node();
        self.nodes.set_and_swap(i, &mut n);
        n.parents.push(x);
        self.nodes.set_and_swap(i, &mut n);
        assert(self@.nodes =~= old(self)@.with_node(
            i,
            (NodeView {
                parents: old(self)@.nodes[i as int].parents.push(x),
                ..old(self)@.nodes[i as int]
            }),
        ).nodes);
    }

    /// Drops the last entry of the parent list of node `i`.
    pub(crate) fn pop_parent(&mut self, i: usize)
        requires
            i < old(self)@.node_count(),
            old(self)@.nodes[i as int].parents.len() > 0,
        ensures
            final(self)@ == old(self)@.with_node(
                i,
                (NodeView {
                    parents: old(self)@.nodes[i as int].parents.drop_last(),
                    ..old(self)@.nodes[i as int]
                }),
            ),
    {
        let mut n = crate::node::placeholder_node();
        self.nodes.set_and_swap(i, &mut n);
        let _ = n.parents.pop();
        self.nodes.set_and_swap(i, &mut n);
        assert(self@.nodes =~= old(self)@.with_node(
            i,
            (NodeView {
                parents: old(self)@.nodes[i as int].parents.drop_last(),
                ..old(self)@.nodes[i as int]
            }),
        ).nodes);
    }

    /// Overwrites the stored id of node `i`.
    pub(crate) fn set_node_id(&mut self, i: usize, v: usize)
        requires
            i < old(self)@.node_count(),
        ensures
            final(self)@ == old(self)@.with_node(
                i,
                (NodeView { id: v, ..old(self)@.nodes[i as int] }),
            ),
    {
        let mut n = crate::node::placeholder_node();
        self.nodes.set_and_swap(i, &mut n);
        n.id = v;
        self.nodes.set_and_swap(i, &mut n);
        assert(self@.nodes =~= old(self)@.with_node(
            i,
            (NodeView { id: v, ..old(self)@.nodes[i as int] }),
        ).nodes);
    }

    /// Removes `x` from both edge lists of node `i`.
    pub(crate) fn strip_refs_at(&mut self, i: usize, x: usize)
        requires
            i < old(self)@.node_count(),
        ensures
            final(self)@ == old(self)@.with_node(
                i,
                (NodeView {
                    deps: keep_without(old(self)@.nodes[i as int].deps, x),
                    parents: keep_without(old(self)@.nodes[i as int].parents, x),
                    ..old(self)@.nodes[i as int]
                }),
            ),
    {
        let mut n = crate::node::placeholder_node();
        self.nodes.set_and_swap(i, &mut n);
        remove_val(&mut n.deps, x);
        remove_val(&mut n.parents, x);
        self.nodes.set_and_swap(i, &mut n);
        assert(self@.nodes =~= old(self)@.with_node(
            i,
            (NodeView {
                deps: keep_without(old(self)@.nodes[i as int].deps, x),
                parents: keep_without(old(self)@.nodes[i as int].parents, x),
                ..old(self)@.nodes[i as int]
            }),
        ).nodes);
    }
}

} // verus!
