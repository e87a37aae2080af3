//! Adding and removing single edges.

use vstd::prelude::*;

use crate::graph::{contains_id, keep_without, lemma_keep_without, Graph, GraphView};
use crate::messages;

verus! {

/// After `with_edge(p, c)` the edges are the old ones plus `p -> c`, and
/// nothing else about the nodes moves.
proof fn lemma_with_edge_props(g: GraphView, p: usize, c: usize)
    requires
        g.wf_links(),
        p < g.node_count(),
        c < g.node_count(),
    ensures
        g.with_edge(p, c).nodes.len() == g.nodes.len(),
        forall|x: usize, y: usize| #[trigger] g.with_edge(p, c).edge(x, y) <==> (g.edge(x, y) || (x
            == p && y == c)),
        g.with_edge(p, c).wf_links(),
        g.with_edge(p, c).effective_root == g.effective_root,
        g.with_edge(p, c).config == g.config,
        forall|i: int| 0 <= i < g.nodes.len() ==> {
            &&& (#[trigger] g.with_edge(p, c).nodes[i]).id == g.nodes[i].id
            &&& g.with_edge(p, c).nodes[i].description == g.nodes[i].description
            &&& g.with_edge(p, c).nodes[i].node_type == g.nodes[i].node_type
            &&& g.with_edge(p, c).nodes[i].due_date == g.nodes[i].due_date
        },
{
    broadcast use vstd::seq_lib::group_seq_properties;

    let h = g.with_edge(p, c);
    assert(g.deps_of(p).contains(c) == g.parents_of(c).contains(p));
    assert forall|x: usize, y: usize| #[trigger] h.edge(x, y) <==> (g.edge(x, y) || (x == p && y
        == c)) by {
        if x < g.nodes.len() {
            if x == p {
                if !g.deps_of(p).contains(c) {
                    assert(h.deps_of(x) == g.deps_of(p).push(c));
                    assert(h.deps_of(x).contains(y) <==> (g.deps_of(p).contains(y) || y == c)) by {
                        if h.deps_of(x).contains(y) {
                            let k = choose|k: int|
                                0 <= k < h.deps_of(x).len() && h.deps_of(x)[k] == y;
                            if k < g.deps_of(p).len() {
                                assert(g.deps_of(p)[k] == y);
                            }
                        }
                        if g.deps_of(p).contains(y) {
                            let k = choose|k: int|
                                0 <= k < g.deps_of(p).len() && g.deps_of(p)[k] == y;
                            assert(h.deps_of(x)[k] == y);
                        }
                        assert(h.deps_of(x).last() == c);
                    }
                } else {
                    assert(h.deps_of(x) == g.deps_of(x));
                }
            } else {
                assert(h.deps_of(x) == g.deps_of(x));
            }
        }
    }
    assert forall|i: int| 0 <= i < h.nodes.len() implies {
        &&& (#[trigger] h.nodes[i]).id == g.nodes[i].id
        &&& h.nodes[i].description == g.nodes[i].description
        &&& h.nodes[i].node_type == g.nodes[i].node_type
        &&& h.nodes[i].due_date == g.nodes[i].due_date
        &&& h.nodes[i].parents == (if i == c && !g.parents_of(c).contains(p) {
            g.nodes[i].parents.push(p)
        } else {
            g.nodes[i].parents
        })
    } by {}
    assert(h.wf_links()) by {
        assert forall|i: int| 0 <= i < h.nodes.len() implies (#[trigger] h.nodes[i]).id == i by {
            assert(g.nodes[i].id == i);
        }
        assert forall|i: int| 0 <= i < h.nodes.len() implies {
            &&& h.list_closed((#[trigger] h.nodes[i]).deps)
            &&& h.list_closed(h.nodes[i].parents)
            &&& h.nodes[i].deps.no_duplicates()
            &&& h.nodes[i].parents.no_duplicates()
        } by {
            assert(g.list_closed(g.nodes[i].deps));
            assert(g.list_closed(g.nodes[i].parents));
            assert(g.nodes[i].deps.no_duplicates());
            assert(g.nodes[i].parents.no_duplicates());
            if i == p && !g.deps_of(p).contains(c) {
                assert(h.nodes[i].deps == g.nodes[i].deps.push(c));
            }
            if i == c && !g.parents_of(c).contains(p) {
                assert(h.nodes[i].parents == g.nodes[i].parents.push(p));
            }
        }
        assert forall|x: usize, y: usize|
            h.in_range(x) && h.in_range(y) implies (h.deps_of(x).contains(y) <==> h.parents_of(
            y,
        ).contains(x)) by {
            assert(g.deps_of(x).contains(y) == g.parents_of(y).contains(x));
            assert(h.edge(x, y) <==> (g.edge(x, y) || (x == p && y == c)));
            assert(h.deps_of(x).contains(y) == h.edge(x, y));
            assert(h.parents_of(y).contains(x) <==> (g.parents_of(y).contains(x) || (y == c && x
                == p))) by {
                if y == c && !g.parents_of(c).contains(p) {
                    assert(h.parents_of(y) == g.parents_of(y).push(p));
                    if h.parents_of(y).contains(x) {
                        let k = choose|k: int|
                            0 <= k < h.parents_of(y).len() && h.parents_of(y)[k] == x;
                        if k < g.parents_of(y).len() {
                            assert(g.parents_of(y)[k] == x);
                        }
                    }
                    if g.parents_of(y).contains(x) {
                        let k = choose|k: int|
                            0 <= k < g.parents_of(y).len() && g.parents_of(y)[k] == x;
                        assert(h.parents_of(y)[k] == x);
                    }
                    assert(h.parents_of(y).last() == p);
                } else {
                    assert(h.parents_of(y) == g.parents_of(y));
                }
            }
        }
    }
}

/// After `without_edge(p, c)` the edges are the old ones less `p -> c`, the
/// structure stays well-formed, and acyclicity survives.
proof fn lemma_without_edge_props(g: GraphView, p: usize, c: usize)
    requires
        g.wf_links(),
        p < g.node_count(),
        c < g.node_count(),
    ensures
        g.without_edge(p, c).nodes.len() == g.nodes.len(),
        forall|x: usize, y: usize| #[trigger] g.without_edge(p, c).edge(x, y) <==> (g.edge(x, y)
            && !(x == p && y == c)),
        g.without_edge(p, c).wf_links(),
        g.acyclic() ==> g.without_edge(p, c).acyclic(),
{
    broadcast use vstd::seq_lib::group_seq_properties;

    let h = g.without_edge(p, c);
    lemma_keep_without(g.nodes[p as int].deps, c);
    lemma_keep_without(g.nodes[c as int].parents, p);
    assert forall|i: int| 0 <= i < h.nodes.len() implies {
        &&& (#[trigger] h.nodes[i]).id == g.nodes[i].id
        &&& h.nodes[i].description == g.nodes[i].description
        &&& h.nodes[i].node_type == g.nodes[i].node_type
        &&& h.nodes[i].due_date == g.nodes[i].due_date
        &&& h.nodes[i].deps == (if i == p {
            keep_without(g.nodes[i].deps, c)
        } else {
            g.nodes[i].deps
        })
        &&& h.nodes[i].parents == (if i == c {
            keep_without(g.nodes[i].parents, p)
        } else {
            g.nodes[i].parents
        })
    } by {}
    assert forall|x: usize, y: usize| #[trigger] h.edge(x, y) <==> (g.edge(x, y) && !(x == p && y
        == c)) by {
        if x < g.nodes.len() {
            if x == p {
                assert(h.deps_of(x) == keep_without(g.deps_of(p), c));
            } else {
                assert(h.deps_of(x) == g.deps_of(x));
            }
        }
    }
    assert(h.wf_links()) by {
        assert forall|i: int| 0 <= i < h.nodes.len() implies (#[trigger] h.nodes[i]).id == i by {
            assert(g.nodes[i].id == i);
        }
        assert forall|i: int| 0 <= i < h.nodes.len() implies {
            &&& h.list_closed((#[trigger] h.nodes[i]).deps)
            &&& h.list_closed(h.nodes[i].parents)
            &&& h.nodes[i].deps.no_duplicates()
            &&& h.nodes[i].parents.no_duplicates()
        } by {
            assert(g.list_closed(g.nodes[i].deps));
            assert(g.list_closed(g.nodes[i].parents));
            assert(g.nodes[i].deps.no_duplicates());
            assert(g.nodes[i].parents.no_duplicates());
            assert forall|k: int| 0 <= k < h.nodes[i].deps.len() implies (#[trigger] h.nodes[i].deps[k])
                < h.nodes.len() by {
                assert(h.nodes[i].deps.contains(h.nodes[i].deps[k]));
                assert(g.nodes[i].deps.contains(h.nodes[i].deps[k]));
            }
            assert forall|k: int| 0 <= k < h.nodes[i].parents.len() implies (#[trigger] h.nodes[i].parents[k]) < h.nodes.len() by {
                assert(h.nodes[i].parents.contains(h.nodes[i].parents[k]));
                assert(g.nodes[i].parents.contains(h.nodes[i].parents[k]));
            }
        }
        assert forall|x: usize, y: usize|
            h.in_range(x) && h.in_range(y) implies (h.deps_of(x).contains(y) <==> h.parents_of(
            y,
        ).contains(x)) by {
            assert(g.deps_of(x).contains(y) == g.parents_of(y).contains(x));
            assert(h.deps_of(x).contains(y) == h.edge(x, y));
            assert(h.parents_of(y).contains(x) <==> (g.parents_of(y).contains(x) && !(y == c && x
                == p))) by {
                if y == c {
                    assert(h.parents_of(y) == keep_without(g.parents_of(y), p));
                } else {
                    assert(h.parents_of(y) == g.parents_of(y));
                }
            }
        }
    }
    if g.acyclic() {
        let r = choose|r: Map<usize, nat>| g.rank_ok(r);
        assert forall|x: usize, y: usize| #[trigger] h.edge(x, y) implies r[y] < r[x] by {
            assert(g.edge(x, y));
        }
        assert(h.rank_ok(r));
    }
}

/// Linking back along an existing dependency closes a two-cycle: no rank
/// function tolerates it, so such a link is always refused.
pub proof fn lemma_two_cycle_rejected(g: GraphView, a: usize, b: usize)
    requires
        g.edge(a, b),
    ensures
        !g.acyclic_with_edge(b, a),
{
    if g.acyclic_with_edge(b, a) {
        let r = choose|r: Map<usize, nat>| g.rank_ok_with(r, b, a);
        assert(r[b] < r[a]);
        assert(false);
    }
}

/// Closing any dependency chain back onto its start is refused, however
/// long the chain.
pub proof fn lemma_closing_chain_rejected(g: GraphView, p: Seq<usize>)
    requires
        g.dep_path(p),
    ensures
        !g.acyclic_with_edge(p.last(), p.first()),
{
    if g.acyclic_with_edge(p.last(), p.first()) {
        let r = choose|r: Map<usize, nat>| g.rank_ok_with(r, p.last(), p.first());
        if p.len() > 1 {
            crate::topo::lemma_path_rank(g, r, p);
        }
        assert(false);
    }
}

impl Graph {
    /// Records the dependency `parent -> child` on both endpoints,
    /// idempotently. Fails when either id names no node, or when the new
    /// edge would close a dependency cycle; on failure the graph is left
    /// exactly as it was.
    pub fn link(&mut self, parent: &usize, child: &usize) -> (r: Result<(), String>)
        requires
            old(self)@.valid(),
        ensures
            final(self)@.valid(),
            r is Ok <==> (*parent < old(self)@.node_count() && *child < old(self)@.node_count()
                && old(self)@.acyclic_with_edge(*parent, *child)),
            r is Err ==> final(self)@ == old(self)@,
            r is Ok ==> final(self)@ == old(self)@.with_edge(*parent, *child),
    {
        let p = *parent;
        let c = *child;
        let ghost g = self@;
        if p >= self.nodes.len() {
            return Err(messages::parent_missing(p));
        }
        if c >= self.nodes.len() {
            return Err(messages::child_missing(c));
        }
        if contains_id(&self.nodes[p].deps, c) {
            proof {
                assert(g.deps_of(p).contains(c));
                assert(g.edge(p, c));
                let r0 = choose|r0: Map<usize, nat>| g.rank_ok(r0);
                assert(g.rank_ok_with(r0, p, c));
                assert(g.parents_of(c).contains(p));
                assert(g.with_edge(p, c) == g);
            }
            return Ok(());
        }
        proof {
            assert(g.deps_of(p) == self.nodes@[p as int]@.deps);
            assert(!g.deps_of(p).contains(c));
            assert(!g.parents_of(c).contains(p));
        }
        self.push_dep(p, c);
        self.push_parent(c, p);
        proof {
            assert(self@ =~~= g.with_edge(p, c));
            lemma_with_edge_props(g, p, c);
        }
        let ghost h = self@;
        match self.check_topology() {
            Ok(()) => {
                proof {
                    let r0 = choose|r0: Map<usize, nat>| h.rank_ok(r0);
                    assert forall|x: usize, y: usize| #[trigger] g.edge(x, y) implies r0[y]
                        < r0[x] by {
                        assert(h.edge(x, y));
                    }
                    assert(h.edge(p, c));
                    assert(g.rank_ok_with(r0, p, c));
                }
                Ok(())
            },
            Err(m) => {
                proof {
                    assert(h.nodes[c as int].parents.len() > 0);
                }
                self.pop_parent(c);
                proof {
                    assert(self@.nodes[p as int].deps.len() > 0);
                }
                self.pop_dep(p);
                proof {
                    assert(self@ =~~= g) by {
                        assert(g.nodes[p as int].deps.push(c).drop_last() =~= g.nodes[p as int].deps);
                        assert(g.nodes[c as int].parents.push(p).drop_last() =~= g.nodes[c as int].parents);
                    }
                    // any rank tolerating the new edge would certify the
                    // whole extended graph, which the check just refused
                    if g.acyclic_with_edge(p, c) {
                        let r0 = choose|r0: Map<usize, nat>| g.rank_ok_with(r0, p, c);
                        assert forall|x: usize, y: usize| #[trigger] h.edge(x, y) implies r0[y]
                            < r0[x] by {
                            assert(g.edge(x, y) || (x == p && y == c));
                        }
                        assert(h.rank_ok(r0));
                        assert(false);
                    }
                }
                Err(m)
            },
        }
    }

    /// Erases the dependency `parent -> child` from both endpoints,
    /// unconditionally: removing an edge cannot close a cycle, so no
    /// re-validation is needed. Fails only when either id names no node,
    /// and then changes nothing.
    pub fn unlink(&mut self, parent: &usize, child: &usize) -> (r: Result<(), String>)
        ensures
            r is Ok <==> (*parent < old(self)@.node_count() && *child < old(self)@.node_count()),
            r is Err ==> final(self)@ == old(self)@,
            r is Ok ==> final(self)@ == old(self)@.without_edge(*parent, *child),
            old(self)@.valid() ==> final(self)@.valid(),
    {
        let p = *parent;
        let c = *child;
        let ghost g = self@;
        if p >= self.nodes.len() {
            return Err(messages::parent_missing(p));
        }
        if c >= self.nodes.len() {
            return Err(messages::child_missing(c));
        }
        let mut n = crate::node::placeholder_node();
        self.nodes.set_and_swap(p, &mut n);
        crate::graph::remove_val(&mut n.deps, c);
        self.nodes.set_and_swap(p, &mut n);
        let mut n2 = crate::node::placeholder_node();
        self.nodes.set_and_swap(c, &mut n2);
        crate::graph::remove_val(&mut n2.parents, p);
        self.nodes.set_and_swap(c, &mut n2);
        proof {
            assert(self@ =~~= g.without_edge(p, c));
            if g.valid() {
                lemma_without_edge_props(g, p, c);
            }
        }
        Ok(())
    }
}

} // verus!
