//! Node insertion: appending a node, wiring it on both sides, and the
//! splice insertion that pushes a new node between a node and its parents.

use vstd::prelude::*;

use crate::graph::{keep_without, lemma_keep_without, lemma_push_contains, Graph, GraphView};
use crate::messages;
use crate::node::{copy_ids, Node, NodeType, NodeView};

verus! {

impl GraphView {
    /// The graph with a fresh node appended at the next dense id and wired
    /// on both sides: every declared parent gains the new id among its
    /// dependencies, every declared dependency gains it among its parents.
    pub open spec fn with_appended(
        self,
        description: Seq<char>,
        node_type: NodeType,
        deps: Seq<usize>,
        parents: Seq<usize>,
    ) -> GraphView {
        let nid = self.nodes.len() as usize;
        GraphView {
            nodes: Seq::new(
                self.nodes.len() + 1,
                |i: int|
                    if i == self.nodes.len() {
                        NodeView {
                            id: nid,
                            description: description,
                            node_type: node_type,
                            due_date: None,
                            deps: deps,
                            parents: parents,
                        }
                    } else {
                        let nd = self.nodes[i];
                        NodeView {
                            deps: if parents.contains(i as usize) {
                                nd.deps.push(nid)
                            } else {
                                nd.deps
                            },
                            parents: if deps.contains(i as usize) {
                                nd.parents.push(nid)
                            } else {
                                nd.parents
                            },
                            ..nd
                        }
                    },
            ),
            ..self
        }
    }

    /// `r` orders the appended node below its parents and above its
    /// dependencies while still ordering every existing edge.
    pub open spec fn append_rank_ok(
        self,
        r: Map<usize, nat>,
        nid: usize,
        deps: Seq<usize>,
        parents: Seq<usize>,
    ) -> bool {
        &&& self.rank_ok(r)
        &&& forall|k: int| 0 <= k < deps.len() ==> r[#[trigger] deps[k]] < r[nid]
        &&& forall|k: int| 0 <= k < parents.len() ==> r[nid] < r[#[trigger] parents[k]]
    }

    /// The graph stays acyclic when a node with these edge lists is
    /// appended at id `nid`.
    pub open spec fn acyclic_with_node(self, nid: usize, deps: Seq<usize>, parents: Seq<usize>) -> bool {
        exists|r: Map<usize, nat>| self.append_rank_ok(r, nid, deps, parents)
    }
}

/// What `with_appended` builds: a well-formed graph whose edges are the old
/// ones plus the spokes of the new node, acyclic whenever some rank orders
/// the new node among its neighbours.
proof fn lemma_with_appended_props(
    g: GraphView,
    description: Seq<char>,
    node_type: NodeType,
    deps: Seq<usize>,
    parents: Seq<usize>,
)
    requires
        g.wf_links(),
        g.list_closed(deps),
        g.list_closed(parents),
        deps.no_duplicates(),
        parents.no_duplicates(),
        g.nodes.len() < usize::MAX,
    ensures
        ({
            let nid = g.nodes.len() as usize;
            let h = g.with_appended(description, node_type, deps, parents);
            &&& h.nodes.len() == g.nodes.len() + 1
            &&& forall|x: usize, y: usize| #[trigger] h.edge(x, y) <==> (g.edge(x, y) || (parents.contains(x) && y == nid) || (x == nid && deps.contains(y)))
            &&& h.wf_links()
            &&& (g.acyclic_with_node(nid, deps, parents) ==> h.acyclic())
        }),
{
    broadcast use vstd::seq_lib::group_seq_properties;

    let nid = g.nodes.len() as usize;
    let h = g.with_appended(description, node_type, deps, parents);
    assert(h.nodes[nid as int].deps == deps);
    assert(h.nodes[nid as int].parents == parents);

    // no existing list mentions the fresh id
    assert forall|i: int| 0 <= i < g.nodes.len() implies !(#[trigger] g.nodes[i]).deps.contains(nid)
        && !g.nodes[i].parents.contains(nid) by {
        if g.nodes[i].deps.contains(nid) {
            let k = choose|k: int| 0 <= k < g.nodes[i].deps.len() && g.nodes[i].deps[k] == nid;
        }
        if g.nodes[i].parents.contains(nid) {
            let k = choose|k: int|
                0 <= k < g.nodes[i].parents.len() && g.nodes[i].parents[k] == nid;
        }
    }

    assert forall|i: int| 0 <= i < g.nodes.len() implies {
        &&& (#[trigger] h.nodes[i]).id == g.nodes[i].id
        &&& (h.nodes[i].deps.contains(nid) <==> parents.contains(i as usize))
        &&& (h.nodes[i].parents.contains(nid) <==> deps.contains(i as usize))
        &&& forall|y: usize| y != nid ==> (#[trigger] h.nodes[i].deps.contains(y) <==> g.nodes[i].deps.contains(y))
        &&& forall|y: usize| y != nid ==> (#[trigger] h.nodes[i].parents.contains(y) <==> g.nodes[i].parents.contains(y))
    } by {
        if parents.contains(i as usize) {
            assert(h.nodes[i].deps == g.nodes[i].deps.push(nid));
            assert(h.nodes[i].deps.last() == nid);
            assert forall|y: usize| #[trigger] h.nodes[i].deps.contains(y) && y != nid implies g.nodes[i].deps.contains(y) by {
                let k = choose|k: int| 0 <= k < h.nodes[i].deps.len() && h.nodes[i].deps[k] == y;
                assert(g.nodes[i].deps[k] == y);
            }
            assert forall|y: usize| #[trigger] g.nodes[i].deps.contains(y) implies h.nodes[i].deps.contains(y) by {
                let k = choose|k: int| 0 <= k < g.nodes[i].deps.len() && g.nodes[i].deps[k] == y;
                assert(h.nodes[i].deps[k] == y);
            }
        } else {
            assert(h.nodes[i].deps == g.nodes[i].deps);
        }
        if deps.contains(i as usize) {
            assert(h.nodes[i].parents == g.nodes[i].parents.push(nid));
            assert(h.nodes[i].parents.last() == nid);
            assert forall|y: usize| #[trigger] h.nodes[i].parents.contains(y) && y != nid implies g.nodes[i].parents.contains(y) by {
                let k = choose|k: int|
                    0 <= k < h.nodes[i].parents.len() && h.nodes[i].parents[k] == y;
                assert(g.nodes[i].parents[k] == y);
            }
            assert forall|y: usize| #[trigger] g.nodes[i].parents.contains(y) implies h.nodes[i].parents.contains(y) by {
                let k = choose|k: int|
                    0 <= k < g.nodes[i].parents.len() && g.nodes[i].parents[k] == y;
                assert(h.nodes[i].parents[k] == y);
            }
        } else {
            assert(h.nodes[i].parents == g.nodes[i].parents);
        }
    }

    assert forall|x: usize, y: usize| #[trigger] h.edge(x, y) <==> (g.edge(x, y) || (
    parents.contains(x) && y == nid) || (x == nid && deps.contains(y))) by {
        if x < h.nodes.len() {
            if x == nid {
                assert(h.deps_of(x) == deps);
            } else {
                assert(h.deps_of(x) == h.nodes[x as int].deps);
                if y == nid {
                    assert(h.nodes[x as int].deps.contains(nid) <==> parents.contains(x));
                    assert(!g.edge(x, y));
                } else {
                    assert(h.nodes[x as int].deps.contains(y) <==> g.nodes[x as int].deps.contains(
                        y,
                    ));
                }
            }
        }
    }

    assert(h.wf_links()) by {
        assert forall|i: int| 0 <= i < h.nodes.len() implies (#[trigger] h.nodes[i]).id == i by {
            if i < g.nodes.len() {
                assert(g.nodes[i].id == i);
            }
        }
        assert forall|i: int| 0 <= i < h.nodes.len() implies {
            &&& h.list_closed((#[trigger] h.nodes[i]).deps)
            &&& h.list_closed(h.nodes[i].parents)
            &&& h.nodes[i].deps.no_duplicates()
            &&& h.nodes[i].parents.no_duplicates()
        } by {
            if i < g.nodes.len() {
                assert(g.list_closed(g.nodes[i].deps));
                assert(g.list_closed(g.nodes[i].parents));
                assert(g.nodes[i].deps.no_duplicates());
                assert(g.nodes[i].parents.no_duplicates());
                if parents.contains(i as usize) {
                    assert(h.nodes[i].deps == g.nodes[i].deps.push(nid));
                }
                if deps.contains(i as usize) {
                    assert(h.nodes[i].parents == g.nodes[i].parents.push(nid));
                }
            }
        }
        assert forall|x: usize, y: usize|
            h.in_range(x) && h.in_range(y) implies (h.deps_of(x).contains(y) <==> h.parents_of(
            y,
        ).contains(x)) by {
            assert(h.deps_of(x).contains(y) == h.edge(x, y));
            if y == nid {
                assert(h.parents_of(y) == parents);
                if x < g.nodes.len() {
                    assert(!g.edge(x, nid));
                    assert(!deps.contains(nid));
                }
            } else {
                assert(h.parents_of(y).contains(x) <==> (g.parents_of(y).contains(x) || (x == nid
                    && deps.contains(y))));
                if x < g.nodes.len() && y < g.nodes.len() {
                    assert(g.deps_of(x).contains(y) == g.parents_of(y).contains(x));
                }
            }
        }
    }

    if g.acyclic_with_node(nid, deps, parents) {
        let r = choose|r: Map<usize, nat>| g.append_rank_ok(r, nid, deps, parents);
        assert forall|x: usize, y: usize| #[trigger] h.edge(x, y) implies r[y] < r[x] by {
            if g.edge(x, y) {
            } else if parents.contains(x) && y == nid {
                let k = choose|k: int| 0 <= k < parents.len() && parents[k] == x;
            } else {
                let k = choose|k: int| 0 <= k < deps.len() && deps[k] == y;
            }
        }
        assert(h.rank_ok(r));
    }
}

impl Graph {
    /// Appends `n` at the next dense id and wires it on both sides. The
    /// caller warrants that the wiring cannot close a cycle; the ids it
    /// names are still checked, and a bad one fails the insertion with
    /// the graph untouched.
    #[verifier::loop_isolation(false)]
    pub(crate) fn add_node(&mut self, n: Node) -> (r: Result<usize, String>)
        requires
            old(self)@.valid(),
            n@.deps.no_duplicates(),
            n@.parents.no_duplicates(),
            old(self)@.list_closed(n@.deps) && old(self)@.list_closed(n@.parents) ==> old(
                self,
            )@.acyclic_with_node(
                old(self)@.nodes.len() as usize,
                n@.deps,
                n@.parents,
            ),
        ensures
            final(self)@.valid(),
            r is Ok <==> (old(self)@.list_closed(n@.deps) && old(self)@.list_closed(n@.parents)),
            r is Err ==> final(self)@ == old(self)@,
            r matches Ok(id) ==> id == old(self)@.node_count(),
            r is Ok ==> final(self)@ == old(self)@.with_appended(
                n@.description,
                n@.node_type,
                n@.deps,
                n@.parents,
            ),
    {
        let ghost g = self@;
        let id_to_return: usize = self.nodes.len();
        match self.validate_node(&n) {
            Err(message) => {
                return Err(message);
            },
            Ok(()) => {},
        }
        // wire the other end of every declared edge
        let mut k: usize = 0;
        while k < n.parents.len()
            invariant
                old(self)@ == g,
                k <= n@.parents.len(),
                g.valid(),
                g.list_closed(n@.parents),
                n@.parents.no_duplicates(),
                self@.nodes.len() == g.nodes.len(),
                self@.effective_root == g.effective_root,
                self@.config == g.config,
                forall|i: int| 0 <= i < g.nodes.len() ==> {
                    &&& (#[trigger] self@.nodes[i]).id == g.nodes[i].id
                    &&& self@.nodes[i].description == g.nodes[i].description
                    &&& self@.nodes[i].node_type == g.nodes[i].node_type
                    &&& self@.nodes[i].due_date == g.nodes[i].due_date
                    &&& self@.nodes[i].parents == g.nodes[i].parents
                    &&& self@.nodes[i].deps == (if n@.parents.take(k as int).contains(i as usize) {
                        g.nodes[i].deps.push(id_to_return)
                    } else {
                        g.nodes[i].deps
                    })
                },
            decreases n@.parents.len() - k,
        {
            let p = n.parents[k];
            proof {
                assert(n@.parents[k as int] == p);
                assert(p < g.nodes.len());
                assert(!n@.parents.take(k as int).contains(p)) by {
                    if n@.parents.take(k as int).contains(p) {
                        let t = choose|t: int| 0 <= t < k && n@.parents.take(k as int)[t] == p;
                        assert(n@.parents[t] == n@.parents[k as int]);
                    }
                }
            }
            self.push_dep(p, id_to_return);
            proof {
                assert(n@.parents.take(k + 1 as int) == n@.parents.take(k as int).push(p));
                assert forall|i: int| 0 <= i < g.nodes.len() implies (#[trigger] self@.nodes[i]).deps
                    == (if n@.parents.take(k + 1 as int).contains(i as usize) {
                    g.nodes[i].deps.push(id_to_return)
                } else {
                    g.nodes[i].deps
                }) by {
                    lemma_push_contains(n@.parents.take(k as int), p, i as usize);
                }
            }
            k = k + 1;
        }
        proof {
            assert(n@.parents.take(n@.parents.len() as int) == n@.parents);
        }
        let mut k: usize = 0;
        while k < n.deps.len()
            invariant
                old(self)@ == g,
                k <= n@.deps.len(),
                g.valid(),
                g.list_closed(n@.deps),
                g.list_closed(n@.parents),
                n@.deps.no_duplicates(),
                self@.nodes.len() == g.nodes.len(),
                self@.effective_root == g.effective_root,
                self@.config == g.config,
                forall|i: int| 0 <= i < g.nodes.len() ==> {
                    &&& (#[trigger] self@.nodes[i]).id == g.nodes[i].id
                    &&& self@.nodes[i].description == g.nodes[i].description
                    &&& self@.nodes[i].node_type == g.nodes[i].node_type
                    &&& self@.nodes[i].due_date == g.nodes[i].due_date
                    &&& self@.nodes[i].deps == (if n@.parents.contains(i as usize) {
                        g.nodes[i].deps.push(id_to_return)
                    } else {
                        g.nodes[i].deps
                    })
                    &&& self@.nodes[i].parents == (if n@.deps.take(k as int).contains(i as usize) {
                        g.nodes[i].parents.push(id_to_return)
                    } else {
                        g.nodes[i].parents
                    })
                },
            decreases n@.deps.len() - k,
        {
            let d = n.deps[k];
            proof {
                assert(n@.deps[k as int] == d);
                assert(d < g.nodes.len());
                assert(!n@.deps.take(k as int).contains(d)) by {
                    if n@.deps.take(k as int).contains(d) {
                        let t = choose|t: int| 0 <= t < k && n@.deps.take(k as int)[t] == d;
                        assert(n@.deps[t] == n@.deps[k as int]);
                    }
                }
            }
            self.push_parent(d, id_to_return);
            proof {
                assert(n@.deps.take(k + 1 as int) == n@.deps.take(k as int).push(d));
                assert forall|i: int| 0 <= i < g.nodes.len() implies (#[trigger] self@.nodes[i]).parents == (if n@.deps.take(k + 1 as int).contains(i as usize) {
                    g.nodes[i].parents.push(id_to_return)
                } else {
                    g.nodes[i].parents
                }) by {
                    lemma_push_contains(n@.deps.take(k as int), d, i as usize);
                }
            }
            k = k + 1;
        }
        let node_to_add = Node {
            id: id_to_return,
            description: n.description,
            node_type: n.node_type,
            due_date: None,
            deps: n.deps,
            parents: n.parents,
        };
        let ghost before_push = self@;
        let ghost appended = node_to_add@;
        self.nodes.push(node_to_add);
        proof {
            assert(vstd::std_specs::vec::spec_vec_len(&self.nodes) == self.nodes@.len());
            assert(g.nodes.len() < usize::MAX);
            assert(n@.parents.take(n@.parents.len() as int) == n@.parents);
            assert(n@.deps.take(n@.deps.len() as int) == n@.deps);
            let w = g.with_appended(n@.description, n@.node_type, n@.deps, n@.parents);
            assert(self@.nodes.len() == w.nodes.len());
            assert forall|i: int| 0 <= i < w.nodes.len() implies self@.nodes[i] == w.nodes[i] by {
                if i < g.nodes.len() {
                    assert(self@.nodes[i] == before_push.nodes[i]);
                    assert(self@.nodes[i] =~~= w.nodes[i]);
                } else {
                    assert(self@.nodes[i] == appended);
                    assert(self@.nodes[i] =~~= w.nodes[i]);
                }
            }
            assert(self@ =~~= w);
            lemma_with_appended_props(g, n@.description, n@.node_type, n@.deps, n@.parents);
        }
        Ok(id_to_return)
    }

    /// The parent that a plain insertion declares: `to` when given, else
    /// the effective root when one is configured, else none.
    pub open spec fn spec_declared_parent(g: GraphView, to: Option<usize>) -> Option<usize> {
        match to {
            Some(t) => Some(t),
            None => g.effective_root,
        }
    }

    /// The parent list a plain insertion wires up.
    pub open spec fn spec_declared_parents(g: GraphView, to: Option<usize>) -> Seq<usize> {
        match Self::spec_declared_parent(g, to) {
            Some(p) => seq![p],
            None => Seq::empty(),
        }
    }

    /// Appends a new leaf node. Its only parent is `to` when given, else
    /// the configured effective root, else none (a new top-level node).
    /// Fails exactly when the declared parent does not exist, and then
    /// changes nothing; on success returns the new id.
    pub fn add_node_to(&mut self, description: String, node_type: NodeType, to: Option<usize>) -> (r:
        Result<usize, String>)
        requires
            old(self)@.valid(),
        ensures
            final(self)@.valid(),
            r is Ok <==> (match Self::spec_declared_parent(old(self)@, to) {
                Some(p) => p < old(self)@.node_count(),
                None => true,
            }),
            r is Err ==> final(self)@ == old(self)@,
            r matches Ok(id) ==> id == old(self)@.node_count(),
            r is Ok ==> final(self)@ == old(self)@.with_appended(
                description@,
                node_type,
                Seq::empty(),
                Self::spec_declared_parents(old(self)@, to),
            ),
    {
        let ghost g = self@;
        let mut parents: Vec<usize> = Vec::new();
        match to {
            Some(val) => {
                parents.push(val);
            },
            None => {
                if let Some(effective_root) = self.effective_root {
                    parents.push(effective_root);
                }
            },
        }
        let n = Node {
            id: 0,
            description: description,
            node_type: node_type,
            due_date: None,
            deps: Vec::new(),
            parents: parents,
        };
        proof {
            assert(n@.parents =~= Self::spec_declared_parents(g, to));
            assert(n@.deps =~= Seq::<usize>::empty());
            assert(vstd::std_specs::vec::spec_vec_len(&self.nodes) == self.nodes@.len());
            assert(g.nodes.len() <= usize::MAX);
            // a node with no dependencies can always sit below its parents
            if g.list_closed(n@.deps) && g.list_closed(n@.parents) {
                let nid = g.nodes.len() as usize;
                let r0 = choose|r0: Map<usize, nat>| g.rank_ok(r0);
                let r1 = Map::<usize, nat>::new(
                    |x: usize| true,
                    |x: usize|
                        if x == nid {
                            0nat
                        } else {
                            (r0[x] + 1) as nat
                        },
                );
                assert forall|x: usize, y: usize| #[trigger] g.edge(x, y) implies r1[y] < r1[x] by {
                    assert(r0[y] < r0[x]);
                    assert(x < g.nodes.len());
                    assert(g.deps_of(x).contains(y));
                    let t = choose|t: int| 0 <= t < g.deps_of(x).len() && g.deps_of(x)[t] == y;
                    assert(y < g.nodes.len());
                }
                assert forall|k: int| 0 <= k < n@.parents.len() implies r1[nid] < r1[#[trigger] n@.parents[k]] by {
                    assert(n@.parents[k] < g.nodes.len());
                }
                assert(g.append_rank_ok(r1, nid, n@.deps, n@.parents));
            }
        }
        let r = self.add_node(n);
        proof {
            match Self::spec_declared_parent(g, to) {
                Some(p) => {
                    assert(n@.parents[0] == p);
                    if p < g.nodes.len() {
                        assert forall|t: int| 0 <= t < n@.parents.len() implies (#[trigger] n@.parents[t]) < g.nodes.len() by {
                            assert(n@.parents[t] == p);
                        }
                        assert(g.list_closed(n@.parents));
                    } else {
                        assert(!g.list_closed(n@.parents));
                    }
                },
                None => {
                    assert(n@.parents.len() == 0);
                    assert(g.list_closed(n@.parents));
                },
            }
        }
        r
    }

    /// Splices a new node between `above` and all of `above`'s current
    /// parents: edges `parent -> above` become `parent -> new -> above`.
    /// Fails exactly when `above` does not exist, and then changes
    /// nothing; on success returns the new id.
    #[verifier::loop_isolation(false)]
    pub fn add_node_above(&mut self, description: String, node_type: NodeType, above: usize) -> (r:
        Result<usize, String>)
        requires
            old(self)@.valid(),
        ensures
            final(self)@.valid(),
            r is Ok <==> above < old(self)@.node_count(),
            r is Err ==> final(self)@ == old(self)@,
            r matches Ok(id) ==> id == old(self)@.node_count(),
            r is Ok ==> ({
                let g = old(self)@;
                let h = final(self)@;
                let nid = g.nodes.len() as usize;
                &&& h.nodes.len() == g.nodes.len() + 1
                &&& h.effective_root == g.effective_root
                &&& h.config == g.config
                // the new node takes over the old parents and depends on `above`
                &&& h.nodes[nid as int].id == nid
                &&& h.nodes[nid as int].description == description@
                &&& h.nodes[nid as int].node_type == node_type
                &&& h.nodes[nid as int].due_date is None
                &&& h.nodes[nid as int].deps == seq![above]
                &&& h.nodes[nid as int].parents == g.parents_of(above)
                // `above` now hangs from the new node alone
                &&& h.nodes[above as int].parents == seq![nid]
                &&& h.nodes[above as int].deps == g.deps_of(above)
                // each old parent trades its edge to `above` for one to the new node
                &&& forall|i: int| 0 <= i < g.nodes.len() && i != above ==> {
                    &&& (#[trigger] h.nodes[i]).parents == g.nodes[i].parents
                    &&& h.nodes[i].deps == (if g.parents_of(above).contains(i as usize) {
                        keep_without(g.nodes[i].deps, above).push(nid)
                    } else {
                        g.nodes[i].deps
                    })
                }
                // descriptions, kinds and dates stay put
                &&& forall|i: int| 0 <= i < g.nodes.len() ==> {
                    &&& (#[trigger] h.nodes[i]).id == g.nodes[i].id
                    &&& h.nodes[i].description == g.nodes[i].description
                    &&& h.nodes[i].node_type == g.nodes[i].node_type
                    &&& h.nodes[i].due_date == g.nodes[i].due_date
                }
            }),
    {
        let ghost g = self@;
        if above >= self.nodes.len() {
            return Err(messages::node_missing(above));
        }
        let ghost nid = g.nodes.len() as usize;
        proof {
            // no node is its own parent in an acyclic graph
            assert(!g.parents_of(above).contains(above)) by {
                if g.parents_of(above).contains(above) {
                    assert(g.deps_of(above).contains(above));
                    assert(g.edge(above, above));
                    let r0 = choose|r0: Map<usize, nat>| g.rank_ok(r0);
                    assert(r0[above] < r0[above]);
                }
            }
            assert(g.parents_of(above) == self.nodes@[above as int]@.parents);
        }
        let parents = copy_ids(&self.nodes[above].parents);

        // unlink all references above node `above`
        let mut k: usize = 0;
        while k < parents.len()
            invariant
                old(self)@ == g,
                parents@ == g.parents_of(above),
                above < g.nodes.len(),
                nid == g.nodes.len() as usize,
                k <= parents@.len(),
                g.valid(),
                self@.valid(),
                self@.nodes.len() == g.nodes.len(),
                self@.effective_root == g.effective_root,
                self@.config == g.config,
                self@.nodes[above as int].parents == g.parents_of(above).skip(k as int),
                self@.nodes[above as int].deps == g.deps_of(above),
                forall|i: int| 0 <= i < g.nodes.len() ==> {
                    &&& (#[trigger] self@.nodes[i]).id == g.nodes[i].id
                    &&& self@.nodes[i].description == g.nodes[i].description
                    &&& self@.nodes[i].node_type == g.nodes[i].node_type
                    &&& self@.nodes[i].due_date == g.nodes[i].due_date
                },
                forall|i: int| 0 <= i < g.nodes.len() && i != above ==> (#[trigger] self@.nodes[i]).parents == g.nodes[i].parents,
                forall|i: int| 0 <= i < g.nodes.len() && i != above ==> (#[trigger] self@.nodes[i]).deps == (if g.parents_of(above).take(k as int).contains(i as usize) {
                    keep_without(g.nodes[i].deps, above)
                } else {
                    g.nodes[i].deps
                }),
            decreases parents@.len() - k,
        {
            let parent = parents[k];
            let ghost before = self@;
            proof {
                assert(g.parents_of(above)[k as int] == parent);
                assert(g.parents_of(above).contains(parent));
                assert(parent < g.nodes.len());
                assert(parent != above);
                assert(!g.parents_of(above).take(k as int).contains(parent)) by {
                    if g.parents_of(above).take(k as int).contains(parent) {
                        let t = choose|t: int|
                            0 <= t < k && g.parents_of(above).take(k as int)[t] == parent;
                        assert(g.parents_of(above)[t] == g.parents_of(above)[k as int]);
                        assert(!g.parents_of(above).no_duplicates());
                    }
                }
            }
            match self.unlink(&parent, &above) {
                Ok(()) => {},
                Err(_message) => {
                    // both ids were just checked against the node count
                    proof {
                        assert(false);
                    }
                    return Err(_message);
                },
            }
            proof {
                broadcast use vstd::seq_lib::group_seq_properties;

                let after = before.without_edge(parent, above);
                assert(self@ == after);
                // severing the front parent leaves the tail of the list
                assert(before.nodes[above as int].parents == g.parents_of(above).skip(k as int));
                let tail = g.parents_of(above).skip(k as int);
                assert(tail[0] == parent);
                lemma_keep_without_front(tail, parent);
                assert(tail.drop_first() =~= g.parents_of(above).skip(k + 1 as int));
                assert(after.nodes[above as int].parents == keep_without(tail, parent));
                assert(self@.nodes[above as int].parents == g.parents_of(above).skip(k + 1 as int));
                assert(before.nodes[parent as int].deps == g.nodes[parent as int].deps);
                assert(self@.nodes[parent as int].deps == keep_without(
                    g.nodes[parent as int].deps,
                    above,
                ));
                assert(g.parents_of(above).take(k + 1 as int) == g.parents_of(above).take(
                    k as int,
                ).push(parent));
                assert forall|i: int|
                    0 <= i < g.nodes.len() && i != above implies (#[trigger] self@.nodes[i]).deps
                    == (if g.parents_of(above).take(k + 1 as int).contains(i as usize) {
                    keep_without(g.nodes[i].deps, above)
                } else {
                    g.nodes[i].deps
                }) by {
                    if i != parent && g.parents_of(above).take(k + 1 as int).contains(i as usize)
                        != g.parents_of(above).take(k as int).contains(i as usize) {
                        assert(false);
                    }
                }
            }
            k = k + 1;
        }
        let ghost g1 = self@;
        proof {
            assert(g.parents_of(above).skip(g.parents_of(above).len() as int)
                =~= Seq::<usize>::empty());
            assert(g.parents_of(above).take(g.parents_of(above).len() as int) == g.parents_of(
                above,
            ));
        }

        let mut deps: Vec<usize> = Vec::new();
        deps.push(above);
        let n = Node {
            id: 0,
            description: description,
            node_type: node_type,
            due_date: None,
            deps: deps,
            parents: parents,
        };
        proof {
            assert(n@.deps =~= seq![above]);
            assert(n@.parents == g.parents_of(above));
            assert(g1.list_closed(n@.deps)) by {
                assert forall|t: int| 0 <= t < n@.deps.len() implies (#[trigger] n@.deps[t])
                    < g1.nodes.len() by {
                    assert(n@.deps[t] == above);
                }
            }
            assert(g1.list_closed(n@.parents)) by {
                assert forall|t: int| 0 <= t < n@.parents.len() implies (#[trigger] n@.parents[t])
                    < g1.nodes.len() by {
                    assert(g.parents_of(above).contains(n@.parents[t]));
                    assert(g.refs_closed());
                    assert(g.list_closed(g.nodes[above as int].parents));
                }
            }
            // order the new node between `above` and the old parents
            let r0 = choose|r0: Map<usize, nat>| g.rank_ok(r0);
            assert forall|x: usize, y: usize| #[trigger] g1.edge(x, y) implies g.edge(x, y) by {
                if x == above {
                    assert(g1.deps_of(x) == g.deps_of(x));
                } else if g.parents_of(above).contains(x) {
                    assert(g1.deps_of(x) == keep_without(g.nodes[x as int].deps, above));
                    lemma_keep_without(g.nodes[x as int].deps, above);
                    assert(g.nodes[x as int].deps.contains(y));
                } else {
                    assert(g1.deps_of(x) == g.deps_of(x));
                }
            }
            let r1 = Map::<usize, nat>::new(
                |x: usize| true,
                |x: usize|
                    if x == nid {
                        (2 * r0[above] + 1) as nat
                    } else {
                        (2 * r0[x]) as nat
                    },
            );
            assert forall|x: usize, y: usize| #[trigger] g1.edge(x, y) implies r1[y] < r1[x] by {
                assert(g.edge(x, y));
                assert(r0[y] < r0[x]);
                assert(x < g.nodes.len());
                assert(g.deps_of(x).contains(y));
                let t = choose|t: int| 0 <= t < g.deps_of(x).len() && g.deps_of(x)[t] == y;
                assert(y < g.nodes.len());
            }
            assert forall|t: int| 0 <= t < n@.deps.len() implies r1[#[trigger] n@.deps[t]]
                < r1[nid] by {
                assert(n@.deps[t] == above);
            }
            assert forall|t: int| 0 <= t < n@.parents.len() implies r1[nid] < r1[#[trigger] n@.parents[t]] by {
                let p = n@.parents[t];
                assert(g.parents_of(above).contains(p));
                assert(g.deps_of(p).contains(above));
                assert(g.edge(p, above));
                assert(r0[above] < r0[p]);
                assert(p < g.nodes.len());
                assert(p != nid);
            }
            assert(g1.append_rank_ok(r1, nid, n@.deps, n@.parents));
        }
        let id = match self.add_node(n) {
            Ok(id) => id,
            Err(message) => {
                proof {
                    assert(false);
                }
                return Err(message);
            },
        };
        proof {
            let h = self@;
            let w = g1.with_appended(description@, node_type, seq![above], g.parents_of(above));
            assert(h == w);
            assert(h.nodes[nid as int].deps == seq![above]);
            assert(h.nodes[nid as int].parents == g.parents_of(above));
            assert(h.nodes[above as int].parents =~= seq![nid]) by {
                assert(seq![above][0] == above);
                assert(seq![above].contains(above));
                assert(w.nodes[above as int].parents == g1.nodes[above as int].parents.push(nid));
                assert(g1.nodes[above as int].parents =~= Seq::<usize>::empty());
            }
            assert(h.nodes[above as int].deps == g.deps_of(above)) by {
                assert(!g.parents_of(above).contains(above));
                assert(w.nodes[above as int].deps == g1.nodes[above as int].deps);
            }
            assert forall|i: int| 0 <= i < g.nodes.len() && i != above implies {
                &&& (#[trigger] h.nodes[i]).parents == g.nodes[i].parents
                &&& h.nodes[i].deps == (if g.parents_of(above).contains(i as usize) {
                    keep_without(g.nodes[i].deps, above).push(nid)
                } else {
                    g.nodes[i].deps
                })
            } by {
                assert(!seq![above].contains(i as usize)) by {
                    if seq![above].contains(i as usize) {
                        let t = choose|t: int| 0 <= t < 1 && seq![above][t] == i as usize;
                    }
                }
                assert(h.nodes[i].parents == g1.nodes[i].parents);
            }
        }
        Ok(id)
    }
}

/// When a list's only occurrence of `x` sits at the front, removing `x`
/// just drops the front.
proof fn lemma_keep_without_front(l: Seq<usize>, x: usize)
    requires
        l.len() > 0,
        l[0] == x,
        !l.drop_first().contains(x),
    ensures
        keep_without(l, x) == l.drop_first(),
    decreases l.len(),
{
    broadcast use vstd::seq_lib::group_seq_properties;

    if l.len() == 1 {
        assert(l.last() == x);
        assert(keep_without(l, x) == keep_without(l.drop_last(), x));
        assert(l.drop_last() =~= Seq::<usize>::empty());
        assert(keep_without(Seq::<usize>::empty(), x) =~= Seq::<usize>::empty());
        assert(l.drop_first() =~= Seq::<usize>::empty());
    } else {
        assert(l.last() != x) by {
            assert(l.drop_first()[l.len() - 2] == l.last());
            assert(l.drop_first().contains(l.last()));
        }
        let m = l.drop_last();
        assert(m[0] == x);
        assert(!m.drop_first().contains(x)) by {
            if m.drop_first().contains(x) {
                let t = choose|t: int| 0 <= t < m.drop_first().len() && m.drop_first()[t] == x;
                assert(l.drop_first()[t] == x);
            }
        }
        lemma_keep_without_front(m, x);
        assert(keep_without(l, x) == keep_without(m, x).push(l.last()));
        assert(keep_without(l, x) =~= l.drop_first()) by {
            assert(m.drop_first().push(l.last()) =~= l.drop_first());
        }
    }
}

} // verus!
