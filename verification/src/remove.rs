//! Deletion: marking nodes for removal (recursively through their
//! dependency chains when asked), compacting the collection, and
//! renumbering every surviving id.

use vstd::prelude::*;

use crate::graph::{keep_without, Graph, GraphView};
use crate::messages;
use crate::node::{copy_ids, Node, NodeView};

verus! {

/// `l` with every id in `m` removed, order kept.
pub open spec fn strip_marked(l: Seq<usize>, m: Set<usize>) -> Seq<usize>
    decreases l.len(),
{
    if l.len() == 0 {
        Seq::empty()
    } else if m.contains(l.last()) {
        strip_marked(l.drop_last(), m)
    } else {
        strip_marked(l.drop_last(), m).push(l.last())
    }
}

/// The ids below `n` that `m` does not mark, in increasing order.
pub open spec fn survivors(n: int, m: Set<usize>) -> Seq<usize>
    decreases n,
{
    if n <= 0 {
        Seq::empty()
    } else if m.contains((n - 1) as usize) {
        survivors(n - 1, m)
    } else {
        survivors(n - 1, m).push((n - 1) as usize)
    }
}

/// The id that the survivor `x` is renumbered to: the count of surviving
/// ids below it.
pub open spec fn compact_id(x: usize, m: Set<usize>) -> usize {
    survivors(x as int, m).len() as usize
}

/// `l` with marked ids dropped and the survivors renumbered.
pub open spec fn compact_list(l: Seq<usize>, m: Set<usize>) -> Seq<usize>
    decreases l.len(),
{
    if l.len() == 0 {
        Seq::empty()
    } else if m.contains(l.last()) {
        compact_list(l.drop_last(), m)
    } else {
        compact_list(l.drop_last(), m).push(compact_id(l.last(), m))
    }
}

impl GraphView {
    /// `m` is closed under dependency edges.
    pub open spec fn dep_closed(self, m: Set<usize>) -> bool {
        forall|b: usize, y: usize|
            #![trigger m.contains(b), self.edge(b, y)]
            m.contains(b) && self.edge(b, y) ==> m.contains(y)
    }

    /// Whether the removal request `req` dooms node `b`: some requested,
    /// existing id reaches it through dependencies (or names it exactly,
    /// when not recursing).
    pub open spec fn doomed(self, req: Seq<usize>, recurse: bool, b: usize) -> bool {
        b < self.nodes.len() && exists|a: usize|
            #![trigger req.contains(a)]
            req.contains(a) && a < self.nodes.len() && (if recurse {
                self.reaches(a, b)
            } else {
                a == b
            })
    }

    /// Everything the removal request dooms.
    pub open spec fn doomed_set(self, req: Seq<usize>, recurse: bool) -> Set<usize> {
        Set::new(|b: usize| self.doomed(req, recurse, b))
    }

    /// The graph after dropping every node in `m` and renumbering: the
    /// survivors keep their order, each gets its position as its id, and
    /// every surviving list entry is renumbered the same way.
    pub open spec fn compacted(self, m: Set<usize>) -> GraphView {
        let keep = survivors(self.nodes.len() as int, m);
        GraphView {
            effective_root: self.effective_root,
            config: self.config,
            nodes: Seq::new(
                keep.len(),
                |k: int|
                    {
                        let nd = self.nodes[keep[k] as int];
                        NodeView {
                            id: k as usize,
                            description: nd.description,
                            node_type: nd.node_type,
                            due_date: nd.due_date,
                            deps: compact_list(nd.deps, m),
                            parents: compact_list(nd.parents, m),
                        }
                    },
            ),
        }
    }

    /// The shape the graph is in while a batch removal is marking nodes:
    /// relative to the starting state `g`, every reference to a marked
    /// node is stripped, marked nodes carry the sentinel id (the node
    /// count), and everything else is untouched.
    pub open spec fn marking_state(self, g: GraphView, m: Set<usize>) -> bool {
        &&& self.nodes.len() == g.nodes.len()
        &&& self.effective_root == g.effective_root
        &&& self.config == g.config
        &&& forall|i: int| 0 <= i < g.nodes.len() ==> {
            &&& (#[trigger] self.nodes[i]).description == g.nodes[i].description
            &&& self.nodes[i].node_type == g.nodes[i].node_type
            &&& self.nodes[i].due_date == g.nodes[i].due_date
            &&& self.nodes[i].id == (if m.contains(i as usize) {
                g.nodes.len() as usize
            } else {
                g.nodes[i].id
            })
            &&& self.nodes[i].deps == strip_marked(g.nodes[i].deps, m)
            &&& self.nodes[i].parents == strip_marked(g.nodes[i].parents, m)
        }
    }
}

/// What `strip_marked` keeps: the unmarked entries, in order, without new
/// duplicates; a list with nothing marked is untouched.
pub proof fn lemma_strip_marked(l: Seq<usize>, m: Set<usize>)
    ensures
        forall|y: usize| #[trigger] strip_marked(l, m).contains(y) <==> (l.contains(y)
            && !m.contains(y)),
        l.no_duplicates() ==> strip_marked(l, m).no_duplicates(),
        strip_marked(l, m).len() <= l.len(),
        (forall|k: int| 0 <= k < l.len() ==> !m.contains(#[trigger] l[k])) ==> strip_marked(l, m)
            == l,
    decreases l.len(),
{
    broadcast use vstd::seq_lib::group_seq_properties;

    if l.len() == 0 {
        assert(forall|y: usize| !strip_marked(l, m).contains(y) && !l.contains(y));
    } else {
        let rest = l.drop_last();
        lemma_strip_marked(rest, m);
        assert(l == rest.push(l.last()));
        assert forall|y: usize| #[trigger] strip_marked(l, m).contains(y) implies (l.contains(y)
            && !m.contains(y)) by {
            if !m.contains(l.last()) && strip_marked(l, m).contains(y) {
                if y != l.last() {
                    let k = choose|k: int|
                        0 <= k < strip_marked(l, m).len() && strip_marked(l, m)[k] == y;
                    if k < strip_marked(rest, m).len() {
                        assert(strip_marked(rest, m).contains(y));
                    }
                }
            }
        }
        assert forall|y: usize| l.contains(y) && !m.contains(y) implies strip_marked(l, m).contains(
            y,
        ) by {
            if y == l.last() {
                assert(strip_marked(l, m).last() == y);
            } else {
                let k = choose|k: int| 0 <= k < l.len() && l[k] == y;
                assert(rest[k] == y);
                assert(strip_marked(rest, m).contains(y));
                if !m.contains(l.last()) {
                    let k2 = choose|k2: int|
                        0 <= k2 < strip_marked(rest, m).len() && strip_marked(rest, m)[k2] == y;
                    assert(strip_marked(l, m)[k2] == y);
                }
            }
        }
        if l.no_duplicates() && !m.contains(l.last()) {
            assert(!rest.contains(l.last()));
            assert(!strip_marked(rest, m).contains(l.last()));
        }
        if forall|k: int| 0 <= k < l.len() ==> !m.contains(#[trigger] l[k]) {
            assert(!m.contains(l.last()));
            assert forall|k: int| 0 <= k < rest.len() implies !m.contains(#[trigger] rest[k]) by {
                assert(rest[k] == l[k]);
            }
            assert(strip_marked(l, m) == rest.push(l.last()));
        }
    }
}

/// Marking one more id strips exactly that id from an already-stripped
/// list.
pub proof fn lemma_strip_insert(l: Seq<usize>, m: Set<usize>, x: usize)
    ensures
        keep_without(strip_marked(l, m), x) == strip_marked(l, m.insert(x)),
    decreases l.len(),
{
    if l.len() == 0 {
    } else {
        let rest = l.drop_last();
        lemma_strip_insert(rest, m, x);
        if m.contains(l.last()) {
        } else if l.last() == x {
            assert(keep_without(strip_marked(l, m), x) == keep_without(
                strip_marked(rest, m).push(x),
                x,
            ));
            assert(strip_marked(rest, m).push(x).last() == x);
            assert(strip_marked(rest, m).push(x).drop_last() == strip_marked(rest, m));
        } else {
            assert(strip_marked(l, m) == strip_marked(rest, m).push(l.last()));
            assert(strip_marked(l, m).drop_last() == strip_marked(rest, m));
            assert(keep_without(strip_marked(l, m), x) == keep_without(
                strip_marked(rest, m),
                x,
            ).push(l.last()));
        }
    }
}

/// Stripping nothing changes nothing.
pub proof fn lemma_strip_empty(l: Seq<usize>)
    ensures
        strip_marked(l, Set::empty()) == l,
{
    lemma_strip_marked(l, Set::empty());
    assert(forall|k: int| 0 <= k < l.len() ==> !Set::<usize>::empty().contains(#[trigger] l[k]));
}

/// The survivor list: increasing, duplicate-free, holding exactly the
/// unmarked ids below `n`.
pub proof fn lemma_survivors(n: int, m: Set<usize>)
    requires
        0 <= n <= usize::MAX + 1,
    ensures
        survivors(n, m).len() <= n,
        forall|k: int| 0 <= k < survivors(n, m).len() ==> (#[trigger] survivors(n, m)[k]) < n
            && !m.contains(survivors(n, m)[k]),
        forall|k1: int, k2: int| 0 <= k1 < k2 < survivors(n, m).len() ==> survivors(n, m)[k1]
            < survivors(n, m)[k2],
        survivors(n, m).no_duplicates(),
        forall|x: usize| #[trigger] survivors(n, m).contains(x) <==> (x < n && !m.contains(x)),
    decreases n,
{
    broadcast use vstd::seq_lib::group_seq_properties;

    if n == 0 {
        assert(forall|x: usize| !survivors(0, m).contains(x));
    } else {
        lemma_survivors(n - 1, m);
        let prev = survivors(n - 1, m);
        let cur = survivors(n, m);
        if m.contains((n - 1) as usize) {
            assert forall|x: usize| #[trigger] cur.contains(x) implies (x < n && !m.contains(
                x,
            )) by {}
            assert forall|x: usize| x < n && !m.contains(x) implies cur.contains(x) by {
                assert(x != (n - 1) as usize);
                assert(prev.contains(x));
            }
        } else {
            assert(cur == prev.push((n - 1) as usize));
            crate::graph::lemma_push_contains(prev, (n - 1) as usize, (n - 1) as usize);
            assert forall|x: usize| #[trigger] cur.contains(x) implies (x < n && !m.contains(
                x,
            )) by {
                crate::graph::lemma_push_contains(prev, (n - 1) as usize, x);
            }
            assert forall|x: usize| x < n && !m.contains(x) implies cur.contains(x) by {
                crate::graph::lemma_push_contains(prev, (n - 1) as usize, x);
                if x != (n - 1) as usize {
                    assert(prev.contains(x));
                }
            }
            assert(!prev.contains((n - 1) as usize));
        }
    }
}

/// Longer prefixes of the id range only extend the survivor list.
pub proof fn lemma_survivors_extend(n1: int, n2: int, m: Set<usize>)
    requires
        0 <= n1 <= n2,
        n2 <= usize::MAX + 1,
    ensures
        survivors(n1, m).len() <= survivors(n2, m).len(),
        forall|k: int| 0 <= k < survivors(n1, m).len() ==> #[trigger] survivors(n2, m)[k]
            == survivors(n1, m)[k],
    decreases n2 - n1,
{
    if n1 < n2 {
        lemma_survivors_extend(n1, n2 - 1, m);
    }
}

/// Each survivor sits at position `compact_id` of the survivor list.
pub proof fn lemma_survivors_index(n: int, m: Set<usize>, x: usize)
    requires
        0 <= x < n <= usize::MAX + 1,
        !m.contains(x),
    ensures
        (compact_id(x, m) as int) < survivors(n, m).len(),
        survivors(n, m)[compact_id(x, m) as int] == x,
{
    lemma_survivors(x as int, m);
    assert(survivors(x as int + 1, m) == survivors(x as int, m).push(x));
    assert(survivors(x as int + 1, m)[compact_id(x, m) as int] == x);
    lemma_survivors_extend(x as int + 1, n, m);
}

/// Renumbering keeps the order of survivors, so distinct survivors get
/// distinct new ids.
pub proof fn lemma_compact_id_monotone(m: Set<usize>, x1: usize, x2: usize)
    requires
        x1 < x2,
        !m.contains(x1),
    ensures
        compact_id(x1, m) < compact_id(x2, m),
{
    lemma_survivors(x1 as int, m);
    lemma_survivors(x2 as int, m);
    assert(survivors(x1 as int + 1, m) == survivors(x1 as int, m).push(x1));
    lemma_survivors_extend(x1 as int + 1, x2 as int, m);
}

/// The compacted list is the stripped list, renumbered entry by entry.
pub proof fn lemma_compact_list(l: Seq<usize>, m: Set<usize>)
    ensures
        compact_list(l, m).len() == strip_marked(l, m).len(),
        forall|k: int| 0 <= k < compact_list(l, m).len() ==> #[trigger] compact_list(l, m)[k]
            == compact_id(strip_marked(l, m)[k], m),
    decreases l.len(),
{
    if l.len() == 0 {
    } else {
        lemma_compact_list(l.drop_last(), m);
    }
}

/// A one-node path witnesses that every node reaches itself.
pub proof fn lemma_reaches_self(g: GraphView, a: usize)
    ensures
        g.reaches(a, a),
{
    let p = seq![a];
    assert(p.first() == a && p.last() == a);
    assert(g.dep_path(p));
}

/// Following one more dependency edge extends reachability.
pub proof fn lemma_reaches_step(g: GraphView, a: usize, w: usize, y: usize)
    requires
        g.reaches(a, w),
        g.edge(w, y),
    ensures
        g.reaches(a, y),
{
    let p = choose|p: Seq<usize>| g.dep_path(p) && p.first() == a && p.last() == w;
    let q = p.push(y);
    assert(g.dep_path(q)) by {
        assert forall|k: int| 0 <= k < q.len() - 1 implies g.edge(#[trigger] q[k], q[k + 1]) by {
            if k < p.len() - 1 {
                assert(q[k] == p[k] && q[k + 1] == p[k + 1]);
            } else {
                assert(q[k] == p.last() && q[k + 1] == y);
            }
        }
    }
    assert(q.first() == a && q.last() == y);
}

/// A dependency-closed set that holds the start of a chain holds its end.
pub proof fn lemma_reaches_closed(g: GraphView, m: Set<usize>, a: usize, b: usize)
    requires
        g.reaches(a, b),
        m.contains(a),
        g.dep_closed(m),
    ensures
        m.contains(b),
{
    let p = choose|p: Seq<usize>| g.dep_path(p) && p.first() == a && p.last() == b;
    lemma_path_in_closed(g, m, p);
}

proof fn lemma_path_in_closed(g: GraphView, m: Set<usize>, p: Seq<usize>)
    requires
        g.dep_path(p),
        m.contains(p.first()),
        g.dep_closed(m),
    ensures
        m.contains(p.last()),
    decreases p.len(),
{
    if p.len() > 1 {
        assert(g.edge(p[0], p[1]));
        assert(m.contains(p[1]));
        let q = p.drop_first();
        assert(g.dep_path(q)) by {
            assert forall|k: int| 0 <= k < q.len() - 1 implies g.edge(#[trigger] q[k], q[k + 1]) by {
                assert(q[k] == p[k + 1] && q[k + 1] == p[k + 2]);
            }
        }
        lemma_path_in_closed(g, m, q);
    }
}

/// Compaction of a well-formed acyclic graph is again well-formed and
/// acyclic, and its edges are exactly the surviving old edges, renumbered.
pub proof fn lemma_compacted_valid(g: GraphView, m: Set<usize>)
    requires
        g.valid(),
        g.nodes.len() <= usize::MAX,
    ensures
        ({
            let keep = survivors(g.nodes.len() as int, m);
            let h = g.compacted(m);
            &&& h.nodes.len() == keep.len()
            &&& (forall|k1: usize, k2: usize| #[trigger] h.edge(k1, k2) <==> ((k1 as int)
                < keep.len() && (k2 as int) < keep.len() && g.edge(
                keep[k1 as int],
                keep[k2 as int],
            )))
            &&& h.valid()
        }),
{
    broadcast use vstd::seq_lib::group_seq_properties;

    let n = g.nodes.len() as int;
    let keep = survivors(n, m);
    let h = g.compacted(m);
    lemma_survivors(n, m);

    // each compacted list mirrors the survivors among the old entries
    assert forall|i: int| 0 <= i < keep.len() implies {
        &&& (#[trigger] h.nodes[i]).deps.len() == strip_marked(g.nodes[keep[i] as int].deps, m).len()
        &&& h.nodes[i].parents.len() == strip_marked(g.nodes[keep[i] as int].parents, m).len()
    } by {
        lemma_compact_list(g.nodes[keep[i] as int].deps, m);
        lemma_compact_list(g.nodes[keep[i] as int].parents, m);
    }

    assert forall|k1: usize, k2: usize| #[trigger] h.edge(k1, k2) <==> ((k1 as int) < keep.len()
        && (k2 as int) < keep.len() && g.edge(keep[k1 as int], keep[k2 as int])) by {
        if (k1 as int) < keep.len() {
            let o1 = keep[k1 as int];
            let l = g.nodes[o1 as int].deps;
            lemma_compact_list(l, m);
            lemma_strip_marked(l, m);
            assert(o1 < g.nodes.len() && !m.contains(o1));
            assert(h.deps_of(k1) == compact_list(l, m));
            // forward: a compacted entry names the position of an old entry
            if h.deps_of(k1).contains(k2) {
                let t = choose|t: int| 0 <= t < compact_list(l, m).len() && compact_list(l, m)[t] == k2;
                let e = strip_marked(l, m)[t];
                assert(strip_marked(l, m).contains(e));
                assert(l.contains(e) && !m.contains(e));
                assert(g.deps_of(o1).contains(e));
                let u = choose|u: int| 0 <= u < l.len() && l[u] == e;
                assert(g.list_closed(g.nodes[o1 as int].deps));
                assert(e < g.nodes.len());
                lemma_survivors_index(n, m, e);
                assert(keep[compact_id(e, m) as int] == e);
                assert(k2 == compact_id(e, m));
                assert((k2 as int) < keep.len());
                assert(keep[k2 as int] == e);
                assert(g.edge(o1, e));
            }
            // backward: a surviving old edge shows up renumbered
            if (k2 as int) < keep.len() && g.edge(keep[k1 as int], keep[k2 as int]) {
                let o2 = keep[k2 as int];
                assert(l.contains(o2));
                assert(!m.contains(o2));
                assert(strip_marked(l, m).contains(o2));
                let t = choose|t: int|
                    0 <= t < strip_marked(l, m).len() && strip_marked(l, m)[t] == o2;
                assert(compact_list(l, m)[t] == compact_id(o2, m));
                lemma_survivors_index(n, m, o2);
                // positions in the increasing survivor list are unique
                assert(keep[compact_id(o2, m) as int] == o2);
                assert(keep.no_duplicates());
                assert(compact_id(o2, m) == k2) by {
                    if compact_id(o2, m) != k2 {
                        assert(keep[compact_id(o2, m) as int] == keep[k2 as int]);
                    }
                }
                assert(compact_list(l, m).contains(compact_id(o2, m)));
            }
        }
    }

    assert(h.wf_links()) by {
        assert forall|i: int| 0 <= i < h.nodes.len() implies (#[trigger] h.nodes[i]).id == i by {}
        assert forall|i: int| 0 <= i < h.nodes.len() implies {
            &&& h.list_closed((#[trigger] h.nodes[i]).deps)
            &&& h.list_closed(h.nodes[i].parents)
            &&& h.nodes[i].deps.no_duplicates()
            &&& h.nodes[i].parents.no_duplicates()
        } by {
            let o = keep[i];
            assert(o < g.nodes.len() && !m.contains(o));
            let ld = g.nodes[o as int].deps;
            let lp = g.nodes[o as int].parents;
            lemma_compact_list(ld, m);
            lemma_compact_list(lp, m);
            lemma_strip_marked(ld, m);
            lemma_strip_marked(lp, m);
            assert(g.list_closed(ld));
            assert(g.list_closed(lp));
            assert(ld.no_duplicates());
            assert(lp.no_duplicates());
            // closed: every renumbered entry is a survivor position
            assert forall|k: int| 0 <= k < h.nodes[i].deps.len() implies (#[trigger] h.nodes[i].deps[k]) < h.nodes.len() by {
                let e = strip_marked(ld, m)[k];
                assert(strip_marked(ld, m).contains(e));
                assert(ld.contains(e) && !m.contains(e));
                let u = choose|u: int| 0 <= u < ld.len() && ld[u] == e;
                assert(e < g.nodes.len());
                lemma_survivors_index(n, m, e);
                assert(h.nodes[i].deps[k] == compact_id(e, m));
            }
            assert forall|k: int| 0 <= k < h.nodes[i].parents.len() implies (#[trigger] h.nodes[i].parents[k]) < h.nodes.len() by {
                let e = strip_marked(lp, m)[k];
                assert(strip_marked(lp, m).contains(e));
                assert(lp.contains(e) && !m.contains(e));
                let u = choose|u: int| 0 <= u < lp.len() && lp[u] == e;
                assert(e < g.nodes.len());
                lemma_survivors_index(n, m, e);
                assert(h.nodes[i].parents[k] == compact_id(e, m));
            }
            // no duplicates: renumbering distinct survivors stays distinct
            assert forall|k1: int, k2: int|
                0 <= k1 < k2 < h.nodes[i].deps.len() implies h.nodes[i].deps[k1] != h.nodes[i].deps[k2] by {
                let e1 = strip_marked(ld, m)[k1];
                let e2 = strip_marked(ld, m)[k2];
                assert(strip_marked(ld, m).no_duplicates());
                assert(e1 != e2);
                assert(strip_marked(ld, m).contains(e1) && strip_marked(ld, m).contains(e2));
                assert(h.nodes[i].deps[k1] == compact_id(e1, m));
                assert(h.nodes[i].deps[k2] == compact_id(e2, m));
                if e1 < e2 {
                    lemma_compact_id_monotone(m, e1, e2);
                } else {
                    lemma_compact_id_monotone(m, e2, e1);
                }
            }
            assert forall|k1: int, k2: int|
                0 <= k1 < k2 < h.nodes[i].parents.len() implies h.nodes[i].parents[k1]
                != h.nodes[i].parents[k2] by {
                let e1 = strip_marked(lp, m)[k1];
                let e2 = strip_marked(lp, m)[k2];
                assert(strip_marked(lp, m).no_duplicates());
                assert(e1 != e2);
                assert(strip_marked(lp, m).contains(e1) && strip_marked(lp, m).contains(e2));
                assert(h.nodes[i].parents[k1] == compact_id(e1, m));
                assert(h.nodes[i].parents[k2] == compact_id(e2, m));
                if e1 < e2 {
                    lemma_compact_id_monotone(m, e1, e2);
                } else {
                    lemma_compact_id_monotone(m, e2, e1);
                }
            }
        }
        assert forall|x: usize, y: usize|
            h.in_range(x) && h.in_range(y) implies (h.deps_of(x).contains(y) <==> h.parents_of(
            y,
        ).contains(x)) by {
            let o1 = keep[x as int];
            let o2 = keep[y as int];
            assert(h.deps_of(x).contains(y) == h.edge(x, y));
            assert(h.edge(x, y) <==> g.edge(o1, o2));
            assert(g.deps_of(o1).contains(o2) == g.parents_of(o2).contains(o1));
            // mirror the edge characterization on the parent side
            let lp = g.nodes[o2 as int].parents;
            lemma_compact_list(lp, m);
            lemma_strip_marked(lp, m);
            assert(h.parents_of(y) == compact_list(lp, m));
            if h.parents_of(y).contains(x) {
                let t = choose|t: int| 0 <= t < compact_list(lp, m).len() && compact_list(lp, m)[t] == x;
                let e = strip_marked(lp, m)[t];
                assert(strip_marked(lp, m).contains(e));
                assert(lp.contains(e) && !m.contains(e));
                let u = choose|u: int| 0 <= u < lp.len() && lp[u] == e;
                assert(g.list_closed(g.nodes[o2 as int].parents));
                assert(e < g.nodes.len());
                lemma_survivors_index(n, m, e);
                assert(keep[compact_id(e, m) as int] == e);
                assert(x == compact_id(e, m));
                assert(keep[x as int] == e);
                assert(g.parents_of(o2).contains(o1));
            }
            if g.parents_of(o2).contains(o1) && !h.parents_of(y).contains(x) {
                assert(!m.contains(o1));
                assert(strip_marked(lp, m).contains(o1));
                let t = choose|t: int|
                    0 <= t < strip_marked(lp, m).len() && strip_marked(lp, m)[t] == o1;
                assert(compact_list(lp, m)[t] == compact_id(o1, m));
                lemma_survivors_index(n, m, o1);
                assert(keep.no_duplicates());
                assert(compact_id(o1, m) == x) by {
                    if compact_id(o1, m) != x {
                        assert(keep[compact_id(o1, m) as int] == keep[x as int]);
                    }
                }
                assert(compact_list(lp, m).contains(x));
                assert(false);
            }
        }
    }

    // ranks carry over along the renumbering
    let r0 = choose|r0: Map<usize, nat>| g.rank_ok(r0);
    let r1 = Map::<usize, nat>::new(
        |x: usize| true,
        |x: usize|
            if (x as int) < keep.len() {
                r0[keep[x as int]]
            } else {
                0nat
            },
    );
    assert forall|x: usize, y: usize| #[trigger] h.edge(x, y) implies r1[y] < r1[x] by {
        assert(g.edge(keep[x as int], keep[y as int]));
    }
    assert(h.rank_ok(r1));
}

/// Rewrites every entry of `v` through `table`.
fn apply_table(v: &mut Vec<usize>, table: &Vec<usize>)
    requires
        forall|k: int| 0 <= k < old(v)@.len() ==> (#[trigger] old(v)@[k]) < table@.len(),
    ensures
        final(v)@.len() == old(v)@.len(),
        forall|k: int| 0 <= k < final(v)@.len() ==> #[trigger] final(v)@[k] == table@[old(v)@[k] as int],
{
    let mut r: Vec<usize> = Vec::new();
    let mut i: usize = 0;
    while i < v.len()
        invariant
            i <= v@.len(),
            v@ == old(v)@,
            forall|k: int| 0 <= k < v@.len() ==> (#[trigger] v@[k]) < table@.len(),
            r@.len() == i,
            forall|k: int| 0 <= k < i ==> #[trigger] r@[k] == table@[v@[k] as int],
        decreases v@.len() - i,
    {
        r.push(table[v[i]]);
        i = i + 1;
    }
    *v = r;
}

impl Graph {
    /// Strips every reference to `index` from every edge list and stamps
    /// `index` itself with the sentinel id (the node count).
    #[verifier::loop_isolation(false)]
    fn mark_node(&mut self, index: usize, Ghost(g): Ghost<GraphView>, Ghost(m): Ghost<Set<usize>>)
        requires
            old(self)@.marking_state(g, m),
            index < g.nodes.len(),
        ensures
            final(self)@.marking_state(g, m.insert(index)),
    {
        let n = self.nodes.len();
        let mut i: usize = 0;
        while i < n
            invariant
                i <= n,
                self@.nodes.len() == g.nodes.len(),
                self@.effective_root == g.effective_root,
                self@.config == g.config,
                forall|t: int| 0 <= t < g.nodes.len() ==> {
                    &&& (#[trigger] self@.nodes[t]).description == g.nodes[t].description
                    &&& self@.nodes[t].node_type == g.nodes[t].node_type
                    &&& self@.nodes[t].due_date == g.nodes[t].due_date
                    &&& self@.nodes[t].id == (if m.contains(t as usize) {
                        g.nodes.len() as usize
                    } else {
                        g.nodes[t].id
                    })
                    &&& self@.nodes[t].deps == strip_marked(
                        g.nodes[t].deps,
                        if t < i {
                            m.insert(index)
                        } else {
                            m
                        },
                    )
                    &&& self@.nodes[t].parents == strip_marked(
                        g.nodes[t].parents,
                        if t < i {
                            m.insert(index)
                        } else {
                            m
                        },
                    )
                },
            decreases n - i,
        {
            self.strip_refs_at(i, index);
            proof {
                lemma_strip_insert(g.nodes[i as int].deps, m, index);
                lemma_strip_insert(g.nodes[i as int].parents, m, index);
            }
            i = i + 1;
        }
        self.set_node_id(index, n);
        proof {
            assert forall|t: int| 0 <= t < g.nodes.len() implies (#[trigger] self@.nodes[t]).id
                == (if m.insert(index).contains(t as usize) {
                g.nodes.len() as usize
            } else {
                g.nodes[t].id
            }) by {}
        }
    }

    /// Marks `index` for removal; with `recurse`, walks a worklist through
    /// its dependency chains and marks everything they reach.
    #[verifier::loop_isolation(false)]
    fn inner_remove(
        &mut self,
        index: usize,
        recurse: bool,
        Ghost(g): Ghost<GraphView>,
        Ghost(m0): Ghost<Set<usize>>,
    ) -> (res: Ghost<Set<usize>>)
        requires
            old(self)@.marking_state(g, m0),
            g.valid(),
            index < g.nodes.len(),
            m0.finite(),
            m0.len() <= g.nodes.len(),
            forall|b: usize| #[trigger] m0.contains(b) ==> b < g.nodes.len(),
            recurse ==> g.dep_closed(m0),
        ensures
            final(self)@.marking_state(g, res@),
            res@.finite(),
            res@.len() <= g.nodes.len(),
            forall|b: usize| #[trigger] res@.contains(b) ==> b < g.nodes.len(),
            recurse ==> g.dep_closed(res@),
            res@ == (if recurse {
                m0.union(Set::new(|b: usize| b < g.nodes.len() && g.reaches(index, b)))
            } else {
                m0.insert(index)
            }),
    {
        let n = self.nodes.len();
        proof {
            crate::topo::lemma_ids_below(n as nat);
            assert(m0.insert(index) <= crate::topo::ids_below(n as nat));
            vstd::set_lib::lemma_len_subset(m0.insert(index), crate::topo::ids_below(n as nat));
        }
        if !recurse {
            self.mark_node(index, Ghost(g), Ghost(m0));
            return Ghost(m0.insert(index));
        }
        let mut work: Vec<usize> = Vec::new();
        work.push(index);
        let ghost mut m: Set<usize> = m0;
        proof {
            lemma_reaches_self(g, index);
            assert(work@[0] == index);
            assert(work@.contains(index));
        }
        while work.len() > 0
            invariant
                self@.marking_state(g, m),
                m.finite(),
                m.len() <= n,
                forall|b: usize| #[trigger] m.contains(b) ==> b < n,
                forall|b: usize| #[trigger] m0.contains(b) ==> m.contains(b),
                forall|b: usize| #[trigger] m.contains(b) ==> (m0.contains(b) || g.reaches(
                    index,
                    b,
                )),
                forall|k: int| 0 <= k < work@.len() ==> (#[trigger] work@[k]) < n && g.reaches(
                    index,
                    work@[k],
                ),
                forall|b: usize, y: usize|
                    #![trigger m.contains(b), g.edge(b, y)]
                    m.contains(b) && g.edge(b, y) ==> (m.contains(y) || work@.contains(y)),
                m.contains(index) || work@.contains(index),
            decreases n - m.len(), work@.len(),
        {
            let ghost work_before = work@;
            let w = match work.pop() {
                Some(w) => w,
                None => {
                    proof {
                        assert(false);
                    }
                    return Ghost(m);
                },
            };
            proof {
                assert(work_before.last() == w);
                assert(work@ == work_before.drop_last());
            }
            if self.nodes[w].id != n {
                proof {
                    assert(self@.nodes[w as int].id == (if m.contains(w) {
                        g.nodes.len() as usize
                    } else {
                        g.nodes[w as int].id
                    }));
                    assert(g.nodes[w as int].id == w);
                    assert(!m.contains(w));
                }
                let ds = copy_ids(&self.nodes[w].deps);
                proof {
                    assert(ds@ == strip_marked(g.nodes[w as int].deps, m));
                    lemma_strip_marked(g.nodes[w as int].deps, m);
                }
                let mut t: usize = 0;
                while t < ds.len()
                    invariant
                        t <= ds@.len(),
                        forall|k: int| 0 <= k < work@.len() ==> (#[trigger] work@[k]) < n
                            && g.reaches(index, work@[k]),
                        forall|k: int| 0 <= k < t ==> work@.contains(#[trigger] ds@[k]),
                        forall|y: usize| #[trigger] work_before.drop_last().contains(y)
                            ==> work@.contains(y),
                    decreases ds@.len() - t,
                {
                    let ghost wprev = work@;
                    let d = ds[t];
                    proof {
                        assert(ds@[t as int] == d);
                        assert(strip_marked(g.nodes[w as int].deps, m).contains(d));
                        assert(g.nodes[w as int].deps.contains(d));
                        let u = choose|u: int|
                            0 <= u < g.nodes[w as int].deps.len() && g.nodes[w as int].deps[u] == d;
                        assert(g.refs_closed());
                        assert(g.list_closed(g.nodes[w as int].deps));
                        assert(d < n);
                        assert(g.edge(w, d));
                        lemma_reaches_step(g, index, w, d);
                    }
                    work.push(d);
                    proof {
                        assert forall|y: usize| wprev.contains(y) implies work@.contains(y) by {
                            let k = choose|k: int| 0 <= k < wprev.len() && wprev[k] == y;
                            assert(work@[k] == y);
                        }
                        assert forall|y: usize| #[trigger] work_before.drop_last().contains(
                            y,
                        ) implies work@.contains(y) by {
                            assert(wprev.contains(y));
                        }
                        assert forall|k: int| 0 <= k < t + 1 implies work@.contains(
                            #[trigger] ds@[k],
                        ) by {
                            if k < t {
                                assert(wprev.contains(ds@[k]));
                            } else {
                                assert(work@.last() == d);
                            }
                        }
                    }
                    t = t + 1;
                }
                self.mark_node(w, Ghost(g), Ghost(m));
                proof {
                    let mprev = m;
                    m = m.insert(w);
                    assert(m.insert(w) <= crate::topo::ids_below(n as nat)) by {
                        crate::topo::lemma_ids_below(n as nat);
                    }
                    crate::topo::lemma_ids_below(n as nat);
                    vstd::set_lib::lemma_len_subset(m, crate::topo::ids_below(n as nat));
                    assert forall|b: usize, y: usize|
                        m.contains(b) && #[trigger] g.edge(b, y) implies (m.contains(y)
                        || work@.contains(y)) by {
                        if b == w {
                            assert(g.deps_of(w).contains(y));
                            if !mprev.contains(y) {
                                assert(strip_marked(g.nodes[w as int].deps, mprev).contains(y));
                                let k = choose|k: int|
                                    0 <= k < ds@.len() && ds@[k] == y;
                                assert(work@.contains(ds@[k]));
                            }
                        } else {
                            assert(mprev.contains(b));
                            assert(mprev.contains(y) || work_before.contains(y));
                            if !mprev.contains(y) && y != w {
                                let k = choose|k: int|
                                    0 <= k < work_before.len() && work_before[k] == y;
                                assert(k < work_before.len() - 1);
                                assert(work_before.drop_last()[k] == y);
                                assert(work_before.drop_last().contains(y));
                            }
                        }
                    }
                    assert(m.contains(index) || work@.contains(index)) by {
                        if index != w && !mprev.contains(index) {
                            let k = choose|k: int|
                                0 <= k < work_before.len() && work_before[k] == index;
                            if k == work_before.len() - 1 {
                                assert(work_before[k] == w);
                            } else {
                                assert(work_before.drop_last()[k] == index);
                                assert(work_before.drop_last().contains(index));
                            }
                        }
                    }
                }
            } else {
                proof {
                    assert(self@.nodes[w as int].id == (if m.contains(w) {
                        g.nodes.len() as usize
                    } else {
                        g.nodes[w as int].id
                    }));
                    assert(g.nodes[w as int].id == w && w < n);
                    assert(m.contains(w));
                    assert forall|b: usize, y: usize|
                        m.contains(b) && #[trigger] g.edge(b, y) implies (m.contains(y)
                        || work@.contains(y)) by {
                        assert(m.contains(y) || work_before.contains(y));
                        if !m.contains(y) {
                            let k = choose|k: int|
                                0 <= k < work_before.len() && work_before[k] == y;
                            if k == work_before.len() - 1 {
                                assert(y == w);
                            } else {
                                assert(work_before.drop_last()[k] == y);
                            }
                        }
                    }
                    assert(m.contains(index) || work@.contains(index)) by {
                        if !m.contains(index) {
                            let k = choose|k: int|
                                0 <= k < work_before.len() && work_before[k] == index;
                            if k == work_before.len() - 1 {
                                assert(index == w);
                            } else {
                                assert(work_before.drop_last()[k] == index);
                            }
                        }
                    }
                }
            }
        }
        proof {
            assert(g.dep_closed(m));
            let rset = Set::new(|b: usize| b < g.nodes.len() && g.reaches(index, b));
            assert(m =~= m0.union(rset)) by {
                assert forall|b: usize| #[trigger] m.contains(b) implies m0.union(rset).contains(
                    b,
                ) by {
                    if !m0.contains(b) {
                        assert(g.reaches(index, b) && b < n);
                    }
                }
                assert forall|b: usize| m0.union(rset).contains(b) implies m.contains(b) by {
                    if rset.contains(b) && !m0.contains(b) {
                        assert(m.contains(index));
                        lemma_reaches_closed(g, m, index, b);
                    }
                }
            }
        }
        Ghost(m)
    }

    /// Removes every existing node the request names — and with `recurse`
    /// everything their dependency chains reach — then drops the marked
    /// nodes and renumbers every surviving id and reference. Ids that
    /// name no node are reported in the result, but the valid removals
    /// still happen: an error return does not mean nothing was removed.
    #[verifier::loop_isolation(false)]
    pub fn batch_remove(&mut self, indices: Vec<usize>, recurse: bool) -> (r: Result<(), String>)
        requires
            old(self)@.valid(),
        ensures
            final(self)@.valid(),
            final(self)@ == old(self)@.compacted(
                old(self)@.doomed_set(indices@, recurse),
            ),
            r is Err <==> exists|k: int| 0 <= k < indices@.len() && #[trigger] indices@[k] >= old(
                self,
            )@.node_count(),
    {
        let ghost g = self@;
        let n = self.nodes.len();
        let mut error: Option<String> = None;
        let ghost mut m: Set<usize> = Set::empty();
        proof {
            assert forall|i: int| 0 <= i < g.nodes.len() implies {
                &&& (#[trigger] self@.nodes[i]).deps == strip_marked(g.nodes[i].deps, m)
                &&& self@.nodes[i].parents == strip_marked(g.nodes[i].parents, m)
            } by {
                lemma_strip_empty(g.nodes[i].deps);
                lemma_strip_empty(g.nodes[i].parents);
            }
            assert(self@.marking_state(g, m));
            assert(m =~= g.doomed_set(indices@.take(0), recurse)) by {
                assert forall|b: usize| !g.doomed_set(indices@.take(0), recurse).contains(b) by {
                    if g.doomed(indices@.take(0), recurse, b) {
                        let a = choose|a: usize| indices@.take(0).contains(a) && a
                            < g.nodes.len() && (if recurse {
                            g.reaches(a, b)
                        } else {
                            a == b
                        });
                    }
                }
            }
        }
        let mut qi: usize = 0;
        while qi < indices.len()
            invariant
                qi <= indices@.len(),
                self@.marking_state(g, m),
                m.finite(),
                m.len() <= n,
                forall|b: usize| #[trigger] m.contains(b) ==> b < n,
                recurse ==> g.dep_closed(m),
                m == g.doomed_set(indices@.take(qi as int), recurse),
                (error is Some) <==> exists|k: int| 0 <= k < qi && #[trigger] indices@[k] >= n,
            decreases indices@.len() - qi,
        {
            let index = indices[qi];
            let ghost mprev = m;
            proof {
                assert(indices@[qi as int] == index);
                assert(indices@.take(qi + 1 as int) == indices@.take(qi as int).push(index));
            }
            if index >= n {
                let line = messages::node_missing_line(index);
                error = match error {
                    Some(mut msg) => {
                        msg.append(line.as_str());
                        Some(msg)
                    },
                    None => Some(line),
                };
                proof {
                    assert(m =~= g.doomed_set(indices@.take(qi + 1 as int), recurse)) by {
                        assert forall|b: usize| #[trigger] g.doomed(
                            indices@.take(qi + 1 as int),
                            recurse,
                            b,
                        ) implies g.doomed(indices@.take(qi as int), recurse, b) by {
                            let a = choose|a: usize| #[trigger] indices@.take(
                                qi + 1 as int,
                            ).contains(a) && a < g.nodes.len() && (if recurse {
                                g.reaches(a, b)
                            } else {
                                a == b
                            });
                            crate::graph::lemma_push_contains(indices@.take(qi as int), index, a);
                            assert(a != index);
                            assert(indices@.take(qi as int).contains(a));
                        }
                        assert forall|b: usize| #[trigger] g.doomed(
                            indices@.take(qi as int),
                            recurse,
                            b,
                        ) implies g.doomed(indices@.take(qi + 1 as int), recurse, b) by {
                            let a = choose|a: usize| #[trigger] indices@.take(qi as int).contains(
                                a,
                            ) && a < g.nodes.len() && (if recurse {
                                g.reaches(a, b)
                            } else {
                                a == b
                            });
                            crate::graph::lemma_push_contains(indices@.take(qi as int), index, a);
                        }
                    }
                }
            } else {
                let mres = self.inner_remove(index, recurse, Ghost(g), Ghost(m));
                proof {
                    m = mres@;
                    assert(m =~= g.doomed_set(indices@.take(qi + 1 as int), recurse)) by {
                        assert forall|b: usize| #[trigger] m.contains(b) implies g.doomed(
                            indices@.take(qi + 1 as int),
                            recurse,
                            b,
                        ) by {
                            if mprev.contains(b) {
                                assert(g.doomed(indices@.take(qi as int), recurse, b));
                                let a = choose|a: usize| #[trigger] indices@.take(
                                    qi as int,
                                ).contains(a) && a < g.nodes.len() && (if recurse {
                                    g.reaches(a, b)
                                } else {
                                    a == b
                                });
                                crate::graph::lemma_push_contains(
                                    indices@.take(qi as int),
                                    index,
                                    a,
                                );
                            } else {
                                crate::graph::lemma_push_contains(
                                    indices@.take(qi as int),
                                    index,
                                    index,
                                );
                                if recurse {
                                } else {
                                    assert(b == index);
                                }
                            }
                        }
                        assert forall|b: usize| g.doomed(
                            indices@.take(qi + 1 as int),
                            recurse,
                            b,
                        ) implies m.contains(b) by {
                            let a = choose|a: usize| #[trigger] indices@.take(
                                qi + 1 as int,
                            ).contains(a) && a < g.nodes.len() && (if recurse {
                                g.reaches(a, b)
                            } else {
                                a == b
                            });
                            crate::graph::lemma_push_contains(indices@.take(qi as int), index, a);
                            if a == index {
                                if recurse {
                                    assert(Set::new(
                                        |b2: usize| b2 < g.nodes.len() && g.reaches(index, b2),
                                    ).contains(b));
                                }
                            } else {
                                assert(indices@.take(qi as int).contains(a));
                                assert(g.doomed(indices@.take(qi as int), recurse, b));
                                assert(mprev.contains(b));
                            }
                        }
                    }
                }
            }
            qi = qi + 1;
        }
        proof {
            assert(indices@.take(indices@.len() as int) == indices@);
        }

        // drop the marked nodes, remembering each survivor's new id
        let ghost pre = self@;
        let mut table: Vec<usize> = Vec::new();
        let mut kept: Vec<Node> = Vec::new();
        let mut i: usize = 0;
        while i < n
            invariant
                i <= n,
                n == g.nodes.len(),
                self@.nodes.len() == n,
                self@.effective_root == g.effective_root,
                self@.config == g.config,
                pre.marking_state(g, m),
                pre.nodes.len() == n,
                forall|t: int| i <= t < n ==> #[trigger] self@.nodes[t] == pre.nodes[t],
                table@.len() == i,
                forall|t: int| 0 <= t < i && !m.contains(t as usize) ==> #[trigger] table@[t]
                    == compact_id(t as usize, m),
                kept@.len() == survivors(i as int, m).len(),
                forall|k: int| 0 <= k < kept@.len() ==> (#[trigger] kept@[k])@ == pre.nodes[survivors(i as int, m)[k] as int],
            decreases n - i,
        {
            let ghost before_take = self@;
            let mut taken = crate::node::placeholder_node();
            self.nodes.set_and_swap(i, &mut taken);
            proof {
                assert forall|t: int| i + 1 <= t < n implies #[trigger] self@.nodes[t]
                    == pre.nodes[t] by {
                    assert(self@.nodes[t] == before_take.nodes[t]);
                }
                assert(taken@ == before_take.nodes[i as int]);
                assert(taken@ == pre.nodes[i as int]);
                assert(pre.nodes[i as int].id == (if m.contains(i as usize) {
                    g.nodes.len() as usize
                } else {
                    g.nodes[i as int].id
                }));
                assert(g.nodes[i as int].id == i);
                lemma_survivors(i as int, m);
            }
            if taken.id != n {
                proof {
                    assert(!m.contains(i as usize));
                    assert(survivors(i + 1 as int, m) == survivors(i as int, m).push(i as usize));
                    assert(compact_id(i as usize, m) == kept@.len());
                }
                table.push(kept.len());
                kept.push(taken);
            } else {
                proof {
                    assert(m.contains(i as usize));
                    assert(survivors(i + 1 as int, m) == survivors(i as int, m));
                }
                table.push(0);
            }
            i = i + 1;
        }
        self.nodes = kept;

        // renumber the ids and every surviving reference
        let ghost keep = survivors(n as int, m);
        let keep_len = self.nodes.len();
        proof {
            lemma_survivors(n as int, m);
            assert(survivors(n as int, m) == keep);
            assert forall|t: int| 0 <= t < keep.len() implies #[trigger] self@.nodes[t]
                == pre.nodes[keep[t] as int] by {
                assert(self@.nodes[t] == self.nodes@[t]@);
            }
        }
        let mut k2: usize = 0;
        while k2 < keep_len
            invariant
                k2 <= keep_len,
                keep_len == keep.len(),
                keep == survivors(n as int, m),
                n == g.nodes.len(),
                pre.marking_state(g, m),
                pre.nodes.len() == n,
                table@.len() == n,
                forall|t: int| 0 <= t < n && !m.contains(t as usize) ==> #[trigger] table@[t]
                    == compact_id(t as usize, m),
                self@.nodes.len() == keep_len,
                self@.effective_root == g.effective_root,
                self@.config == g.config,
                forall|t: int| k2 <= t < keep_len ==> #[trigger] self@.nodes[t] == pre.nodes[keep[t] as int],
                forall|t: int| 0 <= t < k2 ==> #[trigger] self@.nodes[t] == g.compacted(m).nodes[t],
            decreases keep_len - k2,
        {
            let ghost o = keep[k2 as int];
            proof {
                assert(0 <= o < n && !m.contains(o));
                assert(pre.nodes[o as int].deps == strip_marked(g.nodes[o as int].deps, m));
                assert(pre.nodes[o as int].parents == strip_marked(g.nodes[o as int].parents, m));
                lemma_strip_marked(g.nodes[o as int].deps, m);
                lemma_strip_marked(g.nodes[o as int].parents, m);
            }
            let ghost before_take = self@;
            let mut nd = crate::node::placeholder_node();
            self.nodes.set_and_swap(k2, &mut nd);
            nd.id = k2;
            proof {
                assert(nd@.deps == before_take.nodes[k2 as int].deps);
                assert(nd@.deps == pre.nodes[o as int].deps);
                assert(nd@.deps == strip_marked(g.nodes[o as int].deps, m));
                assert(nd@.parents == strip_marked(g.nodes[o as int].parents, m));
                assert forall|k: int| 0 <= k < nd@.deps.len() implies (#[trigger] nd@.deps[k])
                    < table@.len() by {
                    assert(strip_marked(g.nodes[o as int].deps, m).contains(nd@.deps[k]));
                    assert(g.nodes[o as int].deps.contains(nd@.deps[k]));
                    let u = choose|u: int|
                        0 <= u < g.nodes[o as int].deps.len() && g.nodes[o as int].deps[u] == nd@.deps[k];
                    assert(g.list_closed(g.nodes[o as int].deps));
                }
                assert forall|k: int| 0 <= k < nd@.parents.len() implies (#[trigger] nd@.parents[k]) < table@.len() by {
                    assert(strip_marked(g.nodes[o as int].parents, m).contains(nd@.parents[k]));
                    assert(g.nodes[o as int].parents.contains(nd@.parents[k]));
                    let u = choose|u: int|
                        0 <= u < g.nodes[o as int].parents.len() && g.nodes[o as int].parents[u]
                            == nd@.parents[k];
                    assert(g.list_closed(g.nodes[o as int].parents));
                }
            }
            apply_table(&mut nd.deps, &table);
            apply_table(&mut nd.parents, &table);
            let ghost before_put = self@;
            self.nodes.set_and_swap(k2, &mut nd);
            proof {
                assert forall|t: int| k2 + 1 <= t < keep_len implies #[trigger] self@.nodes[t]
                    == pre.nodes[keep[t] as int] by {
                    assert(self@.nodes[t] == before_put.nodes[t]);
                    assert(before_put.nodes[t] == before_take.nodes[t]);
                }
                assert forall|t: int| 0 <= t < k2 implies #[trigger] self@.nodes[t] == g.compacted(
                    m,
                ).nodes[t] by {
                    assert(self@.nodes[t] == before_put.nodes[t]);
                    assert(before_put.nodes[t] == before_take.nodes[t]);
                }
                assert(pre.nodes[o as int].description == g.nodes[o as int].description);
                assert(pre.nodes[o as int].node_type == g.nodes[o as int].node_type);
                assert(pre.nodes[o as int].due_date == g.nodes[o as int].due_date);
                lemma_compact_list(g.nodes[o as int].deps, m);
                lemma_compact_list(g.nodes[o as int].parents, m);
                assert(self@.nodes[k2 as int].deps =~= compact_list(g.nodes[o as int].deps, m)) by {
                    assert forall|k: int|
                        0 <= k < compact_list(g.nodes[o as int].deps, m).len() implies self@.nodes[k2 as int].deps[k] == compact_list(g.nodes[o as int].deps, m)[k] by {
                        let e = strip_marked(g.nodes[o as int].deps, m)[k];
                        assert(strip_marked(g.nodes[o as int].deps, m).contains(e));
                        assert(!m.contains(e));
                        assert(table@[e as int] == compact_id(e, m));
                    }
                }
                assert(self@.nodes[k2 as int].parents =~= compact_list(
                    g.nodes[o as int].parents,
                    m,
                )) by {
                    assert forall|k: int|
                        0 <= k < compact_list(g.nodes[o as int].parents, m).len() implies self@.nodes[k2 as int].parents[k] == compact_list(
                        g.nodes[o as int].parents,
                        m,
                    )[k] by {
                        let e = strip_marked(g.nodes[o as int].parents, m)[k];
                        assert(strip_marked(g.nodes[o as int].parents, m).contains(e));
                        assert(!m.contains(e));
                        assert(table@[e as int] == compact_id(e, m));
                    }
                }
                assert(self@.nodes[k2 as int] =~~= g.compacted(m).nodes[k2 as int]);
            }
            k2 = k2 + 1;
        }
        proof {
            assert(self@ =~~= g.compacted(m));
            lemma_compacted_valid(g, m);
        }

        match error {
            Some(msg) => Err(msg),
            None => Ok(()),
        }
    }

    /// Removes one node — and with `recurse` its whole dependency
    /// subtree; shorthand for a one-element batch.
    pub fn remove_node(&mut self, index: usize, recurse: bool) -> (r: Result<(), String>)
        requires
            old(self)@.valid(),
        ensures
            final(self)@.valid(),
            final(self)@ == old(self)@.compacted(
                old(self)@.doomed_set(seq![index], recurse),
            ),
            r is Err <==> index >= old(self)@.node_count(),
    {
        let mut v: Vec<usize> = Vec::new();
        v.push(index);
        proof {
            assert(v@ =~= seq![index]);
        }
        let r = self.batch_remove(v, recurse);
        proof {
            if index >= old(self)@.node_count() {
                assert(seq![index][0] == index);
            }
        }
        r
    }
}

} // verus!
