//! Structural validation: decides all four invariants exactly.

use vstd::prelude::*;

use crate::graph::{contains_id, Graph};
use crate::messages;
use crate::node::Node;

verus! {

/// Whether `v` lists any id twice.
fn has_duplicate(v: &Vec<usize>) -> (b: bool)
    ensures
        b == !v@.no_duplicates(),
{
    let mut i: usize = 0;
    while i < v.len()
        invariant
            i <= v@.len(),
            v@.take(i as int).no_duplicates(),
        decreases v@.len() - i,
    {
        let mut j: usize = 0;
        while j < i
            invariant
                j <= i < v@.len(),
                forall|k: int| 0 <= k < j ==> v@[k] != v@[i as int],
            decreases i - j,
        {
            if v[j] == v[i] {
                return true;
            }
            j = j + 1;
        }
        proof {
            let t = v@.take(i + 1 as int);
            assert forall|k1: int, k2: int| 0 <= k1 < k2 < t.len() implies t[k1] != t[k2] by {
                assert(t[k1] == v@[k1] && t[k2] == v@[k2]);
                if k2 < i {
                    assert(v@.take(i as int)[k1] != v@.take(i as int)[k2]);
                }
            }
        }
        i = i + 1;
    }
    proof {
        assert(v@.take(v@.len() as int) == v@);
    }
    false
}

impl Graph {
    /// Checks that every id listed by `n` names an existing node.
    pub(crate) fn validate_node(&self, n: &Node) -> (r: Result<(), String>)
        ensures
            r is Ok <==> (self@.list_closed(n@.deps) && self@.list_closed(n@.parents)),
    {
        let count = self.nodes.len();
        let mut j: usize = 0;
        while j < n.deps.len()
            invariant
                j <= n@.deps.len(),
                count == self@.nodes.len(),
                forall|k: int| 0 <= k < j ==> (#[trigger] n@.deps[k]) < count,
            decreases n@.deps.len() - j,
        {
            if n.deps[j] >= count {
                return Err(messages::listed_dep_missing(n.deps[j], n.id));
            }
            j = j + 1;
        }
        let mut j: usize = 0;
        while j < n.parents.len()
            invariant
                j <= n@.parents.len(),
                count == self@.nodes.len(),
                self@.list_closed(n@.deps),
                forall|k: int| 0 <= k < j ==> (#[trigger] n@.parents[k]) < count,
            decreases n@.parents.len() - j,
        {
            if n.parents[j] >= count {
                return Err(messages::listed_parent_missing(n.parents[j], n.id));
            }
            j = j + 1;
        }
        Ok(())
    }

    /// Decides whether the graph satisfies every structural invariant:
    /// dense ids, referential closure, two-sided duplicate-free edge
    /// lists, and acyclicity. Returns a description of the first breach
    /// found.
    #[verifier::loop_isolation(false)]
    pub fn validate(&self) -> (r: Result<(), String>)
        ensures
            r is Ok <==> self@.valid(),
    {
        let ghost g = self@;
        let n = self.nodes.len();
        let mut i: usize = 0;
        while i < n
            invariant
                i <= n,
                forall|t: int| 0 <= t < i ==> (#[trigger] g.nodes[t]).id == t,
                forall|t: int| 0 <= t < i ==> {
                    &&& g.list_closed((#[trigger] g.nodes[t]).deps)
                    &&& g.list_closed(g.nodes[t].parents)
                    &&& g.nodes[t].deps.no_duplicates()
                    &&& g.nodes[t].parents.no_duplicates()
                },
                forall|t: usize, y: usize| t < i && (#[trigger] g.deps_of(t).contains(y))
                    ==> y < n && g.parents_of(y).contains(t),
                forall|t: usize, y: usize| t < i && (#[trigger] g.parents_of(t).contains(y))
                    ==> y < n && g.deps_of(y).contains(t),
            decreases n - i,
        {
            proof {
                assert(g.nodes[i as int] == self.nodes@[i as int]@);
            }
            if self.nodes[i].id != i {
                return Err(messages::ids_mismatch());
            }
            match self.validate_node(&self.nodes[i]) {
                Err(message) => {
                    return Err(message);
                },
                Ok(()) => {},
            }
            if has_duplicate(&self.nodes[i].deps) || has_duplicate(&self.nodes[i].parents) {
                return Err(messages::duplicate_entry(i));
            }
            // every listed edge must be acknowledged from the other side
            let dl = self.nodes[i].deps.len();
            let mut j: usize = 0;
            while j < dl
                invariant
                    j <= dl,
                    dl == g.deps_of(i).len(),
                    forall|k: int| 0 <= k < j ==> g.parents_of(#[trigger] g.deps_of(i)[k]).contains(
                        i,
                    ),
                decreases dl - j,
            {
                let d = self.nodes[i].deps[j];
                proof {
                    assert(g.deps_of(i)[j as int] == d);
                    assert(g.deps_of(i).contains(d));
                }
                if !contains_id(&self.nodes[d].parents, i) {
                    proof {
                        assert(g.parents_of(d) == self.nodes@[d as int]@.parents);
                        assert(!g.links_symmetric());
                    }
                    return Err(messages::one_sided_dep(d, i));
                }
                proof {
                    assert(g.parents_of(d) == self.nodes@[d as int]@.parents);
                }
                j = j + 1;
            }
            let pl = self.nodes[i].parents.len();
            let mut j: usize = 0;
            while j < pl
                invariant
                    j <= pl,
                    pl == g.parents_of(i).len(),
                    forall|k: int| 0 <= k < j ==> g.deps_of(#[trigger] g.parents_of(i)[k]).contains(
                        i,
                    ),
                decreases pl - j,
            {
                let p = self.nodes[i].parents[j];
                proof {
                    assert(g.parents_of(i)[j as int] == p);
                    assert(g.parents_of(i).contains(p));
                }
                if !contains_id(&self.nodes[p].deps, i) {
                    proof {
                        assert(g.deps_of(p) == self.nodes@[p as int]@.deps);
                        assert(!g.links_symmetric());
                    }
                    return Err(messages::one_sided_parent(p, i));
                }
                proof {
                    assert(g.deps_of(p) == self.nodes@[p as int]@.deps);
                }
                j = j + 1;
            }
            proof {
                assert forall|y: usize| #[trigger] g.deps_of(i).contains(y) implies y < n
                    && g.parents_of(y).contains(i) by {
                    let k = choose|k: int| 0 <= k < g.deps_of(i).len() && g.deps_of(i)[k] == y;
                }
                assert forall|y: usize| #[trigger] g.parents_of(i).contains(y) implies y < n
                    && g.deps_of(y).contains(i) by {
                    let k = choose|k: int|
                        0 <= k < g.parents_of(i).len() && g.parents_of(i)[k] == y;
                }
            }
            i = i + 1;
        }
        proof {
            assert(g.wf_links());
        }
        self.check_topology()
    }
}

} // verus!
