//! The acyclicity check: topological consumption (Kahn's-algorithm peeling
//! over in-degree counts) and the lemmas that connect it to the rank-based
//! statement of invariant 4.

use vstd::prelude::*;
use vstd::seq_lib::group_seq_properties;
use vstd::set_lib::lemma_len_subset;
use vstd::set_lib::lemma_subset_equality;

use crate::graph::{Graph, GraphView};

verus! {

/// The set of ids below `n`.
pub open spec fn ids_below(n: nat) -> Set<usize> {
    Set::new(|x: usize| (x as nat) < n)
}

/// `ids_below(n)` is a finite set of exactly `n` ids.
pub proof fn lemma_ids_below(n: nat)
    requires
        n <= usize::MAX,
    ensures
        ids_below(n).finite(),
        ids_below(n).len() == n,
    decreases n,
{
    if n == 0 {
        assert(ids_below(0) =~= Set::<usize>::empty());
    } else {
        lemma_ids_below((n - 1) as nat);
        assert(ids_below(n) =~= ids_below((n - 1) as nat).insert((n - 1) as usize));
    }
}

/// Every finite, nonempty set of ids holds a member whose rank under `r` is
/// maximal within the set.
pub proof fn lemma_exists_max_rank(s: Set<usize>, r: Map<usize, nat>)
    requires
        s.finite(),
        s.len() > 0,
    ensures
        exists|m: usize|
            #![trigger s.contains(m)]
            s.contains(m) && forall|x: usize| s.contains(x) ==> r[x] <= r[m],
    decreases s.len(),
{
    let a = s.choose();
    assert(s.contains(a));
    let rest = s.remove(a);
    if rest.len() == 0 {
        rest.lemma_len0_is_empty();
        assert forall|x: usize| s.contains(x) implies r[x] <= r[a] by {
            if x != a {
                assert(rest.contains(x));
            }
        }
        assert(s.contains(a) && forall|x: usize| s.contains(x) ==> r[x] <= r[a]);
    } else {
        lemma_exists_max_rank(rest, r);
        let m0 = choose|m: usize|
            #![trigger rest.contains(m)]
            rest.contains(m) && forall|x: usize| rest.contains(x) ==> r[x] <= r[m];
        if r[a] <= r[m0] {
            assert forall|x: usize| s.contains(x) implies r[x] <= r[m0] by {
                if x != a {
                    assert(rest.contains(x));
                }
            }
            assert(s.contains(m0) && forall|x: usize| s.contains(x) ==> r[x] <= r[m0]);
        } else {
            assert forall|x: usize| s.contains(x) implies r[x] <= r[a] by {
                if x != a {
                    assert(rest.contains(x));
                }
            }
            assert(s.contains(a) && forall|x: usize| s.contains(x) ==> r[x] <= r[a]);
        }
    }
}

/// Ranks strictly decrease along a dependency path of length at least two.
pub proof fn lemma_path_rank(g: GraphView, r: Map<usize, nat>, p: Seq<usize>)
    requires
        g.rank_ok(r),
        g.dep_path(p),
        p.len() > 1,
    ensures
        r[p.last()] < r[p.first()],
    decreases p.len(),
{
    assert(g.edge(p[0], p[1]));
    if p.len() == 2 {
        assert(p.last() == p[1] && p.first() == p[0]);
    } else {
        let q = p.drop_first();
        assert(g.dep_path(q)) by {
            assert forall|k: int| 0 <= k < q.len() - 1 implies g.edge(#[trigger] q[k], q[k + 1]) by {
                assert(q[k] == p[k + 1] && q[k + 1] == p[k + 2]);
            }
        }
        lemma_path_rank(g, r, q);
        assert(q.last() == p.last() && q.first() == p[1]);
    }
}

/// A dependency cycle defeats every rank function: a graph that closes a
/// dependency path back onto its first node is not acyclic. In particular
/// a direct two-cycle, or a longer chain bent back on itself, is refused
/// by the topological check.
pub proof fn lemma_cycle_not_acyclic(g: GraphView, p: Seq<usize>)
    requires
        g.dep_path(p),
        g.edge(p.last(), p.first()),
    ensures
        !g.acyclic(),
{
    if g.acyclic() {
        let r = choose|r: Map<usize, nat>| g.rank_ok(r);
        assert(r[p.first()] < r[p.last()]);
        if p.len() > 1 {
            lemma_path_rank(g, r, p);
        }
        assert(false);
    }
}

impl GraphView {
    /// The parents of `c` that the topological check has not yet consumed.
    pub open spec fn pending_parents(self, c: usize, popped: Set<usize>) -> Set<usize> {
        self.parents_of(c).to_set().difference(popped)
    }
}

impl Graph {
    /// Decides invariant 4: consumes nodes none of whose parents remain,
    /// severing their edges by in-degree counting, and reports a cycle
    /// exactly when nodes are left over at the end.
    #[verifier::loop_isolation(false)]
    pub fn check_topology(&self) -> (r: Result<(), String>)
        requires
            self@.wf_links(),
        ensures
            r is Ok <==> self@.acyclic(),
    {
        let ghost g = self@;
        let n = self.nodes.len();

        // remaining[c] counts the parents of c not yet consumed
        let mut remaining: Vec<usize> = Vec::new();
        let mut i: usize = 0;
        while i < n
            invariant
                i <= n,
                remaining@.len() == i,
                forall|c: usize| c < i ==> remaining@[c as int] == g.pending_parents(
                    c,
                    Set::empty(),
                ).len(),
            decreases n - i,
        {
            let len_p = self.nodes[i].parents.len();
            proof {
                assert(g.parents_of(i) == self.nodes@[i as int]@.parents);
                g.parents_of(i).unique_seq_to_set();
                assert(g.parents_of(i).to_set().difference(Set::empty())
                    =~= g.parents_of(i).to_set());
            }
            remaining.push(len_p);
            i = i + 1;
        }

        // seed the worklist with the nodes that have no parents at all
        let mut stack: Vec<usize> = Vec::new();
        let mut i: usize = 0;
        while i < n
            invariant
                i <= n,
                remaining@.len() == n,
                forall|c: usize| c < n ==> remaining@[c as int] == g.pending_parents(
                    c,
                    Set::empty(),
                ).len(),
                stack@.no_duplicates(),
                forall|k: int| 0 <= k < stack@.len() ==> (#[trigger] stack@[k]) < i,
                forall|k: int| 0 <= k < stack@.len() ==> remaining@[stack@[k] as int] == 0,
                forall|c: usize| c < i && remaining@[c as int] == 0 ==> stack@.contains(c),
            decreases n - i,
        {
            let ghost stack0 = stack@;
            if remaining[i] == 0 {
                stack.push(i);
                proof {
                    assert(!stack0.contains(i));
                    assert forall|c: usize| c < i + 1 && remaining@[c as int] == 0 implies stack@
                        .contains(c) by {
                        if c == i {
                            assert(stack@[stack@.len() - 1] == i);
                        } else {
                            let k = choose|k: int| 0 <= k < stack0.len() && stack0[k] == c;
                            assert(stack@[k] == c);
                        }
                    }
                }
            }
            i = i + 1;
        }

        let ghost mut popped: Seq<usize> = Seq::empty();
        let mut popped_count: usize = 0;

        proof {
            broadcast use group_seq_properties;

            assert(Seq::<usize>::empty().to_set() =~= Set::<usize>::empty());
            assert forall|c: usize| c < n implies remaining@[c as int] == g.pending_parents(
                c,
                popped.to_set(),
            ).len() by {
                assert(g.pending_parents(c, Set::empty()) =~= g.pending_parents(
                    c,
                    popped.to_set(),
                ));
            }
        }

        while stack.len() > 0
            invariant
                remaining@.len() == n,
                popped_count == popped.len(),
                popped.no_duplicates(),
                forall|k: int| 0 <= k < popped.len() ==> (#[trigger] popped[k]) < n,
                popped.len() <= n,
                stack@.no_duplicates(),
                forall|k: int| 0 <= k < stack@.len() ==> (#[trigger] stack@[k]) < n,
                forall|k: int| 0 <= k < stack@.len() ==> !popped.contains(#[trigger] stack@[k]),
                forall|k: int| 0 <= k < stack@.len() ==> remaining@[(#[trigger] stack@[k]) as int]
                    == 0,
                forall|c: usize| c < n && remaining@[c as int] == 0 && !popped.contains(c)
                    ==> stack@.contains(c),
                forall|c: usize| c < n ==> remaining@[c as int] == g.pending_parents(
                    c,
                    popped.to_set(),
                ).len(),
                forall|k: int| 0 <= k < popped.len() ==> g.parents_of(
                    #[trigger] popped[k],
                ).to_set() <= popped.take(k).to_set(),
            decreases n - popped.len(),
        {
            let top = match stack.pop() {
                Some(t) => t,
                None => {
                    proof {
                        assert(false);
                    }
                    return Err(String::from_str("Idiot. Haven't you heard of a DAG above?"));
                },
            };
            proof {
                // the worklist holds unconsumed ids, so there is room to pop one more
                assert(popped.to_set().insert(top) <= ids_below(n as nat));
                popped.unique_seq_to_set();
                lemma_ids_below(n as nat);
                lemma_len_subset(popped.to_set().insert(top), ids_below(n as nat));
            }
            let ghost p0 = popped;
            proof {
                // all parents of top are already consumed
                assert(g.pending_parents(top, p0.to_set()).len() == 0);
                g.parents_of(top).unique_seq_to_set();
                vstd::seq_lib::seq_to_set_is_finite(g.parents_of(top));
                g.pending_parents(top, p0.to_set()).lemma_len0_is_empty();
                assert forall|q: usize| g.parents_of(top).to_set().contains(q) implies p0.to_set()
                    .contains(q) by {
                    assert(!g.pending_parents(top, p0.to_set()).contains(q));
                }
                popped = popped.push(top);
                assert(popped.take(popped.len() - 1) =~= p0);
                assert forall|k: int| 0 <= k < popped.len() implies g.parents_of(
                    #[trigger] popped[k],
                ).to_set() <= popped.take(k).to_set() by {
                    if k < p0.len() {
                        assert(popped[k] == p0[k]);
                        assert(popped.take(k) =~= p0.take(k));
                    } else {
                        assert(popped[k] == top);
                    }
                }
            }
            popped_count = popped_count + 1;

            let deps_len = self.nodes[top].deps.len();
            proof {
                assert(g.deps_of(top) == self.nodes@[top as int]@.deps);
            }
            let mut j: usize = 0;
            while j < deps_len
                invariant
                    j <= deps_len,
                    deps_len == g.deps_of(top).len(),
                    popped == p0.push(top),
                    remaining@.len() == n,
                    stack@.no_duplicates(),
                    forall|k: int| 0 <= k < stack@.len() ==> (#[trigger] stack@[k]) < n,
                    forall|k: int| 0 <= k < stack@.len() ==> !popped.contains(#[trigger] stack@[k]),
                    forall|k: int| 0 <= k < stack@.len() ==> remaining@[(#[trigger] stack@[k]) as int] == 0,
                    forall|c: usize| c < n && remaining@[c as int] == 0 && !popped.contains(c)
                        ==> stack@.contains(c),
                    forall|c: usize| c < n ==> remaining@[c as int] == (if g.deps_of(top).take(
                        j as int,
                    ).contains(c) {
                        g.pending_parents(c, popped.to_set()).len()
                    } else {
                        g.pending_parents(c, p0.to_set()).len()
                    }),
                decreases deps_len - j,
            {
                let child = self.nodes[top].deps[j];
                proof {
                    assert(g.deps_of(top)[j as int] == child);
                    assert(child < n);
                }
                let rem = remaining[child];
                proof {
                    // top is a pending parent of child, so the count is positive
                    assert(g.deps_of(top).contains(child));
                    assert(g.parents_of(child).contains(top));
                    assert(!g.deps_of(top).take(j as int).contains(child)) by {
                        if g.deps_of(top).take(j as int).contains(child) {
                            let k = choose|k: int|
                                0 <= k < j && g.deps_of(top).take(j as int)[k] == child;
                            assert(g.deps_of(top)[k] == g.deps_of(top)[j as int]);
                            assert(!g.deps_of(top).no_duplicates());
                        }
                    }
                    assert(g.pending_parents(child, p0.to_set()).contains(top));
                    g.parents_of(child).unique_seq_to_set();
                    vstd::seq_lib::seq_to_set_is_finite(g.parents_of(child));
                    if g.pending_parents(child, p0.to_set()).len() == 0 {
                        g.pending_parents(child, p0.to_set()).lemma_len0_is_empty();
                    }
                    assert(rem >= 1);
                    // consuming top removes exactly it from child's pending set
                    assert(g.pending_parents(child, popped.to_set()) =~= g.pending_parents(
                        child,
                        p0.to_set(),
                    ).remove(top));
                }
                remaining.set(child, rem - 1);
                if rem - 1 == 0 {
                    proof {
                        assert(!popped.contains(child)) by {
                            if popped.contains(child) {
                                if p0.contains(child) {
                                    // a consumed node keeps no pending parents, yet top is one
                                    // child was consumed only after all its parents,
                                    // yet top is one of them and was consumed just now
                                    let k = choose|k: int| 0 <= k < p0.len() && p0[k] == child;
                                    assert(g.parents_of(p0[k]).to_set() <= popped.take(k).to_set());
                                    assert(popped.take(k).to_set().contains(top));
                                    let k2 = choose|k2: int|
                                        0 <= k2 < k && popped.take(k)[k2] == top;
                                    assert(popped[k2] == top && popped[popped.len() - 1] == top);
                                    assert(!popped.no_duplicates());
                                } else {
                                    assert(child == top);
                                    // a self-edge would make top its own parent, severed above
                                    assert(g.pending_parents(top, p0.to_set()).len() == 0);
                                }
                            }
                        }
                        assert(!stack@.contains(child)) by {
                            if stack@.contains(child) {
                                let k = choose|k: int| 0 <= k < stack@.len() && stack@[k] == child;
                                // stack entries have a zero count, child's was positive
                            }
                        }
                    }
                    stack.push(child);
                }
                proof {
                    assert forall|c: usize| c < n implies remaining@[c as int] == (if g.deps_of(
                        top,
                    ).take(j + 1 as int).contains(c) {
                        g.pending_parents(c, popped.to_set()).len()
                    } else {
                        g.pending_parents(c, p0.to_set()).len()
                    }) by {
                        assert(g.deps_of(top).take(j + 1 as int) == g.deps_of(top).take(
                            j as int,
                        ).push(child));
                        if c != child && g.deps_of(top).take(j + 1 as int).contains(c)
                            == !g.deps_of(top).take(j as int).contains(c) {
                            assert(false);
                        }
                    }
                }
                j = j + 1;
            }
            proof {
                // children of top are exactly the nodes whose pending set mentions top
                assert forall|c: usize| c < n implies remaining@[c as int] == g.pending_parents(
                    c,
                    popped.to_set(),
                ).len() by {
                    assert(g.deps_of(top).take(deps_len as int) == g.deps_of(top));
                    if !g.deps_of(top).contains(c) {
                        assert(!g.parents_of(c).contains(top));
                        assert(g.pending_parents(c, popped.to_set()) =~= g.pending_parents(
                            c,
                            p0.to_set(),
                        ));
                    }
                }
            }
        }

        if popped_count == n {
            proof {
                // the consumption order is a topological order; turn it into ranks
                popped.unique_seq_to_set();
                lemma_ids_below(n as nat);
                lemma_len_subset(popped.to_set(), ids_below(n as nat));
                lemma_subset_equality(popped.to_set(), ids_below(n as nat));
                let r = Map::<usize, nat>::new(
                    |x: usize| true,
                    |x: usize| (n - popped.index_of(x)) as nat,
                );
                assert forall|p: usize, c: usize| #[trigger] g.edge(p, c) implies r[c] < r[p] by {
                    assert(g.deps_of(p).contains(c));
                    let idx = choose|idx: int| 0 <= idx < g.deps_of(p).len() && g.deps_of(
                        p,
                    )[idx] == c;
                    assert(c < n);
                    assert(ids_below(n as nat).contains(p) && ids_below(n as nat).contains(c));
                    assert(popped.contains(p) && popped.contains(c));
                    let kp = popped.index_of(p);
                    let kc = popped.index_of(c);
                    assert(0 <= kp < n && popped[kp] == p);
                    assert(0 <= kc < n && popped[kc] == c);
                    assert(g.parents_of(c).contains(p));
                    assert(g.parents_of(popped[kc]).to_set() <= popped.take(kc).to_set());
                    assert(popped.take(kc).to_set().contains(p));
                    let k2 = choose|k2: int| 0 <= k2 < kc && popped.take(kc)[k2] == p;
                    assert(popped[k2] == p);
                    assert(k2 == kp);
                    assert(kp < kc);
                }
                assert(g.rank_ok(r));
            }
            Ok(())
        } else {
            proof {
                // the leftovers each keep a leftover parent: no rank can order them
                if g.acyclic() {
                    let r = choose|r: Map<usize, nat>| g.rank_ok(r);
                    let s = ids_below(n as nat).difference(popped.to_set());
                    lemma_ids_below(n as nat);
                    popped.unique_seq_to_set();
                    assert(s.finite());
                    assert(s.len() > 0) by {
                        if s.len() == 0 {
                            s.lemma_len0_is_empty();
                            assert forall|x: usize| ids_below(n as nat).contains(x) implies popped
                                .to_set().contains(x) by {
                                assert(!s.contains(x));
                            }
                            lemma_len_subset(ids_below(n as nat), popped.to_set());
                        }
                    }
                    lemma_exists_max_rank(s, r);
                    let m = choose|m: usize|
                        #![trigger s.contains(m)]
                        s.contains(m) && forall|x: usize| s.contains(x) ==> r[x] <= r[m];
                    assert(m < n && !popped.contains(m));
                    assert(remaining@[m as int] > 0) by {
                        if remaining@[m as int] == 0 {
                            assert(stack@.contains(m));
                        }
                    }
                    let q = g.pending_parents(m, popped.to_set());
                    g.parents_of(m).unique_seq_to_set();
                    vstd::seq_lib::seq_to_set_is_finite(g.parents_of(m));
                    if q.len() == 0 {
                        q.lemma_len0_is_empty();
                    }
                    let par = q.choose();
                    assert(q.contains(par));
                    assert(g.parents_of(m).contains(par) && !popped.contains(par));
                    assert(par < n) by {
                        let k = choose|k: int|
                            0 <= k < g.parents_of(m).len() && g.parents_of(m)[k] == par;
                        assert(g.nodes[m as int].parents[k] < n);
                    }
                    assert(s.contains(par));
                    assert(g.deps_of(par).contains(m));
                    assert(g.edge(par, m));
                    assert(r[m] < r[par]);
                    assert(r[par] <= r[m]);
                    assert(false);
                }
            }
            Err(String::from_str("Idiot. Haven't you heard of a DAG above?"))
        }
    }
}

} // verus!
