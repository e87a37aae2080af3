//! The listing traversal: decides which nodes are shown, at what
//! indentation, and with which color token. Writing the lines to the
//! terminal is the caller's business.

use vstd::prelude::*;

use crate::config::ConfigView;
use crate::graph::{Graph, GraphView};
use crate::messages;
use crate::node::NodeType;

verus! {

/// One line of a listing: the node to print, its indentation, and what to
/// print it with.
#[derive(Debug)]
pub struct RenderLine {
    pub id: usize,
    pub level: u128,
    pub description: String,
    pub node_type: NodeType,
    pub color: String,
}

/// The indentation below a printed node; the step saturates at the top of
/// `u128` instead of overflowing.
pub open spec fn spec_next_level(level: u128) -> u128 {
    if level < u128::MAX {
        (level + 1) as u128
    } else {
        level
    }
}

/// The color token the configuration assigns to a node kind.
pub open spec fn spec_color(c: ConfigView, t: NodeType) -> Seq<char> {
    match t {
        NodeType::Goal => c.goal_color,
        NodeType::Condition => c.condition_color,
        NodeType::Task => c.task_color,
    }
}

/// The lines' (node, indentation) pairs.
pub open spec fn line_pairs(lines: Seq<RenderLine>) -> Seq<(usize, u128)> {
    lines.map_values(|l: RenderLine| (l.id, l.level))
}

/// A line faithfully renders its node: right description, right kind, and
/// the kind's configured color.
pub open spec fn line_ok(g: GraphView, l: RenderLine) -> bool {
    &&& l.id < g.nodes.len()
    &&& l.description@ == g.node_at(l.id).description
    &&& l.node_type == g.node_at(l.id).node_type
    &&& l.color@ == spec_color(g.config, g.node_at(l.id).node_type)
}

proof fn lemma_line_pairs_push(s: Seq<RenderLine>, l: RenderLine)
    ensures
        line_pairs(s.push(l)) == line_pairs(s).push((l.id, l.level)),
{
    assert(line_pairs(s.push(l)) =~= line_pairs(s).push((l.id, l.level)));
}

proof fn lemma_line_pairs_empty()
    ensures
        line_pairs(Seq::empty()) == Seq::<(usize, u128)>::empty(),
{
    assert(line_pairs(Seq::empty()) =~= Seq::<(usize, u128)>::empty());
}

impl GraphView {
    /// The visibility rule: everything under overwhelm; otherwise goals
    /// always, and leaves (nodes with no dependencies) always.
    pub open spec fn visible(self, i: usize, overwhelm: bool) -> bool {
        ||| overwhelm
        ||| self.node_at(i).node_type is Goal
        ||| self.node_at(i).deps.len() == 0
    }

    /// Whether the traversal stops descending at `i`: hiding is on, `i`
    /// is a goal named like the backlog, and the traversal did not start
    /// at `i` itself.
    pub open spec fn backlog_stop(self, i: usize, started_from: Option<usize>) -> bool {
        &&& self.config.hide_backlog_items
        &&& self.node_at(i).node_type is Goal
        &&& self.node_at(i).description == self.config.backlog_name
        &&& started_from != Some(i)
    }

    /// A rank function fixed once per graph; the traversal's termination
    /// measure.
    pub open spec fn some_rank(self) -> Map<usize, nat> {
        choose|r: Map<usize, nat>| self.rank_ok(r)
    }

    /// The listing below `i`: `i`'s own line when visible, then its
    /// dependencies' listings — one level deeper when `i` was printed,
    /// at the same level when it was skipped — cut off entirely at an
    /// unexpanded backlog goal.
    pub open spec fn listing_from(
        self,
        i: usize,
        level: u128,
        overwhelm: bool,
        started_from: Option<usize>,
    ) -> Seq<(usize, u128)>
        decreases self.some_rank()[i], 1nat, 0nat,
        when self.valid() && i < self.nodes.len()
    {
        let own: Seq<(usize, u128)> = if self.visible(i, overwhelm) {
            seq![(i, level)]
        } else {
            Seq::empty()
        };
        let child_level = if self.visible(i, overwhelm) {
            spec_next_level(level)
        } else {
            level
        };
        if self.backlog_stop(i, started_from) {
            own
        } else {
            own + self.listing_children(i, 0, child_level, overwhelm, started_from)
        }
    }

    /// The concatenated listings of `i`'s dependencies, from position `j`
    /// of its dependency list on.
    pub open spec fn listing_children(
        self,
        i: usize,
        j: int,
        level: u128,
        overwhelm: bool,
        started_from: Option<usize>,
    ) -> Seq<(usize, u128)>
        decreases self.some_rank()[i], 0nat, self.deps_of(i).len() - j,
        when self.valid() && i < self.nodes.len() && 0 <= j <= self.deps_of(i).len()
    {
        if j == self.deps_of(i).len() {
            Seq::empty()
        } else {
            proof {
                self.lemma_child_rank(i, j);
            }
            self.listing_from(self.deps_of(i)[j], level, overwhelm, started_from)
                + self.listing_children(i, j + 1, level, overwhelm, started_from)
        }
    }

    /// In a valid graph the chosen rank really is one, and it drops from
    /// a node to each of its dependencies.
    pub proof fn lemma_child_rank(self, i: usize, j: int)
        requires
            self.valid(),
            i < self.nodes.len(),
            0 <= j < self.deps_of(i).len(),
        ensures
            self.deps_of(i)[j] < self.nodes.len(),
            self.some_rank()[self.deps_of(i)[j]] < self.some_rank()[i],
    {
        assert(self.rank_ok(self.some_rank()));
        assert(self.deps_of(i).contains(self.deps_of(i)[j]));
        assert(self.edge(i, self.deps_of(i)[j]));
        assert(self.list_closed(self.nodes[i as int].deps));
    }

    /// The default listing over every parentless node, from id `i` on.
    pub open spec fn roots_listing(self, i: int, overwhelm: bool) -> Seq<(usize, u128)>
        decreases self.nodes.len() - i,
        when self.valid() && 0 <= i <= self.nodes.len()
    {
        if i == self.nodes.len() {
            Seq::empty()
        } else {
            (if self.parents_of(i as usize).len() == 0 {
                self.listing_from(i as usize, 0, overwhelm, None)
            } else {
                Seq::empty()
            }) + self.roots_listing(i + 1, overwhelm)
        }
    }
}

impl Graph {
    /// Builds the one line that prints node `id` at `level`. Fails
    /// exactly when the id names no node.
    pub fn print_node(&self, id: usize, level: u128) -> (r: Result<RenderLine, String>)
        ensures
            r is Ok <==> id < self@.node_count(),
            r matches Ok(l) ==> l.id == id && l.level == level && line_ok(self@, l),
    {
        if id >= self.nodes.len() {
            return Err(messages::node_not_found(id));
        }
        Ok(self.render_line(id, level))
    }

    /// The formatted line for an existing node.
    fn render_line(&self, id: usize, level: u128) -> (l: RenderLine)
        requires
            id < self@.node_count(),
        ensures
            l.id == id,
            l.level == level,
            line_ok(self@, l),
    {
        let node = &self.nodes[id];
        let color = match node.node_type {
            NodeType::Goal => self.config.goal_color.clone(),
            NodeType::Condition => self.config.condition_color.clone(),
            NodeType::Task => self.config.task_color.clone(),
        };
        RenderLine {
            id,
            level,
            description: node.description.clone(),
            node_type: node.node_type,
            color,
        }
    }

    /// Appends the listing below `i` to `out`.
    #[verifier::loop_isolation(false)]
    fn show_rec(
        &self,
        i: usize,
        level: u128,
        overwhelm: bool,
        started_from: Option<usize>,
        out: &mut Vec<RenderLine>,
    )
        requires
            self@.valid(),
            i < self@.node_count(),
        ensures
            line_pairs(final(out)@) == line_pairs(old(out)@) + self@.listing_from(
                i,
                level,
                overwhelm,
                started_from,
            ),
            forall|k: int| 0 <= k < old(out)@.len() ==> final(out)@[k] == old(out)@[k],
            forall|k: int| old(out)@.len() <= k < final(out)@.len() ==> line_ok(
                self@,
                #[trigger] final(out)@[k],
            ),
        decreases self@.some_rank()[i],
    {
        let ghost g = self@;
        let ghost out0 = out@;
        let visible = overwhelm || self.nodes[i].node_type == NodeType::Goal
            || self.nodes[i].deps.len() == 0;
        proof {
            assert(visible == g.visible(i, overwhelm));
        }
        let mut child_level = level;
        if visible {
            let line = self.render_line(i, level);
            proof {
                lemma_line_pairs_push(out@, line);
            }
            out.push(line);
            if level < u128::MAX {
                child_level = level + 1;
            }
        }
        let ghost own: Seq<(usize, u128)> = if g.visible(i, overwhelm) {
            seq![(i, level)]
        } else {
            Seq::empty()
        };
        proof {
            assert(line_pairs(out@) =~= out0.map_values(|l: RenderLine| (l.id, l.level)) + own);
            assert(child_level == (if g.visible(i, overwhelm) {
                spec_next_level(level)
            } else {
                level
            }));
        }
        let anchored = match started_from {
            Some(s) => s == i,
            None => false,
        };
        let stop = self.config.hide_backlog_items && self.nodes[i].node_type == NodeType::Goal
            && self.nodes[i].description == self.config.backlog_name && !anchored;
        proof {
            assert(stop == g.backlog_stop(i, started_from));
        }
        if stop {
            proof {
                assert(g.listing_from(i, level, overwhelm, started_from) == own);
            }
            return;
        }
        let dl = self.nodes[i].deps.len();
        let mut j: usize = 0;
        while j < dl
            invariant
                j <= dl,
                dl == g.deps_of(i).len(),
                line_pairs(out@) + g.listing_children(
                    i,
                    j as int,
                    child_level,
                    overwhelm,
                    started_from,
                ) == line_pairs(out0) + g.listing_from(i, level, overwhelm, started_from),
                forall|k: int| 0 <= k < out0.len() ==> out@[k] == out0[k],
                out@.len() >= out0.len(),
                forall|k: int| out0.len() <= k < out@.len() ==> line_ok(g, #[trigger] out@[k]),
            decreases dl - j,
        {
            let c = self.nodes[i].deps[j];
            proof {
                g.lemma_child_rank(i, j as int);
                assert(c == g.deps_of(i)[j as int]);
            }
            let ghost mid = out@;
            self.show_rec(c, child_level, overwhelm, started_from, out);
            proof {
                assert(g.listing_children(i, j as int, child_level, overwhelm, started_from)
                    == g.listing_from(c, child_level, overwhelm, started_from)
                    + g.listing_children(i, j + 1 as int, child_level, overwhelm, started_from));
                assert(line_pairs(out@) + g.listing_children(
                    i,
                    j + 1 as int,
                    child_level,
                    overwhelm,
                    started_from,
                ) =~= line_pairs(out0) + g.listing_from(i, level, overwhelm, started_from));
                assert forall|k: int| 0 <= k < out0.len() implies out@[k] == out0[k] by {
                    assert(out@[k] == mid[k]);
                }
            }
            j = j + 1;
        }
        proof {
            assert(g.listing_children(i, dl as int, child_level, overwhelm, started_from)
                =~= Seq::<(usize, u128)>::empty());
            assert(line_pairs(out@) =~= line_pairs(out0) + g.listing_from(
                i,
                level,
                overwhelm,
                started_from,
            ));
        }
    }

    /// Lists the subtree anchored at `parent`: every line the visibility
    /// and backlog rules admit, in traversal order. Fails exactly when
    /// the id names no node.
    pub fn show(
        &self,
        parent: &usize,
        level: u128,
        overwhelm: bool,
        started_from: Option<usize>,
    ) -> (r: Result<Vec<RenderLine>, String>)
        requires
            self@.valid(),
        ensures
            r is Ok <==> *parent < self@.node_count(),
            r matches Ok(lines) ==> line_pairs(lines@) == self@.listing_from(
                *parent,
                level,
                overwhelm,
                started_from,
            ) && (forall|k: int| 0 <= k < lines@.len() ==> line_ok(self@, #[trigger] lines@[k])),
    {
        if *parent >= self.nodes.len() {
            return Err(messages::node_missing(*parent));
        }
        let mut out: Vec<RenderLine> = Vec::new();
        proof {
            lemma_line_pairs_empty();
        }
        self.show_rec(*parent, level, overwhelm, started_from, &mut out);
        proof {
            assert(line_pairs(out@) =~= self@.listing_from(
                *parent,
                level,
                overwhelm,
                started_from,
            ));
        }
        Ok(out)
    }

    /// The default listing: anchored at the effective root when one is
    /// configured (which also collapses a backlog goal reached below it),
    /// else one subtree per parentless node, in id order. Fails exactly
    /// when the configured root no longer names a node.
    #[verifier::loop_isolation(false)]
    pub fn todos(&self, overwhelm: bool) -> (r: Result<Vec<RenderLine>, String>)
        requires
            self@.valid(),
        ensures
            (match self@.effective_root {
                Some(root) => r is Ok <==> root < self@.node_count(),
                None => r is Ok,
            }),
            r matches Ok(lines) ==> line_pairs(lines@) == (match self@.effective_root {
                Some(root) => self@.listing_from(root, 0, overwhelm, Some(root)),
                None => self@.roots_listing(0, overwhelm),
            }) && (forall|k: int| 0 <= k < lines@.len() ==> line_ok(self@, #[trigger] lines@[k])),
    {
        let ghost g = self@;
        match self.effective_root {
            Some(root) => self.show(&root, 0, overwhelm, Some(root)),
            None => {
                let mut out: Vec<RenderLine> = Vec::new();
                proof {
                    lemma_line_pairs_empty();
                }
                let n = self.nodes.len();
                let mut i: usize = 0;
                while i < n
                    invariant
                        i <= n,
                        line_pairs(out@) + g.roots_listing(i as int, overwhelm) == g.roots_listing(
                            0,
                            overwhelm,
                        ),
                        forall|k: int| 0 <= k < out@.len() ==> line_ok(g, #[trigger] out@[k]),
                    decreases n - i,
                {
                    let ghost mid = out@;
                    if self.nodes[i].parents.len() == 0 {
                        self.show_rec(i, 0, overwhelm, None, &mut out);
                    }
                    proof {
                        assert(g.roots_listing(i as int, overwhelm) == (if g.parents_of(
                            i,
                        ).len() == 0 {
                            g.listing_from(i, 0, overwhelm, None)
                        } else {
                            Seq::empty()
                        }) + g.roots_listing(i + 1, overwhelm));
                        assert(line_pairs(out@) + g.roots_listing(i + 1, overwhelm)
                            =~= line_pairs(mid) + (if g.parents_of(i).len() == 0 {
                            g.listing_from(i, 0, overwhelm, None)
                        } else {
                            Seq::empty()
                        }) + g.roots_listing(i + 1, overwhelm));
                        assert(line_pairs(mid) + (if g.parents_of(i).len() == 0 {
                            g.listing_from(i, 0, overwhelm, None)
                        } else {
                            Seq::empty()
                        }) + g.roots_listing(i + 1, overwhelm) =~= line_pairs(mid)
                            + g.roots_listing(i as int, overwhelm));
                    }
                    i = i + 1;
                }
                proof {
                    assert(g.roots_listing(n as int, overwhelm) =~= Seq::<(usize, u128)>::empty());
                    assert(line_pairs(out@) =~= g.roots_listing(0, overwhelm));
                }
                Ok(out)
            },
        }
    }
}

/// Every node a listing mentions sits at or below the start's rank; the
/// nodes below the start sit strictly below it.
proof fn lemma_listing_ranks(
    g: GraphView,
    i: usize,
    level: u128,
    overwhelm: bool,
    started_from: Option<usize>,
)
    requires
        g.valid(),
        i < g.nodes.len(),
    ensures
        forall|k: int|
            0 <= k < g.listing_from(i, level, overwhelm, started_from).len()
                ==> g.some_rank()[(#[trigger] g.listing_from(i, level, overwhelm, started_from)[k]).0]
                <= g.some_rank()[i],
    decreases g.some_rank()[i], 1nat, 0nat,
{
    let child_level = if g.visible(i, overwhelm) {
        spec_next_level(level)
    } else {
        level
    };
    lemma_children_ranks(g, i, 0, child_level, overwhelm, started_from);
    let body = g.listing_from(i, level, overwhelm, started_from);
    let own: Seq<(usize, u128)> = if g.visible(i, overwhelm) {
        seq![(i, level)]
    } else {
        Seq::empty()
    };
    let children = g.listing_children(i, 0, child_level, overwhelm, started_from);
    assert forall|k: int| 0 <= k < body.len() implies g.some_rank()[(#[trigger] body[k]).0]
        <= g.some_rank()[i] by {
        if g.backlog_stop(i, started_from) {
            assert(body == own);
            assert(body[k] == (i, level));
        } else {
            assert(body == own + children);
            if k < own.len() {
                assert(body[k] == (i, level));
            } else {
                assert(body[k] == children[k - own.len()]);
            }
        }
    }
}

proof fn lemma_children_ranks(
    g: GraphView,
    i: usize,
    j: int,
    level: u128,
    overwhelm: bool,
    started_from: Option<usize>,
)
    requires
        g.valid(),
        i < g.nodes.len(),
        0 <= j <= g.deps_of(i).len(),
    ensures
        forall|k: int|
            0 <= k < g.listing_children(i, j, level, overwhelm, started_from).len()
                ==> g.some_rank()[(#[trigger] g.listing_children(i, j, level, overwhelm, started_from)[k]).0]
                < g.some_rank()[i],
    decreases g.some_rank()[i], 0nat, g.deps_of(i).len() - j,
{
    if j < g.deps_of(i).len() {
        let c = g.deps_of(i)[j];
        g.lemma_child_rank(i, j);
        lemma_listing_ranks(g, c, level, overwhelm, started_from);
        lemma_children_ranks(g, i, j + 1, level, overwhelm, started_from);
        let front = g.listing_from(c, level, overwhelm, started_from);
        let back = g.listing_children(i, j + 1, level, overwhelm, started_from);
        assert forall|k: int|
            0 <= k < g.listing_children(i, j, level, overwhelm, started_from).len() implies g.some_rank()[(#[trigger] g.listing_children(i, j, level, overwhelm, started_from)[k]).0]
            < g.some_rank()[i] by {
            if k < front.len() {
                assert(g.listing_children(i, j, level, overwhelm, started_from)[k] == front[k]);
            } else {
                assert(g.listing_children(i, j, level, overwhelm, started_from)[k] == back[k
                    - front.len()]);
            }
        }
    }
}

/// The visibility rule, seen in the listing itself: a visible node opens
/// its own listing with its line at the given level; an invisible one —
/// a task or condition with dependencies, outside overwhelm mode — never
/// appears in it at all. In particular a goal is always printed, and so
/// is a leaf task.
pub proof fn lemma_visibility(
    g: GraphView,
    i: usize,
    level: u128,
    overwhelm: bool,
    started_from: Option<usize>,
)
    requires
        g.valid(),
        i < g.nodes.len(),
    ensures
        g.visible(i, overwhelm) ==> g.listing_from(i, level, overwhelm, started_from).len() > 0
            && g.listing_from(i, level, overwhelm, started_from)[0] == (i, level),
        !g.visible(i, overwhelm) ==> forall|l: u128|
            !g.listing_from(i, level, overwhelm, started_from).contains((i, l)),
{
    if !g.visible(i, overwhelm) {
        let body = g.listing_from(i, level, overwhelm, started_from);
        let children = g.listing_children(i, 0, level, overwhelm, started_from);
        lemma_children_ranks(g, i, 0, level, overwhelm, started_from);
        assert forall|l: u128| !body.contains((i, l)) by {
            if body.contains((i, l)) {
                let k = choose|k: int| 0 <= k < body.len() && body[k] == (i, l);
                if g.backlog_stop(i, started_from) {
                } else {
                    assert(body[k] == children[k]);
                    assert(g.some_rank()[children[k].0] < g.some_rank()[i]);
                    assert(children[k].0 == i);
                }
            }
        }
    }
}

/// Backlog hiding: with hiding enabled, a goal named like the backlog
/// contributes exactly its own line when the traversal was started
/// anywhere else, and expands all its dependencies when the traversal is
/// anchored at the goal itself.
pub proof fn lemma_backlog(
    g: GraphView,
    i: usize,
    level: u128,
    overwhelm: bool,
    started_from: Option<usize>,
)
    requires
        g.valid(),
        i < g.nodes.len(),
        g.config.hide_backlog_items,
        g.node_at(i).node_type is Goal,
        g.node_at(i).description == g.config.backlog_name,
    ensures
        started_from != Some(i) ==> g.listing_from(i, level, overwhelm, started_from) == seq![
            (i, level),
        ],
        g.listing_from(i, level, overwhelm, Some(i)) == seq![(i, level)] + g.listing_children(
            i,
            0,
            spec_next_level(level),
            overwhelm,
            Some(i),
        ),
{
    assert(g.visible(i, overwhelm));
    if started_from != Some(i) {
        assert(g.backlog_stop(i, started_from));
    }
    assert(!g.backlog_stop(i, Some(i)));
}

} // verus!
