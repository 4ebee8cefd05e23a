//! Which changes leave the invariant of the graph alone.

use vstd::prelude::*;
use crate::dependencies::distinct;
use crate::model::{saturated, GraphView};
use crate::state::Kind;

verus! {

impl GraphView {
    /// `next` has the nodes of `self`, of the same kinds and ranks, with the
    /// same reads recorded on both sides; what may differ are states, versions,
    /// armed reactions, counts, released nodes, the queue and the flags.
    pub open spec fn same_links(self, next: GraphView) -> bool {
        &&& next.nodes.len() == self.nodes.len()
        &&& forall|x: usize| #![trigger next.node(x)]
            self.has(x) ==> {
                &&& next.node(x).kind == self.node(x).kind
                &&& next.node(x).dependencies == self.node(x).dependencies
                &&& next.node(x).dependents == self.node(x).dependents
                &&& next.node(x).rank == self.node(x).rank
            }
    }
}

/// The shape of the graph survives any change that keeps the links, arms
/// only living reactions, leaves no released node valid or linked, and
/// queues only reactions.
pub proof fn lemma_shape_kept(g: GraphView, h: GraphView)
    requires
        g.shaped(),
        g.same_links(h),
        forall|x: usize| #![trigger h.node(x)]
            g.has(x) ==> {
                &&& h.node(x).armed ==> h.node(x).kind == Kind::Reaction && h.node(x).alive
                &&& !h.node(x).alive ==> h.node(x).dependencies.len() == 0 && h.node(
                    x,
                ).dependents.len() == 0 && !h.valid(x)
            },
        forall|i: int|
            0 <= i < h.changed.len() ==> g.has(#[trigger] h.changed[i]) && g.node(
                h.changed[i],
            ).kind == Kind::Reaction,
    ensures
        h.shaped(),
{
    assert forall|d: usize| #![trigger h.node(d)] h.has(d) implies {
        &&& distinct(h.node(d).dependencies)
        &&& h.node(d).dependents.no_duplicates()
        &&& h.node(d).is_source() ==> h.node(d).dependencies.len() == 0
        &&& h.node(d).armed ==> h.node(d).kind == Kind::Reaction && h.node(d).alive
        &&& !h.node(d).alive ==> h.node(d).dependencies.len() == 0 && h.node(d).dependents.len()
            == 0 && !h.valid(d)
        &&& h.node(d).rank <= usize::MAX
    } by {
        let a = g.node(d);
    }
    assert forall|d: usize, u: usize| h.has(d) && #[trigger] h.uses(d, u) implies h.has(u)
        && h.under(u, d) by {
        assert(h.node(d).dependencies == g.node(d).dependencies);
        assert(g.uses(d, u));
        assert(g.has(u) && g.under(u, d));
        assert(h.node(u).rank == g.node(u).rank);
        assert(h.node(d).rank == g.node(d).rank);
    }
    assert forall|u: usize, d: usize| h.has(u) && #[trigger] h.feeds(u, d) implies h.has(d) by {
        assert(h.node(u).dependents == g.node(u).dependents);
        assert(g.feeds(u, d));
    }
    assert forall|u: usize, d: usize|
        #![trigger h.feeds(u, d)]
        #![trigger h.uses(d, u)]
        h.has(u) && h.has(d) implies (h.feeds(u, d) <==> h.uses(d, u)) by {
        assert(h.node(u).dependents == g.node(u).dependents);
        assert(h.node(d).dependencies == g.node(d).dependencies);
        assert(g.feeds(u, d) <==> g.uses(d, u));
    }
    assert forall|i: int| 0 <= i < h.changed.len() implies h.has(#[trigger] h.changed[i])
        && h.node(h.changed[i]).kind == Kind::Reaction by {
        let r = h.changed[i];
        assert(h.node(r).kind == g.node(r).kind);
    }
}

/// What valid nodes have read stays valid and unchanged under any change
/// that keeps the links, makes no node valid that was not, and leaves valid
/// and unchanged what a node that stays valid has read.
pub proof fn lemma_current_kept(g: GraphView, h: GraphView)
    requires
        g.shaped(),
        g.current(),
        g.same_links(h),
        forall|x: usize| g.has(x) && #[trigger] h.valid(x) ==> g.valid(x),
        forall|d: usize, u: usize|
            g.has(d) && h.valid(d) && #[trigger] g.uses(d, u) ==> h.valid(u) && h.node(u).version
                == g.node(u).version,
    ensures
        h.current(),
{
    assert forall|d: usize| h.has(d) && #[trigger] h.valid(d) implies h.fresh(
        h.node(d).dependencies,
    ) by {
        assert(g.valid(d));
        let deps = g.node(d).dependencies;
        assert(h.node(d).dependencies == deps);
        assert(g.fresh(deps));
        assert forall|i: int| 0 <= i < deps.len() implies {
            let e = #[trigger] deps[i];
            h.has(e.0) && h.valid(e.0) && h.node(e.0).version == e.1
        } by {
            let u = deps[i].0;
            assert(g.has(u) && g.valid(u) && g.node(u).version == deps[i].1);
            assert(g.uses(d, u));
        }
    }
}

/// What a valid node has read is there, is valid, and stands below the
/// node.
pub proof fn lemma_read_is_fresh(g: GraphView, d: usize, u: usize)
    requires
        g.shaped(),
        g.current(),
        g.has(d),
        g.valid(d),
        g.uses(d, u),
    ensures
        g.has(u),
        g.valid(u),
        g.under(u, d),
        g.feeds(u, d),
{
    let i = choose|i: int|
        0 <= i < g.node(d).dependencies.len() && (#[trigger] g.node(d).dependencies[i]).0 == u;
    assert(g.fresh(g.node(d).dependencies));
    assert(g.has(g.node(d).dependencies[i].0));
}

/// The number of chains that reach a node depends only on which nodes read
/// which, in which order they stand, and on which reactions are armed.
pub proof fn lemma_paths_same_links(g: GraphView, h: GraphView, n: usize, upto: int)
    requires
        h.nodes.len() == g.nodes.len(),
        forall|x: usize|
            g.has(x) ==> (#[trigger] h.node(x)).dependents == g.node(x).dependents && h.node(
                x,
            ).armed == g.node(x).armed && h.node(x).rank == g.node(x).rank,
    ensures
        g.paths_upto(n, upto) == h.paths_upto(n, upto),
    decreases usize::MAX - g.node(n).rank, upto,
{
    if !g.has(n) || upto <= 0 || upto > g.node(n).dependents.len() {
        if g.has(n) {
            assert(h.node(n).dependents == g.node(n).dependents);
        }
    } else {
        assert(h.node(n).dependents == g.node(n).dependents);
        let d = g.node(n).dependents[upto - 1];
        lemma_paths_same_links(g, h, n, upto - 1);
        assert(h.node(n).rank == g.node(n).rank);
        if g.has(d) {
            assert(h.node(d).rank == g.node(d).rank);
        }
        if g.under(n, d) && g.node(d).rank <= usize::MAX && g.has(d) {
            assert(h.node(d).dependents == g.node(d).dependents);
            assert(h.node(d).armed == g.node(d).armed);
            lemma_paths_same_links(g, h, d, g.node(d).dependents.len() as int);
        }
    }
}

/// The counts stay right where neither the readers of any node nor the
/// ranks nor the armed reactions nor the counts themselves have changed.
pub proof fn lemma_counts_kept(g: GraphView, h: GraphView)
    requires
        g.counted(),
        h.nodes.len() == g.nodes.len(),
        forall|x: usize|
            g.has(x) ==> (#[trigger] h.node(x)).dependents == g.node(x).dependents && h.node(
                x,
            ).armed == g.node(x).armed && h.node(x).observers == g.node(x).observers && h.node(
                x,
            ).rank == g.node(x).rank,
    ensures
        h.counted(),
{
    assert forall|x: usize| h.has(x) implies (#[trigger] h.node(x)).observers == saturated(
        h.paths(x),
    ) by {
        assert(g.node(x).observers == saturated(g.paths(x)));
        lemma_paths_same_links(g, h, x, g.node(x).dependents.len() as int);
    }
}

} // verus!
