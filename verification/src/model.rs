//! The mathematical model of the graph: what every contract of this library
//! is stated over.

use vstd::prelude::*;
use crate::dependencies::{distinct, reads};
use crate::state::{Invalid, Kind, State, Version};

verus! {

/// One node, as the contracts see it.
pub struct NodeView {
    pub kind: Kind,
    pub state: State,
    /// The hash of the value the node currently publishes.
    pub version: Version,
    /// The nodes this one has read, each with the version seen: what the
    /// evaluation that was installed last has read, and what an evaluation
    /// that is under way has read so far.
    pub dependencies: Seq<(usize, Version)>,
    /// The nodes that have read this one.
    pub dependents: Seq<usize>,
    /// How many armed reactions observe this node, counted once for every
    /// chain of reads that leads from the reaction to the node.
    pub observers: nat,
    /// For a reaction: whether it has been armed.
    pub armed: bool,
    /// Cleared when the node is released.
    pub alive: bool,
    /// The place of the node in the order in which nodes are brought up to
    /// date: a node stands above every node it has read. A new node starts
    /// at the bottom; a node that reads one that does not stand below it is
    /// raised above it, with everything that has read the node itself.
    pub rank: nat,
    /// Whether the function of the node is being run.
    pub busy: bool,
}

/// The whole graph, as the contracts see it. A node is named by its index,
/// which it is given when it is created.
pub struct GraphView {
    pub nodes: Seq<NodeView>,
    /// The reactions waiting to be rerun when the outermost batch ends.
    pub changed: Seq<usize>,
    /// Whether a batch is open.
    pub started: bool,
    /// Whether a deferred drain has been scheduled.
    pub microtask: bool,
}

impl NodeView {
    /// A node that has just been created.
    pub open spec fn fresh(kind: Kind, version: Version) -> NodeView {
        NodeView {
            kind,
            state: State::Invalid(Invalid::Definitely),
            version,
            dependencies: Seq::empty(),
            dependents: Seq::empty(),
            observers: 0,
            armed: false,
            alive: true,
            rank: 0,
            busy: false,
        }
    }

    /// Sources publish what is written to them and read nothing.
    pub open spec fn is_source(self) -> bool {
        self.kind == Kind::Var || self.kind == Kind::Const
    }
}

impl GraphView {
    /// A graph without nodes, outside any batch.
    pub open spec fn empty() -> GraphView {
        GraphView { nodes: Seq::empty(), changed: Seq::empty(), started: false, microtask: false }
    }

    /// `n` names a node of the graph.
    pub open spec fn has(self, n: usize) -> bool {
        (n as int) < self.nodes.len()
    }

    /// The node that `n` names.
    pub open spec fn node(self, n: usize) -> NodeView {
        self.nodes[n as int]
    }

    /// Node `n` is valid.
    pub open spec fn valid(self, n: usize) -> bool {
        self.node(n).state == State::Valid
    }

    /// `d` has read `u`.
    pub open spec fn uses(self, d: usize, u: usize) -> bool {
        reads(self.node(d).dependencies, u)
    }

    /// `u` lists `d` among the nodes that read it.
    pub open spec fn feeds(self, u: usize, d: usize) -> bool {
        self.node(u).dependents.contains(d)
    }

    /// Every node recorded in `deps` is valid and still publishes the
    /// version recorded for it.
    pub open spec fn fresh(self, deps: Seq<(usize, Version)>) -> bool {
        forall|i: int|
            0 <= i < deps.len() ==> {
                let e = #[trigger] deps[i];
                self.has(e.0) && self.valid(e.0) && self.node(e.0).version == e.1
            }
    }

    /// `x` has read `s`, directly or through a chain of other nodes.
    pub open spec fn depends_on(self, x: usize, s: usize) -> bool
        decreases self.node(x).rank,
    {
        self.has(x) && exists|i: int|
            0 <= i < self.node(x).dependencies.len() && {
                let u = (#[trigger] self.node(x).dependencies[i]).0;
                self.has(u) && self.under(u, x) && (u == s || self.depends_on(u, s))
            }
    }

    /// Every node recorded in `deps` is a node of the graph and stands
    /// below `n`.
    pub open spec fn stands_above(self, n: usize, deps: Seq<(usize, Version)>) -> bool {
        forall|i: int|
            0 <= i < deps.len() ==> self.has((#[trigger] deps[i]).0) && self.under(deps[i].0, n)
    }

    /// `u` stands below `d` in the order in which nodes are brought up to
    /// date.
    pub open spec fn under(self, u: usize, d: usize) -> bool {
        self.node(u).rank < self.node(d).rank
    }

    /// The shape of the graph is sound: the nodes can be named, reads are
    /// recorded on both sides, nothing is recorded twice, and a node stands
    /// above every node it has read, so that reads form no cycle.
    pub open spec fn shaped(self) -> bool {
        &&& self.nodes.len() <= usize::MAX
        &&& forall|d: usize| #![trigger self.node(d)]
            self.has(d) ==> {
                &&& distinct(self.node(d).dependencies)
                &&& self.node(d).dependents.no_duplicates()
                &&& self.node(d).is_source() ==> self.node(d).dependencies.len() == 0
                &&& self.node(d).armed ==> self.node(d).kind == Kind::Reaction && self.node(
                    d,
                ).alive
                &&& !self.node(d).alive ==> self.node(d).dependencies.len() == 0 && self.node(
                    d,
                ).dependents.len() == 0 && !self.valid(d)
                &&& self.node(d).rank <= usize::MAX
            }
        &&& forall|d: usize, u: usize|
            self.has(d) && #[trigger] self.uses(d, u) ==> self.has(u) && self.under(u, d)
        &&& forall|u: usize, d: usize| self.has(u) && #[trigger] self.feeds(u, d) ==> self.has(d)
        &&& forall|u: usize, d: usize|
            #![trigger self.feeds(u, d)]
            #![trigger self.uses(d, u)]
            self.has(u) && self.has(d) ==> (self.feeds(u, d) <==> self.uses(d, u))
        &&& forall|i: int|
            0 <= i < self.changed.len() ==> self.has(#[trigger] self.changed[i]) && self.node(
                self.changed[i],
            ).kind == Kind::Reaction
    }

    /// A valid node has read only valid nodes, and each of them still
    /// publishes the version that was read.
    pub open spec fn current(self) -> bool {
        forall|d: usize| self.has(d) && #[trigger] self.valid(d) ==> self.fresh(
            self.node(d).dependencies,
        )
    }

    /// The number of chains of reads that lead from an armed reaction to `n`,
    /// counting only the first `upto` of the nodes that read `n` as the last
    /// link.
    pub open spec fn paths_upto(self, n: usize, upto: int) -> nat
        decreases usize::MAX - self.node(n).rank, upto,
    {
        if !self.has(n) || upto <= 0 || upto > self.node(n).dependents.len() {
            0
        } else {
            let d = self.node(n).dependents[upto - 1];
            let through: nat = if self.under(n, d) && self.node(d).rank <= usize::MAX && self.has(
                d,
            ) {
                (if self.node(d).armed {
                    1nat
                } else {
                    0nat
                }) + self.paths_upto(d, self.node(d).dependents.len() as int)
            } else {
                0
            };
            self.paths_upto(n, upto - 1) + through
        }
    }

    /// The number of chains of reads that lead from an armed reaction to `n`.
    pub open spec fn paths(self, n: usize) -> nat {
        self.paths_upto(n, self.node(n).dependents.len() as int)
    }

    /// What `d` adds to the count of each node it reads: one if it is an
    /// armed reaction, and one for every chain that reaches it.
    pub open spec fn weight(self, d: usize) -> nat {
        (if self.node(d).armed {
            1nat
        } else {
            0nat
        }) + self.paths(d)
    }

    /// Every node's observer count is the number of chains of reads that lead
    /// from an armed reaction to it; a count that does not fit is held at the
    /// largest value.
    pub open spec fn counted(self) -> bool {
        forall|n: usize| self.has(n) ==> (#[trigger] self.node(n)).observers == saturated(
            self.paths(n),
        )
    }

    /// The invariant of the graph.
    pub open spec fn wf(self) -> bool {
        &&& self.shaped()
        &&& self.current()
        &&& self.counted()
    }

    /// The graph with node `n` replaced.
    pub open spec fn with_node(self, n: usize, node: NodeView) -> GraphView {
        GraphView { nodes: self.nodes.update(n as int, node), ..self }
    }

    /// The graph with the state of node `n` replaced.
    pub open spec fn with_state(self, n: usize, state: State) -> GraphView {
        self.with_node(n, NodeView { state, ..self.node(n) })
    }

    /// The graph with the version that node `n` publishes replaced.
    pub open spec fn with_version(self, n: usize, version: Version) -> GraphView {
        self.with_node(n, NodeView { version, ..self.node(n) })
    }

    /// The graph with one more node at the end.
    pub open spec fn with_new(self, kind: Kind, version: Version) -> GraphView {
        GraphView { nodes: self.nodes.push(NodeView::fresh(kind, version)), ..self }
    }

    /// `next` may have come about from `self` in the course of an
    /// evaluation: every node is still there and of the kind it was, the
    /// functions that are being run are the same, and the batch is as it
    /// was, but that a deferred drain may have been scheduled.
    pub open spec fn evolves(self, next: GraphView) -> bool {
        &&& self.keeps_kinds(next)
        &&& next.started == self.started
        &&& self.microtask ==> next.microtask
    }

    /// Every node of `self` is a node of `next`, and of the same kind; and
    /// the functions that are being run are the same.
    pub open spec fn keeps_kinds(self, next: GraphView) -> bool {
        &&& self.nodes.len() <= next.nodes.len()
        &&& forall|x: usize|
            self.has(x) ==> (#[trigger] next.node(x)).kind == self.node(x).kind && next.node(
                x,
            ).busy == self.node(x).busy
    }

    /// No function is being run.
    pub open spec fn idle(self) -> bool {
        forall|x: usize| self.has(x) ==> !(#[trigger] self.node(x)).busy
    }

    /// The graph with node `n` marked as one whose function is being run,
    /// or not.
    pub open spec fn with_busy(self, n: usize, busy: bool) -> GraphView {
        self.with_node(n, NodeView { busy, ..self.node(n) })
    }

    /// `next` has the nodes of `self`, and each has read the same nodes and
    /// has the same rank.
    pub open spec fn same_reads(self, next: GraphView) -> bool {
        &&& next.nodes.len() == self.nodes.len()
        &&& forall|x: usize|
            self.has(x) ==> (#[trigger] next.node(x)).dependencies == self.node(x).dependencies
                && next.node(x).rank == self.node(x).rank
    }

    /// `next` differs from `self` at most in the states of its nodes and in
    /// the queue of changed reactions.
    pub open spec fn same_shape(self, next: GraphView) -> bool {
        &&& next.nodes.len() == self.nodes.len()
        &&& next.started == self.started
        &&& next.microtask == self.microtask
        &&& forall|x: usize| #![trigger next.node(x)]
            self.has(x) ==> next.node(x) == (NodeView { state: next.node(x).state, ..self.node(x) })
    }
}

/// A count as it is stored: itself where it fits into 64 bits, else the
/// largest value that does.
pub open spec fn saturated(count: nat) -> nat {
    if count > u64::MAX {
        u64::MAX as nat
    } else {
        count
    }
}

/// Nodes keep their kinds over any number of steps.
pub proof fn lemma_keeps_kinds_chain(a: GraphView, b: GraphView, c: GraphView)
    requires
        a.keeps_kinds(b),
        b.keeps_kinds(c),
    ensures
        a.keeps_kinds(c),
{
    assert forall|x: usize| a.has(x) implies (#[trigger] c.node(x)).kind == a.node(x).kind by {
        assert(b.has(x));
        assert(b.node(x).kind == a.node(x).kind);
    }
}

} // verus!
