//! The graph itself: the nodes, the queue of changed reactions and the batch
//! flags, with the operations that create nodes and read their bookkeeping.

use vstd::prelude::*;
use crate::dependencies::{reads, Dependencies};
use crate::model::{saturated, GraphView, NodeView};
use crate::state::{Invalid, Kind, State, Version};

verus! {

/// The bookkeeping of one cell.
pub struct Node {
    kind: Kind,
    state: State,
    version: Version,
    dependencies: Dependencies,
    dependents: Vec<usize>,
    observers: u64,
    armed: bool,
    alive: bool,
    rank: usize,
    busy: bool,
}

impl View for Node {
    type V = NodeView;

    closed spec fn view(&self) -> NodeView {
        NodeView {
            kind: self.kind,
            state: self.state,
            version: self.version,
            dependencies: self.dependencies@,
            dependents: self.dependents@,
            observers: self.observers as nat,
            armed: self.armed,
            alive: self.alive,
            rank: self.rank as nat,
            busy: self.busy,
        }
    }
}

/// A reactive graph. Nodes are named by their index, in order of creation.
/// Every node has a rank above the ranks of the nodes it has read.
pub struct Graph {
    nodes: Vec<Node>,
    changed: Vec<usize>,
    started: bool,
    microtask: bool,
}

impl View for Graph {
    type V = GraphView;

    closed spec fn view(&self) -> GraphView {
        GraphView {
            nodes: Seq::new(self.nodes@.len(), |i: int| self.nodes@[i]@),
            changed: self.changed@,
            started: self.started,
            microtask: self.microtask,
        }
    }
}

impl Graph {
    /// The invariant every operation keeps.
    pub open spec fn wf(&self) -> bool {
        self@.wf()
    }

    /// An empty graph, outside any batch.
    pub fn new() -> (graph: Self)
        ensures
            graph.wf(),
            graph@ == GraphView::empty(),
    {
        let graph = Graph { nodes: Vec::new(), changed: Vec::new(), started: false, microtask: false };
        assert(graph@.nodes =~= Seq::empty());
        graph
    }

    /// The number of nodes ever created.
    pub fn len(&self) -> (n: usize)
        ensures
            n == self@.nodes.len(),
    {
        self.nodes.len()
    }

    /// Whether `n` names a node of this graph.
    pub fn has(&self, n: usize) -> (found: bool)
        ensures
            found == self@.has(n),
    {
        n < self.nodes.len()
    }

    /// What kind of cell node `n` is.
    pub fn kind(&self, n: usize) -> (kind: Kind)
        requires
            self@.has(n),
        ensures
            kind == self@.node(n).kind,
    {
        self.nodes[n].kind
    }

    /// The state of node `n`.
    pub fn state(&self, n: usize) -> (state: State)
        requires
            self@.has(n),
        ensures
            state == self@.node(n).state,
    {
        self.nodes[n].state
    }

    /// Whether node `n` is valid.
    pub fn is_valid(&self, n: usize) -> (valid: bool)
        requires
            self@.has(n),
        ensures
            valid == self@.valid(n),
    {
        match self.nodes[n].state {
            State::Valid => true,
            State::Invalid(_) => false,
        }
    }

    /// The version node `n` publishes.
    pub fn version(&self, n: usize) -> (version: Version)
        requires
            self@.has(n),
        ensures
            version == self@.node(n).version,
    {
        self.nodes[n].version
    }

    /// The rank of node `n`.
    pub fn rank(&self, n: usize) -> (rank: usize)
        requires
            self@.has(n),
        ensures
            rank == self@.node(n).rank,
    {
        self.nodes[n].rank
    }

    /// Whether the function of node `n` is being run.
    pub fn is_busy(&self, n: usize) -> (busy: bool)
        requires
            self@.has(n),
        ensures
            busy == self@.node(n).busy,
    {
        self.nodes[n].busy
    }

    /// The hash of the value node `n` publishes.
    pub fn hash(&self, n: usize) -> (hash: u64)
        requires
            self@.has(n),
        ensures
            hash == self@.node(n).version.hash(),
    {
        self.nodes[n].version.value()
    }

    /// What node `n` has read, and at which versions.
    pub fn dependencies(&self, n: usize) -> (deps: &Dependencies)
        requires
            self@.has(n),
        ensures
            deps@ == self@.node(n).dependencies,
    {
        &self.nodes[n].dependencies
    }

    /// The nodes that have read node `n`.
    pub fn dependents(&self, n: usize) -> (readers: &Vec<usize>)
        requires
            self@.has(n),
        ensures
            readers@ == self@.node(n).dependents,
    {
        &self.nodes[n].dependents
    }

    /// The observer count of node `n`.
    pub fn observers(&self, n: usize) -> (count: u64)
        requires
            self@.has(n),
        ensures
            count == self@.node(n).observers,
    {
        self.nodes[n].observers
    }

    /// Whether an armed reaction observes node `n`.
    pub fn is_observed(&self, n: usize) -> (observed: bool)
        requires
            self@.has(n),
        ensures
            observed == (self@.node(n).observers > 0),
    {
        self.nodes[n].observers > 0
    }

    /// Whether node `n` is an armed reaction.
    pub fn is_armed(&self, n: usize) -> (armed: bool)
        requires
            self@.has(n),
        ensures
            armed == self@.node(n).armed,
    {
        self.nodes[n].armed
    }

    /// Whether node `n` has not been released.
    pub fn is_alive(&self, n: usize) -> (alive: bool)
        requires
            self@.has(n),
        ensures
            alive == self@.node(n).alive,
    {
        self.nodes[n].alive
    }

    /// Whether a batch is open.
    pub fn in_batch(&self) -> (open: bool)
        ensures
            open == self@.started,
    {
        self.started
    }

    /// The reactions waiting to be rerun.
    pub fn changed(&self) -> (queue: &Vec<usize>)
        ensures
            queue@ == self@.changed,
    {
        &self.changed
    }

    /// Adds a node of the given kind that publishes `version`. It starts
    /// invalid, reads nothing and is read by nothing.
    pub fn add(&mut self, kind: Kind, version: Version) -> (n: usize)
        requires
            old(self).wf(),
            old(self)@.nodes.len() < usize::MAX,
        ensures
            final(self).wf(),
            n == old(self)@.nodes.len(),
            final(self)@ == old(self)@.with_new(kind, version),
    {
        let n = self.nodes.len();
        self.nodes.push(
            Node {
                kind,
                state: State::Invalid(Invalid::Definitely),
                version,
                dependencies: Dependencies::new(),
                dependents: Vec::new(),
                observers: 0,
                armed: false,
                alive: true,
                rank: 0,
                busy: false,
            },
        );
        proof {
            assert(self@.nodes =~= old(self)@.nodes.push(NodeView::fresh(kind, version)));
            lemma_with_new_wf(old(self)@, kind, version);
        }
        n
    }

    /// Notes that the function of node `n` is being run, or that it has
    /// returned.
    pub(crate) fn set_busy(&mut self, n: usize, busy: bool)
        requires
            old(self)@.has(n),
        ensures
            final(self)@ == old(self)@.with_busy(n, busy),
    {
        self.nodes[n].busy = busy;
        proof {
            assert(self@.nodes =~= old(self)@.with_busy(n, busy).nodes);
        }
    }

    /// Gives node `n` the rank `rank`.
    pub(crate) fn set_rank(&mut self, n: usize, rank: usize)
        requires
            old(self)@.has(n),
        ensures
            final(self)@ == old(self)@.with_node(
                n,
                NodeView { rank: rank as nat, ..old(self)@.node(n) },
            ),
    {
        self.nodes[n].rank = rank;
        proof {
            assert(self@.nodes =~= old(self)@.with_node(
                n,
                NodeView { rank: rank as nat, ..old(self)@.node(n) },
            ).nodes);
        }
    }

    /// Puts `n` at the end of the queue of changed reactions.
    pub(crate) fn enqueue(&mut self, n: usize)
        ensures
            final(self)@ == (GraphView { changed: old(self)@.changed.push(n), ..old(self)@ }),
    {
        self.changed.push(n);
        proof {
            assert(self@.nodes =~= old(self)@.nodes);
        }
    }

    /// Replaces the version node `n` publishes.
    pub(crate) fn set_version(&mut self, n: usize, version: Version)
        requires
            old(self)@.has(n),
        ensures
            final(self)@ == old(self)@.with_version(n, version),
    {
        self.nodes[n].version = version;
        proof {
            assert(self@.nodes =~= old(self)@.with_version(n, version).nodes);
        }
    }

    /// Replaces the observer count of node `n`.
    pub(crate) fn set_observers(&mut self, n: usize, count: u64)
        requires
            old(self)@.has(n),
        ensures
            final(self)@ == old(self)@.with_node(
                n,
                NodeView { observers: count as nat, ..old(self)@.node(n) },
            ),
    {
        self.nodes[n].observers = count;
        proof {
            assert(self@.nodes =~= old(self)@.with_node(
                n,
                NodeView { observers: count as nat, ..old(self)@.node(n) },
            ).nodes);
        }
    }

    /// Sets or clears the mark of an armed reaction on node `n`.
    pub(crate) fn set_armed(&mut self, n: usize, armed: bool)
        requires
            old(self)@.has(n),
        ensures
            final(self)@ == old(self)@.with_node(n, NodeView { armed, ..old(self)@.node(n) }),
    {
        self.nodes[n].armed = armed;
        proof {
            assert(self@.nodes =~= old(self)@.with_node(
                n,
                NodeView { armed, ..old(self)@.node(n) },
            ).nodes);
        }
    }

    /// Records `d` among the nodes that read `u`.
    pub(crate) fn link(&mut self, u: usize, d: usize)
        requires
            old(self)@.has(u),
        ensures
            final(self)@ == old(self)@.with_node(
                u,
                NodeView { dependents: old(self)@.node(u).dependents.push(d), ..old(self)@.node(u) },
            ),
    {
        self.nodes[u].dependents.push(d);
        proof {
            assert(self@.nodes =~= old(self)@.with_node(
                u,
                NodeView { dependents: old(self)@.node(u).dependents.push(d), ..old(self)@.node(u) },
            ).nodes);
        }
    }

    /// Removes `d` from the nodes that read `u`.
    pub(crate) fn unlink(&mut self, u: usize, d: usize)
        requires
            old(self)@.has(u),
            old(self)@.node(u).dependents.no_duplicates(),
        ensures
            final(self)@ == old(self)@.with_node(
                u,
                NodeView { dependents: final(self)@.node(u).dependents, ..old(self)@.node(u) },
            ),
            final(self)@.node(u).dependents.no_duplicates(),
            forall|x: usize| #[trigger]
                final(self)@.node(u).dependents.contains(x) <==> (old(self)@.node(
                    u,
                ).dependents.contains(x) && x != d),
    {
        let ghost before = self@.node(u).dependents;
        let mut i: usize = 0;
        let count = self.nodes[u].dependents.len();
        while i < count
            invariant
                self@ == old(self)@,
                (u as int) < self.nodes@.len(),
                before == self.nodes@[u as int].dependents@,
                before == old(self)@.node(u).dependents,
                before.no_duplicates(),
                count == self.nodes@[u as int].dependents@.len(),
                i <= count,
                forall|k: int| 0 <= k < i ==> self.nodes@[u as int].dependents@[k] != d,
            decreases count - i,
        {
            if self.nodes[u].dependents[i] == d {
                self.nodes[u].dependents.remove(i);
                proof {
                    let after = before.remove(i as int);
                    assert(self@.nodes =~= old(self)@.with_node(
                        u,
                        NodeView { dependents: after, ..old(self)@.node(u) },
                    ).nodes);
                    assert(self@.node(u).dependents == after);
                    assert forall|a: int, b: int| 0 <= a < b < after.len() implies after[a]
                        != after[b] by {
                        let a0 = if a < i { a } else { a + 1 };
                        let b0 = if b < i { b } else { b + 1 };
                        assert(after[a] == before[a0]);
                        assert(after[b] == before[b0]);
                    }
                    assert forall|x: usize| #[trigger] after.contains(x) <==> (before.contains(x)
                        && x != d) by {
                        if after.contains(x) {
                            let k = choose|k: int| 0 <= k < after.len() && after[k] == x;
                            let k0 = if k < i { k } else { k + 1 };
                            assert(after[k] == before[k0]);
                            assert(before[k0] == x);
                            if x == d {
                                assert(before[i as int] == d);
                                assert(k0 != i);
                            }
                        }
                        if before.contains(x) && x != d {
                            let k0 = choose|k: int| 0 <= k < before.len() && before[k] == x;
                            let k = if k0 < i { k0 } else { k0 - 1 };
                            assert(after[k] == before[k0]);
                        }
                    }
                }
                return ;
            }
            i += 1;
        }
        proof {
            assert(self@.nodes =~= old(self)@.with_node(
                u,
                NodeView { dependents: before, ..old(self)@.node(u) },
            ).nodes);
            assert forall|x: usize| #[trigger] before.contains(x) <==> (before.contains(x) && x
                != d) by {
                if before.contains(x) {
                    let k = choose|k: int| 0 <= k < before.len() && before[k] == x;
                }
            }
        }
    }

    /// Replaces what node `n` has read and hands out what it had read
    /// before.
    pub(crate) fn swap_dependencies(&mut self, n: usize, deps: Dependencies) -> (prev: Dependencies)
        requires
            old(self)@.has(n),
        ensures
            final(self)@ == old(self)@.with_node(
                n,
                NodeView { dependencies: deps@, ..old(self)@.node(n) },
            ),
            prev@ == old(self)@.node(n).dependencies,
    {
        let mut deps = deps;
        std::mem::swap(&mut self.nodes[n].dependencies, &mut deps);
        proof {
            assert(self@.nodes =~= old(self)@.with_node(
                n,
                NodeView { dependencies: self@.node(n).dependencies, ..old(self)@.node(n) },
            ).nodes);
        }
        deps
    }

    /// Marks node `n` as released: it is neither armed nor valid any more.
    pub(crate) fn bury(&mut self, n: usize)
        requires
            old(self)@.has(n),
        ensures
            final(self)@ == old(self)@.with_node(
                n,
                NodeView {
                    alive: false,
                    armed: false,
                    state: State::Invalid(Invalid::Definitely),
                    ..old(self)@.node(n)
                },
            ),
    {
        self.nodes[n].alive = false;
        self.nodes[n].armed = false;
        self.nodes[n].state = State::Invalid(Invalid::Definitely);
        proof {
            assert(self@.nodes =~= old(self)@.with_node(
                n,
                NodeView {
                    alive: false,
                    armed: false,
                    state: State::Invalid(Invalid::Definitely),
                    ..old(self)@.node(n)
                },
            ).nodes);
        }
    }

    /// Opens or closes the batch.
    pub(crate) fn set_started(&mut self, started: bool)
        ensures
            final(self)@ == (GraphView { started, ..old(self)@ }),
    {
        self.started = started;
        proof {
            assert(self@.nodes =~= old(self)@.nodes);
        }
    }

    /// Notes whether a deferred drain has been scheduled.
    pub(crate) fn set_microtask(&mut self, microtask: bool)
        ensures
            final(self)@ == (GraphView { microtask, ..old(self)@ }),
    {
        self.microtask = microtask;
        proof {
            assert(self@.nodes =~= old(self)@.nodes);
        }
    }

    /// Whether a deferred drain has been scheduled.
    pub fn is_microtask_scheduled(&self) -> (scheduled: bool)
        ensures
            scheduled == self@.microtask,
    {
        self.microtask
    }

    /// Empties the queue of changed reactions and hands out what it held,
    /// in the order in which the reactions were queued.
    pub fn take_changed(&mut self) -> (queue: Vec<usize>)
        ensures
            queue@ == old(self)@.changed,
            final(self)@ == (GraphView { changed: Seq::empty(), ..old(self)@ }),
    {
        let mut queue: Vec<usize> = Vec::new();
        std::mem::swap(&mut self.changed, &mut queue);
        proof {
            assert(self@.nodes =~= old(self)@.nodes);
        }
        queue
    }

    /// Replaces the state of node `n`.
    pub(crate) fn set_state(&mut self, n: usize, state: State)
        requires
            old(self)@.has(n),
        ensures
            final(self)@ == old(self)@.with_state(n, state),
    {
        self.nodes[n].state = state;
        proof {
            assert(self@.nodes =~= old(self)@.with_state(n, state).nodes);
        }
    }
}

/// A new node leaves every other node as it was.
pub proof fn lemma_with_new_wf(g: GraphView, kind: Kind, version: Version)
    requires
        g.wf(),
        g.nodes.len() < usize::MAX,
    ensures
        g.with_new(kind, version).wf(),
{
    let h = g.with_new(kind, version);
    let m = g.nodes.len() as usize;
    assert forall|x: usize| g.has(x) implies h.node(x) == g.node(x) by {}
    assert forall|d: usize, u: usize| h.has(d) && #[trigger] h.uses(d, u) implies h.has(u)
        && h.under(u, d) by {
        if d < m {
            assert(g.uses(d, u));
            assert(g.has(u) && g.under(u, d));
        }
    }
    assert forall|u: usize, d: usize| h.has(u) && #[trigger] h.feeds(u, d) implies h.has(d) by {
        if u < m {
            assert(g.feeds(u, d));
        }
    }
    assert forall|u: usize, d: usize|
        #![trigger h.feeds(u, d)]
        #![trigger h.uses(d, u)]
        h.has(u) && h.has(d) implies (h.feeds(u, d) <==> h.uses(d, u)) by {
        if u < m && d < m {
            assert(g.feeds(u, d) <==> g.uses(d, u));
        } else if u < m {
            if h.feeds(u, d) {
                assert(g.feeds(u, d));
            }
        } else if d < m {
            if h.uses(d, u) {
                assert(g.uses(d, u));
            }
        }
    }
    assert(h.shaped());
    assert forall|d: usize| h.has(d) && #[trigger] h.valid(d) implies h.fresh(
        h.node(d).dependencies,
    ) by {
        assert(g.valid(d));
        assert(g.fresh(g.node(d).dependencies));
    }
    assert forall|n: usize| h.has(n) implies (#[trigger] h.node(n)).observers == saturated(
        h.paths(n),
    ) by {
        lemma_paths_with_new(g, kind, version, n, h.node(n).dependents.len() as int);
        if n < m {
            assert(g.node(n).observers == saturated(g.paths(n)));
        }
    }
}

/// A new node is read by nothing and is not armed, so it opens no chain.
pub proof fn lemma_paths_with_new(g: GraphView, kind: Kind, version: Version, n: usize, upto: int)
    requires
        g.shaped(),
        g.nodes.len() < usize::MAX,
    ensures
        g.with_new(kind, version).paths_upto(n, upto) == g.paths_upto(n, upto),
    decreases usize::MAX - g.node(n).rank, upto,
{
    let h = g.with_new(kind, version);
    let m = g.nodes.len() as usize;
    if !h.has(n) || upto <= 0 || upto > h.node(n).dependents.len() {
    } else if n == m {
    } else {
        let d = h.node(n).dependents[upto - 1];
        assert(g.node(n).dependents[upto - 1] == d);
        assert(g.feeds(n, d));
        assert(g.has(d));
        assert(h.node(d) == g.node(d));
        assert(h.node(n) == g.node(n));
        lemma_paths_with_new(g, kind, version, n, upto - 1);
        if g.under(n, d) {
            lemma_paths_with_new(g, kind, version, d, h.node(d).dependents.len() as int);
        }
    }
}

} // verus!
