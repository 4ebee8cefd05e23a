//! Bringing a node up to date: deciding whether it must be recomputed, and
//! installing the result of a recomputation.

use vstd::prelude::*;
use crate::dependencies::{distinct, lemma_recorded, reads, recorded, slot, Dependencies};
use crate::evaluation::Evaluation;
use crate::graph::Graph;
use crate::invalidate::lemma_depends_on_same_reads;
use crate::shape::{lemma_counts_kept, lemma_paths_same_links, lemma_shape_kept};
use crate::model::{saturated, GraphView, NodeView};
use crate::observers::lemma_same_but_counts;
use crate::state::{Error, Invalid, Kind, State, Version};

verus! {

impl GraphView {
    /// Node `n` exists, has not been released, and is of a kind that is
    /// computed from other nodes.
    pub open spec fn derived(self, n: usize) -> bool {
        self.has(n) && self.node(n).alive && !self.node(n).is_source()
    }

    /// Node `n` can be taken as valid without recomputing anything: it is
    /// valid, or it is a source, or it is possibly invalid, its function is
    /// not being run, and everything it has read is valid and unchanged.
    pub open spec fn settled(self, n: usize) -> bool {
        self.has(n) && self.node(n).alive && (self.valid(n) || self.node(n).is_source() || (
        self.node(n).state == State::Invalid(Invalid::Maybe) && !self.node(n).busy && self.fresh(
            self.node(n).dependencies,
        )))
    }

    /// `next` is `self` after an evaluation of node `n` that read `deps` and
    /// produced `version` was installed: the node is valid, publishes
    /// `version` and has read `deps`; it is recorded as a reader of exactly
    /// the nodes in `deps`; if the version is new, every valid node that
    /// depends on `n` has become possibly invalid, and the reactions among
    /// them are queued.
    pub open spec fn commits(
        self,
        next: GraphView,
        n: usize,
        deps: Seq<(usize, Version)>,
        version: Version,
    ) -> bool {
        &&& next.nodes.len() == self.nodes.len()
        &&& next.started == self.started
        &&& next.microtask == self.microtask
        &&& self.queued(next)
        &&& forall|x: usize| #![trigger next.node(x)]
            self.has(x) ==> next.node(x) == (NodeView {
                state: if x == n {
                    State::Valid
                } else if version != self.node(n).version {
                    self.state_after_spread(n, Invalid::Maybe, x)
                } else {
                    self.node(x).state
                },
                version: if x == n {
                    version
                } else {
                    self.node(x).version
                },
                dependencies: if x == n {
                    deps
                } else {
                    self.node(x).dependencies
                },
                dependents: next.node(x).dependents,
                observers: next.node(x).observers,
                ..self.node(x)
            })
        &&& forall|u: usize, d: usize|
            self.has(u) ==> (#[trigger] next.feeds(u, d) <==> if d == n {
                reads(deps, u)
            } else {
                self.feeds(u, d)
            })
    }

    /// Why node `n` cannot be read by `reader` without running anything,
    /// if it cannot: a node does not read itself; a node that is gone is
    /// not read; and neither is one that would have to be recomputed.
    pub open spec fn read_refusal(self, n: usize, reader: usize) -> Option<Error> {
        if n == reader {
            Some(Error::Order)
        } else if !self.has(n) || !self.node(n).alive {
            Some(Error::Missing)
        } else if !self.settled(n) {
            Some(Error::Stale)
        } else {
            None
        }
    }

    /// Whether `x` is raised when `reader` is: it is `reader` itself, or it
    /// has read `reader` directly or through others.
    pub open spec fn rises(self, reader: usize, x: usize) -> bool {
        x == reader || self.depends_on(x, reader)
    }

    /// By how much `reader` has to be raised to stand above `n`.
    pub open spec fn lift(self, reader: usize, n: usize) -> nat {
        if self.under(n, reader) {
            0
        } else {
            (self.node(n).rank - self.node(reader).rank + 1) as nat
        }
    }

    /// The rank of `x` once `reader` stands above `n`: `reader` and
    /// everything that has read it are raised by the same amount, so that
    /// they stay in the order they were in; nothing else moves.
    pub open spec fn raised(self, reader: usize, n: usize, x: usize) -> nat {
        if self.rises(reader, x) {
            self.node(x).rank + self.lift(reader, n)
        } else {
            self.node(x).rank
        }
    }

    /// Why `reader` cannot be registered as one that reads `n`, if it
    /// cannot: `n` is `reader` itself or has read it, directly or through
    /// others, so that the read would close a circle; or there is no rank
    /// left to raise `reader` to.
    pub open spec fn register_refusal(self, reader: usize, n: usize) -> Option<Error> {
        if !self.derived(reader) || self.uses(reader, n) || self.under(n, reader) {
            None
        } else if self.rises(reader, n) {
            Some(Error::Order)
        } else if exists|x: usize|
            self.has(x) && self.rises(reader, x) && #[trigger] self.raised(reader, n, x)
                > usize::MAX {
            Some(Error::Order)
        } else {
            None
        }
    }

    /// `next` is `self` with `reader` raised above `n`.
    pub open spec fn lifts(self, next: GraphView, reader: usize, n: usize) -> bool {
        &&& next.nodes.len() == self.nodes.len()
        &&& next.changed == self.changed
        &&& next.started == self.started
        &&& next.microtask == self.microtask
        &&& forall|x: usize| #![trigger next.node(x)]
            self.has(x) ==> next.node(x) == (NodeView {
                rank: self.raised(reader, n, x),
                ..self.node(x)
            })
    }

    /// `next` is `self` after node `reader` was registered as one that
    /// reads node `n`, at the version `n` publishes: the read is recorded
    /// among the reads of `reader`, where a read of `n` recorded before
    /// keeps its place; `reader` is one of the nodes that read `n`, the
    /// last of them if it was none before; `reader` stands above `n`,
    /// raised as [`GraphView::raised`] says if it did not; and the observer
    /// counts follow. A reader that does not exist, has been released or is
    /// a source reads nothing, and nothing changes.
    pub open spec fn registers(self, next: GraphView, reader: usize, n: usize) -> bool {
        if !self.derived(reader) {
            next == self
        } else {
            &&& next.nodes.len() == self.nodes.len()
            &&& next.changed == self.changed
            &&& next.started == self.started
            &&& next.microtask == self.microtask
            &&& forall|x: usize| #![trigger next.node(x)]
                self.has(x) ==> next.node(x) == (NodeView {
                    dependencies: if x == reader {
                        recorded(self.node(reader).dependencies, n, self.node(n).version)
                    } else {
                        self.node(x).dependencies
                    },
                    dependents: if x == n && !self.feeds(n, reader) {
                        self.node(n).dependents.push(reader)
                    } else {
                        self.node(x).dependents
                    },
                    observers: next.node(x).observers,
                    rank: self.raised(reader, n, x),
                    ..self.node(x)
                })
            &&& forall|u: usize, d: usize|
                self.has(u) ==> (#[trigger] next.feeds(u, d) <==> self.feeds(u, d) || (u == n && d
                    == reader))
        }
    }

    /// `next` is `self` with the reads of node `n` replaced by `deps`, on
    /// both sides: `n` is recorded as a reader of exactly the nodes in
    /// `deps`. Nothing else differs.
    pub open spec fn relinks(self, next: GraphView, n: usize, deps: Seq<(usize, Version)>) -> bool {
        &&& next.nodes.len() == self.nodes.len()
        &&& next.changed == self.changed
        &&& next.started == self.started
        &&& next.microtask == self.microtask
        &&& forall|x: usize| #![trigger next.node(x)]
            self.has(x) ==> next.node(x) == (NodeView {
                dependencies: if x == n {
                    deps
                } else {
                    self.node(x).dependencies
                },
                dependents: next.node(x).dependents,
                ..self.node(x)
            })
        &&& forall|x: usize| self.has(x) ==> (#[trigger] next.node(x)).dependents.no_duplicates()
        &&& forall|u: usize, d: usize|
            self.has(u) ==> (#[trigger] next.feeds(u, d) <==> if d == n {
                reads(deps, u)
            } else {
                self.feeds(u, d)
            })
    }
}

/// A node whose reads are all valid and unchanged may be taken as valid.
pub proof fn lemma_with_state_valid_wf(g: GraphView, n: usize)
    requires
        g.wf(),
        g.has(n),
        g.node(n).alive,
        g.fresh(g.node(n).dependencies),
    ensures
        g.with_state(n, State::Valid).wf(),
{
    let h = g.with_state(n, State::Valid);
    lemma_with_state_valid(g, n);
    assert forall|x: usize| h.has(x) implies (#[trigger] h.node(x)).observers == saturated(
        h.paths(x),
    ) by {
        assert(g.node(x).observers == saturated(g.paths(x)));
        lemma_paths_same_links(g, h, x, g.node(x).dependents.len() as int);
    }
}

/// Taking such a node as valid keeps the shape of the graph and the
/// validity of what valid nodes have read.
pub proof fn lemma_with_state_valid(g: GraphView, n: usize)
    requires
        g.shaped(),
        g.current(),
        g.has(n),
        g.node(n).alive,
        g.fresh(g.node(n).dependencies),
    ensures
        g.with_state(n, State::Valid).shaped(),
        g.with_state(n, State::Valid).current(),
{
    let h = g.with_state(n, State::Valid);
    assert(g.same_shape(h));
    assert forall|x: usize| #![trigger h.node(x)] g.has(x) implies {
        &&& h.node(x).armed ==> h.node(x).kind == Kind::Reaction && h.node(x).alive
        &&& !h.node(x).alive ==> h.node(x).dependencies.len() == 0 && h.node(x).dependents.len()
            == 0 && !h.valid(x)
    } by {
        let a = g.node(x);
    }
    lemma_shape_kept(g, h);
    assert forall|d: usize| h.has(d) && #[trigger] h.valid(d) implies h.fresh(
        h.node(d).dependencies,
    ) by {
        let deps = g.node(d).dependencies;
        assert(h.node(d).dependencies == deps);
        if d != n {
            assert(g.valid(d));
        }
        assert(g.fresh(deps));
        assert forall|i: int| 0 <= i < deps.len() implies {
            let e = #[trigger] deps[i];
            h.has(e.0) && h.valid(e.0) && h.node(e.0).version == e.1
        } by {
            let u = deps[i].0;
            assert(g.has(u) && g.valid(u) && g.node(u).version == deps[i].1);
            assert(h.valid(u));
        }
    }
}

impl Dependencies {
    /// Whether every node recorded is valid in `graph` as it stands and
    /// publishes the version recorded for it. Nothing is brought up to
    /// date for this.
    pub fn is_fresh(&self, graph: &Graph) -> (fresh: bool)
        ensures
            fresh == graph@.fresh(self@),
    {
        graph.is_fresh(self)
    }
}

impl Graph {
    /// Whether every node recorded in `deps` is valid in the graph as it
    /// stands and publishes the version recorded for it. Nothing is brought
    /// up to date for this.
    pub fn is_fresh(&self, deps: &Dependencies) -> (fresh: bool)
        ensures
            fresh == self@.fresh(deps@),
    {
        let mut i: usize = 0;
        while i < deps.len()
            invariant
                i <= deps@.len(),
                forall|k: int|
                    0 <= k < i ==> {
                        let e = #[trigger] deps@[k];
                        self@.has(e.0) && self@.valid(e.0) && self@.node(e.0).version == e.1
                    },
            decreases deps@.len() - i,
        {
            let (u, seen) = deps.entry(i);
            if !self.has(u) || !self.is_valid(u) || self.hash(u) != seen.value() {
                proof {
                    let e = deps@[i as int];
                    assert(!(self@.has(e.0) && self@.valid(e.0) && self@.node(e.0).version == e.1));
                }
                return false;
            }
            i += 1;
        }
        true
    }

    /// Whether node `n` stands above every node recorded in `deps`.
    pub fn is_above(&self, n: usize, deps: &Dependencies) -> (above: bool)
        requires
            self@.has(n),
        ensures
            above == self@.stands_above(n, deps@),
    {
        let mut i: usize = 0;
        while i < deps.len()
            invariant
                self@.has(n),
                i <= deps@.len(),
                forall|k: int|
                    0 <= k < i ==> self@.has((#[trigger] deps@[k]).0) && self@.under(deps@[k].0, n),
            decreases deps@.len() - i,
        {
            let (u, _) = deps.entry(i);
            if !self.has(u) || self.rank(u) >= self.rank(n) {
                proof {
                    let e = deps@[i as int];
                    assert(!(self@.has(e.0) && self@.under(e.0, n)));
                }
                return false;
            }
            i += 1;
        }
        true
    }

    /// Whether node `n` can be taken as valid in the graph as it stands,
    /// without bringing anything up to date.
    pub fn is_settled(&self, n: usize) -> (settled: bool)
        requires
            self.wf(),
        ensures
            settled == self@.settled(n),
    {
        if !self.has(n) || !self.is_alive(n) {
            return false;
        }
        match self.kind(n) {
            Kind::Var => true,
            Kind::Const => true,
            _ => match self.state(n) {
                State::Valid => true,
                State::Invalid(Invalid::Definitely) => false,
                State::Invalid(Invalid::Maybe) => !self.is_busy(n) && self.is_fresh(
                    self.dependencies(n),
                ),
            },
        }
    }

    /// Takes node `n` as valid if that needs no recomputation, and says
    /// whether it did.
    pub fn revalidate(&mut self, n: usize) -> (settled: bool)
        requires
            old(self).wf(),
        ensures
            final(self).wf(),
            settled == old(self)@.settled(n),
            settled ==> final(self)@ == old(self)@.with_state(n, State::Valid),
            !settled ==> final(self)@ == old(self)@,
    {
        if !self.is_settled(n) {
            return false;
        }
        proof {
            let g = self@;
            if g.valid(n) {
                assert(g.fresh(g.node(n).dependencies));
            }
            if g.node(n).is_source() {
                assert(g.node(n).dependencies.len() == 0);
            }
            lemma_with_state_valid_wf(g, n);
        }
        self.set_state(n, State::Valid);
        true
    }
}


/// Whether `upstream` is among the first `upto` nodes recorded in `deps`.
pub open spec fn reads_before(deps: Seq<(usize, Version)>, upto: int, upstream: usize) -> bool {
    exists|k: int| 0 <= k < upto && k < deps.len() && (#[trigger] deps[k]).0 == upstream
}

/// What holds while the reads of `n` are replaced: the node already holds
/// `deps`, and the other side of each read is being brought in line. `now`
/// says, for each node, whether it should list `n` as a reader at this
/// point.
pub closed spec fn relinking(
    g: GraphView,
    h: GraphView,
    n: usize,
    deps: Seq<(usize, Version)>,
    now: spec_fn(usize) -> bool,
) -> bool {
    &&& h.nodes.len() == g.nodes.len()
    &&& h.changed == g.changed
    &&& h.started == g.started
    &&& h.microtask == g.microtask
    &&& forall|x: usize| #![trigger h.node(x)]
        g.has(x) ==> h.node(x) == (NodeView {
            dependencies: if x == n {
                deps
            } else {
                g.node(x).dependencies
            },
            dependents: h.node(x).dependents,
            ..g.node(x)
        })
    &&& forall|x: usize| g.has(x) ==> (#[trigger] h.node(x)).dependents.no_duplicates()
    &&& forall|u: usize, d: usize|
        g.has(u) ==> (#[trigger] h.feeds(u, d) <==> if d == n {
            now(u)
        } else {
            g.feeds(u, d)
        })
}

/// Replacing the reads of a node on both sides keeps the shape of the graph,
/// and keeps every valid node's reads valid if the new reads are.
pub proof fn lemma_relinks(g: GraphView, h: GraphView, n: usize, deps: Seq<(usize, Version)>)
    requires
        g.shaped(),
        g.derived(n),
        distinct(deps),
        g.stands_above(n, deps),
        forall|i: int| 0 <= i < deps.len() ==> g.node((#[trigger] deps[i]).0).alive,
        g.relinks(h, n, deps),
    ensures
        h.shaped(),
        g.current() && (g.valid(n) ==> g.fresh(deps)) ==> h.current(),
{
    assert forall|d: usize, u: usize| h.has(d) && #[trigger] h.uses(d, u) implies h.has(u)
        && h.under(u, d) by {
        if d == n {
            let i = choose|i: int| 0 <= i < deps.len() && (#[trigger] deps[i]).0 == u;
            assert(g.has(deps[i].0) && g.under(deps[i].0, n));
        } else {
            assert(h.node(d).dependencies == g.node(d).dependencies);
            assert(g.uses(d, u));
        }
    }
    assert forall|u: usize, d: usize| h.has(u) && #[trigger] h.feeds(u, d) implies h.has(d) by {
        if d != n {
            assert(g.feeds(u, d));
        }
    }
    assert forall|u: usize, d: usize|
        #![trigger h.feeds(u, d)]
        #![trigger h.uses(d, u)]
        h.has(u) && h.has(d) implies (h.feeds(u, d) <==> h.uses(d, u)) by {
        if d == n {
            assert(h.node(n).dependencies == deps);
        } else {
            assert(h.node(d).dependencies == g.node(d).dependencies);
            assert(g.feeds(u, d) <==> g.uses(d, u));
        }
    }
    assert forall|d: usize| #![trigger h.node(d)] h.has(d) implies {
        &&& distinct(h.node(d).dependencies)
        &&& h.node(d).dependents.no_duplicates()
        &&& h.node(d).is_source() ==> h.node(d).dependencies.len() == 0
        &&& h.node(d).armed ==> h.node(d).kind == Kind::Reaction && h.node(d).alive
        &&& !h.node(d).alive ==> h.node(d).dependencies.len() == 0 && h.node(d).dependents.len()
            == 0 && !h.valid(d)
        &&& h.node(d).rank <= usize::MAX
    } by {
        let a = g.node(d);
        if !h.node(d).alive {
            assert(d != n);
            if h.node(d).dependents.len() > 0 {
                let r = h.node(d).dependents[0];
                assert(h.feeds(d, r));
                if r == n {
                    let i = choose|i: int| 0 <= i < deps.len() && (#[trigger] deps[i]).0 == d;
                    assert(g.node(deps[i].0).alive);
                } else {
                    assert(g.feeds(d, r));
                    assert(g.node(d).dependents.len() > 0);
                }
            }
        }
    }
    assert forall|i: int| 0 <= i < h.changed.len() implies h.has(#[trigger] h.changed[i])
        && h.node(h.changed[i]).kind == Kind::Reaction by {
        assert(h.node(h.changed[i]).kind == g.node(g.changed[i]).kind);
    }
    if g.current() && (g.valid(n) ==> g.fresh(deps)) {
        assert forall|d: usize| h.has(d) && #[trigger] h.valid(d) implies h.fresh(
            h.node(d).dependencies,
        ) by {
            assert(h.node(d).state == g.node(d).state);
            assert(g.valid(d));
            let now = h.node(d).dependencies;
            if d != n {
                assert(now == g.node(d).dependencies);
            }
            assert(g.fresh(now));
            assert forall|i: int| 0 <= i < now.len() implies {
                let e = #[trigger] now[i];
                h.has(e.0) && h.valid(e.0) && h.node(e.0).version == e.1
            } by {
                let u = now[i].0;
                assert(g.has(u) && g.valid(u) && g.node(u).version == now[i].1);
                assert(h.node(u).state == g.node(u).state);
                assert(h.node(u).version == g.node(u).version);
            }
        }
    }
}

impl Graph {
    /// Enters the read of `n` by `reader`, which stands above it, on both
    /// sides, and says whether `reader` was no reader of `n` before.
    fn attach(&mut self, reader: usize, n: usize) -> (moved: bool)
        requires
            old(self)@.shaped(),
            old(self)@.current(),
            old(self)@.uses(reader, n) ==> old(self)@.counted(),
            old(self)@.has(n),
            old(self)@.valid(n),
            old(self)@.derived(reader),
            old(self)@.under(n, reader),
        ensures
            final(self).wf(),
            old(self)@.lift(reader, n) == 0,
            old(self)@.registers(final(self)@, reader, n),
            moved == !old(self)@.feeds(n, reader),
            !moved ==> forall|x: usize|
                old(self)@.has(x) ==> (#[trigger] final(self)@.node(x)).observers == old(self)@.node(x).observers,
    {
        let ghost g = self@;
        let version = self.version(n);
        let known = self.dependencies(reader).contains(n);
        let mut deps = self.swap_dependencies(reader, Dependencies::new());
        let ghost was = deps@;
        deps.based_on(n, version);
        let ghost now = deps@;
        self.swap_dependencies(reader, deps);
        if !known {
            self.link(n, reader);
        }
        let ghost h = self@;
        proof {
            lemma_recorded(was, n, version);
            assert(g.uses(reader, n) == known);
            assert forall|x: usize| #![trigger h.node(x)] g.has(x) implies h.node(x) == (NodeView {
                dependencies: if x == reader {
                    now
                } else {
                    g.node(x).dependencies
                },
                dependents: if x == n && !known {
                    g.node(n).dependents.push(reader)
                } else {
                    g.node(x).dependents
                },
                ..g.node(x)
            }) by {}
            lemma_attached(g, h, reader, n);
        }
        if known {
            proof {
                assert forall|x: usize| g.has(x) implies (#[trigger] h.node(x)).dependents
                    == g.node(x).dependents && h.node(x).armed == g.node(x).armed && h.node(
                    x,
                ).observers == g.node(x).observers by {}
                lemma_counts_kept(g, h);
            }
        } else {
            self.recount();
        }
        !known
    }

    /// Raises `reader`, and every node that `marks` says has read it, by
    /// `lift`, so that `reader` stands above `n`.
    fn raise(&mut self, reader: usize, n: usize, marks: &Vec<bool>, lift: usize)
        requires
            old(self).wf(),
            old(self)@.has(reader),
            old(self)@.has(n),
            marks@.len() == old(self)@.nodes.len(),
            forall|x: usize|
                old(self)@.has(x) ==> #[trigger] marks@[x as int] == old(self)@.depends_on(
                    x,
                    reader,
                ),
            !old(self)@.rises(reader, n),
            !old(self)@.under(n, reader),
            lift == old(self)@.lift(reader, n),
            forall|x: usize|
                old(self)@.has(x) && old(self)@.rises(reader, x) ==> #[trigger] old(self)@.raised(reader, n, x) <= usize::MAX,
        ensures
            old(self)@.lifts(final(self)@, reader, n),
            final(self)@.shaped(),
            final(self)@.current(),
            final(self)@.under(n, reader),
    {
        let ghost g = self@;
        let total = self.len();
        let mut x: usize = 0;
        while x < total
            invariant
                g.wf(),
                g.has(reader),
                total == g.nodes.len(),
                x <= total,
                marks@.len() == total,
                forall|y: usize|
                    g.has(y) ==> #[trigger] marks@[y as int] == g.depends_on(y, reader),
                lift == g.lift(reader, n),
                forall|y: usize|
                    g.has(y) && g.rises(reader, y) ==> #[trigger] g.raised(reader, n, y)
                        <= usize::MAX,
                self@.nodes.len() == g.nodes.len(),
                self@.changed == g.changed,
                self@.started == g.started,
                self@.microtask == g.microtask,
                forall|y: usize| #![trigger self@.node(y)]
                    y < x ==> self@.node(y) == (NodeView {
                        rank: g.raised(reader, n, y),
                        ..g.node(y)
                    }),
                forall|y: usize| #![trigger self@.node(y)]
                    x <= y < total ==> self@.node(y) == g.node(y),
            decreases total - x,
        {
            let ghost before = self@;
            if x == reader || marks[x] {
                proof {
                    assert(g.rises(reader, x));
                    assert(g.raised(reader, n, x) <= usize::MAX);
                    assert(self@.node(x) == g.node(x));
                }
                let rank = self.rank(x);
                self.set_rank(x, rank + lift);
            }
            proof {
                assert forall|y: usize| #![trigger self@.node(y)] y < x + 1 implies self@.node(y)
                    == (NodeView { rank: g.raised(reader, n, y), ..g.node(y) }) by {
                    if y < x {
                        assert(before.node(y) == (NodeView {
                            rank: g.raised(reader, n, y),
                            ..g.node(y)
                        }));
                    } else {
                        assert(before.node(y) == g.node(y));
                    }
                }
                assert forall|y: usize| #![trigger self@.node(y)] x + 1 <= y < total implies self@.node(
                    y,
                ) == g.node(y) by {
                    assert(before.node(y) == g.node(y));
                }
            }
            x += 1;
        }
        proof {
            lemma_lifted(g, self@, reader, n);
        }
    }

    /// Whether every node that is raised with `reader` can be raised by
    /// `lift` without running out of ranks.
    fn room(&self, reader: usize, n: usize, marks: &Vec<bool>, lift: usize) -> (fits: bool)
        requires
            self.wf(),
            self@.has(reader),
            marks@.len() == self@.nodes.len(),
            forall|x: usize|
                self@.has(x) ==> #[trigger] marks@[x as int] == self@.depends_on(x, reader),
            lift == self@.lift(reader, n),
        ensures
            fits == (forall|x: usize|
                self@.has(x) && self@.rises(reader, x) ==> #[trigger] self@.raised(reader, n, x)
                    <= usize::MAX),
    {
        let total = self.len();
        let mut x: usize = 0;
        while x < total
            invariant
                self.wf(),
                total == self@.nodes.len(),
                x <= total,
                marks@.len() == total,
                forall|y: usize|
                    self@.has(y) ==> #[trigger] marks@[y as int] == self@.depends_on(y, reader),
                lift == self@.lift(reader, n),
                forall|y: usize|
                    y < x && self@.rises(reader, y) ==> #[trigger] self@.raised(reader, n, y)
                        <= usize::MAX,
            decreases total - x,
        {
            if (x == reader || marks[x]) && self.rank(x) > usize::MAX - lift {
                proof {
                    assert(self@.rises(reader, x));
                    assert(self@.raised(reader, n, x) > usize::MAX);
                }
                return false;
            }
            x += 1;
        }
        true
    }

    /// Registers node `reader` as one that reads node `n`, at the version
    /// `n` publishes now, and says whether it was not one before. If
    /// `reader` does not stand above `n`, it is raised above it, together
    /// with every node that has read `reader`. A read that would close a
    /// circle is refused, and nothing changes.
    pub fn register(&mut self, reader: usize, n: usize) -> (done: Result<bool, Error>)
        requires
            old(self).wf(),
            old(self)@.has(n),
            old(self)@.valid(n),
        ensures
            final(self).wf(),
            match done {
                Ok(moved) => {
                    &&& old(self)@.register_refusal(reader, n).is_none()
                    &&& old(self)@.registers(final(self)@, reader, n)
                    &&& moved == (old(self)@.derived(reader) && !old(self)@.feeds(n, reader))
                    &&& !moved ==> forall|x: usize|
                        old(self)@.has(x) ==> (#[trigger] final(self)@.node(x)).observers == old(self)@.node(x).observers
                },
                Err(e) => old(self)@.register_refusal(reader, n) == Some(e) && final(self)@ == old(self)@,
            },
    {
        if !self.has(reader) || !self.is_alive(reader) {
            return Ok(false);
        }
        match self.kind(reader) {
            Kind::Var => {
                return Ok(false);
            },
            Kind::Const => {
                return Ok(false);
            },
            _ => {},
        }
        let ghost g = self@;
        let known = self.dependencies(reader).contains(n);
        proof {
            assert(g.uses(reader, n) == known);
            if known {
                assert(g.under(n, reader));
            }
        }
        if !known && self.rank(n) >= self.rank(reader) {
            if n == reader {
                return Err(Error::Order);
            }
            let marks = self.downstream(reader);
            if marks[n] {
                return Err(Error::Order);
            }
            let gap = self.rank(n) - self.rank(reader);
            if gap == usize::MAX {
                proof {
                    assert(g.rises(reader, reader));
                    assert(g.raised(reader, n, reader) > usize::MAX);
                }
                return Err(Error::Order);
            }
            let lift = gap + 1;
            if !self.room(reader, n, &marks, lift) {
                return Err(Error::Order);
            }
            self.raise(reader, n, &marks, lift);
        }
        let ghost raised = self@;
        proof {
            if known || g.under(n, reader) {
                assert(raised == g);
                assert(g.lift(reader, n) == 0);
            }
            assert(raised.node(reader).dependencies == g.node(reader).dependencies);
            assert(raised.uses(reader, n) == known);
            assert(raised.node(n) == (NodeView { rank: g.raised(reader, n, n), ..g.node(n) }));
            assert(raised.node(reader) == (NodeView {
                rank: g.raised(reader, n, reader),
                ..g.node(reader)
            }));
        }
        let moved = self.attach(reader, n);
        proof {
            lemma_registered(g, raised, self@, reader, n);
        }
        Ok(moved)
    }

    /// Replaces what node `n` has read by `deps`, and brings the other side
    /// in line: `n` leaves the readers of every node it no longer reads and
    /// joins the readers of every node it reads now.
    pub(crate) fn install(&mut self, n: usize, deps: Dependencies) -> (moved: bool)
        requires
            old(self)@.shaped(),
            old(self)@.derived(n),
            deps.wf(),
            old(self)@.stands_above(n, deps@),
        ensures
            old(self)@.relinks(final(self)@, n, deps@),
            !moved ==> forall|x: usize|
                old(self)@.has(x) ==> (#[trigger] final(self)@.node(x)).dependents
                    == old(self)@.node(x).dependents,
    {
        let mut moved = false;
        let ghost g = self@;
        let ghost next = deps@;
        let prev = self.swap_dependencies(n, deps);
        let ghost was = prev@;
        proof {
            assert forall|u: usize| g.has(u) implies (g.feeds(u, n) <==> reads(was, u)) by {
                assert(g.feeds(u, n) <==> g.uses(n, u));
            }
            assert(relinking(g, self@, n, next, |u: usize| reads(was, u)));
        }
        let mut i: usize = 0;
        while i < prev.len()
            invariant
                g.shaped(),
                g.derived(n),
                was == prev@,
                was == g.node(n).dependencies,
                i <= was.len(),
                !moved ==> forall|x: usize|
                    g.has(x) ==> (#[trigger] self@.node(x)).dependents == g.node(x).dependents,
                relinking(
                    g,
                    self@,
                    n,
                    next,
                    |u: usize| reads(was, u) && !(reads_before(was, i as int, u) && !reads(next, u)),
                ),
            decreases was.len() - i,
        {
            let u = prev.entry(i).0;
            let ghost mid = self@;
            proof {
                assert(g.uses(n, u));
                assert(mid.node(n).dependencies == next);
            }
            let kept = self.dependencies(n).contains(u);
            if !kept {
                self.unlink(u, n);
                moved = true;
            }
            proof {
                let h = self@;
                let before = |v: usize|
                    reads(was, v) && !(reads_before(was, i as int, v) && !reads(next, v));
                let after = |v: usize|
                    reads(was, v) && !(reads_before(was, i as int + 1, v) && !reads(next, v));
                assert forall|v: usize| v != u implies (reads_before(was, i as int + 1, v)
                    <==> reads_before(was, i as int, v)) by {
                    if reads_before(was, i as int + 1, v) {
                        let k = choose|k: int|
                            0 <= k < i + 1 && k < was.len() && (#[trigger] was[k]).0 == v;
                        assert(k < i);
                    }
                    if reads_before(was, i as int, v) {
                        let k = choose|k: int|
                            0 <= k < i && k < was.len() && (#[trigger] was[k]).0 == v;
                        assert(k < i + 1);
                    }
                }
                assert(reads_before(was, i as int + 1, u)) by {
                    assert(was[i as int].0 == u);
                }
                assert forall|x: usize| #![trigger h.node(x)] g.has(x) implies h.node(x) == (
                NodeView {
                    dependencies: if x == n {
                        next
                    } else {
                        g.node(x).dependencies
                    },
                    dependents: h.node(x).dependents,
                    ..g.node(x)
                }) by {
                    assert(mid.node(x) == (NodeView {
                        dependencies: if x == n {
                            next
                        } else {
                            g.node(x).dependencies
                        },
                        dependents: mid.node(x).dependents,
                        ..g.node(x)
                    }));
                }
                assert forall|x: usize| g.has(x) implies (#[trigger] h.node(
                    x,
                )).dependents.no_duplicates() by {
                    assert(mid.node(x).dependents.no_duplicates());
                }
                assert forall|v: usize, d: usize| g.has(v) implies (#[trigger] h.feeds(v, d)
                    <==> if d == n {
                    after(v)
                } else {
                    g.feeds(v, d)
                }) by {
                    assert(mid.feeds(v, d) <==> if d == n {
                        before(v)
                    } else {
                        g.feeds(v, d)
                    });
                    if v == u && !kept {
                        assert(h.node(u).dependents.contains(d) <==> (mid.node(
                            u,
                        ).dependents.contains(d) && d != n));
                    } else {
                        assert(h.node(v).dependents == mid.node(v).dependents);
                    }
                }
                assert(relinking(g, h, n, next, after));
            }
            i += 1;
        }
        let count = self.dependencies(n).len();
        let mut j: usize = 0;
        proof {
            let h = self@;
            let start = |u: usize|
                (reads(was, u) && reads(next, u)) || (reads_before(next, 0, u) && !reads(was, u));
            assert forall|v: usize, d: usize| g.has(v) implies (#[trigger] h.feeds(v, d) <==> if d
                == n {
                start(v)
            } else {
                g.feeds(v, d)
            }) by {
                if reads(was, v) {
                    let k = choose|k: int| 0 <= k < was.len() && (#[trigger] was[k]).0 == v;
                    assert(reads_before(was, was.len() as int, v));
                }
            }
            assert(relinking(g, h, n, next, start));
        }
        while j < count
            invariant
                g.shaped(),
                g.derived(n),
                was == prev@,
                was == g.node(n).dependencies,
                distinct(next),
                g.stands_above(n, next),
                count == next.len(),
                j <= count,
                !moved ==> forall|x: usize|
                    g.has(x) ==> (#[trigger] self@.node(x)).dependents == g.node(x).dependents,
                relinking(
                    g,
                    self@,
                    n,
                    next,
                    |u: usize|
                        (reads(was, u) && reads(next, u)) || (reads_before(next, j as int, u)
                            && !reads(was, u)),
                ),
            decreases count - j,
        {
            let ghost mid = self@;
            assert(mid.node(n).dependencies == next);
            let u = self.dependencies(n).entry(j).0;
            proof {
                assert(next[j as int].0 == u);
            }
            let known = prev.contains(u);
            if !known {
                self.link(u, n);
                moved = true;
            }
            proof {
                let h = self@;
                let before = |v: usize|
                    (reads(was, v) && reads(next, v)) || (reads_before(next, j as int, v)
                        && !reads(was, v));
                let after = |v: usize|
                    (reads(was, v) && reads(next, v)) || (reads_before(next, j as int + 1, v)
                        && !reads(was, v));
                assert forall|v: usize| v != u implies (reads_before(next, j as int + 1, v)
                    <==> reads_before(next, j as int, v)) by {
                    if reads_before(next, j as int + 1, v) {
                        let k = choose|k: int|
                            0 <= k < j + 1 && k < next.len() && (#[trigger] next[k]).0 == v;
                        assert(k < j);
                    }
                    if reads_before(next, j as int, v) {
                        let k = choose|k: int|
                            0 <= k < j && k < next.len() && (#[trigger] next[k]).0 == v;
                        assert(k < j + 1);
                    }
                }
                assert(reads_before(next, j as int + 1, u));
                assert(reads(next, u));
                assert(!reads_before(next, j as int, u)) by {
                    if reads_before(next, j as int, u) {
                        let k = choose|k: int|
                            0 <= k < j && k < next.len() && (#[trigger] next[k]).0 == u;
                        assert(next[k].0 != next[j as int].0);
                    }
                }
                assert(mid.feeds(u, n) <==> before(u));
                assert forall|x: usize| #![trigger h.node(x)] g.has(x) implies h.node(x) == (
                NodeView {
                    dependencies: if x == n {
                        next
                    } else {
                        g.node(x).dependencies
                    },
                    dependents: h.node(x).dependents,
                    ..g.node(x)
                }) by {
                    assert(mid.node(x) == (NodeView {
                        dependencies: if x == n {
                            next
                        } else {
                            g.node(x).dependencies
                        },
                        dependents: mid.node(x).dependents,
                        ..g.node(x)
                    }));
                }
                assert forall|x: usize| g.has(x) implies (#[trigger] h.node(
                    x,
                )).dependents.no_duplicates() by {
                    assert(mid.node(x).dependents.no_duplicates());
                    if x == u && !known {
                        let old_list = mid.node(u).dependents;
                        let new_list = h.node(u).dependents;
                        assert(new_list == old_list.push(n));
                        assert(!old_list.contains(n));
                        assert forall|a: int, b: int| 0 <= a < b < new_list.len() implies new_list[a]
                            != new_list[b] by {
                            if b == old_list.len() {
                                assert(old_list[a] == new_list[a]);
                                assert(old_list.contains(old_list[a]));
                            }
                        }
                    }
                }
                assert forall|v: usize, d: usize| g.has(v) implies (#[trigger] h.feeds(v, d)
                    <==> if d == n {
                    after(v)
                } else {
                    g.feeds(v, d)
                }) by {
                    assert(mid.feeds(v, d) <==> if d == n {
                        before(v)
                    } else {
                        g.feeds(v, d)
                    });
                    if v == u && !known {
                        let old_list = mid.node(u).dependents;
                        let new_list = h.node(u).dependents;
                        assert(new_list == old_list.push(n));
                        if new_list.contains(d) {
                            let k = choose|k: int| 0 <= k < new_list.len() && new_list[k] == d;
                            if k < old_list.len() {
                                assert(old_list[k] == d);
                            }
                        }
                        if old_list.contains(d) {
                            let k = choose|k: int| 0 <= k < old_list.len() && old_list[k] == d;
                            assert(new_list[k] == d);
                        }
                        assert(new_list[old_list.len() as int] == n);
                    } else {
                        assert(h.node(v).dependents == mid.node(v).dependents);
                    }
                }
                assert(relinking(g, h, n, next, after));
            }
            j += 1;
        }
        proof {
            let h = self@;
            assert forall|v: usize, d: usize| g.has(v) implies (#[trigger] h.feeds(v, d) <==> if d
                == n {
                reads(next, v)
            } else {
                g.feeds(v, d)
            }) by {
                if reads(next, v) {
                    let k = choose|k: int| 0 <= k < next.len() && (#[trigger] next[k]).0 == v;
                    assert(reads_before(next, next.len() as int, v));
                }
                if reads_before(next, next.len() as int, v) {
                    let k = choose|k: int|
                        0 <= k < next.len() && k < next.len() && (#[trigger] next[k]).0 == v;
                    assert(reads(next, v));
                }
            }
        }
        moved
    }
}


impl GraphView {
    /// `next` is what becomes of `self` when the evaluation of node `n` has
    /// read `deps` and produced `hash`, and `failed` is why the result was
    /// refused, if it was. A result that cannot be installed leaves the
    /// graph as it is; any other is installed as [`GraphView::commits`]
    /// describes, under `hash` or, if there is none, under the version the
    /// node publishes already.
    pub open spec fn evaluated(
        self,
        next: GraphView,
        n: usize,
        deps: Seq<(usize, Version)>,
        hash: Option<Version>,
        failed: Option<Error>,
    ) -> bool {
        &&& failed == self.refusal(n, deps, hash)
        &&& failed.is_some() ==> next == self
        &&& failed.is_none() ==> self.commits(
            next,
            n,
            deps,
            match hash {
                Some(v) => v,
                None => self.node(n).version,
            },
        )
    }

    /// Why the result of an evaluation of node `n` that read `deps` and
    /// produced `hash` cannot be installed, if it cannot: the node is gone
    /// or is a source; something that was read has changed since; the node
    /// does not stand above something that was read, as it does above every
    /// node that was read through the graph; or the new version would
    /// queue a reaction while no batch is open.
    pub open spec fn refusal(
        self,
        n: usize,
        deps: Seq<(usize, Version)>,
        hash: Option<Version>,
    ) -> Option<Error> {
        if !self.has(n) || !self.node(n).alive {
            Some(Error::Missing)
        } else if self.node(n).is_source() {
            Some(Error::NotDerived)
        } else if !self.fresh(deps) {
            Some(Error::Stale)
        } else if !self.stands_above(n, deps) {
            Some(Error::Order)
        } else if hash matches Some(version) && self.barred(n, version) {
            Some(Error::NotInBatch)
        } else {
            None
        }
    }
}

/// Raising a node above one that has not read it, together with
/// everything that has read the node itself, keeps the shape of the graph
/// and what valid nodes have read.
proof fn lemma_lifted(g: GraphView, h: GraphView, reader: usize, n: usize)
    requires
        g.wf(),
        g.has(reader),
        g.has(n),
        !g.rises(reader, n),
        g.lifts(h, reader, n),
        forall|x: usize|
            g.has(x) && g.rises(reader, x) ==> #[trigger] g.raised(reader, n, x) <= usize::MAX,
    ensures
        h.shaped(),
        h.current(),
        !g.under(n, reader) ==> h.under(n, reader),
{
    assert forall|d: usize| #![trigger h.node(d)] h.has(d) implies {
        &&& distinct(h.node(d).dependencies)
        &&& h.node(d).dependents.no_duplicates()
        &&& h.node(d).is_source() ==> h.node(d).dependencies.len() == 0
        &&& h.node(d).armed ==> h.node(d).kind == Kind::Reaction && h.node(d).alive
        &&& !h.node(d).alive ==> h.node(d).dependencies.len() == 0 && h.node(d).dependents.len()
            == 0 && !h.valid(d)
        &&& h.node(d).rank <= usize::MAX
    } by {
        let a = g.node(d);
        if g.rises(reader, d) {
            assert(g.raised(reader, n, d) <= usize::MAX);
        }
    }
    assert forall|d: usize, u: usize| h.has(d) && #[trigger] h.uses(d, u) implies h.has(u)
        && h.under(u, d) by {
        assert(h.node(d).dependencies == g.node(d).dependencies);
        assert(g.uses(d, u));
        assert(g.has(u) && g.under(u, d));
        if g.rises(reader, u) {
            crate::invalidate::lemma_depends_on_step(g, d, u, reader);
            assert(g.rises(reader, d));
        }
        assert(h.node(u).rank == g.raised(reader, n, u));
        assert(h.node(d).rank == g.raised(reader, n, d));
    }
    assert forall|u: usize, d: usize| h.has(u) && #[trigger] h.feeds(u, d) implies h.has(d) by {
        assert(h.node(u).dependents == g.node(u).dependents);
        assert(g.feeds(u, d));
    }
    assert forall|u: usize, d: usize|
        #![trigger h.feeds(u, d)]
        #![trigger h.uses(d, u)]
        h.has(u) && h.has(d) implies (h.feeds(u, d) <==> h.uses(d, u)) by {
        assert(h.node(u).dependents == g.node(u).dependents);
        assert(h.node(d).dependencies == g.node(d).dependencies);
        assert(g.feeds(u, d) <==> g.uses(d, u));
    }
    assert forall|i: int| 0 <= i < h.changed.len() implies h.has(#[trigger] h.changed[i])
        && h.node(h.changed[i]).kind == Kind::Reaction by {
        let r = h.changed[i];
        assert(g.changed[i] == r);
        assert(h.node(r).kind == g.node(r).kind);
    }
    assert forall|d: usize| h.has(d) && #[trigger] h.valid(d) implies h.fresh(
        h.node(d).dependencies,
    ) by {
        assert(h.node(d).state == g.node(d).state);
        assert(g.valid(d));
        let deps = g.node(d).dependencies;
        assert(h.node(d).dependencies == deps);
        assert(g.fresh(deps));
        assert forall|i: int| 0 <= i < deps.len() implies {
            let e = #[trigger] deps[i];
            h.has(e.0) && h.valid(e.0) && h.node(e.0).version == e.1
        } by {
            let u = deps[i].0;
            assert(g.has(u) && g.valid(u) && g.node(u).version == deps[i].1);
            assert(h.node(u).state == g.node(u).state);
            assert(h.node(u).version == g.node(u).version);
        }
    }
    if !g.under(n, reader) {
        assert(g.rises(reader, reader));
        assert(h.node(reader).rank == g.raised(reader, n, reader));
        assert(h.node(n).rank == g.raised(reader, n, n));
    }
}

/// Entering a read on both sides, by a reader that stands above what it
/// reads, replaces the reads of the reader as [`GraphView::relinks`]
/// describes and keeps the shape of the graph.
proof fn lemma_attached(g: GraphView, h: GraphView, reader: usize, n: usize)
    requires
        g.shaped(),
        g.current(),
        g.has(n),
        g.valid(n),
        g.derived(reader),
        g.under(n, reader),
        h.nodes.len() == g.nodes.len(),
        h.changed == g.changed,
        h.started == g.started,
        h.microtask == g.microtask,
        forall|x: usize| #![trigger h.node(x)]
            g.has(x) ==> h.node(x) == (NodeView {
                dependencies: if x == reader {
                    recorded(g.node(reader).dependencies, n, g.node(n).version)
                } else {
                    g.node(x).dependencies
                },
                dependents: if x == n && !g.uses(reader, n) {
                    g.node(n).dependents.push(reader)
                } else {
                    g.node(x).dependents
                },
                ..g.node(x)
            }),
    ensures
        g.relinks(h, reader, recorded(g.node(reader).dependencies, n, g.node(n).version)),
        h.shaped(),
        h.current(),
        g.feeds(n, reader) == g.uses(reader, n),
        forall|u: usize, d: usize|
            g.has(u) ==> (#[trigger] h.feeds(u, d) <==> g.feeds(u, d) || (u == n && d == reader)),
{
    let known = g.uses(reader, n);
    let was = g.node(reader).dependencies;
    let version = g.node(n).version;
    let now = recorded(was, n, version);
    lemma_recorded(was, n, version);
    assert(g.uses(reader, n) == known);
    assert(g.feeds(n, reader) == known);
    assert forall|x: usize| #![trigger h.node(x)] g.has(x) implies h.node(x) == (NodeView {
        dependencies: if x == reader {
            now
        } else {
            g.node(x).dependencies
        },
        dependents: h.node(x).dependents,
        ..g.node(x)
    }) by {}
    assert forall|x: usize| g.has(x) implies (#[trigger] h.node(
        x,
    )).dependents.no_duplicates() by {
        assert(g.node(x).dependents.no_duplicates());
        if x == n && !known {
            assert(!g.node(n).dependents.contains(reader));
            assert(h.node(n).dependents == g.node(n).dependents.push(reader));
            let s = g.node(n).dependents;
            let t = s.push(reader);
            assert forall|i: int, j: int|
                0 <= i < t.len() && 0 <= j < t.len() && i != j implies t[i] != t[j] by {
                if i < s.len() && j < s.len() {
                    assert(s[i] != s[j]);
                } else if i < s.len() {
                    assert(s.contains(s[i]));
                } else {
                    assert(s.contains(s[j]));
                }
            }
        } else {
            assert(h.node(x).dependents == g.node(x).dependents);
        }
    }
    assert forall|u: usize, d: usize| g.has(u) implies (#[trigger] h.feeds(u, d)
        <==> g.feeds(u, d) || (u == n && d == reader)) by {
        if u == n && !known {
            assert(h.node(n).dependents == g.node(n).dependents.push(reader));
            let seq = g.node(n).dependents;
            if seq.push(reader).contains(d) {
                let i = choose|i: int|
                    0 <= i < seq.push(reader).len() && seq.push(reader)[i] == d;
                if i < seq.len() {
                    assert(seq[i] == d);
                }
            }
            if seq.contains(d) {
                let i = choose|i: int| 0 <= i < seq.len() && seq[i] == d;
                assert(seq.push(reader)[i] == d);
            }
            if d == reader {
                assert(seq.push(reader)[seq.len() as int] == reader);
            }
        } else {
            assert(h.node(u).dependents == g.node(u).dependents);
        }
    }
    assert forall|u: usize, d: usize| g.has(u) implies (#[trigger] h.feeds(u, d) <==> if d
        == reader {
        reads(now, u)
    } else {
        g.feeds(u, d)
    }) by {
        if d == reader {
            assert(g.feeds(u, reader) <==> g.uses(reader, u));
        }
    }
    assert(g.relinks(h, reader, now));
    assert(g.stands_above(reader, now)) by {
        assert forall|i: int| 0 <= i < now.len() implies g.has((#[trigger] now[i]).0)
            && g.under(now[i].0, reader) by {
            assert(reads(now, now[i].0));
            if now[i].0 != n {
                assert(g.uses(reader, now[i].0));
            }
        }
    }
    assert forall|i: int| 0 <= i < now.len() implies g.node((#[trigger] now[i]).0).alive by {
        let u = now[i].0;
        assert(reads(now, u));
        if u != n {
            assert(g.uses(reader, u));
            assert(g.feeds(u, reader));
            assert(g.node(u).dependents.len() > 0);
        }
    }
    if g.valid(reader) {
        assert(g.fresh(was));
        assert(g.fresh(now)) by {
            assert forall|i: int| 0 <= i < now.len() implies {
                let e = #[trigger] now[i];
                g.has(e.0) && g.valid(e.0) && g.node(e.0).version == e.1
            } by {
                if known {
                    let k = slot(was, n);
                    if i != k {
                        assert(now[i] == was[i]);
                    }
                } else if i < was.len() {
                    assert(now[i] == was[i]);
                }
            }
        }
    }
    lemma_relinks(g, h, reader, now);
}

/// Raising the reader and then entering the read is what
/// [`GraphView::registers`] describes.
proof fn lemma_registered(g: GraphView, raised: GraphView, h: GraphView, reader: usize, n: usize)
    requires
        g.shaped(),
        g.has(n),
        g.derived(reader),
        g.lifts(raised, reader, n),
        raised.lift(reader, n) == 0,
        raised.registers(h, reader, n),
    ensures
        g.registers(h, reader, n),
        forall|x: usize|
            g.has(x) && (#[trigger] h.node(x)).observers == raised.node(x).observers
                ==> h.node(x).observers == g.node(x).observers,
        raised.feeds(n, reader) == g.feeds(n, reader),
{
    assert(raised.node(n).dependents == g.node(n).dependents);
    assert(raised.derived(reader));
    assert forall|x: usize| #![trigger h.node(x)] g.has(x) implies h.node(x) == (NodeView {
        dependencies: if x == reader {
            recorded(g.node(reader).dependencies, n, g.node(n).version)
        } else {
            g.node(x).dependencies
        },
        dependents: if x == n && !g.feeds(n, reader) {
            g.node(n).dependents.push(reader)
        } else {
            g.node(x).dependents
        },
        observers: h.node(x).observers,
        rank: g.raised(reader, n, x),
        ..g.node(x)
    }) by {
        assert(raised.node(x) == (NodeView { rank: g.raised(reader, n, x), ..g.node(x) }));
        assert(raised.node(reader) == (NodeView {
            rank: g.raised(reader, n, reader),
            ..g.node(reader)
        }));
        assert(raised.node(n) == (NodeView { rank: g.raised(reader, n, n), ..g.node(n) }));
        assert(raised.raised(reader, n, x) == raised.node(x).rank);
    }
    assert forall|u: usize, d: usize| g.has(u) implies (#[trigger] h.feeds(u, d) <==> g.feeds(u, d)
        || (u == n && d == reader)) by {
        assert(raised.node(u).dependents == g.node(u).dependents);
        assert(h.feeds(u, d) <==> raised.feeds(u, d) || (u == n && d == reader));
    }
    assert forall|x: usize|
        g.has(x) && (#[trigger] h.node(x)).observers == raised.node(x).observers implies h.node(
        x,
    ).observers == g.node(x).observers by {
        assert(raised.node(x).observers == g.node(x).observers);
    }
}

/// A node stands above every node it depends on.
pub proof fn lemma_depends_on_order(g: GraphView, x: usize, s: usize)
    requires
        g.depends_on(x, s),
    ensures
        g.under(s, x),
    decreases g.node(x).rank,
{
    let i = choose|i: int|
        0 <= i < g.node(x).dependencies.len() && {
            let u = (#[trigger] g.node(x).dependencies[i]).0;
            g.under(u, x) && (u == s || g.depends_on(u, s))
        };
    let u = g.node(x).dependencies[i].0;
    if u != s {
        lemma_depends_on_order(g, u, s);
    }
}

/// The steps of a commit, put together.
proof fn lemma_commits(
    g: GraphView,
    mid: GraphView,
    linked: GraphView,
    h: GraphView,
    n: usize,
    deps: Seq<(usize, Version)>,
    version: Version,
)
    requires
        g.wf(),
        g.derived(n),
        g.fresh(deps),
        distinct(deps),
        g.stands_above(n, deps),
        mid.wf(),
        version == g.node(n).version ==> mid == g,
        version != g.node(n).version ==> g.publishes(mid, n, version, Invalid::Maybe),
        mid.relinks(linked, n, deps),
        linked.with_state(n, State::Valid).same_but_counts(h),
        h.shaped(),
        h.counted(),
    ensures
        h.wf(),
        g.commits(h, n, deps, version),
        linked.shaped(),
{
    let first = g.with_version(n, version);
    let changed = version != g.node(n).version;
    lemma_commits_parts(g, mid, linked, n, deps, version);
    let valid = linked.with_state(n, State::Valid);
    lemma_same_but_counts(valid, h);
    assert forall|x: usize| g.has(x) implies #[trigger] mid.node(x) == (NodeView {
        state: mid.node(x).state,
        version: if x == n {
            version
        } else {
            g.node(x).version
        },
        ..g.node(x)
    }) by {
        if changed {
            assert(mid.node(x) == (NodeView { state: mid.node(x).state, ..first.node(x) }));
        }
    }
    // the relation between the first graph and the last
    assert forall|x: usize| #![trigger h.node(x)] g.has(x) implies h.node(x) == (NodeView {
        state: if x == n {
            State::Valid
        } else if version != g.node(n).version {
            g.state_after_spread(n, Invalid::Maybe, x)
        } else {
            g.node(x).state
        },
        version: if x == n {
            version
        } else {
            g.node(x).version
        },
        dependencies: if x == n {
            deps
        } else {
            g.node(x).dependencies
        },
        dependents: h.node(x).dependents,
        observers: h.node(x).observers,
        ..g.node(x)
    }) by {
        assert(h.node(x) == (NodeView { observers: h.node(x).observers, ..valid.node(x) }));
        assert(linked.node(x) == (NodeView {
            dependencies: if x == n {
                deps
            } else {
                mid.node(x).dependencies
            },
            dependents: linked.node(x).dependents,
            ..mid.node(x)
        }));
        if changed && x != n {
            assert(g.same_reads(first));
            lemma_depends_on_same_reads(g, first, x, n);
            assert(first.node(x).dependencies == g.node(x).dependencies);
            assert(mid.node(x).state == first.state_after_spread(n, Invalid::Maybe, x));
        }
    }
    assert forall|u: usize, d: usize| g.has(u) implies (#[trigger] h.feeds(u, d) <==> if d == n {
        reads(deps, u)
    } else {
        g.feeds(u, d)
    }) by {
        assert(h.node(u).dependents == valid.node(u).dependents);
        assert(valid.node(u).dependents == linked.node(u).dependents);
        assert(linked.feeds(u, d) <==> if d == n {
            reads(deps, u)
        } else {
            mid.feeds(u, d)
        });
        assert(mid.node(u).dependents == g.node(u).dependents);
    }
    assert(g.queued(h)) by {
        let start = g.changed.len() as int;
        assert(h.changed == mid.changed);
        assert forall|r: usize| g.has(r) && r != n implies (#[trigger] h.valid(r) <==> mid.valid(
            r,
        )) by {
            assert(h.node(r).state == valid.node(r).state);
            assert(linked.node(r).state == mid.node(r).state);
        }
        if changed {
            assert(first.queued(mid));
            assert forall|i: int| start <= i < h.changed.len() implies {
                let r = #[trigger] h.changed[i];
                g.has(r) && g.node(r).kind == Kind::Reaction && g.valid(r) && !h.valid(r)
            } by {
                let r = mid.changed[i];
                assert(first.has(r) && first.node(r).kind == Kind::Reaction && first.valid(r)
                    && !mid.valid(r));
                assert(r != n);
            }
            assert forall|r: usize|
                g.has(r) && g.node(r).kind == Kind::Reaction && g.valid(r) && !(#[trigger] h.valid(
                    r,
                )) implies exists|i: int|
                start <= i < h.changed.len() && #[trigger] h.changed[i] == r by {
                assert(h.node(n).state == State::Valid);
                assert(r != n);
                assert(first.node(r).kind == Kind::Reaction && first.valid(r));
                assert(!mid.valid(r));
                let i = choose|i: int|
                    start <= i < mid.changed.len() && #[trigger] mid.changed[i] == r;
                assert(h.changed[i] == r);
            }
        } else {
            assert forall|r: usize|
                g.has(r) && g.node(r).kind == Kind::Reaction && g.valid(r) && !(#[trigger] h.valid(
                    r,
                )) implies exists|i: int|
                start <= i < h.changed.len() && #[trigger] h.changed[i] == r by {
                assert(h.node(n).state == State::Valid);
                assert(r != n);
            }
        }
    }
}

impl Graph {
    /// The second half of [`Graph::commit`]: what was read is entered on
    /// both sides, the node becomes valid, and the counts follow.
    fn finish(
        &mut self,
        n: usize,
        deps: Dependencies,
        Ghost(g): Ghost<GraphView>,
        version: Version,
        changed: bool,
    )
        requires
            g.wf(),
            g.derived(n),
            deps.wf(),
            g.fresh(deps@),
            g.stands_above(n, deps@),
            old(self).wf(),
            changed == (version != g.node(n).version),
            !changed ==> old(self)@ == g,
            changed ==> g.publishes(old(self)@, n, version, Invalid::Maybe),
        ensures
            final(self).wf(),
            g.commits(final(self)@, n, deps@, version),
    {
        let ghost read = deps@;
        let ghost mid = self@;
        proof {
            if changed {
                assert(mid.node(n) == (NodeView {
                    state: mid.node(n).state,
                    ..g.with_version(n, version).node(n)
                }));
            }
            assert(mid.derived(n));
            assert(mid.stands_above(n, read)) by {
                assert forall|i: int| 0 <= i < read.len() implies mid.has((#[trigger] read[i]).0)
                    && mid.under(read[i].0, n) by {
                    let u = read[i].0;
                    assert(g.has(u) && g.under(u, n));
                    if changed {
                        assert(mid.node(u) == (NodeView {
                            state: mid.node(u).state,
                            ..g.with_version(n, version).node(u)
                        }));
                        assert(mid.node(n).rank == g.node(n).rank);
                    }
                }
            }
        }
        let moved = self.install(n, deps);
        let ghost linked = self@;
        self.set_state(n, State::Valid);
        proof {
            lemma_commits_parts(g, mid, linked, n, read, version);
        }
        if moved {
            self.recount();
        } else {
            proof {
                let h = self@;
                assert forall|x: usize| mid.has(x) implies (#[trigger] h.node(x)).dependents
                    == mid.node(x).dependents && h.node(x).armed == mid.node(x).armed && h.node(
                    x,
                ).observers == mid.node(x).observers && h.node(x).rank == mid.node(x).rank by {
                    assert(linked.node(x) == (NodeView {
                        dependencies: if x == n {
                            read
                        } else {
                            mid.node(x).dependencies
                        },
                        dependents: linked.node(x).dependents,
                        ..mid.node(x)
                    }));
                }
                lemma_counts_kept(mid, h);
            }
        }
        proof {
            lemma_commits(g, mid, linked, self@, n, read, version);
        }
    }

    /// Installs the result of an evaluation: the node that was evaluated
    /// takes what was read as its dependencies, publishes `hash` (or keeps
    /// its version, if there is none) and becomes valid. If the version is
    /// new, the nodes that depend on it become possibly invalid. The result
    /// is refused, and nothing changes, if the node cannot be evaluated, if
    /// something that was read has changed since, or if the new version
    /// would queue a reaction while no batch is open. Says whether the
    /// version is new.
    pub fn commit(&mut self, eval: Evaluation, hash: Option<Version>) -> (done: Result<
        bool,
        Error,
    >)
        requires
            old(self).wf(),
            eval.wf(),
        ensures
            final(self).wf(),
            match done {
                Ok(changed) => {
                    let version = match hash {
                        Some(v) => v,
                        None => old(self)@.node(eval.parent_id()).version,
                    };
                    &&& old(self)@.refusal(eval.parent_id(), eval@, hash).is_none()
                    &&& changed == (version != old(self)@.node(eval.parent_id()).version)
                    &&& old(self)@.commits(final(self)@, eval.parent_id(), eval@, version)
                },
                Err(e) => old(self)@.refusal(eval.parent_id(), eval@, hash) == Some(e) && final(self)@
                    == old(self)@,
            },
    {
        let n = eval.parent();
        if !self.has(n) || !self.is_alive(n) {
            return Err(Error::Missing);
        }
        match self.kind(n) {
            Kind::Var => {
                return Err(Error::NotDerived);
            },
            Kind::Const => {
                return Err(Error::NotDerived);
            },
            _ => {},
        }
        let ghost read = eval@;
        let deps = eval.take();
        if !self.is_fresh(&deps) {
            return Err(Error::Stale);
        }
        if !self.is_above(n, &deps) {
            return Err(Error::Order);
        }
        let ghost g = self@;
        let version = match hash {
            Some(v) => v,
            None => self.version(n),
        };
        let changed = match self.change(n, version, Invalid::Maybe) {
            Ok(changed) => changed,
            Err(error) => {
                return Err(error);
            },
        };
        self.finish(n, deps, Ghost(g), version, changed);
        Ok(changed)
    }
}

/// The part of [`lemma_commits`] that does not depend on the counts.
proof fn lemma_commits_parts(
    g: GraphView,
    mid: GraphView,
    linked: GraphView,
    n: usize,
    deps: Seq<(usize, Version)>,
    version: Version,
)
    requires
        g.wf(),
        g.derived(n),
        g.fresh(deps),
        distinct(deps),
        g.stands_above(n, deps),
        mid.wf(),
        version == g.node(n).version ==> mid == g,
        version != g.node(n).version ==> g.publishes(mid, n, version, Invalid::Maybe),
        mid.relinks(linked, n, deps),
    ensures
        linked.with_state(n, State::Valid).shaped(),
        linked.with_state(n, State::Valid).current(),
        linked.shaped(),
        forall|x: usize|
            g.has(x) && !g.under(n, x) ==> (#[trigger] mid.node(x)).state == g.node(x).state,
{
    let first = g.with_version(n, version);
    let changed = version != g.node(n).version;
    assert forall|x: usize| g.has(x) && !g.under(n, x) implies (#[trigger] mid.node(x)).state
        == g.node(x).state by {
        if changed {
            assert(g.same_reads(first));
            lemma_depends_on_same_reads(g, first, x, n);
            if g.depends_on(x, n) {
                lemma_depends_on_order(g, x, n);
            }
            if first.uses(x, n) {
                assert(g.uses(x, n));
                assert(g.under(n, x));
            }
            assert(mid.node(x).state == first.state_after_spread(n, Invalid::Maybe, x));
        }
    }
    assert forall|x: usize| g.has(x) implies #[trigger] mid.node(x) == (NodeView {
        state: mid.node(x).state,
        version: if x == n {
            version
        } else {
            g.node(x).version
        },
        ..g.node(x)
    }) by {
        if changed {
            assert(mid.node(x) == (NodeView { state: mid.node(x).state, ..first.node(x) }));
        }
    }
    assert(mid.derived(n));
    assert forall|i: int| 0 <= i < deps.len() implies {
        let e = #[trigger] deps[i];
        mid.has(e.0) && mid.valid(e.0) && mid.node(e.0).version == e.1 && mid.node(e.0).alive
    } by {
        let u = deps[i].0;
        assert(g.has(u) && g.valid(u) && g.node(u).version == deps[i].1);
        assert(g.under(u, n));
        assert(mid.node(u).state == g.node(u).state);
        let a = mid.node(u);
    }
    assert(mid.fresh(deps));
    lemma_relinks(mid, linked, n, deps);
    assert(linked.fresh(linked.node(n).dependencies)) by {
        assert(linked.node(n).dependencies == deps);
        assert forall|i: int| 0 <= i < deps.len() implies {
            let e = #[trigger] deps[i];
            linked.has(e.0) && linked.valid(e.0) && linked.node(e.0).version == e.1
        } by {
            let u = deps[i].0;
            assert(mid.has(u) && mid.valid(u) && mid.node(u).version == deps[i].1);
            assert(linked.node(u).state == mid.node(u).state);
            assert(linked.node(u).version == mid.node(u).version);
        }
    }
    lemma_with_state_valid(linked, n);
}

} // verus!
