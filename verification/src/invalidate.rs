//! How an invalidation spreads: a node that stops being valid marks every
//! valid node that reads it as possibly out of date, and so on downstream.

use vstd::prelude::*;
use crate::dependencies::reads;
use crate::graph::Graph;
use crate::model::{GraphView, NodeView};
use crate::shape::{lemma_counts_kept, lemma_current_kept, lemma_read_is_fresh, lemma_shape_kept};
use crate::state::{Invalid, Invalidate, Kind, State, Version};

verus! {

impl GraphView {
    /// The queue of `next` is the queue of `self` followed by the reactions
    /// that were valid in `self` and are not in `next`, each of them once.
    pub open spec fn queued(self, next: GraphView) -> bool {
        let start = self.changed.len() as int;
        &&& start <= next.changed.len()
        &&& forall|i: int| 0 <= i < start ==> #[trigger] next.changed[i] == self.changed[i]
        &&& forall|i: int|
            start <= i < next.changed.len() ==> {
                let r = #[trigger] next.changed[i];
                self.has(r) && self.node(r).kind == Kind::Reaction && self.valid(r) && !next.valid(
                    r,
                )
            }
        &&& forall|i: int, j: int|
            start <= i < j < next.changed.len() ==> #[trigger] next.changed[i]
                != #[trigger] next.changed[j]
        &&& forall|r: usize|
            self.has(r) && self.node(r).kind == Kind::Reaction && self.valid(r) && !(
            #[trigger] next.valid(r)) ==> exists|i: int|
                start <= i < next.changed.len() && #[trigger] next.changed[i] == r
    }

    /// What the state of `x` is after node `s` was asked to become invalid
    /// to the degree `kind`: `s` itself takes the request; if `s` was valid,
    /// every valid node that depends on it becomes possibly invalid; nothing
    /// else changes.
    pub open spec fn state_after_expire(self, s: usize, kind: Invalid, x: usize) -> State {
        if x == s {
            self.node(s).state.expired(kind)
        } else if self.valid(s) && self.valid(x) && self.depends_on(x, s) {
            State::Invalid(Invalid::Maybe)
        } else {
            self.node(x).state
        }
    }

    /// What the state of `x` is after the nodes that read `s` were asked to
    /// become invalid to the degree `kind`: each of them takes the request,
    /// every other valid node that depends on `s` becomes possibly invalid,
    /// nothing else changes.
    pub open spec fn state_after_spread(self, s: usize, kind: Invalid, x: usize) -> State {
        if self.uses(x, s) {
            self.node(x).state.expired(kind)
        } else if self.valid(x) && self.depends_on(x, s) {
            State::Invalid(Invalid::Maybe)
        } else {
            self.node(x).state
        }
    }

    /// `next` is `self` after node `s` was asked to become invalid.
    pub open spec fn expires(self, next: GraphView, s: usize, kind: Invalid) -> bool {
        &&& self.same_shape(next)
        &&& self.queued(next)
        &&& forall|x: usize|
            self.has(x) ==> (#[trigger] next.node(x)).state == self.state_after_expire(s, kind, x)
    }

    /// `next` is `self` after the nodes that read `s` were asked to become
    /// invalid.
    pub open spec fn spreads(self, next: GraphView, s: usize, kind: Invalid) -> bool {
        &&& self.same_shape(next)
        &&& self.queued(next)
        &&& forall|x: usize|
            self.has(x) ==> (#[trigger] next.node(x)).state == self.state_after_spread(s, kind, x)
    }
}

/// Whether `x` reads `s` directly or through others depends on the recorded
/// reads alone.
pub proof fn lemma_depends_on_same_shape(g: GraphView, h: GraphView, x: usize, s: usize)
    requires
        g.same_shape(h),
    ensures
        g.depends_on(x, s) == h.depends_on(x, s),
{
    assert(g.same_reads(h)) by {
        assert forall|y: usize| g.has(y) implies (#[trigger] h.node(y)).dependencies == g.node(
            y,
        ).dependencies by {}
    }
    lemma_depends_on_same_reads(g, h, x, s);
}

/// Whether `x` reads `s` directly or through others depends on the recorded
/// reads alone.
pub proof fn lemma_depends_on_same_reads(g: GraphView, h: GraphView, x: usize, s: usize)
    requires
        g.same_reads(h),
    ensures
        g.depends_on(x, s) == h.depends_on(x, s),
    decreases g.node(x).rank,
{
    if g.has(x) {
        assert(h.node(x).dependencies == g.node(x).dependencies);
        if g.depends_on(x, s) {
            let i = choose|i: int|
                0 <= i < g.node(x).dependencies.len() && {
                    let u = (#[trigger] g.node(x).dependencies[i]).0;
                    g.has(u) && g.under(u, x) && (u == s || g.depends_on(u, s))
                };
            let u = g.node(x).dependencies[i].0;
            lemma_depends_on_same_reads(g, h, u, s);
            assert(h.node(x).dependencies[i].0 == u);
            assert(h.node(u).rank == g.node(u).rank);
        }
        if h.depends_on(x, s) {
            let i = choose|i: int|
                0 <= i < h.node(x).dependencies.len() && {
                    let u = (#[trigger] h.node(x).dependencies[i]).0;
                    h.has(u) && h.under(u, x) && (u == s || h.depends_on(u, s))
                };
            let u = h.node(x).dependencies[i].0;
            assert(g.has(u) ==> h.node(u).rank == g.node(u).rank);
            assert(g.node(x).dependencies[i].0 == u);
            lemma_depends_on_same_reads(g, h, u, s);
        }
    }
}

/// A node depends on whatever one of the nodes it reads is or depends on.
pub proof fn lemma_depends_on_step(g: GraphView, x: usize, u: usize, s: usize)
    requires
        g.shaped(),
        g.has(x),
        g.uses(x, u),
        u == s || g.depends_on(u, s),
    ensures
        g.depends_on(x, s),
{
    let i = choose|i: int|
        0 <= i < g.node(x).dependencies.len() && (#[trigger] g.node(x).dependencies[i]).0 == u;
    assert(g.under(u, x));
    assert(g.node(x).dependencies[i].0 == u);
}

/// Depending on a node is transitive.
pub proof fn lemma_depends_on_trans(g: GraphView, x: usize, d: usize, s: usize)
    requires
        g.shaped(),
        g.depends_on(x, d),
        g.depends_on(d, s),
    ensures
        g.depends_on(x, s),
    decreases g.node(x).rank,
{
    let i = choose|i: int|
        0 <= i < g.node(x).dependencies.len() && {
            let u = (#[trigger] g.node(x).dependencies[i]).0;
            g.under(u, x) && (u == d || g.depends_on(u, d))
        };
    let u = g.node(x).dependencies[i].0;
    if u != d {
        lemma_depends_on_trans(g, u, d, s);
    }
    assert(g.uses(x, u));
    lemma_depends_on_step(g, x, u, s);
}

/// What one pass of marking guarantees, stated so that it composes: nothing
/// regains validity, every node it has marked (but possibly `s`) has only
/// invalid readers left, and every node it has marked is `s` or depends on it.
/// Once the first `done` readers of `s` have been dealt with, they are
/// invalid.
pub closed spec fn spreading(g: GraphView, h: GraphView, s: usize, kind: Invalid, done: int) -> bool {
    &&& g.same_shape(h)
    &&& h.node(s).state == g.node(s).state.expired(kind)
    &&& forall|x: usize|
        g.has(x) && x != s ==> (#[trigger] h.node(x)).state == g.node(x).state || (g.valid(x)
            && h.node(x).state == State::Invalid(Invalid::Maybe))
    &&& forall|u: usize, d: usize|
        g.has(u) && u != s && #[trigger] g.feeds(u, d) && g.valid(u) && !h.valid(u) ==> !h.valid(d)
    &&& forall|x: usize|
        g.has(x) && g.valid(x) && !(#[trigger] h.valid(x)) ==> x == s || g.depends_on(x, s)
    &&& g.queued(h)
    &&& forall|i: int|
        0 <= i < done && i < g.node(s).dependents.len() ==> !h.valid(
            #[trigger] g.node(s).dependents[i],
        )
}

/// The guarantee of a finished pass: as [`spreading`], and the readers of `s`
/// are invalid too if `s` was valid.
pub closed spec fn spread(g: GraphView, h: GraphView, s: usize, kind: Invalid) -> bool {
    &&& spreading(g, h, s, kind, 0)
    &&& !g.valid(s) ==> forall|x: usize|
        g.has(x) && x != s ==> (#[trigger] h.node(x)).state == g.node(x).state
    &&& g.valid(s) ==> forall|d: usize| #[trigger] g.feeds(s, d) ==> !h.valid(d)
}

/// Marking keeps the shape of the graph.
pub proof fn lemma_marked_shaped(g: GraphView, h: GraphView)
    requires
        g.shaped(),
        g.same_shape(h),
        forall|x: usize| g.has(x) && #[trigger] h.valid(x) ==> g.valid(x),
        forall|i: int|
            0 <= i < h.changed.len() ==> g.has(#[trigger] h.changed[i]) && g.node(
                h.changed[i],
            ).kind == Kind::Reaction,
    ensures
        h.shaped(),
{
    assert forall|x: usize| #![trigger h.node(x)] g.has(x) implies {
        &&& h.node(x).armed ==> h.node(x).kind == Kind::Reaction && h.node(x).alive
        &&& !h.node(x).alive ==> h.node(x).dependencies.len() == 0 && h.node(x).dependents.len()
            == 0 && !h.valid(x)
    } by {
        let a = g.node(x);
        if h.valid(x) {
            assert(g.valid(x));
        }
    }
    lemma_shape_kept(g, h);
}

/// The state of affairs right after `s`, which was valid, has been marked
/// and, if it is a reaction, queued.
proof fn lemma_spreading_start(g: GraphView, h: GraphView, s: usize, kind: Invalid)
    requires
        g.shaped(),
        g.has(s),
        g.valid(s),
        h.nodes == g.with_state(s, State::Invalid(kind)).nodes,
        h.started == g.started,
        h.microtask == g.microtask,
        h.changed == (if g.node(s).kind == Kind::Reaction {
            g.changed.push(s)
        } else {
            g.changed
        }),
    ensures
        spreading(g, h, s, kind, 0),
        h.shaped(),
{
    assert(g.same_shape(h));
    assert(h.node(s).state == State::Invalid(kind));
    assert forall|x: usize| g.has(x) && x != s implies (#[trigger] h.node(x)).state == g.node(
        x,
    ).state by {}
    assert forall|x: usize| g.has(x) && g.valid(x) && !(#[trigger] h.valid(x)) implies x == s by {
        if x != s {
            assert(h.node(x).state == g.node(x).state);
        }
    }
    assert forall|u: usize, d: usize|
        g.has(u) && u != s && #[trigger] g.feeds(u, d) && g.valid(u) && !h.valid(u) implies !h.valid(
        d,
    ) by {
        assert(h.node(u).state == g.node(u).state);
    }
    let start = g.changed.len() as int;
    assert(g.queued(h)) by {
        assert forall|r: usize|
            g.has(r) && g.node(r).kind == Kind::Reaction && g.valid(r) && !(#[trigger] h.valid(
                r,
            )) implies exists|i: int|
            start <= i < h.changed.len() && #[trigger] h.changed[i] == r by {
            if r != s {
                assert(h.node(r).state == g.node(r).state);
            }
            assert(h.changed[start] == s);
        }
    }
    assert forall|x: usize| g.has(x) && #[trigger] h.valid(x) implies g.valid(x) by {
        if x != s {
            assert(h.node(x).state == g.node(x).state);
        }
    }
    lemma_marked_shaped(g, h);
}

/// Marking a node that was not valid changes that node alone.
proof fn lemma_spread_upgrade(g: GraphView, s: usize, kind: Invalid)
    requires
        g.shaped(),
        g.has(s),
        !g.valid(s),
    ensures
        spread(g, g.with_state(s, g.node(s).state.expired(kind)), s, kind),
        g.with_state(s, g.node(s).state.expired(kind)).shaped(),
{
    let h = g.with_state(s, g.node(s).state.expired(kind));
    assert(g.same_shape(h));
    assert forall|x: usize| g.has(x) && x != s implies (#[trigger] h.node(x)).state == g.node(
        x,
    ).state by {}
    assert forall|x: usize| g.has(x) && #[trigger] h.valid(x) implies g.valid(x) by {
        if x != s {
            assert(h.node(x).state == g.node(x).state);
        }
    }
    assert forall|x: usize| g.has(x) && g.valid(x) && !(#[trigger] h.valid(x)) implies x == s
        || g.depends_on(x, s) by {
        assert(h.node(x).state == g.node(x).state);
    }
    assert forall|u: usize, d: usize|
        g.has(u) && u != s && #[trigger] g.feeds(u, d) && g.valid(u) && !h.valid(u) implies !h.valid(
        d,
    ) by {
        assert(h.node(u).state == g.node(u).state);
    }
    assert(g.queued(h)) by {
        assert forall|r: usize|
            g.has(r) && g.node(r).kind == Kind::Reaction && g.valid(r) && !(#[trigger] h.valid(
                r,
            )) implies false by {
            assert(h.node(r).state == g.node(r).state);
        }
    }
    lemma_marked_shaped(g, h);
}


/// One more reader of `s` has been marked: the guarantee extends to it.
proof fn lemma_spreading_step(
    g: GraphView,
    mid: GraphView,
    h: GraphView,
    s: usize,
    kind: Invalid,
    done: int,
)
    requires
        g.shaped(),
        g.has(s),
        g.valid(s),
        mid.shaped(),
        spreading(g, mid, s, kind, done),
        0 <= done < g.node(s).dependents.len(),
        spread(mid, h, g.node(s).dependents[done], Invalid::Maybe),
    ensures
        spreading(g, h, s, kind, done + 1),
{
    let d = g.node(s).dependents[done];
    assert(g.feeds(s, d));
    assert(g.uses(d, s));
    assert(g.under(s, d));
    assert(mid.node(d).state.expired(Invalid::Maybe) == mid.node(d).state || mid.valid(d));
    assert(g.same_shape(h)) by {
        assert forall|x: usize| #![trigger h.node(x)] g.has(x) implies h.node(x) == (NodeView {
            state: h.node(x).state,
            ..g.node(x)
        }) by {
            assert(mid.node(x) == (NodeView { state: mid.node(x).state, ..g.node(x) }));
        }
    }
    // what happened to the state of each node between `mid` and `h`
    assert forall|x: usize| g.has(x) implies (#[trigger] h.node(x)).state == mid.node(x).state || (
    mid.valid(x) && h.node(x).state == State::Invalid(Invalid::Maybe)) by {
        if x == d {
        } else {
        }
    }
    assert forall|x: usize| g.has(x) && x != s implies (#[trigger] h.node(x)).state == g.node(
        x,
    ).state || (g.valid(x) && h.node(x).state == State::Invalid(Invalid::Maybe)) by {
        assert(mid.node(x).state == g.node(x).state || (g.valid(x) && mid.node(x).state
            == State::Invalid(Invalid::Maybe)));
    }
    assert(h.node(s).state == g.node(s).state.expired(kind));
    assert forall|u: usize, r: usize|
        g.has(u) && u != s && #[trigger] g.feeds(u, r) && g.valid(u) && !h.valid(u) implies !h.valid(
        r,
    ) by {
        assert(g.has(r));
        assert(mid.node(u).dependents == g.node(u).dependents);
        assert(mid.feeds(u, r));
        if mid.valid(u) {
        } else {
            assert(!mid.valid(r));
            assert(h.node(r).state == mid.node(r).state || (mid.valid(r) && h.node(r).state
                == State::Invalid(Invalid::Maybe)));
        }
    }
    assert forall|x: usize| g.has(x) && g.valid(x) && !(#[trigger] h.valid(x)) implies x == s
        || g.depends_on(x, s) by {
        if mid.valid(x) {
            lemma_depends_on_step(g, d, s, s);
            if x != d {
                assert(mid.depends_on(x, d));
                lemma_depends_on_same_shape(g, mid, x, d);
                lemma_depends_on_trans(g, x, d, s);
            }
        }
    }
    assert(g.queued(h)) by {
        let start = g.changed.len() as int;
        let middle = mid.changed.len() as int;
        assert forall|i: int| 0 <= i < start implies #[trigger] h.changed[i] == g.changed[i] by {
            assert(h.changed[i] == mid.changed[i]);
        }
        assert forall|i: int| start <= i < h.changed.len() implies {
            let r = #[trigger] h.changed[i];
            g.has(r) && g.node(r).kind == Kind::Reaction && g.valid(r) && !h.valid(r)
        } by {
            let r = h.changed[i];
            if i < middle {
                assert(r == mid.changed[i]);
                assert(!mid.valid(r));
                assert(h.node(r).state == mid.node(r).state || (mid.valid(r) && h.node(r).state
                    == State::Invalid(Invalid::Maybe)));
            } else {
                assert(mid.valid(r));
                assert(mid.node(r).state == g.node(r).state || (g.valid(r) && mid.node(r).state
                    == State::Invalid(Invalid::Maybe)));
                assert(mid.node(r).kind == g.node(r).kind);
            }
        }
        assert forall|i: int, j: int| start <= i < j < h.changed.len() implies #[trigger] h.changed[i]
            != #[trigger] h.changed[j] by {
            if j < middle {
                assert(h.changed[i] == mid.changed[i]);
                assert(h.changed[j] == mid.changed[j]);
            } else if i < middle {
                assert(h.changed[i] == mid.changed[i]);
                assert(!mid.valid(mid.changed[i]));
                assert(mid.valid(h.changed[j]));
            }
        }
        assert forall|r: usize|
            g.has(r) && g.node(r).kind == Kind::Reaction && g.valid(r) && !(#[trigger] h.valid(
                r,
            )) implies exists|i: int| start <= i < h.changed.len() && #[trigger] h.changed[i]
            == r by {
            assert(mid.node(r).kind == g.node(r).kind);
            if mid.valid(r) {
                let i = choose|i: int|
                    middle <= i < h.changed.len() && #[trigger] h.changed[i] == r;
                assert(start <= i);
            } else {
                let i = choose|i: int|
                    start <= i < mid.changed.len() && #[trigger] mid.changed[i] == r;
                assert(h.changed[i] == mid.changed[i]);
            }
        }
    }
    assert forall|i: int| 0 <= i < done + 1 && i < g.node(s).dependents.len() implies !h.valid(
        #[trigger] g.node(s).dependents[i],
    ) by {
        let r = g.node(s).dependents[i];
        assert(g.feeds(s, r));
        assert(g.has(r));
        if i < done {
            assert(!mid.valid(r));
            assert(h.node(r).state == mid.node(r).state || (mid.valid(r) && h.node(r).state
                == State::Invalid(Invalid::Maybe)));
        }
    }
}

/// When every reader of `s` has been marked, the pass is finished.
proof fn lemma_spreading_done(g: GraphView, h: GraphView, s: usize, kind: Invalid)
    requires
        g.shaped(),
        g.has(s),
        g.valid(s),
        spreading(g, h, s, kind, g.node(s).dependents.len() as int),
    ensures
        spread(g, h, s, kind),
{
    assert forall|d: usize| #[trigger] g.feeds(s, d) implies !h.valid(d) by {
        let i = choose|i: int| 0 <= i < g.node(s).dependents.len() && g.node(s).dependents[i] == d;
        assert(!h.valid(g.node(s).dependents[i]));
    }
}

impl Graph {
    /// Asks node `n` to become invalid to the degree `kind`. A valid node
    /// becomes invalid, queues itself if it is a reaction, and asks every
    /// node that reads it to become possibly invalid; an invalid node only
    /// takes the stronger of its degree and `kind`.
    pub(crate) fn expire(&mut self, n: usize, kind: Invalid)
        requires
            old(self)@.shaped(),
            old(self)@.has(n),
        ensures
            final(self)@.shaped(),
            spread(old(self)@, final(self)@, n, kind),
        decreases usize::MAX - old(self)@.node(n).rank,
    {
        let ghost g = self@;
        let state = self.state(n);
        match state {
            State::Invalid(_) => {
                let next = state.expire(kind);
                self.set_state(n, next);
                proof {
                    lemma_spread_upgrade(g, n, kind);
                }
            },
            State::Valid => {
                self.set_state(n, State::Invalid(kind));
                match self.kind(n) {
                    Kind::Reaction => {
                        self.enqueue(n);
                    },
                    _ => {},
                }
                proof {
                    lemma_spreading_start(g, self@, n, kind);
                }
                let count = self.dependents(n).len();
                let mut j: usize = 0;
                while j < count
                    invariant
                        g == old(self)@,
                        g.shaped(),
                        g.has(n),
                        g.valid(n),
                        self@.shaped(),
                        spreading(g, self@, n, kind, j as int),
                        count == g.node(n).dependents.len(),
                        j <= count,
                    decreases count - j,
                {
                    let ghost mid = self@;
                    assert(mid.node(n).dependents == g.node(n).dependents);
                    let d = self.dependents(n)[j];
                    proof {
                        assert(g.feeds(n, d));
                        assert(g.uses(d, n));
                        assert(g.under(n, d));
                        assert(mid.nodes.len() == g.nodes.len());
                    }
                    self.expire(d, Invalid::Maybe);
                    proof {
                        lemma_spreading_step(g, mid, self@, n, kind, j as int);
                    }
                    j += 1;
                }
                proof {
                    lemma_spreading_done(g, self@, n, kind);
                }
            },
        }
    }
}


/// A finished pass restores the invariant of the graph.
proof fn lemma_spread_wf(g: GraphView, h: GraphView, s: usize, kind: Invalid)
    requires
        g.wf(),
        g.has(s),
        h.shaped(),
        spread(g, h, s, kind),
    ensures
        h.wf(),
        forall|x: usize| g.has(x) && #[trigger] h.valid(x) ==> g.valid(x),
{
    assert forall|x: usize| g.has(x) && #[trigger] h.valid(x) implies g.valid(x) by {
        if x != s {
            assert(h.node(x).state == g.node(x).state || (g.valid(x) && h.node(x).state
                == State::Invalid(Invalid::Maybe)));
        }
    }
    assert forall|d: usize| h.has(d) && #[trigger] h.valid(d) implies h.fresh(
        h.node(d).dependencies,
    ) by {
        assert(g.valid(d));
        let deps = g.node(d).dependencies;
        assert(h.node(d).dependencies == deps);
        assert(g.fresh(deps));
        assert forall|i: int| 0 <= i < deps.len() implies {
            let e = #[trigger] deps[i];
            h.has(e.0) && h.valid(e.0) && h.node(e.0).version == e.1
        } by {
            let u = deps[i].0;
            assert(g.has(u) && g.valid(u) && g.node(u).version == deps[i].1);
            assert(g.uses(d, u));
            assert(g.feeds(u, d));
            assert(h.node(u).version == g.node(u).version);
            if !h.valid(u) {
                if u == s {
                    assert(!h.valid(d));
                } else {
                    assert(!h.valid(d));
                }
            }
        }
    }
    lemma_counts_kept(g, h);
}

/// A finished pass has marked every valid node that depends on `s`.
proof fn lemma_spread_reaches(g: GraphView, h: GraphView, s: usize, kind: Invalid, x: usize)
    requires
        g.wf(),
        g.has(s),
        g.valid(s),
        spread(g, h, s, kind),
        g.valid(x),
        g.depends_on(x, s),
    ensures
        !h.valid(x),
    decreases g.node(x).rank,
{
    let i = choose|i: int|
        0 <= i < g.node(x).dependencies.len() && {
            let u = (#[trigger] g.node(x).dependencies[i]).0;
            g.under(u, x) && (u == s || g.depends_on(u, s))
        };
    let u = g.node(x).dependencies[i].0;
    assert(g.uses(x, u));
    assert(g.fresh(g.node(x).dependencies));
    assert(g.has(u) && g.valid(u));
    assert(g.feeds(u, x));
    if u != s {
        lemma_spread_reaches(g, h, s, kind, u);
    }
}

/// A finished pass leaves exactly the states that [`GraphView::expires`]
/// describes.
proof fn lemma_spread_exact(g: GraphView, h: GraphView, s: usize, kind: Invalid)
    requires
        g.wf(),
        g.has(s),
        spread(g, h, s, kind),
    ensures
        g.expires(h, s, kind),
{
    assert forall|x: usize| g.has(x) implies (#[trigger] h.node(x)).state == g.state_after_expire(
        s,
        kind,
        x,
    ) by {
        if x != s {
            assert(h.node(x).state == g.node(x).state || (g.valid(x) && h.node(x).state
                == State::Invalid(Invalid::Maybe)));
            if g.valid(s) && g.valid(x) && g.depends_on(x, s) {
                lemma_spread_reaches(g, h, s, kind, x);
            } else if h.node(x).state != g.node(x).state {
                assert(g.valid(x) && !h.valid(x));
            }
        }
    }
}

/// What holds while the readers of `s` are marked one after the other: the
/// first `done` of them have taken the request, every other node is as it
/// was or has gone from valid to possibly invalid, and only nodes that
/// depend on `s` were touched.
pub closed spec fn spreading_from(g: GraphView, h: GraphView, s: usize, kind: Invalid, done: int) -> bool {
    &&& g.same_shape(h)
    &&& g.queued(h)
    &&& forall|i: int|
        0 <= i < done && i < g.node(s).dependents.len() ==> h.node(
            #[trigger] g.node(s).dependents[i],
        ).state == g.node(g.node(s).dependents[i]).state.expired(kind)
    &&& forall|x: usize|
        g.has(x) ==> (#[trigger] h.node(x)).state == g.node(x).state || (g.valid(x) && h.node(
            x,
        ).state == State::Invalid(Invalid::Maybe)) || (g.uses(x, s) && h.node(x).state
            == g.node(x).state.expired(kind))
    &&& forall|x: usize|
        g.has(x) && (#[trigger] h.node(x)).state != g.node(x).state ==> g.depends_on(x, s)
}

/// One more reader of `s` has taken the request.
proof fn lemma_spreading_from_step(
    g: GraphView,
    mid: GraphView,
    h: GraphView,
    s: usize,
    kind: Invalid,
    done: int,
)
    requires
        g.wf(),
        g.has(s),
        mid.wf(),
        spreading_from(g, mid, s, kind, done),
        0 <= done < g.node(s).dependents.len(),
        spread(mid, h, g.node(s).dependents[done], kind),
    ensures
        spreading_from(g, h, s, kind, done + 1),
{
    let d = g.node(s).dependents[done];
    assert(g.feeds(s, d));
    assert(g.uses(d, s));
    assert(g.under(s, d));
    lemma_depends_on_step(g, d, s, s);
    assert(g.same_shape(h)) by {
        assert forall|x: usize| #![trigger h.node(x)] g.has(x) implies h.node(x) == (NodeView {
            state: h.node(x).state,
            ..g.node(x)
        }) by {
            assert(mid.node(x) == (NodeView { state: mid.node(x).state, ..g.node(x) }));
        }
    }
    assert forall|x: usize| g.has(x) && x != d implies (#[trigger] h.node(x)).state == mid.node(
        x,
    ).state || (mid.valid(x) && h.node(x).state == State::Invalid(Invalid::Maybe)) by {}
    assert(mid.node(d).state == g.node(d).state || (g.valid(d) && mid.node(d).state
        == State::Invalid(Invalid::Maybe)) || (g.uses(d, s) && mid.node(d).state == g.node(
        d,
    ).state.expired(kind)));
    assert(h.node(d).state == g.node(d).state.expired(kind));
    assert forall|i: int| 0 <= i < done + 1 && i < g.node(s).dependents.len() implies h.node(
        #[trigger] g.node(s).dependents[i],
    ).state == g.node(g.node(s).dependents[i]).state.expired(kind) by {
        let r = g.node(s).dependents[i];
        assert(g.feeds(s, r));
        assert(g.has(r));
        if i < done {
            assert(r != d);
            assert(mid.node(r).state == g.node(r).state.expired(kind));
            assert(!mid.valid(r));
            assert(h.node(r).state == mid.node(r).state || (mid.valid(r) && h.node(r).state
                == State::Invalid(Invalid::Maybe)));
        }
    }
    assert forall|x: usize| g.has(x) implies (#[trigger] h.node(x)).state == g.node(x).state || (
    g.valid(x) && h.node(x).state == State::Invalid(Invalid::Maybe)) || (g.uses(x, s) && h.node(
        x,
    ).state == g.node(x).state.expired(kind)) by {
        if x != d {
            assert(h.node(x).state == mid.node(x).state || (mid.valid(x) && h.node(x).state
                == State::Invalid(Invalid::Maybe)));
            assert(mid.node(x).state == g.node(x).state || (g.valid(x) && mid.node(x).state
                == State::Invalid(Invalid::Maybe)) || (g.uses(x, s) && mid.node(x).state
                == g.node(x).state.expired(kind)));
        }
    }
    assert forall|x: usize| g.has(x) && (#[trigger] h.node(x)).state != g.node(
        x,
    ).state implies g.depends_on(x, s) by {
        if x != d && mid.node(x).state == g.node(x).state {
            assert(mid.valid(x) && !h.valid(x));
            assert(mid.depends_on(x, d));
            lemma_depends_on_same_shape(g, mid, x, d);
            lemma_depends_on_trans(g, x, d, s);
        }
    }
    assert(g.queued(h)) by {
        let start = g.changed.len() as int;
        let middle = mid.changed.len() as int;
        assert forall|x: usize| g.has(x) && !mid.valid(x) implies !(#[trigger] h.valid(x)) by {
            if x != d {
                assert(h.node(x).state == mid.node(x).state || (mid.valid(x) && h.node(x).state
                    == State::Invalid(Invalid::Maybe)));
            }
        }
        assert forall|x: usize| g.has(x) && #[trigger] mid.valid(x) implies g.valid(x) by {
            assert(mid.node(x).state == g.node(x).state || (g.valid(x) && mid.node(x).state
                == State::Invalid(Invalid::Maybe)) || (g.uses(x, s) && mid.node(x).state
                == g.node(x).state.expired(kind)));
        }
        assert forall|i: int| 0 <= i < start implies #[trigger] h.changed[i] == g.changed[i] by {
            assert(h.changed[i] == mid.changed[i]);
        }
        assert forall|i: int| start <= i < h.changed.len() implies {
            let r = #[trigger] h.changed[i];
            g.has(r) && g.node(r).kind == Kind::Reaction && g.valid(r) && !h.valid(r)
        } by {
            let r = h.changed[i];
            if i < middle {
                assert(r == mid.changed[i]);
                assert(!mid.valid(r));
            } else {
                assert(mid.valid(r));
                assert(mid.node(r).kind == g.node(r).kind);
            }
        }
        assert forall|i: int, j: int| start <= i < j < h.changed.len() implies #[trigger] h.changed[i]
            != #[trigger] h.changed[j] by {
            if j < middle {
                assert(h.changed[i] == mid.changed[i]);
                assert(h.changed[j] == mid.changed[j]);
            } else if i < middle {
                assert(h.changed[i] == mid.changed[i]);
                assert(!mid.valid(mid.changed[i]));
                assert(mid.valid(h.changed[j]));
            }
        }
        assert forall|r: usize|
            g.has(r) && g.node(r).kind == Kind::Reaction && g.valid(r) && !(#[trigger] h.valid(
                r,
            )) implies exists|i: int| start <= i < h.changed.len() && #[trigger] h.changed[i]
            == r by {
            assert(mid.node(r).kind == g.node(r).kind);
            if mid.valid(r) {
                let i = choose|i: int|
                    middle <= i < h.changed.len() && #[trigger] h.changed[i] == r;
                assert(start <= i);
            } else {
                let i = choose|i: int|
                    start <= i < mid.changed.len() && #[trigger] mid.changed[i] == r;
                assert(h.changed[i] == mid.changed[i]);
            }
        }
    }
}

/// Nothing has happened yet.
proof fn lemma_spreading_from_start(g: GraphView, s: usize, kind: Invalid)
    ensures
        spreading_from(g, g, s, kind, 0),
{
    assert(g.queued(g));
}

/// A valid node that depends on `s` is no longer valid once every reader of
/// `s` has taken the request.
proof fn lemma_spreading_from_reaches(
    g: GraphView,
    h: GraphView,
    s: usize,
    kind: Invalid,
    x: usize,
)
    requires
        g.wf(),
        g.has(s),
        h.wf(),
        spreading_from(g, h, s, kind, g.node(s).dependents.len() as int),
        g.depends_on(x, s),
    ensures
        !h.valid(x),
    decreases g.node(x).rank,
{
    let i = choose|i: int|
        0 <= i < g.node(x).dependencies.len() && {
            let u = (#[trigger] g.node(x).dependencies[i]).0;
            g.under(u, x) && (u == s || g.depends_on(u, s))
        };
    let u = g.node(x).dependencies[i].0;
    assert(g.uses(x, u));
    if u == s {
        assert(g.feeds(s, x));
        let k = choose|k: int| 0 <= k < g.node(s).dependents.len() && g.node(s).dependents[k] == x;
        assert(h.node(g.node(s).dependents[k]).state == g.node(x).state.expired(kind));
    } else {
        lemma_spreading_from_reaches(g, h, s, kind, u);
        if h.valid(x) {
            assert(h.node(x).dependencies == g.node(x).dependencies);
            assert(h.fresh(h.node(x).dependencies));
            assert(h.valid(h.node(x).dependencies[i].0));
        }
    }
}

/// Once every reader of `s` has taken the request, the states are exactly
/// those that [`GraphView::spreads`] describes.
proof fn lemma_spreading_from_exact(g: GraphView, h: GraphView, s: usize, kind: Invalid)
    requires
        g.wf(),
        g.has(s),
        h.wf(),
        spreading_from(g, h, s, kind, g.node(s).dependents.len() as int),
    ensures
        g.spreads(h, s, kind),
{
    assert forall|x: usize| g.has(x) implies (#[trigger] h.node(x)).state == g.state_after_spread(
        s,
        kind,
        x,
    ) by {
        if g.uses(x, s) {
            assert(g.feeds(s, x));
            let k = choose|k: int|
                0 <= k < g.node(s).dependents.len() && g.node(s).dependents[k] == x;
            assert(h.node(g.node(s).dependents[k]).state == g.node(x).state.expired(kind));
        } else if g.valid(x) && g.depends_on(x, s) {
            lemma_spreading_from_reaches(g, h, s, kind, x);
        } else {
        }
    }
}

impl Graph {
    /// Asks every node that reads `n` to become invalid to the degree
    /// `kind`; `n` itself stays as it is.
    pub(crate) fn spread_from(&mut self, n: usize, kind: Invalid)
        requires
            old(self).wf(),
            old(self)@.has(n),
        ensures
            final(self).wf(),
            old(self)@.spreads(final(self)@, n, kind),
    {
        let ghost g = self@;
        proof {
            lemma_spreading_from_start(g, n, kind);
        }
        let count = self.dependents(n).len();
        let mut j: usize = 0;
        while j < count
            invariant
                g.wf(),
                g.has(n),
                self.wf(),
                spreading_from(g, self@, n, kind, j as int),
                count == g.node(n).dependents.len(),
                j <= count,
            decreases count - j,
        {
            let ghost mid = self@;
            assert(mid.node(n).dependents == g.node(n).dependents);
            let d = self.dependents(n)[j];
            proof {
                assert(g.feeds(n, d));
            }
            self.expire(d, kind);
            proof {
                lemma_spread_wf(mid, self@, d, kind);
                lemma_spreading_from_step(g, mid, self@, n, kind, j as int);
            }
            j += 1;
        }
        proof {
            lemma_spreading_from_exact(g, self@, n, kind);
        }
    }
}


impl GraphView {
    /// Whether asking `s` (or, with `OnlyDeps`, the nodes that read it) to
    /// become invalid would take the validity of `x`.
    pub open spec fn reaches(self, s: usize, inv: Invalidate, x: usize) -> bool {
        match inv {
            Invalidate::SelfAndDeps => self.valid(s) && self.valid(x) && (x == s || self.depends_on(
                x,
                s,
            )),
            Invalidate::OnlyDeps => self.valid(x) && self.depends_on(x, s),
        }
    }

    /// Whether such a request would put a reaction on the queue.
    pub open spec fn queues(self, s: usize, inv: Invalidate) -> bool {
        exists|r: usize|
            self.has(r) && (#[trigger] self.node(r)).kind == Kind::Reaction && self.reaches(
                s,
                inv,
                r,
            )
    }

    /// Node `s` cannot publish `version` as things stand: the version is
    /// new, a reaction would be queued by it, and no batch is open.
    pub open spec fn barred(self, s: usize, version: Version) -> bool {
        version != self.node(s).version && !self.started && self.queues(s, Invalidate::OnlyDeps)
    }

    /// `next` is `self` after node `s` has published `version` and the nodes
    /// that read it were asked to become invalid to the degree `kind`.
    pub open spec fn publishes(self, next: GraphView, s: usize, version: Version, kind: Invalid) -> bool {
        self.with_version(s, version).spreads(next, s, kind)
    }
}

/// A node may publish a new version once nothing valid has read it.
proof fn lemma_with_version_wf(g: GraphView, s: usize, version: Version)
    requires
        g.wf(),
        g.has(s),
        forall|d: usize| #[trigger] g.feeds(s, d) ==> !g.valid(d),
    ensures
        g.with_version(s, version).wf(),
{
    let h = g.with_version(s, version);
    assert forall|x: usize| g.has(x) implies #[trigger] h.node(x) == (NodeView {
        version: h.node(x).version,
        ..g.node(x)
    }) by {}
    assert forall|x: usize| #![trigger h.node(x)] g.has(x) implies {
        &&& h.node(x).armed ==> h.node(x).kind == Kind::Reaction && h.node(x).alive
        &&& !h.node(x).alive ==> h.node(x).dependencies.len() == 0 && h.node(x).dependents.len()
            == 0 && !h.valid(x)
    } by {
        let a = g.node(x);
    }
    lemma_shape_kept(g, h);
    assert forall|d: usize, u: usize|
        g.has(d) && h.valid(d) && #[trigger] g.uses(d, u) implies h.valid(u) && h.node(u).version
        == g.node(u).version by {
        lemma_read_is_fresh(g, d, u);
    }
    lemma_current_kept(g, h);
    lemma_counts_kept(g, h);
}

/// Publishing the version after the readers were marked is the same as
/// marking them in the graph that already holds the version.
proof fn lemma_publishes(g: GraphView, mid: GraphView, s: usize, version: Version, kind: Invalid)
    requires
        g.wf(),
        g.has(s),
        g.spreads(mid, s, kind),
    ensures
        g.publishes(mid.with_version(s, version), s, version, kind),
{
    let first = g.with_version(s, version);
    let h = mid.with_version(s, version);
    assert(first.same_shape(h)) by {
        assert forall|x: usize| #![trigger h.node(x)] first.has(x) implies h.node(x) == (NodeView {
            state: h.node(x).state,
            ..first.node(x)
        }) by {
            assert(mid.node(x) == (NodeView { state: mid.node(x).state, ..g.node(x) }));
        }
    }
    assert(g.same_reads(first));
    assert forall|x: usize| first.has(x) implies (#[trigger] h.node(x)).state
        == first.state_after_spread(s, kind, x) by {
        assert(mid.node(x).state == g.state_after_spread(s, kind, x));
        lemma_depends_on_same_reads(g, first, x, s);
        assert(first.node(x).dependencies == g.node(x).dependencies);
        assert(first.node(x).state == g.node(x).state);
    }
    assert(first.queued(h)) by {
        let start = g.changed.len() as int;
        assert forall|i: int| start <= i < h.changed.len() implies {
            let r = #[trigger] h.changed[i];
            first.has(r) && first.node(r).kind == Kind::Reaction && first.valid(r) && !h.valid(r)
        } by {
            let r = mid.changed[i];
            assert(g.has(r) && g.node(r).kind == Kind::Reaction && g.valid(r) && !mid.valid(r));
        }
        assert forall|r: usize|
            first.has(r) && first.node(r).kind == Kind::Reaction && first.valid(r) && !(
            #[trigger] h.valid(r)) implies exists|i: int|
            start <= i < h.changed.len() && #[trigger] h.changed[i] == r by {
            assert(g.node(r).kind == Kind::Reaction && g.valid(r));
            assert(!mid.valid(r));
            let i = choose|i: int| start <= i < mid.changed.len() && #[trigger] mid.changed[i] == r;
            assert(h.changed[i] == r);
        }
    }
}

impl Graph {
    /// Whether node `x` has read `s` directly or through others. What is
    /// found for the nodes met on the way is noted in `memo`: 1 for a node
    /// that has not, 2 for one that has; of any other node nothing is known
    /// yet.
    fn lookup(&self, x: usize, s: usize, memo: &mut Vec<u8>) -> (found: bool)
        requires
            self.wf(),
            self@.has(x),
            old(memo)@.len() == self@.nodes.len(),
            forall|y: usize|
                self@.has(y) ==> (#[trigger] old(memo)@[y as int] == 1 ==> !self@.depends_on(y, s)),
            forall|y: usize|
                self@.has(y) ==> (#[trigger] old(memo)@[y as int] == 2 ==> self@.depends_on(y, s)),
        ensures
            final(memo)@.len() == self@.nodes.len(),
            forall|y: usize|
                self@.has(y) ==> (#[trigger] final(memo)@[y as int] == 1 ==> !self@.depends_on(
                    y,
                    s,
                )),
            forall|y: usize|
                self@.has(y) ==> (#[trigger] final(memo)@[y as int] == 2 ==> self@.depends_on(y, s)),
            found == self@.depends_on(x, s),
        decreases self@.node(x).rank,
    {
        let known = memo[x];
        if known == 1 {
            return false;
        }
        if known == 2 {
            return true;
        }
        let count = self.dependencies(x).len();
        let mut found = false;
        let mut i: usize = 0;
        while i < count
            invariant
                self.wf(),
                self@.has(x),
                count == self@.node(x).dependencies.len(),
                i <= count,
                memo@.len() == self@.nodes.len(),
                forall|y: usize|
                    self@.has(y) ==> (#[trigger] memo@[y as int] == 1 ==> !self@.depends_on(y, s)),
                forall|y: usize|
                    self@.has(y) ==> (#[trigger] memo@[y as int] == 2 ==> self@.depends_on(y, s)),
                found == exists|k: int|
                    0 <= k < i && {
                        let u = (#[trigger] self@.node(x).dependencies[k]).0;
                        self@.has(u) && self@.under(u, x) && (u == s || self@.depends_on(u, s))
                    },
            decreases count - i,
        {
            let u = self.dependencies(x).entry(i).0;
            proof {
                assert(self@.node(x).dependencies[i as int].0 == u);
                assert(self@.uses(x, u));
                assert(self@.has(u) && self@.under(u, x));
            }
            if u == s {
                found = true;
            } else if self.lookup(u, s, memo) {
                found = true;
            }
            i += 1;
        }
        memo.set(x, if found {
            2
        } else {
            1
        });
        found
    }

    /// For every node, whether it has read `s` directly or through others.
    pub fn downstream(&self, s: usize) -> (marks: Vec<bool>)
        requires
            self.wf(),
        ensures
            marks@.len() == self@.nodes.len(),
            forall|x: usize| self@.has(x) ==> #[trigger] marks@[x as int] == self@.depends_on(x, s),
    {
        let total = self.len();
        let mut memo: Vec<u8> = Vec::new();
        let mut k: usize = 0;
        while k < total
            invariant
                k <= total,
                memo@.len() == k,
                forall|i: int| 0 <= i < k ==> memo@[i] == 0,
            decreases total - k,
        {
            memo.push(0);
            k += 1;
        }
        let mut marks: Vec<bool> = Vec::new();
        let mut x: usize = 0;
        while x < total
            invariant
                self.wf(),
                total == self@.nodes.len(),
                x <= total,
                marks@.len() == x,
                memo@.len() == total,
                forall|y: usize|
                    self@.has(y) ==> (#[trigger] memo@[y as int] == 1 ==> !self@.depends_on(y, s)),
                forall|y: usize|
                    self@.has(y) ==> (#[trigger] memo@[y as int] == 2 ==> self@.depends_on(y, s)),
                forall|y: usize| y < x ==> #[trigger] marks@[y as int] == self@.depends_on(y, s),
            decreases total - x,
        {
            let found = self.lookup(x, s, &mut memo);
            marks.push(found);
            x += 1;
        }
        marks
    }

    /// Whether asking `s` to become invalid would put a reaction on the
    /// queue.
    pub fn queues(&self, s: usize, inv: Invalidate) -> (hit: bool)
        requires
            self.wf(),
            self@.has(s),
        ensures
            hit == self@.queues(s, inv),
    {
        let marks = self.downstream(s);
        let source_valid = self.is_valid(s);
        let mut r: usize = 0;
        let total = self.len();
        while r < total
            invariant
                self.wf(),
                self@.has(s),
                total == self@.nodes.len(),
                r <= total,
                source_valid == self@.valid(s),
                marks@.len() == total,
                forall|x: usize|
                    self@.has(x) ==> #[trigger] marks@[x as int] == self@.depends_on(x, s),
                forall|y: usize|
                    y < r ==> !((#[trigger] self@.node(y)).kind == Kind::Reaction && self@.reaches(
                        s,
                        inv,
                        y,
                    )),
            decreases total - r,
        {
            let is_reaction = match self.kind(r) {
                Kind::Reaction => true,
                _ => false,
            };
            let reached = match inv {
                Invalidate::SelfAndDeps => source_valid && self.is_valid(r) && (r == s || marks[r]),
                Invalidate::OnlyDeps => self.is_valid(r) && marks[r],
            };
            if is_reaction && reached {
                assert(self@.node(r).kind == Kind::Reaction && self@.reaches(s, inv, r));
                return true;
            }
            r += 1;
        }
        false
    }

    /// Asks node `n` to become invalid to the degree `kind`, or, with
    /// `OnlyDeps`, asks that of the nodes that read it. The request spreads
    /// downstream as a possible invalidity, and every reaction that loses its
    /// validity is queued. Outside a batch a request that would queue a
    /// reaction is refused and nothing changes.
    pub fn invalidate(&mut self, n: usize, kind: Invalid, inv: Invalidate) -> (done: Result<
        (),
        crate::state::Error,
    >)
        requires
            old(self).wf(),
            old(self)@.has(n),
        ensures
            final(self).wf(),
            done.is_err() <==> !old(self)@.started && old(self)@.queues(n, inv),
            done.is_err() ==> done == Err::<(), crate::state::Error>(
                crate::state::Error::NotInBatch,
            ) && final(self)@ == old(self)@,
            done.is_ok() ==> match inv {
                Invalidate::SelfAndDeps => old(self)@.expires(final(self)@, n, kind),
                Invalidate::OnlyDeps => old(self)@.spreads(final(self)@, n, kind),
            },
    {
        if !self.in_batch() && self.queues(n, inv) {
            return Err(crate::state::Error::NotInBatch);
        }
        match inv {
            Invalidate::SelfAndDeps => {
                let ghost g = self@;
                self.expire(n, kind);
                proof {
                    lemma_spread_wf(g, self@, n, kind);
                    lemma_spread_exact(g, self@, n, kind);
                }
            },
            Invalidate::OnlyDeps => {
                self.spread_from(n, kind);
            },
        }
        Ok(())
    }

    /// Publishes `version` as the value of node `n`. If it is the version
    /// already published nothing happens; otherwise every node that reads `n`
    /// is asked to become invalid to the degree `kind`, and the request
    /// spreads downstream from there. Outside a batch a new version that
    /// would queue a reaction is refused and nothing changes. Says whether
    /// the version was new.
    pub fn change(&mut self, n: usize, version: Version, kind: Invalid) -> (done: Result<
        bool,
        crate::state::Error,
    >)
        requires
            old(self).wf(),
            old(self)@.has(n),
        ensures
            final(self).wf(),
            match done {
                Ok(changed) => {
                    &&& !old(self)@.barred(n, version)
                    &&& changed == (version != old(self)@.node(n).version)
                    &&& !changed ==> final(self)@ == old(self)@
                    &&& changed ==> old(self)@.publishes(final(self)@, n, version, kind)
                },
                Err(e) => e == crate::state::Error::NotInBatch && old(self)@.barred(n, version)
                    && final(self)@ == old(self)@,
            },
    {
        if self.hash(n) == version.value() {
            return Ok(false);
        }
        if !self.in_batch() && self.queues(n, Invalidate::OnlyDeps) {
            return Err(crate::state::Error::NotInBatch);
        }
        let ghost g = self@;
        self.spread_from(n, kind);
        let ghost mid = self@;
        self.set_version(n, version);
        proof {
            assert forall|d: usize| #[trigger] mid.feeds(n, d) implies !mid.valid(d) by {
                assert(mid.node(n).dependents == g.node(n).dependents);
                assert(g.feeds(n, d));
                assert(g.uses(d, n));
                assert(mid.node(d).state == g.state_after_spread(n, kind, d));
            }
            lemma_with_version_wf(mid, n, version);
            lemma_publishes(g, mid, n, version, kind);
        }
        Ok(true)
    }
}

} // verus!
