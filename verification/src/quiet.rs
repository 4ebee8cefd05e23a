//! Nodes that can be brought up to date without running any function.

use vstd::prelude::*;
use crate::model::{GraphView, NodeView};
use crate::state::{Invalid, State};

verus! {

impl GraphView {
    /// Node `n` can be brought up to date without running any function: it
    /// is valid, or it is a source, or it is possibly invalid, its function
    /// is not being run, and everything it has read is quiet itself and
    /// publishes the version that was seen.
    pub open spec fn quiet(self, n: usize) -> bool
        decreases self.node(n).rank,
    {
        self.has(n) && self.node(n).alive && (self.valid(n) || self.node(n).is_source() || (
        self.node(n).state == State::Invalid(Invalid::Maybe) && !self.node(n).busy && forall|i: int|
            0 <= i < self.node(n).dependencies.len() ==> {
                let e = #[trigger] self.node(n).dependencies[i];
                self.under(e.0, n) && self.quiet(e.0) && self.node(e.0).version == e.1
            }))
    }

    /// `x` is one of the nodes that become valid when `n` is brought up to
    /// date: `n` itself unless it is valid, and, unless `n` is a source,
    /// what becomes valid when the nodes it has read are brought up to date.
    pub open spec fn calms(self, n: usize, x: usize) -> bool
        decreases self.node(n).rank,
    {
        self.has(n) && !self.valid(n) && (x == n || (!self.node(n).is_source() && exists|i: int|
            0 <= i < self.node(n).dependencies.len() && {
                let u = (#[trigger] self.node(n).dependencies[i]).0;
                self.under(u, n) && self.calms(u, x)
            }))
    }

    /// `x` becomes valid when the first `upto` nodes that `n` has read are
    /// brought up to date.
    pub open spec fn calms_before(self, n: usize, upto: int, x: usize) -> bool {
        exists|k: int|
            0 <= k < upto && k < self.node(n).dependencies.len() && self.calms(
                (#[trigger] self.node(n).dependencies[k]).0,
                x,
            )
    }

    /// `next` is `self` with the nodes that `pick` picks taken as valid.
    pub open spec fn validated(self, next: GraphView, pick: spec_fn(usize) -> bool) -> bool {
        &&& next.nodes.len() == self.nodes.len()
        &&& next.changed == self.changed
        &&& next.started == self.started
        &&& next.microtask == self.microtask
        &&& forall|x: usize| #![trigger next.node(x)]
            self.has(x) ==> next.node(x) == (NodeView {
                state: if pick(x) {
                    State::Valid
                } else {
                    self.node(x).state
                },
                ..self.node(x)
            })
    }

    /// `next` is `self` after `n` was brought up to date without running
    /// any function: exactly the nodes that [`GraphView::calms`] names have
    /// become valid.
    pub open spec fn calmed(self, next: GraphView, n: usize) -> bool {
        self.validated(next, |x: usize| self.calms(n, x))
    }
}

/// A node that is settled is quiet, and bringing it up to date makes it
/// valid and nothing else.
pub proof fn lemma_settled_is_quiet(g: GraphView, n: usize)
    requires
        g.wf(),
        g.settled(n),
    ensures
        g.quiet(n),
        forall|x: usize| g.calms(n, x) <==> (x == n && !g.valid(n)),
{
    let deps = g.node(n).dependencies;
    if !g.valid(n) && !g.node(n).is_source() {
        assert(g.fresh(deps));
        assert forall|i: int| 0 <= i < deps.len() implies {
            let e = #[trigger] deps[i];
            g.under(e.0, n) && g.quiet(e.0) && g.node(e.0).version == e.1
        } by {
            let u = deps[i].0;
            assert(g.uses(n, u));
            assert(g.has(u) && g.valid(u));
            let a = g.node(u);
        }
        assert forall|x: usize| g.calms(n, x) implies x == n by {
            if x != n {
                let i = choose|i: int|
                    0 <= i < deps.len() && {
                        let u = (#[trigger] deps[i]).0;
                        g.under(u, n) && g.calms(u, x)
                    };
                assert(g.valid(deps[i].0));
            }
        }
    }
    if g.node(n).is_source() {
        assert(deps.len() == 0);
    }
}

/// Bringing a settled node up to date changes the state of that node
/// alone.
pub proof fn lemma_calmed_settled(g: GraphView, h: GraphView, n: usize)
    requires
        g.wf(),
        g.settled(n),
        g.calmed(h, n),
    ensures
        h == g.with_state(n, State::Valid),
{
    lemma_settled_is_quiet(g, n);
    assert(g.nodes.len() <= usize::MAX);
    assert forall|i: int| 0 <= i < g.nodes.len() implies h.nodes[i] == g.with_state(
        n,
        State::Valid,
    ).nodes[i] by {
        let x = i as usize;
        assert(h.node(x) == (NodeView {
            state: if g.calms(n, x) {
                State::Valid
            } else {
                g.node(x).state
            },
            ..g.node(x)
        }));
    }
    assert(h.nodes =~= g.with_state(n, State::Valid).nodes);
}

/// What becomes valid with a node stands below the node, or is the node
/// itself, and was not valid.
pub proof fn lemma_calms_older(g: GraphView, n: usize, x: usize)
    requires
        g.calms(n, x),
    ensures
        x == n || g.under(x, n),
        g.has(x),
        !g.valid(x),
    decreases g.node(n).rank,
{
    if x != n {
        let deps = g.node(n).dependencies;
        let i = choose|i: int|
            0 <= i < deps.len() && {
                let u = (#[trigger] deps[i]).0;
                g.under(u, n) && g.calms(u, x)
            };
        lemma_calms_older(g, deps[i].0, x);
    }
}

/// What becomes valid with a node that becomes valid with `n` becomes valid
/// with `n`.
pub proof fn lemma_calms_trans(g: GraphView, n: usize, y: usize, x: usize)
    requires
        g.calms(n, y),
        g.calms(y, x),
    ensures
        g.calms(n, x),
    decreases g.node(n).rank,
{
    if y != n {
        let deps = g.node(n).dependencies;
        let i = choose|i: int|
            0 <= i < deps.len() && {
                let u = (#[trigger] deps[i]).0;
                g.under(u, n) && g.calms(u, y)
            };
        lemma_calms_trans(g, deps[i].0, y, x);
        assert(g.under(deps[i].0, n) && g.calms(deps[i].0, x));
    }
}

/// In a quiet node's reach everything is alive.
pub proof fn lemma_calms_alive(g: GraphView, n: usize, x: usize)
    requires
        g.quiet(n),
        g.calms(n, x),
    ensures
        g.quiet(x),
        g.node(x).alive,
    decreases g.node(n).rank,
{
    if x != n {
        let deps = g.node(n).dependencies;
        let i = choose|i: int|
            0 <= i < deps.len() && {
                let u = (#[trigger] deps[i]).0;
                g.under(u, n) && g.calms(u, x)
            };
        assert(!g.node(n).is_source());
        assert(g.quiet(deps[i].0));
        lemma_calms_alive(g, deps[i].0, x);
    }
}

/// Taking living nodes as valid leaves quiet what was quiet.
pub proof fn lemma_quiet_kept(g: GraphView, h: GraphView, pick: spec_fn(usize) -> bool, n: usize)
    requires
        g.validated(h, pick),
        forall|x: usize| g.has(x) && #[trigger] pick(x) ==> g.node(x).alive,
        g.quiet(n),
    ensures
        h.quiet(n),
    decreases g.node(n).rank,
{
    let a = h.node(n);
    if !h.valid(n) && !h.node(n).is_source() {
        assert(!pick(n));
        let deps = g.node(n).dependencies;
        assert(h.node(n).dependencies == deps);
        assert forall|i: int| 0 <= i < deps.len() implies {
            let e = #[trigger] deps[i];
            h.under(e.0, n) && h.quiet(e.0) && h.node(e.0).version == e.1
        } by {
            let u = deps[i].0;
            assert(g.under(u, n) && g.quiet(u) && g.node(u).version == deps[i].1);
            lemma_quiet_kept(g, h, pick, u);
            let b = h.node(u);
        }
    }
}

/// Where the cones of the nodes read so far have been taken as valid, the
/// cone of the next one holds, among the nodes that are not valid yet, what
/// it held at the start.
pub proof fn lemma_calms_kept(g: GraphView, h: GraphView, n: usize, upto: int, u: usize, x: usize)
    requires
        g.validated(h, |y: usize| g.calms_before(n, upto, y)),
        g.has(x),
        !g.valid(x),
        !g.calms_before(n, upto, x),
    ensures
        h.calms(u, x) == g.calms(u, x),
    decreases g.node(u).rank,
{
    let pick = |y: usize| g.calms_before(n, upto, y);
    if g.has(u) {
        let a = h.node(u);
        let deps = g.node(u).dependencies;
        assert(h.node(u).dependencies == deps);
        if h.calms(u, x) {
            assert(!g.valid(u)) by {
                if g.valid(u) {
                    assert(h.node(u).state == State::Valid);
                }
            }
            if x != u {
                let i = choose|i: int|
                    0 <= i < deps.len() && {
                        let w = (#[trigger] deps[i]).0;
                        h.under(w, u) && h.calms(w, x)
                    };
                lemma_calms_kept(g, h, n, upto, deps[i].0, x);
                assert(g.under(deps[i].0, u) && g.calms(deps[i].0, x));
            }
        }
        if g.calms(u, x) {
            // `u` has not been taken as valid: or `x` would have been, too
            if pick(u) {
                let k = choose|k: int|
                    0 <= k < upto && k < g.node(n).dependencies.len() && g.calms(
                        (#[trigger] g.node(n).dependencies[k]).0,
                        u,
                    );
                lemma_calms_trans(g, g.node(n).dependencies[k].0, u, x);
                assert(g.calms_before(n, upto, x));
            }
            assert(h.node(u).state == g.node(u).state);
            if x != u {
                let i = choose|i: int|
                    0 <= i < deps.len() && {
                        let w = (#[trigger] deps[i]).0;
                        g.under(w, u) && g.calms(w, x)
                    };
                lemma_calms_kept(g, h, n, upto, deps[i].0, x);
                assert(h.under(deps[i].0, u) && h.calms(deps[i].0, x));
            }
        }
    }
}

/// One more of the nodes that `n` has read has been brought up to date.
pub proof fn lemma_calmed_step(g: GraphView, h: GraphView, next: GraphView, n: usize, upto: int)
    requires
        g.has(n),
        0 <= upto < g.node(n).dependencies.len(),
        g.validated(h, |y: usize| g.calms_before(n, upto, y)),
        h.calmed(next, g.node(n).dependencies[upto].0),
    ensures
        g.validated(next, |y: usize| g.calms_before(n, upto + 1, y)),
{
    let u = g.node(n).dependencies[upto].0;
    assert forall|x: usize| #![trigger next.node(x)] g.has(x) implies next.node(x) == (NodeView {
        state: if g.calms_before(n, upto + 1, x) {
            State::Valid
        } else {
            g.node(x).state
        },
        ..g.node(x)
    }) by {
        let a = h.node(x);
        assert(g.calms_before(n, upto, x) ==> g.calms_before(n, upto + 1, x)) by {
            if g.calms_before(n, upto, x) {
                let k = choose|k: int|
                    0 <= k < upto && k < g.node(n).dependencies.len() && g.calms(
                        (#[trigger] g.node(n).dependencies[k]).0,
                        x,
                    );
                assert(0 <= k < upto + 1);
            }
        }
        assert(g.calms_before(n, upto + 1, x) ==> g.calms_before(n, upto, x) || g.calms(u, x)) by {
            if g.calms_before(n, upto + 1, x) {
                let k = choose|k: int|
                    0 <= k < upto + 1 && k < g.node(n).dependencies.len() && g.calms(
                        (#[trigger] g.node(n).dependencies[k]).0,
                        x,
                    );
                if k < upto {
                    assert(g.calms_before(n, upto, x));
                }
            }
        }
        if g.calms(u, x) {
            assert(g.calms_before(n, upto + 1, x)) by {
                assert(g.calms(g.node(n).dependencies[upto].0, x));
            }
        }
        if g.valid(x) {
            if g.calms_before(n, upto + 1, x) {
                if g.calms(u, x) {
                    lemma_calms_older(g, u, x);
                } else {
                    let k = choose|k: int|
                        0 <= k < upto && k < g.node(n).dependencies.len() && g.calms(
                            (#[trigger] g.node(n).dependencies[k]).0,
                            x,
                        );
                    lemma_calms_older(g, g.node(n).dependencies[k].0, x);
                }
            }
            if h.calms(u, x) {
                lemma_calms_older(h, u, x);
            }
        } else if !g.calms_before(n, upto, x) {
            lemma_calms_kept(g, h, n, upto, u, x);
        }
    }
}


/// A node that is not valid and has nothing below it that could become
/// valid with it, becomes valid alone.
pub proof fn lemma_calmed_alone(g: GraphView, h: GraphView, n: usize)
    requires
        g.has(n),
        !g.valid(n),
        g.node(n).is_source(),
        h == g.with_state(n, State::Valid),
    ensures
        g.calmed(h, n),
{
    assert forall|x: usize| #![trigger h.node(x)] g.has(x) implies h.node(x) == (NodeView {
        state: if g.calms(n, x) {
            State::Valid
        } else {
            g.node(x).state
        },
        ..g.node(x)
    }) by {}
}

/// Once everything that a quiet node has read has been brought up to date,
/// the node is settled.
pub proof fn lemma_calmed_ready(g: GraphView, h: GraphView, n: usize)
    requires
        g.wf(),
        g.quiet(n),
        g.node(n).state == State::Invalid(Invalid::Maybe),
        !g.node(n).is_source(),
        g.validated(h, |y: usize| g.calms_before(n, g.node(n).dependencies.len() as int, y)),
    ensures
        h.settled(n),
        h.node(n).state == State::Invalid(Invalid::Maybe),
{
    let deps = g.node(n).dependencies;
    let total = deps.len() as int;
    assert(!g.calms_before(n, total, n)) by {
        if g.calms_before(n, total, n) {
            let k = choose|k: int|
                0 <= k < total && k < deps.len() && g.calms((#[trigger] deps[k]).0, n);
            lemma_calms_older(g, deps[k].0, n);
            assert(g.under(deps[k].0, n));
        }
    }
    let a = h.node(n);
    assert(h.node(n).dependencies == deps);
    assert forall|i: int| 0 <= i < deps.len() implies {
        let e = #[trigger] deps[i];
        h.has(e.0) && h.valid(e.0) && h.node(e.0).version == e.1
    } by {
        let u = deps[i].0;
        assert(g.under(u, n) && g.quiet(u) && g.node(u).version == deps[i].1);
        let b = h.node(u);
        if !g.valid(u) {
            assert(g.calms(u, u));
            assert(g.calms_before(n, total, u));
        }
    }
}

/// Taking the node as valid after everything it has read has been brought
/// up to date completes what [`GraphView::calmed`] describes.
pub proof fn lemma_calmed_done(g: GraphView, h: GraphView, next: GraphView, n: usize)
    requires
        g.wf(),
        g.has(n),
        g.node(n).state == State::Invalid(Invalid::Maybe),
        !g.node(n).is_source(),
        g.validated(h, |y: usize| g.calms_before(n, g.node(n).dependencies.len() as int, y)),
        next == h.with_state(n, State::Valid),
    ensures
        g.calmed(next, n),
{
    let deps = g.node(n).dependencies;
    let total = deps.len() as int;
    assert forall|x: usize| #![trigger next.node(x)] g.has(x) implies next.node(x) == (NodeView {
        state: if g.calms(n, x) {
            State::Valid
        } else {
            g.node(x).state
        },
        ..g.node(x)
    }) by {
        let a = h.node(x);
        if g.calms_before(n, total, x) {
            let k = choose|k: int|
                0 <= k < total && k < deps.len() && g.calms((#[trigger] deps[k]).0, x);
            assert(g.uses(n, deps[k].0));
            assert(g.under(deps[k].0, n) && g.calms(deps[k].0, x));
            assert(g.calms(n, x));
        }
        if g.calms(n, x) && x != n {
            let i = choose|i: int|
                0 <= i < deps.len() && {
                    let u = (#[trigger] deps[i]).0;
                    g.under(u, n) && g.calms(u, x)
                };
            assert(g.calms(deps[i].0, x));
            assert(g.calms_before(n, total, x));
        }
    }
}

} // verus!
