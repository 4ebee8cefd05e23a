//! Reading a node: bringing it up to date first, by comparing versions where
//! that is enough and by running its function where it is not.

use vstd::prelude::*;
use crate::dependencies::{recorded, Dependencies};
use crate::evaluation::Evaluation;
use crate::graph::Graph;
use crate::model::{lemma_keeps_kinds_chain, GraphView, NodeView};
use crate::runs::{checked,read_at_rest, read_by,judged,
    compared, compares, evaluates, failure, hears, lemma_compared_ended, lemma_notified_step,
    brought, notified, observed, observed_flags, passes, ran, recomputed, told, unobserved,
    updated, Binds,
};
use crate::quiet::{
    lemma_calmed_alone, lemma_calmed_done, lemma_calmed_ready, lemma_calmed_settled,
    lemma_calmed_step, lemma_calms_alive, lemma_quiet_kept, lemma_settled_is_quiet,
};
use crate::state::{Error, Invalid, Kind, State, Version};

verus! {

/// The functions of the derived nodes of a graph. The graph calls `eval`
/// when a node has to be recomputed; which node that is, is the parent of
/// the context it hands over.
pub trait Evaluator {
    /// Recomputes the node `cx.parent()`: reads what it needs through
    /// [`Graph::get`], which records each read in `cx`, and returns the hash
    /// of the new value, or `None` to keep the value the node already
    /// publishes. It must leave the graph well formed, with every node it
    /// found still there and the batch as it was.
    fn eval(&mut self, graph: &mut Graph, cx: &mut Evaluation) -> (hash: Option<Version>)
        requires
            old(graph).wf(),
            old(cx).wf(),
            old(graph)@.derived(old(cx).parent_id()),
        ensures
            final(graph).wf(),
            final(cx).wf(),
            final(cx).parent_id() == old(cx).parent_id(),
            old(graph)@.evolves(final(graph)@),
    ;

    /// Called when `node`, which no armed reaction observed, is observed
    /// now.
    fn on_become_observed(&mut self, node: usize) {
    }

    /// Called when `node`, which an armed reaction observed, is observed by
    /// none any more.
    fn on_become_unobserved(&mut self, node: usize) {
    }

    /// Whether the reaction `node` wants to be told that it has to run,
    /// through [`Evaluator::on_reaction`], in place of being run when the
    /// queue is drained. Unless an evaluator says otherwise, no reaction
    /// does.
    fn is_scheduled(&self, node: usize) -> (scheduled: bool)
        default_ensures
            !scheduled,
    {
        false
    }

    /// Called for a reaction that is scheduled, when the queue is drained
    /// and the reaction is in it.
    fn on_reaction(&mut self, node: usize) {
    }
}

/// Tells `ev` of every node whose being observed differs from what `before`
/// holds of it, node by node in the order of creation: through
/// [`Evaluator::on_become_observed`] if the node is observed now and was not
/// before, through [`Evaluator::on_become_unobserved`] if it was and is not
/// now. A node that `before` does not cover counts as not observed before.
pub(crate) fn notify<E: Evaluator>(graph: &Graph, before: &Vec<bool>, ev: &mut E)
    ensures
        notified(
            (Binds {
                ev: |r: &mut E, a: E, b: E| *r == a && *final(r) == b,
                graph: |r: &mut Graph, a: GraphView, b: GraphView| r@ == a && final(r)@ == b,
                cx: |r: &mut Evaluation, n: usize, a: Seq<(usize, Version)>, b: Seq<(usize, Version)>|
                    r.parent_id() == n && r@ == a && final(r)@ == b,
            }),
            graph@,
            before@,
            graph@.nodes.len() as int,
            *old(ev),
            *final(ev),
        ),
{
    let ghost b = (Binds {
        ev: |r: &mut E, a: E, b: E| *r == a && *final(r) == b,
        graph: |r: &mut Graph, a: GraphView, b: GraphView| r@ == a && final(r)@ == b,
        cx: |r: &mut Evaluation, n: usize, a: Seq<(usize, Version)>, b: Seq<(usize, Version)>|
            r.parent_id() == n && r@ == a && final(r)@ == b,
    });
    let total = graph.len();
    let mut x: usize = 0;
    while x < total
        invariant
            total == graph@.nodes.len(),
            x <= total,
            forall|r: &mut E, from: E, to: E| #[trigger]
                (b.ev)(r, from, to) == (*r == from && *final(r) == to),
            notified(b, graph@, before@, x as int, *old(ev), *ev),
        decreases total - x,
    {
        let ghost mid = *ev;
        let was = x < before.len() && before[x];
        let now = graph.is_observed(x);
        if now && !was {
            ev.on_become_observed(x);
            assert(observed(b, x, mid, *ev));
        } else if was && !now {
            ev.on_become_unobserved(x);
            assert(unobserved(b, x, mid, *ev));
        }
        assert(hears(b, graph@, before@, x, mid, *ev));
        proof {
            lemma_notified_step(b, graph@, before@, x, *old(ev), mid, *ev);
        }
        x += 1;
    }
}

/// The evaluator of a graph without derived nodes: asked to recompute a
/// node, it keeps the value the node publishes and reads nothing.
pub struct Inert;

impl Evaluator for Inert {
    fn eval(&mut self, graph: &mut Graph, cx: &mut Evaluation) -> (hash: Option<Version>)
        ensures
            hash.is_none(),
            final(graph)@ == old(graph)@,
            final(cx)@ == old(cx)@,
    {
        None
    }
}

/// What it took to bring a node up to date.
#[derive(Clone, Copy, PartialEq, Eq, Debug, Structural)]
pub enum Update {
    /// The node was valid.
    Unchanged,
    /// The node was taken as valid without running its function: it is a
    /// source, or everything it had read still had the version it had seen.
    Revalidated,
    /// The function of the node was run.
    Recomputed,
}

/// Taking a valid node as valid changes nothing.
pub proof fn lemma_with_state_same(g: GraphView, n: usize)
    requires
        g.has(n),
    ensures
        g.with_state(n, g.node(n).state) == g,
{
    assert(g.with_state(n, g.node(n).state).nodes =~= g.nodes);
}

/// Noting that the function of a node is being run, or that it has
/// returned, leaves the invariant of the graph alone.
pub proof fn lemma_busy_wf(g: GraphView, n: usize, busy: bool)
    requires
        g.wf(),
        g.has(n),
    ensures
        g.with_busy(n, busy).wf(),
{
    let h = g.with_busy(n, busy);
    assert(g.same_links(h)) by {
        assert forall|x: usize| #![trigger h.node(x)] g.has(x) implies h.node(x).kind == g.node(
            x,
        ).kind && h.node(x).dependencies == g.node(x).dependencies && h.node(x).dependents
            == g.node(x).dependents && h.node(x).rank == g.node(x).rank by {}
    }
    assert forall|x: usize| #![trigger h.node(x)] g.has(x) implies h.node(x) == (NodeView {
        busy: h.node(x).busy,
        ..g.node(x)
    }) by {}
    crate::shape::lemma_shape_kept(g, h);
    assert forall|d: usize, u: usize|
        g.has(d) && h.valid(d) && #[trigger] g.uses(d, u) implies h.valid(u) && h.node(u).version
        == g.node(u).version by {
        assert(g.valid(d));
        crate::shape::lemma_read_is_fresh(g, d, u);
        assert(h.node(u).state == g.node(u).state);
    }
    assert forall|x: usize| g.has(x) && #[trigger] h.valid(x) implies g.valid(x) by {
        assert(h.node(x).state == g.node(x).state);
    }
    crate::shape::lemma_current_kept(g, h);
    crate::shape::lemma_counts_kept(g, h);
}

impl Graph {
    /// Whether everything node `n` has read is unchanged. Each node that `n`
    /// had read at the start is brought up to date, in the order in which it
    /// was read, as [`Graph::update`] does it, and the version it publishes
    /// then is compared with the one that was seen. The first that fails or
    /// differs ends the comparison: the nodes read after it are left as
    /// they are. So does a node that does not stand below the rank `n` had
    /// at the start, which it can only after a function that ran meanwhile
    /// has made new reads: the comparison fails there.
    pub fn are_valid<E: Evaluator>(&mut self, n: usize, ev: &mut E) -> (same: bool)
        requires
            old(self).wf(),
            old(self)@.has(n),
        ensures
            final(self).wf(),
            old(self)@.evolves(final(self)@),
            compared(
                (Binds {
                                ev: |r: &mut E, a: E, b: E| *r == a && *final(r) == b,
                                graph: |r: &mut Graph, a: GraphView, b: GraphView| r@ == a && final(r)@ == b,
                                cx: |r: &mut Evaluation, n: usize, a: Seq<(usize, Version)>, b: Seq<(usize, Version)>|
                                    r.parent_id() == n && r@ == a && final(r)@ == b,
                            }),
                old(self)@,
                *old(ev),
                n,
                old(self)@.node(n).rank,
                old(self)@.node(n).dependencies.len() as int,
                final(self)@,
                *final(ev),
                same,
            ),
            old(self)@.quiet(n) && old(self)@.node(n).state == State::Invalid(Invalid::Maybe)
                && !old(self)@.node(n).is_source() ==> same && *final(ev) == *old(ev) && old(self)@.validated(
                final(self)@,
                |y: usize|
                    old(self)@.calms_before(n, old(self)@.node(n).dependencies.len() as int, y),
            ),
        decreases old(self)@.node(n).rank, 0int, 0int,
    {
        let ghost b = (Binds {
            ev: |r: &mut E, a: E, b: E| *r == a && *final(r) == b,
            graph: |r: &mut Graph, a: GraphView, b: GraphView| r@ == a && final(r)@ == b,
            cx: |r: &mut Evaluation, n: usize, a: Seq<(usize, Version)>, b: Seq<(usize, Version)>|
                r.parent_id() == n && r@ == a && final(r)@ == b,
        });
        let ghost g = self@;
        let ghost e = *ev;
        let ghost calm = g.quiet(n) && g.node(n).state == State::Invalid(Invalid::Maybe)
            && !g.node(n).is_source();
        let count = self.dependencies(n).len();
        let limit = self.rank(n);
        let mut same = true;
        let mut i: usize = 0;
        proof {
            assert(g.validated(g, |y: usize| g.calms_before(n, 0, y)));
        }
        while same && i < count
            invariant
                g == old(self)@,
                e == *old(ev),
                g.wf(),
                g.has(n),
                self.wf(),
                self@.has(n),
                g.evolves(self@),
                i <= count,
                count == g.node(n).dependencies.len(),
                b == (Binds {
                    ev: |r: &mut E, a: E, b: E| *r == a && *final(r) == b,
                    graph: |r: &mut Graph, a: GraphView, b: GraphView| r@ == a && final(r)@ == b,
                    cx: |r: &mut Evaluation, n: usize, a: Seq<(usize, Version)>, b: Seq<(usize, Version)>|
                        r.parent_id() == n && r@ == a && final(r)@ == b,
                }),
                compared(b, g, e, n, g.node(n).rank, i as int, self@, *ev, same),
                limit == g.node(n).rank,
                calm ==> g.quiet(n),
                calm ==> *ev == *old(ev) && same && g.node(n).state == State::Invalid(
                    Invalid::Maybe,
                ) && !g.node(n).is_source() && g.validated(
                    self@,
                    |y: usize| g.calms_before(n, i as int, y),
                ),
            decreases count - i,
        {
            let ghost h = self@;
            let ghost at = *ev;
            proof {
                if calm {
                    assert(h.node(n).dependencies == g.node(n).dependencies);
                }
                assert(passes(h, at, true));
            }
            if i >= self.dependencies(n).len() {
                same = false;
                assert(compares(b, h, at, true, n, g.node(n).rank, i as int, self@, *ev, same));
            } else if !self.has(self.dependencies(n).entry(i).0) || self.rank(
                self.dependencies(n).entry(i).0,
            ) >= limit {
                proof {
                    let u = h.node(n).dependencies[i as int].0;
                    if calm {
                        let read = g.node(n).dependencies[i as int];
                        assert(g.under(read.0, n) && g.quiet(read.0));
                        let pick = |y: usize| g.calms_before(n, i as int, y);
                        assert(h.node(u) == (NodeView {
                            state: if pick(u) {
                                State::Valid
                            } else {
                                g.node(u).state
                            },
                            ..g.node(u)
                        }));
                        assert(false);
                    }
                }
                same = false;
                assert(compares(b, h, at, true, n, g.node(n).rank, i as int, self@, *ev, same));
            } else {
                let (u, seen) = self.dependencies(n).entry(i);
                proof {
                    assert(h.node(n).dependencies[i as int].0 == u);
                    assert(h.uses(n, u));
                    if calm {
                        let read = g.node(n).dependencies[i as int];
                        assert(g.quiet(u) && g.node(u).version == read.1);
                        let pick = |y: usize| g.calms_before(n, i as int, y);
                        assert forall|x: usize| g.has(x) && #[trigger] pick(x) implies g.node(
                            x,
                        ).alive by {
                            let k = choose|k: int|
                                0 <= k < i && k < g.node(n).dependencies.len() && g.calms(
                                    (#[trigger] g.node(n).dependencies[k]).0,
                                    x,
                                );
                            let w = g.node(n).dependencies[k];
                            assert(g.quiet(w.0));
                            lemma_calms_alive(g, w.0, x);
                        }
                        lemma_quiet_kept(g, h, pick, u);
                    }
                }
                let one = self.update(u, ev);
                match one {
                    Ok(_) => {
                        if self.hash(u) != seen.value() {
                            same = false;
                        }
                    },
                    Err(_) => {
                        same = false;
                    },
                }
                proof {
                    if calm {
                        lemma_calmed_step(g, h, self@, n, i as int);
                        assert(self@.node(u).version == g.node(u).version);
                    }
                    assert(passes(self@, *ev, one));
                    assert(updated(b, h, at, u, self@, *ev, one));
                    assert(same == (one.is_ok() && self@.node(u).version == seen));
                    assert(compares(b, h, at, true, n, g.node(n).rank, i as int, self@, *ev, same));
                }
            }
            proof {
                assert(compared(b, g, e, n, g.node(n).rank, i as int + 1 - 1, h, at, true));
                assert(compared(b, g, e, n, g.node(n).rank, i as int + 1, self@, *ev, same));
            }
            i += 1;
        }
        proof {
            if calm {
                lemma_calmed_ready(g, self@, n);
            }
            if !same {
                lemma_compared_ended(b, g, e, n, i as int, count as int, self@, *ev);
            }
            assert(compared(b, g, e, n, g.node(n).rank, count as int, self@, *ev, same));
            assert(passes(self@, *ev, same));
        }
        same
    }

    /// Whether node `n` must be recomputed before its value can be used. A
    /// valid node and a source need not be, and a definitely invalid node
    /// must be; for none of them anything is done. For a possibly invalid
    /// node what it has read is brought up to date and compared as
    /// [`Graph::are_valid`] does it: the node must be recomputed unless all
    /// of it is unchanged and valid then.
    pub fn should_evaluate<E: Evaluator>(&mut self, n: usize, ev: &mut E) -> (stale: bool)
        requires
            old(self).wf(),
            old(self)@.has(n),
            old(self)@.node(n).alive,
        ensures
            final(self).wf(),
            old(self)@.evolves(final(self)@),
            judged(
                (Binds {
                                ev: |r: &mut E, a: E, b: E| *r == a && *final(r) == b,
                                graph: |r: &mut Graph, a: GraphView, b: GraphView| r@ == a && final(r)@ == b,
                                cx: |r: &mut Evaluation, n: usize, a: Seq<(usize, Version)>, b: Seq<(usize, Version)>|
                                    r.parent_id() == n && r@ == a && final(r)@ == b,
                            }),
                old(self)@,
                *old(ev),
                n,
                final(self)@,
                *final(ev),
                stale,
            ),
            old(self)@.quiet(n) && old(self)@.node(n).state == State::Invalid(Invalid::Maybe)
                && !old(self)@.node(n).is_source() ==> !stale && *final(ev) == *old(ev) && old(self)@.validated(
                final(self)@,
                |y: usize|
                    old(self)@.calms_before(n, old(self)@.node(n).dependencies.len() as int, y),
            ),
        decreases old(self)@.node(n).rank, 0int, 1int,
    {
        let ghost g = self@;
        if self.is_valid(n) {
            return false;
        }
        match self.kind(n) {
            Kind::Var => {
                return false;
            },
            Kind::Const => {
                return false;
            },
            _ => {},
        }
        match self.state(n) {
            State::Invalid(Invalid::Maybe) => {},
            _ => {
                return true;
            },
        }
        let same = self.are_valid(n, ev);
        proof {
            assert(passes(self@, *ev, same));
            if g.quiet(n) {
                lemma_calmed_ready(g, self@, n);
            }
        }
        !(same && self.is_settled(n))
    }


    /// Brings node `n` up to date. A valid node is left alone. A source
    /// becomes valid. A possibly invalid node first brings up to date what it
    /// has read, in the order in which it read it, and stops at the first
    /// node that no longer has the version that was seen; if there is none,
    /// the node is valid again and its function is not run. Otherwise the
    /// function is run in a fresh context and its result is installed.
    ///
    /// When the node is quiet, nothing is run at all: the evaluator is
    /// returned untouched, and the graph differs only in that the node and
    /// the possibly invalid nodes below it have become valid. When the node
    /// is definitely invalid, nothing is compared: the evaluator is handed
    /// the graph as it is and a context of the node in which nothing has
    /// been read, and what it leaves is installed or refused as
    /// [`Graph::commit`] would.
    pub fn update<E: Evaluator>(&mut self, n: usize, ev: &mut E) -> (done: Result<Update, Error>)
        requires
            old(self).wf(),
        ensures
            final(self).wf(),
            old(self)@.evolves(final(self)@),
            done.is_ok() ==> final(self)@.has(n) && final(self)@.valid(n),
            !old(self)@.has(n) || !old(self)@.node(n).alive ==> done == Err::<Update, Error>(
                Error::Missing,
            ) && final(self)@ == old(self)@ && *final(ev) == *old(ev),
            old(self)@.quiet(n) ==> {
                &&& done == Ok::<Update, Error>(
                    if old(self)@.valid(n) {
                        Update::Unchanged
                    } else {
                        Update::Revalidated
                    },
                )
                &&& old(self)@.calmed(final(self)@, n)
                &&& *final(ev) == *old(ev)
            },
            old(self)@.settled(n) ==> final(self)@ == old(self)@.with_state(n, State::Valid),
            old(self)@.has(n) && !old(self)@.valid(n) ==> done != Ok::<Update, Error>(
                Update::Unchanged,
            ),
            old(self)@.derived(n) && old(self)@.node(n).state == State::Invalid(
                Invalid::Definitely,
            ) ==> done == Ok::<Update, Error>(Update::Recomputed) || done.is_err(),
            updated(
                (Binds {
                    ev: |r: &mut E, a: E, b: E| *r == a && *final(r) == b,
                    graph: |r: &mut Graph, a: GraphView, b: GraphView| r@ == a && final(r)@ == b,
                    cx: |r: &mut Evaluation, n: usize, a: Seq<(usize, Version)>, b: Seq<(usize, Version)>|
                        r.parent_id() == n && r@ == a && final(r)@ == b,
                }),
                old(self)@,
                *old(ev),
                n,
                final(self)@,
                *final(ev),
                done,
            ),
        decreases old(self)@.node(n).rank, 1int, 0int,
    {
        let ghost b = (Binds {
            ev: |r: &mut E, a: E, b: E| *r == a && *final(r) == b,
            graph: |r: &mut Graph, a: GraphView, b: GraphView| r@ == a && final(r)@ == b,
            cx: |r: &mut Evaluation, n: usize, a: Seq<(usize, Version)>, b: Seq<(usize, Version)>|
                r.parent_id() == n && r@ == a && final(r)@ == b,
        });
        let ghost g = self@;
        let ghost e = *ev;
        proof {
            if g.settled(n) {
                lemma_settled_is_quiet(g, n);
            }
        }
        if !self.has(n) || !self.is_alive(n) {
            return Err(Error::Missing);
        }
        if self.is_valid(n) {
            proof {
                lemma_with_state_same(g, n);
                assert(g.calmed(g, n));
            }
            return Ok(Update::Unchanged);
        }
        match self.kind(n) {
            Kind::Var => {
                self.revalidate(n);
                proof {
                    lemma_calmed_alone(g, self@, n);
                }
                return Ok(Update::Revalidated);
            },
            Kind::Const => {
                self.revalidate(n);
                proof {
                    lemma_calmed_alone(g, self@, n);
                }
                return Ok(Update::Revalidated);
            },
            _ => {},
        }
        if self.is_busy(n) {
            return Err(Error::Order);
        }
        let ghost maybe = g.node(n).state == State::Invalid(Invalid::Maybe);
        let stale = self.should_evaluate(n, ev);
        let ghost mid = self@;
        let ghost at = *ev;
        proof {
            if maybe {
                let same = choose|same: bool|
                    #![trigger passes(mid, at, same)]
                    passes(mid, at, same) && compared(
                        b,
                        g,
                        e,
                        n,
                        g.node(n).rank,
                        g.node(n).dependencies.len() as int,
                        mid,
                        at,
                        same,
                    ) && stale == !(same && mid.settled(n));
                assert(passes(mid, at, same));
            }
        }
        if !stale {
            let settled = self.revalidate(n);
            proof {
                assert(settled);
                lemma_keeps_kinds_chain(g, mid, self@);
                if g.quiet(n) {
                    lemma_calmed_done(g, mid, self@, n);
                }
                if g.settled(n) {
                    lemma_calmed_settled(g, self@, n);
                }
            }
            return Ok(Update::Revalidated);
        }
        match self.update_unchecked(n, ev) {
            Ok(_) => Ok(Update::Recomputed),
            Err(error) => Err(error),
        }
    }

    /// Installs the result of an evaluation, as [`Graph::commit`] does, and
    /// tells `ev` of every node that has become observed or has ceased to be
    /// observed by it. That can only be if the node that was evaluated is an
    /// armed reaction or is observed by one.
    pub fn commit_and_notify<E: Evaluator>(
        &mut self,
        eval: Evaluation,
        hash: Option<Version>,
        ev: &mut E,
    ) -> (done: Result<bool, Error>)
        requires
            old(self).wf(),
            eval.wf(),
        ensures
            final(self).wf(),
            match done {
                Ok(changed) => {
                    let version = match hash {
                        Some(v) => v,
                        None => old(self)@.node(eval.parent_id()).version,
                    };
                    &&& old(self)@.refusal(eval.parent_id(), eval@, hash).is_none()
                    &&& changed == (version != old(self)@.node(eval.parent_id()).version)
                    &&& old(self)@.commits(final(self)@, eval.parent_id(), eval@, version)
                    &&& told(
                        (Binds {
                            ev: |r: &mut E, a: E, b: E| *r == a && *final(r) == b,
                            graph: |r: &mut Graph, a: GraphView, b: GraphView| r@ == a && final(r)@ == b,
                            cx: |r: &mut Evaluation, n: usize, a: Seq<(usize, Version)>, b: Seq<(usize, Version)>|
                                r.parent_id() == n && r@ == a && final(r)@ == b,
                        }),
                        old(self)@,
                        final(self)@,
                        eval.parent_id(),
                        *old(ev),
                        *final(ev),
                    )
                },
                Err(e) => old(self)@.refusal(eval.parent_id(), eval@, hash) == Some(e) && final(self)@
                    == old(self)@ && *final(ev) == *old(ev),
            },
    {
        let n = eval.parent();
        let watched = self.has(n) && (self.is_armed(n) || self.is_observed(n));
        if watched {
            let before = self.observed();
            proof {
                assert(before@ =~= observed_flags(self@)) by {
                    assert forall|i: int| 0 <= i < before@.len() implies before@[i]
                        == observed_flags(self@)[i] by {
                        let x = i as usize;
                        assert(self@.has(x));
                        assert(before@[x as int] == (self@.node(x).observers > 0));
                    }
                }
            }
            let done = self.commit(eval, hash);
            if done.is_ok() {
                notify(self, &before, ev);
            }
            done
        } else {
            self.commit(eval, hash)
        }
    }

    /// Releases node `n`, as [`Graph::release`] does, and tells `ev` of every
    /// node that has ceased to be observed by it.
    pub fn release_and_notify<E: Evaluator>(&mut self, n: usize, ev: &mut E) -> (done: Result<
        (),
        Error,
    >)
        requires
            old(self).wf(),
        ensures
            final(self).wf(),
            match done {
                Ok(_) => {
                    &&& old(self)@.release_refusal(n).is_none()
                    &&& old(self)@.releases(final(self)@, n)
                    &&& notified(
                        (Binds {
                            ev: |r: &mut E, a: E, b: E| *r == a && *final(r) == b,
                            graph: |r: &mut Graph, a: GraphView, b: GraphView| r@ == a && final(r)@ == b,
                            cx: |r: &mut Evaluation, n: usize, a: Seq<(usize, Version)>, b: Seq<(usize, Version)>|
                                r.parent_id() == n && r@ == a && final(r)@ == b,
                        }),
                        final(self)@,
                        observed_flags(old(self)@),
                        final(self)@.nodes.len() as int,
                        *old(ev),
                        *final(ev),
                    )
                },
                Err(e) => old(self)@.release_refusal(n) == Some(e) && final(self)@ == old(self)@
                    && *final(ev) == *old(ev),
            },
    {
        let before = self.observed();
        proof {
            assert(before@ =~= observed_flags(self@)) by {
                assert forall|i: int| 0 <= i < before@.len() implies before@[i]
                    == observed_flags(self@)[i] by {
                    let x = i as usize;
                    assert(self@.has(x));
                    assert(before@[x as int] == (self@.node(x).observers > 0));
                }
            }
        }
        let done = self.release(n);
        if done.is_ok() {
            notify(self, &before, ev);
        }
        done
    }

    /// Reads node `n` during the evaluation that `cx` belongs to: brings the
    /// node up to date, registers the node that is being evaluated as one
    /// that reads `n`, records in `cx` that it was read at the version it
    /// now publishes, tells `ev` of every node that has become observed by
    /// that, and returns the version. A node does not read itself, nor a
    /// node that has read it: such a read is refused.
    pub fn get<E: Evaluator>(&mut self, n: usize, cx: &mut Evaluation, ev: &mut E) -> (seen: Result<
        Version,
        Error,
    >)
        requires
            old(self).wf(),
            old(cx).wf(),
        ensures
            final(self).wf(),
            final(cx).wf(),
            final(cx).parent_id() == old(cx).parent_id(),
            old(self)@.evolves(final(self)@),
            n == old(cx).parent_id() ==> seen == Err::<Version, Error>(Error::Order)
                && final(self)@ == old(self)@ && *final(ev) == *old(ev),
            n != old(cx).parent_id() && (!old(self)@.has(n) || !old(self)@.node(n).alive) ==> seen
                == Err::<Version, Error>(Error::Missing) && final(self)@ == old(self)@ && *final(ev)
                == *old(ev),
            match seen {
                Ok(version) => {
                    &&& final(self)@.has(n)
                    &&& final(self)@.valid(n)
                    &&& version == final(self)@.node(n).version
                    &&& final(cx)@ == recorded(old(cx)@, n, version)
                },
                Err(_) => final(cx)@ == old(cx)@,
            },
            n != old(cx).parent_id() && old(self)@.quiet(n) ==> read_at_rest(
                (Binds {
                                ev: |r: &mut E, a: E, b: E| *r == a && *final(r) == b,
                                graph: |r: &mut Graph, a: GraphView, b: GraphView| r@ == a && final(r)@ == b,
                                cx: |r: &mut Evaluation, n: usize, a: Seq<(usize, Version)>, b: Seq<(usize, Version)>|
                                    r.parent_id() == n && r@ == a && final(r)@ == b,
                            }),
                old(self)@,
                *old(ev),
                n,
                old(cx).parent_id(),
                final(self)@,
                *final(ev),
                seen,
            ),
            n != old(cx).parent_id() ==> read_by(
                (Binds {
                                ev: |r: &mut E, a: E, b: E| *r == a && *final(r) == b,
                                graph: |r: &mut Graph, a: GraphView, b: GraphView| r@ == a && final(r)@ == b,
                                cx: |r: &mut Evaluation, n: usize, a: Seq<(usize, Version)>, b: Seq<(usize, Version)>|
                                    r.parent_id() == n && r@ == a && final(r)@ == b,
                            }),
                old(self)@,
                *old(ev),
                n,
                old(cx).parent_id(),
                final(self)@,
                *final(ev),
                seen,
            ),
    {
        if n == cx.parent() {
            return Err(Error::Order);
        }
        let ghost g = self@;
        let ghost e = *ev;
        let one = self.update(n, ev);
        let ghost mid = self@;
        let ghost at = *ev;
        match one {
            Ok(_) => {
                let version = self.version(n);
                let reader = cx.parent();
                let watched = self.has(reader) && (self.is_armed(reader) || self.is_observed(
                    reader,
                ));
                let before = self.observed();
                proof {
                    assert(before@ =~= observed_flags(self@)) by {
                        assert forall|i: int| 0 <= i < before@.len() implies before@[i]
                            == observed_flags(self@)[i] by {
                            let x = i as usize;
                            assert(self@.has(x));
                            assert(before@[x as int] == (self@.node(x).observers > 0));
                        }
                    }
                }
                match self.register(reader, n) {
                    Ok(_) => {
                        if watched {
                            notify(self, &before, ev);
                        }
                        cx.based_on(n, version);
                        proof {
                            let seen = Ok::<Version, Error>(version);
                            assert(passes(mid, at, (seen, one)));
                            assert(mid.keeps_kinds(self@));
                            lemma_keeps_kinds_chain(g, mid, self@);
                            if g.quiet(n) {
                                assert(passes(mid, e, *ev));
                                assert(mid.node(n).version == g.node(n).version);
                            }
                        }
                        Ok(version)
                    },
                    Err(error) => {
                        proof {
                            assert(passes(mid, at, (Err::<Version, Error>(error), one)));
                            if g.quiet(n) {
                                assert(passes(mid, e, *ev));
                            }
                        }
                        Err(error)
                    },
                }
            },
            Err(error) => {
                proof {
                    assert(passes(mid, at, (Err::<Version, Error>(error), one)));
                }
                Err(error)
            },
        }
    }

    /// Reads node `n` during the evaluation that `cx` belongs to, without
    /// running anything: the node is taken as valid if it is settled, the
    /// node that is being evaluated is registered as one that reads `n`,
    /// and the read is recorded as [`Graph::get`] records it. A node that
    /// would have to be recomputed is not read.
    pub fn read(&mut self, n: usize, cx: &mut Evaluation) -> (seen: Result<Version, Error>)
        requires
            old(self).wf(),
            old(cx).wf(),
        ensures
            final(self).wf(),
            final(cx).wf(),
            final(cx).parent_id() == old(cx).parent_id(),
            old(self)@.read_refusal(n, old(cx).parent_id()) matches Some(e) ==> seen == Err::<
                Version,
                Error,
            >(e) && final(self)@ == old(self)@ && final(cx)@ == old(cx)@,
            old(self)@.read_refusal(n, old(cx).parent_id()).is_none() ==> match old(self)@.with_state(n, State::Valid).register_refusal(old(cx).parent_id(), n) {
                Some(e) => seen == Err::<Version, Error>(e) && final(self)@ == old(self)@.with_state(n, State::Valid) && final(cx)@ == old(cx)@,
                None => seen == Ok::<Version, Error>(old(self)@.node(n).version) && old(self)@.with_state(n, State::Valid).registers(final(self)@, old(cx).parent_id(), n)
                    && final(cx)@ == recorded(old(cx)@, n, old(self)@.node(n).version),
            },
    {
        if n == cx.parent() {
            return Err(Error::Order);
        }
        if !self.has(n) || !self.is_alive(n) {
            return Err(Error::Missing);
        }
        if !self.revalidate(n) {
            return Err(Error::Stale);
        }
        let version = self.version(n);
        match self.register(cx.parent(), n) {
            Ok(_) => {
                cx.based_on(n, version);
                Ok(version)
            },
            Err(error) => Err(error),
        }
    }

    /// Reads node `n` outside any evaluation: brings the node up to date and
    /// returns the version it now publishes. Nothing is recorded. As with
    /// [`Graph::update`], nothing is run if the node is quiet.
    pub fn get_once<E: Evaluator>(&mut self, n: usize, ev: &mut E) -> (seen: Result<Version, Error>)
        requires
            old(self).wf(),
        ensures
            final(self).wf(),
            old(self)@.evolves(final(self)@),
            !old(self)@.has(n) || !old(self)@.node(n).alive ==> seen == Err::<Version, Error>(
                Error::Missing,
            ) && final(self)@ == old(self)@ && *final(ev) == *old(ev),
            match seen {
                Ok(version) => {
                    &&& final(self)@.has(n)
                    &&& final(self)@.valid(n)
                    &&& version == final(self)@.node(n).version
                },
                Err(_) => true,
            },
            old(self)@.quiet(n) ==> seen.is_ok() && old(self)@.calmed(final(self)@, n)
                && *final(ev) == *old(ev),
            old(self)@.settled(n) ==> final(self)@ == old(self)@.with_state(n, State::Valid),
            brought(
                (Binds {
                    ev: |r: &mut E, a: E, b: E| *r == a && *final(r) == b,
                    graph: |r: &mut Graph, a: GraphView, b: GraphView| r@ == a && final(r)@ == b,
                    cx: |r: &mut Evaluation, n: usize, a: Seq<(usize, Version)>, b: Seq<(usize, Version)>|
                        r.parent_id() == n && r@ == a && final(r)@ == b,
                }),
                old(self)@,
                *old(ev),
                n,
                final(self)@,
                *final(ev),
                failure(seen),
            ),
    {
        let one = self.update(n, ev);
        proof {
            assert(passes(self@, *ev, one));
        }
        match one {
            Ok(_) => Ok(self.version(n)),
            Err(e) => Err(e),
        }
    }

    /// Runs the function of node `n` and installs the result, whether or not
    /// the node was valid. A node that does not exist or has been released,
    /// and a source, are refused and nothing is run. For any other node the
    /// evaluator is handed the graph as it is and a context of the node in
    /// which nothing has been read; what it leaves is installed as
    /// [`Graph::commit`] installs it, or refused as it refuses it, and after
    /// an installation the evaluator is told of the nodes that have become
    /// observed or unobserved by it.
    pub fn update_unchecked<E: Evaluator>(&mut self, n: usize, ev: &mut E) -> (done: Result<
        (),
        Error,
    >)
        requires
            old(self).wf(),
        ensures
            final(self).wf(),
            old(self)@.evolves(final(self)@),
            done.is_ok() ==> final(self)@.has(n) && final(self)@.valid(n),
            !old(self)@.derived(n) ==> done.is_err() && final(self)@ == old(self)@ && *final(ev)
                == *old(ev),
            !old(self)@.has(n) || !old(self)@.node(n).alive ==> done == Err::<(), Error>(
                Error::Missing,
            ),
            old(self)@.has(n) && old(self)@.node(n).alive && old(self)@.node(n).is_source()
                ==> done == Err::<(), Error>(Error::NotDerived),
            evaluates(
                (Binds {
                    ev: |r: &mut E, a: E, b: E| *r == a && *final(r) == b,
                    graph: |r: &mut Graph, a: GraphView, b: GraphView| r@ == a && final(r)@ == b,
                    cx: |r: &mut Evaluation, n: usize, a: Seq<(usize, Version)>, b: Seq<(usize, Version)>|
                        r.parent_id() == n && r@ == a && final(r)@ == b,
                }),
                old(self)@,
                *old(ev),
                n,
                final(self)@,
                *final(ev),
                failure(done),
            ),
    {
        if !self.has(n) || !self.is_alive(n) {
            return Err(Error::Missing);
        }
        match self.kind(n) {
            Kind::Var => {
                return Err(Error::NotDerived);
            },
            Kind::Const => {
                return Err(Error::NotDerived);
            },
            _ => {},
        }
        let ghost b = (Binds {
            ev: |r: &mut E, a: E, b: E| *r == a && *final(r) == b,
            graph: |r: &mut Graph, a: GraphView, b: GraphView| r@ == a && final(r)@ == b,
            cx: |r: &mut Evaluation, n: usize, a: Seq<(usize, Version)>, b: Seq<(usize, Version)>|
                r.parent_id() == n && r@ == a && final(r)@ == b,
        });
        if self.is_busy(n) {
            return Err(Error::Order);
        }
        let ghost g = self@;
        let ghost e = *ev;
        let mut cx = Evaluation::new(n);
        self.set_busy(n, true);
        proof {
            lemma_busy_wf(g, n, true);
        }
        let hash = ev.eval(self, &mut cx);
        let ghost g1 = self@;
        let ghost e1 = *ev;
        let ghost reads = cx@;
        assert(ran(b, g.with_busy(n, true), e, n, g1, e1, reads, hash));
        self.set_busy(n, false);
        proof {
            lemma_busy_wf(g1, n, false);
            assert(g.keeps_kinds(self@)) by {
                assert forall|x: usize| g.has(x) implies (#[trigger] self@.node(x)).kind == g.node(
                    x,
                ).kind && self@.node(x).busy == g.node(x).busy by {
                    assert(g.with_busy(n, true).node(x).kind == g.node(x).kind);
                    assert(g1.node(x).kind == g.node(x).kind);
                }
            }
        }
        let ghost cleared = self@;
        match self.commit_and_notify(cx, hash, ev) {
            Ok(_) => {
                assert(recomputed(b, g, e, n, self@, *ev, None));
                Ok(())
            },
            Err(error) => {
                assert(recomputed(b, g, e, n, self@, *ev, Some(error)));
                Err(error)
            },
        }
    }
}

impl Dependencies {
    /// Whether everything recorded still holds. Each node recorded is
    /// brought up to date, in the order of the record, as [`Graph::update`]
    /// does it, and the version it publishes then is compared with the one
    /// recorded. The first that fails or differs ends the check: the nodes
    /// recorded after it are left as they are. An empty record holds.
    pub fn are_valid<E: Evaluator>(&self, graph: &mut Graph, ev: &mut E) -> (same: bool)
        requires
            old(graph).wf(),
        ensures
            final(graph).wf(),
            old(graph)@.evolves(final(graph)@),
            checked(
                (Binds {
                                ev: |r: &mut E, a: E, b: E| *r == a && *final(r) == b,
                                graph: |r: &mut Graph, a: GraphView, b: GraphView| r@ == a && final(r)@ == b,
                                cx: |r: &mut Evaluation, n: usize, a: Seq<(usize, Version)>, b: Seq<(usize, Version)>|
                                    r.parent_id() == n && r@ == a && final(r)@ == b,
                            }),
                old(graph)@,
                *old(ev),
                self@,
                self@.len() as int,
                final(graph)@,
                *final(ev),
                same,
            ),
    {
        let ghost b = (Binds {
            ev: |r: &mut E, a: E, b: E| *r == a && *final(r) == b,
            graph: |r: &mut Graph, a: GraphView, b: GraphView| r@ == a && final(r)@ == b,
            cx: |r: &mut Evaluation, n: usize, a: Seq<(usize, Version)>, b: Seq<(usize, Version)>|
                r.parent_id() == n && r@ == a && final(r)@ == b,
        });
        let ghost g = graph@;
        let ghost e = *ev;
        let count = self.len();
        let mut same = true;
        let mut i: usize = 0;
        while i < count
            invariant
                g == old(graph)@,
                e == *old(ev),
                graph.wf(),
                g.evolves(graph@),
                count == self@.len(),
                i <= count,
                b == (Binds {
                                ev: |r: &mut E, a: E, b: E| *r == a && *final(r) == b,
                                graph: |r: &mut Graph, a: GraphView, b: GraphView| r@ == a && final(r)@ == b,
                                cx: |r: &mut Evaluation, n: usize, a: Seq<(usize, Version)>, b: Seq<(usize, Version)>|
                                    r.parent_id() == n && r@ == a && final(r)@ == b,
                            }),
                checked(b, g, e, self@, i as int, graph@, *ev, same),
            decreases count - i,
        {
            let ghost mid = graph@;
            let ghost at = *ev;
            let ghost still = same;
            if same {
                let (u, seen) = self.entry(i);
                let one = graph.update(u, ev);
                match one {
                    Ok(_) => {
                        if graph.hash(u) != seen.value() {
                            same = false;
                        }
                    },
                    Err(_) => {
                        same = false;
                    },
                }
                proof {
                    lemma_keeps_kinds_chain(g, mid, graph@);
                    assert(passes(mid, at, (still, one)));
                    assert(same == (one.is_ok() && graph@.node(u).version == seen));
                }
            } else {
                proof {
                    assert(passes(mid, at, (still, Ok::<Update, Error>(Update::Unchanged))));
                }
            }
            proof {
                assert(checked(b, g, e, self@, i as int + 1 - 1, mid, at, still));
                assert(checked(b, g, e, self@, i as int + 1, graph@, *ev, same));
            }
            i += 1;
        }
        same
    }
}

} // verus!
