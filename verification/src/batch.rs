//! Batches: while one is open, reactions that lose their validity wait in a
//! queue; when the outermost batch ends, the queue is drained.

use vstd::prelude::*;
use crate::graph::Graph;
use crate::model::{lemma_keeps_kinds_chain, GraphView, NodeView};
use crate::shape::{lemma_counts_kept, lemma_current_kept, lemma_read_is_fresh, lemma_shape_kept};
use crate::state::{Error, Invalid, Invalidate, Kind, Version};
use crate::evaluation::Evaluation;
use crate::invalidate::lemma_depends_on_same_reads;
use crate::laws::{lemma_queued_nothing, lemma_uses_depends};
use crate::runs::{
    asked, at_rest, batched, called, coursed, deferred, drained, kept, lemma_drained_at_rest,
    lemma_drained_empty, passes, published, reacted, swept, tended, Binds,
};
use crate::update::{Evaluator, Update};

verus! {

/// The batch flags and the queue are no part of the invariant of the nodes:
/// a graph stays well formed when the flags change and when the queue is
/// emptied.
pub proof fn lemma_flags_wf(g: GraphView, h: GraphView)
    requires
        g.wf(),
        h.nodes == g.nodes,
        h.changed == g.changed || h.changed == Seq::<usize>::empty(),
    ensures
        h.wf(),
{
    assert forall|x: usize| g.has(x) implies #[trigger] h.node(x) == g.node(x) by {}
    assert forall|x: usize| #![trigger h.node(x)] g.has(x) implies {
        &&& h.node(x).armed ==> h.node(x).kind == Kind::Reaction && h.node(x).alive
        &&& !h.node(x).alive ==> h.node(x).dependencies.len() == 0 && h.node(x).dependents.len()
            == 0 && !h.valid(x)
    } by {
        let a = g.node(x);
    }
    lemma_shape_kept(g, h);
    assert forall|d: usize, u: usize| g.has(d) && h.valid(d) && #[trigger] g.uses(d, u) implies h.valid(
        u,
    ) && h.node(u).version == g.node(u).version by {
        lemma_read_is_fresh(g, d, u);
    }
    lemma_current_kept(g, h);
    lemma_counts_kept(g, h);
}

/// Whether a batch is open.
pub fn in_batch(graph: &Graph) -> (open: bool)
    ensures
        open == graph@.started,
{
    graph.in_batch()
}

/// Whether a deferred drain has been scheduled and has not run yet.
pub fn is_microtask_scheduled(graph: &Graph) -> (scheduled: bool)
    ensures
        scheduled == graph@.microtask,
{
    graph.is_microtask_scheduled()
}

/// Opens a batch unless one is open, and says whether it opened one.
pub fn batch_start(graph: &mut Graph) -> (root: bool)
    requires
        old(graph).wf(),
    ensures
        final(graph).wf(),
        root == !old(graph)@.started,
        final(graph)@ == (GraphView { started: true, ..old(graph)@ }),
{
    let root = !graph.in_batch();
    proof {
        lemma_flags_wf(graph@, GraphView { started: true, ..graph@ });
    }
    graph.set_started(true);
    root
}

/// Closes the batch.
pub fn batch_stop(graph: &mut Graph)
    requires
        old(graph).wf(),
    ensures
        final(graph).wf(),
        final(graph)@ == (GraphView { started: false, ..old(graph)@ }),
{
    proof {
        lemma_flags_wf(graph@, GraphView { started: false, ..graph@ });
    }
    graph.set_started(false);
}

/// Notes that a deferred drain is scheduled unless one is, and says whether
/// this call was the one that noted it.
pub fn batch_start_microtask(graph: &mut Graph) -> (first: bool)
    requires
        old(graph).wf(),
    ensures
        final(graph).wf(),
        first == !old(graph)@.microtask,
        final(graph)@ == (GraphView { microtask: true, ..old(graph)@ }),
{
    let first = !graph.is_microtask_scheduled();
    proof {
        lemma_flags_wf(graph@, GraphView { microtask: true, ..graph@ });
    }
    graph.set_microtask(true);
    first
}

/// Drains the queue of changed reactions: takes the whole queue, deals with
/// each reaction in it in its order, and starts over with what was queued
/// in the meantime, until a round finds the queue empty. A reaction that
/// is scheduled is not run: the evaluator is told that it has to run. Any
/// other is brought up to date. A reaction that has been released is passed
/// over. If a reaction cannot be brought up to date, the drain goes on and
/// ends with the first such failure; a drain that has not found the queue
/// empty after `usize::MAX` rounds gives up. Where every queued reaction
/// is valid or has been released, nothing is run and the drain only
/// empties the queue.
pub fn batch_run<E: Evaluator>(graph: &mut Graph, ev: &mut E) -> (done: Result<(), Error>)
    requires
        old(graph).wf(),
    ensures
        final(graph).wf(),
        old(graph)@.evolves(final(graph)@),
        done.is_ok() ==> final(graph)@.changed.len() == 0,
        done != Err::<(), Error>(Error::Missing),
        old(graph)@.changed.len() == 0 ==> done.is_ok() && final(graph)@ == old(graph)@
            && *final(ev) == *old(ev),
        at_rest(old(graph)@, old(graph)@.changed) ==> done.is_ok() && final(graph)@ == (GraphView {
            changed: Seq::empty(),
            ..old(graph)@
        }),
        drained(
            (Binds {
                ev: |r: &mut E, a: E, b: E| *r == a && *final(r) == b,
                graph: |r: &mut Graph, a: GraphView, b: GraphView| r@ == a && final(r)@ == b,
                cx: |r: &mut Evaluation, n: usize, a: Seq<(usize, Version)>, b: Seq<(usize, Version)>|
                    r.parent_id() == n && r@ == a && final(r)@ == b,
            }),
            old(graph)@,
            *old(ev),
            final(graph)@,
            *final(ev),
            done,
        ),
{
    let ghost b = (Binds {
        ev: |r: &mut E, a: E, b: E| *r == a && *final(r) == b,
        graph: |r: &mut Graph, a: GraphView, b: GraphView| r@ == a && final(r)@ == b,
        cx: |r: &mut Evaluation, n: usize, a: Seq<(usize, Version)>, b: Seq<(usize, Version)>|
            r.parent_id() == n && r@ == a && final(r)@ == b,
    });
    let ghost g = graph@;
    let ghost e = *ev;
    let mut failed: Option<Error> = None;
    let mut rounds: usize = usize::MAX;
    while rounds > 0
        invariant
            g == old(graph)@,
            e == *old(ev),
            graph.wf(),
            g.evolves(graph@),
            failed != Some(Error::Missing),
            g.changed.len() == 0 ==> graph@ == g && *ev == e && failed.is_none() && rounds
                == usize::MAX,
            b == (Binds {
                ev: |r: &mut E, a: E, b: E| *r == a && *final(r) == b,
                graph: |r: &mut Graph, a: GraphView, b: GraphView| r@ == a && final(r)@ == b,
                cx: |r: &mut Evaluation, n: usize, a: Seq<(usize, Version)>, b: Seq<(usize, Version)>|
                    r.parent_id() == n && r@ == a && final(r)@ == b,
            }),
            coursed(b, g, e, usize::MAX - rounds, graph@, *ev, failed),
        decreases rounds,
    {
        let ghost before = graph@;
        let ghost at = *ev;
        let ghost held = failed;
        let changed = graph.take_changed();
        proof {
            lemma_flags_wf(before, graph@);
        }
        if changed.len() == 0 {
            proof {
                assert(before.changed =~= Seq::<usize>::empty());
                assert(graph@ == before);
            }
            let done = match failed {
                Some(error) => Err(error),
                None => Ok(()),
            };
            proof {
                assert(drained(b, g, e, graph@, *ev, done));
                if at_rest(g, g.changed) {
                    lemma_drained_at_rest(b, g, e, graph@, *ev, done);
                }
            }
            return done;
        }
        let ghost emptied = graph@;
        proof {
            lemma_keeps_kinds_chain(g, before, emptied);
        }
        let mut i: usize = 0;
        while i < changed.len()
            invariant
                graph.wf(),
                g.evolves(graph@),
                g.changed.len() != 0,
                failed != Some(Error::Missing),
                i <= changed@.len(),
                b == (Binds {
                    ev: |r: &mut E, a: E, b: E| *r == a && *final(r) == b,
                    graph: |r: &mut Graph, a: GraphView, b: GraphView| r@ == a && final(r)@ == b,
                    cx: |r: &mut Evaluation, n: usize, a: Seq<(usize, Version)>, b: Seq<(usize, Version)>|
                        r.parent_id() == n && r@ == a && final(r)@ == b,
                }),
                swept(b, emptied, at, held, changed@, i as int, graph@, *ev, failed),
            decreases changed@.len() - i,
        {
            let ghost mid = graph@;
            let ghost from = *ev;
            let ghost kept_so_far = failed;
            let r = changed[i];
            let scheduled = ev.is_scheduled(r);
            proof {
                assert(asked(from, r, scheduled));
                assert(passes(mid, from, kept_so_far));
            }
            if scheduled {
                ev.on_reaction(r);
                proof {
                    assert(reacted(b, r, from, *ev));
                    assert(passes(graph@, *ev, (scheduled, Ok::<Update, Error>(Update::Unchanged))));
                    assert(tended(b, mid, from, kept_so_far, r, graph@, *ev, failed));
                }
            } else {
                let one = graph.update(r, ev);
                match one {
                    Ok(_) => {},
                    Err(Error::Missing) => {},
                    Err(error) => {
                        if failed.is_none() {
                            failed = Some(error);
                        }
                    },
                }
                proof {
                    assert(failed == kept(kept_so_far, one));
                    assert(passes(graph@, *ev, (scheduled, one)));
                    assert(tended(b, mid, from, kept_so_far, r, graph@, *ev, failed));
                }
            }
            proof {
                assert(swept(b, emptied, at, held, changed@, i as int + 1 - 1, mid, from, kept_so_far));
                assert(changed@[i as int + 1 - 1] == r);
                assert(swept(b, emptied, at, held, changed@, i as int + 1, graph@, *ev, failed));
            }
            i += 1;
        }
        proof {
            let done_rounds = usize::MAX - rounds;
            assert(passes(before, at, held));
            assert(emptied == (GraphView { changed: Seq::empty(), ..before }));
            assert(changed@ == before.changed);
            assert(coursed(b, g, e, done_rounds + 1 - 1, before, at, held));
            assert(coursed(b, g, e, done_rounds + 1, graph@, *ev, failed));
        }
        rounds -= 1;
    }
    let done = match failed {
        Some(error) => Err(error),
        None => Err(Error::Unsettled),
    };
    proof {
        assert(drained(b, g, e, graph@, *ev, done));
        if at_rest(g, g.changed) {
            lemma_drained_at_rest(b, g, e, graph@, *ev, done);
        }
    }
    done
}

/// Runs `func` as a batch. If no batch is open, one is opened; when `func`
/// has returned, the queue of changed reactions is drained, unless a
/// deferred drain is scheduled, and the batch is closed. If a batch is open,
/// `func` simply runs as part of it. The result is that of the drain, if
/// there was one.
pub fn batch<E: Evaluator, F: FnOnce(&mut Graph, &mut E)>(
    graph: &mut Graph,
    ev: &mut E,
    func: F,
) -> (done: Result<(), Error>)
    requires
        old(graph).wf(),
        forall|g: &mut Graph, e: &mut E| g.wf() && g@.started ==> call_requires(func, (g, e)),
        forall|g: &mut Graph, e: &mut E, done: ()| #[trigger]
            call_ensures(func, (g, e), done) ==> final(g).wf() && g@.evolves(final(g)@),
    ensures
        final(graph).wf(),
        old(graph)@.evolves(final(graph)@),
        old(graph)@.started || old(graph)@.microtask ==> done.is_ok(),
        done.is_ok() && !old(graph)@.started && !final(graph)@.microtask
            ==> final(graph)@.changed.len() == 0,
        batched(
            (Binds {
                ev: |r: &mut E, a: E, b: E| *r == a && *final(r) == b,
                graph: |r: &mut Graph, a: GraphView, b: GraphView| r@ == a && final(r)@ == b,
                cx: |r: &mut Evaluation, n: usize, a: Seq<(usize, Version)>, b: Seq<(usize, Version)>|
                    r.parent_id() == n && r@ == a && final(r)@ == b,
            }),
            func,
            old(graph)@,
            *old(ev),
            final(graph)@,
            *final(ev),
            done,
        ),
{
    let ghost b = (Binds {
        ev: |r: &mut E, a: E, b: E| *r == a && *final(r) == b,
        graph: |r: &mut Graph, a: GraphView, b: GraphView| r@ == a && final(r)@ == b,
        cx: |r: &mut Evaluation, n: usize, a: Seq<(usize, Version)>, b: Seq<(usize, Version)>|
            r.parent_id() == n && r@ == a && final(r)@ == b,
    });
    let ghost g = graph@;
    let ghost e = *ev;
    let root = batch_start(graph);
    let ghost opened = graph@;
    func(graph, ev);
    let ghost mid = graph@;
    let ghost at = *ev;
    proof {
        assert(called(b, func, opened, e, mid, at));
    }
    let mut done = Ok(());
    if root {
        if !is_microtask_scheduled(graph) {
            done = batch_run(graph, ev);
        }
        let ghost last = graph@;
        batch_stop(graph);
        proof {
            assert(passes(mid, at, last));
            lemma_keeps_kinds_chain(g, opened, mid);
            lemma_keeps_kinds_chain(g, mid, last);
            lemma_keeps_kinds_chain(g, last, graph@);
        }
    } else {
        proof {
            assert(opened == g);
        }
    }
    done
}

/// Runs `func` as a batch whose drain is deferred: the batch is closed when
/// `func` has returned, and the queue is left for [`microtask_run`]. The
/// result says whether the caller has to schedule that run: it does for the
/// first deferred batch, and not again until the run has taken place.
pub fn batch_microtask<E: Evaluator, F: FnOnce(&mut Graph, &mut E)>(
    graph: &mut Graph,
    ev: &mut E,
    func: F,
) -> (schedule: bool)
    requires
        old(graph).wf(),
        forall|g: &mut Graph, e: &mut E|
            g.wf() && g@.started && g@.microtask ==> call_requires(func, (g, e)),
        forall|g: &mut Graph, e: &mut E, done: ()| #[trigger]
            call_ensures(func, (g, e), done) ==> final(g).wf() && g@.evolves(final(g)@),
    ensures
        final(graph).wf(),
        schedule == !old(graph)@.microtask,
        old(graph)@.evolves(final(graph)@),
        exists|g: &mut Graph, e: &mut E|
            g@ == (GraphView { started: true, microtask: true, ..old(graph)@ }) && *e == *old(ev)
                && #[trigger] call_ensures(func, (g, e), ()) && final(graph)@ == (GraphView {
                started: old(graph)@.started,
                ..final(g)@
            }) && *final(ev) == *final(e),
        final(graph)@.microtask,
        final(graph)@.started == old(graph)@.started,
        old(graph)@.nodes.len() <= final(graph)@.nodes.len(),
{
    let ghost g = graph@;
    let root = batch_start(graph);
    let first = batch_start_microtask(graph);
    let ghost opened = graph@;
    func(graph, ev);
    let ghost mid = graph@;
    if root {
        batch_stop(graph);
    }
    proof {
        lemma_keeps_kinds_chain(g, opened, mid);
        lemma_keeps_kinds_chain(g, mid, graph@);
    }
    first
}

/// The deferred drain: drains the queue of changed reactions as a batch of
/// its own, then notes that no drain is scheduled any more. The result is
/// that of the drain.
pub fn microtask_run<E: Evaluator>(graph: &mut Graph, ev: &mut E) -> (done: Result<(), Error>)
    requires
        old(graph).wf(),
    ensures
        final(graph).wf(),
        !final(graph)@.microtask,
        final(graph)@.started == old(graph)@.started,
        old(graph)@.nodes.len() <= final(graph)@.nodes.len(),
        done.is_ok() ==> final(graph)@.changed.len() == 0,
        old(graph)@.changed.len() == 0 ==> done.is_ok() && final(graph)@ == (GraphView {
            microtask: false,
            ..old(graph)@
        }) && *final(ev) == *old(ev),
        deferred(
            (Binds {
                ev: |r: &mut E, a: E, b: E| *r == a && *final(r) == b,
                graph: |r: &mut Graph, a: GraphView, b: GraphView| r@ == a && final(r)@ == b,
                cx: |r: &mut Evaluation, n: usize, a: Seq<(usize, Version)>, b: Seq<(usize, Version)>|
                    r.parent_id() == n && r@ == a && final(r)@ == b,
            }),
            old(graph)@,
            *old(ev),
            final(graph)@,
            *final(ev),
            done,
        ),
{
    let ghost g = graph@;
    let root = batch_start(graph);
    let done = batch_run(graph, ev);
    let ghost last = graph@;
    if root {
        batch_stop(graph);
    }
    proof {
        lemma_flags_wf(graph@, GraphView { microtask: false, ..graph@ });
        assert(passes(last, *ev, done));
    }
    graph.set_microtask(false);
    done
}

/// Publishes `version` as the value of node `n`, as [`Graph::change`] does,
/// but as a batch of its own: if no batch is open, one is opened, and the
/// reactions that were queued are rerun before it is closed and the call
/// returns. Says whether the version was new, or why the drain failed.
pub fn publish<E: Evaluator>(
    graph: &mut Graph,
    ev: &mut E,
    n: usize,
    version: Version,
    kind: Invalid,
) -> (done: Result<bool, Error>)
    requires
        old(graph).wf(),
        old(graph)@.has(n),
    ensures
        final(graph).wf(),
        old(graph)@.evolves(final(graph)@),
        published(
            (Binds {
                ev: |r: &mut E, a: E, b: E| *r == a && *final(r) == b,
                graph: |r: &mut Graph, a: GraphView, b: GraphView| r@ == a && final(r)@ == b,
                cx: |r: &mut Evaluation, n: usize, a: Seq<(usize, Version)>, b: Seq<(usize, Version)>|
                    r.parent_id() == n && r@ == a && final(r)@ == b,
            }),
            old(graph)@,
            *old(ev),
            n,
            version,
            kind,
            final(graph)@,
            *final(ev),
            done,
        ),
{
    if graph.hash(n) == version.value() {
        return Ok(false);
    }
    let ghost g = graph@;
    let root = batch_start(graph);
    let ghost opened = graph@;
    let changed = graph.change(n, version, kind);
    let ghost written = graph@;
    proof {
        assert(changed == Ok::<bool, Error>(true));
    }
    if root {
        if !is_microtask_scheduled(graph) {
            let drained = batch_run(graph, ev);
            let ghost last = graph@;
            batch_stop(graph);
            proof {
                assert(passes(written, last, drained));
                lemma_keeps_kinds_chain(g, opened, written);
                lemma_keeps_kinds_chain(g, written, last);
                lemma_keeps_kinds_chain(g, last, graph@);
            }
            match drained {
                Ok(_) => Ok(true),
                Err(e) => Err(e),
            }
        } else {
            batch_stop(graph);
            proof {
                lemma_publishes_flags(g, opened, written, graph@, n, version, kind);
            }
            Ok(true)
        }
    } else {
        proof {
            assert(opened == g);
        }
        Ok(true)
    }
}

/// Opening a batch before a version is published and closing it afterwards
/// leaves what the publishing did.
proof fn lemma_publishes_flags(
    g: GraphView,
    opened: GraphView,
    written: GraphView,
    h: GraphView,
    n: usize,
    version: Version,
    kind: Invalid,
)
    requires
        g.has(n),
        opened == (GraphView { started: true, ..g }),
        opened.publishes(written, n, version, kind),
        h == (GraphView { started: g.started, ..written }),
    ensures
        g.publishes(h, n, version, kind),
{
    let first = g.with_version(n, version);
    let first_opened = opened.with_version(n, version);
    assert(first_opened.nodes == first.nodes);
    assert(first.same_shape(h)) by {
        assert forall|x: usize| #![trigger h.node(x)] first.has(x) implies h.node(x) == (NodeView {
            state: h.node(x).state,
            ..first.node(x)
        }) by {
            assert(written.node(x) == (NodeView {
                state: written.node(x).state,
                ..first_opened.node(x)
            }));
        }
    }
    assert forall|x: usize| first.has(x) implies (#[trigger] h.node(x)).state
        == first.state_after_spread(n, kind, x) by {
        assert(written.node(x).state == first_opened.state_after_spread(n, kind, x));
        assert(first_opened.node(x) == first.node(x));
        assert(first_opened.same_reads(first));
        crate::invalidate::lemma_depends_on_same_reads(first_opened, first, x, n);
    }
    assert(first.queued(h)) by {
        let start = first.changed.len() as int;
        assert forall|i: int| start <= i < h.changed.len() implies {
            let r = #[trigger] h.changed[i];
            first.has(r) && first.node(r).kind == Kind::Reaction && first.valid(r) && !h.valid(r)
        } by {
            let r = written.changed[i];
            assert(first_opened.has(r) && first_opened.node(r).kind == Kind::Reaction
                && first_opened.valid(r) && !written.valid(r));
        }
        assert forall|r: usize|
            first.has(r) && first.node(r).kind == Kind::Reaction && first.valid(r) && !(
            #[trigger] h.valid(r)) implies exists|i: int|
            start <= i < h.changed.len() && #[trigger] h.changed[i] == r by {
            assert(first_opened.node(r).kind == Kind::Reaction && first_opened.valid(r));
            assert(!written.valid(r));
            let i = choose|i: int|
                start <= i < written.changed.len() && #[trigger] written.changed[i] == r;
            assert(h.changed[i] == r);
        }
    }
}

/// A write outside a batch that takes the validity of no reaction, made
/// while the queue is empty, runs nothing: the version is published and the
/// nodes that have read the cell are marked, as [`GraphView::publishes`]
/// describes, the evaluator is left alone, and the write succeeds.
pub proof fn lemma_published_without_reactions<E: Evaluator>(
    b: Binds<'_, E>,
    g: GraphView,
    e: E,
    n: usize,
    version: Version,
    kind: Invalid,
    next: GraphView,
    to: E,
    done: Result<bool, Error>,
)
    requires
        g.wf(),
        g.has(n),
        version != g.node(n).version,
        !g.started,
        !g.microtask,
        g.changed.len() == 0,
        !g.queues(n, Invalidate::OnlyDeps),
        published(b, g, e, n, version, kind, next, to, done),
    ensures
        done == Ok::<bool, Error>(true),
        g.publishes(next, n, version, kind),
        next.changed.len() == 0,
        to == e,
{
    let opened = GraphView { started: true, ..g };
    let (mid, last, end): (GraphView, GraphView, Result<(), Error>) = choose|
        mid: GraphView,
        last: GraphView,
        end: Result<(), Error>,
    |
        #![trigger passes(mid, last, end)]
        passes(mid, last, end) && opened.publishes(mid, n, version, kind) && drained(
            b,
            mid,
            e,
            last,
            to,
            end,
        ) && next == (GraphView { started: false, ..last }) && done == (match end {
            Ok(_) => Ok::<bool, Error>(true),
            Err(error) => Err(error),
        });
    let first = opened.with_version(n, version);
    assert forall|r: usize|
        first.has(r) && first.node(r).kind == Kind::Reaction && first.valid(r) implies #[trigger] mid.valid(
        r,
    ) by {
        assert(g.has(r) && g.node(r).kind == Kind::Reaction && g.valid(r));
        assert(!g.reaches(n, Invalidate::OnlyDeps, r));
        assert(g.same_reads(first)) by {
            assert forall|y: usize| g.has(y) implies (#[trigger] first.node(y)).dependencies
                == g.node(y).dependencies by {}
        }
        lemma_depends_on_same_reads(g, first, r, n);
        if g.uses(r, n) {
            lemma_uses_depends(g, r, n);
        }
        assert(first.node(r).dependencies == g.node(r).dependencies);
        assert(!first.uses(r, n));
        assert(mid.node(r).state == first.state_after_spread(n, kind, r));
    }
    lemma_queued_nothing(first, mid);
    assert(mid.changed.len() == 0);
    lemma_drained_empty(b, mid, e, last, to, end);
    lemma_publishes_flags(g, opened, mid, next, n, version, kind);
}

/// A batch at the root calls its function once, inside the batch. If no
/// reaction is queued when the function returns, or a deferred drain is
/// scheduled by then, nothing else is run: the batch is closed and
/// succeeds.
pub proof fn lemma_batched_at_the_root<E: Evaluator, F: FnOnce(&mut Graph, &mut E)>(
    b: Binds<'_, E>,
    func: F,
    g: GraphView,
    e: E,
    next: GraphView,
    to: E,
    done: Result<(), Error>,
)
    requires
        !g.started,
        batched(b, func, g, e, next, to, done),
    ensures
        exists|mid: GraphView, at: E|
            #![trigger called(b, func, GraphView { started: true, ..g }, e, mid, at)]
            called(b, func, GraphView { started: true, ..g }, e, mid, at) && (mid.microtask
                || mid.changed.len() == 0 ==> done.is_ok() && next == (GraphView {
                started: false,
                ..mid
            }) && to == at),
{
    let (mid, at, last): (GraphView, E, GraphView) = choose|mid: GraphView, at: E, last: GraphView|
        #![trigger passes(mid, at, last)]
        passes(mid, at, last) && called(b, func, GraphView { started: true, ..g }, e, mid, at)
            && next == (GraphView { started: false, ..last }) && if mid.microtask {
            last == mid && to == at && done.is_ok()
        } else {
            drained(b, mid, at, last, to, done)
        };
    if !mid.microtask && mid.changed.len() == 0 {
        lemma_drained_empty(b, mid, at, last, to, done);
    }
    assert(called(b, func, GraphView { started: true, ..g }, e, mid, at));
}

} // verus!
