//! What the graph asks of an evaluator, and what becomes of the graph and
//! of the evaluator when it does: the course of an update, of an
//! evaluation and of a drain, stated over the contracts of the evaluator's
//! own functions.

use vstd::prelude::*;
use crate::evaluation::Evaluation;
use crate::graph::Graph;
use crate::model::{GraphView, NodeView};
use crate::state::{Error, Invalid, State, Version};
use crate::update::{Evaluator, Update};

verus! {

/// How a mutable reference stands for a value before and a value after a
/// call. A contract hands these over as `|r, a, b| *r == a && *final(r) ==
/// b`, with views where the type has one; the relations of this module only
/// apply them.
#[verifier::reject_recursive_types(E)]
pub struct Binds<'a, E> {
    /// The reference to the evaluator holds the first value when it is
    /// handed over and the second when it comes back.
    pub ev: spec_fn(&'a mut E, E, E) -> bool,
    /// The same of the graph, by its view.
    pub graph: spec_fn(&'a mut Graph, GraphView, GraphView) -> bool,
    /// The same of an evaluation context of the given node, by what it has
    /// recorded.
    pub cx: spec_fn(
        &'a mut Evaluation,
        usize,
        Seq<(usize, Version)>,
        Seq<(usize, Version)>,
    ) -> bool,
}

/// Marks a state that a course passes through.
pub open spec fn passes<E, T>(g: GraphView, e: E, t: T) -> bool {
    true
}

/// Telling `from` that node `x` has become observed can leave `to`.
pub open spec fn observed<E: Evaluator>(b: Binds<'_, E>, x: usize, from: E, to: E) -> bool {
    exists|slot: &mut E|
        (b.ev)(slot, from, to) && #[trigger] call_ensures(E::on_become_observed, (slot, x), ())
}

/// Telling `from` that node `x` is observed no more can leave `to`.
pub open spec fn unobserved<E: Evaluator>(b: Binds<'_, E>, x: usize, from: E, to: E) -> bool {
    exists|slot: &mut E|
        (b.ev)(slot, from, to) && #[trigger] call_ensures(E::on_become_unobserved, (slot, x), ())
}

/// Telling `from` that the scheduled reaction `x` has to run can leave `to`.
pub open spec fn reacted<E: Evaluator>(b: Binds<'_, E>, x: usize, from: E, to: E) -> bool {
    exists|slot: &mut E|
        (b.ev)(slot, from, to) && #[trigger] call_ensures(E::on_reaction, (slot, x), ())
}

/// Asked whether the reaction `x` is scheduled, `e` can answer `answer`.
pub open spec fn asked<E: Evaluator>(e: E, x: usize, answer: bool) -> bool {
    call_ensures(E::is_scheduled, (&e, x), answer)
}

/// For every node of `g`, whether an armed reaction observes it.
pub open spec fn observed_flags(g: GraphView) -> Seq<bool> {
    Seq::new(g.nodes.len(), |i: int| g.nodes[i].observers > 0)
}

/// What the evaluator hears of node `x`: `to` is `from` after it was told
/// that the node has become observed, if the node is observed in `g` and
/// `before` does not say that it was; after it was told that the node is
/// observed no more, if `before` says that it was and it is not in `g`; and
/// `from` itself otherwise. A node that `before` does not cover counts as
/// not observed before.
pub open spec fn hears<E: Evaluator>(
    b: Binds<'_, E>,
    g: GraphView,
    before: Seq<bool>,
    x: usize,
    from: E,
    to: E,
) -> bool {
    let was = x < before.len() && before[x as int];
    let now = g.node(x).observers > 0;
    if now && !was {
        observed(b, x, from, to)
    } else if was && !now {
        unobserved(b, x, from, to)
    } else {
        to == from
    }
}

/// `to` is the evaluator `from` after it has heard of each of the first
/// `upto` nodes of `g`, in their order, what [`hears`] describes.
pub open spec fn notified<E: Evaluator>(
    b: Binds<'_, E>,
    g: GraphView,
    before: Seq<bool>,
    upto: int,
    from: E,
    to: E,
) -> bool
    decreases upto,
{
    if upto <= 0 {
        to == from
    } else {
        let last = upto - 1;
        exists|mid: E|
            #![trigger hears(b, g, before, last as usize, mid, to)]
            notified(b, g, before, last, from, mid) && hears(b, g, before, last as usize, mid, to)
    }
}

/// What the evaluator hears when a change to the reads of node `n` has
/// taken the graph from `g` to `next`. If `n` was an armed reaction or was
/// observed by one, `to` is `from` after it has heard of every node whose
/// being observed differs between the two; otherwise no node can differ,
/// and `to` is `from`.
pub open spec fn told<E: Evaluator>(
    b: Binds<'_, E>,
    g: GraphView,
    next: GraphView,
    n: usize,
    from: E,
    to: E,
) -> bool {
    if g.has(n) && (g.node(n).armed || g.node(n).observers > 0) {
        notified(b, next, observed_flags(g), next.nodes.len() as int, from, to)
    } else {
        to == from
    }
}

/// An evaluator that has heard of the nodes before `x`, and then of `x`, has
/// heard of the nodes up to `x`.
pub proof fn lemma_notified_step<E: Evaluator>(
    b: Binds<'_, E>,
    g: GraphView,
    before: Seq<bool>,
    x: usize,
    from: E,
    mid: E,
    to: E,
)
    requires
        x < usize::MAX,
        notified(b, g, before, x as int, from, mid),
        hears(b, g, before, x, mid, to),
    ensures
        notified(b, g, before, x as int + 1, from, to),
{
    let last = x as int + 1 - 1;
    assert(last as usize == x);
    assert(notified(b, g, before, last, from, mid));
    assert(hears(b, g, before, last as usize, mid, to));
}

/// The function of node `n` was run: the evaluator `e` was handed the graph
/// `g` and a context of `n` in which nothing had been read, and came back
/// as `e1` with the graph `g1`, the reads `reads` and the result `hash`.
pub open spec fn ran<E: Evaluator>(
    b: Binds<'_, E>,
    g: GraphView,
    e: E,
    n: usize,
    g1: GraphView,
    e1: E,
    reads: Seq<(usize, Version)>,
    hash: Option<Version>,
) -> bool {
    exists|slot: &mut E, graph: &mut Graph, cx: &mut Evaluation|
        (b.ev)(slot, e, e1) && (b.graph)(graph, g, g1) && (b.cx)(
            cx,
            n,
            Seq::<(usize, Version)>::empty(),
            reads,
        ) && #[trigger] call_ensures(E::eval, (slot, graph, cx), hash)
}

/// The function of node `n` was run once, the node being marked as busy
/// for the time of the run, and what it left was installed as
/// [`GraphView::evaluated`] describes, or refused with `failed`; after an
/// installation the evaluator was told of the nodes that had become
/// observed or unobserved by it.
pub open spec fn recomputed<E: Evaluator>(
    b: Binds<'_, E>,
    g: GraphView,
    e: E,
    n: usize,
    next: GraphView,
    to: E,
    failed: Option<Error>,
) -> bool {
    exists|g1: GraphView, e1: E, reads: Seq<(usize, Version)>, hash: Option<Version>|
        #![trigger ran(b, g.with_busy(n, true), e, n, g1, e1, reads, hash)]
        ran(b, g.with_busy(n, true), e, n, g1, e1, reads, hash) && g1.with_busy(
            n,
            false,
        ).evaluated(next, n, reads, hash, failed) && (failed.is_some() ==> to == e1) && (
        failed.is_none() ==> told(b, g1.with_busy(n, false), next, n, e1, to))
}

/// Node `n` was evaluated without a look at its state: a node that does not
/// exist or has been released, a source, and a node whose function is
/// being run already are refused and nothing is run; any other is
/// [`recomputed`].
pub open spec fn evaluates<E: Evaluator>(
    b: Binds<'_, E>,
    g: GraphView,
    e: E,
    n: usize,
    next: GraphView,
    to: E,
    failed: Option<Error>,
) -> bool {
    if !g.has(n) || !g.node(n).alive {
        failed == Some(Error::Missing) && next == g && to == e
    } else if g.node(n).is_source() {
        failed == Some(Error::NotDerived) && next == g && to == e
    } else if g.node(n).busy {
        failed == Some(Error::Order) && next == g && to == e
    } else {
        recomputed(b, g, e, n, next, to, failed)
    }
}

/// What an evaluation that failed or not makes of an update.
pub open spec fn as_update(failed: Option<Error>) -> Result<Update, Error> {
    match failed {
        Some(error) => Err(error),
        None => Ok(Update::Recomputed),
    }
}

/// Why an update failed, if it did.
pub open spec fn failure<T>(done: Result<T, Error>) -> Option<Error> {
    match done {
        Ok(_) => None,
        Err(error) => Some(error),
    }
}

/// One step of the comparison that a possibly invalid node `n` makes: the
/// `k`-th node it has read is brought up to date and its version is
/// compared with the one that was seen. Once a version has differed, or an
/// update has failed, or there is no `k`-th node any more, nothing further
/// is done. Neither is anything done, and the comparison counts as failed,
/// if that node does not stand below `limit`, the rank that `n` had when
/// the comparison began: that can only be after a function that ran
/// meanwhile has made new reads.
pub open spec fn compares<E: Evaluator>(
    b: Binds<'_, E>,
    g: GraphView,
    e: E,
    same: bool,
    n: usize,
    limit: nat,
    k: int,
    next: GraphView,
    to: E,
    still: bool,
) -> bool
    decreases limit, 0int, 0int,
{
    if !same || k < 0 || k >= g.node(n).dependencies.len() {
        next == g && to == e && !still
    } else {
        let read = g.node(n).dependencies[k];
        if g.has(read.0) && g.node(read.0).rank < limit {
            exists|done: Result<Update, Error>|
                #![trigger passes(next, to, done)]
                passes(next, to, done) && updated(b, g, e, read.0, next, to, done) && still == (
                done.is_ok() && next.node(read.0).version == read.1)
        } else {
            next == g && to == e && !still
        }
    }
}

/// The first `upto` steps of the comparison of node `n`, from the graph `g`
/// and the evaluator `e`: they leave `next` and `to`, and `still` says
/// whether every version compared was the one seen.
pub open spec fn compared<E: Evaluator>(
    b: Binds<'_, E>,
    g: GraphView,
    e: E,
    n: usize,
    limit: nat,
    upto: int,
    next: GraphView,
    to: E,
    still: bool,
) -> bool
    decreases limit, 1int, upto,
{
    if upto <= 0 {
        next == g && to == e && still
    } else {
        exists|mid: GraphView, at: E, same: bool|
            #![trigger passes(mid, at, same)]
            passes(mid, at, same) && compared(b, g, e, n, limit, upto - 1, mid, at, same)
                && compares(b, mid, at, same, n, limit, upto - 1, next, to, still)
    }
}

/// Node `n` was brought up to date, from the graph `g` and the evaluator
/// `e`, with the result `done`. A node that does not exist or has been
/// released fails; a valid node is left alone; a source becomes valid; any
/// other node whose function is being run fails. A
/// possibly invalid node compares, in order, as many versions as it had
/// read nodes at the start; if all are the ones seen and the node is
/// settled then, it becomes valid and its function is not run. In every
/// other case the node is evaluated as [`evaluates`] describes.
pub open spec fn updated<E: Evaluator>(
    b: Binds<'_, E>,
    g: GraphView,
    e: E,
    n: usize,
    next: GraphView,
    to: E,
    done: Result<Update, Error>,
) -> bool
    decreases g.node(n).rank, 2int, 0int,
{
    if !g.has(n) || !g.node(n).alive {
        done == Err::<Update, Error>(Error::Missing) && next == g && to == e
    } else if g.valid(n) {
        done == Ok::<Update, Error>(Update::Unchanged) && next == g && to == e
    } else if g.node(n).is_source() {
        done == Ok::<Update, Error>(Update::Revalidated) && next == g.with_state(n, State::Valid)
            && to == e
    } else if g.node(n).busy {
        done == Err::<Update, Error>(Error::Order) && next == g && to == e
    } else if g.node(n).state == State::Invalid(Invalid::Maybe) {
        exists|mid: GraphView, at: E, same: bool|
            #![trigger passes(mid, at, same)]
            passes(mid, at, same) && compared(
                b,
                g,
                e,
                n,
                g.node(n).rank,
                g.node(n).dependencies.len() as int,
                mid,
                at,
                same,
            ) && if same && mid.settled(n) {
                done == Ok::<Update, Error>(Update::Revalidated) && next == mid.with_state(
                    n,
                    State::Valid,
                ) && to == at
            } else {
                done == as_update(failure(done)) && evaluates(b, mid, at, n, next, to, failure(done))
            }
    } else {
        done == as_update(failure(done)) && evaluates(b, g, e, n, next, to, failure(done))
    }
}

/// Node `n` was read by node `reader`, from the graph `g` and the evaluator
/// `e`, with the result `seen`. The node was brought up to date as
/// [`updated`] describes. If that failed, so did the read. So it did if
/// `reader` cannot be registered as one that reads `n`, for the reason
/// [`GraphView::register_refusal`] gives. Otherwise the version the node
/// publishes then was seen, `reader` was registered as
/// [`GraphView::registers`] describes, and the evaluator has heard of every
/// node that became observed by that.
pub open spec fn read_by<E: Evaluator>(
    b: Binds<'_, E>,
    g: GraphView,
    e: E,
    n: usize,
    reader: usize,
    next: GraphView,
    to: E,
    seen: Result<Version, Error>,
) -> bool {
    exists|mid: GraphView, at: E, one: Result<Update, Error>|
        #![trigger passes(mid, at, (seen, one))]
        passes(mid, at, (seen, one)) && updated(b, g, e, n, mid, at, one) && match one {
            Err(error) => seen == Err::<Version, Error>(error) && next == mid && to == at,
            Ok(_) => match mid.register_refusal(reader, n) {
                Some(error) => seen == Err::<Version, Error>(error) && next == mid && to == at,
                None => seen == Ok::<Version, Error>(mid.node(n).version) && mid.registers(
                    next,
                    reader,
                    n,
                ) && told(b, mid, next, reader, at, to),
            },
        }
}

/// The quiet node `n` was read by node `reader`, from the graph `g` and the
/// evaluator `e`, with the result `seen`: the nodes that bringing `n` up to
/// date makes valid became valid and no function was run. Then, unless
/// `reader` cannot be registered as one that reads `n`, the version that
/// `n` publishes was seen, `reader` was registered, and the evaluator has
/// heard of every node that became observed by that.
pub open spec fn read_at_rest<E: Evaluator>(
    b: Binds<'_, E>,
    g: GraphView,
    e: E,
    n: usize,
    reader: usize,
    next: GraphView,
    to: E,
    seen: Result<Version, Error>,
) -> bool {
    exists|mid: GraphView|
        #![trigger passes(mid, e, to)]
        passes(mid, e, to) && g.calmed(mid, n) && match mid.register_refusal(reader, n) {
            Some(error) => seen == Err::<Version, Error>(error) && next == mid && to == e,
            None => seen == Ok::<Version, Error>(g.node(n).version) && mid.registers(
                next,
                reader,
                n,
            ) && told(b, mid, next, reader, e, to),
        }
}

/// Whether node `n` must be recomputed was decided, from the graph `g` and
/// the evaluator `e`, as `stale`. A valid node and a source need not be,
/// and a definitely invalid node must be: nothing was done for them. For a
/// possibly invalid node the nodes it had read were compared, as
/// [`compared`] describes; it need not be recomputed if all were found
/// unchanged and the node is settled then.
pub open spec fn judged<E: Evaluator>(
    b: Binds<'_, E>,
    g: GraphView,
    e: E,
    n: usize,
    next: GraphView,
    to: E,
    stale: bool,
) -> bool {
    if g.valid(n) || g.node(n).is_source() {
        !stale && next == g && to == e
    } else if g.node(n).state == State::Invalid(Invalid::Maybe) {
        exists|same: bool|
            #![trigger passes(next, to, same)]
            passes(next, to, same) && compared(
                b,
                g,
                e,
                n,
                g.node(n).rank,
                g.node(n).dependencies.len() as int,
                next,
                to,
                same,
            ) && stale == !(same && next.settled(n))
    } else {
        stale && next == g && to == e
    }
}

/// Node `n` was brought up to date as [`updated`] describes, and `failed`
/// is why that failed, if it did.
pub open spec fn brought<E: Evaluator>(
    b: Binds<'_, E>,
    g: GraphView,
    e: E,
    n: usize,
    next: GraphView,
    to: E,
    failed: Option<Error>,
) -> bool {
    exists|done: Result<Update, Error>|
        #![trigger passes(next, to, done)]
        passes(next, to, done) && updated(b, g, e, n, next, to, done) && failure(done) == failed
}

/// A comparison that has ended stays as it is.
pub proof fn lemma_compared_ended<E: Evaluator>(
    b: Binds<'_, E>,
    g: GraphView,
    e: E,
    n: usize,
    upto: int,
    further: int,
    next: GraphView,
    to: E,
)
    requires
        0 <= upto <= further,
        compared(b, g, e, n, g.node(n).rank, upto, next, to, false),
    ensures
        compared(b, g, e, n, g.node(n).rank, further, next, to, false),
    decreases further - upto,
{
    if upto < further {
        assert(passes(next, to, false));
        assert(compares(b, next, to, false, n, g.node(n).rank, upto, next, to, false));
        assert(compared(b, g, e, n, g.node(n).rank, upto + 1, next, to, false)) by {
            assert(compared(b, g, e, n, g.node(n).rank, upto + 1 - 1, next, to, false));
        }
        lemma_compared_ended(b, g, e, n, upto + 1, further, next, to);
    }
}


/// The failure a drain holds after one more reaction was dealt with: the
/// first one met, where a reaction that is gone counts as none.
pub open spec fn kept(failed: Option<Error>, done: Result<Update, Error>) -> Option<Error> {
    match done {
        Ok(_) => failed,
        Err(Error::Missing) => failed,
        Err(error) => if failed.is_none() {
            Some(error)
        } else {
            failed
        },
    }
}

/// One queued reaction `r` was dealt with: the evaluator was asked whether
/// it is scheduled; if it is, the evaluator was told that it has to run and
/// the graph was left alone; if not, the reaction was brought up to date as
/// [`updated`] describes, and a failure of that was kept as [`kept`] says.
pub open spec fn tended<E: Evaluator>(
    b: Binds<'_, E>,
    g: GraphView,
    e: E,
    failed: Option<Error>,
    r: usize,
    next: GraphView,
    to: E,
    then: Option<Error>,
) -> bool {
    exists|answer: bool, done: Result<Update, Error>|
        #![trigger passes(next, to, (answer, done))]
        passes(next, to, (answer, done)) && asked(e, r, answer) && if answer {
            reacted(b, r, e, to) && next == g && then == failed
        } else {
            updated(b, g, e, r, next, to, done) && then == kept(failed, done)
        }
}

/// The first `upto` reactions of `queue` were dealt with, in their order,
/// each as [`tended`] describes.
pub open spec fn swept<E: Evaluator>(
    b: Binds<'_, E>,
    g: GraphView,
    e: E,
    failed: Option<Error>,
    queue: Seq<usize>,
    upto: int,
    next: GraphView,
    to: E,
    then: Option<Error>,
) -> bool
    decreases upto,
{
    if upto <= 0 {
        next == g && to == e && then == failed
    } else {
        exists|mid: GraphView, at: E, held: Option<Error>|
            #![trigger passes(mid, at, held)]
            passes(mid, at, held) && swept(b, g, e, failed, queue, upto - 1, mid, at, held)
                && tended(b, mid, at, held, queue[upto - 1], next, to, then)
    }
}

/// `rounds` rounds of a drain were made from the graph `g` and the
/// evaluator `e`: each found the queue not empty, emptied it, and dealt
/// with the reactions it had held, in their order. `failed` is the first
/// failure met.
pub open spec fn coursed<E: Evaluator>(
    b: Binds<'_, E>,
    g: GraphView,
    e: E,
    rounds: int,
    next: GraphView,
    to: E,
    failed: Option<Error>,
) -> bool
    decreases rounds,
{
    if rounds <= 0 {
        next == g && to == e && failed.is_none()
    } else {
        exists|mid: GraphView, at: E, held: Option<Error>|
            #![trigger passes(mid, at, held)]
            passes(mid, at, held) && coursed(b, g, e, rounds - 1, mid, at, held)
                && mid.changed.len() > 0 && swept(
                b,
                GraphView { changed: Seq::empty(), ..mid },
                at,
                held,
                mid.changed,
                mid.changed.len() as int,
                next,
                to,
                failed,
            )
    }
}

/// What a drain ends with: the first failure met, if there was one.
pub open spec fn ended(failed: Option<Error>) -> Result<(), Error> {
    match failed {
        Some(error) => Err(error),
        None => Ok(()),
    }
}

/// The queue of changed reactions was drained from the graph `g` and the
/// evaluator `e`: rounds were made until one found the queue empty, and the
/// drain ended with the first failure met, if any; or `usize::MAX` rounds
/// were made, and the drain gave up with the first failure met or, if
/// there was none, as unsettled.
pub open spec fn drained<E: Evaluator>(
    b: Binds<'_, E>,
    g: GraphView,
    e: E,
    next: GraphView,
    to: E,
    done: Result<(), Error>,
) -> bool {
    exists|rounds: int, failed: Option<Error>|
        #![trigger coursed(b, g, e, rounds, next, to, failed)]
        0 <= rounds <= usize::MAX && coursed(b, g, e, rounds, next, to, failed) && if rounds
            < usize::MAX {
            next.changed.len() == 0 && done == ended(failed)
        } else {
            done == Err::<(), Error>(
                match failed {
                    Some(error) => error,
                    None => Error::Unsettled,
                },
            )
        }
}

/// No round of a drain can be made from an empty queue.
pub proof fn lemma_coursed_empty<E: Evaluator>(
    b: Binds<'_, E>,
    g: GraphView,
    e: E,
    rounds: int,
    next: GraphView,
    to: E,
    failed: Option<Error>,
)
    requires
        g.changed.len() == 0,
        coursed(b, g, e, rounds, next, to, failed),
    ensures
        rounds <= 0,
        next == g,
        to == e,
        failed.is_none(),
    decreases rounds,
{
    if rounds > 0 {
        let (mid, at, held): (GraphView, E, Option<Error>) = choose|
            mid: GraphView,
            at: E,
            held: Option<Error>,
        |
            #![trigger passes(mid, at, held)]
            passes(mid, at, held) && coursed(b, g, e, rounds - 1, mid, at, held)
                && mid.changed.len() > 0;
        lemma_coursed_empty(b, g, e, rounds - 1, mid, at, held);
    }
}

/// A drain of an empty queue does nothing and succeeds.
pub proof fn lemma_drained_empty<E: Evaluator>(
    b: Binds<'_, E>,
    g: GraphView,
    e: E,
    next: GraphView,
    to: E,
    done: Result<(), Error>,
)
    requires
        g.changed.len() == 0,
        drained(b, g, e, next, to, done),
    ensures
        next == g,
        to == e,
        done == Ok::<(), Error>(()),
{
    let (rounds, failed): (int, Option<Error>) = choose|rounds: int, failed: Option<Error>|
        #![trigger coursed(b, g, e, rounds, next, to, failed)]
        0 <= rounds <= usize::MAX && coursed(b, g, e, rounds, next, to, failed) && if rounds
            < usize::MAX {
            next.changed.len() == 0 && done == ended(failed)
        } else {
            done == Err::<(), Error>(
                match failed {
                    Some(error) => error,
                    None => Error::Unsettled,
                },
            )
        };
    lemma_coursed_empty(b, g, e, rounds, next, to, failed);
}

/// The reaction `n` was armed, from the graph `g` and the evaluator `e`. A
/// node that is gone or is no reaction is refused, and nothing changes.
/// Otherwise the reaction is marked as armed and the observer counts
/// follow; the evaluator hears of every node that has become observed by
/// that; and the reaction is then brought up to date as [`updated`]
/// describes, so that it runs unless it is valid already.
pub open spec fn armed<E: Evaluator>(
    b: Binds<'_, E>,
    g: GraphView,
    e: E,
    n: usize,
    next: GraphView,
    to: E,
    done: Result<Update, Error>,
) -> bool {
    match g.arm_refusal(n) {
        Some(error) => done == Err::<Update, Error>(error) && next == g && to == e,
        None => exists|mid: GraphView, at: E|
            #![trigger passes(mid, at, done)]
            passes(mid, at, done) && mid.wf() && g.with_node(
                n,
                NodeView { armed: true, ..g.node(n) },
            ).same_but_counts(mid) && notified(
                b,
                mid,
                observed_flags(g),
                mid.nodes.len() as int,
                e,
                at,
            ) && updated(b, mid, at, n, next, to, done),
    }
}

/// The first `upto` reads of the record `deps` were checked, from the graph
/// `g` and the evaluator `e`, and `same` says whether all of them still
/// hold. Each node recorded was brought up to date as [`updated`]
/// describes, in the order of the record, and the version it publishes
/// then was compared with the one recorded; after the first that failed or
/// differed nothing more was done.
pub open spec fn checked<E: Evaluator>(
    b: Binds<'_, E>,
    g: GraphView,
    e: E,
    deps: Seq<(usize, Version)>,
    upto: int,
    next: GraphView,
    to: E,
    same: bool,
) -> bool
    decreases upto,
{
    if upto <= 0 {
        next == g && to == e && same
    } else {
        exists|mid: GraphView, at: E, still: bool, one: Result<Update, Error>|
            #![trigger passes(mid, at, (still, one))]
            passes(mid, at, (still, one)) && checked(b, g, e, deps, upto - 1, mid, at, still)
                && if still {
                updated(b, mid, at, deps[upto - 1].0, next, to, one) && same == (one.is_ok()
                    && next.node(deps[upto - 1].0).version == deps[upto - 1].1)
            } else {
                next == mid && to == at && !same
            }
    }
}

/// The first `upto` nodes of `list` were brought up to date, one after the
/// other in their order, each as [`updated`] describes, and `done` holds
/// what each of them took.
pub open spec fn updated_all<E: Evaluator>(
    b: Binds<'_, E>,
    g: GraphView,
    e: E,
    list: Seq<usize>,
    upto: int,
    next: GraphView,
    to: E,
    done: Seq<Result<Update, Error>>,
) -> bool
    decreases upto,
{
    if upto <= 0 {
        next == g && to == e
    } else {
        exists|mid: GraphView, at: E|
            #![trigger passes(mid, at, upto)]
            passes(mid, at, upto) && updated_all(b, g, e, list, upto - 1, mid, at, done)
                && updated(b, mid, at, list[upto - 1], next, to, done[upto - 1])
    }
}

/// What was taken by the first nodes of a list does not depend on what is
/// noted for the later ones.
pub proof fn lemma_updated_all_noted<E: Evaluator>(
    b: Binds<'_, E>,
    g: GraphView,
    e: E,
    list: Seq<usize>,
    upto: int,
    next: GraphView,
    to: E,
    done: Seq<Result<Update, Error>>,
    more: Seq<Result<Update, Error>>,
)
    requires
        updated_all(b, g, e, list, upto, next, to, done),
        upto <= done.len() <= more.len(),
        forall|i: int| 0 <= i < upto ==> more[i] == done[i],
    ensures
        updated_all(b, g, e, list, upto, next, to, more),
    decreases upto,
{
    if upto > 0 {
        let (mid, at): (GraphView, E) = choose|mid: GraphView, at: E|
            #![trigger passes(mid, at, upto)]
            passes(mid, at, upto) && updated_all(b, g, e, list, upto - 1, mid, at, done)
                && updated(b, mid, at, list[upto - 1], next, to, done[upto - 1]);
        lemma_updated_all_noted(b, g, e, list, upto - 1, mid, at, done, more);
        assert(passes(mid, at, upto));
    }
}

/// Every reaction in `queue` is valid in `g`, or gone from it.
pub open spec fn at_rest(g: GraphView, queue: Seq<usize>) -> bool {
    forall|i: int|
        0 <= i < queue.len() ==> {
            let r = #[trigger] queue[i];
            !g.has(r) || !g.node(r).alive || g.valid(r)
        }
}

/// Dealing with reactions that are valid or gone leaves the graph and the
/// failure held so far as they were.
pub proof fn lemma_swept_at_rest<E: Evaluator>(
    b: Binds<'_, E>,
    g: GraphView,
    e: E,
    failed: Option<Error>,
    queue: Seq<usize>,
    upto: int,
    next: GraphView,
    to: E,
    then: Option<Error>,
)
    requires
        at_rest(g, queue),
        upto <= queue.len(),
        swept(b, g, e, failed, queue, upto, next, to, then),
    ensures
        next == g,
        then == failed,
    decreases upto,
{
    if upto > 0 {
        let (mid, at, held): (GraphView, E, Option<Error>) = choose|
            mid: GraphView,
            at: E,
            held: Option<Error>,
        |
            #![trigger passes(mid, at, held)]
            passes(mid, at, held) && swept(b, g, e, failed, queue, upto - 1, mid, at, held)
                && tended(b, mid, at, held, queue[upto - 1], next, to, then);
        lemma_swept_at_rest(b, g, e, failed, queue, upto - 1, mid, at, held);
        let r = queue[upto - 1];
        assert(!g.has(r) || !g.node(r).alive || g.valid(r));
    }
}

/// From a queue of reactions that are valid or gone at most one round is
/// made, and it only empties the queue.
pub proof fn lemma_coursed_at_rest<E: Evaluator>(
    b: Binds<'_, E>,
    g: GraphView,
    e: E,
    rounds: int,
    next: GraphView,
    to: E,
    failed: Option<Error>,
)
    requires
        at_rest(g, g.changed),
        rounds > 0,
        coursed(b, g, e, rounds, next, to, failed),
    ensures
        rounds == 1,
        g.changed.len() > 0,
        next == (GraphView { changed: Seq::empty(), ..g }),
        failed.is_none(),
    decreases rounds,
{
    let (mid, at, held): (GraphView, E, Option<Error>) = choose|
        mid: GraphView,
        at: E,
        held: Option<Error>,
    |
        #![trigger passes(mid, at, held)]
        passes(mid, at, held) && coursed(b, g, e, rounds - 1, mid, at, held) && mid.changed.len()
            > 0 && swept(
            b,
            GraphView { changed: Seq::empty(), ..mid },
            at,
            held,
            mid.changed,
            mid.changed.len() as int,
            next,
            to,
            failed,
        );
    if rounds > 1 {
        lemma_coursed_at_rest(b, g, e, rounds - 1, mid, at, held);
        assert(false);
    } else {
        let emptied = GraphView { changed: Seq::empty(), ..g };
        assert(at_rest(emptied, g.changed)) by {
            assert forall|i: int| 0 <= i < g.changed.len() implies {
                let r = #[trigger] g.changed[i];
                !emptied.has(r) || !emptied.node(r).alive || emptied.valid(r)
            } by {
                let r = g.changed[i];
                assert(emptied.has(r) == g.has(r));
                assert(emptied.node(r) == g.node(r));
                assert(emptied.valid(r) == g.valid(r));
            }
        }
        lemma_swept_at_rest(
            b,
            emptied,
            at,
            held,
            g.changed,
            g.changed.len() as int,
            next,
            to,
            failed,
        );
    }
}

/// A drain of a queue whose reactions are all valid or gone runs no
/// function: it succeeds and only empties the queue.
pub proof fn lemma_drained_at_rest<E: Evaluator>(
    b: Binds<'_, E>,
    g: GraphView,
    e: E,
    next: GraphView,
    to: E,
    done: Result<(), Error>,
)
    requires
        at_rest(g, g.changed),
        drained(b, g, e, next, to, done),
    ensures
        next == (GraphView { changed: Seq::empty(), ..g }),
        done == Ok::<(), Error>(()),
{
    let (rounds, failed): (int, Option<Error>) = choose|rounds: int, failed: Option<Error>|
        #![trigger coursed(b, g, e, rounds, next, to, failed)]
        0 <= rounds <= usize::MAX && coursed(b, g, e, rounds, next, to, failed) && if rounds
            < usize::MAX {
            next.changed.len() == 0 && done == ended(failed)
        } else {
            done == Err::<(), Error>(
                match failed {
                    Some(error) => error,
                    None => Error::Unsettled,
                },
            )
        };
    if rounds > 0 {
        lemma_coursed_at_rest(b, g, e, rounds, next, to, failed);
    } else {
        assert(next.changed =~= Seq::<usize>::empty());
    }
}

/// The rounds of a drain begin with one in which every reaction that was
/// queued at the start is dealt with once, in the order of the queue; and
/// if no reaction is queued when that round ends, it is the only one.
pub proof fn lemma_coursed_first<E: Evaluator>(
    b: Binds<'_, E>,
    g: GraphView,
    e: E,
    rounds: int,
    next: GraphView,
    to: E,
    failed: Option<Error>,
) -> (first: (GraphView, E, Option<Error>))
    requires
        rounds >= 1,
        coursed(b, g, e, rounds, next, to, failed),
    ensures
        g.changed.len() > 0,
        swept(
            b,
            GraphView { changed: Seq::empty(), ..g },
            e,
            None,
            g.changed,
            g.changed.len() as int,
            first.0,
            first.1,
            first.2,
        ),
        first.0.changed.len() == 0 ==> rounds == 1 && next == first.0 && to == first.1 && failed
            == first.2,
    decreases rounds,
{
    let (mid, at, held): (GraphView, E, Option<Error>) = choose|
        mid: GraphView,
        at: E,
        held: Option<Error>,
    |
        #![trigger passes(mid, at, held)]
        passes(mid, at, held) && coursed(b, g, e, rounds - 1, mid, at, held) && mid.changed.len()
            > 0 && swept(
            b,
            GraphView { changed: Seq::empty(), ..mid },
            at,
            held,
            mid.changed,
            mid.changed.len() as int,
            next,
            to,
            failed,
        );
    if rounds == 1 {
        (next, to, failed)
    } else {
        lemma_coursed_first(b, g, e, rounds - 1, mid, at, held)
    }
}

/// A drain of a queue that is not empty deals with every reaction in it
/// once, in the order of the queue: a scheduled one is told, any other is
/// brought up to date. If no reaction is queued when that is done, nothing
/// else is run, and the drain ends with the first failure met, if any.
pub proof fn lemma_drained_once<E: Evaluator>(
    b: Binds<'_, E>,
    g: GraphView,
    e: E,
    next: GraphView,
    to: E,
    done: Result<(), Error>,
) -> (first: (GraphView, E, Option<Error>))
    requires
        g.changed.len() > 0,
        drained(b, g, e, next, to, done),
    ensures
        swept(
            b,
            GraphView { changed: Seq::empty(), ..g },
            e,
            None,
            g.changed,
            g.changed.len() as int,
            first.0,
            first.1,
            first.2,
        ),
        first.0.changed.len() == 0 ==> next == first.0 && to == first.1 && done == ended(first.2),
{
    let (rounds, failed): (int, Option<Error>) = choose|rounds: int, failed: Option<Error>|
        #![trigger coursed(b, g, e, rounds, next, to, failed)]
        0 <= rounds <= usize::MAX && coursed(b, g, e, rounds, next, to, failed) && if rounds
            < usize::MAX {
            next.changed.len() == 0 && done == ended(failed)
        } else {
            done == Err::<(), Error>(
                match failed {
                    Some(error) => error,
                    None => Error::Unsettled,
                },
            )
        };
    lemma_coursed_first(b, g, e, rounds, next, to, failed)
}

/// A write of `version` to node `n` as a batch of its own. A version that
/// the node publishes already changes nothing. A new one is published as
/// [`GraphView::publishes`] describes; inside a batch, or while a deferred
/// drain is scheduled, that is all. Otherwise a batch is opened for the
/// write, the queue is drained as [`drained`] describes before the batch is
/// closed, and the write fails with what the drain failed with.
pub open spec fn published<E: Evaluator>(
    b: Binds<'_, E>,
    g: GraphView,
    e: E,
    n: usize,
    version: Version,
    kind: Invalid,
    next: GraphView,
    to: E,
    done: Result<bool, Error>,
) -> bool {
    if version == g.node(n).version {
        done == Ok::<bool, Error>(false) && next == g && to == e
    } else if g.started || g.microtask {
        done == Ok::<bool, Error>(true) && g.publishes(next, n, version, kind) && to == e
    } else {
        exists|mid: GraphView, last: GraphView, end: Result<(), Error>|
            #![trigger passes(mid, last, end)]
            passes(mid, last, end) && (GraphView { started: true, ..g }).publishes(
                mid,
                n,
                version,
                kind,
            ) && drained(b, mid, e, last, to, end) && next == (GraphView {
                started: false,
                ..last
            }) && done == (match end {
                Ok(_) => Ok::<bool, Error>(true),
                Err(error) => Err(error),
            })
    }
}

/// `func` was called with the graph `g` and the evaluator `e` and left
/// `next` and `to`.
pub open spec fn called<E: Evaluator, F: FnOnce(&mut Graph, &mut E)>(
    b: Binds<'_, E>,
    func: F,
    g: GraphView,
    e: E,
    next: GraphView,
    to: E,
) -> bool {
    exists|graph: &mut Graph, slot: &mut E|
        (b.graph)(graph, g, next) && (b.ev)(slot, e, to) && #[trigger] call_ensures(
            func,
            (graph, slot),
            (),
        )
}

/// `func` was run as a batch. Inside a batch it was simply called. At the
/// root a batch was opened for the call; then, unless a deferred drain was
/// scheduled by that time, the queue was drained as [`drained`] describes,
/// and the batch was closed.
pub open spec fn batched<E: Evaluator, F: FnOnce(&mut Graph, &mut E)>(
    b: Binds<'_, E>,
    func: F,
    g: GraphView,
    e: E,
    next: GraphView,
    to: E,
    done: Result<(), Error>,
) -> bool {
    if g.started {
        called(b, func, g, e, next, to) && done.is_ok()
    } else {
        exists|mid: GraphView, at: E, last: GraphView|
            #![trigger passes(mid, at, last)]
            passes(mid, at, last) && called(b, func, GraphView { started: true, ..g }, e, mid, at)
                && next == (GraphView { started: false, ..last }) && if mid.microtask {
                last == mid && to == at && done.is_ok()
            } else {
                drained(b, mid, at, last, to, done)
            }
    }
}

/// The deferred drain was made: the queue was drained as a batch of its
/// own, and no drain is scheduled any more.
pub open spec fn deferred<E: Evaluator>(
    b: Binds<'_, E>,
    g: GraphView,
    e: E,
    next: GraphView,
    to: E,
    done: Result<(), Error>,
) -> bool {
    exists|last: GraphView|
        #![trigger passes(last, to, done)]
        passes(last, to, done) && drained(b, GraphView { started: true, ..g }, e, last, to, done)
            && next == (GraphView { started: g.started, microtask: false, ..last })
}

} // verus!
