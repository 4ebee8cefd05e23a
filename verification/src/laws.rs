//! What holds of the graph as a whole, beyond the contract of any single
//! operation.

use vstd::prelude::*;
use crate::dependencies::reads;
use crate::invalidate::{lemma_depends_on_same_reads, lemma_depends_on_trans};
use crate::model::{saturated, GraphView, NodeView};
use crate::state::{Invalid, Kind, State, Version};

verus! {

/// How often `r` occurs in `queue`.
pub open spec fn occurrences(queue: Seq<usize>, r: usize) -> nat
    decreases queue.len(),
{
    if queue.len() == 0 {
        0
    } else {
        occurrences(queue.drop_last(), r) + if queue.last() == r {
            1nat
        } else {
            0nat
        }
    }
}

/// `next` is `self` after `version` was written to node `s` inside a batch:
/// nothing has happened if the node published that version already,
/// otherwise the version was published and the readers of `s` became
/// definitely invalid.
pub open spec fn written(g: GraphView, h: GraphView, s: usize, version: Version) -> bool {
    g.has(s) && if version == g.node(s).version {
        h == g
    } else {
        g.publishes(h, s, version, Invalid::Definitely)
    }
}

/// If a node that another has read has changed its version since, the
/// reader is not valid.
pub proof fn lemma_changed_upstream_invalidates(g: GraphView, n: usize, i: int)
    requires
        g.wf(),
        g.has(n),
        0 <= i < g.node(n).dependencies.len(),
        g.node(g.node(n).dependencies[i].0).version != g.node(n).dependencies[i].1,
    ensures
        !g.valid(n),
{
    if g.valid(n) {
        assert(g.fresh(g.node(n).dependencies));
    }
}

/// A valid node is not recomputed when it is read: it is settled, and
/// bringing a settled node up to date runs nothing.
pub proof fn lemma_valid_is_settled(g: GraphView, n: usize)
    requires
        g.wf(),
        g.has(n),
        g.valid(n),
    ensures
        g.settled(n),
{
    let a = g.node(n);
}

/// A node that is only possibly invalid is not recomputed if everything it
/// has read is valid and still has the version that was seen, unless its
/// function is being run at this very time.
pub proof fn lemma_unchanged_reads_settle(g: GraphView, n: usize)
    requires
        g.wf(),
        g.has(n),
        g.node(n).alive,
        !g.node(n).busy,
        g.node(n).state == State::Invalid(Invalid::Maybe),
        g.fresh(g.node(n).dependencies),
    ensures
        g.settled(n),
        g.with_state(n, State::Valid).wf(),
{
    crate::evaluate::lemma_with_state_valid_wf(g, n);
}

/// A node that has only been marked as possibly invalid, while nothing it
/// depends on has changed and no function is being run, is quiet: reading
/// it runs no function, neither its own nor that of any node below it.
pub proof fn lemma_marked_is_quiet(g: GraphView, h: GraphView, s: usize, x: usize)
    requires
        g.wf(),
        g.idle(),
        g.has(s),
        g.valid(s),
        g.expires(h, s, Invalid::Maybe),
        g.has(x),
        g.valid(x),
    ensures
        h.quiet(x),
        x == s || g.depends_on(x, s) ==> h.node(x).state == State::Invalid(Invalid::Maybe),
    decreases g.node(x).rank,
{
    let a = g.node(x);
    let b = h.node(x);
    assert(h.node(x).state == g.state_after_expire(s, Invalid::Maybe, x));
    assert(h.node(x) == (NodeView { state: h.node(x).state, ..g.node(x) }));
    let deps = g.node(x).dependencies;
    assert(g.fresh(deps));
    if !h.valid(x) {
        assert forall|i: int| 0 <= i < deps.len() implies {
            let e = #[trigger] deps[i];
            h.under(e.0, x) && h.quiet(e.0) && h.node(e.0).version == e.1
        } by {
            let u = deps[i].0;
            assert(g.has(u) && g.valid(u) && g.node(u).version == deps[i].1);
            assert(g.uses(x, u));
            assert(g.under(u, x));
            assert(h.node(u) == (NodeView { state: h.node(u).state, ..g.node(u) }));
            lemma_marked_is_quiet(g, h, s, u);
        }
    }
}

/// A write makes definitely invalid only the nodes that have read the
/// written node itself. Any other node keeps its state or goes from valid to
/// possibly invalid, and keeps what it has read: whether it is recomputed
/// is then decided by the versions of what it has read.
pub proof fn lemma_write_spares_other_readers(
    g: GraphView,
    h: GraphView,
    s: usize,
    version: Version,
    n: usize,
)
    requires
        written(g, h, s, version),
        g.has(n),
        !g.uses(n, s),
    ensures
        h.node(n).state == g.node(n).state || (g.valid(n) && h.node(n).state == State::Invalid(
            Invalid::Maybe,
        )),
        h.node(n).dependencies == g.node(n).dependencies,
        n != s ==> h.node(n).version == g.node(n).version,
{
    if version != g.node(s).version {
        let first = g.with_version(s, version);
        assert(h.node(n) == (NodeView { state: h.node(n).state, ..first.node(n) }));
        assert(h.node(n).state == first.state_after_spread(s, Invalid::Definitely, n));
        assert(first.node(n).dependencies == g.node(n).dependencies);
        assert(first.uses(n, s) == g.uses(n, s));
    }
}

/// Writing to a node the version it publishes already changes nothing:
/// no node loses its validity and no reaction is queued.
pub proof fn lemma_same_version_changes_nothing(g: GraphView, h: GraphView, s: usize)
    requires
        written(g, h, s, g.node(s).version),
    ensures
        h == g,
{
}

/// The reactions that an operation has queued are in the queue once each.
pub proof fn lemma_queued_occurrences(g: GraphView, h: GraphView, r: usize)
    requires
        g.queued(h),
        g.has(r),
        g.node(r).kind == Kind::Reaction,
    ensures
        occurrences(h.changed, r) == occurrences(g.changed, r) + if g.valid(r) && !h.valid(r) {
            1nat
        } else {
            0nat
        },
{
    let start = g.changed.len() as int;
    lemma_queued_prefix(g, h, r, h.changed.len() as int);
    assert(h.changed.take(h.changed.len() as int) =~= h.changed);
    if g.valid(r) && !h.valid(r) {
        let i = choose|i: int| start <= i < h.changed.len() && #[trigger] h.changed[i] == r;
        assert(queued_between(h.changed, start, h.changed.len() as int, r));
    } else {
        if queued_between(h.changed, start, h.changed.len() as int, r) {
            let i = choose|i: int| start <= i < h.changed.len() && #[trigger] h.changed[i] == r;
            assert(g.valid(r) && !h.valid(r));
        }
    }
}

/// An operation that takes the validity of no reaction leaves the queue as
/// it was.
pub proof fn lemma_queued_nothing(g: GraphView, h: GraphView)
    requires
        g.queued(h),
        forall|r: usize|
            g.has(r) && g.node(r).kind == Kind::Reaction && g.valid(r) ==> #[trigger] h.valid(r),
    ensures
        h.changed == g.changed,
{
    if h.changed.len() > g.changed.len() {
        let r = h.changed[g.changed.len() as int];
        assert(g.valid(r) && !h.valid(r));
    }
    assert(h.changed =~= g.changed);
}

/// Whether `r` is one of the entries `from..to` of `queue`.
pub open spec fn queued_between(queue: Seq<usize>, from: int, to: int, r: usize) -> bool {
    exists|i: int| from <= i < to && i < queue.len() && #[trigger] queue[i] == r
}

/// [`lemma_queued_occurrences`], for the first `upto` entries of the queue.
proof fn lemma_queued_prefix(g: GraphView, h: GraphView, r: usize, upto: int)
    requires
        g.queued(h),
        g.changed.len() <= upto <= h.changed.len(),
    ensures
        occurrences(h.changed.take(upto), r) == occurrences(g.changed, r) + if queued_between(
            h.changed,
            g.changed.len() as int,
            upto,
            r,
        ) {
            1nat
        } else {
            0nat
        },
    decreases upto,
{
    let start = g.changed.len() as int;
    if upto == start {
        assert(h.changed.take(upto) =~= g.changed);
    } else {
        lemma_queued_prefix(g, h, r, upto - 1);
        let now = h.changed.take(upto);
        assert(now.drop_last() =~= h.changed.take(upto - 1));
        assert(now.last() == h.changed[upto - 1]);
        if h.changed[upto - 1] == r {
            if queued_between(h.changed, start, upto - 1, r) {
                let i = choose|i: int|
                    start <= i < upto - 1 && i < h.changed.len() && #[trigger] h.changed[i] == r;
                assert(h.changed[i] != h.changed[upto - 1]);
            }
            assert(queued_between(h.changed, start, upto, r));
        } else {
            if queued_between(h.changed, start, upto, r) {
                let i = choose|i: int|
                    start <= i < upto && i < h.changed.len() && #[trigger] h.changed[i] == r;
                assert(queued_between(h.changed, start, upto - 1, r));
            }
            if queued_between(h.changed, start, upto - 1, r) {
                let i = choose|i: int|
                    start <= i < upto - 1 && i < h.changed.len() && #[trigger] h.changed[i] == r;
                assert(queued_between(h.changed, start, upto, r));
            }
        }
    }
}

/// `chain` holds the graph before, between and after the writes `writes`.
pub open spec fn batch_of_writes(chain: Seq<GraphView>, writes: Seq<(usize, Version)>) -> bool {
    &&& chain.len() == writes.len() + 1
    &&& forall|i: int|
        0 <= i < writes.len() ==> written(
            #[trigger] chain[i],
            chain[i + 1],
            writes[i].0,
            writes[i].1,
        )
}

/// Whether one of the first `upto` writes changed the version of a node
/// that `r` depends on in `g`.
pub open spec fn touches(
    chain: Seq<GraphView>,
    writes: Seq<(usize, Version)>,
    g: GraphView,
    r: usize,
    upto: int,
) -> bool {
    exists|i: int|
        0 <= i < upto && i < writes.len() && (#[trigger] writes[i]).1 != chain[i].node(
            writes[i].0,
        ).version && g.depends_on(r, writes[i].0)
}

/// Whether one of the first `upto` writes changed the version of a node
/// that `r` has read itself in `g`.
pub open spec fn touches_directly(
    chain: Seq<GraphView>,
    writes: Seq<(usize, Version)>,
    g: GraphView,
    r: usize,
    upto: int,
) -> bool {
    exists|i: int|
        0 <= i < upto && i < writes.len() && (#[trigger] writes[i]).1 != chain[i].node(
            writes[i].0,
        ).version && g.uses(r, writes[i].0)
}

/// However many writes a batch makes, a reaction that was valid before is
/// queued at most once by them: exactly once if one of the writes changed
/// the version of a node the reaction depends on, and not at all otherwise.
/// If one of them changed the version of a node the reaction has read
/// itself, the reaction is definitely invalid afterwards, so that it is
/// rerun when the queue is drained.
pub proof fn lemma_batch_queues_once(
    chain: Seq<GraphView>,
    writes: Seq<(usize, Version)>,
    r: usize,
)
    requires
        batch_of_writes(chain, writes),
        chain[0].wf(),
        chain[0].has(r),
        chain[0].node(r).kind == Kind::Reaction,
        chain[0].valid(r),
    ensures
        chain.last().valid(r) <==> !touches(chain, writes, chain[0], r, writes.len() as int),
        occurrences(chain.last().changed, r) == occurrences(chain[0].changed, r) + if touches(
            chain,
            writes,
            chain[0],
            r,
            writes.len() as int,
        ) {
            1nat
        } else {
            0nat
        },
        touches_directly(chain, writes, chain[0], r, writes.len() as int) ==> chain.last().node(
            r,
        ).state == State::Invalid(Invalid::Definitely),
{
    lemma_batch_prefix(chain, writes, r, writes.len() as int);
}

/// [`lemma_batch_queues_once`], for the first `upto` writes.
proof fn lemma_batch_prefix(
    chain: Seq<GraphView>,
    writes: Seq<(usize, Version)>,
    r: usize,
    upto: int,
)
    requires
        batch_of_writes(chain, writes),
        chain[0].wf(),
        chain[0].has(r),
        chain[0].node(r).kind == Kind::Reaction,
        chain[0].valid(r),
        0 <= upto <= writes.len(),
    ensures
        chain[0].same_reads(chain[upto]),
        chain[upto].node(r).kind == Kind::Reaction,
        chain[upto].valid(r) <==> !touches(chain, writes, chain[0], r, upto),
        occurrences(chain[upto].changed, r) == occurrences(chain[0].changed, r) + if touches(
            chain,
            writes,
            chain[0],
            r,
            upto,
        ) {
            1nat
        } else {
            0nat
        },
        touches_directly(chain, writes, chain[0], r, upto) ==> chain[upto].node(r).state
            == State::Invalid(Invalid::Definitely),
    decreases upto,
{
    let first = chain[0];
    if upto == 0 {
    } else {
        lemma_batch_prefix(chain, writes, r, upto - 1);
        let g = chain[upto - 1];
        let h = chain[upto];
        let s = writes[upto - 1].0;
        let version = writes[upto - 1].1;
        assert(written(g, h, s, version));
        let fresh_write = version != g.node(s).version;
        // what the earlier writes touched, the later ones have touched too
        assert(touches(chain, writes, first, r, upto - 1) ==> touches(
            chain,
            writes,
            first,
            r,
            upto,
        )) by {
            if touches(chain, writes, first, r, upto - 1) {
                let i = choose|i: int|
                    0 <= i < upto - 1 && i < writes.len() && (#[trigger] writes[i]).1
                        != chain[i].node(writes[i].0).version && first.depends_on(r, writes[i].0);
                assert(0 <= i < upto);
            }
        }
        assert(touches_directly(chain, writes, first, r, upto - 1) ==> touches_directly(
            chain,
            writes,
            first,
            r,
            upto,
        )) by {
            if touches_directly(chain, writes, first, r, upto - 1) {
                let i = choose|i: int|
                    0 <= i < upto - 1 && i < writes.len() && (#[trigger] writes[i]).1
                        != chain[i].node(writes[i].0).version && first.uses(r, writes[i].0);
                assert(0 <= i < upto);
            }
        }
        assert(touches(chain, writes, first, r, upto) ==> touches(chain, writes, first, r, upto - 1)
            || (fresh_write && first.depends_on(r, s))) by {
            if touches(chain, writes, first, r, upto) {
                let i = choose|i: int|
                    0 <= i < upto && i < writes.len() && (#[trigger] writes[i]).1 != chain[i].node(
                        writes[i].0,
                    ).version && first.depends_on(r, writes[i].0);
                if i < upto - 1 {
                    assert(touches(chain, writes, first, r, upto - 1));
                }
            }
        }
        assert(touches_directly(chain, writes, first, r, upto) ==> touches_directly(
            chain,
            writes,
            first,
            r,
            upto - 1,
        ) || (fresh_write && first.uses(r, s))) by {
            if touches_directly(chain, writes, first, r, upto) {
                let i = choose|i: int|
                    0 <= i < upto && i < writes.len() && (#[trigger] writes[i]).1 != chain[i].node(
                        writes[i].0,
                    ).version && first.uses(r, writes[i].0);
                if i < upto - 1 {
                    assert(touches_directly(chain, writes, first, r, upto - 1));
                }
            }
        }
        if fresh_write {
            let mid = g.with_version(s, version);
            assert(g.same_reads(mid));
            assert(first.same_reads(h)) by {
                assert forall|x: usize| first.has(x) implies (#[trigger] h.node(x)).dependencies
                    == first.node(x).dependencies by {
                    assert(h.node(x) == (NodeView { state: h.node(x).state, ..mid.node(x) }));
                    assert(g.node(x).dependencies == first.node(x).dependencies);
                }
            }
            assert(h.node(r) == (NodeView { state: h.node(r).state, ..mid.node(r) }));
            assert(h.node(r).state == mid.state_after_spread(s, Invalid::Definitely, r));
            lemma_depends_on_same_reads(first, g, r, s);
            lemma_depends_on_same_reads(g, mid, r, s);
            assert(mid.uses(r, s) == first.uses(r, s)) by {
                assert(mid.node(r).dependencies == first.node(r).dependencies);
            }
            assert(mid.valid(r) == g.valid(r));
            if first.uses(r, s) {
                lemma_uses_depends(first, r, s);
                assert(touches(chain, writes, first, r, upto)) by {
                    assert(writes[upto - 1].1 != chain[upto - 1].node(writes[upto - 1].0).version);
                }
                assert(touches_directly(chain, writes, first, r, upto)) by {
                    assert(writes[upto - 1].1 != chain[upto - 1].node(writes[upto - 1].0).version);
                }
            } else if first.depends_on(r, s) {
                assert(touches(chain, writes, first, r, upto)) by {
                    assert(writes[upto - 1].1 != chain[upto - 1].node(writes[upto - 1].0).version);
                }
            }
            assert(mid.queued(h));
            assert(g.queued(h)) by {
                assert(mid.changed == g.changed);
                assert forall|i: int| g.changed.len() <= i < h.changed.len() implies {
                    let x = #[trigger] h.changed[i];
                    g.has(x) && g.node(x).kind == Kind::Reaction && g.valid(x) && !h.valid(x)
                } by {
                    let x = h.changed[i];
                    assert(mid.has(x) && mid.node(x).kind == Kind::Reaction && mid.valid(x));
                }
                assert forall|x: usize|
                    g.has(x) && g.node(x).kind == Kind::Reaction && g.valid(x) && !(
                    #[trigger] h.valid(x)) implies exists|i: int|
                    g.changed.len() <= i < h.changed.len() && #[trigger] h.changed[i] == x by {
                    assert(mid.node(x).kind == Kind::Reaction && mid.valid(x));
                }
            }
            lemma_queued_occurrences(g, h, r);
        } else {
            assert(h == g);
        }
    }
}

/// A node depends on what it has read.
pub proof fn lemma_uses_depends(g: GraphView, x: usize, s: usize)
    requires
        g.has(x),
        g.uses(x, s),
        g.has(s),
        g.under(s, x),
    ensures
        g.depends_on(x, s),
{
    let i = choose|i: int|
        0 <= i < g.node(x).dependencies.len() && (#[trigger] g.node(x).dependencies[i]).0 == s;
    assert(g.node(x).dependencies[i].0 == s);
}


/// Every node that reads `n` adds its own weight to the chains that reach
/// `n`.
proof fn lemma_paths_at_least(g: GraphView, n: usize, i: int, upto: int)
    requires
        g.shaped(),
        g.has(n),
        0 <= i < upto <= g.node(n).dependents.len(),
    ensures
        g.paths_upto(n, upto) >= g.weight(g.node(n).dependents[i]),
    decreases upto,
{
    let d = g.node(n).dependents[upto - 1];
    assert(g.feeds(n, d));
    assert(g.uses(d, n));
    if i < upto - 1 {
        lemma_paths_at_least(g, n, i, upto - 1);
    }
}

/// A node that carries weight passes it on to everything it depends on.
proof fn lemma_weight_reaches(g: GraphView, x: usize, n: usize)
    requires
        g.shaped(),
        g.weight(x) > 0,
        g.depends_on(x, n),
    ensures
        g.paths(n) > 0,
    decreases g.node(x).rank,
{
    let i = choose|i: int|
        0 <= i < g.node(x).dependencies.len() && {
            let u = (#[trigger] g.node(x).dependencies[i]).0;
            g.under(u, x) && (u == n || g.depends_on(u, n))
        };
    let u = g.node(x).dependencies[i].0;
    assert(g.uses(x, u));
    assert(g.feeds(u, x));
    let j = choose|j: int| 0 <= j < g.node(u).dependents.len() && g.node(u).dependents[j] == x;
    lemma_paths_at_least(g, u, j, g.node(u).dependents.len() as int);
    if u != n {
        lemma_weight_reaches(g, u, n);
    }
}

/// Where chains arrive, an armed reaction stands at the start of one.
proof fn lemma_paths_reached(g: GraphView, n: usize, upto: int) -> (r: usize)
    requires
        g.shaped(),
        g.has(n),
        g.paths_upto(n, upto) > 0,
    ensures
        g.observed_by(n, r),
    decreases usize::MAX - g.node(n).rank, upto,
{
    let d = g.node(n).dependents[upto - 1];
    assert(g.feeds(n, d));
    assert(g.uses(d, n));
    assert(g.under(n, d) && g.node(d).rank <= usize::MAX);
    lemma_uses_depends(g, d, n);
    if g.node(d).armed {
        d
    } else if g.paths_upto(d, g.node(d).dependents.len() as int) > 0 {
        let r = lemma_paths_reached(g, d, g.node(d).dependents.len() as int);
        lemma_depends_on_trans(g, r, d, n);
        r
    } else {
        lemma_paths_reached(g, n, upto - 1)
    }
}

/// The observer count of a node is the number of chains of reads that lead
/// to it from an armed reaction, as long as that number fits into 64 bits.
pub proof fn lemma_observers_count_chains(g: GraphView, n: usize)
    requires
        g.wf(),
        g.has(n),
        g.paths(n) <= u64::MAX,
    ensures
        g.node(n).observers == g.paths(n),
{
}

/// A node is observed, that is, its observer count is not zero, exactly if
/// a chain of reads leads to it from an armed reaction.
pub proof fn lemma_observed_iff_reached(g: GraphView, n: usize)
    requires
        g.wf(),
        g.has(n),
    ensures
        g.node(n).observers > 0 <==> exists|r: usize| g.observed_by(n, r),
{
    assert(g.node(n).observers == saturated(g.paths(n)));
    if g.paths(n) > 0 {
        let r = lemma_paths_reached(g, n, g.node(n).dependents.len() as int);
        assert(g.observed_by(n, r));
    }
    if exists|r: usize| g.observed_by(n, r) {
        let r = choose|r: usize| g.observed_by(n, r);
        lemma_weight_reaches(g, r, n);
    }
}

/// A node can be registered as a reader of any node but itself and the
/// nodes that have read it, whenever the two were created, as long as
/// ranks are left to raise it to; and of a node that has read nothing, no
/// node has been read by it.
pub proof fn lemma_any_node_is_read(g: GraphView, reader: usize, n: usize)
    requires
        g.wf(),
        g.has(n),
        n != reader,
        g.node(n).dependencies.len() == 0 || !g.depends_on(n, reader),
        forall|x: usize| g.has(x) ==> (#[trigger] g.node(x)).rank + g.node(n).rank < usize::MAX,
    ensures
        g.register_refusal(reader, n).is_none(),
{
    assert(!g.depends_on(n, reader));
    assert forall|x: usize| g.has(x) && g.rises(reader, x) implies #[trigger] g.raised(
        reader,
        n,
        x,
    ) <= usize::MAX by {
        assert(g.node(x).rank + g.node(n).rank < usize::MAX);
    }
}

} // verus!
