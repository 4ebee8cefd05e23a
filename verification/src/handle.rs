//! What the handles on the different kinds of node have in common.

use vstd::prelude::*;
use crate::computed::Computed;
use crate::future::Async;
use crate::evaluation::Evaluation;
use crate::graph::Graph;
use crate::model::GraphView;
use crate::runs::{updated, Binds};
use crate::reaction::Reaction;
use crate::state::{Error, Invalid, Invalidate, State, Version};
use crate::update::{Evaluator, Update};
use crate::var::Var;

verus! {

/// A handle stands for one node of a graph.
pub trait Handle {
    /// The node the handle stands for.
    spec fn node_id(&self) -> usize;

    /// The node the handle stands for.
    fn node_of(&self) -> (n: usize)
        ensures
            n == self.node_id(),
    ;
}

/// A node that is computed from others, and can therefore be asked to
/// become invalid.
pub trait Derived: Handle {
    /// Asks the node to become invalid to the degree `invalid`. If the node
    /// was valid, every valid node that depends on it becomes possibly
    /// invalid, and the reactions among those that lost their validity are
    /// queued. Outside a batch, a request that would queue a reaction is
    /// refused.
    fn invalidate(&self, graph: &mut Graph, invalid: Invalid) -> (done: Result<(), Error>)
        requires
            old(graph).wf(),
            old(graph)@.has(self.node_id()),
        ensures
            final(graph).wf(),
            done.is_err() <==> !old(graph)@.started && old(graph)@.queues(
                self.node_id(),
                Invalidate::SelfAndDeps,
            ),
            done.is_err() ==> done == Err::<(), Error>(Error::NotInBatch) && final(graph)@ == old(graph)@,
            done.is_ok() ==> old(graph)@.expires(final(graph)@, self.node_id(), invalid),
    {
        graph.invalidate(self.node_of(), invalid, Invalidate::SelfAndDeps)
    }
}

/// A node that is rerun when the queue of changed reactions is drained.
pub trait Reactive: Handle {
    /// Brings the node up to date: it runs only if something it has read
    /// has changed.
    fn update<E: Evaluator>(&self, graph: &mut Graph, ev: &mut E) -> (done: Result<Update, Error>)
        requires
            old(graph).wf(),
        ensures
            final(graph).wf(),
            old(graph)@.evolves(final(graph)@),
            !old(graph)@.has(self.node_id()) || !old(graph)@.node(self.node_id()).alive ==> done
                == Err::<Update, Error>(Error::Missing) && final(graph)@ == old(graph)@ && *final(ev)
                == *old(ev),
            done.is_ok() ==> final(graph)@.has(self.node_id()) && final(graph)@.valid(
                self.node_id(),
            ),
            old(graph)@.quiet(self.node_id()) ==> {
                &&& done == Ok::<Update, Error>(
                    if old(graph)@.valid(self.node_id()) {
                        Update::Unchanged
                    } else {
                        Update::Revalidated
                    },
                )
                &&& old(graph)@.calmed(final(graph)@, self.node_id())
                &&& *final(ev) == *old(ev)
            },
            old(graph)@.settled(self.node_id()) ==> final(graph)@ == old(graph)@.with_state(
                self.node_id(),
                State::Valid,
            ),
            updated(
                (Binds {
                    ev: |r: &mut E, a: E, b: E| *r == a && *final(r) == b,
                    graph: |r: &mut Graph, a: GraphView, b: GraphView| r@ == a && final(r)@ == b,
                    cx: |r: &mut Evaluation, n: usize, a: Seq<(usize, Version)>, b: Seq<(usize, Version)>|
                        r.parent_id() == n && r@ == a && final(r)@ == b,
                }),
                old(graph)@,
                *old(ev),
                self.node_id(),
                final(graph)@,
                *final(ev),
                done,
            ),
    {
        graph.update(self.node_of(), ev)
    }
}

impl<T> Handle for Var<T> {
    open spec fn node_id(&self) -> usize {
        self.id()
    }

    fn node_of(&self) -> usize {
        self.node()
    }
}

impl<T> Handle for Computed<T> {
    open spec fn node_id(&self) -> usize {
        self.id()
    }

    fn node_of(&self) -> usize {
        self.node()
    }
}

impl<T> Derived for Computed<T> {

}

impl Handle for Async {
    open spec fn node_id(&self) -> usize {
        self.id()
    }

    fn node_of(&self) -> usize {
        self.node()
    }
}

impl Derived for Async {

}

impl Handle for Reaction {
    open spec fn node_id(&self) -> usize {
        self.id()
    }

    fn node_of(&self) -> usize {
        self.node()
    }
}

impl Derived for Reaction {

}

impl Reactive for Reaction {

}

} // verus!
