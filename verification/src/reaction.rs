//! Reactions: side effects that are rerun when what they have read changes.

use vstd::prelude::*;
use crate::graph::Graph;
use crate::state::{Error, Kind, State, Version};
use crate::evaluation::Evaluation;
use crate::model::{GraphView, NodeView};
use crate::runs::{armed, evaluates, failure, observed_flags, passes, updated, Binds};
use crate::update::{notify, Evaluator, Update};

verus! {

/// A handle on a reaction node.
#[derive(Clone, Copy)]
pub struct Reaction {
    node: usize,
    name: &'static str,
}

impl Reaction {
    /// The node that stands for this reaction.
    pub closed spec fn id(&self) -> usize {
        self.node
    }

    /// The name the reaction was given when it was created.
    pub closed spec fn name_of(&self) -> Seq<char> {
        self.name@
    }

    /// Creates a reaction without a name.
    #[must_use]
    pub fn new(graph: &mut Graph) -> (reaction: Self)
        requires
            old(graph).wf(),
            old(graph)@.nodes.len() < usize::MAX,
        ensures
            final(graph).wf(),
            reaction.id() == old(graph)@.nodes.len(),
            reaction.name_of() == "<unnamed>"@,
            final(graph)@ == old(graph)@.with_new(Kind::Reaction, Version::Hash(0)),
    {
        Self::new_with_name(graph, "<unnamed>")
    }

    /// Creates a reaction. Like every new node it starts definitely
    /// invalid; it is not armed, and does not run before it is armed or
    /// updated.
    #[must_use]
    pub fn new_with_name(graph: &mut Graph, name: &'static str) -> (reaction: Self)
        requires
            old(graph).wf(),
            old(graph)@.nodes.len() < usize::MAX,
        ensures
            final(graph).wf(),
            reaction.id() == old(graph)@.nodes.len(),
            reaction.name_of() == name@,
            final(graph)@ == old(graph)@.with_new(Kind::Reaction, Version::Hash(0)),
    {
        let node = graph.add(Kind::Reaction, Version::Hash(0));
        Reaction { node, name }
    }

    /// The node that stands for this reaction.
    pub fn node(&self) -> (n: usize)
        ensures
            n == self.id(),
    {
        self.node
    }

    /// The name the reaction was given.
    pub fn name(&self) -> (name: &'static str)
        ensures
            name@ == self.name_of(),
    {
        self.name
    }

    /// Arms the reaction, so that it observes what it reads, tells `ev` of
    /// every node that has become observed by that, and runs the reaction
    /// for the first time unless it is valid already.
    pub fn arm<E: Evaluator>(&self, graph: &mut Graph, ev: &mut E) -> (done: Result<Update, Error>)
        requires
            old(graph).wf(),
        ensures
            final(graph).wf(),
            old(graph)@.evolves(final(graph)@),
            old(graph)@.arm_refusal(self.id()) matches Some(e) ==> done == Err::<Update, Error>(e)
                && final(graph)@ == old(graph)@ && *final(ev) == *old(ev),
            done.is_ok() ==> final(graph)@.has(self.id()) && final(graph)@.valid(self.id()),
            old(graph)@.arm_refusal(self.id()).is_none() && old(graph)@.valid(self.id()) ==> done
                == Ok::<Update, Error>(Update::Unchanged) && old(graph)@.with_node(
                self.id(),
                NodeView { armed: true, ..old(graph)@.node(self.id()) },
            ).same_but_counts(final(graph)@),
            armed(
                (Binds {
                                ev: |r: &mut E, a: E, b: E| *r == a && *final(r) == b,
                                graph: |r: &mut Graph, a: GraphView, b: GraphView| r@ == a && final(r)@ == b,
                                cx: |r: &mut Evaluation, n: usize, a: Seq<(usize, Version)>, b: Seq<(usize, Version)>|
                                    r.parent_id() == n && r@ == a && final(r)@ == b,
                            }),
                old(graph)@,
                *old(ev),
                self.id(),
                final(graph)@,
                *final(ev),
                done,
            ),
    {
        let ghost start = graph@;
        let before = graph.observed();
        proof {
            assert(before@ =~= observed_flags(graph@)) by {
                assert forall|i: int| 0 <= i < before@.len() implies before@[i] == observed_flags(
                    graph@,
                )[i] by {
                    let x = i as usize;
                    assert(graph@.has(x));
                    assert(before@[x as int] == (graph@.node(x).observers > 0));
                }
            }
        }
        match graph.arm(self.node) {
            Ok(_) => {
                let ghost mid = graph@;
                notify(graph, &before, ev);
                let ghost at = *ev;
                let done = graph.update(self.node, ev);
                proof {
                    assert(passes(mid, at, done));
                    assert(mid.node(self.node).state == start.node(self.node).state);
                }
                done
            },
            Err(e) => Err(e),
        }
    }

    /// Brings the reaction up to date, as [`Graph::update`] does for any
    /// node: it runs only if something it has read has changed.
    pub fn update<E: Evaluator>(&self, graph: &mut Graph, ev: &mut E) -> (done: Result<
        Update,
        Error,
    >)
        requires
            old(graph).wf(),
        ensures
            final(graph).wf(),
            old(graph)@.evolves(final(graph)@),
            !old(graph)@.has(self.id()) || !old(graph)@.node(self.id()).alive ==> done == Err::<
                Update,
                Error,
            >(Error::Missing) && final(graph)@ == old(graph)@ && *final(ev) == *old(ev),
            done.is_ok() ==> final(graph)@.has(self.id()) && final(graph)@.valid(self.id()),
            old(graph)@.quiet(self.id()) ==> {
                &&& done == Ok::<Update, Error>(
                    if old(graph)@.valid(self.id()) {
                        Update::Unchanged
                    } else {
                        Update::Revalidated
                    },
                )
                &&& old(graph)@.calmed(final(graph)@, self.id())
                &&& *final(ev) == *old(ev)
            },
            old(graph)@.settled(self.id()) ==> final(graph)@ == old(graph)@.with_state(
                self.id(),
                State::Valid,
            ),
            updated(
                (Binds {
                    ev: |r: &mut E, a: E, b: E| *r == a && *final(r) == b,
                    graph: |r: &mut Graph, a: GraphView, b: GraphView| r@ == a && final(r)@ == b,
                    cx: |r: &mut Evaluation, n: usize, a: Seq<(usize, Version)>, b: Seq<(usize, Version)>|
                        r.parent_id() == n && r@ == a && final(r)@ == b,
                }),
                old(graph)@,
                *old(ev),
                self.id(),
                final(graph)@,
                *final(ev),
                done,
            ),
    {
        graph.update(self.node, ev)
    }

    /// Runs the reaction whether or not anything has changed, as
    /// [`Graph::update_unchecked`] runs any node: the evaluator is handed the
    /// graph as it is and a context of the reaction in which nothing has
    /// been read, and what it leaves is installed or refused as
    /// [`Graph::commit`] would.
    pub fn update_unchecked<E: Evaluator>(&self, graph: &mut Graph, ev: &mut E) -> (done: Result<
        (),
        Error,
    >)
        requires
            old(graph).wf(),
        ensures
            final(graph).wf(),
            old(graph)@.evolves(final(graph)@),
            done.is_ok() ==> final(graph)@.has(self.id()) && final(graph)@.valid(self.id()),
            !old(graph)@.derived(self.id()) ==> done.is_err() && final(graph)@ == old(graph)@
                && *final(ev) == *old(ev),
            !old(graph)@.has(self.id()) || !old(graph)@.node(self.id()).alive ==> done == Err::<
                (),
                Error,
            >(Error::Missing),
            old(graph)@.has(self.id()) && old(graph)@.node(self.id()).alive && old(graph)@.node(
                self.id(),
            ).is_source() ==> done == Err::<(), Error>(Error::NotDerived),
            evaluates(
                (Binds {
                    ev: |r: &mut E, a: E, b: E| *r == a && *final(r) == b,
                    graph: |r: &mut Graph, a: GraphView, b: GraphView| r@ == a && final(r)@ == b,
                    cx: |r: &mut Evaluation, n: usize, a: Seq<(usize, Version)>, b: Seq<(usize, Version)>|
                        r.parent_id() == n && r@ == a && final(r)@ == b,
                }),
                old(graph)@,
                *old(ev),
                self.id(),
                final(graph)@,
                *final(ev),
                failure(done),
            ),
    {
        graph.update_unchecked(self.node, ev)
    }
}

} // verus!
