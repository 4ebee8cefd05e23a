//! Source cells: the values that are written from outside the graph.

use vstd::prelude::*;
use crate::batch::publish;
use crate::runs::{published, read_at_rest, Binds};
use crate::dependencies::recorded;
use crate::evaluation::Evaluation;
use crate::graph::Graph;
use crate::hashed::Hashed;
use crate::model::GraphView;
use crate::state::{Error, Invalid, Kind, State, Version};
use crate::update::Evaluator;

verus! {

/// A value that can be flipped in place.
pub trait Toggle {
    fn toggle(&mut self);
}

impl Toggle for bool {
    fn toggle(&mut self)
        ensures
            *final(self) == !*old(self),
    {
        *self = !*self;
    }
}

/// A source cell: it owns its value, and a node of the graph publishes the
/// hash of that value.
pub struct Var<T> {
    node: usize,
    value: Hashed<T>,
}

impl<T> Var<T> {
    /// The node that stands for this cell.
    pub closed spec fn id(&self) -> usize {
        self.node
    }

    /// The value the cell holds.
    pub closed spec fn value(&self) -> T {
        self.value.value
    }

    /// The hash of the value the cell holds.
    pub closed spec fn hash_of(&self) -> u64 {
        self.value.hash
    }

    /// The cell belongs to `graph`: its node is there, and is a source
    /// cell.
    pub open spec fn wf(&self, graph: GraphView) -> bool {
        graph.has(self.id()) && graph.node(self.id()).kind == Kind::Var
    }

    /// Creates a cell that holds `value`. Its node publishes the hash of the
    /// value and, like every new node, starts invalid; the first read takes
    /// it as valid.
    pub fn new(graph: &mut Graph, value: T) -> (var: Self) where T: std::hash::Hash
        requires
            old(graph).wf(),
            old(graph)@.nodes.len() < usize::MAX,
        ensures
            final(graph).wf(),
            var.wf(final(graph)@),
            var.id() == old(graph)@.nodes.len(),
            var.value() == value,
            final(graph)@ == old(graph)@.with_new(Kind::Var, Version::Hash(var.hash_of())),
    {
        let value = Hashed::new(value);
        let node = graph.add(Kind::Var, Version::Hash(value.hash));
        Var { node, value }
    }

    /// The node that stands for this cell.
    pub fn node(&self) -> (n: usize)
        ensures
            n == self.id(),
    {
        self.node
    }

    /// The hash of the value the cell holds.
    pub fn hash(&self) -> (hash: u64)
        ensures
            hash == self.hash_of(),
    {
        self.value.hash
    }

    /// The value, read outside any evaluation: nothing is recorded.
    pub fn get_once(&self) -> (value: &T)
        ensures
            *value == self.value(),
    {
        &self.value.value
    }

    /// The value, read during the evaluation that `cx` belongs to: the
    /// node is taken as valid, the node that is being evaluated is
    /// registered as one that reads the cell, and the read is recorded in
    /// `cx` at the version the node publishes. A cell that has been released
    /// is not read, and a node does not read itself.
    pub fn get(&self, graph: &mut Graph, cx: &mut Evaluation) -> (value: Result<&T, Error>)
        requires
            old(graph).wf(),
            old(cx).wf(),
            self.wf(old(graph)@),
        ensures
            final(graph).wf(),
            final(cx).wf(),
            final(cx).parent_id() == old(cx).parent_id(),
            value matches Ok(v) ==> *v == self.value(),
            old(graph)@.read_refusal(self.id(), old(cx).parent_id()) == (if self.id() == old(cx).parent_id() {
                Some(Error::Order)
            } else if !old(graph)@.node(self.id()).alive {
                Some(Error::Missing)
            } else {
                None
            }),
            old(graph)@.read_refusal(self.id(), old(cx).parent_id()) matches Some(e) ==> value
                == Err::<&T, Error>(e) && final(graph)@ == old(graph)@ && final(cx)@ == old(cx)@,
            old(graph)@.read_refusal(self.id(), old(cx).parent_id()).is_none() ==> match old(graph)@.with_state(self.id(), State::Valid).register_refusal(
                old(cx).parent_id(),
                self.id(),
            ) {
                Some(e) => value == Err::<&T, Error>(e) && final(graph)@ == old(graph)@.with_state(self.id(), State::Valid) && final(cx)@ == old(cx)@,
                None => value.is_ok() && old(graph)@.with_state(
                    self.id(),
                    State::Valid,
                ).registers(final(graph)@, old(cx).parent_id(), self.id()) && final(cx)@
                    == recorded(old(cx)@, self.id(), old(graph)@.node(self.id()).version),
            },
    {
        match graph.read(self.node, cx) {
            Ok(_) => Ok(&self.value.value),
            Err(e) => Err(e),
        }
    }

    /// The value, read as [`Var::get`] reads it, with the evaluator told of
    /// what the read has changed: if the node that is being evaluated is an
    /// armed reaction or is observed by one, the cell becomes observed by
    /// the read, and `ev` hears of it.
    pub fn get_observed<E: Evaluator>(
        &self,
        graph: &mut Graph,
        cx: &mut Evaluation,
        ev: &mut E,
    ) -> (value: Result<&T, Error>)
        requires
            old(graph).wf(),
            old(cx).wf(),
            self.wf(old(graph)@),
        ensures
            final(graph).wf(),
            final(cx).wf(),
            final(cx).parent_id() == old(cx).parent_id(),
            old(graph)@.evolves(final(graph)@),
            value matches Ok(v) ==> *v == self.value(),
            self.id() == old(cx).parent_id() ==> value == Err::<&T, Error>(Error::Order) && final(graph)@ == old(graph)@ && final(cx)@ == old(cx)@ && *final(ev) == *old(ev),
            self.id() != old(cx).parent_id() && !old(graph)@.node(self.id()).alive ==> value
                == Err::<&T, Error>(Error::Missing) && final(graph)@ == old(graph)@ && final(cx)@
                == old(cx)@ && *final(ev) == *old(ev),
            self.id() != old(cx).parent_id() && old(graph)@.node(self.id()).alive ==> read_at_rest(
                (Binds {
                                ev: |r: &mut E, a: E, b: E| *r == a && *final(r) == b,
                                graph: |r: &mut Graph, a: GraphView, b: GraphView| r@ == a && final(r)@ == b,
                                cx: |r: &mut Evaluation, n: usize, a: Seq<(usize, Version)>, b: Seq<(usize, Version)>|
                                    r.parent_id() == n && r@ == a && final(r)@ == b,
                            }),
                old(graph)@,
                *old(ev),
                self.id(),
                old(cx).parent_id(),
                final(graph)@,
                *final(ev),
                match value {
                    Ok(_) => Ok(old(graph)@.node(self.id()).version),
                    Err(e) => Err(e),
                },
            ) && final(cx)@ == (if value.is_ok() {
                recorded(old(cx)@, self.id(), old(graph)@.node(self.id()).version)
            } else {
                old(cx)@
            }),
    {
        let ghost g = graph@;
        proof {
            if g.node(self.node).alive {
                assert(g.node(self.node).is_source());
                assert(g.quiet(self.node));
                assert(g.settled(self.node));
            }
        }
        match graph.get(self.node, cx, ev) {
            Ok(_) => {
                proof {
                    assert(g.node(self.node).alive);
                }
                Ok(&self.value.value)
            },
            Err(e) => Err(e),
        }
    }

    /// Replaces the value without telling the graph, and returns the version
    /// under which the node is to publish the new value; [`publish`] does
    /// the rest.
    pub fn assign(&mut self, value: T) -> (version: Version) where T: std::hash::Hash
        ensures
            final(self).id() == old(self).id(),
            final(self).value() == value,
            version == Version::Hash(final(self).hash_of()),
    {
        self.value = Hashed::new(value);
        Version::Hash(self.value.hash)
    }

    /// Replaces the value without telling the graph, and returns the old
    /// value with the version under which the node is to publish the new
    /// one.
    pub fn exchange(&mut self, value: T) -> (out: (T, Version)) where T: std::hash::Hash
        ensures
            final(self).id() == old(self).id(),
            final(self).value() == value,
            out.0 == old(self).value(),
            out.1 == Version::Hash(final(self).hash_of()),
    {
        let mut next = Hashed::new(value);
        std::mem::swap(&mut self.value, &mut next);
        (next.value, Version::Hash(self.value.hash))
    }

    /// Replaces the value and returns the old one, with what the write has
    /// come to. If the hash of the new value is the version the node
    /// publishes already, nothing else happens. Otherwise the node publishes
    /// the new hash, every node that has read the cell becomes definitely
    /// invalid, and the invalidation spreads downstream; outside a batch,
    /// the reactions that were queued are rerun before the call returns.
    /// The second part of the result says whether the version was new, or
    /// why the reactions could not be rerun; the old value is handed back
    /// either way.
    pub fn replace<E: Evaluator>(&mut self, graph: &mut Graph, ev: &mut E, value: T) -> (out: (
        T,
        Result<bool, Error>,
    )) where T: std::hash::Hash
        requires
            old(graph).wf(),
            old(self).wf(old(graph)@),
        ensures
            final(graph).wf(),
            final(self).wf(final(graph)@),
            final(self).id() == old(self).id(),
            final(self).value() == value,
            out.0 == old(self).value(),
            published(
                (Binds {
                                ev: |r: &mut E, a: E, b: E| *r == a && *final(r) == b,
                                graph: |r: &mut Graph, a: GraphView, b: GraphView| r@ == a && final(r)@ == b,
                                cx: |r: &mut Evaluation, n: usize, a: Seq<(usize, Version)>, b: Seq<(usize, Version)>|
                                    r.parent_id() == n && r@ == a && final(r)@ == b,
                            }),
                old(graph)@,
                *old(ev),
                old(self).id(),
                Version::Hash(final(self).hash_of()),
                Invalid::Definitely,
                final(graph)@,
                *final(ev),
                out.1,
            ),
    {
        let (prev, version) = self.exchange(value);
        let done = publish(graph, ev, self.node, version, Invalid::Definitely);
        (prev, done)
    }

    /// Replaces the value, as [`Var::replace`] does, and says whether the
    /// node had to publish a new version.
    pub fn set<E: Evaluator>(&mut self, graph: &mut Graph, ev: &mut E, value: T) -> (done: Result<
        bool,
        Error,
    >) where T: std::hash::Hash
        requires
            old(graph).wf(),
            old(self).wf(old(graph)@),
        ensures
            final(graph).wf(),
            final(self).wf(final(graph)@),
            final(self).id() == old(self).id(),
            final(self).value() == value,
            published(
                (Binds {
                    ev: |r: &mut E, a: E, b: E| *r == a && *final(r) == b,
                    graph: |r: &mut Graph, a: GraphView, b: GraphView| r@ == a && final(r)@ == b,
                    cx: |r: &mut Evaluation, n: usize, a: Seq<(usize, Version)>, b: Seq<(usize, Version)>|
                        r.parent_id() == n && r@ == a && final(r)@ == b,
                }),
                old(graph)@,
                *old(ev),
                old(self).id(),
                Version::Hash(final(self).hash_of()),
                Invalid::Definitely,
                final(graph)@,
                *final(ev),
                done,
            ),
    {
        let version = self.assign(value);
        publish(graph, ev, self.node, version, Invalid::Definitely)
    }

    /// Flips the value in place and publishes the result, as [`Var::set`]
    /// does.
    pub fn toggle<E: Evaluator>(&mut self, graph: &mut Graph, ev: &mut E) -> (done: Result<
        bool,
        Error,
    >) where T: Toggle + std::hash::Hash
        requires
            old(graph).wf(),
            old(self).wf(old(graph)@),
        ensures
            final(graph).wf(),
            final(self).wf(final(graph)@),
            final(self).id() == old(self).id(),
            exists|slot: &mut T|
                *slot == old(self).value() && *final(slot) == final(self).value() && call_ensures(
                    T::toggle,
                    (slot,),
                    (),
                ),
            published(
                (Binds {
                    ev: |r: &mut E, a: E, b: E| *r == a && *final(r) == b,
                    graph: |r: &mut Graph, a: GraphView, b: GraphView| r@ == a && final(r)@ == b,
                    cx: |r: &mut Evaluation, n: usize, a: Seq<(usize, Version)>, b: Seq<(usize, Version)>|
                        r.parent_id() == n && r@ == a && final(r)@ == b,
                }),
                old(graph)@,
                *old(ev),
                old(self).id(),
                Version::Hash(final(self).hash_of()),
                Invalid::Definitely,
                final(graph)@,
                *final(ev),
                done,
            ),
    {
        self.value.value.toggle();
        self.value.hash = crate::hashed::hash64(&self.value.value);
        publish(graph, ev, self.node, Version::Hash(self.value.hash), Invalid::Definitely)
    }

    /// Lets `func` change the value in place without telling the graph, and
    /// returns the version under which the node is to publish the result.
    pub fn modify<F: FnOnce(&mut T)>(&mut self, func: F) -> (version: Version) where
        T: std::hash::Hash,

        requires
            forall|slot: &mut T| *slot == old(self).value() ==> call_requires(func, (slot,)),
        ensures
            final(self).id() == old(self).id(),
            version == Version::Hash(final(self).hash_of()),
            exists|slot: &mut T|
                *slot == old(self).value() && *final(slot) == final(self).value() && call_ensures(
                    func,
                    (slot,),
                    (),
                ),
    {
        func(&mut self.value.value);
        self.value.hash = crate::hashed::hash64(&self.value.value);
        Version::Hash(self.value.hash)
    }

    /// Lets `func` change the value in place and publishes the result, as
    /// [`Var::set`] does.
    pub fn update<E: Evaluator, F: FnOnce(&mut T)>(
        &mut self,
        graph: &mut Graph,
        ev: &mut E,
        func: F,
    ) -> (done: Result<bool, Error>) where T: std::hash::Hash
        requires
            old(graph).wf(),
            old(self).wf(old(graph)@),
            forall|slot: &mut T| *slot == old(self).value() ==> call_requires(func, (slot,)),
        ensures
            final(graph).wf(),
            final(self).wf(final(graph)@),
            final(self).id() == old(self).id(),
            exists|slot: &mut T|
                *slot == old(self).value() && *final(slot) == final(self).value() && call_ensures(
                    func,
                    (slot,),
                    (),
                ),
            published(
                (Binds {
                    ev: |r: &mut E, a: E, b: E| *r == a && *final(r) == b,
                    graph: |r: &mut Graph, a: GraphView, b: GraphView| r@ == a && final(r)@ == b,
                    cx: |r: &mut Evaluation, n: usize, a: Seq<(usize, Version)>, b: Seq<(usize, Version)>|
                        r.parent_id() == n && r@ == a && final(r)@ == b,
                }),
                old(graph)@,
                *old(ev),
                old(self).id(),
                Version::Hash(final(self).hash_of()),
                Invalid::Definitely,
                final(graph)@,
                *final(ev),
                done,
            ),
    {
        let version = self.modify(func);
        publish(graph, ev, self.node, version, Invalid::Definitely)
    }
}

} // verus!
