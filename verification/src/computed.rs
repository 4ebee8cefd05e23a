//! Derived values: the typed cache that goes with a computed node.

use vstd::prelude::*;
use crate::dependencies::recorded;
use crate::evaluation::Evaluation;
use crate::graph::Graph;
use crate::hashed::Hashed;
use crate::model::GraphView;
use crate::runs::{brought, failure, passes, read_at_rest, read_by, Binds};
use crate::state::{Error, Kind, State, Version};
use crate::update::{Evaluator, Inert};

verus! {

/// An evaluator that keeps the values of derived nodes of type `T` itself,
/// so that a value can be handed out right after it was recomputed.
pub trait Keeps<T>: Evaluator {
    /// The cache that goes with node `n`, if this evaluator keeps one.
    fn cache(&self, n: usize) -> Option<&Computed<T>>;
}

impl<T> Keeps<T> for Inert {
    /// The evaluator that runs nothing keeps nothing.
    fn cache(&self, n: usize) -> Option<&Computed<T>> {
        None
    }
}

/// A derived value. The node decides when the value has to be recomputed;
/// this is where the value itself is kept between recomputations.
pub struct Computed<T> {
    node: usize,
    value: Option<Hashed<T>>,
}

impl<T> Computed<T> {
    /// The node that stands for this value.
    pub closed spec fn id(&self) -> usize {
        self.node
    }

    /// The value that was computed last, if any was.
    pub closed spec fn value(&self) -> Option<T> {
        match self.value {
            Some(hashed) => Some(hashed.value),
            None => None,
        }
    }

    /// The hash of the value that was computed last.
    pub closed spec fn hash_of(&self) -> Option<u64> {
        match self.value {
            Some(hashed) => Some(hashed.hash),
            None => None,
        }
    }

    /// Creates a derived value that has not been computed yet. Like every
    /// new node, its node starts definitely invalid.
    pub fn new(graph: &mut Graph) -> (computed: Self)
        requires
            old(graph).wf(),
            old(graph)@.nodes.len() < usize::MAX,
        ensures
            final(graph).wf(),
            computed.id() == old(graph)@.nodes.len(),
            computed.value().is_none(),
            final(graph)@ == old(graph)@.with_new(Kind::Computed, Version::Hash(0)),
    {
        let node = graph.add(Kind::Computed, Version::Hash(0));
        Computed { node, value: None }
    }

    /// The node that stands for this value.
    pub fn node(&self) -> (n: usize)
        ensures
            n == self.id(),
    {
        self.node
    }

    /// Keeps `value` as the value computed last and returns the version
    /// under which the node is to publish it.
    pub fn store(&mut self, value: T) -> (version: Version) where T: std::hash::Hash
        ensures
            final(self).id() == old(self).id(),
            final(self).value() == Some(value),
            final(self).hash_of() == Some(version.hash()),
    {
        let hashed = Hashed::new(value);
        let version = Version::Hash(hashed.hash);
        self.value = Some(hashed);
        version
    }

    /// The value that was computed last, if any was.
    pub fn peek(&self) -> (value: Option<&T>)
        ensures
            match value {
                Some(v) => self.value() == Some(*v),
                None => self.value().is_none(),
            },
    {
        match &self.value {
            Some(hashed) => Some(&hashed.value),
            None => None,
        }
    }

    /// What a read hands out when the node publishes `version`: the value
    /// that is kept, if it is the one published; nothing, if no value is
    /// kept; and a refusal, if the value kept is not the one published.
    pub open spec fn handed(&self, version: Version) -> Result<Option<T>, Error> {
        match self.hash_of() {
            None => Ok(None),
            Some(hash) => if hash == version.hash() {
                Ok(self.value())
            } else {
                Err(Error::Stale)
            },
        }
    }

    /// The value that is kept, if it is the one that the node publishes
    /// under `version`.
    pub fn current(&self, version: Version) -> (value: Result<Option<&T>, Error>)
        ensures
            match value {
                Ok(Some(v)) => self.handed(version) == Ok::<Option<T>, Error>(Some(*v)),
                Ok(None) => self.handed(version) == Ok::<Option<T>, Error>(None),
                Err(e) => self.handed(version) == Err::<Option<T>, Error>(e),
            },
    {
        match &self.value {
            None => Ok(None),
            Some(hashed) => if hashed.hash == version.value() {
                Ok(Some(&hashed.value))
            } else {
                Err(Error::Stale)
            },
        }
    }

    /// Brings the node up to date, outside any evaluation, and returns the
    /// value that is kept here, provided that it is the one the node
    /// publishes then. The caller holds this cache for the time of the call,
    /// so that an evaluator cannot store into it meanwhile: where the node
    /// is recomputed with another result, the value kept here is not the
    /// one published, and the read is refused as stale.
    pub fn get_once<E: Evaluator>(&self, graph: &mut Graph, ev: &mut E) -> (value: Result<
        Option<&T>,
        Error,
    >)
        requires
            old(graph).wf(),
        ensures
            final(graph).wf(),
            old(graph)@.evolves(final(graph)@),
            !old(graph)@.has(self.id()) || !old(graph)@.node(self.id()).alive ==> value == Err::<
                Option<&T>,
                Error,
            >(Error::Missing) && final(graph)@ == old(graph)@ && *final(ev) == *old(ev),
            value.is_ok() ==> final(graph)@.has(self.id()) && final(graph)@.valid(self.id()),
            value matches Ok(Some(v)) ==> self.value() == Some(*v) && self.hash_of() == Some(
                final(graph)@.node(self.id()).version.hash(),
            ),
            value matches Ok(None) ==> self.value().is_none(),
            old(graph)@.quiet(self.id()) ==> old(graph)@.calmed(final(graph)@, self.id())
                && *final(ev) == *old(ev) && match value {
                Ok(Some(v)) => self.handed(old(graph)@.node(self.id()).version) == Ok::<
                    Option<T>,
                    Error,
                >(Some(*v)),
                Ok(None) => self.handed(old(graph)@.node(self.id()).version) == Ok::<
                    Option<T>,
                    Error,
                >(None),
                Err(e) => self.handed(old(graph)@.node(self.id()).version) == Err::<
                    Option<T>,
                    Error,
                >(e),
            },
            exists|seen: Result<Version, Error>|
                #![trigger passes(final(graph)@, *final(ev), seen)]
                passes(final(graph)@, *final(ev), seen) && match seen {
                    Ok(version) => version == final(graph)@.node(self.id()).version && match value {
                        Ok(Some(v)) => self.handed(version) == Ok::<Option<T>, Error>(Some(*v)),
                        Ok(None) => self.handed(version) == Ok::<Option<T>, Error>(None),
                        Err(e) => self.handed(version) == Err::<Option<T>, Error>(e),
                    },
                    Err(e) => value == Err::<Option<&T>, Error>(e),
                } && brought(
                    (Binds {
                                    ev: |r: &mut E, a: E, b: E| *r == a && *final(r) == b,
                                    graph: |r: &mut Graph, a: GraphView, b: GraphView| r@ == a && final(r)@ == b,
                                    cx: |r: &mut Evaluation, n: usize, a: Seq<(usize, Version)>, b: Seq<(usize, Version)>|
                                        r.parent_id() == n && r@ == a && final(r)@ == b,
                                }),
                    old(graph)@,
                    *old(ev),
                    self.id(),
                    final(graph)@,
                    *final(ev),
                    failure(seen),
                ),
    {
        let seen = graph.get_once(self.node, ev);
        proof {
            assert(passes(graph@, *ev, seen));
        }
        match seen {
            Ok(version) => self.current(version),
            Err(e) => Err(e),
        }
    }

    /// Reads the node as [`Graph::get`] does: brings it up to date, records
    /// the read in `cx`, and registers the node that is being evaluated as
    /// one that reads it, if it can be. Then returns the value that is kept
    /// here, provided that it is the one the node publishes; as with
    /// [`Computed::get_once`], the read is refused as stale where it is
    /// not, though it has been recorded by then.
    pub fn get<E: Evaluator>(&self, graph: &mut Graph, cx: &mut Evaluation, ev: &mut E) -> (value:
        Result<Option<&T>, Error>)
        requires
            old(graph).wf(),
            old(cx).wf(),
        ensures
            final(graph).wf(),
            final(cx).wf(),
            final(cx).parent_id() == old(cx).parent_id(),
            old(graph)@.evolves(final(graph)@),
            self.id() != old(cx).parent_id() && (!old(graph)@.has(self.id()) || !old(graph)@.node(
                self.id(),
            ).alive) ==> value == Err::<Option<&T>, Error>(Error::Missing) && final(graph)@ == old(graph)@ && *final(ev) == *old(ev),
            value.is_ok() ==> final(graph)@.has(self.id()) && final(graph)@.valid(self.id()),
            value matches Ok(Some(v)) ==> self.value() == Some(*v) && self.hash_of() == Some(
                final(graph)@.node(self.id()).version.hash(),
            ),
            value matches Ok(None) ==> self.value().is_none(),
            self.id() == old(cx).parent_id() ==> value == Err::<Option<&T>, Error>(Error::Order)
                && final(graph)@ == old(graph)@ && *final(ev) == *old(ev) && final(cx)@ == old(cx)@,
            self.id() != old(cx).parent_id() ==> exists|seen: Result<Version, Error>|
                #![trigger passes(final(graph)@, *final(ev), seen)]
                passes(final(graph)@, *final(ev), seen) && match seen {
                    Ok(version) => version == final(graph)@.node(self.id()).version && final(cx)@
                        == recorded(old(cx)@, self.id(), version) && match value {
                        Ok(Some(v)) => self.handed(version) == Ok::<Option<T>, Error>(Some(*v)),
                        Ok(None) => self.handed(version) == Ok::<Option<T>, Error>(None),
                        Err(e) => self.handed(version) == Err::<Option<T>, Error>(e),
                    },
                    Err(e) => value == Err::<Option<&T>, Error>(e) && final(cx)@ == old(cx)@,
                } && read_by(
                    (Binds {
                                    ev: |r: &mut E, a: E, b: E| *r == a && *final(r) == b,
                                    graph: |r: &mut Graph, a: GraphView, b: GraphView| r@ == a && final(r)@ == b,
                                    cx: |r: &mut Evaluation, n: usize, a: Seq<(usize, Version)>, b: Seq<(usize, Version)>|
                                        r.parent_id() == n && r@ == a && final(r)@ == b,
                                }),
                    old(graph)@,
                    *old(ev),
                    self.id(),
                    old(cx).parent_id(),
                    final(graph)@,
                    *final(ev),
                    seen,
                ) && (old(graph)@.quiet(self.id()) ==> read_at_rest(
                    (Binds {
                                    ev: |r: &mut E, a: E, b: E| *r == a && *final(r) == b,
                                    graph: |r: &mut Graph, a: GraphView, b: GraphView| r@ == a && final(r)@ == b,
                                    cx: |r: &mut Evaluation, n: usize, a: Seq<(usize, Version)>, b: Seq<(usize, Version)>|
                                        r.parent_id() == n && r@ == a && final(r)@ == b,
                                }),
                    old(graph)@,
                    *old(ev),
                    self.id(),
                    old(cx).parent_id(),
                    final(graph)@,
                    *final(ev),
                    seen,
                )),
    {
        let seen = graph.get(self.node, cx, ev);
        proof {
            assert(passes(graph@, *ev, seen));
        }
        match seen {
            Ok(version) => self.current(version),
            Err(e) => Err(e),
        }
    }

    /// Brings node `n` up to date, outside any evaluation, and returns the
    /// value that the evaluator keeps for it then, provided that it is the
    /// one the node publishes: the value that was computed in this very
    /// call, where the node had to be recomputed. An evaluator that keeps no
    /// cache for the node hands out nothing.
    pub fn read_once<'a, E: Keeps<T>>(n: usize, graph: &mut Graph, ev: &'a mut E) -> (value: Result<
        Option<&'a T>,
        Error,
    >)
        requires
            old(graph).wf(),
        ensures
            final(graph).wf(),
            old(graph)@.evolves(final(graph)@),
            value.is_ok() ==> final(graph)@.has(n) && final(graph)@.valid(n),
            exists|seen: Result<Version, Error>, cache: Option<&Computed<T>>|
                #![trigger passes(final(graph)@, seen, cache)]
                passes(final(graph)@, seen, cache) && brought(
                    (Binds {
                                    ev: |r: &mut E, a: E, b: E| *r == a && *final(r) == b,
                                    graph: |r: &mut Graph, a: GraphView, b: GraphView| r@ == a && final(r)@ == b,
                                    cx: |r: &mut Evaluation, n: usize, a: Seq<(usize, Version)>, b: Seq<(usize, Version)>|
                                        r.parent_id() == n && r@ == a && final(r)@ == b,
                                }),
                    old(graph)@,
                    *old(ev),
                    n,
                    final(graph)@,
                    *final(ev),
                    failure(seen),
                ) && match seen {
                    Err(e) => value == Err::<Option<&T>, Error>(e),
                    Ok(version) => version == final(graph)@.node(n).version && call_ensures(
                        E::cache,
                        (final(ev), n),
                        cache,
                    ) && match cache {
                        None => value == Ok::<Option<&T>, Error>(None),
                        Some(kept) => match value {
                            Ok(Some(v)) => kept.handed(version) == Ok::<Option<T>, Error>(Some(*v)),
                            Ok(None) => kept.handed(version) == Ok::<Option<T>, Error>(None),
                            Err(e) => kept.handed(version) == Err::<Option<T>, Error>(e),
                        },
                    },
                },
    {
        let seen = graph.get_once(n, ev);
        match seen {
            Ok(version) => {
                let kept: &'a E = ev;
                let cache = kept.cache(n);
                proof {
                    assert(passes(graph@, seen, cache));
                }
                match cache {
                    Some(cell) => cell.current(version),
                    None => Ok(None),
                }
            },
            Err(e) => {
                proof {
                    assert(passes(graph@, seen, None::<&Computed<T>>));
                }
                Err(e)
            },
        }
    }

    /// The hash of the value that was computed last, if any was.
    pub fn hash(&self) -> (hash: Option<u64>)
        ensures
            hash == self.hash_of(),
    {
        match &self.value {
            Some(hashed) => Some(hashed.hash),
            None => None,
        }
    }
}

} // verus!
