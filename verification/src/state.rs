//! The vocabulary shared by every part of the graph: what kind of cell a node
//! is, whether its published value can be trusted, and how a published value
//! is identified.

use vstd::prelude::*;

verus! {

/// How strongly a node is known to be out of date.
#[derive(Clone, Copy, PartialEq, Eq, Debug, Structural)]
pub enum Invalid {
    /// Something upstream was touched; the versions the node observed may
    /// still match, so they are compared before anything is recomputed.
    Maybe,
    /// A value the node read has changed: it must recompute.
    Definitely,
}

/// Whether a node's published value reflects its current inputs.
#[derive(Clone, Copy, PartialEq, Eq, Debug, Structural)]
pub enum State {
    Valid,
    Invalid(Invalid),
}

/// The identity of a published value: two values with the same hash are the
/// same value as far as the graph is concerned.
#[derive(Clone, Copy, PartialEq, Eq, Debug, Structural)]
pub enum Version {
    Hash(u64),
}

/// Which nodes an invalidation request marks.
#[derive(Clone, Copy, PartialEq, Eq, Debug, Structural)]
pub enum Invalidate {
    /// The node itself, then everything that reads it.
    SelfAndDeps,
    /// Only the nodes that read it; the node's own state stays as it is.
    OnlyDeps,
}

/// The kinds of cell that take part in the graph.
#[derive(Clone, Copy, PartialEq, Eq, Debug, Structural)]
pub enum Kind {
    /// A source cell: its value is written from outside.
    Var,
    /// A value that never changes.
    Const,
    /// A value derived on demand from other cells.
    Computed,
    /// A side effect that is rerun when what it has read changes.
    Reaction,
    /// A value produced by a task that runs outside the graph.
    Async,
}

/// Why the graph refused an operation.
#[derive(Clone, Copy, PartialEq, Eq, Debug, Structural)]
pub enum Error {
    /// The node does not exist, or it has been released.
    Missing,
    /// The operation needs a derived node and was given a source.
    NotDerived,
    /// The operation needs a reaction.
    NotReaction,
    /// The read would close a circle, the node is being evaluated itself,
    /// or there is no rank left to raise the reader to.
    Order,
    /// A reaction was invalidated while no batch was open.
    NotInBatch,
    /// Something that was read during an evaluation has changed before the
    /// evaluation ended.
    Stale,
    /// The node is still read by another node.
    InUse,
    /// The queue of changed reactions did not run empty.
    Unsettled,
}

impl Invalid {
    /// The stronger of two degrees of invalidity.
    pub open spec fn or(self, other: Invalid) -> Invalid {
        if self == Invalid::Definitely || other == Invalid::Definitely {
            Invalid::Definitely
        } else {
            Invalid::Maybe
        }
    }
}

impl State {
    /// The state of a node after a request to invalidate it: a valid node
    /// takes the requested degree, an invalid one keeps the stronger of the
    /// two.
    pub open spec fn expired(self, kind: Invalid) -> State {
        match self {
            State::Valid => State::Invalid(kind),
            State::Invalid(prev) => State::Invalid(prev.or(kind)),
        }
    }

    /// The executable form of [`State::expired`].
    pub fn expire(self, kind: Invalid) -> (next: State)
        ensures
            next == self.expired(kind),
    {
        match self {
            State::Valid => State::Invalid(kind),
            State::Invalid(Invalid::Definitely) => State::Invalid(Invalid::Definitely),
            State::Invalid(Invalid::Maybe) => State::Invalid(kind),
        }
    }
}

impl Version {
    /// The hash that identifies the value.
    pub open spec fn hash(self) -> u64 {
        match self {
            Version::Hash(h) => h,
        }
    }

    /// The executable form of [`Version::hash`].
    pub fn value(&self) -> (h: u64)
        ensures
            h == self.hash(),
    {
        match self {
            Version::Hash(h) => *h,
        }
    }
}

} // verus!
