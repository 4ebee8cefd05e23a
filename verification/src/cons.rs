//! A value that never changes, for places that take any kind of cell.

use vstd::prelude::*;
use crate::state::Version;

verus! {

/// What a constant holds.
#[derive(Clone)]
pub struct ConstBody<T> {
    value: T,
}

/// A constant. It takes no part in the bookkeeping of the graph: reading it
/// records nothing, and it always publishes the same version.
#[derive(Clone)]
pub struct Const<T> {
    body: ConstBody<T>,
}

impl<T> ConstBody<T> {
    /// The value that is held.
    pub closed spec fn value(&self) -> T {
        self.value
    }
}

impl<T> Const<T> {
    /// The value the constant holds.
    pub closed spec fn value(&self) -> T {
        self.body.value
    }

    /// A constant that holds `value`.
    pub fn new(value: T) -> (constant: Self)
        ensures
            constant.value() == value,
    {
        Const { body: ConstBody { value } }
    }

    /// The value.
    pub fn get(&self) -> (value: &T)
        ensures
            *value == self.value(),
    {
        &self.body.value
    }

    /// The version a constant publishes: always the same.
    pub fn version(&self) -> (version: Version)
        ensures
            version == Version::Hash(0),
    {
        Version::Hash(0)
    }

    /// Bringing a constant up to date does nothing; its version is returned.
    pub fn update(&self) -> (version: Version)
        ensures
            version == Version::Hash(0),
    {
        self.version()
    }
}

} // verus!
