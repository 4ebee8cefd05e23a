//! A value together with the hash that identifies it in the graph.

use vstd::prelude::*;
use crate::state::Version;

verus! {

/// Hashes `value` with `fxhash::hash64`, which feeds the value to a fresh
/// `FxHasher64` and returns what the hasher has accumulated. Nothing is
/// claimed of the result: what a type feeds to a hasher is decided by its
/// `Hash` impl, which is not known here.
#[verifier::external_body]
pub(crate) fn hash64<T: std::hash::Hash>(value: &T) -> (hash: u64) {
    fxhash::hash64(value)
}

/// The version under which a node publishes `value`: the hash of the value.
pub fn version_of<T: std::hash::Hash>(value: &T) -> (version: Version) {
    Version::Hash(hash64(value))
}

/// A value and its hash.
pub struct Hashed<T> {
    pub value: T,
    pub hash: u64,
}

impl<T> Hashed<T> {
    /// Hashes `value` and keeps it with its hash.
    pub fn new(value: T) -> (hashed: Self) where T: std::hash::Hash
        ensures
            hashed.value == value,
    {
        let hash = hash64(&value);
        Hashed { value, hash }
    }

    /// Keeps `value` with a hash that the caller has computed.
    pub fn with_hash(value: T, hash: u64) -> (hashed: Self)
        ensures
            hashed.value == value,
            hashed.hash == hash,
    {
        Hashed { value, hash }
    }

    /// The value.
    pub fn get(&self) -> (value: &T)
        ensures
            *value == self.value,
    {
        &self.value
    }

    /// Gives the value back.
    pub fn into_inner(self) -> (value: T)
        ensures
            value == self.value,
    {
        self.value
    }
}

} // verus!
