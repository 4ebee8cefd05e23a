//! The scratchpad of one evaluation: which node is being evaluated, and what
//! it has read so far.

use vstd::prelude::*;
use crate::dependencies::{distinct, lemma_recorded, recorded, reads, Dependencies};
use crate::state::Version;

verus! {

/// The context handed to the function that recomputes a node. It records
/// every node the function reads, with the version that was read; when the
/// function returns, the record becomes the node's set of dependencies.
pub struct Evaluation {
    parent: usize,
    dependencies: Dependencies,
}

impl View for Evaluation {
    type V = Seq<(usize, Version)>;

    closed spec fn view(&self) -> Seq<(usize, Version)> {
        self.dependencies@
    }
}

/// The node `parent` is none of the nodes recorded in `deps`.
pub open spec fn foreign(deps: Seq<(usize, Version)>, parent: usize) -> bool {
    forall|i: int| 0 <= i < deps.len() ==> (#[trigger] deps[i]).0 != parent
}

impl Evaluation {
    /// The node that is being evaluated.
    pub closed spec fn parent_id(&self) -> usize {
        self.parent
    }

    /// Nothing is recorded twice, and the node that is being evaluated is
    /// not recorded as read by itself.
    pub open spec fn wf(&self) -> bool {
        &&& distinct(self@)
        &&& foreign(self@, self.parent_id())
    }

    /// A context for an evaluation of `parent`, with nothing read yet.
    pub fn new(parent: usize) -> (eval: Self)
        ensures
            eval.wf(),
            eval.parent_id() == parent,
            eval@ == Seq::<(usize, Version)>::empty(),
    {
        Evaluation { parent, dependencies: Dependencies::new() }
    }

    /// The node that is being evaluated.
    pub fn parent(&self) -> (parent: usize)
        ensures
            parent == self.parent_id(),
    {
        self.parent
    }

    /// Records that the node being evaluated has read `upstream` at
    /// `version`; a second read of the same node replaces the version
    /// recorded for it. A node does not read itself: such a read is not
    /// recorded, and the result says so.
    pub fn based_on(&mut self, upstream: usize, version: Version) -> (accepted: bool)
        requires
            old(self).wf(),
        ensures
            final(self).wf(),
            final(self).parent_id() == old(self).parent_id(),
            accepted == (upstream != old(self).parent_id()),
            accepted ==> final(self)@ == recorded(old(self)@, upstream, version),
            !accepted ==> final(self)@ == old(self)@,
    {
        if upstream != self.parent {
            proof {
                lemma_recorded(self@, upstream, version);
                let next = recorded(self@, upstream, version);
                assert forall|i: int| 0 <= i < next.len() implies (#[trigger] next[i]).0
                    != self.parent by {
                    assert(reads(next, next[i].0));
                    if next[i].0 != upstream {
                        assert(reads(self@, next[i].0));
                        let k = choose|k: int|
                            0 <= k < self@.len() && (#[trigger] self@[k]).0 == next[i].0;
                    }
                }
            }
            self.dependencies.based_on(upstream, version);
            true
        } else {
            false
        }
    }

    /// Ends the evaluation and hands out what was read.
    pub fn take(self) -> (deps: Dependencies)
        requires
            self.wf(),
        ensures
            deps.wf(),
            deps@ == self@,
    {
        self.dependencies
    }

    /// What has been read so far.
    pub fn dependencies(&self) -> (deps: &Dependencies)
        ensures
            deps@ == self@,
    {
        &self.dependencies
    }
}

} // verus!
