//! The set of nodes a derived node has read, each with the version it saw.

use vstd::prelude::*;
use crate::state::Version;

verus! {

/// Whether `upstream` is one of the nodes recorded in `deps`.
pub open spec fn reads(deps: Seq<(usize, Version)>, upstream: usize) -> bool {
    exists|i: int| 0 <= i < deps.len() && (#[trigger] deps[i]).0 == upstream
}

/// No node is recorded twice.
pub open spec fn distinct(deps: Seq<(usize, Version)>) -> bool {
    forall|i: int, j: int|
        0 <= i < j < deps.len() ==> (#[trigger] deps[i]).0 != (#[trigger] deps[j]).0
}

/// The place at which `upstream` is recorded, for a node that `deps` reads.
pub open spec fn slot(deps: Seq<(usize, Version)>, upstream: usize) -> int {
    choose|i: int| 0 <= i < deps.len() && (#[trigger] deps[i]).0 == upstream
}

/// What `deps` becomes when a read of `upstream` at `version` is recorded: a
/// node read before keeps its place and takes the new version, a new one goes
/// to the end.
pub open spec fn recorded(deps: Seq<(usize, Version)>, upstream: usize, version: Version) -> Seq<
    (usize, Version),
> {
    if reads(deps, upstream) {
        deps.update(slot(deps, upstream), (upstream, version))
    } else {
        deps.push((upstream, version))
    }
}

/// Recording a read keeps the entries distinct, and afterwards exactly the
/// old nodes and the new one are read.
pub proof fn lemma_recorded(deps: Seq<(usize, Version)>, upstream: usize, version: Version)
    requires
        distinct(deps),
    ensures
        distinct(recorded(deps, upstream, version)),
        forall|u: usize|
            reads(recorded(deps, upstream, version), u) <==> (u == upstream || reads(deps, u)),
{
    let next = recorded(deps, upstream, version);
    if reads(deps, upstream) {
        let k = slot(deps, upstream);
        assert forall|u: usize| reads(next, u) <==> (u == upstream || reads(deps, u)) by {
            if reads(next, u) {
                let i = choose|i: int| 0 <= i < next.len() && (#[trigger] next[i]).0 == u;
                if i != k {
                    assert(deps[i].0 == u);
                }
            }
            if reads(deps, u) {
                let i = choose|i: int| 0 <= i < deps.len() && (#[trigger] deps[i]).0 == u;
                assert(next[i].0 == u);
            }
            if u == upstream {
                assert(next[k].0 == u);
            }
        }
        assert forall|i: int, j: int| 0 <= i < j < next.len() implies (#[trigger] next[i]).0 != (
        #[trigger] next[j]).0 by {
            assert(deps[i].0 != deps[j].0);
        }
    } else {
        let k = deps.len() as int;
        assert forall|u: usize| reads(next, u) <==> (u == upstream || reads(deps, u)) by {
            if reads(next, u) {
                let i = choose|i: int| 0 <= i < next.len() && (#[trigger] next[i]).0 == u;
                if i != k {
                    assert(deps[i].0 == u);
                }
            }
            if reads(deps, u) {
                let i = choose|i: int| 0 <= i < deps.len() && (#[trigger] deps[i]).0 == u;
                assert(next[i].0 == u);
            }
            if u == upstream {
                assert(next[k].0 == u);
            }
        }
        assert forall|i: int, j: int| 0 <= i < j < next.len() implies (#[trigger] next[i]).0 != (
        #[trigger] next[j]).0 by {
            if j == k {
                assert(deps[i].0 != upstream);
            } else {
                assert(deps[i].0 != deps[j].0);
            }
        }
    }
}

/// An ordered record of the nodes read during one evaluation, each with the
/// version observed. A node appears at most once.
pub struct Dependencies {
    based_on: Vec<(usize, Version)>,
}

impl View for Dependencies {
    type V = Seq<(usize, Version)>;

    closed spec fn view(&self) -> Seq<(usize, Version)> {
        self.based_on@
    }
}

impl Dependencies {
    /// No node is recorded twice.
    pub open spec fn wf(&self) -> bool {
        distinct(self@)
    }

    /// An empty record.
    pub fn new() -> (deps: Self)
        ensures
            deps.wf(),
            deps@ == Seq::<(usize, Version)>::empty(),
    {
        Dependencies { based_on: Vec::new() }
    }

    /// The number of nodes recorded.
    pub fn len(&self) -> (n: usize)
        ensures
            n == self@.len(),
    {
        self.based_on.len()
    }

    /// The `i`-th node recorded and the version seen of it.
    pub fn entry(&self, i: usize) -> (e: (usize, Version))
        requires
            i < self@.len(),
        ensures
            e == self@[i as int],
    {
        self.based_on[i]
    }

    /// The place at which `upstream` is recorded, if it is.
    pub fn find(&self, upstream: usize) -> (at: Option<usize>)
        ensures
            match at {
                Some(i) => i < self@.len() && self@[i as int].0 == upstream,
                None => !reads(self@, upstream),
            },
            self.wf() && at.is_some() ==> at.unwrap() == slot(self@, upstream),
    {
        let mut i: usize = 0;
        while i < self.based_on.len()
            invariant
                i <= self.based_on@.len(),
                forall|j: int| 0 <= j < i ==> (#[trigger] self.based_on@[j]).0 != upstream,
            decreases self.based_on@.len() - i,
        {
            if self.based_on[i].0 == upstream {
                proof {
                    if self.wf() {
                        let k = slot(self@, upstream);
                        assert(self@[i as int].0 == upstream);
                        if k < i {
                            assert(self@[k].0 != self@[i as int].0);
                        } else if i < k {
                            assert(self@[i as int].0 != self@[k].0);
                        }
                    }
                }
                return Some(i);
            }
            i += 1;
        }
        None
    }

    /// Whether `upstream` is recorded.
    pub fn contains(&self, upstream: usize) -> (found: bool)
        ensures
            found == reads(self@, upstream),
    {
        self.find(upstream).is_some()
    }

    /// The version recorded for `upstream`, if it was read.
    pub fn version_of(&self, upstream: usize) -> (seen: Option<Version>)
        requires
            self.wf(),
        ensures
            seen.is_some() == reads(self@, upstream),
            seen.is_some() ==> seen.unwrap() == self@[slot(self@, upstream)].1,
    {
        match self.find(upstream) {
            Some(i) => Some(self.based_on[i].1),
            None => None,
        }
    }

    /// Records that `upstream` was read at `version`. A second read of the
    /// same node replaces the version recorded for it.
    pub fn based_on(&mut self, upstream: usize, version: Version)
        requires
            old(self).wf(),
        ensures
            final(self).wf(),
            final(self)@ == recorded(old(self)@, upstream, version),
    {
        proof {
            lemma_recorded(self@, upstream, version);
        }
        match self.find(upstream) {
            Some(i) => {
                self.based_on[i] = (upstream, version);
            },
            None => {
                self.based_on.push((upstream, version));
            },
        }
    }
}

} // verus!
