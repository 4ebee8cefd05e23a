//! Observer counts: for every node, how many chains of reads lead to it from
//! an armed reaction.

use vstd::prelude::*;
use crate::dependencies::Dependencies;
use crate::evaluate::lemma_relinks;
use crate::graph::Graph;
use crate::shape::{lemma_current_kept, lemma_paths_same_links, lemma_read_is_fresh, lemma_shape_kept};
use crate::model::{saturated, GraphView, NodeView};
use crate::dependencies::reads;
use crate::state::{Error, Invalid, Kind, State, Version};

verus! {

impl GraphView {
    /// `next` differs from `self` at most in the observer counts.
    pub open spec fn same_but_counts(self, next: GraphView) -> bool {
        &&& next.nodes.len() == self.nodes.len()
        &&& next.changed == self.changed
        &&& next.started == self.started
        &&& next.microtask == self.microtask
        &&& forall|x: usize| #![trigger next.node(x)]
            self.has(x) ==> next.node(x) == (NodeView {
                observers: next.node(x).observers,
                ..self.node(x)
            })
    }

    /// Whether a chain of reads leads from the armed reaction `r` to `n`.
    pub open spec fn observed_by(self, n: usize, r: usize) -> bool {
        self.has(r) && self.node(r).armed && self.depends_on(r, n)
    }
}

/// The sum of two counts, held at the largest value that fits.
pub fn saturating_sum(a: u64, b: u64) -> (sum: u64)
    ensures
        sum == saturated((a + b) as nat),
{
    if a > u64::MAX - b {
        u64::MAX
    } else {
        a + b
    }
}

/// Counts that differ leave the shape and the validity of the graph alone.
pub proof fn lemma_same_but_counts(g: GraphView, h: GraphView)
    requires
        g.same_but_counts(h),
        g.shaped(),
    ensures
        h.shaped(),
        g.current() ==> h.current(),
{
    assert forall|x: usize| #![trigger h.node(x)] g.has(x) implies {
        &&& h.node(x).armed ==> h.node(x).kind == Kind::Reaction && h.node(x).alive
        &&& !h.node(x).alive ==> h.node(x).dependencies.len() == 0 && h.node(x).dependents.len()
            == 0 && !h.valid(x)
    } by {
        let a = g.node(x);
    }
    lemma_shape_kept(g, h);
    if g.current() {
        assert forall|d: usize, u: usize|
            g.has(d) && h.valid(d) && #[trigger] g.uses(d, u) implies h.valid(u) && h.node(
            u,
        ).version == g.node(u).version by {
            assert(h.node(d).state == g.node(d).state);
            lemma_read_is_fresh(g, d, u);
            assert(h.node(u).state == g.node(u).state);
        }
        assert forall|x: usize| g.has(x) && #[trigger] h.valid(x) implies g.valid(x) by {
            assert(h.node(x).state == g.node(x).state);
        }
        lemma_current_kept(g, h);
    }
}

impl Graph {
    /// Computes the observer count of node `n` anew, after the counts of
    /// the nodes that have read it. `done` says which counts are computed
    /// already; `g` is the graph as it was before any count was touched.
    fn tally(&mut self, n: usize, done: &mut Vec<bool>, Ghost(g): Ghost<GraphView>)
        requires
            g.shaped(),
            g.has(n),
            g.same_but_counts(old(self)@),
            old(done)@.len() == g.nodes.len(),
            forall|x: usize|
                g.has(x) && old(done)@[x as int] ==> (#[trigger] old(self)@.node(x)).observers
                    == saturated(g.paths(x)),
        ensures
            g.same_but_counts(final(self)@),
            final(done)@.len() == g.nodes.len(),
            final(done)@[n as int],
            forall|x: usize| g.has(x) && old(done)@[x as int] ==> #[trigger] final(done)@[x as int],
            forall|x: usize|
                g.has(x) && final(done)@[x as int] ==> (#[trigger] final(self)@.node(x)).observers
                    == saturated(g.paths(x)),
        decreases usize::MAX - g.node(n).rank,
    {
        if done[n] {
            return ;
        }
        assert(self@.node(n).dependents == g.node(n).dependents);
        let count = self.dependents(n).len();
        let mut acc: u64 = 0;
        let mut j: usize = 0;
        while j < count
            invariant
                g.shaped(),
                g.has(n),
                g.same_but_counts(self@),
                done@.len() == g.nodes.len(),
                count == g.node(n).dependents.len(),
                j <= count,
                acc == saturated(g.paths_upto(n, j as int)),
                forall|x: usize| g.has(x) && old(done)@[x as int] ==> #[trigger] done@[x as int],
                forall|x: usize|
                    g.has(x) && done@[x as int] ==> (#[trigger] self@.node(x)).observers
                        == saturated(g.paths(x)),
            decreases count - j,
        {
            assert(self@.node(n).dependents == g.node(n).dependents);
            let d = self.dependents(n)[j];
            proof {
                assert(g.feeds(n, d));
                assert(g.has(d));
                assert(g.uses(d, n));
                assert(g.under(n, d));
                assert(g.node(d).rank <= usize::MAX);
            }
            self.tally(d, done, Ghost(g));
            proof {
                assert(self@.node(d).armed == g.node(d).armed);
                assert(self@.node(d).observers == saturated(g.paths(d)));
            }
            let own: u64 = if self.is_armed(d) {
                1
            } else {
                0
            };
            let through = saturating_sum(own, self.observers(d));
            acc = saturating_sum(acc, through);
            j += 1;
        }
        let ghost before = self@;
        self.set_observers(n, acc);
        done.set(n, true);
        proof {
            assert(g.same_but_counts(self@)) by {
                assert forall|x: usize| #![trigger self@.node(x)] g.has(x) implies self@.node(x)
                    == (NodeView { observers: self@.node(x).observers, ..g.node(x) }) by {
                    assert(before.node(x) == (NodeView {
                        observers: before.node(x).observers,
                        ..g.node(x)
                    }));
                }
            }
            assert forall|x: usize| g.has(x) && done@[x as int] implies (#[trigger] self@.node(
                x,
            )).observers == saturated(g.paths(x)) by {
                if x != n {
                    assert(before.node(x).observers == saturated(g.paths(x)));
                }
            }
        }
    }

    /// Computes every observer count anew from the reads recorded and from
    /// the armed reactions.
    pub(crate) fn recount(&mut self)
        requires
            old(self)@.shaped(),
        ensures
            final(self)@.shaped(),
            final(self)@.counted(),
            old(self)@.same_but_counts(final(self)@),
            old(self)@.current() ==> final(self)@.current(),
    {
        let ghost g = self@;
        let total = self.len();
        let mut done: Vec<bool> = Vec::new();
        let mut k: usize = 0;
        while k < total
            invariant
                k <= total,
                done@.len() == k,
                forall|i: int| 0 <= i < k ==> !done@[i],
            decreases total - k,
        {
            done.push(false);
            k += 1;
        }
        let mut n: usize = 0;
        while n < total
            invariant
                g == old(self)@,
                g.shaped(),
                total == g.nodes.len(),
                n <= total,
                done@.len() == total,
                g.same_but_counts(self@),
                forall|x: usize| x < n ==> #[trigger] done@[x as int],
                forall|x: usize|
                    g.has(x) && done@[x as int] ==> (#[trigger] self@.node(x)).observers
                        == saturated(g.paths(x)),
            decreases total - n,
        {
            self.tally(n, &mut done, Ghost(g));
            n += 1;
        }
        proof {
            lemma_same_but_counts(g, self@);
            assert forall|x: usize| self@.has(x) implies (#[trigger] self@.node(x)).observers
                == saturated(self@.paths(x)) by {
                assert(done@[x as int]);
                assert(self@.node(x).dependents == g.node(x).dependents);
                lemma_paths_same_links(g, self@, x, g.node(x).dependents.len() as int);
            }
        }
    }
}


impl GraphView {
    /// Why node `n` cannot be armed, if it cannot.
    pub open spec fn arm_refusal(self, n: usize) -> Option<Error> {
        if !self.has(n) || !self.node(n).alive {
            Some(Error::Missing)
        } else if self.node(n).kind != Kind::Reaction {
            Some(Error::NotReaction)
        } else {
            None
        }
    }

    /// Why node `n` cannot be released, if it cannot.
    pub open spec fn release_refusal(self, n: usize) -> Option<Error> {
        if !self.has(n) || !self.node(n).alive {
            Some(Error::Missing)
        } else if self.node(n).dependents.len() > 0 {
            Some(Error::InUse)
        } else {
            None
        }
    }

    /// `next` is `self` after node `n`, which nothing reads, was released:
    /// it reads nothing any more, no node lists it as a reader, and it is
    /// neither armed nor valid. The observer counts follow.
    pub open spec fn releases(self, next: GraphView, n: usize) -> bool {
        &&& next.nodes.len() == self.nodes.len()
        &&& next.changed == self.changed
        &&& next.started == self.started
        &&& next.microtask == self.microtask
        &&& next.node(n) == (NodeView {
            alive: false,
            armed: false,
            state: State::Invalid(Invalid::Definitely),
            dependencies: Seq::empty(),
            dependents: Seq::empty(),
            observers: next.node(n).observers,
            ..self.node(n)
        })
        &&& forall|x: usize| #![trigger next.node(x)]
            self.has(x) && x != n ==> next.node(x) == (NodeView {
                dependents: next.node(x).dependents,
                observers: next.node(x).observers,
                ..self.node(x)
            })
        &&& forall|u: usize, d: usize|
            self.has(u) ==> (#[trigger] next.feeds(u, d) <==> (d != n && self.feeds(u, d)))
    }
}

/// Arming a reaction leaves the shape and the validity of the graph alone.
proof fn lemma_armed(g: GraphView, n: usize)
    requires
        g.shaped(),
        g.arm_refusal(n).is_none(),
    ensures
        g.with_node(n, NodeView { armed: true, ..g.node(n) }).shaped(),
        g.current() ==> g.with_node(n, NodeView { armed: true, ..g.node(n) }).current(),
{
    let h = g.with_node(n, NodeView { armed: true, ..g.node(n) });
    assert forall|x: usize| g.has(x) implies #[trigger] h.node(x) == (NodeView {
        armed: h.node(x).armed,
        ..g.node(x)
    }) by {}
    assert forall|x: usize| #![trigger h.node(x)] g.has(x) implies {
        &&& h.node(x).armed ==> h.node(x).kind == Kind::Reaction && h.node(x).alive
        &&& !h.node(x).alive ==> h.node(x).dependencies.len() == 0 && h.node(x).dependents.len()
            == 0 && !h.valid(x)
    } by {
        let a = g.node(x);
    }
    lemma_shape_kept(g, h);
    if g.current() {
        assert forall|d: usize, u: usize|
            g.has(d) && h.valid(d) && #[trigger] g.uses(d, u) implies h.valid(u) && h.node(
            u,
        ).version == g.node(u).version by {
            lemma_read_is_fresh(g, d, u);
        }
        lemma_current_kept(g, h);
    }
}

/// Releasing a node that nothing reads leaves the shape and the validity of
/// the graph alone.
proof fn lemma_buried(g: GraphView, n: usize)
    requires
        g.shaped(),
        g.has(n),
        g.node(n).dependencies.len() == 0,
        g.node(n).dependents.len() == 0,
    ensures
        g.with_node(
            n,
            NodeView {
                alive: false,
                armed: false,
                state: State::Invalid(Invalid::Definitely),
                ..g.node(n)
            },
        ).shaped(),
        g.current() ==> g.with_node(
            n,
            NodeView {
                alive: false,
                armed: false,
                state: State::Invalid(Invalid::Definitely),
                ..g.node(n)
            },
        ).current(),
{
    let h = g.with_node(
        n,
        NodeView {
            alive: false,
            armed: false,
            state: State::Invalid(Invalid::Definitely),
            ..g.node(n)
        },
    );
    assert forall|x: usize| g.has(x) && x != n implies #[trigger] h.node(x) == g.node(x) by {}
    assert forall|x: usize| #![trigger h.node(x)] g.has(x) implies {
        &&& h.node(x).armed ==> h.node(x).kind == Kind::Reaction && h.node(x).alive
        &&& !h.node(x).alive ==> h.node(x).dependencies.len() == 0 && h.node(x).dependents.len()
            == 0 && !h.valid(x)
    } by {
        let a = g.node(x);
    }
    lemma_shape_kept(g, h);
    if g.current() {
        assert forall|d: usize, u: usize|
            g.has(d) && h.valid(d) && #[trigger] g.uses(d, u) implies h.valid(u) && h.node(
            u,
        ).version == g.node(u).version by {
            lemma_read_is_fresh(g, d, u);
            if u == n {
                assert(g.node(n).dependents.contains(d));
            }
        }
        lemma_current_kept(g, h);
    }
}

impl Graph {
    /// For every node, whether an armed reaction observes it.
    pub fn observed(&self) -> (flags: Vec<bool>)
        ensures
            flags@.len() == self@.nodes.len(),
            forall|x: usize|
                self@.has(x) ==> #[trigger] flags@[x as int] == (self@.node(x).observers > 0),
    {
        let mut flags: Vec<bool> = Vec::new();
        let total = self.len();
        let mut x: usize = 0;
        while x < total
            invariant
                total == self@.nodes.len(),
                x <= total,
                flags@.len() == x,
                forall|y: usize|
                    y < x ==> #[trigger] flags@[y as int] == (self@.node(y).observers > 0),
            decreases total - x,
        {
            flags.push(self.is_observed(x));
            x += 1;
        }
        flags
    }

    /// Arms a reaction: from now on it observes everything it has read,
    /// directly or through other nodes.
    pub fn arm(&mut self, n: usize) -> (done: Result<(), Error>)
        requires
            old(self).wf(),
        ensures
            final(self).wf(),
            match done {
                Ok(_) => old(self)@.arm_refusal(n).is_none() && old(self)@.with_node(
                    n,
                    NodeView { armed: true, ..old(self)@.node(n) },
                ).same_but_counts(final(self)@),
                Err(e) => old(self)@.arm_refusal(n) == Some(e) && final(self)@ == old(self)@,
            },
    {
        if !self.has(n) || !self.is_alive(n) {
            return Err(Error::Missing);
        }
        match self.kind(n) {
            Kind::Reaction => {},
            _ => {
                return Err(Error::NotReaction);
            },
        }
        proof {
            lemma_armed(self@, n);
        }
        self.set_armed(n, true);
        self.recount();
        Ok(())
    }

    /// Releases node `n`: it gives up everything it has read and takes no
    /// further part in the graph. A node that is still read by another
    /// cannot be released.
    pub fn release(&mut self, n: usize) -> (done: Result<(), Error>)
        requires
            old(self).wf(),
        ensures
            final(self).wf(),
            match done {
                Ok(_) => old(self)@.release_refusal(n).is_none() && old(self)@.releases(
                    final(self)@,
                    n,
                ),
                Err(e) => old(self)@.release_refusal(n) == Some(e) && final(self)@ == old(self)@,
            },
    {
        if !self.has(n) || !self.is_alive(n) {
            return Err(Error::Missing);
        }
        if self.dependents(n).len() > 0 {
            return Err(Error::InUse);
        }
        let ghost g = self@;
        let source = match self.kind(n) {
            Kind::Var => true,
            Kind::Const => true,
            _ => false,
        };
        if !source {
            let none = Dependencies::new();
            self.install(n, none);
            proof {
                lemma_relinks(g, self@, n, Seq::empty());
            }
        }
        let ghost mid = self@;
        proof {
            assert(mid.shaped());
            assert(mid.current());
            assert(mid.node(n).dependencies.len() == 0);
            assert(mid.node(n).dependents.len() == 0) by {
                if mid.node(n).dependents.len() > 0 {
                    let r = mid.node(n).dependents[0];
                    assert(mid.feeds(n, r));
                    assert(g.feeds(n, r));
                }
            }
            lemma_buried(mid, n);
        }
        self.bury(n);
        let ghost buried = self@;
        self.recount();
        proof {
            let h = self@;
            assert forall|x: usize| g.has(x) implies #[trigger] mid.node(x) == (NodeView {
                dependencies: if x == n {
                    Seq::empty()
                } else {
                    g.node(x).dependencies
                },
                dependents: mid.node(x).dependents,
                ..g.node(x)
            }) by {
                if source {
                    assert(g.node(n).dependencies =~= Seq::empty());
                }
            }
            assert forall|x: usize| #![trigger h.node(x)] g.has(x) && x != n implies h.node(x) == (
            NodeView {
                dependents: h.node(x).dependents,
                observers: h.node(x).observers,
                ..g.node(x)
            }) by {
                assert(buried.node(x) == mid.node(x));
                assert(h.node(x) == (NodeView {
                    observers: h.node(x).observers,
                    ..buried.node(x)
                }));
            }
            assert(h.node(n) == (NodeView { observers: h.node(n).observers, ..buried.node(n) }));
            assert(h.node(n).dependents == mid.node(n).dependents);
            assert forall|u: usize| g.has(u) implies #[trigger] h.node(u).dependents == mid.node(
                u,
            ).dependents by {
                assert(h.node(u) == (NodeView {
                    observers: h.node(u).observers,
                    ..buried.node(u)
                }));
            }
            assert forall|u: usize, d: usize| g.has(u) implies (#[trigger] h.feeds(u, d) <==> (d
                != n && g.feeds(u, d))) by {
                if !source {
                    assert(mid.feeds(u, d) <==> if d == n {
                        reads(Seq::<(usize, Version)>::empty(), u)
                    } else {
                        g.feeds(u, d)
                    });
                } else {
                    if g.feeds(u, n) {
                        assert(g.uses(n, u));
                    }
                }
            }
            assert(h.node(n).dependents =~= Seq::<usize>::empty());
            assert(h.node(n).dependencies =~= Seq::<(usize, Version)>::empty());
        }
        Ok(())
    }
}

} // verus!
