//! A short list of reactions that are rerun together.

use vstd::prelude::*;
use crate::graph::Graph;
use crate::reaction::Reaction;
use crate::evaluation::Evaluation;
use crate::model::GraphView;
use crate::runs::{lemma_updated_all_noted, passes, updated_all, Binds};
use crate::state::{Error, Version};
use crate::update::{Evaluator, Update};

verus! {

/// The largest number of reactions that a list is asked to hold.
pub const LIMIT: usize = 0x1000_0000;

/// A list of reactions, kept as the nodes that stand for them in a
/// `smallvec::SmallVec` with room for eight: the first eight are held in the
/// list itself, the rest on the heap. What the list holds is known to the
/// proofs only through [`held`].
#[verifier::external_body]
pub struct Reactions {
    vec: smallvec::SmallVec<[usize; 8]>,
}

/// The nodes of the reactions that a list holds, in the order in which they
/// were added.
pub uninterp spec fn held(list: Reactions) -> Seq<usize>;

/// `SmallVec::new`: a list that holds nothing.
#[verifier::external_body]
fn list_new() -> (list: Reactions)
    ensures
        held(list) == Seq::<usize>::empty(),
{
    Reactions { vec: smallvec::SmallVec::new() }
}

/// `SmallVec::push`: the item goes to the end, behind what the list holds.
/// A list that has to grow does so to the next power of two, and panics if
/// that many items cannot be laid out; the bound keeps well below that.
#[verifier::external_body]
fn list_push(list: &mut Reactions, node: usize)
    requires
        held(*old(list)).len() < LIMIT,
    ensures
        held(*final(list)) == held(*old(list)).push(node),
{
    list.vec.push(node)
}

/// `SmallVec::len`: the number of items held.
#[verifier::external_body]
fn list_len(list: &Reactions) -> (len: usize)
    ensures
        len == held(*list).len(),
{
    list.vec.len()
}

/// Indexing a `SmallVec`, which it does as the slice of its items: the item
/// at `at`.
#[verifier::external_body]
fn list_get(list: &Reactions, at: usize) -> (node: usize)
    requires
        at < held(*list).len(),
    ensures
        node == held(*list)[at as int],
{
    list.vec[at]
}

impl View for Reactions {
    type V = Seq<usize>;

    open spec fn view(&self) -> Seq<usize> {
        held(*self)
    }
}

/// `SmallVec::clone`: a list of its own that holds the same items in the
/// same order.
#[verifier::external_body]
fn list_clone(list: &Reactions) -> (copy: Reactions)
    ensures
        held(copy) == held(*list),
{
    Reactions { vec: list.vec.clone() }
}

impl Clone for Reactions {
    /// A list of its own with the same reactions.
    fn clone(&self) -> (copy: Self)
        ensures
            copy@ == self@,
    {
        list_clone(self)
    }
}

impl Default for Reactions {
    /// An empty list.
    fn default() -> (list: Self)
        ensures
            list@ == Seq::<usize>::empty(),
    {
        Reactions::new()
    }
}

impl Reactions {
    /// An empty list.
    pub fn new() -> (list: Self)
        ensures
            list@ == Seq::<usize>::empty(),
    {
        list_new()
    }

    /// Adds a reaction at the end, unless the list is full; says whether
    /// it did.
    pub fn add(&mut self, reaction: Reaction) -> (added: bool)
        ensures
            added == (old(self)@.len() < LIMIT),
            added ==> final(self)@ == old(self)@.push(reaction.id()),
            !added ==> final(self)@ == old(self)@,
    {
        if list_len(self) < LIMIT {
            list_push(self, reaction.node());
            true
        } else {
            false
        }
    }

    /// The node of the reaction at `at`.
    pub fn get(&self, at: usize) -> (node: Option<usize>)
        ensures
            node == (if at < self@.len() {
                Some(self@[at as int])
            } else {
                None
            }),
    {
        if at < list_len(self) {
            Some(list_get(self, at))
        } else {
            None
        }
    }

    /// The number of reactions in the list.
    pub fn len(&self) -> (len: usize)
        ensures
            len == self@.len(),
    {
        list_len(self)
    }

    /// Brings every reaction of the list up to date, one after the other in
    /// the order in which they were added, each as [`Graph::update`] does,
    /// and returns what each of them took. A failure of one does not keep
    /// the later ones from being brought up to date.
    pub fn update<E: Evaluator>(&self, graph: &mut Graph, ev: &mut E) -> (done: Vec<
        Result<Update, Error>,
    >)
        requires
            old(graph).wf(),
        ensures
            final(graph).wf(),
            old(graph)@.evolves(final(graph)@),
            done@.len() == self@.len(),
            updated_all(
                (Binds {
                                ev: |r: &mut E, a: E, b: E| *r == a && *final(r) == b,
                                graph: |r: &mut Graph, a: GraphView, b: GraphView| r@ == a && final(r)@ == b,
                                cx: |r: &mut Evaluation, n: usize, a: Seq<(usize, Version)>, b: Seq<(usize, Version)>|
                                    r.parent_id() == n && r@ == a && final(r)@ == b,
                            }),
                old(graph)@,
                *old(ev),
                self@,
                self@.len() as int,
                final(graph)@,
                *final(ev),
                done@,
            ),
            (forall|i: int|
                0 <= i < self@.len() ==> old(graph)@.has(#[trigger] self@[i])
                    && old(graph)@.valid(self@[i])) ==> {
                &&& final(graph)@ == old(graph)@
                &&& *final(ev) == *old(ev)
                &&& forall|i: int|
                    0 <= i < done@.len() ==> #[trigger] done@[i] == Ok::<Update, Error>(
                        Update::Unchanged,
                    )
            },
    {
        let ghost all_valid = forall|i: int|
            0 <= i < self@.len() ==> old(graph)@.has(#[trigger] self@[i]) && old(graph)@.valid(
                self@[i],
            );
        let ghost b = (Binds {
            ev: |r: &mut E, a: E, b: E| *r == a && *final(r) == b,
            graph: |r: &mut Graph, a: GraphView, b: GraphView| r@ == a && final(r)@ == b,
            cx: |r: &mut Evaluation, n: usize, a: Seq<(usize, Version)>, b: Seq<(usize, Version)>|
                r.parent_id() == n && r@ == a && final(r)@ == b,
        });
        let ghost g = graph@;
        let ghost e = *ev;
        let mut done: Vec<Result<Update, Error>> = Vec::new();
        let count = list_len(self);
        let mut i: usize = 0;
        while i < count
            invariant
                graph.wf(),
                old(graph)@.evolves(graph@),
                count == self@.len(),
                i <= count,
                done@.len() == i,
                g == old(graph)@,
                e == *old(ev),
                b == (Binds {
                                ev: |r: &mut E, a: E, b: E| *r == a && *final(r) == b,
                                graph: |r: &mut Graph, a: GraphView, b: GraphView| r@ == a && final(r)@ == b,
                                cx: |r: &mut Evaluation, n: usize, a: Seq<(usize, Version)>, b: Seq<(usize, Version)>|
                                    r.parent_id() == n && r@ == a && final(r)@ == b,
                            }),
                updated_all(b, g, e, self@, i as int, graph@, *ev, done@),
                all_valid == (forall|i: int|
                    0 <= i < self@.len() ==> old(graph)@.has(#[trigger] self@[i])
                        && old(graph)@.valid(self@[i])),
                all_valid ==> graph@ == old(graph)@ && *ev == *old(ev) && forall|k: int|
                    0 <= k < i ==> #[trigger] done@[k] == Ok::<Update, Error>(Update::Unchanged),
            decreases count - i,
        {
            let r = list_get(self, i);
            proof {
                if all_valid {
                    assert(graph@.has(self@[i as int]) && graph@.valid(self@[i as int]));
                    crate::laws::lemma_valid_is_settled(graph@, r);
                    crate::update::lemma_with_state_same(graph@, r);
                }
            }
            let ghost mid = graph@;
            let ghost at = *ev;
            let ghost noted = done@;
            let one = graph.update(r, ev);
            done.push(one);
            proof {
                lemma_updated_all_noted(b, g, e, self@, i as int, mid, at, noted, done@);
                assert(passes(mid, at, i as int + 1));
                assert(updated_all(b, g, e, self@, i as int + 1 - 1, mid, at, done@));
                assert(done@[i as int + 1 - 1] == one);
                assert(updated_all(b, g, e, self@, i as int + 1, graph@, *ev, done@));
            }
            i += 1;
        }
        done
    }
}

} // verus!
